use vstd::prelude::*;
use crate::game::{seat_of, Game, GameView};
use crate::game_move::{Move, MoveView};
use crate::rules::Ruleset;
use super::moves::{MoveType, Piece};
use super::state::{
    lemma_squares_holding_wf, mark_of, placed, state_reducer, GameState, GameStateView,
};
use super::validation::rejection;

verus! {

impl Ruleset for MoveType {
    type State = GameState;

    type Model = GameStateView;

    open spec fn model(state: &GameState) -> GameStateView {
        state@
    }

    open spec fn well_formed(model: GameStateView) -> bool {
        model.wf()
    }

    open spec fn initial_model() -> GameStateView {
        GameStateView::initial()
    }

    open spec fn history(model: GameStateView) -> Seq<MoveView<MoveType>> {
        model.moves
    }

    open spec fn applicable(
        model: GameStateView,
        game: GameView,
        next_move: MoveView<MoveType>,
    ) -> bool {
        model.can_reduce(game, next_move)
    }

    open spec fn applied(
        model: GameStateView,
        game: GameView,
        next_move: MoveView<MoveType>,
    ) -> GameStateView {
        model.reduce(game, next_move)
    }

    open spec fn rejection(
        candidate: MoveView<MoveType>,
        game: GameView,
        model: GameStateView,
    ) -> Option<Seq<char>> {
        rejection(candidate, game, model)
    }

    open spec fn examples() -> Seq<MoveType> {
        seq![MoveType::Place { pos: Piece { x: 0, y: 0 } }]
    }

    proof fn lemma_initial() {
    }

    proof fn lemma_applied(model: GameStateView, game: GameView, next_move: MoveView<MoveType>) {
        let player = seat_of(game, next_move.author).unwrap();
        let after = placed(model.occupancy(), next_move.move_type->pos, mark_of(player));
        lemma_squares_holding_wf(after, 1);
        lemma_squares_holding_wf(after, 2);
    }

    proof fn lemma_accepted(candidate: MoveView<MoveType>, game: GameView, model: GameStateView) {
    }

    fn same(&self, other: &MoveType) -> (same: bool) {
        *self == *other
    }

    fn describe() -> (examples: Vec<MoveType>) {
        MoveType::describe()
    }

    fn initial() -> (state: GameState) {
        GameState::initial()
    }

    fn can_apply(state: &GameState, game: &Game, next_move: &Move<MoveType>) -> (possible: bool) {
        state.can_reduce(game, next_move)
    }

    fn apply(state: &GameState, game: &Game, next_move: &Move<MoveType>) -> (next: GameState) {
        state_reducer(game.clone(), state.duplicate(), next_move)
    }

    fn validate(candidate: &Move<MoveType>, game: &Game, state: GameState) -> (outcome: Result<
        (),
        String,
    >) {
        candidate.is_valid(game.clone(), state)
    }
}

} // verus!
