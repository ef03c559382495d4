use vstd::prelude::*;
use crate::game::{Game, GameView};
use crate::game_move::{Move, MoveView};
use crate::rules::{reduce, Ruleset};
use super::moves::{MoveType, Piece};
use super::state::{
    lemma_evolve_keeps_one_piece_per_square, lemma_initial_one_piece_per_square,
    lemma_squares_holding_wf, mark_of, moved, one_piece_per_square, GameState, GameStateView,
};
use super::validation::rejection;

verus! {

impl Ruleset for MoveType {
    type State = GameState;

    type Model = GameStateView;

    open spec fn model(state: &GameState) -> GameStateView {
        state@
    }

    open spec fn well_formed(model: GameStateView) -> bool {
        model.wf()
    }

    open spec fn initial_model() -> GameStateView {
        GameStateView::initial()
    }

    open spec fn history(model: GameStateView) -> Seq<MoveView<MoveType>> {
        model.moves
    }

    open spec fn applicable(
        model: GameStateView,
        game: GameView,
        next_move: MoveView<MoveType>,
    ) -> bool {
        model.can_evolve(game, next_move)
    }

    open spec fn applied(
        model: GameStateView,
        game: GameView,
        next_move: MoveView<MoveType>,
    ) -> GameStateView {
        model.evolve(game, next_move)
    }

    open spec fn rejection(
        candidate: MoveView<MoveType>,
        game: GameView,
        model: GameStateView,
    ) -> Option<Seq<char>> {
        rejection(candidate, game, model)
    }

    open spec fn examples() -> Seq<MoveType> {
        seq![
            MoveType::MovePiece { from: Piece { x: 0, y: 0 }, to: Piece { x: 1, y: 1 } },
            MoveType::Resign,
        ]
    }

    proof fn lemma_initial() {
    }

    proof fn lemma_applied(model: GameStateView, game: GameView, next_move: MoveView<MoveType>) {
        match next_move.move_type {
            MoveType::MovePiece { from, to } => {
                let player = crate::game::seat_of(game, next_move.author).unwrap();
                lemma_squares_holding_wf(moved(model.occupancy(), from, to, mark_of(player)));
            },
            MoveType::Resign => {},
        }
    }

    proof fn lemma_accepted(candidate: MoveView<MoveType>, game: GameView, model: GameStateView) {
    }

    fn same(&self, other: &MoveType) -> (same: bool) {
        *self == *other
    }

    fn describe() -> (examples: Vec<MoveType>) {
        MoveType::describe()
    }

    fn initial() -> (state: GameState) {
        GameState::initial()
    }

    fn can_apply(state: &GameState, game: &Game, next_move: &Move<MoveType>) -> (possible: bool) {
        state.can_evolve(game, next_move)
    }

    fn apply(state: &GameState, game: &Game, next_move: &Move<MoveType>) -> (next: GameState) {
        state.evolve(game.clone(), next_move)
    }

    fn validate(candidate: &Move<MoveType>, game: &Game, state: GameState) -> (outcome: Result<
        (),
        String,
    >) {
        candidate.is_valid(game.clone(), state)
    }
}

/// Whatever moves a game of checkers has seen, no square of its board holds
/// two pieces, and no piece belongs to both players.
pub proof fn lemma_one_piece_per_square(game: GameView, moves: Seq<MoveView<MoveType>>)
    ensures
        reduce::<MoveType>(game, moves) matches Some(state) ==> state.wf() && one_piece_per_square(
            state.player_1.pieces,
            state.player_2.pieces,
        ),
    decreases moves.len(),
{
    if moves.len() == 0 {
        lemma_initial_one_piece_per_square();
    } else {
        lemma_one_piece_per_square(game, moves.drop_last());
        match reduce::<MoveType>(game, moves.drop_last()) {
            Some(state) => {
                if state.can_evolve(game, moves.last()) {
                    lemma_evolve_keeps_one_piece_per_square(state, game, moves.last());
                    MoveType::lemma_applied(state, game, moves.last());
                }
            },
            None => {},
        }
    }
}

} // verus!
