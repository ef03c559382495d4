use vstd::prelude::*;
use crate::game::{Game, GameView, refusal};
use crate::game_move::{Move, MoveView};

verus! {

/// A ruleset: the moves of one game, the state they lead to, and the rules
/// by which a move is applied and judged. The type of the moves implements
/// it; resolving, reducing and validating are written once, for every
/// ruleset.
///
/// The state is spoken of through its model, the value that the contracts
/// reason about.
pub trait Ruleset: Sized + Copy {
    /// The derived state of a game.
    type State;

    /// What a state is to the contracts.
    type Model;

    /// The model of `state`.
    spec fn model(state: &Self::State) -> Self::Model;

    /// Whether a state is one that the rules can work on.
    spec fn well_formed(model: Self::Model) -> bool;

    /// The state before any move.
    spec fn initial_model() -> Self::Model;

    /// The moves that led to a state, oldest first.
    spec fn history(model: Self::Model) -> Seq<MoveView<Self>>;

    /// Whether `next_move` can be applied to a state at all. This asks less
    /// than legality: every legal move can be applied.
    spec fn applicable(model: Self::Model, game: GameView, next_move: MoveView<Self>) -> bool;

    /// The state after `next_move`.
    spec fn applied(model: Self::Model, game: GameView, next_move: MoveView<Self>) -> Self::Model;

    /// Why `candidate` may not follow the moves of a state, or `None` if it
    /// may.
    spec fn rejection(candidate: MoveView<Self>, game: GameView, model: Self::Model) -> Option<
        Seq<char>,
    >;

    /// The examples that `describe` gives.
    spec fn examples() -> Seq<Self>;

    /// The initial state is well formed and has no history.
    proof fn lemma_initial()
        ensures
            Self::well_formed(Self::initial_model()),
            Self::history(Self::initial_model()) == Seq::<MoveView<Self>>::empty(),
    ;

    /// Applying a move keeps the state well formed and adds the move to the
    /// history.
    proof fn lemma_applied(model: Self::Model, game: GameView, next_move: MoveView<Self>)
        requires
            Self::well_formed(model),
            Self::applicable(model, game, next_move),
        ensures
            Self::well_formed(Self::applied(model, game, next_move)),
            Self::history(Self::applied(model, game, next_move)) == Self::history(model).push(
                next_move,
            ),
    ;

    /// A move that is accepted can be applied, and it keeps the turns: its
    /// author did not make the move before it, and the first move is player
    /// 2's.
    proof fn lemma_accepted(candidate: MoveView<Self>, game: GameView, model: Self::Model)
        requires
            Self::well_formed(model),
            Self::rejection(candidate, game, model) is None,
        ensures
            Self::applicable(model, game, candidate),
            Self::history(model).len() > 0 ==> Self::history(model).last().author
                != candidate.author,
            Self::history(model).len() == 0 ==> candidate.author == game.player_2,
    ;

    /// Whether two moves are the same move.
    fn same(&self, other: &Self) -> (same: bool)
        ensures
            same == (*self == *other),
    ;

    /// One example of each kind of move, for a client to show.
    fn describe() -> (examples: Vec<Self>)
        ensures
            examples@ == Self::examples(),
    ;

    /// The state before any move.
    fn initial() -> (state: Self::State)
        ensures
            Self::model(&state) == Self::initial_model(),
    ;

    /// Whether `next_move` can be applied to `state`.
    fn can_apply(state: &Self::State, game: &Game, next_move: &Move<Self>) -> (possible: bool)
        requires
            Self::well_formed(Self::model(state)),
        ensures
            possible == Self::applicable(Self::model(state), game@, next_move@),
    ;

    /// The state after `next_move`.
    fn apply(state: &Self::State, game: &Game, next_move: &Move<Self>) -> (next: Self::State)
        requires
            Self::well_formed(Self::model(state)),
            Self::applicable(Self::model(state), game@, next_move@),
        ensures
            Self::model(&next) == Self::applied(Self::model(state), game@, next_move@),
    ;

    /// Whether `candidate` may follow the moves in `state`.
    fn validate(candidate: &Move<Self>, game: &Game, state: Self::State) -> (outcome: Result<
        (),
        String,
    >)
        requires
            Self::well_formed(Self::model(&state)),
        ensures
            refusal(outcome) == Self::rejection(candidate@, game@, Self::model(&state)),
    ;
}

/// The state that the moves of a game lead to when they are applied in
/// order from the initial state, or `None` if one of them cannot be applied.
pub open spec fn reduce<M: Ruleset>(game: GameView, moves: Seq<MoveView<M>>) -> Option<M::Model>
    decreases moves.len(),
{
    if moves.len() == 0 {
        Some(M::initial_model())
    } else {
        match reduce::<M>(game, moves.drop_last()) {
            Some(model) => if M::applicable(model, game, moves.last()) {
                Some(M::applied(model, game, moves.last()))
            } else {
                None
            },
            None => None,
        }
    }
}

/// A state reached by applying moves is well formed, and its history is the
/// moves that were applied.
pub proof fn lemma_reduce<M: Ruleset>(game: GameView, moves: Seq<MoveView<M>>)
    ensures
        reduce::<M>(game, moves) matches Some(model) ==> M::well_formed(model) && M::history(model)
            == moves,
    decreases moves.len(),
{
    if moves.len() == 0 {
        M::lemma_initial();
        assert(moves =~= Seq::<MoveView<M>>::empty());
    } else {
        lemma_reduce::<M>(game, moves.drop_last());
        match reduce::<M>(game, moves.drop_last()) {
            Some(model) => {
                if M::applicable(model, game, moves.last()) {
                    M::lemma_applied(model, game, moves.last());
                    assert(moves.drop_last().push(moves.last()) =~= moves);
                }
            },
            None => {},
        }
    }
}

/// If some of the first moves cannot be applied, neither can all of them.
pub proof fn lemma_reduce_stuck<M: Ruleset>(game: GameView, moves: Seq<MoveView<M>>, count: int)
    requires
        0 <= count <= moves.len(),
        reduce::<M>(game, moves.take(count)) is None,
    ensures
        reduce::<M>(game, moves) is None,
    decreases moves.len() - count,
{
    if count < moves.len() {
        assert(moves.take(count + 1).drop_last() =~= moves.take(count));
        lemma_reduce_stuck::<M>(game, moves, count + 1);
    } else {
        assert(moves.take(count) =~= moves);
    }
}

/// The derived state is a function of the game and the ordered moves alone:
/// whoever reduces the same moves of the same game gets the same state.
pub proof fn lemma_reduce_deterministic<M: Ruleset>(
    game: GameView,
    moves: Seq<MoveView<M>>,
    other_game: GameView,
    other_moves: Seq<MoveView<M>>,
)
    requires
        game == other_game,
        moves.len() == other_moves.len(),
        forall|k: int| 0 <= k < moves.len() ==> moves[k] == other_moves[k],
    ensures
        reduce::<M>(game, moves) == reduce::<M>(other_game, other_moves),
{
    assert(moves =~= other_moves);
}

/// Whether every move of `moves` was accepted on the state that the moves
/// before it lead to.
pub open spec fn valid_chain<M: Ruleset>(game: GameView, moves: Seq<MoveView<M>>) -> bool {
    forall|count: int|
        0 <= count < moves.len() ==> (#[trigger] reduce::<M>(game, moves.take(count)) matches Some(
            model,
        ) && M::rejection(moves[count], game, model) is None)
}

/// In a valid chain the players alternate: no two moves in a row have the
/// same author, and the first move is player 2's.
pub proof fn lemma_turns_alternate<M: Ruleset>(game: GameView, moves: Seq<MoveView<M>>)
    requires
        valid_chain::<M>(game, moves),
    ensures
        forall|k: int|
            0 <= k < moves.len() - 1 ==> (#[trigger] moves[k]).author != moves[k + 1].author,
        moves.len() > 0 ==> moves[0].author == game.player_2,
{
    assert forall|k: int| 0 <= k < moves.len() - 1 implies (#[trigger] moves[k]).author != moves[k
        + 1].author by {
        let before = moves.take(k + 1);
        lemma_reduce::<M>(game, before);
        let model = reduce::<M>(game, before).unwrap();
        M::lemma_accepted(moves[k + 1], game, model);
        assert(before.last() == moves[k]);
    }
    if moves.len() > 0 {
        let before = moves.take(0);
        lemma_reduce::<M>(game, before);
        let model = reduce::<M>(game, before).unwrap();
        M::lemma_accepted(moves[0], game, model);
    }
}

/// A valid chain can be reduced: every one of its moves can be applied.
pub proof fn lemma_valid_chain_reduces<M: Ruleset>(game: GameView, moves: Seq<MoveView<M>>)
    requires
        valid_chain::<M>(game, moves),
    ensures
        reduce::<M>(game, moves) is Some,
    decreases moves.len(),
{
    if moves.len() > 0 {
        let before = moves.drop_last();
        assert(before =~= moves.take(moves.len() - 1));
        lemma_reduce::<M>(game, before);
        let model = reduce::<M>(game, before).unwrap();
        M::lemma_accepted(moves.last(), game, model);
    }
}

} // verus!
