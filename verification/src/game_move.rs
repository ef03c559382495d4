use vstd::prelude::*;
use crate::address::Address;
use crate::chain::{
    entry_views, find_game, is_not, lemma_without_inserted, resolve, without, ChainEntry,
    ChainEntryView, EntryAction, EntryContent, EntryContentView,
};
use crate::game::{get_game_local_chain, get_moves_local_chain, get_state, refusal};
use crate::rules::{reduce, Ruleset};

verus! {

/// One player's action in a game, as it is recorded in the store.
///
/// `M` is the move type of the ruleset that the game is played by. The moves
/// of a game form a chain: each names its predecessor in `previous_move`,
/// and the first names the game itself.
#[derive(Debug, PartialEq, Eq)]
pub struct Move<M> {
    pub game: Address,
    pub author: Address,
    pub move_type: M,
    pub previous_move: Address,
    pub timestamp: u32,
}

/// What a [`Move`] is to the contracts: its fields with each address as text.
pub struct MoveView<M> {
    pub game: Seq<char>,
    pub author: Seq<char>,
    pub move_type: M,
    pub previous_move: Seq<char>,
    pub timestamp: u32,
}

impl<M> View for Move<M> {
    type V = MoveView<M>;

    open spec fn view(&self) -> MoveView<M> {
        MoveView {
            game: self.game@,
            author: self.author@,
            move_type: self.move_type,
            previous_move: self.previous_move@,
            timestamp: self.timestamp,
        }
    }
}

impl<M: Copy> Clone for Move<M> {
    fn clone(&self) -> (copy: Move<M>)
        ensures
            copy@ == self@,
    {
        Move {
            game: self.game.clone(),
            author: self.author.clone(),
            move_type: self.move_type,
            previous_move: self.previous_move.clone(),
            timestamp: self.timestamp,
        }
    }
}

/// The views of a sequence of moves, in order.
pub open spec fn move_views<M>(moves: Seq<Move<M>>) -> Seq<MoveView<M>> {
    Seq::new(moves.len(), |k: int| moves[k]@)
}

/// A copy of `moves`.
pub fn clone_moves<M: Copy>(moves: &Vec<Move<M>>) -> (copy: Vec<Move<M>>)
    ensures
        move_views(copy@) == move_views(moves@),
{
    let mut copy: Vec<Move<M>> = Vec::new();
    let mut i: usize = 0;
    while i < moves.len()
        invariant
            i <= moves.len(),
            copy@.len() == i,
            forall|k: int| 0 <= k < i ==> copy@[k]@ == moves@[k]@,
        decreases moves.len() - i,
    {
        copy.push(moves[i].clone());
        i = i + 1;
    }
    assert(move_views(copy@) =~= move_views(moves@));
    copy
}

/// What a player hands in to make a move: the game, the move and the time.
/// The author and the predecessor are filled in when the record is made.
#[derive(Debug, PartialEq, Eq)]
pub struct MoveInput<M> {
    pub game: Address,
    pub move_type: M,
    pub timestamp: u32,
}

/// Whether two moves are the same move: the same in every field.
pub fn same_move<M: Ruleset>(one: &Move<M>, other: &Move<M>) -> (same: bool)
    ensures
        same == (one@ == other@),
{
    one.game == other.game && one.author == other.author && one.move_type.same(&other.move_type)
        && one.previous_move == other.previous_move && one.timestamp == other.timestamp
}

/// The records of `local_chain` but those that hold the move `candidate`,
/// in the order of the log.
pub fn exclude_move<M: Ruleset>(local_chain: &Vec<ChainEntry<M>>, candidate: &Move<M>) -> (rest:
    Vec<ChainEntry<M>>)
    ensures
        entry_views(rest@) == without(entry_views(local_chain@), candidate@),
{
    let ghost log = entry_views(local_chain@);
    let mut rest: Vec<ChainEntry<M>> = Vec::new();
    proof {
        assert(log.take(0) =~= Seq::<ChainEntryView<M>>::empty());
        log.take(0).lemma_filter_len(is_not(candidate@));
        assert(entry_views(rest@) =~= without(log.take(0), candidate@));
    }
    let mut i: usize = 0;
    while i < local_chain.len()
        invariant
            i <= local_chain.len(),
            log == entry_views(local_chain@),
            entry_views(rest@) == without(log.take(i as int), candidate@),
        decreases local_chain.len() - i,
    {
        let is_candidate = match &local_chain[i].content {
            EntryContent::Move(game_move) => same_move(game_move, candidate),
            _ => false,
        };
        proof {
            assert(log.take(i as int + 1) =~= log.take(i as int).push(log[i as int]));
            log.take(i as int).lemma_filter_push(log[i as int], is_not(candidate@));
            assert(is_candidate == !is_not(candidate@)(log[i as int]));
        }
        if !is_candidate {
            let ghost before = entry_views(rest@);
            rest.push(local_chain[i].clone());
            assert(entry_views(rest@) =~= before.push(log[i as int]));
        }
        i = i + 1;
    }
    assert(log.take(i as int) =~= log);
    rest
}

/// Why the record of the move `candidate` may not be written, or `None` if
/// it may.
///
/// A move may be made, never changed or removed. It is judged on the log of
/// the node that validates: the records that hold the candidate itself are
/// left out first, the other moves of the game are brought into order and
/// applied, and the candidate is judged on the state they lead to.
pub open spec fn move_entry_refusal<M: Ruleset>(
    action: EntryAction,
    candidate: MoveView<M>,
    source_chain: Option<Seq<ChainEntryView<M>>>,
) -> Option<Seq<char>> {
    if action != EntryAction::Create {
        Some("Cannot modify or delete a move"@)
    } else {
        match source_chain {
            None => Some("Could not retrieve source chain"@),
            Some(log) => {
                let rest = without(log, candidate);
                match resolve(rest, candidate.game) {
                    Err(_) => Some("Could not load state during validation"@),
                    Ok(moves) => match find_game(rest, candidate.game) {
                        None => Some("Could not load game during validation"@),
                        Some(game) => match reduce::<M>(game, moves) {
                            None => Some("Could not load state during validation"@),
                            Some(model) => M::rejection(candidate, game, model),
                        },
                    },
                }
            },
        }
    }
}

/// Whether the record of the move `new_move` may be written, judged on the
/// log `source_chain` of the node that validates.
pub fn validate_move_entry<M: Ruleset>(
    action: EntryAction,
    new_move: &Move<M>,
    source_chain: Option<&Vec<ChainEntry<M>>>,
) -> (outcome: Result<(), String>)
    ensures
        refusal(outcome) == move_entry_refusal(
            action,
            new_move@,
            match source_chain {
                Some(log) => Some(entry_views(log@)),
                None => None,
            },
        ),
{
    match action {
        EntryAction::Create => {},
        _ => {
            return Err("Cannot modify or delete a move".to_owned());
        },
    }
    let local_chain = match source_chain {
        Some(log) => exclude_move(log, new_move),
        None => {
            return Err("Could not retrieve source chain".to_owned());
        },
    };
    let moves = match get_moves_local_chain(&local_chain, &new_move.game) {
        Ok(moves) => moves,
        Err(_) => {
            return Err("Could not load state during validation".to_owned());
        },
    };
    let game = match get_game_local_chain(&local_chain, &new_move.game) {
        Ok(game) => game,
        Err(_) => {
            return Err("Could not load game during validation".to_owned());
        },
    };
    let state = match get_state(&game, &moves) {
        Ok(state) => state,
        Err(_) => {
            return Err("Could not load state during validation".to_owned());
        },
    };
    M::validate(new_move, &game, state)
}

/// A move that the log of the validating node already holds is judged as if
/// the log did not hold it: wherever it stands in the log, and under
/// whatever address, the outcome is the same.
pub proof fn lemma_duplicate_delivery<M: Ruleset>(
    action: EntryAction,
    candidate: MoveView<M>,
    log: Seq<ChainEntryView<M>>,
    place: int,
    address: Seq<char>,
)
    requires
        0 <= place <= log.len(),
    ensures
        move_entry_refusal(
            action,
            candidate,
            Some(
                log.insert(
                    place,
                    ChainEntryView { address, content: EntryContentView::Move(candidate) },
                ),
            ),
        ) == move_entry_refusal(action, candidate, Some(log)),
{
    lemma_without_inserted(log, candidate, place, address);
}

} // verus!
