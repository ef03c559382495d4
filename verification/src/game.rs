use vstd::prelude::*;
use crate::address::{texts, Address};
use crate::chain::{
    chained, entry_views, find_game, follows, holds_game, is_move_of, lemma_resolve_rearranged,
    move_in, rearranges, resolve, succeeds, successor, walk, ChainEntry, ChainEntryView,
    ChainError, EntryAction, EntryContent,
};
use crate::game_move::{move_views, Move, MoveView};
use crate::rules::{lemma_reduce_stuck, reduce, Ruleset};

verus! {

/// The root record of a game: its two players and the time it was made.
/// A game is never changed once it is made.
#[derive(Debug, PartialEq, Eq)]
pub struct Game {
    pub player_1: Address,
    pub player_2: Address,
    pub created_at: u32,
}

/// What a [`Game`] is to the contracts.
pub struct GameView {
    pub player_1: Seq<char>,
    pub player_2: Seq<char>,
    pub created_at: u32,
}

impl View for Game {
    type V = GameView;

    open spec fn view(&self) -> GameView {
        GameView {
            player_1: self.player_1@,
            player_2: self.player_2@,
            created_at: self.created_at,
        }
    }
}

impl Clone for Game {
    fn clone(&self) -> (copy: Game)
        ensures
            copy@ == self@,
    {
        Game {
            player_1: self.player_1.clone(),
            player_2: self.player_2.clone(),
            created_at: self.created_at,
        }
    }
}

/// One of the two seats of a game.
#[derive(Clone, Copy, Debug, PartialEq, Eq, Structural)]
pub enum Player {
    Player1,
    Player2,
}

/// The seat that `author` holds in `game`, if it holds exactly one.
pub open spec fn seat_of(game: GameView, author: Seq<char>) -> Option<Player> {
    if author == game.player_1 && author != game.player_2 {
        Some(Player::Player1)
    } else if author == game.player_2 && author != game.player_1 {
        Some(Player::Player2)
    } else {
        None
    }
}

/// Why `author` holds no seat in `game`, or `None` if it holds one.
pub open spec fn seat_refusal(game: GameView, author: Seq<char>) -> Option<Seq<char>> {
    if author == game.player_1 && author == game.player_2 {
        Some("Player cannot play themselves"@)
    } else if author != game.player_1 && author != game.player_2 {
        Some("Player is not part of this game!"@)
    } else {
        None
    }
}

/// The seat of `player_addr` in `game`. An agent that is both players, or
/// neither, has no seat.
pub fn get_current_player(game: &Game, player_addr: &Address) -> (seat: Result<Player, String>)
    ensures
        match seat {
            Ok(player) => seat_of(game@, player_addr@) == Some(player),
            Err(reason) => seat_of(game@, player_addr@) is None && seat_refusal(
                game@,
                player_addr@,
            ) == Some(reason@),
        },
{
    let first = *player_addr == game.player_1;
    let second = *player_addr == game.player_2;
    if first && second {
        Err("Player cannot play themselves".to_owned())
    } else if first {
        Ok(Player::Player1)
    } else if second {
        Ok(Player::Player2)
    } else {
        Err("Player is not part of this game!".to_owned())
    }
}

/// Why a check refused, as text, or `None` if it passed.
pub open spec fn refusal(outcome: Result<(), String>) -> Option<Seq<char>> {
    match outcome {
        Ok(_) => None,
        Err(reason) => Some(reason@),
    }
}

/// The game that `local_chain` holds under `game_address`.
pub fn get_game_local_chain<M>(
    local_chain: &Vec<ChainEntry<M>>,
    game_address: &Address,
) -> (found: Result<Game, ChainError>)
    ensures
        match found {
            Ok(game) => find_game(entry_views(local_chain@), game_address@) == Some(game@),
            Err(error) => error == ChainError::HashNotFound && find_game(
                entry_views(local_chain@),
                game_address@,
            ) is None,
        },
{
    let ghost log = entry_views(local_chain@);
    let mut i: usize = 0;
    while i < local_chain.len()
        invariant
            i <= local_chain.len(),
            log == entry_views(local_chain@),
            forall|before: int| 0 <= before < i ==> !holds_game(log, game_address@, before),
        decreases local_chain.len() - i,
    {
        if local_chain[i].address == *game_address {
            if let EntryContent::Game(game) = &local_chain[i].content {
                assert(holds_game(log, game_address@, i as int));
                return Ok(game.clone());
            }
        }
        i = i + 1;
    }
    Err(ChainError::HashNotFound)
}

/// Whether `entry` holds a move of the game at `game_address` that names
/// `tip` as its predecessor.
fn entry_follows<M>(entry: &ChainEntry<M>, game_address: &Address, tip: &Address) -> (yes:
    bool)
    ensures
        yes == follows(entry@, game_address@, tip@),
{
    match &entry.content {
        EntryContent::Move(game_move) => game_move.game == *game_address
            && game_move.previous_move == *tip,
        _ => false,
    }
}

/// Whether `entry` holds a move of the game at `game_address`.
fn entry_is_move_of<M>(entry: &ChainEntry<M>, game_address: &Address) -> (yes: bool)
    ensures
        yes == is_move_of(entry@, game_address@),
{
    match &entry.content {
        EntryContent::Move(game_move) => game_move.game == *game_address,
        _ => false,
    }
}

/// What the search for the records that follow a tip found.
enum Successor {
    /// No record follows.
    Nothing,
    /// The record at this place follows, and no other.
    Single(usize),
    /// More than one record follows.
    Several,
}

/// Looks through `local_chain` for the records that follow `tip`.
fn find_successor<M>(
    local_chain: &Vec<ChainEntry<M>>,
    game_address: &Address,
    tip: &Address,
) -> (found: Successor)
    ensures
        ({
            let log = entry_views(local_chain@);
            match found {
                Successor::Nothing => !exists|index: int|
                    succeeds(log, game_address@, tip@, index),
                Successor::Single(place) => succeeds(log, game_address@, tip@, place as int)
                    && successor(log, game_address@, tip@) == place && !exists|other: int|
                    other != place && succeeds(log, game_address@, tip@, other),
                Successor::Several => (exists|index: int|
                    succeeds(log, game_address@, tip@, index)) && exists|other: int|
                    other != successor(log, game_address@, tip@) && succeeds(
                        log,
                        game_address@,
                        tip@,
                        other,
                    ),
            }
        }),
{
    let ghost log = entry_views(local_chain@);
    let mut first: Option<usize> = None;
    let mut second: Option<usize> = None;
    let mut i: usize = 0;
    while i < local_chain.len()
        invariant
            i <= local_chain.len(),
            log == entry_views(local_chain@),
            first is None ==> second is None && forall|index: int|
                0 <= index < i ==> !succeeds(log, game_address@, tip@, index),
            first matches Some(place) ==> place < i && succeeds(
                log,
                game_address@,
                tip@,
                place as int,
            ),
            first matches Some(place) ==> (second is None ==> forall|index: int|
                0 <= index < i && index != place ==> !succeeds(log, game_address@, tip@, index)),
            second matches Some(place) ==> place < i && first != Some(place) && succeeds(
                log,
                game_address@,
                tip@,
                place as int,
            ),
        decreases local_chain.len() - i,
    {
        if entry_follows(&local_chain[i], game_address, tip) {
            if first.is_none() {
                first = Some(i);
            } else {
                second = Some(i);
            }
        }
        i = i + 1;
    }
    match first {
        None => Successor::Nothing,
        Some(place) => match second {
            None => {
                assert(succeeds(log, game_address@, tip@, place as int));
                Successor::Single(place)
            },
            Some(other_place) => {
                assert(succeeds(log, game_address@, tip@, place as int));
                assert(succeeds(log, game_address@, tip@, other_place as int));
                Successor::Several
            },
        },
    }
}

/// Whether every move of the game at `game_address` in `local_chain` is
/// marked in `visited`.
fn all_moves_visited<M>(
    local_chain: &Vec<ChainEntry<M>>,
    game_address: &Address,
    visited: &Vec<bool>,
) -> (yes: bool)
    requires
        visited.len() == local_chain.len(),
    ensures
        yes == forall|index: int|
            0 <= index < local_chain.len() && is_move_of(
                #[trigger] entry_views(local_chain@)[index],
                game_address@,
            ) ==> visited@[index],
{
    let ghost log = entry_views(local_chain@);
    let mut i: usize = 0;
    while i < local_chain.len()
        invariant
            i <= local_chain.len(),
            visited.len() == local_chain.len(),
            log == entry_views(local_chain@),
            forall|index: int|
                0 <= index < i && is_move_of(#[trigger] log[index], game_address@)
                    ==> visited@[index],
        decreases local_chain.len() - i,
    {
        if entry_is_move_of(&local_chain[i], game_address) && !visited[i] {
            assert(is_move_of(log[i as int], game_address@));
            return false;
        }
        i = i + 1;
    }
    true
}

/// The moves of the game at `game_address` that `local_chain` holds, oldest
/// first.
///
/// The log may hold them in any order: the first move is the one that names
/// the game as its predecessor, and each further move the one that names the
/// move before it. The moves must form one chain, or an error says why they
/// do not.
pub fn get_moves_local_chain<M: Copy>(
    local_chain: &Vec<ChainEntry<M>>,
    game_address: &Address,
) -> (moves: Result<Vec<Move<M>>, ChainError>)
    ensures
        match moves {
            Ok(found) => resolve(entry_views(local_chain@), game_address@) == Ok::<
                Seq<MoveView<M>>,
                ChainError,
            >(move_views(found@)),
            Err(error) => resolve(entry_views(local_chain@), game_address@) == Err::<
                Seq<MoveView<M>>,
                ChainError,
            >(error),
        },
{
    let ghost log = entry_views(local_chain@);
    let count = local_chain.len();
    let mut visited: Vec<bool> = Vec::new();
    let mut i: usize = 0;
    while i < count
        invariant
            i <= count,
            visited.len() == i,
            forall|index: int| 0 <= index < i ==> !visited@[index],
        decreases count - i,
    {
        visited.push(false);
        i = i + 1;
    }
    let mut found: Vec<Move<M>> = Vec::new();
    let mut tip = game_address.clone();
    let mut steps = count;
    let ghost mut passed: Set<int> = Set::empty();
    assert(move_views(found@) =~= Seq::<MoveView<M>>::empty());
    loop
        invariant
            count == local_chain.len(),
            log == entry_views(local_chain@),
            visited.len() == count,
            forall|index: int| 0 <= index < count ==> (visited@[index] <==> passed.contains(index)),
            walk(log, game_address@, tip@, passed, move_views(found@), steps as nat) == resolve(
                log,
                game_address@,
            ),
        decreases steps,
    {
        match find_successor(local_chain, game_address, &tip) {
            Successor::Nothing => {
                if all_moves_visited(local_chain, game_address, &visited) {
                    return Ok(found);
                } else {
                    return Err(ChainError::Detached);
                }
            },
            Successor::Several => {
                return Err(ChainError::Fork);
            },
            Successor::Single(place) => {
                if visited[place] || steps == 0 {
                    return Err(ChainError::Cycle);
                }
                if let EntryContent::Move(game_move) = &local_chain[place].content {
                    let ghost before = move_views(found@);
                    found.push(game_move.clone());
                    assert(move_views(found@) =~= before.push(move_in(log[place as int])));
                }
                visited.set(place, true);
                proof {
                    passed = passed.insert(place as int);
                }
                tip = local_chain[place].address.clone();
                steps = steps - 1;
            },
        }
    }
}

/// The state that `moves` lead to in `game`, applied in order from the
/// initial state.
pub fn get_state<M: Ruleset>(game: &Game, moves: &Vec<Move<M>>) -> (state: Result<
    M::State,
    ChainError,
>)
    ensures
        match state {
            Ok(reached) => reduce::<M>(game@, move_views(moves@)) == Some(M::model(&reached))
                && M::well_formed(M::model(&reached)),
            Err(error) => error == ChainError::Inapplicable && reduce::<M>(
                game@,
                move_views(moves@),
            ) is None,
        },
{
    let ghost all = move_views(moves@);
    let mut state = M::initial();
    proof {
        M::lemma_initial();
        assert(all.take(0) =~= Seq::<MoveView<M>>::empty());
    }
    let mut i: usize = 0;
    while i < moves.len()
        invariant
            i <= moves.len(),
            all == move_views(moves@),
            reduce::<M>(game@, all.take(i as int)) == Some(M::model(&state)),
            M::well_formed(M::model(&state)),
        decreases moves.len() - i,
    {
        proof {
            assert(all.take(i as int + 1).drop_last() =~= all.take(i as int));
            assert(all.take(i as int + 1).last() == moves@[i as int]@);
        }
        if !M::can_apply(&state, game, &moves[i]) {
            proof {
                lemma_reduce_stuck::<M>(game@, all, i as int + 1);
            }
            return Err(ChainError::Inapplicable);
        }
        proof {
            M::lemma_applied(M::model(&state), game@, moves@[i as int]@);
        }
        state = M::apply(&state, game, &moves[i]);
        i = i + 1;
    }
    assert(all.take(i as int) =~= all);
    Ok(state)
}

/// The state of the game at `game_address` as `log` gives it: the moves are
/// resolved, the game is looked up, and the moves are applied in order.
pub open spec fn derived_state<M: Ruleset>(log: Seq<ChainEntryView<M>>, game_address: Seq<char>)
    -> Result<M::Model, ChainError> {
    match resolve(log, game_address) {
        Err(error) => Err(error),
        Ok(moves) => match find_game(log, game_address) {
            None => Err(ChainError::HashNotFound),
            Some(game) => match reduce::<M>(game, moves) {
                None => Err(ChainError::Inapplicable),
                Some(model) => Ok(model),
            },
        },
    }
}

/// Two logs that hold the same records derive the same state, in whatever
/// order each holds them: every peer that has the records of a game derives
/// the state that every other peer derives. The records under the address
/// of the game are taken to hold one game, as they do in a store that finds
/// a record by what it holds.
pub proof fn lemma_derived_state_rearranged<M: Ruleset>(
    log: Seq<ChainEntryView<M>>,
    other: Seq<ChainEntryView<M>>,
    game_address: Seq<char>,
    place: Seq<int>,
)
    requires
        rearranges(log, other, place),
        forall|i: int, j: int|
            holds_game(log, game_address, i) && holds_game(log, game_address, j) ==> log[i].content
                == log[j].content,
    ensures
        derived_state::<M>(other, game_address) == derived_state::<M>(log, game_address),
{
    lemma_resolve_rearranged(log, other, game_address, place);
    if exists|index: int| holds_game(log, game_address, index) {
        let here = choose|index: int| holds_game(log, game_address, index);
        assert(other[place[here]] == log[here]);
        assert(holds_game(other, game_address, place[here]));
        let first_here = choose|index: int|
            holds_game(log, game_address, index) && forall|before: int|
                0 <= before < index ==> !holds_game(log, game_address, before);
        let first_there = choose|index: int|
            holds_game(other, game_address, index) && forall|before: int|
                0 <= before < index ==> !holds_game(other, game_address, before);
        lemma_first_game(log, game_address, here);
        lemma_first_game(other, game_address, place[here]);
        assert(place.contains(first_there));
        let back = choose|k: int| 0 <= k < place.len() && place[k] == first_there;
        assert(other[place[back]] == log[back]);
        assert(holds_game(log, game_address, back));
    } else {
        if exists|index: int| holds_game(other, game_address, index) {
            let there = choose|index: int| holds_game(other, game_address, index);
            assert(place.contains(there));
            let back = choose|k: int| 0 <= k < place.len() && place[k] == there;
            assert(other[place[back]] == log[back]);
            assert(holds_game(log, game_address, back));
        }
    }
}

/// Where a log holds a game under an address, there is a first record that
/// does.
proof fn lemma_first_game<M>(log: Seq<ChainEntryView<M>>, game_address: Seq<char>, index: int)
    requires
        holds_game(log, game_address, index),
    ensures
        exists|first: int|
            holds_game(log, game_address, first) && forall|before: int|
                0 <= before < first ==> !holds_game(log, game_address, before),
    decreases index,
{
    if exists|before: int| 0 <= before < index && holds_game(log, game_address, before) {
        let before = choose|before: int|
            0 <= before < index && holds_game(log, game_address, before);
        lemma_first_game(log, game_address, before);
    }
}

/// The state of the game at `game_address`, derived from the records of
/// `local_chain` alone.
pub fn get_state_local_chain<M: Ruleset>(
    local_chain: &Vec<ChainEntry<M>>,
    game_address: &Address,
) -> (state: Result<M::State, ChainError>)
    ensures
        match state {
            Ok(reached) => derived_state::<M>(entry_views(local_chain@), game_address@) == Ok::<
                M::Model,
                ChainError,
            >(M::model(&reached)) && M::well_formed(M::model(&reached)),
            Err(error) => derived_state::<M>(entry_views(local_chain@), game_address@) == Err::<
                M::Model,
                ChainError,
            >(error),
        },
{
    let moves = match get_moves_local_chain(local_chain, game_address) {
        Ok(moves) => moves,
        Err(error) => {
            return Err(error);
        },
    };
    let game = match get_game_local_chain(local_chain, game_address) {
        Ok(game) => game,
        Err(error) => {
            return Err(error);
        },
    };
    get_state(&game, &moves)
}

/// Whether a record of a game may be written: a game may be made, and never
/// changed or removed after.
pub fn validate_game_entry(action: EntryAction) -> (outcome: Result<(), String>)
    ensures
        refusal(outcome) == if action == EntryAction::Create {
            None
        } else {
            Some("Cannot modify or delete a game"@)
        },
{
    match action {
        EntryAction::Create => Ok(()),
        _ => Err("Cannot modify or delete a game".to_owned()),
    }
}

/// What the store gave for each address of a walk, as views: the move held
/// there, or `None` where it holds none.
pub open spec fn fetched_views<M>(fetched: Seq<Option<Move<M>>>) -> Seq<Option<MoveView<M>>> {
    Seq::new(
        fetched.len(),
        |k: int|
            match fetched[k] {
                Some(game_move) => Some(game_move@),
                None => None,
            },
    )
}

/// The moves of the game at `game`, given the addresses that a walk along
/// the links passed and what the store holds under each: the moves held
/// there, if none is missing and each names the record before it.
pub open spec fn collected<M>(
    game: Seq<char>,
    addresses: Seq<Seq<char>>,
    fetched: Seq<Option<MoveView<M>>>,
) -> Result<Seq<MoveView<M>>, ChainError> {
    if fetched.len() != addresses.len() || exists|k: int|
        0 <= k < fetched.len() && fetched[k] is None {
        Err(ChainError::MissingEntry)
    } else {
        let moves = Seq::new(fetched.len(), |k: int| fetched[k].unwrap());
        if chained(game, addresses, moves) {
            Ok(moves)
        } else {
            Err(ChainError::Broken)
        }
    }
}

/// The moves of the game at `game_address`, oldest first, from what a walk
/// along the links of the store brought: the addresses it passed, and for
/// each the move that the store holds there, or `None` where it holds none.
///
/// A missing move is an error, and so is a move that does not name the
/// record before it: the links only lead to the moves, the order is that of
/// the predecessors they name.
pub fn get_moves<M: Copy>(
    game_address: &Address,
    addresses: &Vec<Address>,
    fetched: &Vec<Option<Move<M>>>,
) -> (moves: Result<Vec<Move<M>>, ChainError>)
    ensures
        match moves {
            Ok(found) => collected(game_address@, texts(addresses@), fetched_views(fetched@))
                == Ok::<Seq<MoveView<M>>, ChainError>(move_views(found@)),
            Err(error) => collected(game_address@, texts(addresses@), fetched_views(fetched@))
                == Err::<Seq<MoveView<M>>, ChainError>(error),
        },
{
    let ghost given = fetched_views(fetched@);
    let ghost places = texts(addresses@);
    if fetched.len() != addresses.len() {
        return Err(ChainError::MissingEntry);
    }
    let mut found: Vec<Move<M>> = Vec::new();
    let mut i: usize = 0;
    while i < fetched.len()
        invariant
            i <= fetched.len(),
            given == fetched_views(fetched@),
            found.len() == i,
            forall|k: int| 0 <= k < i ==> #[trigger] given[k] == Some(found@[k]@),
        decreases fetched.len() - i,
    {
        match &fetched[i] {
            Some(game_move) => {
                found.push(game_move.clone());
            },
            None => {
                assert(given[i as int] is None);
                return Err(ChainError::MissingEntry);
            },
        }
        i = i + 1;
    }
    let ghost moves = Seq::new(given.len(), |k: int| given[k].unwrap());
    assert(move_views(found@) =~= moves);
    let mut j: usize = 0;
    while j < found.len()
        invariant
            j <= found.len(),
            found.len() == addresses.len(),
            fetched.len() == addresses.len(),
            places == texts(addresses@),
            given == fetched_views(fetched@),
            forall|k: int| 0 <= k < given.len() ==> given[k] is Some,
            moves == Seq::new(given.len(), |k: int| given[k].unwrap()),
            moves == move_views(found@),
            forall|k: int|
                0 <= k < j ==> (#[trigger] moves[k]).game == game_address@
                    && moves[k].previous_move == (if k == 0 {
                    game_address@
                } else {
                    places[k - 1]
                }),
        decreases found.len() - j,
    {
        let named = if j == 0 {
            game_address
        } else {
            &addresses[j - 1]
        };
        if !(found[j].game == *game_address && found[j].previous_move == *named) {
            assert(!(moves[j as int].game == game_address@ && moves[j as int].previous_move == (
            if j == 0 {
                game_address@
            } else {
                places[j - 1]
            })));
            return Err(ChainError::Broken);
        }
        j = j + 1;
    }
    Ok(found)
}

/// Why it is not `author`'s turn after `moves`, or `None` if it is. After a
/// move the turn is with whoever did not make it; the first move is player
/// 2's, who takes up the game by it.
pub open spec fn turn_refusal<M>(author: Seq<char>, game: GameView, moves: Seq<MoveView<M>>)
    -> Option<Seq<char>> {
    if moves.len() > 0 {
        if moves.last().author == author {
            Some("It is not this players turn."@)
        } else {
            None
        }
    } else if game.player_2 == author {
        None
    } else {
        Some("Player 2 must make the first move."@)
    }
}

/// Whether it is `player`'s turn after `moves`.
pub fn check_turn<M>(player: &Address, game: &Game, moves: &Vec<Move<M>>) -> (outcome: Result<
    (),
    String,
>)
    ensures
        refusal(outcome) == turn_refusal(player@, game@, move_views(moves@)),
{
    let count = moves.len();
    if count > 0 {
        assert(move_views(moves@).last() == moves@[count - 1]@);
        if moves[count - 1].author == *player {
            Err("It is not this players turn.".to_owned())
        } else {
            Ok(())
        }
    } else if game.player_2 == *player {
        Ok(())
    } else {
        Err("Player 2 must make the first move.".to_owned())
    }
}

} // verus!
