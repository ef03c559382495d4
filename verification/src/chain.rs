use vstd::prelude::*;
use vstd::set_lib::{lemma_int_range, lemma_len_subset, set_int_range};
use crate::address::{contains_address, texts, Address};
use crate::game::{Game, GameView};
use crate::game_move::{Move, MoveView};

verus! {

/// Why the records of a game could not be brought into one chain, or the
/// chain into a state.
#[derive(Clone, Copy, Debug, PartialEq, Eq, Structural)]
pub enum ChainError {
    /// No record of the game is held under the address given.
    HashNotFound,
    /// Two moves name the same predecessor.
    Fork,
    /// Following the moves leads back to a record that was passed before.
    Cycle,
    /// A move of the game cannot be reached from the game: a predecessor
    /// is missing.
    Detached,
    /// The store holds no move under an address that the chain leads to.
    MissingEntry,
    /// A move does not name the record that the chain reached it from.
    Broken,
    /// A move of the chain cannot be applied to the state before it.
    Inapplicable,
}

impl ChainError {
    /// The error in words.
    pub fn reason(&self) -> (text: String)
        ensures
            text@ == match *self {
                ChainError::HashNotFound => "No game is held under this address"@,
                ChainError::Fork => "Two moves follow the same record"@,
                ChainError::Cycle => "The moves lead back to a record passed before"@,
                ChainError::Detached => "A move cannot be reached from the game"@,
                ChainError::MissingEntry => "A move of the chain is missing from the store"@,
                ChainError::Broken => "A move does not name the record before it"@,
                ChainError::Inapplicable => "A move of the chain cannot be applied"@,
            },
    {
        match self {
            ChainError::HashNotFound => "No game is held under this address".to_owned(),
            ChainError::Fork => "Two moves follow the same record".to_owned(),
            ChainError::Cycle => "The moves lead back to a record passed before".to_owned(),
            ChainError::Detached => "A move cannot be reached from the game".to_owned(),
            ChainError::MissingEntry => "A move of the chain is missing from the store".to_owned(),
            ChainError::Broken => "A move does not name the record before it".to_owned(),
            ChainError::Inapplicable => "A move of the chain cannot be applied".to_owned(),
        }
    }
}

/// What is being done to a record that is put up for validation.
#[derive(Clone, Copy, Debug, PartialEq, Eq, Structural)]
pub enum EntryAction {
    /// The record is new.
    Create,
    /// The record is to replace an older one.
    Modify,
    /// The record is to be removed.
    Delete,
}

/// What a record of a node's local log holds.
#[derive(Debug, PartialEq, Eq)]
pub enum EntryContent<M> {
    /// A game.
    Game(Game),
    /// A move of some game.
    Move(Move<M>),
    /// Anything else.
    Other,
}

/// A record of a node's local log, with the address it is held under.
#[derive(Debug, PartialEq, Eq)]
pub struct ChainEntry<M> {
    pub address: Address,
    pub content: EntryContent<M>,
}

/// What an [`EntryContent`] is to the contracts.
pub enum EntryContentView<M> {
    Game(GameView),
    Move(MoveView<M>),
    Other,
}

/// What a [`ChainEntry`] is to the contracts.
pub struct ChainEntryView<M> {
    pub address: Seq<char>,
    pub content: EntryContentView<M>,
}

impl<M> View for EntryContent<M> {
    type V = EntryContentView<M>;

    open spec fn view(&self) -> EntryContentView<M> {
        match *self {
            EntryContent::Game(game) => EntryContentView::Game(game@),
            EntryContent::Move(game_move) => EntryContentView::Move(game_move@),
            EntryContent::Other => EntryContentView::Other,
        }
    }
}

impl<M> View for ChainEntry<M> {
    type V = ChainEntryView<M>;

    open spec fn view(&self) -> ChainEntryView<M> {
        ChainEntryView { address: self.address@, content: self.content@ }
    }
}

impl<M: Copy> Clone for ChainEntry<M> {
    fn clone(&self) -> (copy: ChainEntry<M>)
        ensures
            copy@ == self@,
    {
        let content = match &self.content {
            EntryContent::Game(game) => EntryContent::Game(game.clone()),
            EntryContent::Move(game_move) => EntryContent::Move(game_move.clone()),
            EntryContent::Other => EntryContent::Other,
        };
        ChainEntry { address: self.address.clone(), content }
    }
}

/// The views of the records of a log, in the order of the log.
pub open spec fn entry_views<M>(log: Seq<ChainEntry<M>>) -> Seq<ChainEntryView<M>> {
    Seq::new(log.len(), |k: int| log[k]@)
}

/// Whether `entry` holds a move of the game at `game`.
pub open spec fn is_move_of<M>(entry: ChainEntryView<M>, game: Seq<char>) -> bool {
    entry.content matches EntryContentView::Move(game_move) && game_move.game == game
}

/// Whether `entry` holds a move of the game at `game` that names `tip` as
/// its predecessor.
pub open spec fn follows<M>(entry: ChainEntryView<M>, game: Seq<char>, tip: Seq<char>) -> bool {
    entry.content matches EntryContentView::Move(game_move) && game_move.game == game
        && game_move.previous_move == tip
}

/// Whether the record at `index` of `log` follows `tip`.
pub open spec fn succeeds<M>(
    log: Seq<ChainEntryView<M>>,
    game: Seq<char>,
    tip: Seq<char>,
    index: int,
) -> bool {
    0 <= index < log.len() && follows(log[index], game, tip)
}

/// The place in `log` of a record that follows `tip`; where exactly one
/// record does, this is its place.
pub open spec fn successor<M>(log: Seq<ChainEntryView<M>>, game: Seq<char>, tip: Seq<char>) -> int {
    choose|index: int| succeeds(log, game, tip, index)
}

/// The move that a record holds.
pub open spec fn move_in<M>(entry: ChainEntryView<M>) -> MoveView<M> {
    entry.content->Move_0
}

/// The walk along a game's moves from `tip` on, when the records at
/// `visited` were passed already and held the moves `found`.
///
/// Where no record follows `tip` the walk ends: with `found`, if every move
/// of the game was passed, and else with the finding that a move is
/// detached. Where two records follow `tip` the chain forks. Where the one
/// record that follows was passed before, or more steps were made than
/// `steps` allows, the moves run in a cycle. Else the walk goes on from
/// that record.
pub open spec fn walk<M>(
    log: Seq<ChainEntryView<M>>,
    game: Seq<char>,
    tip: Seq<char>,
    visited: Set<int>,
    found: Seq<MoveView<M>>,
    steps: nat,
) -> Result<Seq<MoveView<M>>, ChainError>
    decreases steps,
{
    if !exists|index: int| succeeds(log, game, tip, index) {
        if forall|index: int|
            0 <= index < log.len() && is_move_of(#[trigger] log[index], game) ==> visited.contains(
                index,
            ) {
            Ok(found)
        } else {
            Err(ChainError::Detached)
        }
    } else {
        let next = successor(log, game, tip);
        if exists|other: int| other != next && succeeds(log, game, tip, other) {
            Err(ChainError::Fork)
        } else if visited.contains(next) || steps == 0 {
            Err(ChainError::Cycle)
        } else {
            walk(
                log,
                game,
                log[next].address,
                visited.insert(next),
                found.push(move_in(log[next])),
                (steps - 1) as nat,
            )
        }
    }
}

/// The moves of the game at `game` that `log` holds, oldest first: the walk
/// from the game itself. The order of the log plays no part in it; each move
/// is found by the predecessor that it names.
pub open spec fn resolve<M>(log: Seq<ChainEntryView<M>>, game: Seq<char>) -> Result<
    Seq<MoveView<M>>,
    ChainError,
> {
    walk(log, game, game, Set::empty(), Seq::empty(), log.len())
}

/// Whether the record at `index` of `log` holds a game under the address
/// `game`.
pub open spec fn holds_game<M>(log: Seq<ChainEntryView<M>>, game: Seq<char>, index: int) -> bool {
    0 <= index < log.len() && log[index].address == game && log[index].content is Game
}

/// The game that `log` holds under the address `game`: that of the first
/// such record, or `None` if there is none.
pub open spec fn find_game<M>(log: Seq<ChainEntryView<M>>, game: Seq<char>) -> Option<GameView> {
    if exists|index: int| holds_game(log, game, index) {
        let first = choose|index: int|
            holds_game(log, game, index) && forall|before: int|
                0 <= before < index ==> !holds_game(log, game, before);
        Some(log[first].content->Game_0)
    } else {
        None
    }
}

/// The test whether a record holds something else than the move `candidate`.
pub open spec fn is_not<M>(candidate: MoveView<M>) -> spec_fn(ChainEntryView<M>) -> bool {
    |entry: ChainEntryView<M>| entry.content != EntryContentView::Move(candidate)
}

/// The log without the records that hold the move `candidate`.
pub open spec fn without<M>(log: Seq<ChainEntryView<M>>, candidate: MoveView<M>) -> Seq<
    ChainEntryView<M>,
> {
    log.filter(is_not(candidate))
}

/// A log that does not hold the move is the same without it.
pub proof fn lemma_without_absent<M>(log: Seq<ChainEntryView<M>>, candidate: MoveView<M>)
    requires
        forall|k: int| 0 <= k < log.len() ==> (#[trigger] log[k]).content != EntryContentView::Move(
            candidate,
        ),
    ensures
        without(log, candidate) == log,
    decreases log.len(),
{
    if log.len() == 0 {
        log.lemma_filter_len(is_not(candidate));
        assert(without(log, candidate) =~= log);
    } else {
        lemma_without_absent(log.drop_last(), candidate);
        log.drop_last().lemma_filter_push(log.last(), is_not(candidate));
        assert(log.drop_last().push(log.last()) =~= log);
    }
}

/// Wherever the move is put into a log, and under whatever address, the log
/// without it is the same.
pub proof fn lemma_without_inserted<M>(
    log: Seq<ChainEntryView<M>>,
    candidate: MoveView<M>,
    place: int,
    address: Seq<char>,
)
    requires
        0 <= place <= log.len(),
    ensures
        without(
            log.insert(
                place,
                ChainEntryView { address, content: EntryContentView::Move(candidate) },
            ),
            candidate,
        ) == without(log, candidate),
{
    let entry = ChainEntryView { address, content: EntryContentView::Move(candidate) };
    let head = log.subrange(0, place);
    let tail = log.subrange(place, log.len() as int);
    assert(log.insert(place, entry) =~= head.push(entry) + tail);
    assert(log =~= head + tail);
    Seq::filter_distributes_over_add(head.push(entry), tail, is_not(candidate));
    Seq::filter_distributes_over_add(head, tail, is_not(candidate));
    head.lemma_filter_push(entry, is_not(candidate));
}

/// What a walk through the store does next.
#[derive(Clone, Copy, Debug, PartialEq, Eq, Structural)]
pub enum WalkStep {
    /// The links of the new tip are wanted.
    Follow,
    /// The chain has ended: the last record reached has no successor.
    Finished,
}

/// A walk along the links of the store, from a game to its last move.
///
/// The walk does not read the store. Whoever runs it hands it the links that
/// lead on from [`ChainWalk::tip`], and is told whether to go on. The walk
/// holds the addresses of the moves passed so far, oldest first.
#[derive(Debug)]
pub struct ChainWalk {
    root: Address,
    passed: Vec<Address>,
}

impl ChainWalk {
    /// The address of the game that the walk began at.
    pub closed spec fn root(&self) -> Seq<char> {
        self.root@
    }

    /// The addresses of the moves passed so far, oldest first.
    pub closed spec fn path(&self) -> Seq<Seq<char>> {
        texts(self.passed@)
    }

    /// The walk at its beginning: at the game, with no move passed.
    pub fn begin(game_address: Address) -> (walk: ChainWalk)
        ensures
            walk.root() == game_address@,
            walk.path() == Seq::<Seq<char>>::empty(),
    {
        let walk = ChainWalk { root: game_address, passed: Vec::new() };
        assert(walk.path() =~= Seq::<Seq<char>>::empty());
        walk
    }

    /// The record whose links are wanted next: the last move passed, or the
    /// game if none was.
    pub fn tip(&self) -> (tip: &Address)
        ensures
            tip@ == if self.path().len() == 0 {
                self.root()
            } else {
                self.path().last()
            },
    {
        let count = self.passed.len();
        if count == 0 {
            &self.root
        } else {
            &self.passed[count - 1]
        }
    }

    /// Takes the walk one step on, given the links that lead on from the
    /// tip.
    ///
    /// With no link the chain has ended. More than one link is a fork. One
    /// link is followed, unless it leads to the game or to a move passed
    /// before, which is a cycle. After an error the walk is as it was.
    pub fn advance(&mut self, links: &Vec<Address>) -> (step: Result<WalkStep, ChainError>)
        ensures
            final(self).root() == old(self).root(),
            step == if links.len() == 0 {
                Ok::<WalkStep, ChainError>(WalkStep::Finished)
            } else if links.len() > 1 {
                Err(ChainError::Fork)
            } else if links@[0]@ == old(self).root() || old(self).path().contains(links@[0]@) {
                Err(ChainError::Cycle)
            } else {
                Ok(WalkStep::Follow)
            },
            final(self).path() == if step == Ok::<WalkStep, ChainError>(WalkStep::Follow) {
                old(self).path().push(links@[0]@)
            } else {
                old(self).path()
            },
    {
        if links.len() == 0 {
            return Ok(WalkStep::Finished);
        }
        if links.len() > 1 {
            return Err(ChainError::Fork);
        }
        if links[0] == self.root || contains_address(&self.passed, &links[0]) {
            return Err(ChainError::Cycle);
        }
        let ghost before = self.path();
        self.passed.push(links[0].clone());
        assert(self.path() =~= before.push(links@[0]@));
        Ok(WalkStep::Follow)
    }

    /// The addresses of the moves passed, oldest first.
    pub fn into_addresses(self) -> (addresses: Vec<Address>)
        ensures
            texts(addresses@) == self.path(),
    {
        self.passed
    }
}

/// Whether `moves` are the moves of the game at `game` held under
/// `addresses`, each naming the record before it: the first names the game,
/// and every other the address of the move before it.
pub open spec fn chained<M>(
    game: Seq<char>,
    addresses: Seq<Seq<char>>,
    moves: Seq<MoveView<M>>,
) -> bool {
    &&& moves.len() == addresses.len()
    &&& forall|k: int|
        0 <= k < moves.len() ==> (#[trigger] moves[k]).game == game && moves[k].previous_move == (
        if k == 0 {
            game
        } else {
            addresses[k - 1]
        })
}

/// The moves that `log` holds at the places `order`, in that order.
pub open spec fn moves_at<M>(log: Seq<ChainEntryView<M>>, order: Seq<int>) -> Seq<MoveView<M>> {
    Seq::new(order.len(), |i: int| move_in(log[order[i]]))
}

/// The records that a walk along the places `order` stands at, one after the
/// other: the game, and then the address of each record passed.
pub open spec fn tips<M>(log: Seq<ChainEntryView<M>>, game: Seq<char>, order: Seq<int>) -> Seq<
    Seq<char>,
> {
    Seq::new(
        order.len() + 1,
        |i: int|
            if i == 0 {
                game
            } else {
                log[order[i - 1]].address
            },
    )
}

/// Whether the places `order` of `log` hold moves of the game at `game`,
/// none twice, each naming the record before it: the first names the game,
/// and every other the address of the move before it.
pub open spec fn is_path<M>(log: Seq<ChainEntryView<M>>, game: Seq<char>, order: Seq<int>) -> bool {
    &&& forall|i: int|
        0 <= i < order.len() ==> 0 <= #[trigger] order[i] < log.len() && is_move_of(
            log[order[i]],
            game,
        )
    &&& order.no_duplicates()
    &&& forall|i: int|
        0 <= i < order.len() ==> move_in(log[#[trigger] order[i]]).previous_move == tips(
            log,
            game,
            order,
        )[i]
}

/// Whether `order` brings all the moves of the game at `game` that `log`
/// holds into one chain: it is a path, and no move of the game is left out.
pub open spec fn is_order<M>(log: Seq<ChainEntryView<M>>, game: Seq<char>, order: Seq<int>) -> bool {
    &&& is_path(log, game, order)
    &&& forall|index: int|
        0 <= index < log.len() && is_move_of(#[trigger] log[index], game) ==> order.contains(index)
}

/// What the walk gives is a chain: if the moves of a game resolve, there is
/// an order of the records that hold them in which they are the moves
/// resolved, each names the one before it, the first names the game, and no
/// move of the game is left out or taken twice. The addresses along the
/// chain differ from each other and from the game's.
pub proof fn lemma_resolve_sound<M>(log: Seq<ChainEntryView<M>>, game: Seq<char>)
    requires
        resolve(log, game) is Ok,
    ensures
        exists|order: Seq<int>|
            is_order(log, game, order) && tips(log, game, order).no_duplicates() && resolve(
                log,
                game,
            ) == Ok::<Seq<MoveView<M>>, ChainError>(#[trigger] moves_at(log, order)),
{
    let none = Seq::<int>::empty();
    assert(moves_at(log, none) =~= Seq::<MoveView<M>>::empty());
    lemma_walk_sound(log, game, game, Set::empty(), Seq::empty(), log.len(), none);
}

/// A walk that ends well stands where it never stood before: else it would
/// go on to a record that it has passed.
proof fn lemma_tip_is_new<M>(
    log: Seq<ChainEntryView<M>>,
    game: Seq<char>,
    tip: Seq<char>,
    visited: Set<int>,
    found: Seq<MoveView<M>>,
    steps: nat,
    order: Seq<int>,
)
    requires
        walk(log, game, tip, visited, found, steps) is Ok,
        is_path(log, game, order),
        forall|index: int| visited.contains(index) <==> order.contains(index),
        tip == tips(log, game, order).last(),
        tips(log, game, order).drop_last().no_duplicates(),
    ensures
        tips(log, game, order).no_duplicates(),
{
    let passed = tips(log, game, order);
    assert forall|i: int, j: int|
        0 <= i < passed.len() && 0 <= j < passed.len() && i != j implies passed[i]
        != passed[j] by {
        if i < order.len() && j < order.len() {
            assert(passed.drop_last()[i] == passed[i]);
            assert(passed.drop_last()[j] == passed[j]);
        } else {
            let early = if i < order.len() {
                i
            } else {
                j
            };
            if passed[early] == tip {
                assert(move_in(log[order[early]]).previous_move == passed[early]);
                assert(succeeds(log, game, tip, order[early]));
                assert(order.contains(order[early]));
            }
        }
    }
}

proof fn lemma_walk_sound<M>(
    log: Seq<ChainEntryView<M>>,
    game: Seq<char>,
    tip: Seq<char>,
    visited: Set<int>,
    found: Seq<MoveView<M>>,
    steps: nat,
    order: Seq<int>,
)
    requires
        walk(log, game, tip, visited, found, steps) is Ok,
        is_path(log, game, order),
        found == moves_at(log, order),
        forall|index: int| visited.contains(index) <==> order.contains(index),
        tip == tips(log, game, order).last(),
        tips(log, game, order).drop_last().no_duplicates(),
    ensures
        exists|full: Seq<int>|
            is_order(log, game, full) && tips(log, game, full).no_duplicates() && walk(
                log,
                game,
                tip,
                visited,
                found,
                steps,
            ) == Ok::<Seq<MoveView<M>>, ChainError>(#[trigger] moves_at(log, full)),
    decreases steps,
{
    let passed = tips(log, game, order);
    lemma_tip_is_new(log, game, tip, visited, found, steps, order);
    if !exists|index: int| succeeds(log, game, tip, index) {
        assert(is_order(log, game, order));
    } else {
        let next = successor(log, game, tip);
        let longer = order.push(next);
        assert(succeeds(log, game, tip, next));
        assert(moves_at(log, longer) =~= found.push(move_in(log[next])));
        assert(tips(log, game, longer).last() == log[next].address);
        assert forall|i: int| 0 <= i < longer.len() implies move_in(
            log[#[trigger] longer[i]],
        ).previous_move == tips(log, game, longer)[i] by {
            if i < order.len() {
                assert(longer[i] == order[i]);
                assert(tips(log, game, longer)[i] == tips(log, game, order)[i]);
            }
        }
        assert forall|index: int| visited.insert(next).contains(index) <==> longer.contains(
            index,
        ) by {
            if longer.contains(index) {
                let i = choose|i: int| 0 <= i < longer.len() && longer[i] == index;
                if i < order.len() {
                    assert(order[i] == index);
                }
            }
            if order.contains(index) {
                let i = choose|i: int| 0 <= i < order.len() && order[i] == index;
                assert(longer[i] == index);
            }
            assert(longer[order.len() as int] == next);
        }
        assert(tips(log, game, longer).drop_last() =~= passed);
        assert(longer.no_duplicates()) by {
            assert forall|i: int, j: int|
                0 <= i < longer.len() && 0 <= j < longer.len() && i != j implies longer[i]
                != longer[j] by {
                if i == order.len() {
                    assert(order[j] == longer[j]);
                    assert(order.contains(longer[j]));
                } else if j == order.len() {
                    assert(order[i] == longer[i]);
                    assert(order.contains(longer[i]));
                }
            }
        }
        lemma_walk_sound(
            log,
            game,
            log[next].address,
            visited.insert(next),
            found.push(move_in(log[next])),
            (steps - 1) as nat,
            longer,
        );
    }
}

/// A chain is found whatever the order of the log: if the moves of a game
/// can be brought into one chain along records with addresses that differ
/// from each other and from the game's, the walk gives the moves in that
/// order.
pub proof fn lemma_resolve_complete<M>(
    log: Seq<ChainEntryView<M>>,
    game: Seq<char>,
    order: Seq<int>,
)
    requires
        is_order(log, game, order),
        tips(log, game, order).no_duplicates(),
    ensures
        resolve(log, game) == Ok::<Seq<MoveView<M>>, ChainError>(moves_at(log, order)),
{
    assert(order.len() <= log.len()) by {
        order.unique_seq_to_set();
        lemma_int_range(0, log.len() as int);
        assert(order.to_set().subset_of(set_int_range(0, log.len() as int))) by {
            assert forall|index: int| order.to_set().contains(index) implies set_int_range(
                0,
                log.len() as int,
            ).contains(index) by {
                let i = choose|i: int| 0 <= i < order.len() && order[i] == index;
                assert(0 <= order[i] < log.len());
            }
        }
        lemma_len_subset(order.to_set(), set_int_range(0, log.len() as int));
    }
    assert(order.take(0).to_set() =~= Set::<int>::empty());
    assert(moves_at(log, order.take(0)) =~= Seq::<MoveView<M>>::empty());
    lemma_walk_complete(log, game, order, 0, log.len());
}

proof fn lemma_walk_complete<M>(
    log: Seq<ChainEntryView<M>>,
    game: Seq<char>,
    order: Seq<int>,
    done: int,
    steps: nat,
)
    requires
        is_order(log, game, order),
        tips(log, game, order).no_duplicates(),
        0 <= done <= order.len(),
        steps >= order.len() - done,
    ensures
        walk(
            log,
            game,
            tips(log, game, order)[done],
            order.take(done).to_set(),
            moves_at(log, order.take(done)),
            steps,
        ) == Ok::<Seq<MoveView<M>>, ChainError>(moves_at(log, order)),
    decreases order.len() - done,
{
    let all = tips(log, game, order);
    let tip = all[done];
    let visited = order.take(done).to_set();
    let found = moves_at(log, order.take(done));
    // Whatever follows the tip stands at the place `done` of the order.
    assert forall|index: int| succeeds(log, game, tip, index) implies done < order.len()
        && index == order[done] by {
        assert(is_move_of(log[index], game));
        assert(order.contains(index));
        let j = choose|j: int| 0 <= j < order.len() && order[j] == index;
        assert(move_in(log[order[j]]).previous_move == all[j]);
        assert(all[j] == all[done]);
    }
    if done == order.len() {
        assert(order.take(done) =~= order);
        assert forall|index: int|
            0 <= index < log.len() && is_move_of(#[trigger] log[index], game) implies visited.contains(
            index,
        ) by {
            assert(order.contains(index));
        }
    } else {
        let here = order[done];
        assert(succeeds(log, game, tip, here)) by {
            assert(move_in(log[order[done]]).previous_move == all[done]);
        }
        let next = successor(log, game, tip);
        assert(next == here);
        assert(!visited.contains(here)) by {
            if visited.contains(here) {
                let shorter = order.take(done);
                let i = choose|i: int| 0 <= i < shorter.len() && shorter[i] == here;
                assert(order[i] == order[done]);
            }
        }
        let shorter = order.take(done);
        let longer = order.take(done + 1);
        assert(longer =~= shorter.push(here));
        assert(longer.to_set() =~= visited.insert(here)) by {
            assert forall|index: int| longer.to_set().contains(index) <==> visited.insert(
                here,
            ).contains(index) by {
                if longer.contains(index) {
                    let i = choose|i: int| 0 <= i < longer.len() && longer[i] == index;
                    if i < done {
                        assert(shorter[i] == index);
                    }
                }
                if shorter.contains(index) {
                    let i = choose|i: int| 0 <= i < shorter.len() && shorter[i] == index;
                    assert(longer[i] == index);
                }
                assert(longer[done] == here);
            }
        }
        assert(moves_at(log, order.take(done + 1)) =~= found.push(move_in(log[here])));
        assert(all[done + 1] == log[here].address);
        lemma_walk_complete(log, game, order, done + 1, (steps - 1) as nat);
    }
}

/// Whether `other` holds the records of `log` in another order: the record
/// at each place `k` of `log` stands at `place[k]` in `other`, no two at
/// the same place, and `other` holds nothing else.
pub open spec fn rearranges<M>(
    log: Seq<ChainEntryView<M>>,
    other: Seq<ChainEntryView<M>>,
    place: Seq<int>,
) -> bool {
    &&& place.len() == log.len()
    &&& other.len() == log.len()
    &&& forall|k: int|
        0 <= k < log.len() ==> 0 <= #[trigger] place[k] < other.len() && other[place[k]] == log[k]
    &&& forall|i: int, j: int|
        0 <= i < place.len() && 0 <= j < place.len() && i != j ==> #[trigger] place[i]
            != #[trigger] place[j]
    &&& forall|j: int| 0 <= j < other.len() ==> #[trigger] place.contains(j)
}

/// The order in which a log holds its records plays no part in what its
/// moves resolve to: a log that holds the same records in another order
/// gives the same moves, or the same error.
pub proof fn lemma_resolve_rearranged<M>(
    log: Seq<ChainEntryView<M>>,
    other: Seq<ChainEntryView<M>>,
    game: Seq<char>,
    place: Seq<int>,
)
    requires
        rearranges(log, other, place),
    ensures
        resolve(other, game) == resolve(log, game),
{
    lemma_walk_rearranged(
        log,
        other,
        game,
        place,
        game,
        Set::empty(),
        Set::empty(),
        Seq::empty(),
        log.len(),
    );
}

proof fn lemma_walk_rearranged<M>(
    log: Seq<ChainEntryView<M>>,
    other: Seq<ChainEntryView<M>>,
    game: Seq<char>,
    place: Seq<int>,
    tip: Seq<char>,
    visited: Set<int>,
    visited_other: Set<int>,
    found: Seq<MoveView<M>>,
    steps: nat,
)
    requires
        rearranges(log, other, place),
        forall|k: int|
            0 <= k < log.len() ==> (visited.contains(k) <==> visited_other.contains(
                #[trigger] place[k],
            )),
    ensures
        walk(other, game, tip, visited_other, found, steps) == walk(
            log,
            game,
            tip,
            visited,
            found,
            steps,
        ),
    decreases steps,
{
    // What follows the tip in one log follows it in the other.
    assert forall|k: int| succeeds(log, game, tip, k) implies succeeds(
        other,
        game,
        tip,
        place[k],
    ) by {}
    assert forall|j: int| succeeds(other, game, tip, j) implies exists|k: int|
        succeeds(log, game, tip, k) && place[k] == j by {
        assert(place.contains(j));
        let k = choose|k: int| 0 <= k < place.len() && place[k] == j;
        assert(other[place[k]] == log[k]);
        assert(succeeds(log, game, tip, k));
    }
    if !exists|index: int| succeeds(log, game, tip, index) {
        assert(!exists|index: int| succeeds(other, game, tip, index));
        let all_here = forall|index: int|
            0 <= index < log.len() && is_move_of(#[trigger] log[index], game) ==> visited.contains(
                index,
            );
        let all_there = forall|index: int|
            0 <= index < other.len() && is_move_of(#[trigger] other[index], game)
                ==> visited_other.contains(index);
        if all_here {
            assert forall|index: int|
                0 <= index < other.len() && is_move_of(
                    #[trigger] other[index],
                    game,
                ) implies visited_other.contains(index) by {
                assert(place.contains(index));
                let k = choose|k: int| 0 <= k < place.len() && place[k] == index;
                assert(other[place[k]] == log[k]);
                assert(is_move_of(log[k], game));
            }
        }
        if all_there {
            assert forall|index: int|
                0 <= index < log.len() && is_move_of(
                    #[trigger] log[index],
                    game,
                ) implies visited.contains(index) by {
                assert(other[place[index]] == log[index]);
                assert(is_move_of(other[place[index]], game));
            }
        }
        assert(all_here == all_there);
    } else {
        let witness = choose|index: int| succeeds(log, game, tip, index);
        assert(succeeds(other, game, tip, place[witness]));
        let next = successor(log, game, tip);
        let next_other = successor(other, game, tip);
        assert(succeeds(log, game, tip, next));
        assert(succeeds(other, game, tip, next_other));
        let fork_here = exists|index: int| index != next && succeeds(log, game, tip, index);
        let fork_there = exists|index: int|
            index != next_other && succeeds(other, game, tip, index);
        if fork_here {
            let second = choose|index: int| index != next && succeeds(log, game, tip, index);
            assert(place[second] != place[next]);
            assert(succeeds(other, game, tip, place[second]));
            assert(succeeds(other, game, tip, place[next]));
            if place[second] != next_other {
                assert(fork_there);
            } else {
                assert(place[next] != next_other);
                assert(fork_there);
            }
        }
        if fork_there {
            let second = choose|index: int|
                index != next_other && succeeds(other, game, tip, index);
            let k = choose|k: int| succeeds(log, game, tip, k) && place[k] == second;
            let l = choose|l: int| succeeds(log, game, tip, l) && place[l] == next_other;
            assert(k != l);
            if k != next {
                assert(fork_here);
            } else {
                assert(l != next);
                assert(fork_here);
            }
        }
        assert(fork_here == fork_there);
        if !fork_here {
            assert(place[next] == next_other);
            assert(other[place[next]] == log[next]);
            assert forall|k: int| 0 <= k < log.len() implies (visited.insert(next).contains(k)
                <==> visited_other.insert(next_other).contains(#[trigger] place[k])) by {
                if k != next {
                    assert(place[k] != place[next]);
                }
            }
            if !(visited.contains(next) || steps == 0) {
                lemma_walk_rearranged(
                    log,
                    other,
                    game,
                    place,
                    log[next].address,
                    visited.insert(next),
                    visited_other.insert(next_other),
                    found.push(move_in(log[next])),
                    (steps - 1) as nat,
                );
            }
        }
    }
}

} // verus!
