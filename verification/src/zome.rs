use vstd::prelude::*;
use crate::address::{contains_address, texts, Address};
use crate::game::{Game, GameView};
use crate::game_move::{Move, MoveInput, MoveView};

verus! {

/// Whether the node may start: always.
pub fn init() -> (outcome: Result<(), String>)
    ensures
        outcome is Ok,
{
    Ok(())
}

/// Whether `agent` may join: every agent may.
pub fn validate_agent(agent: &Address) -> (outcome: Result<(), String>)
    ensures
        outcome is Ok,
{
    Ok(())
}

/// The game that `agent` makes to play `opponent`: the maker is player 1,
/// and the opponent, who moves first, is player 2.
pub fn create_game(agent: &Address, opponent: Address, timestamp: u32) -> (game: Game)
    ensures
        game@ == (GameView { player_1: agent@, player_2: opponent@, created_at: timestamp }),
{
    Game { player_1: agent.clone(), player_2: opponent, created_at: timestamp }
}

/// The game that `opponent` made at `timestamp` to play `agent`, as the
/// agent invited sees it: the record whose address the agent joins by.
pub fn invited_game(agent: &Address, opponent: Address, timestamp: u32) -> (game: Game)
    ensures
        game@ == (GameView { player_1: opponent@, player_2: agent@, created_at: timestamp }),
{
    Game { player_1: opponent, player_2: agent.clone(), created_at: timestamp }
}

/// The kind of link that leads to a move.
#[derive(Clone, Copy, Debug, PartialEq, Eq, Structural)]
pub enum LinkType {
    /// From the game to its first move.
    GameToMove,
    /// From a move to the next.
    MoveToMove,
}

impl LinkType {
    /// The name of the link in the store.
    pub fn name(&self) -> (name: &'static str)
        ensures
            name@ == match *self {
                LinkType::GameToMove => "game->move"@,
                LinkType::MoveToMove => "move->move"@,
            },
    {
        match self {
            LinkType::GameToMove => "game->move",
            LinkType::MoveToMove => "move->move",
        }
    }
}

/// A move that the store holds, with the address it holds it under.
#[derive(Debug, PartialEq, Eq)]
pub struct PublishedMove<M> {
    pub address: Address,
    pub game_move: Move<M>,
}

/// What a [`PublishedMove`] is to the contracts.
pub struct PublishedMoveView<M> {
    pub address: Seq<char>,
    pub game_move: MoveView<M>,
}

impl<M> View for PublishedMove<M> {
    type V = PublishedMoveView<M>;

    open spec fn view(&self) -> PublishedMoveView<M> {
        PublishedMoveView { address: self.address@, game_move: self.game_move@ }
    }
}

/// The views of published moves, in order.
pub open spec fn published_views<M>(published: Seq<PublishedMove<M>>) -> Seq<PublishedMoveView<M>> {
    Seq::new(published.len(), |k: int| published[k]@)
}

/// What is to be written to make a move.
#[derive(Debug, PartialEq, Eq)]
pub struct MovePlan<M> {
    /// The published moves that the agent's own log lacks, oldest first:
    /// they are written to it before the new move.
    pub missing: Vec<Move<M>>,
    /// The record of the new move.
    pub new_move: Move<M>,
    /// The record that the new move follows, and that is linked to it.
    pub base: Address,
    /// The kind of the link from `base` to the new move.
    pub link: LinkType,
}

/// The test whether a published move is held under none of `held`.
pub open spec fn is_lacking<M>(held: Seq<Seq<char>>) -> spec_fn(PublishedMoveView<M>) -> bool {
    |published: PublishedMoveView<M>| !held.contains(published.address)
}

/// The moves among `published` that are held under none of `held`, in
/// order.
pub open spec fn lacking<M>(published: Seq<PublishedMoveView<M>>, held: Seq<Seq<char>>) -> Seq<
    MoveView<M>,
> {
    published.filter(is_lacking(held)).map_values(|one: PublishedMoveView<M>| one.game_move)
}

/// The record that a new move of the game at `game` follows: the last
/// published move, or the game itself if no move was published.
pub open spec fn chain_tip<M>(game: Seq<char>, published: Seq<PublishedMoveView<M>>) -> Seq<char> {
    if published.len() == 0 {
        game
    } else {
        published.last().address
    }
}

/// What `agent` writes to make the move `new_move`, when the store holds
/// the moves `published` of the game, oldest first, and the agent's own log
/// holds moves under the addresses `chain_moves`.
///
/// The new move follows the tip of the chain. The published moves that the
/// agent's log lacks are written to it first, so that the log holds the
/// whole chain when the new move is validated.
pub fn make_move<M: Copy>(
    new_move: MoveInput<M>,
    agent: &Address,
    published: &Vec<PublishedMove<M>>,
    chain_moves: &Vec<Address>,
) -> (plan: MovePlan<M>)
    ensures
        plan.base@ == chain_tip(new_move.game@, published_views(published@)),
        plan.new_move@ == (MoveView {
            game: new_move.game@,
            author: agent@,
            move_type: new_move.move_type,
            previous_move: plan.base@,
            timestamp: new_move.timestamp,
        }),
        plan.link == if published.len() == 0 {
            LinkType::GameToMove
        } else {
            LinkType::MoveToMove
        },
        crate::game_move::move_views(plan.missing@) == lacking(
            published_views(published@),
            texts(chain_moves@),
        ),
{
    let ghost all = published_views(published@);
    let ghost held = texts(chain_moves@);
    let ghost pick = |one: PublishedMoveView<M>| one.game_move;
    let mut missing: Vec<Move<M>> = Vec::new();
    proof {
        assert(all.take(0) =~= Seq::<PublishedMoveView<M>>::empty());
        all.take(0).lemma_filter_len(is_lacking(held));
        assert(crate::game_move::move_views(missing@) =~= all.take(0).filter(
            is_lacking(held),
        ).map_values(pick));
    }
    let mut i: usize = 0;
    while i < published.len()
        invariant
            i <= published.len(),
            all == published_views(published@),
            held == texts(chain_moves@),
            pick == |one: PublishedMoveView<M>| one.game_move,
            crate::game_move::move_views(missing@) == all.take(i as int).filter(
                is_lacking(held),
            ).map_values(pick),
        decreases published.len() - i,
    {
        proof {
            assert(all.take(i as int + 1) =~= all.take(i as int).push(all[i as int]));
            all.take(i as int).lemma_filter_push(all[i as int], is_lacking(held));
        }
        if !contains_address(chain_moves, &published[i].address) {
            let ghost before = crate::game_move::move_views(missing@);
            missing.push(published[i].game_move.clone());
            assert(crate::game_move::move_views(missing@) =~= before.push(all[i as int].game_move));
            assert(all.take(i as int).filter(is_lacking(held)).push(all[i as int]).map_values(pick)
                =~= before.push(all[i as int].game_move));
        }
        i = i + 1;
    }
    assert(all.take(i as int) =~= all);
    let count = published.len();
    let (base, link) = if count == 0 {
        (new_move.game.clone(), LinkType::GameToMove)
    } else {
        (published[count - 1].address.clone(), LinkType::MoveToMove)
    };
    let record = Move {
        game: new_move.game,
        author: agent.clone(),
        move_type: new_move.move_type,
        previous_move: base.clone(),
        timestamp: new_move.timestamp,
    };
    MovePlan { missing, new_move: record, base, link }
}

} // verus!
