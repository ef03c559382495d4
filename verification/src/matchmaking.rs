use vstd::prelude::*;
use crate::address::{contains_address, texts, Address};
use crate::chain::EntryAction;
use crate::game::{refusal, Game, GameView};

verus! {

/// An agent's notice that it wishes to play.
#[derive(Debug, PartialEq, Eq)]
pub struct GameProposal {
    pub agent: Address,
    pub message: String,
}

/// What a [`GameProposal`] is to the contracts.
pub struct GameProposalView {
    pub agent: Seq<char>,
    pub message: Seq<char>,
}

impl View for GameProposal {
    type V = GameProposalView;

    open spec fn view(&self) -> GameProposalView {
        GameProposalView { agent: self.agent@, message: self.message@ }
    }
}

/// A record read from the store, with the address it is held under.
#[derive(Debug, PartialEq, Eq)]
pub struct GetResponse<T> {
    pub entry: T,
    pub address: Address,
}

/// The proposal that `agent` puts up with `message`.
pub fn create_proposal(agent: &Address, message: String) -> (proposal: GameProposal)
    ensures
        proposal@ == (GameProposalView { agent: agent@, message: message@ }),
{
    GameProposal { agent: agent.clone(), message }
}

/// The game that `agent` makes by accepting `proposal`: the agent who
/// accepts is player 1, and the agent who proposed, who moves first, is
/// player 2.
pub fn accept_proposal(agent: &Address, proposal: &GameProposal, created_at: u32) -> (game: Game)
    ensures
        game@ == (GameView { player_1: agent@, player_2: proposal@.agent, created_at }),
{
    Game { player_1: agent.clone(), player_2: proposal.agent.clone(), created_at }
}

/// Why the record of `proposal` may not be written by the agents `sources`,
/// or `None` if it may: a proposal is made by the agent it names, may be
/// removed, and is never changed.
pub open spec fn proposal_refusal(
    action: EntryAction,
    proposal: GameProposalView,
    sources: Seq<Seq<char>>,
) -> Option<Seq<char>> {
    match action {
        EntryAction::Create => if sources.contains(proposal.agent) {
            None
        } else {
            Some("Cannot author a proposal from another agent"@)
        },
        EntryAction::Delete => None,
        EntryAction::Modify => Some("Cannot modify, only create and delete"@),
    }
}

/// Whether the record of `proposal` may be written by the agents `sources`.
pub fn validate_proposal_entry(
    action: EntryAction,
    proposal: &GameProposal,
    sources: &Vec<Address>,
) -> (outcome: Result<(), String>)
    ensures
        refusal(outcome) == proposal_refusal(action, proposal@, texts(sources@)),
{
    match action {
        EntryAction::Create => {
            if contains_address(sources, &proposal.agent) {
                Ok(())
            } else {
                Err("Cannot author a proposal from another agent".to_owned())
            }
        },
        EntryAction::Delete => Ok(()),
        EntryAction::Modify => Err("Cannot modify, only create and delete".to_owned()),
    }
}

} // verus!
