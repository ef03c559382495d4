use generic_game::address::{contains_address, is_agent_addr, is_hash, Address};
use generic_game::chain::{ChainEntry, EntryAction, EntryContent};
use generic_game::game::Game;
use generic_game::game_move::{clone_moves, validate_move_entry, Move, MoveInput};
use generic_game::matchmaking::{
    accept_proposal, create_proposal, validate_proposal_entry, GameProposal, GetResponse,
};
use generic_game::tictactoe::moves::{MoveType, Piece};
use generic_game::zome::{
    create_game, init, invited_game, make_move, validate_agent, LinkType, MovePlan, PublishedMove,
};

fn at(text: &str) -> Address {
    Address::new(text)
}

fn mark(author: &str, previous: &str, x: usize, y: usize) -> Move<MoveType> {
    Move {
        game: at("game"),
        author: at(author),
        move_type: MoveType::Place { pos: Piece { x, y } },
        previous_move: at(previous),
        timestamp: 3,
    }
}

fn input(x: usize, y: usize) -> MoveInput<MoveType> {
    MoveInput { game: at("game"), move_type: MoveType::Place { pos: Piece { x, y } }, timestamp: 5 }
}

#[test]
fn an_address_is_its_text() {
    assert_eq!(at("abc").as_str(), "abc");
    assert_eq!(at("abc"), at("abc"));
    assert_ne!(at("abc"), at("abd"));
    assert_eq!(at("abc").clone(), at("abc"));
    assert_eq!(at(""), Address(String::new()));
    assert_eq!(Address::from("abc"), at("abc"));
    assert_eq!(Address::from("abc".to_string()), at("abc"));
    let made: Address = "abc".into();
    assert_eq!(made, at("abc"));
}

#[test]
fn an_address_is_found_among_others() {
    let some = vec![at("a"), at("b")];
    assert!(contains_address(&some, &at("b")));
    assert!(!contains_address(&some, &at("c")));
    assert!(!contains_address(&vec![], &at("a")));
}

#[test]
fn a_record_address_has_46_bytes_and_begins_with_qm() {
    let good = format!("Qm{}", "a".repeat(44));
    assert!(is_hash(&good));
    assert!(!is_hash(&format!("Qm{}", "a".repeat(43))));
    assert!(!is_hash(&format!("Qm{}", "a".repeat(45))));
    assert!(!is_hash(&format!("Qn{}", "a".repeat(44))));
    assert!(!is_hash(&format!("qm{}", "a".repeat(44))));
    assert!(!is_hash(""));
    assert!(!is_hash("Q"));
}

#[test]
fn an_agent_address_has_63_bytes_and_begins_with_hc() {
    let good = format!("Hc{}", "S".repeat(61));
    assert!(is_agent_addr(&good));
    assert!(!is_agent_addr(&format!("Hc{}", "S".repeat(60))));
    assert!(!is_agent_addr(&format!("Hd{}", "S".repeat(61))));
    assert!(!is_agent_addr(&format!("Qm{}", "a".repeat(44))));
    assert!(!is_agent_addr(""));
}

#[test]
fn the_node_starts_and_takes_every_agent() {
    assert_eq!(init(), Ok(()));
    assert_eq!(validate_agent(&at("anyone")), Ok(()));
}

#[test]
fn the_maker_of_a_game_is_player_1() {
    assert_eq!(
        create_game(&at("me"), at("you"), 11),
        Game { player_1: at("me"), player_2: at("you"), created_at: 11 }
    );
    assert_eq!(
        invited_game(&at("me"), at("you"), 11),
        Game { player_1: at("you"), player_2: at("me"), created_at: 11 }
    );
    assert_eq!(create_game(&at("you"), at("me"), 11), invited_game(&at("me"), at("you"), 11));
}

#[test]
fn the_first_move_follows_the_game() {
    let plan = make_move(input(1, 1), &at("bob"), &vec![], &vec![at("old")]);
    assert_eq!(
        plan,
        MovePlan {
            missing: vec![],
            new_move: Move {
                game: at("game"),
                author: at("bob"),
                move_type: MoveType::Place { pos: Piece { x: 1, y: 1 } },
                previous_move: at("game"),
                timestamp: 5,
            },
            base: at("game"),
            link: LinkType::GameToMove,
        }
    );
}

#[test]
fn a_later_move_follows_the_last_published_move() {
    let published = vec![
        PublishedMove { address: at("m1"), game_move: mark("bob", "game", 0, 0) },
        PublishedMove { address: at("m2"), game_move: mark("alice", "m1", 1, 1) },
        PublishedMove { address: at("m3"), game_move: mark("bob", "m2", 2, 2) },
    ];
    let plan = make_move(input(0, 1), &at("alice"), &published, &vec![at("m2"), at("zz")]);
    assert_eq!(plan.missing, vec![mark("bob", "game", 0, 0), mark("bob", "m2", 2, 2)]);
    assert_eq!(plan.base, at("m3"));
    assert_eq!(plan.link, LinkType::MoveToMove);
    assert_eq!(
        plan.new_move,
        Move {
            game: at("game"),
            author: at("alice"),
            move_type: MoveType::Place { pos: Piece { x: 0, y: 1 } },
            previous_move: at("m3"),
            timestamp: 5,
        }
    );
    let plan = make_move(input(0, 1), &at("alice"), &published, &vec![at("m1"), at("m2"), at("m3")]);
    assert_eq!(plan.missing, vec![]);
}

#[test]
fn links_have_their_names() {
    assert_eq!(LinkType::GameToMove.name(), "game->move");
    assert_eq!(LinkType::MoveToMove.name(), "move->move");
}

#[test]
fn a_planned_move_passes_validation_on_the_completed_log() {
    let game = create_game(&at("alice"), at("bob"), 1);
    let plan = make_move(input(1, 1), &at("bob"), &vec![], &vec![]);
    let log: Vec<ChainEntry<MoveType>> = vec![ChainEntry { address: at("game"), content: EntryContent::Game(game) }];
    assert_eq!(validate_move_entry(EntryAction::Create, &plan.new_move, Some(&log)), Ok(()));
}

#[test]
fn tictactoe_is_validated_by_the_same_chain_rules() {
    let game = Game { player_1: at("alice"), player_2: at("bob"), created_at: 1 };
    let log: Vec<ChainEntry<MoveType>> = vec![
        ChainEntry { address: at("m1"), content: EntryContent::Move(mark("bob", "game", 1, 1)) },
        ChainEntry { address: at("game"), content: EntryContent::Game(game) },
    ];
    assert_eq!(
        validate_move_entry(EntryAction::Create, &mark("alice", "m1", 0, 0), Some(&log)),
        Ok(())
    );
    assert_eq!(
        validate_move_entry(EntryAction::Create, &mark("alice", "m1", 1, 1), Some(&log)),
        Err("A piece already exists at that position.".to_string())
    );
    assert_eq!(
        validate_move_entry(EntryAction::Create, &mark("bob", "m1", 0, 0), Some(&log)),
        Err("It is not this players turn.".to_string())
    );
}

#[test]
fn moves_are_copied_whole() {
    let moves = vec![mark("bob", "game", 0, 0), mark("alice", "m1", 1, 1)];
    assert_eq!(clone_moves(&moves), moves);
    assert_eq!(moves[0].clone(), mark("bob", "game", 0, 0));
}

#[test]
fn a_proposal_names_its_agent() {
    assert_eq!(
        create_proposal(&at("me"), "anyone for a game?".to_string()),
        GameProposal { agent: at("me"), message: "anyone for a game?".to_string() }
    );
}

#[test]
fn accepting_a_proposal_makes_the_proposer_player_2() {
    let proposal = create_proposal(&at("proposer"), "hi".to_string());
    assert_eq!(
        accept_proposal(&at("me"), &proposal, 42),
        Game { player_1: at("me"), player_2: at("proposer"), created_at: 42 }
    );
}

#[test]
fn a_proposal_is_made_by_its_agent_only() {
    let proposal = create_proposal(&at("me"), "hi".to_string());
    assert_eq!(
        validate_proposal_entry(EntryAction::Create, &proposal, &vec![at("you"), at("me")]),
        Ok(())
    );
    assert_eq!(
        validate_proposal_entry(EntryAction::Create, &proposal, &vec![at("you")]),
        Err("Cannot author a proposal from another agent".to_string())
    );
    assert_eq!(
        validate_proposal_entry(EntryAction::Create, &proposal, &vec![]),
        Err("Cannot author a proposal from another agent".to_string())
    );
}

#[test]
fn a_proposal_may_be_removed_and_not_changed() {
    let proposal = create_proposal(&at("me"), "hi".to_string());
    assert_eq!(validate_proposal_entry(EntryAction::Delete, &proposal, &vec![]), Ok(()));
    assert_eq!(
        validate_proposal_entry(EntryAction::Modify, &proposal, &vec![at("me")]),
        Err("Cannot modify, only create and delete".to_string())
    );
}

#[test]
fn a_response_pairs_a_record_with_its_address() {
    let response = GetResponse { entry: 5u32, address: at("five") };
    assert_eq!(response.entry, 5);
    assert_eq!(response.address, at("five"));
}
