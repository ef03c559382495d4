use generic_game::address::Address;
use generic_game::checkers::moves::{MoveType, Piece};
use generic_game::checkers::state::{
    board_dense_to_sparse, board_sparse_to_dense, get_current_player, GameState, Player,
    PlayerState, BOARD_SIZE,
};
use generic_game::checkers::validation::is_players_turn;
use generic_game::game::{get_state, Game};
use generic_game::game_move::Move;
use generic_game::rules::Ruleset;

fn game() -> Game {
    Game { player_1: Address::new("alice"), player_2: Address::new("bob"), created_at: 0 }
}

fn piece(x: usize, y: usize) -> Piece {
    Piece { x, y }
}

fn piece_move(author: &str, from: (usize, usize), to: (usize, usize)) -> Move<MoveType> {
    Move {
        game: Address::new("game"),
        author: Address::new(author),
        move_type: MoveType::MovePiece { from: piece(from.0, from.1), to: piece(to.0, to.1) },
        previous_move: Address::new("previous"),
        timestamp: 0,
    }
}

fn resign(author: &str) -> Move<MoveType> {
    Move {
        game: Address::new("game"),
        author: Address::new(author),
        move_type: MoveType::Resign,
        previous_move: Address::new("previous"),
        timestamp: 0,
    }
}

fn state_after(moves: Vec<Move<MoveType>>) -> GameState {
    get_state(&game(), &moves).unwrap()
}

fn refused(outcome: Result<(), String>, reason: &str) {
    assert_eq!(outcome, Err(reason.to_string()));
}

fn state_with(first: Vec<Piece>, second: Vec<Piece>, moves: Vec<Move<MoveType>>) -> GameState {
    GameState {
        moves,
        player_1: PlayerState { pieces: first, resigned: false, winner: false },
        player_2: PlayerState { pieces: second, resigned: false, winner: false },
    }
}

#[test]
fn board_size_is_eight() {
    assert_eq!(BOARD_SIZE, 8);
}

#[test]
fn describe_gives_one_example_of_each_move() {
    assert_eq!(
        MoveType::describe(),
        vec![MoveType::MovePiece { from: piece(0, 0), to: piece(1, 1) }, MoveType::Resign]
    );
    assert_eq!(<MoveType as Ruleset>::describe(), MoveType::describe());
}

#[test]
fn initial_state_has_twelve_pieces_each() {
    let state = GameState::initial();
    assert!(state.moves.is_empty());
    assert_eq!(
        state.player_1.pieces,
        vec![
            piece(0, 0), piece(2, 0), piece(4, 0), piece(6, 0),
            piece(1, 1), piece(3, 1), piece(5, 1), piece(7, 1),
            piece(0, 2), piece(2, 2), piece(4, 2), piece(6, 2),
        ]
    );
    assert_eq!(
        state.player_2.pieces,
        vec![
            piece(1, 5), piece(3, 5), piece(5, 5), piece(7, 5),
            piece(0, 6), piece(2, 6), piece(4, 6), piece(6, 6),
            piece(1, 7), piece(3, 7), piece(5, 7), piece(7, 7),
        ]
    );
    assert!(!state.player_1.resigned && !state.player_1.winner);
    assert!(!state.player_2.resigned && !state.player_2.winner);
}

#[test]
fn seats_are_told_apart() {
    assert_eq!(get_current_player(&game(), &Address::new("alice")), Ok(Player::Player1));
    assert_eq!(get_current_player(&game(), &Address::new("bob")), Ok(Player::Player2));
    assert_eq!(
        get_current_player(&game(), &Address::new("carol")),
        Err("Player is not part of this game!".to_string())
    );
    let alone = Game { player_1: Address::new("alice"), player_2: Address::new("alice"), created_at: 0 };
    assert_eq!(
        get_current_player(&alone, &Address::new("alice")),
        Err("Player cannot play themselves".to_string())
    );
}

#[test]
fn sparse_to_dense_marks_each_square() {
    let state = state_with(vec![piece(0, 4), piece(6, 3)], vec![piece(6, 4), piece(5, 6)], vec![]);
    let board = board_sparse_to_dense(&state);
    for x in 0..8 {
        for y in 0..8 {
            let expected = match (x, y) {
                (0, 4) | (6, 3) => 1,
                (6, 4) | (5, 6) => 2,
                _ => 0,
            };
            assert_eq!(board[x][y], expected);
        }
    }
}

#[test]
fn dense_to_sparse_lists_squares_column_by_column() {
    let mut board = [[0u8; 8]; 8];
    board[6][3] = 1;
    board[0][4] = 1;
    board[0][1] = 1;
    board[5][6] = 2;
    board[5][2] = 2;
    board[3][3] = 7;
    let (first, second) = board_dense_to_sparse(board);
    assert_eq!(first, vec![piece(0, 1), piece(0, 4), piece(6, 3)]);
    assert_eq!(second, vec![piece(5, 2), piece(5, 6)]);
}

#[test]
fn sparse_dense_round_trip_keeps_each_players_squares() {
    let first = vec![piece(7, 7), piece(0, 0), piece(3, 4)];
    let second = vec![piece(2, 2), piece(1, 6)];
    let state = state_with(first, second, vec![]);
    let (mut first_back, mut second_back) = board_dense_to_sparse(board_sparse_to_dense(&state));
    first_back.sort_by_key(|p| (p.x, p.y));
    second_back.sort_by_key(|p| (p.x, p.y));
    assert_eq!(first_back, vec![piece(0, 0), piece(3, 4), piece(7, 7)]);
    assert_eq!(second_back, vec![piece(1, 6), piece(2, 2)]);
}

#[test]
fn dense_sparse_round_trip_keeps_the_board() {
    let mut board = [[0u8; 8]; 8];
    board[1][1] = 1;
    board[4][5] = 2;
    board[7][0] = 2;
    let (first, second) = board_dense_to_sparse(board);
    let state = state_with(first, second, vec![]);
    assert_eq!(board_sparse_to_dense(&state), board);
}

#[test]
fn first_move_by_player_2_is_accepted_and_moves_the_piece() {
    let candidate = piece_move("bob", (1, 5), (0, 4));
    assert_eq!(candidate.is_valid(game(), GameState::initial()), Ok(()));
    let next = GameState::initial().evolve(game(), &candidate);
    assert_eq!(next.moves, vec![piece_move("bob", (1, 5), (0, 4))]);
    assert_eq!(next.player_1.pieces.len(), 12);
    assert_eq!(next.player_2.pieces.len(), 12);
    assert!(next.player_2.pieces.contains(&piece(0, 4)));
    assert!(!next.player_2.pieces.contains(&piece(1, 5)));
    let mut first = next.player_1.pieces.clone();
    let mut before = GameState::initial().player_1.pieces;
    first.sort_by_key(|p| (p.x, p.y));
    before.sort_by_key(|p| (p.x, p.y));
    assert_eq!(first, before);
    assert_eq!(
        next.player_2.pieces,
        vec![
            piece(0, 4), piece(0, 6), piece(1, 7), piece(2, 6), piece(3, 5), piece(3, 7),
            piece(4, 6), piece(5, 5), piece(5, 7), piece(6, 6), piece(7, 5), piece(7, 7),
        ]
    );
}

#[test]
fn first_move_by_player_1_is_rejected() {
    let candidate = piece_move("alice", (0, 2), (1, 3));
    refused(
        candidate.is_valid(game(), GameState::initial()),
        "Player 2 must make the first move.",
    );
}

#[test]
fn jump_over_an_empty_square_is_rejected() {
    let candidate = piece_move("bob", (1, 5), (3, 3));
    refused(
        candidate.is_valid(game(), GameState::initial()),
        "Can only jump over another piece",
    );
}

#[test]
fn jump_over_own_piece_is_rejected() {
    let candidate = piece_move("bob", (0, 6), (2, 4));
    refused(candidate.is_valid(game(), GameState::initial()), "Cannot jump own piece");
}

#[test]
fn no_move_after_a_resignation() {
    let moves = vec![piece_move("bob", (1, 5), (0, 4)), resign("alice")];
    let state = state_after(moves);
    assert!(state.player_1.resigned);
    assert!(state.player_2.winner);
    assert!(!state.player_1.winner);
    assert!(!state.player_2.resigned);
    refused(
        piece_move("bob", (3, 5), (2, 4)).is_valid(game(), state),
        "The game has already ended: no more moves allowed",
    );
    let moves = vec![piece_move("bob", (1, 5), (0, 4)), resign("alice")];
    refused(
        resign("bob").is_valid(game(), state_after(moves)),
        "The game has already ended: no more moves allowed",
    );
    let moves = vec![piece_move("bob", (1, 5), (0, 4)), resign("alice")];
    refused(
        piece_move("alice", (0, 2), (1, 3)).is_valid(game(), state_after(moves)),
        "The game has already ended: no more moves allowed",
    );
    let moves = vec![piece_move("bob", (1, 5), (0, 4)), resign("alice")];
    refused(
        resign("alice").is_valid(game(), state_after(moves)),
        "The game has already ended: no more moves allowed",
    );
}

#[test]
fn the_player_who_resigned_is_refused_because_the_game_is_over() {
    let players = || Game {
        player_1: Address::from("p1"),
        player_2: Address::from("p2"),
        created_at: 0,
    };
    let record = |author: &str, move_type: MoveType| Move {
        game: Address::from("g"),
        author: Address::from(author),
        move_type,
        previous_move: Address::from("g"),
        timestamp: 0,
    };
    let first = record("p2", MoveType::MovePiece { from: piece(1, 5), to: piece(0, 4) });
    let second = record("p1", MoveType::Resign);
    let state = GameState::initial().evolve(players(), &first).evolve(players(), &second);
    let again = record("p1", MoveType::MovePiece { from: piece(2, 2), to: piece(3, 3) });
    assert_eq!(
        again.is_valid(players(), state),
        Err("The game has already ended: no more moves allowed".to_string())
    );
}

#[test]
fn a_stranger_is_refused_because_the_game_is_over() {
    let moves = vec![piece_move("bob", (1, 5), (0, 4)), resign("alice")];
    refused(
        piece_move("carol", (0, 2), (1, 3)).is_valid(game(), state_after(moves)),
        "The game has already ended: no more moves allowed",
    );
    let moves = vec![resign("bob")];
    refused(
        piece_move("bob", (1, 5), (0, 4)).is_valid(game(), state_after(moves)),
        "The game has already ended: no more moves allowed",
    );
}

#[test]
fn resignation_by_player_2_makes_player_1_the_winner() {
    let state = state_after(vec![resign("bob")]);
    assert!(state.player_2.resigned);
    assert!(state.player_1.winner);
    assert!(!state.player_2.winner);
    assert!(!state.player_1.resigned);
    assert_eq!(state.player_1.pieces, GameState::initial().player_1.pieces);
    assert_eq!(state.player_2.pieces, GameState::initial().player_2.pieces);
}

#[test]
fn resign_is_accepted_on_ones_turn() {
    assert_eq!(resign("bob").is_valid(game(), GameState::initial()), Ok(()));
}

#[test]
fn same_author_twice_is_rejected() {
    let state = state_after(vec![piece_move("bob", (1, 5), (0, 4))]);
    refused(
        piece_move("bob", (3, 5), (2, 4)).is_valid(game(), state),
        "It is not this players turn.",
    );
    let state = state_after(vec![piece_move("bob", (1, 5), (0, 4))]);
    refused(
        is_players_turn(Address::new("bob"), game(), &state),
        "It is not this players turn.",
    );
    assert_eq!(is_players_turn(Address::new("alice"), game(), &state), Ok(()));
}

#[test]
fn a_stranger_is_rejected() {
    let state = state_after(vec![piece_move("bob", (1, 5), (0, 4))]);
    refused(
        piece_move("carol", (0, 2), (1, 3)).is_valid(game(), state),
        "Player is not part of this game!",
    );
}

#[test]
fn a_player_against_themselves_is_rejected() {
    let alone = Game { player_1: Address::new("bob"), player_2: Address::new("bob"), created_at: 0 };
    refused(
        piece_move("bob", (1, 5), (0, 4)).is_valid(alone, GameState::initial()),
        "Player cannot play themselves",
    );
}

#[test]
fn out_of_bounds_is_rejected() {
    for (from, to) in [((8, 5), (7, 4)), ((1, 8), (0, 7)), ((1, 5), (8, 4)), ((1, 5), (0, 8)), ((1, 5), (usize::MAX, 4))] {
        refused(
            piece_move("bob", from, to).is_valid(game(), GameState::initial()),
            "Position is not in bounds",
        );
    }
    assert_eq!(piece(7, 7).is_in_bounds(), Ok(()));
    refused(piece(8, 0).is_in_bounds(), "Position is not in bounds");
    refused(piece(0, 8).is_in_bounds(), "Position is not in bounds");
}

#[test]
fn moving_from_an_empty_square_is_rejected() {
    refused(
        piece_move("bob", (2, 4), (1, 3)).is_valid(game(), GameState::initial()),
        "There are no pieces at the 'from' location",
    );
}

#[test]
fn moving_the_opponents_piece_is_rejected() {
    refused(
        piece_move("bob", (0, 2), (1, 3)).is_valid(game(), GameState::initial()),
        "Piece at 'from' position belongs to other player",
    );
    let state = state_after(vec![piece_move("bob", (1, 5), (0, 4))]);
    refused(
        piece_move("alice", (0, 4), (1, 3)).is_valid(game(), state),
        "Piece at 'from' position belongs to other player",
    );
}

#[test]
fn moving_onto_a_piece_is_rejected() {
    refused(
        piece_move("bob", (0, 6), (1, 5)).is_valid(game(), GameState::initial()),
        "A piece already exists at the 'to' position.",
    );
    refused(
        piece(1, 5).is_empty(&GameState::initial()),
        "A piece already exists at the 'to' position.",
    );
    assert_eq!(piece(0, 4).is_empty(&GameState::initial()), Ok(()));
}

#[test]
fn a_move_that_is_not_diagonal_is_rejected() {
    for to in [(1, 4), (1, 3), (3, 4), (4, 2), (1, 5)] {
        let state = state_with(vec![], vec![piece(1, 5)], vec![]);
        let outcome = piece_move("bob", (1, 5), to).is_valid(game(), state);
        if to == (1, 5) {
            refused(outcome, "A piece already exists at the 'to' position.");
        } else {
            refused(outcome, "This move is not diagonal");
        }
    }
}

#[test]
fn a_backward_move_is_rejected() {
    refused(
        piece(1, 5).can_move_to(&piece(0, 6), &Player::Player2, &state_with(vec![], vec![piece(1, 5)], vec![])),
        "Pawns cannot move backward",
    );
    refused(
        piece(1, 1).can_move_to(&piece(0, 0), &Player::Player1, &state_with(vec![piece(1, 1)], vec![], vec![])),
        "Pawns cannot move backward",
    );
    refused(
        piece(1, 0).can_move_to(&piece(0, 1), &Player::Player2, &state_with(vec![], vec![piece(1, 0)], vec![])),
        "Pawns cannot move backward",
    );
    let state = state_with(vec![piece(2, 4)], vec![piece(1, 3)], vec![]);
    refused(
        piece(1, 3).can_move_to(&piece(3, 5), &Player::Player2, &state),
        "Pawns cannot move backward",
    );
}

#[test]
fn forward_steps_and_jumps_are_accepted() {
    let state = state_with(vec![piece(2, 4)], vec![piece(3, 5)], vec![]);
    assert_eq!(piece(3, 5).can_move_to(&piece(4, 4), &Player::Player2, &state), Ok(()));
    assert_eq!(piece(3, 5).can_move_to(&piece(1, 3), &Player::Player2, &state), Ok(()));
    assert_eq!(piece(2, 4).can_move_to(&piece(1, 5), &Player::Player1, &state), Ok(()));
    assert_eq!(piece(2, 4).can_move_to(&piece(4, 6), &Player::Player1, &state), Ok(()));
}

#[test]
fn ownership_of_a_square() {
    let state = GameState::initial();
    assert_eq!(piece(0, 0).is_piece_belonging_to_player(&Player::Player1, &state), Ok(()));
    assert_eq!(piece(1, 5).is_piece_belonging_to_player(&Player::Player2, &state), Ok(()));
    refused(
        piece(0, 0).is_piece_belonging_to_player(&Player::Player2, &state),
        "Piece at 'from' position belongs to other player",
    );
    refused(
        piece(0, 4).is_piece_belonging_to_player(&Player::Player1, &state),
        "There are no pieces at the 'from' location",
    );
}

#[test]
fn a_jump_takes_the_piece_jumped_over() {
    let state = state_with(
        vec![piece(2, 4), piece(0, 0)],
        vec![piece(3, 5), piece(7, 7)],
        vec![piece_move("alice", (1, 3), (2, 4))],
    );
    let jump = piece_move("bob", (3, 5), (1, 3));
    assert_eq!(
        piece_move("bob", (3, 5), (1, 3)).is_valid(
            game(),
            state_with(
                vec![piece(2, 4), piece(0, 0)],
                vec![piece(3, 5), piece(7, 7)],
                vec![piece_move("alice", (1, 3), (2, 4))],
            ),
        ),
        Ok(())
    );
    let next = state.evolve(game(), &jump);
    assert_eq!(next.player_1.pieces, vec![piece(0, 0)]);
    assert_eq!(next.player_2.pieces, vec![piece(1, 3), piece(7, 7)]);
    assert_eq!(next.moves.len(), 2);
}

#[test]
fn a_step_takes_no_piece() {
    let state = state_with(vec![piece(2, 4), piece(0, 0)], vec![piece(3, 5), piece(7, 7)], vec![]);
    let next = state.evolve(game(), &piece_move("bob", (3, 5), (4, 4)));
    assert_eq!(next.player_1.pieces, vec![piece(0, 0), piece(2, 4)]);
    assert_eq!(next.player_2.pieces, vec![piece(4, 4), piece(7, 7)]);
}

#[test]
fn the_reducer_empties_the_midpoint_whatever_stands_there() {
    let state = state_with(vec![piece(0, 0)], vec![piece(3, 5), piece(2, 4)], vec![]);
    let next = state.evolve(game(), &piece_move("bob", (3, 5), (1, 3)));
    assert_eq!(next.player_1.pieces, vec![piece(0, 0)]);
    assert_eq!(next.player_2.pieces, vec![piece(1, 3)]);
}

#[test]
fn a_move_that_cannot_be_applied_is_told() {
    let state = GameState::initial();
    assert!(state.can_evolve(&game(), &piece_move("bob", (1, 5), (0, 4))));
    assert!(state.can_evolve(&game(), &resign("alice")));
    assert!(!state.can_evolve(&game(), &piece_move("carol", (1, 5), (0, 4))));
    assert!(!state.can_evolve(&game(), &piece_move("bob", (1, 5), (0, 8))));
    assert!(!state.can_evolve(&game(), &piece_move("bob", (8, 5), (0, 4))));
}

#[test]
fn reducing_twice_gives_the_same_state() {
    let moves = || vec![piece_move("bob", (1, 5), (0, 4)), piece_move("alice", (0, 2), (1, 3))];
    assert_eq!(state_after(moves()), state_after(moves()));
}

#[test]
fn players_alternate_in_an_accepted_chain() {
    let mut moves: Vec<Move<MoveType>> = Vec::new();
    let candidates = vec![
        piece_move("bob", (1, 5), (0, 4)),
        piece_move("alice", (0, 2), (1, 3)),
        piece_move("bob", (3, 5), (2, 4)),
        piece_move("alice", (1, 3), (3, 5)),
    ];
    for candidate in candidates {
        let state = get_state(&game(), &moves).unwrap();
        assert_eq!(candidate.is_valid(game(), state), Ok(()));
        moves.push(candidate);
    }
    for k in 0..moves.len() - 1 {
        assert_ne!(moves[k].author, moves[k + 1].author);
    }
    let state = get_state(&game(), &moves).unwrap();
    assert_eq!(state.player_2.pieces.len(), 11);
    assert!(!state.player_2.pieces.contains(&piece(2, 4)));
    assert!(state.player_1.pieces.contains(&piece(3, 5)));
}

#[test]
fn render_of_the_initial_state() {
    let text = GameState::initial().render(&Address::new("alice"));
    let expected = "\nNon-creator must make the first move \n  x  0 1 2 3 4 5 6 7\ny\n\
0   |\u{2591}| |\u{2591}| |\u{2591}| |\u{2591}| |\n\
1   | |\u{2591}| |\u{2591}| |\u{2591}| |\u{2591}|\n\
2   |\u{2591}| |\u{2591}| |\u{2591}| |\u{2591}| |\n\
3   | | | | | | | | |\n\
4   | | | | | | | | |\n\
5   | |\u{2593}| |\u{2593}| |\u{2593}| |\u{2593}|\n\
6   |\u{2593}| |\u{2593}| |\u{2593}| |\u{2593}| |\n\
7   | |\u{2593}| |\u{2593}| |\u{2593}| |\u{2593}|\n";
    assert_eq!(text, expected);
}

#[test]
fn render_tells_whose_turn_it_is_and_how_the_game_ended() {
    let state = state_after(vec![piece_move("bob", (1, 5), (0, 4))]);
    assert!(state.render(&Address::new("bob")).starts_with("\nIt's your oponent's turn \n  x"));
    assert!(state.render(&Address::new("alice")).starts_with("\nIt's your turn \n  x"));
    let state = state_after(vec![piece_move("bob", (1, 5), (0, 4)), resign("alice")]);
    assert!(state.render(&Address::new("bob")).ends_with("|\nPlayer 1 has resigned"));
    let state = state_after(vec![resign("bob")]);
    assert!(state.render(&Address::new("bob")).ends_with("|\nPlayer 2 has resigned"));
    let mut state = GameState::initial();
    state.player_1.winner = true;
    assert!(state.render(&Address::new("bob")).ends_with("|\nPlayer 1 has won"));
    let mut state = GameState::initial();
    state.player_2.winner = true;
    assert!(state.render(&Address::new("bob")).ends_with("|\nPlayer 2 has won"));
}

#[test]
fn a_state_is_well_formed_when_every_piece_is_on_the_board() {
    assert!(GameState::initial().is_well_formed());
    assert!(state_with(vec![piece(7, 7)], vec![piece(0, 0)], vec![]).is_well_formed());
    assert!(!state_with(vec![piece(8, 0)], vec![], vec![]).is_well_formed());
    assert!(!state_with(vec![], vec![piece(0, 0), piece(0, 8)], vec![]).is_well_formed());
    assert!(state_after(vec![piece_move("bob", (1, 5), (0, 4))]).is_well_formed());
}
