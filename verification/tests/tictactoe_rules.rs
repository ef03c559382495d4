use generic_game::address::Address;
use generic_game::game::{get_state, Game};
use generic_game::game_move::Move;
use generic_game::tictactoe::moves::{MoveType, Piece};
use generic_game::tictactoe::state::{
    board_dense_to_sparse, board_sparse_to_dense, state_reducer, GameState, PlayerState,
    BOARD_SIZE, EMPTY_SPACE, PLAYER_1_MARK, PLAYER_2_MARK,
};
use generic_game::tictactoe::validation::{get_current_player, is_players_turn, Player};

fn players() -> Game {
    Game { player_1: Address::new("alice"), player_2: Address::new("bob"), created_at: 0 }
}

fn place(author: &str, x: usize, y: usize) -> Move<MoveType> {
    Move {
        game: Address::new("game"),
        author: Address::new(author),
        move_type: MoveType::Place { pos: Piece { x, y } },
        previous_move: Address::new("previous"),
        timestamp: 0,
    }
}

fn reached(moves: Vec<Move<MoveType>>) -> GameState {
    get_state(&players(), &moves).unwrap()
}

fn turned_down(outcome: Result<(), String>, reason: &str) {
    assert_eq!(outcome, Err(reason.to_string()));
}

#[test]
fn tictactoe_constants() {
    assert_eq!(BOARD_SIZE, 3);
    assert_eq!(PLAYER_1_MARK, 'O');
    assert_eq!(PLAYER_2_MARK, 'X');
    assert_eq!(EMPTY_SPACE, ' ');
}

#[test]
fn tictactoe_describe() {
    assert_eq!(MoveType::describe(), vec![MoveType::Place { pos: Piece { x: 0, y: 0 } }]);
}

#[test]
fn tictactoe_initial_state_is_empty() {
    let state = GameState::initial();
    assert!(state.moves.is_empty());
    assert_eq!(state.player_1, PlayerState::initial());
    assert_eq!(state.player_2, PlayerState::initial());
    assert_eq!(
        PlayerState::initial(),
        PlayerState { pieces: vec![], resigned: false, winner: false }
    );
}

#[test]
fn tictactoe_seats() {
    assert_eq!(get_current_player(&players(), &Address::new("alice")), Ok(Player::Player1));
    assert_eq!(get_current_player(&players(), &Address::new("bob")), Ok(Player::Player2));
}

#[test]
fn tictactoe_first_move_is_player_2s() {
    assert_eq!(place("bob", 1, 1).is_valid(players(), GameState::initial()), Ok(()));
    turned_down(
        place("alice", 1, 1).is_valid(players(), GameState::initial()),
        "Player 2 must make the first move.",
    );
    turned_down(
        is_players_turn(Address::new("alice"), players(), &GameState::initial()),
        "Player 2 must make the first move.",
    );
}

#[test]
fn tictactoe_turns_alternate() {
    let state = reached(vec![place("bob", 1, 1)]);
    turned_down(place("bob", 0, 0).is_valid(players(), state), "It is not this players turn.");
    let state = reached(vec![place("bob", 1, 1)]);
    assert_eq!(place("alice", 0, 0).is_valid(players(), state), Ok(()));
}

#[test]
fn tictactoe_bounds() {
    turned_down(
        place("bob", 3, 0).is_valid(players(), GameState::initial()),
        "Position is not in bounds",
    );
    turned_down(
        place("bob", 0, 3).is_valid(players(), GameState::initial()),
        "Position is not in bounds",
    );
    assert_eq!(Piece { x: 2, y: 2 }.is_in_bounds(), Ok(()));
}

#[test]
fn tictactoe_square_must_be_empty() {
    let state = reached(vec![place("bob", 1, 1)]);
    turned_down(
        place("alice", 1, 1).is_valid(players(), state),
        "A piece already exists at that position.",
    );
    let state = reached(vec![place("bob", 1, 1)]);
    assert_eq!(Piece { x: 0, y: 1 }.is_empty(&state), Ok(()));
}

#[test]
fn tictactoe_stranger_is_rejected() {
    let state = reached(vec![place("bob", 1, 1)]);
    turned_down(
        place("carol", 0, 0).is_valid(players(), state),
        "Player is not part of this game!",
    );
}

#[test]
fn tictactoe_reducer_places_the_mark() {
    let next = state_reducer(players(), GameState::initial(), &place("bob", 2, 1));
    assert_eq!(next.moves, vec![place("bob", 2, 1)]);
    assert_eq!(next.player_1.pieces, vec![]);
    assert_eq!(next.player_2.pieces, vec![Piece { x: 2, y: 1 }]);
    assert!(!next.player_1.winner && !next.player_2.winner);
    let next = state_reducer(players(), next, &place("alice", 0, 0));
    assert_eq!(next.player_1.pieces, vec![Piece { x: 0, y: 0 }]);
    assert_eq!(next.player_2.pieces, vec![Piece { x: 2, y: 1 }]);
}

#[test]
fn tictactoe_full_column_wins() {
    let state = reached(vec![
        place("bob", 0, 0),
        place("alice", 1, 0),
        place("bob", 0, 1),
        place("alice", 1, 1),
        place("bob", 0, 2),
    ]);
    assert!(state.player_2.winner);
    assert!(!state.player_1.winner);
    turned_down(
        place("alice", 2, 2).is_valid(players(), state),
        "The game has already ended: no more moves allowed",
    );
    let state = reached(vec![
        place("bob", 0, 0),
        place("alice", 1, 0),
        place("bob", 0, 1),
        place("alice", 1, 1),
        place("bob", 0, 2),
    ]);
    turned_down(
        place("bob", 2, 2).is_valid(players(), state),
        "The game has already ended: no more moves allowed",
    );
}

#[test]
fn tictactoe_full_row_wins() {
    let state = reached(vec![
        place("bob", 0, 0),
        place("alice", 0, 1),
        place("bob", 2, 2),
        place("alice", 1, 1),
        place("bob", 0, 2),
        place("alice", 2, 1),
    ]);
    assert!(state.player_1.winner);
    assert!(!state.player_2.winner);
}

#[test]
fn tictactoe_diagonal_does_not_win() {
    let state = reached(vec![
        place("bob", 0, 0),
        place("alice", 1, 0),
        place("bob", 1, 1),
        place("alice", 2, 0),
        place("bob", 2, 2),
    ]);
    assert!(!state.player_2.winner);
    assert!(!state.player_1.winner);
}

#[test]
fn tictactoe_board_conversions() {
    let state = reached(vec![place("bob", 2, 0), place("alice", 0, 1), place("bob", 0, 2)]);
    let board = board_sparse_to_dense(&state);
    assert_eq!(board, [[0, 1, 2], [0, 0, 0], [2, 0, 0]]);
    let (first, second) = board_dense_to_sparse(board);
    assert_eq!(first, vec![Piece { x: 0, y: 1 }]);
    assert_eq!(second, vec![Piece { x: 0, y: 2 }, Piece { x: 2, y: 0 }]);
}

#[test]
fn tictactoe_render() {
    let state = reached(vec![place("bob", 2, 0), place("alice", 0, 1)]);
    assert_eq!(
        state.render(&Address::new("alice")),
        "\nIt is your opponents turn \n\n  x  0 1 2\ny\n0   | | |X|\n1   |O| | |\n2   | | | |\n"
    );
    assert_eq!(
        state.render(&Address::new("bob")),
        "\nIt is your turn \n\n  x  0 1 2\ny\n0   | | |X|\n1   |O| | |\n2   | | | |\n"
    );
    assert_eq!(
        GameState::initial().render(&Address::new("bob")),
        "\nNon-creator must make the first move \n\n  x  0 1 2\ny\n0   | | | |\n1   | | | |\n2   | | | |\n"
    );
    let mut state = GameState::initial();
    state.player_1.winner = true;
    assert!(state.render(&Address::new("bob")).ends_with("|\nGame over: Player 1 is the winner!\n"));
    let mut state = GameState::initial();
    state.player_2.winner = true;
    assert!(state.render(&Address::new("bob")).ends_with("|\nGame over: Player 2 is the winner!\n"));
    let mut state = GameState::initial();
    state.player_1.resigned = true;
    assert!(state.render(&Address::new("bob")).ends_with("|\nGame over: Player 1 has resigned!\n"));
    let mut state = GameState::initial();
    state.player_2.resigned = true;
    assert!(state.render(&Address::new("bob")).ends_with("|\nGame over: Player 2 has resigned!\n"));
}

#[test]
fn tictactoe_duplicate_is_a_copy() {
    let state = reached(vec![place("bob", 2, 0), place("alice", 0, 1)]);
    assert_eq!(state.duplicate(), state);
}

#[test]
fn tictactoe_state_is_well_formed_when_every_mark_is_on_the_board() {
    assert!(GameState::initial().is_well_formed());
    assert!(reached(vec![place("bob", 2, 2)]).is_well_formed());
    let mut state = GameState::initial();
    state.player_1.pieces.push(Piece { x: 3, y: 0 });
    assert!(!state.is_well_formed());
    let mut state = GameState::initial();
    state.player_2.pieces.push(Piece { x: 0, y: 3 });
    assert!(!state.is_well_formed());
}

#[test]
fn tictactoe_move_that_cannot_be_applied_is_told() {
    assert!(GameState::initial().can_reduce(&players(), &place("bob", 0, 0)));
    assert!(!GameState::initial().can_reduce(&players(), &place("carol", 0, 0)));
    assert!(!GameState::initial().can_reduce(&players(), &place("bob", 0, 3)));
    assert_eq!(
        get_state(&players(), &vec![place("bob", 3, 3)]),
        Err(generic_game::chain::ChainError::Inapplicable)
    );
}
