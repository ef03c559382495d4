use vstd::prelude::*;
use crate::address::Address;
use crate::game::{check_turn, refusal, seat_of, seat_refusal, turn_refusal, Game, GameView};
use crate::game_move::{Move, MoveView};
use super::moves::{MoveType, Piece};
use super::state::{board_sparse_to_dense, on_board, GameState, GameStateView, BOARD_SIZE};

pub use crate::game::{get_current_player, Player};

verus! {

/// Whether the game is over: a player has resigned or has won.
pub open spec fn has_ended(state: GameStateView) -> bool {
    state.player_1.resigned || state.player_1.winner || state.player_2.resigned
        || state.player_2.winner
}

/// Why `candidate` may not follow the moves in `state`, or `None` if it may.
/// The checks are made in this order, and the first that fails gives the
/// reason: that the game is not over, the turn, the author's seat, that the
/// square lies on the board, and that it is empty. Once a game is over every
/// move is refused as such, whoever makes it.
pub open spec fn rejection(
    candidate: MoveView<MoveType>,
    game: GameView,
    state: GameStateView,
) -> Option<Seq<char>> {
    let pos = candidate.move_type->pos;
    if has_ended(state) {
        Some("The game has already ended: no more moves allowed"@)
    } else if turn_refusal(candidate.author, game, state.moves) is Some {
        turn_refusal(candidate.author, game, state.moves)
    } else if seat_of(game, candidate.author) is None {
        seat_refusal(game, candidate.author)
    } else if !on_board(pos) {
        Some("Position is not in bounds"@)
    } else if state.at(pos.x as int, pos.y as int) != 0 {
        Some("A piece already exists at that position."@)
    } else {
        None
    }
}

/// A full row or column ends the game for both players: whatever move
/// follows the one that fills it, and whoever makes it, is refused because
/// the game has ended.
pub proof fn lemma_line_ends_the_game(
    state: GameStateView,
    game: GameView,
    winning: MoveView<MoveType>,
    candidate: MoveView<MoveType>,
)
    requires
        state.reduce(game, winning).player_1.winner || state.reduce(game, winning).player_2.winner,
    ensures
        rejection(candidate, game, state.reduce(game, winning)) == Some(
            "The game has already ended: no more moves allowed"@,
        ),
{
}

impl Move<MoveType> {
    /// Whether this move may follow the moves in `game_state`, which holds
    /// the moves before it and not the move itself.
    pub fn is_valid(&self, game: Game, game_state: GameState) -> (outcome: Result<(), String>)
        requires
            game_state@.wf(),
        ensures
            refusal(outcome) == rejection(self@, game@, game_state@),
            has_ended(game_state@) ==> refusal(outcome) == Some(
                "The game has already ended: no more moves allowed"@,
            ),
    {
        if game_state.player_1.resigned || game_state.player_1.winner
            || game_state.player_2.resigned || game_state.player_2.winner {
            return Err("The game has already ended: no more moves allowed".to_owned());
        }
        match is_players_turn(self.author.clone(), game.clone(), &game_state) {
            Ok(_) => {},
            Err(reason) => {
                return Err(reason);
            },
        }
        match get_current_player(&game, &self.author) {
            Ok(_) => {},
            Err(reason) => {
                return Err(reason);
            },
        }
        match self.move_type {
            MoveType::Place { pos } => {
                match pos.is_in_bounds() {
                    Ok(_) => {},
                    Err(reason) => {
                        return Err(reason);
                    },
                }
                pos.is_empty(&game_state)
            },
        }
    }
}

/// Whether it is `player`'s turn.
pub fn is_players_turn(player: Address, game: Game, game_state: &GameState) -> (outcome: Result<
    (),
    String,
>)
    ensures
        refusal(outcome) == turn_refusal(player@, game@, game_state@.moves),
{
    check_turn(&player, &game, &game_state.moves)
}

impl Piece {
    /// Whether the square lies on the board.
    pub fn is_in_bounds(&self) -> (outcome: Result<(), String>)
        ensures
            refusal(outcome) == if on_board(*self) {
                None
            } else {
                Some("Position is not in bounds"@)
            },
    {
        if self.x < BOARD_SIZE && self.y < BOARD_SIZE {
            Ok(())
        } else {
            Err("Position is not in bounds".to_owned())
        }
    }

    /// Whether the square is empty.
    pub fn is_empty(&self, game_state: &GameState) -> (outcome: Result<(), String>)
        requires
            game_state@.wf(),
            on_board(*self),
        ensures
            refusal(outcome) == if game_state@.at(self.x as int, self.y as int) == 0 {
                None
            } else {
                Some("A piece already exists at that position."@)
            },
    {
        let board = board_sparse_to_dense(game_state);
        let mark = board[self.x][self.y];
        assert(mark == game_state@.at(self.x as int, self.y as int));
        if mark == 0 {
            Ok(())
        } else {
            Err("A piece already exists at that position.".to_owned())
        }
    }
}

} // verus!
