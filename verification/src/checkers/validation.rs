use vstd::prelude::*;
use crate::address::Address;
use crate::game::{
    check_turn, get_current_player, refusal, seat_of, seat_refusal, turn_refusal, Game, GameView,
    Player,
};
use crate::game_move::{Move, MoveView};
use super::moves::{MoveType, Piece};
use super::state::{
    board_sparse_to_dense, is_jump, mark_of, midpoint, on_board, GameState, GameStateView,
    BOARD_SIZE,
};

verus! {

/// Whether the game is over: a player has resigned or has won.
pub open spec fn has_ended(state: GameStateView) -> bool {
    state.player_1.resigned || state.player_1.winner || state.player_2.resigned
        || state.player_2.winner
}

/// Why `player` may not move what stands on a square that holds `mark`, or
/// `None` if the piece is `player`'s own.
pub open spec fn ownership_refusal(mark: u8, player: Player) -> Option<Seq<char>> {
    if mark == 0 {
        Some("There are no pieces at the 'from' location"@)
    } else if mark == 1 || mark == 2 {
        if mark == mark_of(player) {
            None
        } else {
            Some("Piece at 'from' position belongs to other player"@)
        }
    } else {
        Some("Board is in an invalid state!"@)
    }
}

/// The other seat.
pub open spec fn opponent(player: Player) -> Player {
    match player {
        Player::Player1 => Player::Player2,
        Player::Player2 => Player::Player1,
    }
}

/// Whether going from `from` to `to` is `step` rows forward for `player`:
/// player 1 moves toward higher rows, player 2 toward lower ones.
pub open spec fn is_forward(from: Piece, to: Piece, player: Player, step: int) -> bool {
    match player {
        Player::Player1 => to.y == from.y + step,
        Player::Player2 => to.y + step == from.y,
    }
}

/// Whether `to` lies one square from `from` in both directions.
pub open spec fn is_step(from: Piece, to: Piece) -> bool {
    &&& to.x - from.x == 1 || from.x - to.x == 1
    &&& to.y - from.y == 1 || from.y - to.y == 1
}

/// Why a pawn of `player` may not go from `from` to `to`, or `None` if it
/// may: it goes one square diagonally forward, or two squares diagonally
/// forward over a piece of the opponent.
pub open spec fn movement_refusal(
    state: GameStateView,
    from: Piece,
    to: Piece,
    player: Player,
) -> Option<Seq<char>> {
    if is_step(from, to) {
        if is_forward(from, to, player, 1) {
            None
        } else {
            Some("Pawns cannot move backward"@)
        }
    } else if is_jump(from, to) {
        let over = state.at(midpoint(from, to).x as int, midpoint(from, to).y as int);
        if over == 0 {
            Some("Can only jump over another piece"@)
        } else if over != mark_of(opponent(player)) {
            Some("Cannot jump own piece"@)
        } else if is_forward(from, to, player, 2) {
            None
        } else {
            Some("Pawns cannot move backward"@)
        }
    } else {
        Some("This move is not diagonal"@)
    }
}

/// Why `candidate` may not follow the moves in `state`, or `None` if it may.
/// The checks are made in this order, and the first that fails gives the
/// reason: that the game is not over, the turn, the author's seat, and for a
/// move of a piece the bounds, the piece on `from`, that `to` is empty, and
/// the movement. Once a game is over every move is refused as such, whoever
/// makes it.
pub open spec fn rejection(
    candidate: MoveView<MoveType>,
    game: GameView,
    state: GameStateView,
) -> Option<Seq<char>> {
    if has_ended(state) {
        Some("The game has already ended: no more moves allowed"@)
    } else if turn_refusal(candidate.author, game, state.moves) is Some {
        turn_refusal(candidate.author, game, state.moves)
    } else if seat_of(game, candidate.author) is None {
        seat_refusal(game, candidate.author)
    } else {
        let player = seat_of(game, candidate.author).unwrap();
        match candidate.move_type {
            MoveType::Resign => None,
            MoveType::MovePiece { from, to } => {
                if !on_board(from) || !on_board(to) {
                    Some("Position is not in bounds"@)
                } else if ownership_refusal(state.at(from.x as int, from.y as int), player)
                    is Some {
                    ownership_refusal(state.at(from.x as int, from.y as int), player)
                } else if state.at(to.x as int, to.y as int) != 0 {
                    Some("A piece already exists at the 'to' position."@)
                } else {
                    movement_refusal(state, from, to, player)
                }
            },
        }
    }
}

/// A resignation ends the game for both players: whatever move follows it,
/// and whoever makes it, is refused because the game has ended.
pub proof fn lemma_resignation_ends_the_game(
    state: GameStateView,
    game: GameView,
    resignation: MoveView<MoveType>,
    candidate: MoveView<MoveType>,
)
    requires
        state.can_evolve(game, resignation),
        resignation.move_type is Resign,
    ensures
        rejection(candidate, game, state.evolve(game, resignation)) == Some(
            "The game has already ended: no more moves allowed"@,
        ),
{
}

impl Move<MoveType> {
    /// Whether this move may follow the moves in `game_state`, which holds
    /// the moves before it and not the move itself.
    pub fn is_valid(&self, game: Game, game_state: GameState) -> (outcome: Result<(), String>)
        requires
            game_state@.wf(),
        ensures
            refusal(outcome) == rejection(self@, game@, game_state@),
            has_ended(game_state@) ==> refusal(outcome) == Some(
                "The game has already ended: no more moves allowed"@,
            ),
            self@.move_type matches MoveType::MovePiece { from, to } && !(on_board(from)
                && on_board(to)) ==> outcome is Err,
    {
        if game_state.player_1.resigned || game_state.player_1.winner
            || game_state.player_2.resigned || game_state.player_2.winner {
            return Err("The game has already ended: no more moves allowed".to_owned());
        }
        match is_players_turn(self.author.clone(), game.clone(), &game_state) {
            Ok(_) => {},
            Err(reason) => {
                return Err(reason);
            },
        }
        let current_player = match get_current_player(&game, &self.author) {
            Ok(player) => player,
            Err(reason) => {
                return Err(reason);
            },
        };
        match self.move_type {
            MoveType::Resign => Ok(()),
            MoveType::MovePiece { from, to } => {
                match from.is_in_bounds() {
                    Ok(_) => {},
                    Err(reason) => {
                        return Err(reason);
                    },
                }
                match to.is_in_bounds() {
                    Ok(_) => {},
                    Err(reason) => {
                        return Err(reason);
                    },
                }
                match from.is_piece_belonging_to_player(&current_player, &game_state) {
                    Ok(_) => {},
                    Err(reason) => {
                        return Err(reason);
                    },
                }
                match to.is_empty(&game_state) {
                    Ok(_) => {},
                    Err(reason) => {
                        return Err(reason);
                    },
                }
                from.can_move_to(&to, &current_player, &game_state)
            },
        }
    }
}

/// Whether it is `player`'s turn.
pub fn is_players_turn(player: Address, game: Game, game_state: &GameState) -> (outcome: Result<
    (),
    String,
>)
    ensures
        refusal(outcome) == turn_refusal(player@, game@, game_state@.moves),
{
    check_turn(&player, &game, &game_state.moves)
}

impl Piece {
    /// Whether the square lies on the board.
    pub fn is_in_bounds(&self) -> (outcome: Result<(), String>)
        ensures
            refusal(outcome) == if on_board(*self) {
                None
            } else {
                Some("Position is not in bounds"@)
            },
    {
        if self.x < BOARD_SIZE && self.y < BOARD_SIZE {
            Ok(())
        } else {
            Err("Position is not in bounds".to_owned())
        }
    }

    /// Whether the square holds a piece of `player`.
    pub fn is_piece_belonging_to_player(&self, player: &Player, game_state: &GameState) -> (outcome:
        Result<(), String>)
        requires
            game_state@.wf(),
            on_board(*self),
        ensures
            refusal(outcome) == ownership_refusal(
                game_state@.at(self.x as int, self.y as int),
                *player,
            ),
    {
        let board = board_sparse_to_dense(game_state);
        let mark = board[self.x][self.y];
        assert(mark == game_state@.at(self.x as int, self.y as int));
        if mark == 0 {
            Err("There are no pieces at the 'from' location".to_owned())
        } else if mark == 1 {
            match player {
                Player::Player1 => Ok(()),
                Player::Player2 => Err("Piece at 'from' position belongs to other player".to_owned()),
            }
        } else if mark == 2 {
            match player {
                Player::Player2 => Ok(()),
                Player::Player1 => Err("Piece at 'from' position belongs to other player".to_owned()),
            }
        } else {
            Err("Board is in an invalid state!".to_owned())
        }
    }

    /// Whether a pawn of `player` on this square may go to `to`.
    pub fn can_move_to(&self, to: &Piece, player: &Player, game_state: &GameState) -> (outcome:
        Result<(), String>)
        requires
            game_state@.wf(),
            on_board(*self),
            on_board(*to),
        ensures
            refusal(outcome) == movement_refusal(game_state@, *self, *to, *player),
    {
        let across = if to.x >= self.x {
            to.x - self.x
        } else {
            self.x - to.x
        };
        let along = if to.y >= self.y {
            to.y - self.y
        } else {
            self.y - to.y
        };
        let step: usize = if across == 1 && along == 1 {
            1
        } else if across == 2 && along == 2 {
            let inbetween_piece = Piece { x: (self.x + to.x) / 2, y: (self.y + to.y) / 2 };
            let board = board_sparse_to_dense(game_state);
            let over = board[inbetween_piece.x][inbetween_piece.y];
            assert(over == game_state@.at(inbetween_piece.x as int, inbetween_piece.y as int));
            if over == 0 {
                return Err("Can only jump over another piece".to_owned());
            }
            let theirs: u8 = match player {
                Player::Player1 => 2,
                Player::Player2 => 1,
            };
            if over != theirs {
                return Err("Cannot jump own piece".to_owned());
            }
            2
        } else {
            return Err("This move is not diagonal".to_owned());
        };
        let forward = match player {
            Player::Player1 => to.y == self.y + step,
            Player::Player2 => self.y >= step && to.y == self.y - step,
        };
        if forward {
            Ok(())
        } else {
            Err("Pawns cannot move backward".to_owned())
        }
    }

    /// Whether the square is empty.
    pub fn is_empty(&self, game_state: &GameState) -> (outcome: Result<(), String>)
        requires
            game_state@.wf(),
            on_board(*self),
        ensures
            refusal(outcome) == if game_state@.at(self.x as int, self.y as int) == 0 {
                None
            } else {
                Some("A piece already exists at the 'to' position."@)
            },
    {
        let board = board_sparse_to_dense(game_state);
        let mark = board[self.x][self.y];
        assert(mark == game_state@.at(self.x as int, self.y as int));
        if mark == 0 {
            Ok(())
        } else {
            Err("A piece already exists at the 'to' position.".to_owned())
        }
    }
}

} // verus!
