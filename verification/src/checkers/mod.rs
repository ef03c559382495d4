//! The checkers ruleset: pawns move one square diagonally forward, or jump two
//! squares over a piece of the opponent, which is then taken off the board.

pub mod moves;
pub mod rules;
pub mod state;
pub mod validation;

pub use self::moves::MoveType;
pub use self::state::GameState;
