//! The tic-tac-toe ruleset: the players place marks in turn on a board of
//! three by three squares, and a full row or column wins.

pub mod moves;
pub mod rules;
pub mod state;
pub mod validation;

pub use self::moves::MoveType;
pub use self::state::GameState;
