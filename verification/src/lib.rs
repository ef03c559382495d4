//! A two-player board game whose state is never stored: it is derived by
//! replaying a chain of immutable move records rooted at a game record.
//!
//! The crate holds the three parts that every peer must compute alike: the
//! resolver that orders the move records of a game, the reducer that folds the
//! ordered moves into a state, and the validator that decides whether a
//! proposed move may extend the chain.
//!
//! - [`chain`] holds the records of a log, what it means to resolve the moves
//!   of a game from them, and the walk along the links of the store.
//! - [`game`] holds the game record, the resolver and the reducer over a log.
//! - [`game_move`] holds the move record and the validation of a new move.
//! - [`rules`] says what a ruleset is; [`checkers`] and [`tictactoe`] are two.
//! - [`zome`] and [`matchmaking`] hold what a node decides when it is asked to
//!   make a game, a move or a proposal; [`command`] reads a line of input.

pub mod address;
pub mod chain;
pub mod checkers;
pub mod command;
pub mod game;
pub mod game_move;
pub mod matchmaking;
pub mod rules;
pub mod tictactoe;
pub mod zome;
