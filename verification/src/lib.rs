//! Representations of k-in-a-row games.

pub mod lines;
pub mod text;
pub mod input;

mod board;
pub use board::{space_to_string, MnkBoard, OutOfBounds, PlaceError, Player};

mod games;
pub use games::{winner_in_run, winner_in_runs, GameStatus, MnkGame, PlayError};

pub mod gravity;

/// Well-known [`MnkGame`]s.
pub mod variants;

pub mod mnk;
