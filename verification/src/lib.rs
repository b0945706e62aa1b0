//! A football league standings library.
//!
//! One input line names two teams and their scores ("Lions 3, Snakes 3").
//! The library lexes such lines, classifies each into a win or a draw,
//! accumulates points per team (3 for a win, 1 each for a draw, 0 for a
//! loss), and renders a ranked table, sorted by points descending with
//! alphabetical tie-break.

pub mod chars;
pub mod driver;
pub mod league;
pub mod lex;
pub mod numbers;
pub mod order;
pub mod outcome;
pub mod segments;
pub mod standings;

pub use driver::football_league;
pub use league::League;
pub use lex::{lex, Tokens};
pub use outcome::{parse, MatchResult};
