//! A solver for the "Letter Boxed" word-chain puzzle.
//!
//! Four sides of a square each carry a few letters. A word may only step
//! between letters on different sides, consecutive words chain last letter to
//! first letter, and the chain as a whole must use every letter of the board.
//!
//! - `board`: the board model (forbidden letter pairs, the letters to cover)
//!   and the chain validator.
//! - `search`: the breadth-first chain search over a word list.
//! - `words`: looking up already played words by text, and the built-in list.
//! - `laws`: what holds of every answer of the search.

mod letters;
pub mod board;
pub mod search;
pub mod words;
pub mod laws;

pub use board::LetterBoxed;
