//! An interactive solver for the five-letter word-guessing game.
//!
//! The solver proposes guesses that maximize the expected information gained
//! about the hidden answer. Feedback is exchanged as a base-3 "pattern"
//! integer in `[0, 243)`: digit `i` (least-significant digit is position 0)
//! is the color of letter position `i`, with 0 = absent, 1 = present in the
//! wrong spot, 2 = correct spot.

pub mod codec;
pub mod oracle;
pub mod candidates;
pub mod scorer;
pub mod selector;
pub mod session;
