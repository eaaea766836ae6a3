//! Breaking Caesar ciphers by scoring every rotation against English letter
//! and letter-pair frequencies, and applying a known rotation to bytes.
//!
//! Scores are kept exactly as integers in hundredths of a frequency point.

pub mod frequency;
pub mod rotate;
pub mod score;
pub mod search;

pub use rotate::{decode_caesar, shift_byte, DecaesarError};
pub use score::{DefaultScorer, ScoreFunction};
pub use search::{Decaesar, DecaesarResult, DecipherResult};
