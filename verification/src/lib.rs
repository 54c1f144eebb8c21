//! Information-theoretic solver for a five-letter word-guessing puzzle.
//!
//! Given a candidate word list and a hidden answer, the engine picks, each
//! turn, the guess that maximizes the expected information gain about the
//! answer, folds the resulting feedback pattern into its constraint state,
//! filters the candidate pool, and converges on the answer.

pub mod bignum;
pub mod engine;
pub mod error;
pub mod state;
pub mod word;

pub use engine::Wordle;
pub use error::Error;
pub use state::{fold, simulate, Mark, Pattern, WordleState};
pub use word::{word_from_str, Word};
