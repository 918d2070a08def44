//! Rule-based intent matching and entity extraction.
//!
//! The crate classifies free-form input against a corpus of trigger
//! phrases and extracts structured entities (paths, files, numbers,
//! environment variables) from free text.  Scores and confidences are
//! fixed-point values scaled by 1000 (`1000` means a perfect score),
//! so that every computation is exact integer arithmetic.

pub mod entities;
pub mod matcher;
pub mod similarity;
pub mod text;
pub mod types;

pub use entities::EntityExtractor;
pub use matcher::match_intent;
pub use similarity::{calculate_similarity, longest_common_subsequence};
pub use types::{AmbiguousMatch, Entity, IntentMatch, ParseResult, Trigger};
