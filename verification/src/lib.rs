//! Spelling correction by symmetric deletion.
//!
//! A corrector keeps, for every word of its vocabulary, the strings that are
//! left of the word when up to a bound of characters are taken out. A query
//! is answered by taking characters out of it in the same way, looking the
//! results up, and ranking the words so found by their edit distance from
//! the query.

pub mod cache;
pub mod corrector;
pub mod distance;
pub mod index;
pub mod lookup;
pub mod ranking;
pub mod state;
pub mod text;
pub mod variants;
pub mod wordlist;

pub use corrector::SpellCorrector;
pub use corrector::SuggestedCorrection;
pub use distance::bounded_levenshtein;
pub use ranking::Suggestion;
pub use state::CorrectorState;
pub use state::ImportError;
pub use variants::deletion_variants;
