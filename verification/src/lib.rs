//! Polish algorithmic stemming (Stempel) and Polish stop words.
//!
//! - [`StempelStemFilter`]: the Stempel stemmer, driven by a compiled
//!   Egothor trie table;
//! - [`PolishStopFilter`]: the Polish stop word filter.

pub mod bytes;
pub mod diff;
pub mod stemmer;
pub mod stop;
pub mod trie;

pub use stemmer::StempelStemFilter;
pub use stop::{PolishStopFilter, POLISH_STOP_WORDS};
pub mod layout;
