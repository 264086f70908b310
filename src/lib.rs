//! A first-order word transition model: text is split into words, each
//! adjacent pair of words is recorded, and new text is produced by a random
//! walk over the recorded pairs. The model can be exported to, and restored
//! from, a JSON list of `[word, [successor, ...]]` entries.

pub mod words;
pub mod table;
pub mod chain;
pub mod corpus;

pub use chain::{DeadEndPolicy, MarkovChain, MarkovChainOptions};
