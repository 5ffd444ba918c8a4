//! A navigable, zero-copy view over the flat event log that a PEG-style
//! matching engine records while it parses an input string.
//!
//! The engine produces a log of `Start`/`End` markers (one matched rule range
//! per pair of markers) together with the shared input text. This crate turns
//! that log into lightweight views: `Pair` for one matched range, `Pairs` for
//! sibling iteration, `Tokens` for the raw marker sequence, and `Span` for an
//! independent byte-offset window into the text, with its line decomposition.

pub mod pair;
pub mod pairs;
pub mod position;
pub mod render;
pub mod span;
pub mod text;
pub mod token;
pub mod tokens;

pub use pair::Pair;
pub use pairs::Pairs;
pub use position::Position;
pub use span::Lines;
pub use span::Span;
pub use token::QueueableToken;
pub use token::RuleType;
pub use tokens::Tokens;
