//! Semantic text chunking: splits text into chunks that stay within a token
//! budget measured by a pluggable token counter, breaking at the most
//! semantically meaningful separators first.

pub mod chunker;
pub mod counter;
pub mod splitter;
pub mod text;

pub use chunker::Chunker;
pub use counter::{CharTokenCounter, SpaceTokenCounter, TokenCounter};
pub use splitter::Splitter;
pub use text::CharClass;
