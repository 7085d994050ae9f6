pub mod budget;
pub mod config;
pub mod laws;
pub mod solver;
pub mod text;
pub mod trie;
pub mod word_set;

pub use config::{ArgNotice, Config, Mode};
pub use solver::AnagramSolver;
pub use text::extract_words;
pub use trie::Trie;
pub use word_set::WordSet;
