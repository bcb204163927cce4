//! Words, the dictionaries that hold them, and what a user knows of them.

pub mod curve;
pub mod dictionary;
pub mod obscurity_index;
pub mod dictionary_file;
pub mod knowledge;
pub mod knowledge_file;
pub mod word;
pub mod word_knowledge;

pub use crate::error::WordError;
pub use dictionary::{Dictionary, DictionaryView, FileVersion, ObscurityMode, WordID};
pub use knowledge::{Knowledge, KnowledgeView};
pub use word::{Word, WordView};
pub use word_knowledge::v0_3::WordKnowledge;
