//! The record of one word as it was stored before the two directions of
//! practice were told apart, and the payload that holds the records of one
//! dictionary.

use vstd::prelude::*;
use crate::words::curve::MIN_HALF_LIFE;
use crate::words::dictionary::WordID;

verus! {

/// What was known of one word when only one direction was kept.
#[derive(Clone, Copy, Debug, PartialEq, Eq, Structural)]
pub struct WordKnowledge {
    pub word_id: WordID,
    pub last_practice: Option<i64>,
    pub half_life: u64,
}

impl WordKnowledge {
    /// This record in the current layout: the forward direction is what was
    /// stored, the backward direction was never practised and starts half way
    /// between the stored half-life and the shortest one.
    pub open spec fn converted(self) -> super::v0_3::WordKnowledge {
        super::v0_3::WordKnowledge {
            word_id: self.word_id,
            last_practice: self.last_practice,
            last_practice_reverse: None,
            half_life: self.half_life,
            half_life_reverse: ((self.half_life + MIN_HALF_LIFE) / 2) as u64,
        }
    }

    /// Brings the record forward one version.
    pub fn convert_to(self) -> (k: super::v0_3::WordKnowledge)
        ensures
            k == self.converted(),
    {
        let sum: u128 = self.half_life as u128 + MIN_HALF_LIFE as u128;
        super::v0_3::WordKnowledge {
            word_id: self.word_id,
            last_practice: self.last_practice,
            last_practice_reverse: None,
            half_life: self.half_life,
            half_life_reverse: (sum / 2) as u64,
        }
    }
}

/// The payload of a knowledge record: the title of the dictionary it belongs
/// to, the cutoff below which words are in rotation, and the encoded list of
/// per-word records.
#[derive(Debug)]
pub struct KnowledgeData {
    pub dict_title: String,
    pub active_words: usize,
    pub knowledge_data: Vec<u8>,
}

} // verus!
