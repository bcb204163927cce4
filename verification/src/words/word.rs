//! A single dictionary entry.

use vstd::prelude::*;

verus! {

/// One entry of a dictionary.
#[derive(Debug)]
pub struct Word {
    /// The word as the learner is asked for it.
    pub text: String,
    /// What the word means.
    pub definition: String,
    /// How the word is said, where that is known.
    pub pronunciation: Option<String>,
    /// The rank of the word's rarity: the lower, the more common.
    pub obscurity: u32,
}

/// What a [`Word`] holds, as mathematical values.
pub struct WordView {
    pub text: Seq<char>,
    pub definition: Seq<char>,
    pub pronunciation: Option<Seq<char>>,
    pub obscurity: u32,
}

impl View for Word {
    type V = WordView;

    open spec fn view(&self) -> WordView {
        WordView {
            text: self.text@,
            definition: self.definition@,
            pronunciation: match self.pronunciation {
                Some(p) => Some(p@),
                None => None,
            },
            obscurity: self.obscurity,
        }
    }
}

impl WordView {
    /// The same entry under another obscurity rank.
    pub open spec fn with_obscurity(self, obscurity: u32) -> WordView {
        WordView { obscurity, ..self }
    }
}

impl Clone for Word {
    fn clone(&self) -> (w: Word)
        ensures
            w@ == self@,
    {
        let pronunciation = match &self.pronunciation {
            Some(p) => Some(p.clone()),
            None => None,
        };
        Word {
            text: self.text.clone(),
            definition: self.definition.clone(),
            pronunciation,
            obscurity: self.obscurity,
        }
    }
}

} // verus!
