//! What one user knows of the words of one dictionary.

use vstd::prelude::*;
use crate::program::app::{DictID, PracticeDirection};
use crate::tools::clock::current_timestamp;
use crate::words::dictionary::{Dictionary, DictionaryView, WordID};
use crate::words::word_knowledge::v0_3::WordKnowledge;

verus! {

/// For one user and one dictionary: a record for every word, and the cutoff
/// below which words are in rotation. The dictionary is named by its title.
#[derive(Debug)]
pub struct Knowledge {
    dict_title: String,
    knowledge: Vec<WordKnowledge>,
    active_words: usize,
}

/// What a [`Knowledge`] holds, as mathematical values.
pub struct KnowledgeView {
    pub dict_title: Seq<char>,
    pub knowledge: Seq<WordKnowledge>,
    pub active_words: usize,
}

impl KnowledgeView {
    /// What is known of a dictionary that was never practised: every word
    /// unseen, no word in rotation.
    pub open spec fn fresh(dict: DictionaryView) -> KnowledgeView {
        KnowledgeView {
            dict_title: dict.title,
            knowledge: Seq::new(
                dict.words.len(),
                |i: int| WordKnowledge::unseen(WordID::at(i as usize)),
            ),
            active_words: 0,
        }
    }

    /// This knowledge is of the dictionary `dict`: it names it and has one
    /// record for each of its words.
    pub open spec fn fits(self, dict: DictionaryView) -> bool {
        self.dict_title == dict.title && self.knowledge.len() == dict.words.len()
    }

    /// This knowledge after an answer for `word` in `direction` at time `now`:
    /// the record of that word has taken the answer, all else is as it was.
    pub open spec fn practiced(
        self,
        word: WordID,
        direction: PracticeDirection,
        correct: bool,
        now: i64,
    ) -> KnowledgeView
        recommends
            word@ < self.knowledge.len(),
    {
        KnowledgeView {
            knowledge: self.knowledge.update(
                word@ as int,
                self.knowledge[word@ as int].practiced(direction, correct, now),
            ),
            ..self
        }
    }
}

impl View for Knowledge {
    type V = KnowledgeView;

    closed spec fn view(&self) -> KnowledgeView {
        KnowledgeView {
            dict_title: self.dict_title@,
            knowledge: self.knowledge@,
            active_words: self.active_words,
        }
    }
}

impl Knowledge {
    /// The knowledge of someone who has never practised `dict`.
    pub fn create(dict: &Dictionary) -> (k: Knowledge)
        ensures
            k@ == KnowledgeView::fresh(dict@),
            k@.fits(dict@),
    {
        let ids = dict.get_word_ids();
        let mut knowledge: Vec<WordKnowledge> = Vec::new();
        let mut i: usize = 0;
        while i < ids.len()
            invariant
                i <= ids.len(),
                ids.len() == dict@.words.len(),
                forall|j: int| 0 <= j < ids.len() ==> (#[trigger] ids[j])@ == j,
                knowledge.len() == i,
                forall|j: int|
                    0 <= j < i ==> #[trigger] knowledge[j] == WordKnowledge::unseen(
                        WordID::at(j as usize),
                    ),
            decreases ids.len() - i,
        {
            proof {
                WordID::lemma_view_at(i);
                WordID::lemma_view_injective(ids[i as int], WordID::at(i));
            }
            knowledge.push(WordKnowledge::new(ids[i]));
            i += 1;
        }
        let k = Knowledge { dict_title: dict.get_title().to_owned(), knowledge, active_words: 0 };
        assert(k@.knowledge =~= KnowledgeView::fresh(dict@).knowledge);
        k
    }

    /// Puts together a knowledge from its parts.
    pub fn from_parts(dict_title: String, knowledge: Vec<WordKnowledge>, active_words: usize) -> (k:
        Knowledge)
        ensures
            k@ == (KnowledgeView { dict_title: dict_title@, knowledge: knowledge@, active_words }),
    {
        Knowledge { dict_title, knowledge, active_words }
    }

    /// The number of words there is a record for.
    pub fn len(&self) -> (n: usize)
        ensures
            n == self@.knowledge.len(),
    {
        self.knowledge.len()
    }

    /// Records an answer for `word` in `direction`, given now.
    pub fn practice(&mut self, word: WordID, direction: PracticeDirection, correct: bool)
        requires
            word@ < old(self)@.knowledge.len(),
        ensures
            exists|now: i64| final(self)@ == old(self)@.practiced(word, direction, correct, now),
    {
        let now = current_timestamp();
        self.practice_at(word, direction, correct, now);
    }

    /// Records an answer for `word` in `direction`, given at time `now`.
    pub fn practice_at(&mut self, word: WordID, direction: PracticeDirection, correct: bool, now: i64)
        requires
            word@ < old(self)@.knowledge.len(),
        ensures
            final(self)@ == old(self)@.practiced(word, direction, correct, now),
    {
        let i: usize = word.into();
        self.knowledge[i].practice(direction, correct, now);
        assert(self@.knowledge =~= old(self)@.practiced(word, direction, correct, now).knowledge);
    }

    /// The record of `word`.
    pub fn get_word_knowledge(&self, word: WordID) -> (k: &WordKnowledge)
        requires
            word@ < self@.knowledge.len(),
        ensures
            *k == self@.knowledge[word@ as int],
    {
        let i: usize = word.into();
        &self.knowledge[i]
    }

    /// The dictionary this knowledge is of.
    pub fn get_dict(&self) -> (dict: DictID)
        ensures
            dict@ == self@.dict_title,
    {
        DictID::new(self.dict_title.clone())
    }

    /// The cutoff below which words are in rotation.
    pub fn get_active_words(&self) -> (amount: usize)
        ensures
            amount == self@.active_words,
    {
        self.active_words
    }

    /// Sets the cutoff below which words are in rotation.
    pub fn set_active_words(&mut self, amount: usize)
        ensures
            final(self)@ == (KnowledgeView { active_words: amount, ..old(self)@ }),
    {
        self.active_words = amount;
    }
}

} // verus!
