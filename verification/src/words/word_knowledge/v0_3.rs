//! The current record of what is known of one word.

use vstd::prelude::*;
use crate::program::app::PracticeDirection;
use crate::words::curve::{
    lemma_recall_at_bounds,
    lemma_recall_descends,
    practiced_half_life,
    recall_at,
    recall_estimate,
    updated_half_life,
    MIN_HALF_LIFE,
    RECALL_SCALE,
};
use crate::words::dictionary::WordID;

verus! {

/// What is known of one word: for each direction of practice the time of the
/// last practice, in seconds since 1970, and the half-life in seconds.
#[derive(Clone, Copy, Debug, PartialEq, Eq, Structural)]
pub struct WordKnowledge {
    pub word_id: WordID,
    pub last_practice: Option<i64>,
    pub last_practice_reverse: Option<i64>,
    pub half_life: u64,
    pub half_life_reverse: u64,
}

impl WordKnowledge {
    /// The record of a word that was never practised.
    pub open spec fn unseen(word_id: WordID) -> WordKnowledge {
        WordKnowledge {
            word_id,
            last_practice: None,
            last_practice_reverse: None,
            half_life: MIN_HALF_LIFE,
            half_life_reverse: MIN_HALF_LIFE,
        }
    }

    /// The time of the last practice in `direction`.
    pub open spec fn last_in(self, direction: PracticeDirection) -> Option<i64> {
        match direction {
            PracticeDirection::Forward => self.last_practice,
            PracticeDirection::Backward => self.last_practice_reverse,
        }
    }

    /// The half-life in `direction`.
    pub open spec fn half_life_in(self, direction: PracticeDirection) -> u64 {
        match direction {
            PracticeDirection::Forward => self.half_life,
            PracticeDirection::Backward => self.half_life_reverse,
        }
    }

    /// The estimate of recall in `direction` at time `now`, in millionths.
    pub open spec fn p_value(self, direction: PracticeDirection, now: i64) -> int {
        recall_at(self.last_in(direction), self.half_life_in(direction), now)
    }

    /// This record after an answer in `direction` at time `now`: the time of
    /// the last practice in that direction is `now`, its half-life is the one
    /// the answer leads to, and the other direction is as it was.
    pub open spec fn practiced(self, direction: PracticeDirection, correct: bool, now: i64) -> WordKnowledge {
        let next = practiced_half_life(
            self.last_in(direction),
            self.half_life_in(direction),
            now,
            correct,
        );
        match direction {
            PracticeDirection::Forward => WordKnowledge {
                last_practice: Some(now),
                half_life: next,
                ..self
            },
            PracticeDirection::Backward => WordKnowledge {
                last_practice_reverse: Some(now),
                half_life_reverse: next,
                ..self
            },
        }
    }

    /// The estimate lies between nothing and certainty, is nothing for a
    /// direction never practised, and never rises as time passes.
    pub proof fn lemma_p_value(self, direction: PracticeDirection, earlier: i64, later: i64)
        requires
            earlier <= later,
        ensures
            0 <= self.p_value(direction, later) <= self.p_value(direction, earlier) <= RECALL_SCALE,
            self.last_in(direction) is None ==> self.p_value(direction, earlier) == 0,
    {
        lemma_recall_at_bounds(self.last_in(direction), self.half_life_in(direction), earlier);
        lemma_recall_at_bounds(self.last_in(direction), self.half_life_in(direction), later);
        if let Some(then) = self.last_in(direction) {
            lemma_recall_descends(earlier - then, later - then, self.half_life_in(direction) as int);
        }
    }

    /// The record of the word `word_id`, never practised.
    pub fn new(word_id: WordID) -> (k: WordKnowledge)
        ensures
            k == WordKnowledge::unseen(word_id),
    {
        WordKnowledge {
            word_id,
            last_practice: None,
            last_practice_reverse: None,
            half_life: MIN_HALF_LIFE,
            half_life_reverse: MIN_HALF_LIFE,
        }
    }

    /// The estimate, in millionths, that the word is remembered at
    /// `practice_time` when asked from the word to its meaning.
    pub fn calculate_p_value_forward(&self, practice_time: i64) -> (p: u32)
        ensures
            p == self.p_value(PracticeDirection::Forward, practice_time),
            p <= RECALL_SCALE,
            self.last_practice is None ==> p == 0,
    {
        recall_estimate(self.last_practice, self.half_life, practice_time)
    }

    /// The estimate, in millionths, that the word is remembered at
    /// `practice_time` when asked from the meaning to the word.
    pub fn calculate_p_value_backward(&self, practice_time: i64) -> (p: u32)
        ensures
            p == self.p_value(PracticeDirection::Backward, practice_time),
            p <= RECALL_SCALE,
            self.last_practice_reverse is None ==> p == 0,
    {
        recall_estimate(self.last_practice_reverse, self.half_life_reverse, practice_time)
    }

    /// Records an answer in `direction` at time `now`.
    pub fn practice(&mut self, direction: PracticeDirection, correct: bool, now: i64)
        ensures
            *final(self) == old(self).practiced(direction, correct, now),
    {
        match direction {
            PracticeDirection::Forward => {
                let next = updated_half_life(self.last_practice, self.half_life, now, correct);
                self.last_practice = Some(now);
                self.half_life = next;
            },
            PracticeDirection::Backward => {
                let next = updated_half_life(
                    self.last_practice_reverse,
                    self.half_life_reverse,
                    now,
                    correct,
                );
                self.last_practice_reverse = Some(now);
                self.half_life_reverse = next;
            },
        }
    }
}

} // verus!
