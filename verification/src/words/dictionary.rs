//! The dictionary store: an ordered list of words, indexed by obscurity.

use std::collections::hash_map::DefaultHasher;
use std::collections::{BTreeMap, BTreeSet, HashMap};
use std::hash::Hasher;
use vstd::prelude::*;
use vstd::arithmetic::power::pow;
use vstd::std_specs::hash::DefaultHasherAdditionalSpecFns;
use vstd::utf8::encode_utf8;
use vstd::arithmetic::power::lemma_pow0;
use vstd::arithmetic::power::lemma_pow_positive;
use super::obscurity_index::{entries_up_to, entry_before, files, insert_obs, lemma_filed};
use super::word::{Word, WordView};

verus! {

/// Whether a record was stored in the current layout or in an earlier one.
#[derive(Debug)]
pub enum FileVersion {
    /// The record carried the current version tag.
    Current,
    /// The record carried this earlier version tag and was brought forward.
    Old(String),
}

/// A handle to one word of one dictionary: its position in the word list.
#[derive(Clone, Copy, Debug, Hash, PartialEq, Eq, Structural)]
pub struct WordID {
    id: usize,
}

impl View for WordID {
    type V = usize;

    closed spec fn view(&self) -> usize {
        self.id
    }
}

impl WordID {
    /// The handle of the word at position `id`, for contracts.
    pub closed spec fn at(id: usize) -> WordID {
        WordID { id }
    }

    /// The handle of the word at position `id`.
    pub fn from(id: usize) -> (w: WordID)
        ensures
            w@ == id,
            w == WordID::at(id),
    {
        WordID { id }
    }

    /// The position this handle stands for.
    pub fn into(self) -> (id: usize)
        ensures
            id == self@,
    {
        self.id
    }

    /// Two handles with the same position are the same handle.
    pub broadcast proof fn lemma_view_injective(a: WordID, b: WordID)
        ensures
            #[trigger] a@ == #[trigger] b@ <==> a == b,
    {
    }

    /// The handle for a position stands for that position.
    pub broadcast proof fn lemma_view_at(id: usize)
        ensures
            (#[trigger] WordID::at(id))@ == id,
    {
    }

    /// A handle is the handle for the position it stands for.
    pub broadcast proof fn lemma_at_view(id: WordID)
        ensures
            #[trigger] WordID::at(id@) == id,
    {
    }
}

/// How `Dictionary::create` ranks the words it is given.
#[derive(Clone, Copy, Debug)]
pub enum ObscurityMode {
    /// The word at position `i` gets rank `base` to the power `i`.
    Exponential(u32),
    /// The word at position `i` gets rank `k * i + 1`.
    Linear(u32),
    /// Every word keeps the rank it came with.
    Manual,
}

/// The largest rank there is; the computed ranks stop growing here.
pub open spec fn max_obscurity() -> int {
    u32::MAX as int
}

/// The rank that `mode` gives the word at position `i` that came with rank
/// `given`.
pub open spec fn assigned_obscurity(mode: ObscurityMode, i: nat, given: u32) -> u32 {
    match mode {
        ObscurityMode::Exponential(base) => if pow(base as int, i) > max_obscurity() {
            u32::MAX
        } else {
            pow(base as int, i) as u32
        },
        ObscurityMode::Linear(k) => if k * i + 1 > max_obscurity() {
            u32::MAX
        } else {
            (k * i + 1) as u32
        },
        ObscurityMode::Manual => given,
    }
}

/// Under every obscurity the index files positions of words of that
/// obscurity among the first `n` words, and each of the first `n` words is
/// filed under its obscurity.
spec fn index_covers(index: Map<u32, BTreeSet<usize>>, words: Seq<Word>, n: int) -> bool {
    &&& forall|obs: u32, i: usize| #[trigger]
        files(index, obs, i) ==> i < n && words[i as int].obscurity == obs
    &&& forall|i: int|
        0 <= i < n ==> files(index, (#[trigger] words[i]).obscurity, i as usize)
}

/// The key under which a text is filed in the index of texts: the hash of
/// its UTF-8 form. Texts with different keys are different texts.
pub open spec fn text_key(text: Seq<char>) -> u64 {
    DefaultHasher::spec_finish(seq![encode_utf8(text)])
}

/// Every key of `index` leads to the last of the first `n` words whose text
/// has that key, and the text of each of those words has its key in `index`.
spec fn texts_indexed(index: Map<u64, WordID>, words: Seq<Word>, n: int) -> bool {
    &&& forall|k: u64| #[trigger]
        index.contains_key(k) ==> {
            let i = index[k]@ as int;
            &&& 0 <= i < n
            &&& text_key(words[i].text@) == k
            &&& forall|j: int| i < j < n ==> text_key(#[trigger] words[j].text@) != k
        }
    &&& forall|i: int| 0 <= i < n ==> index.contains_key(text_key(#[trigger] words[i].text@))
}

/// The key of `text`.
fn key_of(text: &str) -> (k: u64)
    ensures
        k == text_key(text@),
{
    let mut hasher = DefaultHasher::new();
    hasher.write(text.as_bytes());
    assert(hasher@ =~= seq![encode_utf8(text@)]);
    hasher.finish()
}

/// A titled, ordered list of words with an ordered index from obscurity to the
/// set of the words of that obscurity and an index from text to word. Built once and
/// read-only from then on.
#[derive(Debug)]
pub struct Dictionary {
    title: String,
    words: Vec<Word>,
    obscurity_index: BTreeMap<u32, BTreeSet<usize>>,
    word_index: HashMap<u64, WordID>,
}

/// What a [`Dictionary`] holds, as mathematical values.
pub struct DictionaryView {
    pub title: Seq<char>,
    pub words: Seq<WordView>,
}

impl DictionaryView {
    /// The rank of the word that `id` points to.
    pub open spec fn obscurity_of(self, id: WordID) -> u32
        recommends
            id@ < self.words.len(),
    {
        self.words[id@ as int].obscurity
    }

    /// `id` points to a word of this dictionary whose rank is at most `score`.
    pub open spec fn within(self, id: WordID, score: u32) -> bool {
        id@ < self.words.len() && self.obscurity_of(id) <= score
    }

    /// `a` comes before `b` when the words are ordered by rank, and by position
    /// among words of one rank.
    pub open spec fn ranks_before(self, a: WordID, b: WordID) -> bool {
        self.obscurity_of(a) < self.obscurity_of(b) || (self.obscurity_of(a) == self.obscurity_of(b)
            && a@ < b@)
    }

    /// `ids` is the list of all words whose rank is at most `score`, each
    /// once, in ascending order of rank.
    pub open spec fn is_leq_list(self, ids: Seq<WordID>, score: u32) -> bool {
        &&& forall|k: int| 0 <= k < ids.len() ==> self.within(#[trigger] ids[k], score)
        &&& forall|id: WordID| self.within(id, score) ==> ids.contains(id)
        &&& forall|k: int, l: int|
            0 <= k < l < ids.len() ==> self.ranks_before(#[trigger] ids[k], #[trigger] ids[l])
    }

    /// The list of all words whose rank is at most `score`, each once, in
    /// ascending order of rank. There is one such list for every dictionary
    /// that `Dictionary::create` has built.
    pub open spec fn leq_list(self, score: u32) -> Seq<WordID> {
        choose|ids: Seq<WordID>| self.is_leq_list(ids, score)
    }

    /// The last position at which a word with text `text` stands is `i`.
    pub open spec fn is_last_with_text(self, text: Seq<char>, i: int) -> bool {
        &&& 0 <= i < self.words.len()
        &&& self.words[i].text == text
        &&& forall|j: int| i < j < self.words.len() ==> self.words[j].text != text
    }

    /// Some word has the text `text`.
    pub open spec fn has_text(self, text: Seq<char>) -> bool {
        exists|i: int| 0 <= i < self.words.len() && #[trigger] self.words[i].text == text
    }
}

/// Raising the score loses no word: every word in the list for a lower score
/// is in the list for a higher one.
pub proof fn lemma_leq_score_monotone(
    dict: DictionaryView,
    low: u32,
    high: u32,
    below: Seq<WordID>,
    above: Seq<WordID>,
)
    requires
        low < high,
        dict.is_leq_list(below, low),
        dict.is_leq_list(above, high),
    ensures
        forall|id: WordID| below.contains(id) ==> above.contains(id),
{
    assert forall|id: WordID| below.contains(id) implies above.contains(id) by {
        let k = choose|k: int| 0 <= k < below.len() && below[k] == id;
        assert(dict.within(below[k], low));
        assert(dict.within(id, high));
    }
}

/// `ids` holds the words for which `member` holds, each once, in ascending
/// order of rank.
pub open spec fn is_ranked_list(
    dict: DictionaryView,
    ids: Seq<WordID>,
    member: spec_fn(WordID) -> bool,
) -> bool {
    &&& forall|k: int| 0 <= k < ids.len() ==> member(#[trigger] ids[k])
    &&& forall|id: WordID| member(id) ==> ids.contains(id)
    &&& forall|k: int, l: int|
        0 <= k < l < ids.len() ==> dict.ranks_before(#[trigger] ids[k], #[trigger] ids[l])
}

/// Two lists that hold the same words in ascending order of rank are the same
/// list.
pub proof fn lemma_ranked_list_unique(
    dict: DictionaryView,
    a: Seq<WordID>,
    b: Seq<WordID>,
    member: spec_fn(WordID) -> bool,
)
    requires
        is_ranked_list(dict, a, member),
        is_ranked_list(dict, b, member),
    ensures
        a == b,
    decreases a.len(),
{
    if a.len() == 0 {
        if b.len() > 0 {
            assert(member(b[0]));
            assert(a.contains(b[0]));
        }
        assert(a =~= b);
    } else {
        let x = a.last();
        assert(member(a[a.len() - 1]));
        assert(b.contains(x));
        let k = choose|k: int| 0 <= k < b.len() && b[k] == x;
        let y = b.last();
        assert(member(b[b.len() - 1]));
        assert(a.contains(y));
        let l = choose|l: int| 0 <= l < a.len() && a[l] == y;
        // the last word of each list ranks after all other words
        if k < b.len() - 1 {
            assert(dict.ranks_before(b[k], b[b.len() - 1]));
            if l < a.len() - 1 {
                assert(dict.ranks_before(a[l], a[a.len() - 1]));
            }
        }
        assert(x == y);
        let rest = |id: WordID| member(id) && id != x;
        let a_rest = a.drop_last();
        let b_rest = b.drop_last();
        assert(is_ranked_list(dict, a_rest, rest)) by {
            assert forall|i: int| 0 <= i < a_rest.len() implies rest(#[trigger] a_rest[i]) by {
                assert(dict.ranks_before(a[i], a[a.len() - 1]));
                assert(member(a[i]));
            }
            assert forall|id: WordID| rest(id) implies a_rest.contains(id) by {
                assert(a.contains(id));
                let i = choose|i: int| 0 <= i < a.len() && a[i] == id;
                assert(a_rest[i] == id);
            }
            assert forall|i: int, j: int| 0 <= i < j < a_rest.len() implies dict.ranks_before(
                #[trigger] a_rest[i],
                #[trigger] a_rest[j],
            ) by {
                assert(dict.ranks_before(a[i], a[j]));
            }
        }
        assert(is_ranked_list(dict, b_rest, rest)) by {
            assert forall|i: int| 0 <= i < b_rest.len() implies rest(#[trigger] b_rest[i]) by {
                assert(dict.ranks_before(b[i], b[b.len() - 1]));
                assert(member(b[i]));
            }
            assert forall|id: WordID| rest(id) implies b_rest.contains(id) by {
                assert(b.contains(id));
                let i = choose|i: int| 0 <= i < b.len() && b[i] == id;
                assert(b_rest[i] == id);
            }
            assert forall|i: int, j: int| 0 <= i < j < b_rest.len() implies dict.ranks_before(
                #[trigger] b_rest[i],
                #[trigger] b_rest[j],
            ) by {
                assert(dict.ranks_before(b[i], b[j]));
            }
        }
        lemma_ranked_list_unique(dict, a_rest, b_rest, rest);
        assert(a =~= a_rest.push(x));
        assert(b =~= b_rest.push(y));
    }
}

/// There is one list of the words up to a score: what `get_words_leq_score`
/// returns is determined by the dictionary and the score.
pub proof fn lemma_leq_list_unique(dict: DictionaryView, score: u32, a: Seq<WordID>, b: Seq<WordID>)
    requires
        dict.is_leq_list(a, score),
        dict.is_leq_list(b, score),
    ensures
        a == b,
{
    let member = |id: WordID| dict.within(id, score);
    assert(is_ranked_list(dict, a, member));
    assert(is_ranked_list(dict, b, member));
    lemma_ranked_list_unique(dict, a, b, member);
}

impl View for Dictionary {
    type V = DictionaryView;

    closed spec fn view(&self) -> DictionaryView {
        DictionaryView {
            title: self.title@,
            words: Seq::new(self.words.len() as nat, |i: int| self.words[i]@),
        }
    }
}

impl Dictionary {
    #[verifier::type_invariant]
    spec fn indexed(&self) -> bool {
        &&& index_covers(self.obscurity_index@, self.words@, self.words.len() as int)
        &&& texts_indexed(self.word_index@, self.words@, self.words.len() as int)
    }

    /// Builds a dictionary from `words` under the title `name`, ranking the
    /// words as `mode` says and indexing them by rank.
    pub fn create(words: Vec<Word>, name: String, mode: ObscurityMode) -> (dct: Dictionary)
        ensures
            dct@.title == name@,
            dct@.words.len() == words.len(),
            forall|i: int|
                0 <= i < words.len() ==> #[trigger] dct@.words[i] == words[i]@.with_obscurity(
                    assigned_obscurity(mode, i as nat, words[i].obscurity),
                ),
    {
        let ghost given = words@;
        let mut words = words;
        let mut obscurity_index: BTreeMap<u32, BTreeSet<usize>> = BTreeMap::new();
        let mut word_index: HashMap<u64, WordID> = HashMap::new();
        let mut power: u32 = 1;
        let n = words.len();
        let mut i: usize = 0;
        proof {
            if let ObscurityMode::Exponential(base) = mode {
                lemma_pow0(base as int);
            }
        }
        while i < n
            invariant
                i <= n,
                n == words.len(),
                n == given.len(),
                index_covers(obscurity_index@, words@, i as int),
                texts_indexed(word_index@, words@, i as int),
                mode matches ObscurityMode::Exponential(base) ==> power == assigned_obscurity(
                    mode,
                    i as nat,
                    0,
                ),
                forall|j: int|
                    0 <= j < i ==> #[trigger] words[j]@ == given[j]@.with_obscurity(
                        assigned_obscurity(mode, j as nat, given[j].obscurity),
                    ),
                forall|j: int| i <= j < n ==> words[j] == given[j],
            decreases n - i,
        {
            let obs: u32 = match mode {
                ObscurityMode::Exponential(_) => power,
                ObscurityMode::Linear(k) => {
                    assert(k * i <= 0xffff_ffff * 0xffff_ffff_ffff_ffff) by (nonlinear_arith)
                        requires
                            k <= 0xffff_ffff,
                            i <= 0xffff_ffff_ffff_ffff,
                    ;
                    let rank: u128 = (k as u128) * (i as u128) + 1;
                    if rank > u32::MAX as u128 {
                        u32::MAX
                    } else {
                        rank as u32
                    }
                },
                ObscurityMode::Manual => words[i].obscurity,
            };
            assert(obs == assigned_obscurity(mode, i as nat, given[i as int].obscurity));
            let ghost prior = words@;
            words[i].obscurity = obs;
            let ghost filed_before = obscurity_index@;
            proof {
                assert forall|j: int| 0 <= j < i implies files(
                    filed_before,
                    (#[trigger] words@[j]).obscurity,
                    j as usize,
                ) by {
                    assert(words@[j] == prior[j]);
                }
            }
            insert_obs(&mut obscurity_index, WordID::from(i), obs);
            proof {
                let filed_after = obscurity_index@;
                lemma_filed(filed_before, filed_after, i, obs);
                assert forall|o: u32, j: usize| #[trigger] files(filed_after, o, j) implies j < i + 1
                    && words@[j as int].obscurity == o by {
                    if j != i {
                        assert(files(filed_before, o, j));
                        assert(words@[j as int] == prior[j as int]);
                    }
                }
                assert forall|j: int| 0 <= j < i + 1 implies files(
                    filed_after,
                    (#[trigger] words@[j]).obscurity,
                    j as usize,
                ) by {
                    if j < i {
                        assert(words@[j] == prior[j]);
                        assert(files(filed_before, prior[j].obscurity, j as usize));
                    }
                }
            }
            let key = key_of(words[i].text.as_str());
            let ghost filed = word_index@;
            word_index.insert(key, WordID::from(i));
            proof {
                assert forall|k: u64| #[trigger] word_index@.contains_key(k) implies {
                    let at = word_index@[k]@ as int;
                    &&& 0 <= at < i + 1
                    &&& text_key(words@[at].text@) == k
                    &&& forall|j: int| at < j < i + 1 ==> text_key(#[trigger] words@[j].text@) != k
                } by {
                    if k != key {
                        assert(filed.contains_key(k));
                        assert(words@[filed[k]@ as int] == prior[filed[k]@ as int]);
                        assert forall|j: int| filed[k]@ < j < i + 1 implies text_key(
                            #[trigger] words@[j].text@,
                        ) != k by {
                            if j < i {
                                assert(words@[j] == prior[j]);
                            }
                        }
                    }
                }
                assert forall|j: int| 0 <= j < i + 1 implies word_index@.contains_key(
                    text_key(#[trigger] words@[j].text@),
                ) by {
                    if j < i {
                        assert(words@[j] == prior[j]);
                        assert(filed.contains_key(text_key(prior[j].text@)));
                    }
                }
            }
            if let ObscurityMode::Exponential(base) = mode {
                assert(power * base <= 0xffff_ffff * 0xffff_ffff) by (nonlinear_arith)
                    requires
                        power <= 0xffff_ffff,
                        base <= 0xffff_ffff,
                ;
                let product: u64 = (power as u64) * (base as u64);
                proof {
                    lemma_saturated_power_step(base, i as nat);
                }
                power = if product > u32::MAX as u64 {
                    u32::MAX
                } else {
                    product as u32
                };
            }
            i += 1;
        }
        let dct = Dictionary { title: name, words, obscurity_index, word_index };
        assert(dct@.words.len() == given.len());
        dct
    }

    /// The title of the dictionary.
    pub fn get_title(&self) -> (title: &str)
        ensures
            title@ == self@.title,
    {
        self.title.as_str()
    }

    /// The number of words.
    pub fn len(&self) -> (n: usize)
        ensures
            n == self@.words.len(),
    {
        self.words.len()
    }

    /// All words whose rank is at most `score`, each once, in ascending order
    /// of rank and, among words of one rank, of position.
    pub fn get_words_leq_score(&self, score: u32) -> (ids: Vec<WordID>)
        ensures
            self@.is_leq_list(ids@, score),
            ids@ == self@.leq_list(score),
    {
        proof {
            use_type_invariant(self);
        }
        let ghost view = self@;
        let entries = entries_up_to(&self.obscurity_index, score);
        let mut v: Vec<WordID> = Vec::new();
        let mut k: usize = 0;
        while k < entries.len()
            invariant
                k <= entries.len(),
                v.len() == k,
                forall|j: int| 0 <= j < k ==> (#[trigger] v[j])@ == entries[j].1,
            decreases entries.len() - k,
        {
            v.push(WordID::from(entries[k].1));
            k += 1;
        }
        proof {
            let index = self.obscurity_index@;
            assert forall|j: int| 0 <= j < v.len() implies view.within(#[trigger] v[j], score)
                && view.obscurity_of(v[j]) == entries[j].0 by {
                assert(files(index, entries[j].0, entries[j].1));
                assert(view.words[entries[j].1 as int] == self.words[entries[j].1 as int]@);
            }
            assert forall|id: WordID| view.within(id, score) implies v@.contains(id) by {
                let i = id@;
                assert(view.words[i as int] == self.words[i as int]@);
                assert(files(index, self.words@[i as int].obscurity, i));
                let entry = (self.words@[i as int].obscurity, i);
                assert(entries@.contains(entry));
                let j = choose|j: int| 0 <= j < entries.len() && entries[j] == entry;
                WordID::lemma_view_injective(v[j], id);
            }
            assert forall|a: int, b: int| 0 <= a < b < v.len() implies view.ranks_before(
                #[trigger] v[a],
                #[trigger] v[b],
            ) by {
                assert(entry_before(entries[a], entries[b]));
            }
            assert(view.is_leq_list(v@, score));
            lemma_leq_list_unique(view, score, v@, view.leq_list(score));
        }
        v
    }

    /// The handle of the last word whose text is `word`, if there is one.
    /// The word is looked up under its key in the index of texts; only
    /// where another text has the same key is the list of words searched.
    pub fn find_word(&self, word: String) -> (found: Option<WordID>)
        ensures
            match found {
                Some(id) => self@.is_last_with_text(word@, id@ as int),
                None => !self@.has_text(word@),
            },
    {
        proof {
            use_type_invariant(self);
        }
        let key = key_of(word.as_str());
        match self.word_index.get(&key) {
            None => {
                assert forall|j: int| 0 <= j < self@.words.len() implies self@.words[j].text
                    != word@ by {
                    assert(self@.words[j] == self.words[j]@);
                    assert(self.word_index@.contains_key(text_key(self.words@[j].text@)));
                }
                None
            },
            Some(id) => {
                let i: usize = id.id;
                if self.words[i].text == word {
                    assert(self@.words[i as int] == self.words[i as int]@);
                    assert forall|j: int| i < j < self@.words.len() implies self@.words[j].text
                        != word@ by {
                        assert(self@.words[j] == self.words[j]@);
                        assert(text_key(self.words@[j].text@) != key);
                    }
                    Some(*id)
                } else {
                    self.search_word(word)
                }
            },
        }
    }

    /// The handle of the last word whose text is `word`, if there is one,
    /// found by going through the words from the last to the first.
    fn search_word(&self, word: String) -> (found: Option<WordID>)
        ensures
            match found {
                Some(id) => self@.is_last_with_text(word@, id@ as int),
                None => !self@.has_text(word@),
            },
    {
        let mut i: usize = self.words.len();
        while i > 0
            invariant
                i <= self.words.len(),
                forall|j: int| i <= j < self.words.len() ==> self.words[j].text@ != word@,
            decreases i,
        {
            i -= 1;
            if self.words[i].text == word {
                assert(self@.words[i as int] == self.words[i as int]@);
                assert forall|j: int| i < j < self@.words.len() implies self@.words[j].text
                    != word@ by {
                    assert(self@.words[j] == self.words[j]@);
                }
                return Some(WordID::from(i));
            }
        }
        assert forall|j: int| 0 <= j < self@.words.len() implies self@.words[j].text != word@ by {
            assert(self@.words[j] == self.words[j]@);
        }
        None
    }

    /// The handle for position `index`, if a word stands there.
    pub fn get_id_from_index(&self, index: usize) -> (found: Option<WordID>)
        ensures
            match found {
                Some(id) => index < self@.words.len() && id@ == index,
                None => index >= self@.words.len(),
            },
    {
        if index >= self.words.len() {
            return None;
        }
        Some(WordID { id: index })
    }

    /// The word that `id` points to.
    pub fn get_word_from_id(&self, id: WordID) -> (word: &Word)
        requires
            id@ < self@.words.len(),
        ensures
            word@ == self@.words[id@ as int],
    {
        &self.words[id.id]
    }

    /// The handles of all words, in the order of the word list.
    pub fn get_word_ids(&self) -> (ids: Vec<WordID>)
        ensures
            ids.len() == self@.words.len(),
            forall|i: int| 0 <= i < ids.len() ==> (#[trigger] ids[i])@ == i,
    {
        let mut ids: Vec<WordID> = Vec::new();
        let mut i: usize = 0;
        while i < self.words.len()
            invariant
                i <= self.words.len(),
                ids.len() == i,
                forall|j: int| 0 <= j < ids.len() ==> (#[trigger] ids[j])@ == j,
            decreases self.words.len() - i,
        {
            ids.push(WordID::from(i));
            i += 1;
        }
        ids
    }
}

/// One more factor of `base` on a power that has stopped at the largest rank
/// gives the next power, stopped at the largest rank.
proof fn lemma_saturated_power_step(base: u32, i: nat)
    ensures
        ({
            let here = assigned_obscurity(ObscurityMode::Exponential(base), i, 0);
            let next = assigned_obscurity(ObscurityMode::Exponential(base), i + 1, 0);
            next == if here * base > max_obscurity() {
                u32::MAX
            } else {
                (here * base) as u32
            }
        }),
{
    let b = base as int;
    reveal(pow);
    assert(pow(b, i + 1) == b * pow(b, i));
    if base == 0 {
        assert(pow(b, i + 1) == 0);
    } else {
        lemma_pow_positive(b, i);
        if pow(b, i) > max_obscurity() {
            assert(b * pow(b, i) >= pow(b, i)) by (nonlinear_arith)
                requires
                    b >= 1,
                    pow(b, i) > 0,
            ;
            assert(u32::MAX * base >= u32::MAX) by (nonlinear_arith)
                requires
                    base >= 1,
            ;
            if base == 1 {
                vstd::arithmetic::power::lemma1_pow(i);
            } else {
                assert(u32::MAX * base > u32::MAX) by (nonlinear_arith)
                    requires
                        base >= 2,
                ;
            }
        } else {
            assert(b * pow(b, i) == pow(b, i) * b) by (nonlinear_arith);
        }
    }
}

} // verus!
