//! The dictionaries that are loaded, found by their title.

use vstd::prelude::*;
use crate::tools::text::same_text;
use crate::words::dictionary::{Dictionary, DictionaryView};

verus! {

/// The dictionaries that are loaded. No two have the same title.
#[derive(Debug)]
pub struct DictMap {
    map: Vec<Dictionary>,
}

/// No two of the dictionaries have the same title.
pub open spec fn distinct_titles(dicts: Seq<DictionaryView>) -> bool {
    forall|i: int, j: int|
        0 <= i < dicts.len() && 0 <= j < dicts.len() && i != j ==> (#[trigger] dicts[i]).title != (
        #[trigger] dicts[j]).title
}

/// One of the dictionaries has the title `title`.
pub open spec fn has_title(dicts: Seq<DictionaryView>, title: Seq<char>) -> bool {
    exists|i: int| 0 <= i < dicts.len() && (#[trigger] dicts[i]).title == title
}

/// The dictionary at position `i` is the one titled `title`.
pub open spec fn is_titled(dicts: Seq<DictionaryView>, title: Seq<char>, i: int) -> bool {
    0 <= i < dicts.len() && dicts[i].title == title
}

/// The position of the dictionary titled `title`, where there is one.
pub open spec fn position_of(dicts: Seq<DictionaryView>, title: Seq<char>) -> int {
    choose|i: int| is_titled(dicts, title, i)
}

/// The dictionaries after `d` has joined them: in the place of the one with
/// its title, or at the end.
pub open spec fn with_dictionary(dicts: Seq<DictionaryView>, d: DictionaryView) -> Seq<
    DictionaryView,
> {
    if has_title(dicts, d.title) {
        dicts.update(position_of(dicts, d.title), d)
    } else {
        dicts.push(d)
    }
}

/// A title that is there has a position.
pub proof fn lemma_has_position(dicts: Seq<DictionaryView>, title: Seq<char>)
    requires
        has_title(dicts, title),
    ensures
        is_titled(dicts, title, position_of(dicts, title)),
{
    let i = choose|i: int| 0 <= i < dicts.len() && (#[trigger] dicts[i]).title == title;
    assert(is_titled(dicts, title, i));
}

/// Among dictionaries with different titles, a title has one position.
pub proof fn lemma_position_of(dicts: Seq<DictionaryView>, title: Seq<char>, i: int)
    requires
        distinct_titles(dicts),
        is_titled(dicts, title, i),
    ensures
        has_title(dicts, title),
        position_of(dicts, title) == i,
{
    let j = position_of(dicts, title);
    assert(is_titled(dicts, title, j));
    if i != j {
        assert(dicts[i].title != dicts[j].title);
    }
}

/// The views of a list of dictionaries.
pub open spec fn dictionary_views(dicts: Seq<Dictionary>) -> Seq<DictionaryView> {
    Seq::new(dicts.len(), |i: int| dicts[i]@)
}

impl View for DictMap {
    type V = Seq<DictionaryView>;

    closed spec fn view(&self) -> Seq<DictionaryView> {
        dictionary_views(self.map@)
    }
}

impl DictMap {
    #[verifier::type_invariant]
    spec fn keyed(&self) -> bool {
        distinct_titles(self@)
    }

    /// No dictionaries.
    pub fn new() -> (m: DictMap)
        ensures
            m@.len() == 0,
    {
        DictMap { map: Vec::new() }
    }

    /// The position of the dictionary titled `title`, if there is one.
    fn position(&self, title: &str) -> (found: Option<usize>)
        ensures
            match found {
                Some(i) => is_titled(self@, title@, i as int),
                None => !has_title(self@, title@),
            },
    {
        let mut i: usize = 0;
        while i < self.map.len()
            invariant
                i <= self.map.len(),
                forall|j: int| 0 <= j < i ==> (#[trigger] self@[j]).title != title@,
            decreases self.map.len() - i,
        {
            if same_text(self.map[i].get_title(), title) {
                return Some(i);
            }
            i += 1;
        }
        None
    }

    /// Takes `dict` into the map. A dictionary with the same title gives way
    /// to it and is returned.
    pub fn insert(&mut self, dict: Dictionary) -> (replaced: Option<Dictionary>)
        ensures
            match replaced {
                Some(before) => exists|i: int|
                    #![trigger old(self)@[i]]
                    is_titled(old(self)@, dict@.title, i) && before@ == old(self)@[i] && final(self)@
                        == old(self)@.update(i, dict@),
                None => !has_title(old(self)@, dict@.title) && final(self)@ == old(self)@.push(dict@),
            },
            final(self)@ == with_dictionary(old(self)@, dict@),
            replaced is Some <==> has_title(old(self)@, dict@.title),
    {
        proof {
            use_type_invariant(&*self);
        }
        let ghost before = self@;
        match self.position(dict.get_title()) {
            Some(i) => {
                let mut map = Vec::new();
                std::mem::swap(&mut map, &mut self.map);
                map.push(dict);
                let replaced = map.swap_remove(i);
                proof {
                    let after = dictionary_views(map@);
                    assert(after =~= before.update(i as int, dict@));
                    assert forall|a: int, b: int|
                        0 <= a < after.len() && 0 <= b < after.len() && a != b implies (
                    #[trigger] after[a]).title != (#[trigger] after[b]).title by {
                        assert(before[a].title != before[b].title);
                    }
                    lemma_position_of(before, dict@.title, i as int);
                }
                self.map = map;
                Some(replaced)
            },
            None => {
                let mut map = Vec::new();
                std::mem::swap(&mut map, &mut self.map);
                map.push(dict);
                proof {
                    let after = dictionary_views(map@);
                    assert(after =~= before.push(dict@));
                    assert forall|a: int, b: int|
                        0 <= a < after.len() && 0 <= b < after.len() && a != b implies (
                    #[trigger] after[a]).title != (#[trigger] after[b]).title by {
                        if a < before.len() && b < before.len() {
                            assert(before[a].title != before[b].title);
                        } else if a < before.len() {
                            assert(before[a].title != dict@.title);
                        } else {
                            assert(before[b].title != dict@.title);
                        }
                    }
                }
                self.map = map;
                None
            },
        }
    }

    /// The dictionaries.
    pub fn values(&self) -> (dicts: &Vec<Dictionary>)
        ensures
            dicts.len() == self@.len(),
            forall|i: int| 0 <= i < dicts.len() ==> (#[trigger] dicts[i])@ == self@[i],
            distinct_titles(self@),
    {
        proof {
            use_type_invariant(self);
        }
        &self.map
    }

    /// The titles of the dictionaries.
    pub fn keys(&self) -> (titles: Vec<String>)
        ensures
            titles.len() == self@.len(),
            forall|i: int| 0 <= i < titles.len() ==> (#[trigger] titles[i])@ == self@[i].title,
    {
        let mut titles: Vec<String> = Vec::new();
        let mut i: usize = 0;
        while i < self.map.len()
            invariant
                i <= self.map.len(),
                titles.len() == i,
                forall|j: int| 0 <= j < i ==> (#[trigger] titles[j])@ == self@[j].title,
            decreases self.map.len() - i,
        {
            titles.push(self.map[i].get_title().to_owned());
            i += 1;
        }
        titles
    }

    /// The dictionary titled `index`, if there is one.
    pub fn get(&self, index: &String) -> (found: Option<&Dictionary>)
        ensures
            match found {
                Some(dict) => has_title(self@, index@) && dict@ == self@[position_of(self@, index@)],
                None => !has_title(self@, index@),
            },
            distinct_titles(self@),
    {
        proof {
            use_type_invariant(self);
        }
        match self.position(index.as_str()) {
            Some(i) => {
                proof {
                    lemma_position_of(self@, index@, i as int);
                }
                Some(&self.map[i])
            },
            None => None,
        }
    }

    /// The number of dictionaries.
    pub fn len(&self) -> (n: usize)
        ensures
            n == self@.len(),
    {
        self.map.len()
    }
}

} // verus!
