//! Handles for dictionaries and users, practice sessions, and the state of
//! the application.

use vstd::prelude::*;
use crate::error::{Error, ErrorKind};
use crate::tools::text::same_text;
use crate::program::session::{PracticeSession, PracticeSessionView, RECALL_THRESHOLD};
use crate::program::user::{lemma_knows_last, parse_user, user_bytes, User, UserView};
use crate::tools::clock::current_timestamp;
use crate::tools::dict_map::{
    has_title,
    lemma_has_position,
    position_of,
    with_dictionary,
    DictMap,
};
use crate::words::dictionary::{Dictionary, DictionaryView, FileVersion, WordID};
use crate::words::dictionary_file::parse_dictionary;
use crate::words::knowledge::{Knowledge, KnowledgeView};
use crate::words::word::{Word, WordView};
use crate::words::word_knowledge::v0_3::WordKnowledge;

verus! {

/// Names a dictionary: its title.
#[derive(Debug)]
pub struct DictID {
    name: String,
}

impl View for DictID {
    type V = Seq<char>;

    closed spec fn view(&self) -> Seq<char> {
        self.name@
    }
}

impl DictID {
    /// The handle of the dictionary titled `name`.
    pub fn new(name: String) -> (id: DictID)
        ensures
            id@ == name@,
    {
        DictID { name }
    }

    /// The title of the dictionary.
    pub fn get_name(&self) -> (name: &str)
        ensures
            name@ == self@,
    {
        self.name.as_str()
    }
}

impl Clone for DictID {
    fn clone(&self) -> (id: DictID)
        ensures
            id@ == self@,
    {
        DictID { name: self.name.clone() }
    }
}

/// Names a user.
#[derive(Debug)]
pub struct UserID {
    name: String,
}

impl View for UserID {
    type V = Seq<char>;

    closed spec fn view(&self) -> Seq<char> {
        self.name@
    }
}

impl UserID {
    /// The handle of the user called `name`.
    pub fn new(name: String) -> (id: UserID)
        ensures
            id@ == name@,
    {
        UserID { name }
    }

    /// The name of the user.
    pub fn get_name(&self) -> (name: &str)
        ensures
            name@ == self@,
    {
        self.name.as_str()
    }
}

impl Clone for UserID {
    fn clone(&self) -> (id: UserID)
        ensures
            id@ == self@,
    {
        UserID { name: self.name.clone() }
    }
}

/// Which way a word is asked: from the word to its meaning or back.
#[derive(Debug, Copy, Clone, PartialEq, Eq, Structural)]
pub enum PracticeDirection {
    /// The word is shown and its meaning is asked for.
    Forward,
    /// The meaning is shown and the word is asked for.
    Backward,
}

/// The views of a list of users.
pub open spec fn user_views(users: Seq<User>) -> Seq<UserView> {
    Seq::new(users.len(), |i: int| users[i]@)
}

/// The first user called `name` stands at position `i`.
pub open spec fn is_named(users: Seq<UserView>, name: Seq<char>, i: int) -> bool {
    &&& 0 <= i < users.len()
    &&& users[i].name == name
    &&& forall|j: int| 0 <= j < i ==> (#[trigger] users[j]).name != name
}

/// There is a user called `name`.
pub open spec fn has_name(users: Seq<UserView>, name: Seq<char>) -> bool {
    exists|i: int| 0 <= i < users.len() && (#[trigger] users[i]).name == name
}

/// The position of the first user called `name`, where there is one.
pub open spec fn name_position(users: Seq<UserView>, name: Seq<char>) -> int {
    choose|i: int| is_named(users, name, i)
}

/// No two users have the same name.
pub open spec fn distinct_names(users: Seq<UserView>) -> bool {
    forall|i: int, j: int|
        0 <= i < users.len() && 0 <= j < users.len() && i != j ==> (#[trigger] users[i]).name != (
        #[trigger] users[j]).name
}

/// Users with different names still have different names after one has
/// joined them.
pub proof fn lemma_with_user_distinct(users: Seq<UserView>, u: UserView)
    requires
        distinct_names(users),
    ensures
        distinct_names(with_user(users, u)),
{
    let after = with_user(users, u);
    if has_name(users, u.name) {
        let n = choose|i: int| 0 <= i < users.len() && (#[trigger] users[i]).name == u.name;
        lemma_first_name(users, u.name, n);
        let p = name_position(users, u.name);
        assert(is_named(users, u.name, p));
        assert forall|i: int, j: int|
            0 <= i < after.len() && 0 <= j < after.len() && i != j implies (#[trigger] after[i]).name
            != (#[trigger] after[j]).name by {
            assert(users[i].name != users[j].name);
        }
    } else {
        assert forall|i: int, j: int|
            0 <= i < after.len() && 0 <= j < after.len() && i != j implies (#[trigger] after[i]).name
            != (#[trigger] after[j]).name by {
            if i < users.len() && j < users.len() {
                assert(users[i].name != users[j].name);
            } else if i < users.len() {
                assert(users[i].name != u.name);
            } else {
                assert(users[j].name != u.name);
            }
        }
    }
}

/// Below a position with the name there is a first position with it.
proof fn lemma_first_name(users: Seq<UserView>, name: Seq<char>, n: int)
    requires
        0 <= n < users.len(),
        users[n].name == name,
    ensures
        exists|i: int| is_named(users, name, i),
    decreases n,
{
    if exists|j: int| 0 <= j < n && (#[trigger] users[j]).name == name {
        let j = choose|j: int| 0 <= j < n && (#[trigger] users[j]).name == name;
        lemma_first_name(users, name, j);
    } else {
        assert(is_named(users, name, n));
    }
}

/// The users after `u` has joined them: in the place of the first one with
/// its name, or at the end.
pub open spec fn with_user(users: Seq<UserView>, u: UserView) -> Seq<UserView> {
    if has_name(users, u.name) {
        users.update(name_position(users, u.name), u)
    } else {
        users.push(u)
    }
}

/// A name has one first position.
pub proof fn lemma_name_position(users: Seq<UserView>, name: Seq<char>, i: int)
    requires
        is_named(users, name, i),
    ensures
        has_name(users, name),
        name_position(users, name) == i,
{
    let j = name_position(users, name);
    assert(is_named(users, name, j));
    if i < j {
        assert(users[i].name != name);
    } else if j < i {
        assert(users[j].name != name);
    }
}

/// The number of the words `ids` whose estimate of recall from the word to
/// its meaning is below the threshold at time `now`.
pub open spec fn due_forward(ids: Seq<WordID>, knowledge: Seq<WordKnowledge>, now: i64) -> nat
    decreases ids.len(),
{
    if ids.len() == 0 {
        0
    } else {
        let rest = due_forward(ids.drop_last(), knowledge, now);
        if knowledge[ids.last()@ as int].p_value(PracticeDirection::Forward, now)
            < RECALL_THRESHOLD {
            rest + 1
        } else {
            rest
        }
    }
}

/// The cutoff of a knowledge as an obscurity: what of it fits in 32 bits.
pub open spec fn cutoff_of(active_words: usize) -> u32 {
    (active_words as int % 0x1_0000_0000) as u32
}

/// The cutoff of a knowledge as an obscurity.
pub fn cutoff(active_words: usize) -> (score: u32)
    ensures
        score == cutoff_of(active_words),
{
    (active_words as u64 % 0x1_0000_0000) as u32
}

/// What the application holds, as mathematical values.
pub struct ApplicationView {
    pub users: Seq<UserView>,
    pub dicts: Seq<DictionaryView>,
    pub current_dict: Option<Seq<char>>,
    pub current_user: Option<Seq<char>>,
    pub practice_session: Option<PracticeSessionView>,
    pub current_word: Option<(WordID, PracticeDirection)>,
}

/// What has to be at hand to work on what a user knows of a dictionary.
pub struct Selection {
    /// The position of the user.
    pub user: int,
    /// The position of the dictionary.
    pub dict: int,
}

impl ApplicationView {
    /// The user and the dictionary that are selected, where both are selected
    /// and both are there.
    pub open spec fn selection(self) -> Option<Selection> {
        match (self.current_user, self.current_dict) {
            (Some(name), Some(title)) => if has_name(self.users, name) && has_title(
                self.dicts,
                title,
            ) {
                Some(
                    Selection {
                        user: name_position(self.users, name),
                        dict: position_of(self.dicts, title),
                    },
                )
            } else {
                None
            },
            _ => None,
        }
    }

    /// The cutoff of the selected user for the selected dictionary: nothing
    /// where nothing is selected or the user has not practised the
    /// dictionary.
    pub open spec fn active_words(self) -> usize {
        match self.selection() {
            Some(s) => {
                let user = self.users[s.user];
                let title = self.dicts[s.dict].title;
                if user.knows(title) {
                    user.knowledge[user.last_of(title)].active_words
                } else {
                    0
                }
            },
            None => 0,
        }
    }

    /// The state after the cutoff of the selected user for the selected
    /// dictionary was set: the knowledge of the dictionary, or a fresh one,
    /// has the new cutoff and is the last of the user's knowledges.
    pub open spec fn with_active_words(self, words: usize) -> ApplicationView {
        match self.selection() {
            Some(s) => {
                let user = self.users[s.user];
                let dict = self.dicts[s.dict];
                let (knowledge, rest) = checked_out(user, dict);
                let changed = KnowledgeView { active_words: words, ..knowledge };
                ApplicationView { users: self.users.update(s.user, rest.with(changed)), ..self }
            },
            None => self,
        }
    }

    /// The number of words of the dictionary titled `title` that the
    /// selected user would be asked from the word to its meaning at time
    /// `now`: of the words up to the user's cutoff, those whose estimate of
    /// recall is below the threshold. It is nothing where no user is
    /// selected, the user or the dictionary is not there, or the user has no
    /// knowledge that covers the dictionary.
    pub open spec fn pool_size(self, title: Seq<char>, now: i64) -> nat {
        match self.current_user {
            Some(name) => if has_name(self.users, name) && has_title(self.dicts, title) {
                let user = self.users[name_position(self.users, name)];
                let dict = self.dicts[position_of(self.dicts, title)];
                if user.knows(title) {
                    let k = user.knowledge[user.last_of(title)];
                    if dict.words.len() <= k.knowledge.len() {
                        due_forward(dict.leq_list(cutoff_of(k.active_words)), k.knowledge, now)
                    } else {
                        0
                    }
                } else {
                    0
                }
            } else {
                0
            },
            None => 0,
        }
    }

    /// A session can start: a user and a dictionary are selected and there,
    /// no session is running, and what the user knows of the dictionary, if
    /// anything, covers it.
    pub open spec fn can_start(self) -> bool {
        &&& self.selection() is Some
        &&& self.practice_session is None
        &&& {
            let s = self.selection()->0;
            let (knowledge, _) = checked_out(self.users[s.user], self.dicts[s.dict]);
            self.dicts[s.dict].words.len() <= knowledge.knowledge.len()
        }
    }

    /// `session` is a session that the selected user can start at time `now`
    /// on the selected dictionary: on the words up to the user's cutoff, with
    /// what the user knows of the dictionary.
    pub open spec fn is_start(self, session: PracticeSessionView, now: i64) -> bool {
        let s = self.selection()->0;
        let dict = self.dicts[s.dict];
        let (knowledge, _) = checked_out(self.users[s.user], dict);
        session.is_session_of(dict, knowledge, cutoff_of(knowledge.active_words), now)
    }

    /// The state after a session `session` has started, or has failed to
    /// start for want of words: the knowledge of the selected dictionary is
    /// with the session, or is the last of the user's knowledges.
    pub open spec fn started(self, session: PracticeSessionView) -> ApplicationView {
        let s = self.selection()->0;
        let (knowledge, rest) = checked_out(self.users[s.user], self.dicts[s.dict]);
        if session.word_pool.len() == 0 {
            ApplicationView { users: self.users.update(s.user, rest.with(knowledge)), ..self }
        } else {
            ApplicationView {
                users: self.users.update(s.user, rest),
                practice_session: Some(session),
                ..self
            }
        }
    }

    /// The word that is asked, where there is one: the selected dictionary
    /// must be there and hold it.
    pub open spec fn current_entry(self) -> Result<Option<(WordView, PracticeDirection)>, ()> {
        match self.current_dict {
            None => Err(()),
            Some(title) => if !has_title(self.dicts, title) {
                Err(())
            } else {
                let dict = self.dicts[position_of(self.dicts, title)];
                match self.current_word {
                    None => Ok(None),
                    Some((id, direction)) => if id@ < dict.words.len() {
                        Ok(Some((dict.words[id@ as int], direction)))
                    } else {
                        Err(())
                    },
                }
            },
        }
    }

    /// An answer can be recorded: a session is running, a word is asked, and
    /// the session's knowledge has a record for it.
    pub open spec fn can_practice(self) -> bool {
        match (self.practice_session, self.current_word) {
            (Some(session), Some((word, _))) => word@ < session.knowledge.knowledge.len(),
            _ => false,
        }
    }

    /// The state after an answer to the word that is asked was recorded at
    /// time `now`: the knowledge that the session holds has taken it.
    pub open spec fn practiced(self, correct: bool, now: i64) -> ApplicationView {
        let session = self.practice_session->0;
        let (word, direction) = self.current_word->0;
        ApplicationView {
            practice_session: Some(
                PracticeSessionView {
                    knowledge: session.knowledge.practiced(word, direction, correct, now),
                    ..session
                },
            ),
            ..self
        }
    }

    /// The session can be concluded: one is running and the selected user is
    /// there to take the knowledge back.
    pub open spec fn can_conclude(self) -> bool {
        &&& self.practice_session is Some
        &&& self.current_user matches Some(name) && has_name(self.users, name)
    }

    /// The state after the session was concluded.
    pub open spec fn concluded(self) -> ApplicationView {
        let i = name_position(self.users, self.current_user->0);
        ApplicationView {
            users: self.users.update(i, self.users[i].with(self.practice_session->0.knowledge)),
            practice_session: None,
            ..self
        }
    }
}

/// What a user knows of a dictionary, taken from the user, and the user
/// without it; where the user knows nothing of it, the knowledge of someone
/// who never practised it, and the user.
pub open spec fn checked_out(user: UserView, dict: DictionaryView) -> (KnowledgeView, UserView) {
    if user.knows(dict.title) {
        let i = user.last_of(dict.title);
        (user.knowledge[i], user.without(i))
    } else {
        (KnowledgeView::fresh(dict), user)
    }
}

/// The error for a request that the state does not allow.
pub fn domain_error(message: &str) -> (e: Error)
    ensures
        e.spec_kind() == ErrorKind::Domain,
        e.spec_msg() == message@,
{
    Error::new(ErrorKind::Domain, message)
}

/// The state of the application: the users and dictionaries that are loaded,
/// which of them are selected, and the practice session that is running.
#[derive(Debug)]
pub struct Application {
    users: Vec<User>,
    dicts: DictMap,
    current_dict: Option<DictID>,
    current_user: Option<UserID>,
    practice_session: Option<PracticeSession>,
    current_word: Option<(WordID, PracticeDirection)>,
}

impl View for Application {
    type V = ApplicationView;

    closed spec fn view(&self) -> ApplicationView {
        ApplicationView {
            users: user_views(self.users@),
            dicts: self.dicts@,
            current_dict: match self.current_dict {
                Some(d) => Some(d@),
                None => None,
            },
            current_user: match self.current_user {
                Some(u) => Some(u@),
                None => None,
            },
            practice_session: match self.practice_session {
                Some(s) => Some(s@),
                None => None,
            },
            current_word: self.current_word,
        }
    }
}

impl Application {
    /// An application with nothing loaded and nothing selected.
    pub fn new() -> (app: Application)
        ensures
            app@ == (ApplicationView {
                users: Seq::empty(),
                dicts: Seq::empty(),
                current_dict: None,
                current_user: None,
                practice_session: None,
                current_word: None,
            }),
    {
        let app = Application {
            users: Vec::new(),
            dicts: DictMap::new(),
            current_dict: None,
            current_user: None,
            practice_session: None,
            current_word: None,
        };
        assert(app@.users =~= Seq::<UserView>::empty());
        assert(app@.dicts =~= Seq::<DictionaryView>::empty());
        app
    }

    /// The position of the first user called `name`, if there is one.
    fn find_user(&self, name: &str) -> (found: Option<usize>)
        ensures
            match found {
                Some(i) => has_name(self@.users, name@) && i == name_position(self@.users, name@)
                    && i < self.users.len(),
                None => !has_name(self@.users, name@),
            },
    {
        let mut i: usize = 0;
        while i < self.users.len()
            invariant
                i <= self.users.len(),
                forall|j: int| 0 <= j < i ==> (#[trigger] self@.users[j]).name != name@,
            decreases self.users.len() - i,
        {
            assert(self@.users[i as int] == self.users[i as int]@);
            if same_text(self.users[i].get_name(), name) {
                proof {
                    lemma_name_position(self@.users, name@, i as int);
                }
                return Some(i);
            }
            i += 1;
        }
        None
    }

    /// The positions of the selected user and the selected dictionary, if
    /// both are selected and there.
    fn find_selection(&self) -> (found: Option<(usize, &Dictionary)>)
        ensures
            match found {
                Some((user, dict)) => self@.selection() matches Some(s) && s.user == user && user
                    < self.users.len() && dict@ == self@.dicts[s.dict],
                None => self@.selection() is None,
            },
    {
        let user = match &self.current_user {
            Some(id) => match self.find_user(id.get_name()) {
                Some(i) => i,
                None => {
                    return None;
                },
            },
            None => {
                return None;
            },
        };
        let dict = match &self.current_dict {
            Some(id) => match self.dicts.get(&id.get_name().to_owned()) {
                Some(d) => d,
                None => {
                    return None;
                },
            },
            None => {
                return None;
            },
        };
        Some((user, dict))
    }

    /// Takes `dict` among the dictionaries. A dictionary with the same title
    /// gives way to it and is returned.
    pub fn add_dictionary(&mut self, dict: Dictionary) -> (replaced: Option<Dictionary>)
        ensures
            final(self)@ == (ApplicationView {
                dicts: with_dictionary(old(self)@.dicts, dict@),
                ..old(self)@
            }),
            replaced is Some <==> has_title(old(self)@.dicts, dict@.title),
    {
        self.dicts.insert(dict)
    }

    /// Takes `user` among the users. The first user with the same name gives
    /// way and is returned.
    pub fn add_user(&mut self, user: User) -> (replaced: Option<User>)
        ensures
            final(self)@ == (ApplicationView {
                users: with_user(old(self)@.users, user@),
                ..old(self)@
            }),
            replaced is Some <==> has_name(old(self)@.users, user@.name),
            distinct_names(old(self)@.users) ==> distinct_names(final(self)@.users),
    {
        proof {
            if distinct_names(old(self)@.users) {
                lemma_with_user_distinct(old(self)@.users, user@);
            }
        }
        match self.find_user(user.get_name()) {
            Some(i) => {
                self.users.push(user);
                let replaced = self.users.swap_remove(i);
                assert(self@.users =~= with_user(old(self)@.users, user@));
                Some(replaced)
            },
            None => {
                self.users.push(user);
                assert(self@.users =~= with_user(old(self)@.users, user@));
                None
            },
        }
    }

    /// Reads a stored dictionary from `readable` and takes it among the
    /// dictionaries. Says in which version it was stored.
    pub fn load_dictionary(&mut self, readable: &[u8]) -> (r: Result<FileVersion, Error>)
        ensures
            match parse_dictionary(readable@) {
                Ok(d) => r matches Ok(version) && version is Current && final(self)@ == (
                ApplicationView { dicts: with_dictionary(old(self)@.dicts, d), ..old(self)@ }),
                Err(kind) => r matches Err(e) && e.spec_kind() == kind && final(self)@ == old(
                    self,
                )@,
            },
    {
        let (dict, version) = Dictionary::load_from(readable)?;
        self.dicts.insert(dict);
        Ok(version)
    }

    /// Reads a stored user from `readable` and takes it among the users.
    /// Says whether any of its knowledges was stored in an earlier layout.
    pub fn load_user(&mut self, readable: &[u8]) -> (r: Result<FileVersion, Error>)
        ensures
            match parse_user(readable@, old(self)@.dicts) {
                Ok((u, migrated)) => r matches Ok(version) && (version is Old <==> migrated)
                    && final(self)@ == (ApplicationView {
                    users: with_user(old(self)@.users, u),
                    ..old(self)@
                }),
                Err(kind) => r matches Err(e) && e.spec_kind() == kind && final(self)@ == old(
                    self,
                )@,
            },
            distinct_names(old(self)@.users) ==> distinct_names(final(self)@.users),
    {
        let (user, version) = User::load_from(readable, &self.dicts)?;
        self.add_user(user);
        Ok(version)
    }

    /// The handles of the dictionaries.
    pub fn get_dict_list(&self) -> (list: Vec<DictID>)
        ensures
            list.len() == self@.dicts.len(),
            forall|i: int| 0 <= i < list.len() ==> (#[trigger] list[i])@ == self@.dicts[i].title,
    {
        let titles = self.dicts.keys();
        let mut list: Vec<DictID> = Vec::new();
        let mut i: usize = 0;
        while i < titles.len()
            invariant
                i <= titles.len(),
                list.len() == i,
                titles.len() == self@.dicts.len(),
                forall|j: int| 0 <= j < titles.len() ==> (#[trigger] titles[j])@ == self@.dicts[j].title,
                forall|j: int| 0 <= j < i ==> (#[trigger] list[j])@ == self@.dicts[j].title,
            decreases titles.len() - i,
        {
            list.push(DictID::new(titles[i].clone()));
            i += 1;
        }
        list
    }

    /// The handles of the users.
    pub fn get_users(&self) -> (list: Vec<UserID>)
        ensures
            list.len() == self@.users.len(),
            forall|i: int| 0 <= i < list.len() ==> (#[trigger] list[i])@ == self@.users[i].name,
    {
        let mut list: Vec<UserID> = Vec::new();
        let mut i: usize = 0;
        while i < self.users.len()
            invariant
                i <= self.users.len(),
                list.len() == i,
                forall|j: int| 0 <= j < i ==> (#[trigger] list[j])@ == self@.users[j].name,
            decreases self.users.len() - i,
        {
            assert(self@.users[i as int] == self.users[i as int]@);
            list.push(UserID::new(self.users[i].get_name().to_owned()));
            i += 1;
        }
        list
    }

    /// Selects the dictionary `dict`.
    pub fn set_dict(&mut self, dict: DictID)
        ensures
            final(self)@ == (ApplicationView { current_dict: Some(dict@), ..old(self)@ }),
    {
        self.current_dict = Some(dict);
    }

    /// Selects the user `user`, or none.
    pub fn set_current_user(&mut self, user: Option<UserID>)
        ensures
            final(self)@ == (ApplicationView {
                current_user: match user {
                    Some(u) => Some(u@),
                    None => None,
                },
                ..old(self)@
            }),
    {
        self.current_user = user;
    }

    /// The user that is selected.
    pub fn get_current_user(&self) -> (user: Option<UserID>)
        ensures
            match user {
                Some(u) => self@.current_user == Some(u@),
                None => self@.current_user is None,
            },
    {
        match &self.current_user {
            Some(u) => Some(u.clone()),
            None => None,
        }
    }

    /// The handle of the user called `name`, if there is one.
    pub fn get_user_id(&self, name: String) -> (id: Option<UserID>)
        ensures
            match id {
                Some(u) => has_name(self@.users, name@) && u@ == name@,
                None => !has_name(self@.users, name@),
            },
    {
        match self.find_user(name.as_str()) {
            Some(_) => Some(UserID::new(name)),
            None => None,
        }
    }

    /// Makes a user called `name`, who has practised nothing, and selects
    /// it. The name must not be empty nor be the name of a user.
    pub fn create_user(&mut self, name: String) -> (r: Result<(), Error>)
        ensures
            match r {
                Ok(()) => name@.len() > 0 && !has_name(old(self)@.users, name@) && final(self)@ == (
                ApplicationView {
                    users: old(self)@.users.push(
                        UserView { name: name@, knowledge: Seq::empty() },
                    ),
                    current_user: Some(name@),
                    ..old(self)@
                }),
                Err(e) => e.spec_kind() == ErrorKind::Domain && final(self)@ == old(self)@ && (
                if name@.len() == 0 {
                    e.spec_msg() == "Must provide a name!"@
                } else {
                    has_name(old(self)@.users, name@) && e.spec_msg()
                        == "User with this name already exists!"@
                }),
            },
            distinct_names(old(self)@.users) ==> distinct_names(final(self)@.users),
    {
        if name.as_str().is_empty() {
            return Err(domain_error("Must provide a name!"));
        }
        if self.find_user(name.as_str()).is_some() {
            return Err(domain_error("User with this name already exists!"));
        }
        let id = UserID::new(name.clone());
        self.users.push(User::create(name));
        self.current_user = Some(id);
        let ghost added = UserView { name: name@, knowledge: Seq::empty() };
        assert(self@.users =~= old(self)@.users.push(added));
        proof {
            if distinct_names(old(self)@.users) {
                assert(with_user(old(self)@.users, added) == old(self)@.users.push(added));
                lemma_with_user_distinct(old(self)@.users, added);
            }
        }
        Ok(())
    }

    /// The cutoff of the selected user for the selected dictionary: nothing
    /// where nothing is selected or the user has not practised it.
    pub fn get_active_words(&self) -> (words: usize)
        ensures
            words == self@.active_words(),
    {
        match self.find_selection() {
            Some((user, dict)) => {
                assert(self@.users[user as int] == self.users[user as int]@);
                match self.users[user].find_knowledge(dict.get_title()) {
                    Some(i) => {
                        let knowledge = self.users[user].get_knowledge();
                        assert(knowledge[i as int]@ == self@.users[user as int].knowledge[i as int]);
                        knowledge[i].get_active_words()
                    },
                    None => 0,
                }
            },
            None => 0,
        }
    }

    /// Sets the cutoff of the selected user for the selected dictionary.
    /// Nothing happens where nothing is selected.
    pub fn set_active_words(&mut self, words: usize)
        ensures
            final(self)@ == old(self)@.with_active_words(words),
    {
        let (user, fresh, title) = match self.find_selection() {
            Some((user, dict)) => (user, Knowledge::create(dict), dict.get_title().to_owned()),
            None => {
                return;
            },
        };
        let ghost before = self@;
        assert(before.users[user as int] == self.users[user as int]@);
        let mut knowl = match self.users[user].take_knowledge(title.as_str()) {
            Some(k) => k,
            None => fresh,
        };
        knowl.set_active_words(words);
        self.users[user].add_knowledge(knowl);
        assert(self@.users =~= before.with_active_words(words).users);
    }

    /// The number of words of the dictionary `dict` that the selected user
    /// would be asked now from the word to its meaning.
    pub fn get_pool_size(&self, dict: DictID) -> (size: usize)
        ensures
            exists|now: i64| size == #[trigger] self@.pool_size(dict@, now),
    {
        let now = current_timestamp();
        self.get_pool_size_at(&dict, now)
    }

    /// The number of words of the dictionary `dict` that the selected user
    /// would be asked at time `now` from the word to its meaning: the words
    /// up to the user's cutoff whose estimate of recall is below the
    /// threshold.
    pub fn get_pool_size_at(&self, dict: &DictID, now: i64) -> (size: usize)
        ensures
            size == self@.pool_size(dict@, now),
    {
        let user = match &self.current_user {
            Some(id) => match self.find_user(id.get_name()) {
                Some(i) => i,
                None => {
                    return 0;
                },
            },
            None => {
                return 0;
            },
        };
        let dictionary = match self.dicts.get(&dict.get_name().to_owned()) {
            Some(d) => d,
            None => {
                return 0;
            },
        };
        assert(self@.users[user as int] == self.users[user as int]@);
        let knowl = match self.users[user].find_knowledge(dict.get_name()) {
            Some(i) => {
                let knowledge = self.users[user].get_knowledge();
                assert(knowledge[i as int]@ == self@.users[user as int].knowledge[i as int]);
                &knowledge[i]
            },
            None => {
                return 0;
            },
        };
        if knowl.len() < dictionary.len() {
            return 0;
        }
        let score_max = cutoff(knowl.get_active_words());
        let ids = dictionary.get_words_leq_score(score_max);
        let mut size: usize = 0;
        let mut i: usize = 0;
        while i < ids.len()
            invariant
                i <= ids.len(),
                size <= i,
                dictionary@.is_leq_list(ids@, score_max),
                dictionary@.words.len() <= knowl@.knowledge.len(),
                size == due_forward(ids@.take(i as int), knowl@.knowledge, now),
            decreases ids.len() - i,
        {
            assert(dictionary@.within(ids@[i as int], score_max));
            let k = knowl.get_word_knowledge(ids[i]);
            proof {
                let next = ids@.take(i as int + 1);
                assert(next.drop_last() =~= ids@.take(i as int));
                assert(next.last() == ids@[i as int]);
            }
            if k.calculate_p_value_forward(now) < RECALL_THRESHOLD {
                size += 1;
            }
            i += 1;
        }
        assert(ids@.take(ids.len() as int) =~= ids@);
        size
    }

    /// Starts a practice session for the selected user on the selected
    /// dictionary, on the words up to the user's cutoff. What the user knows
    /// of the dictionary goes into the custody of the session. A session
    /// that would have no word to ask does not start, and the knowledge stays
    /// with the user.
    pub fn start_practice_session(&mut self) -> (r: Result<(), Error>)
        ensures
            !old(self)@.can_start() ==> (r matches Err(e) && e.spec_kind() == ErrorKind::Domain
                && final(self)@ == old(self)@),
            old(self)@.can_start() ==> exists|now: i64, session: PracticeSessionView|
                {
                    &&& #[trigger] old(self)@.is_start(session, now)
                    &&& final(self)@ == old(self)@.started(session)
                    &&& r is Ok <==> session.word_pool.len() > 0
                    &&& r matches Err(e) ==> e.spec_kind() == ErrorKind::Domain
                },
    {
        if self.practice_session.is_some() {
            return Err(domain_error("A practice session is already running!"));
        }
        let user = match &self.current_user {
            Some(id) => match self.find_user(id.get_name()) {
                Some(i) => i,
                None => {
                    return Err(domain_error("User not found!"));
                },
            },
            None => {
                return Err(domain_error("No user selected!"));
            },
        };
        let title = match &self.current_dict {
            Some(id) => id.get_name().to_owned(),
            None => {
                return Err(domain_error("No dictionary selected!"));
            },
        };
        let dict = match self.dicts.get(&title) {
            Some(d) => d,
            None => {
                return Err(domain_error("Dictionary not found!"));
            },
        };
        let ghost before = self@;
        let ghost owner = before.users[user as int];
        proof {
            lemma_has_position(before.dicts, title@);
            assert(owner == self.users[user as int]@);
            if owner.knows(title@) {
                lemma_knows_last(owner, title@);
            }
        }
        match self.users[user].find_knowledge(title.as_str()) {
            Some(i) => {
                let knowledge = self.users[user].get_knowledge();
                assert(knowledge[i as int]@ == owner.knowledge[i as int]);
                if knowledge[i].len() < dict.len() {
                    return Err(domain_error("The knowledge does not cover the dictionary!"));
                }
            },
            None => {},
        }
        let knowl = match self.users[user].take_knowledge(title.as_str()) {
            Some(k) => k,
            None => Knowledge::create(dict),
        };
        let ghost (knowledge, rest) = checked_out(owner, dict@);
        assert(knowl@ == knowledge);
        assert(self.users[user as int]@ == rest);
        assert(forall|j: int|
            0 <= j < self.users.len() && j != user ==> self.users[j]@ == before.users[j]);
        let score = cutoff(knowl.get_active_words());
        let sesh = PracticeSession::new(dict, knowl, score);
        let ghost session = sesh@;
        let ghost now = choose|now: i64| session.is_session_of(dict@, knowledge, score, now);
        assert(before.is_start(session, now));
        if sesh.get_pool_size() == 0 {
            self.users[user].add_knowledge(sesh.recover_knowledge());
            assert(self@.users =~= before.started(session).users);
            assert(self@ == before.started(session));
            return Err(domain_error("No words to practice!"));
        }
        self.practice_session = Some(sesh);
        assert(self@.users =~= before.started(session).users);
        assert(self@ == before.started(session));
        Ok(())
    }

    /// Takes the next word to ask out of the pool of the session. Where no
    /// session is running nothing happens; where the pool is empty no word is
    /// asked any more.
    pub fn pick_next_word(&mut self)
        ensures
            match old(self)@.practice_session {
                None => final(self)@ == old(self)@,
                Some(session) => if session.word_pool.len() == 0 {
                    final(self)@ == (ApplicationView { current_word: None, ..old(self)@ })
                } else {
                    exists|choice: int|
                        0 <= choice < session.word_pool.len() && final(self)@ == (ApplicationView {
                            current_word: Some(#[trigger] session.word_pool[choice]),
                            practice_session: Some(session.without(choice)),
                            ..old(self)@
                        })
                },
            },
    {
        let mut session = match self.practice_session.take() {
            Some(s) => s,
            None => {
                return;
            },
        };
        if session.get_pool_size() == 0 {
            self.current_word = None;
        } else {
            self.current_word = Some(session.pick_word());
        }
        self.practice_session = Some(session);
    }

    /// The word that is asked and the direction in which it is asked, if a
    /// word is asked. The selected dictionary must be there and hold the
    /// word.
    pub fn get_current_word(&self) -> (r: Result<Option<(Word, PracticeDirection)>, Error>)
        ensures
            match self@.current_entry() {
                Ok(Some((w, direction))) => r matches Ok(Some((word, d))) && word@ == w && d
                    == direction,
                Ok(None) => r matches Ok(None),
                Err(_) => r matches Err(e) && e.spec_kind() == ErrorKind::Domain,
            },
    {
        let dict = match &self.current_dict {
            Some(id) => match self.dicts.get(&id.get_name().to_owned()) {
                Some(d) => d,
                None => {
                    return Err(domain_error("Dictionary not found!"));
                },
            },
            None => {
                return Err(domain_error("No dictionary selected!"));
            },
        };
        match self.current_word {
            None => Ok(None),
            Some((id, direction)) => {
                if id.into() >= dict.len() {
                    return Err(domain_error("Word not found!"));
                }
                Ok(Some((dict.get_word_from_id(id).clone(), direction)))
            },
        }
    }

    /// Records whether the word that is asked was answered rightly, now, in
    /// the knowledge that the session holds.
    pub fn practice_current_word(&mut self, result: bool) -> (r: Result<(), Error>)
        ensures
            !old(self)@.can_practice() ==> (r matches Err(e) && e.spec_kind() == ErrorKind::Domain
                && final(self)@ == old(self)@),
            old(self)@.can_practice() ==> r is Ok && exists|now: i64|
                final(self)@ == #[trigger] old(self)@.practiced(result, now),
    {
        let (word, direction) = match self.current_word {
            Some(w) => w,
            None => {
                return Err(domain_error("No word is asked!"));
            },
        };
        let mut session = match self.practice_session.take() {
            Some(s) => s,
            None => {
                return Err(domain_error("No practice session is running!"));
            },
        };
        if word.into() >= session.get_knowledge().len() {
            self.practice_session = Some(session);
            return Err(domain_error("Word not found!"));
        }
        let ghost held = session@;
        session.practice(word, direction, result);
        let ghost now = choose|now: i64|
            session@ == (PracticeSessionView {
                knowledge: #[trigger] held.knowledge.practiced(word, direction, result, now),
                ..held
            });
        self.practice_session = Some(session);
        assert(self@ == old(self)@.practiced(result, now));
        Ok(())
    }

    /// The number of words still in the pool of the session.
    pub fn get_session_len(&self) -> (r: Result<usize, Error>)
        ensures
            match self@.practice_session {
                Some(session) => r matches Ok(n) && n == session.word_pool.len(),
                None => r matches Err(e) && e.spec_kind() == ErrorKind::Domain,
            },
    {
        match &self.practice_session {
            Some(session) => Ok(session.get_pool_size()),
            None => Err(domain_error("No practice session is running!")),
        }
    }

    /// Ends the session and gives its knowledge back to the selected user.
    pub fn conclude_session(&mut self) -> (r: Result<(), Error>)
        ensures
            !old(self)@.can_conclude() ==> (r matches Err(e) && e.spec_kind() == ErrorKind::Domain
                && final(self)@ == old(self)@),
            old(self)@.can_conclude() ==> r is Ok && final(self)@ == old(self)@.concluded(),
    {
        let user = match &self.current_user {
            Some(id) => match self.find_user(id.get_name()) {
                Some(i) => i,
                None => {
                    return Err(domain_error("User not found!"));
                },
            },
            None => {
                return Err(domain_error("No user selected!"));
            },
        };
        let session = match self.practice_session.take() {
            Some(s) => s,
            None => {
                return Err(domain_error("No practice session is running!"));
            },
        };
        assert(self@.users[user as int] == self.users[user as int]@);
        self.users[user].add_knowledge(session.recover_knowledge());
        assert(self@.users =~= old(self)@.concluded().users);
        Ok(())
    }

    /// Appends the stored form of the selected user to `writable` and returns
    /// the number of bytes it took.
    pub fn save_current_user(&self, writable: &mut Vec<u8>) -> (r: Result<usize, Error>)
        ensures
            match self@.current_user {
                Some(name) => if has_name(self@.users, name) {
                    let u = self@.users[name_position(self@.users, name)];
                    r matches Ok(n) && n == user_bytes(u).len() && final(writable)@ == old(
                        writable,
                    )@ + user_bytes(u)
                } else {
                    r matches Err(e) && e.spec_kind() == ErrorKind::Domain && final(writable)@
                        == old(writable)@
                },
                None => r matches Err(e) && e.spec_kind() == ErrorKind::Domain && final(writable)@
                    == old(writable)@,
            },
    {
        let user = match &self.current_user {
            Some(id) => match self.find_user(id.get_name()) {
                Some(i) => i,
                None => {
                    return Err(domain_error("User not found!"));
                },
            },
            None => {
                return Err(domain_error("No user selected!"));
            },
        };
        assert(self@.users[user as int] == self.users[user as int]@);
        self.users[user].save_to(writable)
    }
}

} // verus!
