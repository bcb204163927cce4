//! A user: a name and what the user knows of each dictionary practised, and
//! how both are stored and read back.

use vstd::prelude::*;
use vstd::bytes::{
    lemma_auto_spec_u64_to_from_le_bytes,
    spec_u64_from_le_bytes,
    spec_u64_to_le_bytes,
    u64_from_le_bytes,
    u64_to_le_bytes,
};
use vstd::utf8::encode_utf8;
use crate::error::{Error, ErrorKind};
use crate::program::filemanager::{
    envelope,
    header_error,
    lemma_parse_envelope,
    parse_envelope,
    read_file,
    save_file,
    version_error,
};
use crate::tools::text::same_text;
use crate::tools::dict_map::{has_title, DictMap};
use crate::tools::u8_buffer::U8Buffer;
use crate::tools::wire::{
    append,
    byte_string,
    decode_error,
    lemma_parse_byte_string,
    lemma_parse_text,
    lemma_parse_varint,
    parse_byte_string,
    parse_text,
    parse_varint,
    put_bytes,
    put_text,
    put_varint,
    take_bytes,
    take_text,
    take_varint,
    text_string,
    varint,
};
use crate::words::dictionary::{DictionaryView, FileVersion};
use crate::words::knowledge::{Knowledge, KnowledgeView};
use crate::words::knowledge_file::{
    knowledge_bytes,
    knowledge_storable,
    lemma_knowledge_round_trip,
    parse_knowledge,
    KNOW_VERSION_BEFORE,
};

verus! {

/// The header of a stored user.
pub const USER_HEADER: &'static str = "USER_FILE";

/// The version of the layout in which users are stored.
pub const USER_VERSION: &'static str = "0.1";

/// The number of bytes in which the size of a stored knowledge is written.
pub const SIZE_BYTES: usize = 8;

/// A user: a name and one knowledge for each dictionary practised.
#[derive(Debug)]
pub struct User {
    name: String,
    knowledge: Vec<Knowledge>,
}

/// What a [`User`] holds, as mathematical values.
pub struct UserView {
    pub name: Seq<char>,
    pub knowledge: Seq<KnowledgeView>,
}

/// The views of a list of knowledge.
pub open spec fn knowledge_views(knowledge: Seq<Knowledge>) -> Seq<KnowledgeView> {
    Seq::new(knowledge.len(), |i: int| knowledge[i]@)
}

impl View for User {
    type V = UserView;

    closed spec fn view(&self) -> UserView {
        UserView { name: self.name@, knowledge: knowledge_views(self.knowledge@) }
    }
}

impl UserView {
    /// The position of the last knowledge of the dictionary titled `title` is
    /// `i`.
    pub open spec fn is_last_of(self, title: Seq<char>, i: int) -> bool {
        &&& 0 <= i < self.knowledge.len()
        &&& self.knowledge[i].dict_title == title
        &&& forall|j: int|
            i < j < self.knowledge.len() ==> (#[trigger] self.knowledge[j]).dict_title != title
    }

    /// The user has a knowledge of the dictionary titled `title`.
    pub open spec fn knows(self, title: Seq<char>) -> bool {
        exists|i: int|
            0 <= i < self.knowledge.len() && (#[trigger] self.knowledge[i]).dict_title == title
    }

    /// The position of the last knowledge of the dictionary titled `title`,
    /// where there is one. A user has one knowledge of a dictionary as a
    /// rule; where there are more, the last one counts.
    pub open spec fn last_of(self, title: Seq<char>) -> int {
        choose|i: int| self.is_last_of(title, i)
    }

    /// The user with one more knowledge.
    pub open spec fn with(self, k: KnowledgeView) -> UserView {
        UserView { knowledge: self.knowledge.push(k), ..self }
    }

    /// The user without the knowledge at position `i`.
    pub open spec fn without(self, i: int) -> UserView {
        UserView { knowledge: self.knowledge.remove(i), ..self }
    }

}

/// A title has one last position.
pub proof fn lemma_last_of(u: UserView, title: Seq<char>, i: int)
    requires
        u.is_last_of(title, i),
    ensures
        u.knows(title),
        u.last_of(title) == i,
{
    let j = u.last_of(title);
    assert(u.is_last_of(title, j));
    if i < j {
        assert(u.knowledge[j].dict_title != title);
    } else if j < i {
        assert(u.knowledge[i].dict_title != title);
    }
}

/// A user who knows a dictionary has a last knowledge of it.
pub proof fn lemma_knows_last(u: UserView, title: Seq<char>)
    requires
        u.knows(title),
    ensures
        u.is_last_of(title, u.last_of(title)),
{
    let n = choose|i: int| 0 <= i < u.knowledge.len() && (#[trigger] u.knowledge[i]).dict_title
        == title;
    lemma_last_above(u, title, n);
}

/// Above a position with the title there is a last position with it.
proof fn lemma_last_above(u: UserView, title: Seq<char>, n: int)
    requires
        0 <= n < u.knowledge.len(),
        u.knowledge[n].dict_title == title,
    ensures
        exists|i: int| u.is_last_of(title, i),
    decreases u.knowledge.len() - n,
{
    if exists|j: int| n < j < u.knowledge.len() && (#[trigger] u.knowledge[j]).dict_title == title {
        let j = choose|j: int|
            n < j < u.knowledge.len() && (#[trigger] u.knowledge[j]).dict_title == title;
        lemma_last_above(u, title, j);
    } else {
        assert(u.is_last_of(title, n));
    }
}

/// The payload of a stored user.
#[derive(Debug)]
pub struct UserData {
    pub name: String,
    pub knowledge_data: Vec<u8>,
}

/// One knowledge in the list of a stored user: the size of its stored form,
/// in eight bytes with the lowest first, and the stored form.
pub open spec fn entry_bytes(k: KnowledgeView) -> Seq<u8> {
    spec_u64_to_le_bytes(knowledge_bytes(k).len() as u64) + knowledge_bytes(k)
}

/// The knowledges of a stored user, one after the other.
pub open spec fn entries_bytes(knowledge: Seq<KnowledgeView>) -> Seq<u8>
    decreases knowledge.len(),
{
    if knowledge.len() == 0 {
        Seq::empty()
    } else {
        entry_bytes(knowledge[0]) + entries_bytes(knowledge.skip(1))
    }
}

/// The list of the knowledges of a user as it is stored: their number, then
/// the knowledges.
pub open spec fn blob_bytes(knowledge: Seq<KnowledgeView>) -> Seq<u8> {
    varint(knowledge.len()) + entries_bytes(knowledge)
}

/// What reading `count` knowledges from the front of `bytes` gives when the
/// dictionaries `dicts` are loaded: the knowledges and whether any was
/// brought forward from an earlier layout, or the kind of the first error.
pub open spec fn parse_entries(bytes: Seq<u8>, count: nat, dicts: Seq<DictionaryView>) -> Result<
    (Seq<KnowledgeView>, bool),
    ErrorKind,
>
    decreases count,
{
    if count == 0 {
        Ok((Seq::empty(), false))
    } else if bytes.len() < SIZE_BYTES {
        Err(ErrorKind::Decode)
    } else {
        let size = spec_u64_from_le_bytes(bytes.take(SIZE_BYTES as int));
        if size > bytes.len() - SIZE_BYTES {
            Err(ErrorKind::Decode)
        } else {
            match parse_knowledge(bytes.subrange(SIZE_BYTES as int, SIZE_BYTES + size), dicts) {
                Err(kind) => Err(kind),
                Ok((k, migrated)) => match parse_entries(
                    bytes.skip(SIZE_BYTES + size),
                    (count - 1) as nat,
                    dicts,
                ) {
                    Err(kind) => Err(kind),
                    Ok((others, any)) => Ok((seq![k] + others, migrated || any)),
                },
            }
        }
    }
}

/// What reading the list of the knowledges of a user from `bytes` gives.
pub open spec fn parse_blob(bytes: Seq<u8>, dicts: Seq<DictionaryView>) -> Result<
    (Seq<KnowledgeView>, bool),
    ErrorKind,
> {
    match parse_varint(bytes) {
        None => Err(ErrorKind::Decode),
        Some((count, rest)) => parse_entries(rest, count as nat, dicts),
    }
}

/// Knowledges that were read, with `done` before them.
pub open spec fn entries_joined(
    done: Seq<KnowledgeView>,
    flag: bool,
    read: Result<(Seq<KnowledgeView>, bool), ErrorKind>,
) -> Result<(Seq<KnowledgeView>, bool), ErrorKind> {
    match read {
        Ok((others, any)) => Ok((done + others, flag || any)),
        Err(kind) => Err(kind),
    }
}

/// The payload of a stored user: the name, and the list of knowledges as a
/// byte string.
pub open spec fn user_payload(u: UserView) -> Seq<u8> {
    text_string(u.name) + byte_string(blob_bytes(u.knowledge))
}

/// A user as it is stored.
pub open spec fn user_bytes(u: UserView) -> Seq<u8> {
    envelope(USER_HEADER@, USER_VERSION@, user_payload(u))
}

/// What reading the payload of a stored user from `bytes` gives when the
/// dictionaries `dicts` are loaded.
pub open spec fn parse_user_payload(bytes: Seq<u8>, dicts: Seq<DictionaryView>) -> Result<
    (UserView, bool),
    ErrorKind,
> {
    match parse_text(bytes) {
        None => Err(ErrorKind::Decode),
        Some((name, rest)) => match parse_byte_string(rest) {
            None => Err(ErrorKind::Decode),
            Some((blob, _)) => match parse_blob(blob, dicts) {
                Err(kind) => Err(kind),
                Ok((knowledge, migrated)) => Ok((UserView { name, knowledge }, migrated)),
            },
        },
    }
}

/// What reading a stored user from `bytes` gives when the dictionaries
/// `dicts` are loaded: the user and whether any knowledge was brought forward
/// from an earlier layout, or the kind of error.
pub open spec fn parse_user(bytes: Seq<u8>, dicts: Seq<DictionaryView>) -> Result<
    (UserView, bool),
    ErrorKind,
> {
    match parse_envelope(bytes) {
        None => Err(ErrorKind::Decode),
        Some(file) => if file.header != USER_HEADER@ || file.version != USER_VERSION@ {
            Err(ErrorKind::Format)
        } else {
            parse_user_payload(file.data, dicts)
        },
    }
}

/// The user is small enough for every length in the stored form to be
/// stored, and the dictionary of every knowledge is among `dicts`.
pub open spec fn user_storable(u: UserView, dicts: Seq<DictionaryView>) -> bool {
    &&& encode_utf8(u.name).len() <= u64::MAX
    &&& u.knowledge.len() <= u64::MAX
    &&& forall|i: int|
        0 <= i < u.knowledge.len() ==> {
            &&& knowledge_storable(#[trigger] u.knowledge[i])
            &&& has_title(dicts, u.knowledge[i].dict_title)
            &&& knowledge_bytes(u.knowledge[i]).len() <= u64::MAX
        }
    &&& blob_bytes(u.knowledge).len() <= u64::MAX
}

/// Reading gives back knowledges that were written, none brought forward.
pub proof fn lemma_parse_entries(knowledge: Seq<KnowledgeView>, dicts: Seq<DictionaryView>)
    requires
        forall|i: int|
            0 <= i < knowledge.len() ==> {
                &&& knowledge_storable(#[trigger] knowledge[i])
                &&& has_title(dicts, knowledge[i].dict_title)
                &&& knowledge_bytes(knowledge[i]).len() <= u64::MAX
            },
    ensures
        parse_entries(entries_bytes(knowledge), knowledge.len(), dicts) == Ok::<
            (Seq<KnowledgeView>, bool),
            ErrorKind,
        >((knowledge, false)),
    decreases knowledge.len(),
{
    if knowledge.len() == 0 {
        assert(knowledge =~= Seq::<KnowledgeView>::empty());
    } else {
        let k = knowledge[0];
        let rest = knowledge.skip(1);
        let stored = knowledge_bytes(k);
        let size = spec_u64_to_le_bytes(stored.len() as u64);
        let bytes = entries_bytes(knowledge);
        lemma_auto_spec_u64_to_from_le_bytes();
        assert(bytes =~= size + stored + entries_bytes(rest));
        assert(bytes.take(SIZE_BYTES as int) =~= size);
        assert(bytes.subrange(SIZE_BYTES as int, SIZE_BYTES + stored.len()) =~= stored);
        assert(bytes.skip(SIZE_BYTES + stored.len()) =~= entries_bytes(rest));
        lemma_knowledge_round_trip(k, dicts);
        assert forall|i: int| 0 <= i < rest.len() implies {
            &&& knowledge_storable(#[trigger] rest[i])
            &&& has_title(dicts, rest[i].dict_title)
            &&& knowledge_bytes(rest[i]).len() <= u64::MAX
        } by {
            assert(rest[i] == knowledge[i + 1]);
        }
        lemma_parse_entries(rest, dicts);
        assert(seq![k] + rest =~= knowledge);
    }
}

/// Knowledges with one more are stored as the knowledges and then the one
/// more.
pub proof fn lemma_entries_bytes_push(knowledge: Seq<KnowledgeView>, k: KnowledgeView)
    ensures
        entries_bytes(knowledge.push(k)) == entries_bytes(knowledge) + entry_bytes(k),
    decreases knowledge.len(),
{
    let longer = knowledge.push(k);
    if knowledge.len() == 0 {
        assert(longer.skip(1) =~= Seq::<KnowledgeView>::empty());
        assert(entries_bytes(longer) =~= entry_bytes(k) + entries_bytes(longer.skip(1)));
        assert(entries_bytes(longer) =~= entries_bytes(knowledge) + entry_bytes(k));
    } else {
        assert(longer.skip(1) =~= knowledge.skip(1).push(k));
        lemma_entries_bytes_push(knowledge.skip(1), k);
        assert(entries_bytes(longer) =~= entries_bytes(knowledge) + entry_bytes(k));
    }
}

/// The header and the version are short.
proof fn lemma_user_tags()
    ensures
        encode_utf8(USER_HEADER@).len() <= u64::MAX,
        encode_utf8(USER_VERSION@).len() <= u64::MAX,
{
    reveal_strlit("USER_FILE");
    reveal_strlit("0.1");
    vstd::utf8::is_ascii_chars_encode_utf8(USER_HEADER@);
    vstd::utf8::is_ascii_chars_encode_utf8(USER_VERSION@);
}

/// Reading the payload of a user that was stored gives back the user,
/// nothing brought forward.
pub proof fn lemma_parse_user_payload(u: UserView, dicts: Seq<DictionaryView>)
    requires
        user_storable(u, dicts),
    ensures
        parse_user_payload(user_payload(u), dicts) == Ok::<(UserView, bool), ErrorKind>(
            (u, false),
        ),
{
    let blob = blob_bytes(u.knowledge);
    lemma_parse_text(u.name, byte_string(blob));
    lemma_parse_byte_string(blob, Seq::empty());
    assert(byte_string(blob) + Seq::<u8>::empty() =~= byte_string(blob));
    assert(parse_blob(blob, dicts) == Ok::<(Seq<KnowledgeView>, bool), ErrorKind>(
        (u.knowledge, false),
    )) by {
        lemma_parse_varint(u.knowledge.len() as u64, entries_bytes(u.knowledge));
        lemma_parse_entries(u.knowledge, dicts);
    }
}

/// Reading a user that was stored gives back the user, nothing brought
/// forward, where the dictionaries of all its knowledges are loaded.
pub proof fn lemma_user_round_trip(u: UserView, dicts: Seq<DictionaryView>)
    requires
        user_storable(u, dicts),
        user_payload(u).len() <= u64::MAX,
    ensures
        parse_user(user_bytes(u), dicts) == Ok::<(UserView, bool), ErrorKind>((u, false)),
{
    lemma_user_tags();
    lemma_parse_envelope(USER_HEADER@, USER_VERSION@, user_payload(u), Seq::empty());
    assert(user_bytes(u) + Seq::<u8>::empty() =~= user_bytes(u));
    lemma_parse_user_payload(u, dicts);
}

/// The list of `knowledge` as it is stored. Every knowledge reads back where
/// its dictionary is loaded.
pub fn encode_knowledge_data(knowledge: &[Knowledge]) -> (r: Result<Vec<u8>, Error>)
    ensures
        r matches Ok(data) && data@ == blob_bytes(knowledge_views(knowledge@)),
        forall|i: int|
            0 <= i < knowledge.len() ==> knowledge_storable((#[trigger] knowledge[i])@)
                && knowledge_bytes(knowledge[i]@).len() <= u64::MAX,
{
    let ghost views = knowledge_views(knowledge@);
    let mut data: Vec<u8> = Vec::new();
    put_varint(&mut data, knowledge.len() as u64)?;
    let mut i: usize = 0;
    while i < knowledge.len()
        invariant
            i <= knowledge.len(),
            views == knowledge_views(knowledge@),
            data@ == varint(knowledge.len() as nat) + entries_bytes(views.take(i as int)),
            forall|j: int|
                0 <= j < i ==> knowledge_storable((#[trigger] knowledge[j])@) && knowledge_bytes(
                    knowledge[j]@,
                ).len() <= u64::MAX,
        decreases knowledge.len() - i,
    {
        let mut stored: Vec<u8> = Vec::new();
        let size = knowledge[i].save_to(&mut stored)?;
        assert(stored@ =~= knowledge_bytes(knowledge[i as int]@));
        let size_bytes = u64_to_le_bytes(size as u64);
        append(&mut data, size_bytes.as_slice());
        append(&mut data, stored.as_slice());
        proof {
            lemma_entries_bytes_push(views.take(i as int), views[i as int]);
            assert(views.take(i + 1) =~= views.take(i as int).push(views[i as int]));
            assert(data@ =~= varint(knowledge.len() as nat) + entries_bytes(views.take(i + 1)));
        }
        i += 1;
    }
    assert(views.take(knowledge.len() as int) =~= views);
    Ok(data)
}

/// Reads the list of the knowledges of a user from `data`, and says whether
/// any of them was brought forward from an earlier layout. The dictionary of
/// every knowledge must be in `container`.
pub fn decode_knowledge_data(data: &[u8], container: &DictMap) -> (r: Result<
    (Vec<Knowledge>, bool),
    Error,
>)
    ensures
        match parse_blob(data@, container@) {
            Ok((knowledge, migrated)) => r matches Ok((found, flag)) && knowledge_views(found@)
                == knowledge && flag == migrated,
            Err(kind) => r matches Err(e) && e.spec_kind() == kind,
        },
{
    let (count, rest) = take_varint(data)?;
    let mut body = vstd::slice::slice_to_vec(rest);
    let ghost all = body@;
    let capacity: usize = body.len();
    let mut buf = U8Buffer::create_full(body.as_mut_slice());
    let mut out: Vec<Knowledge> = Vec::new();
    let mut migrated = false;
    let mut i: u64 = 0;
    proof {
        assert(buf@.data() =~= all);
        if let Ok((others, any)) = parse_entries(all, count as nat, container@) {
            assert(knowledge_views(out@) + others =~= others);
        }
    }
    while i < count
        invariant
            i <= count,
            buf@.wf(),
            buf@.bytes == all,
            buf@.end == all.len(),
            parse_varint(data@) == Some((count, all)),
            entries_joined(
                knowledge_views(out@),
                migrated,
                parse_entries(buf@.data(), (count - i) as nat, container@),
            ) == parse_entries(all, count as nat, container@),
        decreases count - i,
    {
        let ghost window = buf@.data();
        let ghost done = knowledge_views(out@);
        if buf.len() < SIZE_BYTES {
            return Err(decode_error("Hit the end of buffer, expected more data"));
        }
        let mut size_bytes: Vec<u8> = vec![0u8; SIZE_BYTES];
        buf.read(size_bytes.as_mut_slice());
        let size = u64_from_le_bytes(size_bytes.as_slice());
        if size > buf.len() as u64 {
            return Err(decode_error("Hit the end of buffer, expected more data"));
        }
        let size = size as usize;
        // the window is narrowed to the one record, and widened again
        let whole = buf.force_len(size);
        assert(buf@.data() =~= window.subrange(SIZE_BYTES as int, SIZE_BYTES + size));
        let (k, version) = match Knowledge::load_from(buf.get_data(), container) {
            Ok(found) => found,
            Err(e) => {
                return Err(e);
            },
        };
        buf.force_len(whole);
        buf.advance_read(size);
        assert(buf@.data() =~= window.skip(SIZE_BYTES + size));
        let was_old = match version {
            FileVersion::Current => false,
            FileVersion::Old(_) => true,
        };
        out.push(k);
        proof {
            assert(knowledge_views(out@) =~= done.push(k@));
            let after = parse_entries(buf@.data(), (count - i - 1) as nat, container@);
            if let Ok((others, any)) = after {
                assert(done + (seq![k@] + others) =~= done.push(k@) + others);
            }
        }
        migrated = migrated || was_old;
        i += 1;
    }
    assert(knowledge_views(out@) + Seq::<KnowledgeView>::empty() =~= knowledge_views(out@));
    Ok((out, migrated))
}

impl UserData {
    /// The payload of `user`.
    pub fn create(user: &User) -> (r: Result<UserData, Error>)
        ensures
            r matches Ok(data) && data.name@ == user@.name && data.knowledge_data@ == blob_bytes(
                user@.knowledge,
            ),
            forall|i: int|
                0 <= i < user@.knowledge.len() ==> knowledge_storable(#[trigger] user@.knowledge[i])
                    && knowledge_bytes(user@.knowledge[i]).len() <= u64::MAX,
    {
        let name = user.name.clone();
        let knowledge_data = encode_knowledge_data(user.knowledge.as_slice())?;
        assert forall|i: int| 0 <= i < user@.knowledge.len() implies knowledge_storable(
            #[trigger] user@.knowledge[i],
        ) && knowledge_bytes(user@.knowledge[i]).len() <= u64::MAX by {
            assert(user@.knowledge[i] == user.knowledge[i]@);
        }
        Ok(UserData { name, knowledge_data })
    }
}

impl User {
    /// A user called `name` who has practised nothing yet.
    pub fn create(name: String) -> (u: User)
        ensures
            u@ == (UserView { name: name@, knowledge: Seq::empty() }),
    {
        let u = User { name, knowledge: Vec::new() };
        assert(u@.knowledge =~= Seq::<KnowledgeView>::empty());
        u
    }

    /// Gives the user a knowledge.
    pub fn add_knowledge(&mut self, knowledge: Knowledge)
        ensures
            final(self)@ == old(self)@.with(knowledge@),
    {
        self.knowledge.push(knowledge);
        assert(self@.knowledge =~= old(self)@.knowledge.push(knowledge@));
    }

    /// The position of the last knowledge of the dictionary titled `title`,
    /// if there is one.
    pub fn find_knowledge(&self, title: &str) -> (found: Option<usize>)
        ensures
            match found {
                Some(i) => self@.knows(title@) && i == self@.last_of(title@) && i
                    < self@.knowledge.len(),
                None => !self@.knows(title@),
            },
    {
        let mut i: usize = self.knowledge.len();
        while i > 0
            invariant
                i <= self.knowledge.len(),
                forall|j: int|
                    i <= j < self.knowledge.len() ==> (#[trigger] self@.knowledge[j]).dict_title
                        != title@,
            decreases i,
        {
            i -= 1;
            let dict = self.knowledge[i].get_dict();
            assert(self@.knowledge[i as int] == self.knowledge[i as int]@);
            if same_text(dict.get_name(), title) {
                proof {
                    lemma_last_of(self@, title@, i as int);
                }
                return Some(i);
            }
        }
        None
    }

    /// Takes from the user the last knowledge of the dictionary titled
    /// `title`, if there is one.
    pub fn take_knowledge(&mut self, title: &str) -> (taken: Option<Knowledge>)
        ensures
            match taken {
                Some(k) => old(self)@.knows(title@) && k@ == old(self)@.knowledge[old(
                    self,
                )@.last_of(title@)] && final(self)@ == old(self)@.without(
                    old(self)@.last_of(title@),
                ),
                None => !old(self)@.knows(title@) && final(self)@ == old(self)@,
            },
    {
        match self.find_knowledge(title) {
            Some(i) => {
                let k = self.knowledge.remove(i);
                assert(self@.knowledge =~= old(self)@.knowledge.remove(i as int));
                assert(k@ == old(self)@.knowledge[i as int]);
                Some(k)
            },
            None => None,
        }
    }

    /// The knowledges of the user.
    pub fn get_knowledge(&self) -> (knowledge: &Vec<Knowledge>)
        ensures
            knowledge_views(knowledge@) == self@.knowledge,
    {
        &self.knowledge
    }

    /// The name of the user.
    pub fn get_name<'u>(&'u self) -> (name: &'u str)
        ensures
            name@ == self@.name,
    {
        self.name.as_str()
    }

    /// Appends the stored form of the user to `writable` and returns the
    /// number of bytes it took.
    pub fn save_to(&self, writable: &mut Vec<u8>) -> (r: Result<usize, Error>)
        ensures
            r matches Ok(n) && n == user_bytes(self@).len(),
            final(writable)@ == old(writable)@ + user_bytes(self@),
            forall|dicts: Seq<DictionaryView>|
                (forall|i: int|
                    0 <= i < self@.knowledge.len() ==> has_title(
                        dicts,
                        (#[trigger] self@.knowledge[i]).dict_title,
                    )) ==> #[trigger] parse_user(user_bytes(self@), dicts) == Ok::<
                    (UserView, bool),
                    ErrorKind,
                >((self@, false)),
    {
        let data = UserData::create(self)?;
        let mut payload: Vec<u8> = Vec::new();
        put_text(&mut payload, data.name.as_str())?;
        put_bytes(&mut payload, data.knowledge_data.as_slice())?;
        assert(payload@ =~= user_payload(self@));
        let blob_len: usize = data.knowledge_data.len();
        let payload_len: usize = payload.len();
        let count: usize = self.knowledge.len();
        proof {
            assert forall|dicts: Seq<DictionaryView>|
                (forall|i: int|
                    0 <= i < self@.knowledge.len() ==> has_title(
                        dicts,
                        (#[trigger] self@.knowledge[i]).dict_title,
                    )) implies #[trigger] parse_user(user_bytes(self@), dicts) == Ok::<
                (UserView, bool),
                ErrorKind,
            >((self@, false)) by {
                assert(blob_bytes(self@.knowledge).len() == blob_len);
                assert(user_payload(self@).len() == payload_len);
                assert(self@.knowledge.len() == count);
                lemma_user_round_trip(self@, dicts);
            }
        }
        save_file(writable, USER_HEADER.to_owned(), USER_VERSION.to_owned(), payload)
    }

    /// Reads a stored user from `readable`, and says whether any of its
    /// knowledges was stored in an earlier layout. The dictionaries of all
    /// its knowledges must be in `dict_container`.
    pub fn load_from(readable: &[u8], dict_container: &DictMap) -> (r: Result<
        (User, FileVersion),
        Error,
    >)
        ensures
            match parse_user(readable@, dict_container@) {
                Ok((u, migrated)) => r matches Ok((found, version)) && found@ == u && match version {
                    FileVersion::Current => !migrated,
                    FileVersion::Old(tag) => migrated && tag@ == KNOW_VERSION_BEFORE@,
                },
                Err(kind) => r matches Err(e) && e.spec_kind() == kind,
            },
    {
        let file = read_file(readable)?;
        if !same_text(file.header.as_str(), USER_HEADER) {
            return Err(header_error());
        }
        if !same_text(file.version.as_str(), USER_VERSION) {
            return Err(version_error());
        }
        let (name, rest) = take_text(file.data.as_slice())?;
        let (blob, _) = take_bytes(rest)?;
        let (knowledge, migrated) = decode_knowledge_data(blob, dict_container)?;
        let version = if migrated {
            FileVersion::Old(KNOW_VERSION_BEFORE.to_owned())
        } else {
            FileVersion::Current
        };
        Ok((User { name, knowledge }, version))
    }
}

} // verus!
