//! What a vault holds: entries and settings.

use vstd::prelude::*;

pub use crate::clock::now_millis;
use crate::clock::is_clock_time;
use crate::draws::{is_drawn_id, IdDraws};
use crate::secret::Secret;
use crate::text::{
    ascii_lower, contained_stands_somewhere, contains, contains_text, is_white_space, lowercase,
    parts_are_contained, trimmed, trimmed_is_a_part, trimming_ignores_case,
};
use vstd::utf8::is_ascii_chars;

verus! {

// ---------------------------------------------------------------------------
// Identifiers
// ---------------------------------------------------------------------------

/// The identifier of an entry: the 128 bits of a UUID, the first byte highest.
///
/// Identifiers are random and not counted up, so entries made on two devices
/// never share one.
#[derive(Debug, Clone, Copy, PartialEq, Eq, Hash, Structural)]
pub struct EntryId {
    pub value: u128,
}

/// The bits that mark a random UUID: version 4, variant 1.
pub open spec fn is_random_uuid(value: u128) -> bool {
    &&& (value >> 76) & 0xf == 4
    &&& (value >> 62) & 0x3 == 2
}

/// The small hexadecimal digit of value `d`.
pub open spec fn hex_digit(d: int) -> char {
    if d < 10 {
        (48 + d) as char
    } else {
        (87 + d) as char
    }
}

/// The hexadecimal digit of `value` at place `k`, counted from the highest of
/// 32.
pub open spec fn hex_place(value: u128, k: int) -> char {
    hex_digit((value as int / vstd::arithmetic::power::pow(16, (31 - k) as nat)) % 16)
}

/// A UUID as text: groups of 8, 4, 4, 4 and 12 small hexadecimal digits with
/// hyphens between them.
pub open spec fn uuid_text(value: u128) -> Seq<char> {
    Seq::new(
        36,
        |i: int|
            if i == 8 || i == 13 || i == 18 || i == 23 {
                '-'
            } else if i < 8 {
                hex_place(value, i)
            } else if i < 13 {
                hex_place(value, i - 1)
            } else if i < 18 {
                hex_place(value, i - 2)
            } else if i < 23 {
                hex_place(value, i - 3)
            } else {
                hex_place(value, i - 4)
            },
    )
}

/// The UUID that a text stands for, in any of the notations that
/// `uuid::Uuid::parse_str` reads; `None` for any other text.
pub uninterp spec fn uuid_value(text: Seq<char>) -> Option<u128>;

/// A random UUID by `uuid::Uuid::new_v4`. Its version and variant bits are
/// fixed; nothing is claimed of the others. The crate panics where the system's
/// random source fails. The log takes down the UUID that came.
#[verifier::external_body]
fn uuid_random(log: &mut IdDraws) -> (r: u128)
    ensures
        is_random_uuid(r),
        final(log)@ == old(log)@.push(r),
{
    uuid::Uuid::new_v4().as_u128()
}

/// Reads a UUID by `uuid::Uuid::parse_str`: a function of the text.
#[verifier::external_body]
fn uuid_parse(text: &str) -> (r: Option<u128>)
    ensures
        r == uuid_value(text@),
{
    match uuid::Uuid::parse_str(text) {
        Ok(u) => Some(u.as_u128()),
        Err(_) => None,
    }
}

/// Writes a UUID as `Display` of `uuid::Uuid` does: hyphenated, in small
/// letters. `uuid::Uuid::parse_str` reads it back.
#[verifier::external_body]
fn uuid_to_text(value: u128) -> (r: String)
    ensures
        r@ == uuid_text(value),
        uuid_value(r@) == Some(value),
{
    uuid::Uuid::from_u128(value).to_string()
}

impl EntryId {
    /// A new random identifier.
    pub fn random() -> (r: EntryId)
        ensures
            is_random_uuid(r.value),
            is_drawn_id(r.value),
    {
        let mut log = IdDraws::new();
        let value: u128 = uuid_random(&mut log);
        assert(log@ =~= seq![value]);
        EntryId { value }
    }

    /// Reads an identifier; `None` where the text is not one.
    pub fn parse(text: &str) -> (r: Option<EntryId>)
        ensures
            match uuid_value(text@) {
                Some(v) => r == Some(EntryId { value: v }),
                None => r is None,
            },
    {
        match uuid_parse(text) {
            Some(value) => Some(EntryId { value }),
            None => None,
        }
    }

    /// The identifier as text; it reads back as the same identifier.
    pub fn to_text(&self) -> (r: String)
        ensures
            r@ == uuid_text(self.value),
            uuid_value(r@) == Some(self.value),
    {
        uuid_to_text(self.value)
    }
}

// ---------------------------------------------------------------------------
// Entries
// ---------------------------------------------------------------------------

/// The five kinds of entries.
#[derive(Debug, Clone, Copy, PartialEq, Eq, Hash, Structural)]
pub enum Category {
    Social,
    Banking,
    Work,
    Shopping,
    Other,
}

impl Category {
    /// All kinds, in the order in which they are shown.
    pub const ALL: [Category; 5] = [
        Category::Social,
        Category::Banking,
        Category::Work,
        Category::Shopping,
        Category::Other,
    ];
}

/// One password record.
pub struct Entry {
    pub id: EntryId,
    pub name: String,
    pub username: String,
    pub password: Secret,
    pub url: String,
    pub notes: String,
    pub category: Category,
    /// Milliseconds since 1970.
    pub created_at: u64,
    /// Milliseconds since 1970.
    pub updated_at: u64,
}

/// Whether a search finds an entry with this name and user name: the query
/// without surrounding white space is empty, or stands in one of the two
/// without regard to case.
pub open spec fn query_finds(name: Seq<char>, username: Seq<char>, query: Seq<char>) -> bool {
    let q = lowercase(trimmed(query));
    q.len() == 0 || contains_text(lowercase(name), q) || contains_text(lowercase(username), q)
}

/// On ASCII texts the case of a query and of what is searched makes no
/// difference.
pub proof fn search_ignores_case(
    name: Seq<char>,
    name2: Seq<char>,
    username: Seq<char>,
    query: Seq<char>,
    query2: Seq<char>,
)
    requires
        is_ascii_chars(name) && is_ascii_chars(name2) && lowercase(name) == lowercase(name2),
        is_ascii_chars(query) && is_ascii_chars(query2) && lowercase(query) == lowercase(query2),
    ensures
        query_finds(name, username, query) == query_finds(name2, username, query2),
        query_finds(username, name, query) == query_finds(username, name2, query2),
{
    trimming_ignores_case(query, query2);
}

/// A search finds an entry by every part of its name and of its user name, in
/// capitals or small letters, and with white space around it.
pub proof fn every_part_is_found(
    name: Seq<char>,
    username: Seq<char>,
    query: Seq<char>,
    from: int,
)
    requires
        is_ascii_chars(name),
        is_ascii_chars(query),
        0 <= from,
        from + query.len() <= name.len(),
        forall|i: int|
            0 <= i < query.len() ==> ascii_lower(#[trigger] query[i]) == ascii_lower(
                name[from + i],
            ),
    ensures
        query_finds(name, username, query),
        query_finds(username, name, query),
{
    let (u, v) = trimmed_is_a_part(query);
    let q = lowercase(trimmed(query));
    let n = lowercase(name);
    assert(is_ascii_chars(trimmed(query)));
    assert(q.len() == v - u && n.len() == name.len());
    assert(q =~= n.subrange(from + u, from + v)) by {
        assert forall|j: int| 0 <= j < q.len() implies q[j] == n.subrange(from + u, from + v)[j] by {
            assert(trimmed(query)[j] == query[u + j]);
            assert(q[j] == ascii_lower(query[u + j]));
            assert(n[from + u + j] == ascii_lower(name[from + (u + j)]));
        }
    }
    parts_are_contained(n, from + u, from + v);
}

/// A search finds nothing else: where it finds an entry, and the query is more
/// than white space, the query without the white space around it stands in the
/// name or in the user name, but for capitals and small letters.
pub proof fn only_parts_are_found(
    name: Seq<char>,
    username: Seq<char>,
    query: Seq<char>,
) -> (r: (bool, int))
    requires
        is_ascii_chars(name),
        is_ascii_chars(username),
        is_ascii_chars(query),
        query_finds(name, username, query),
        trimmed(query).len() > 0,
    ensures
        0 <= r.1,
        ({
            let t = trimmed(query);
            let text = if r.0 {
                name
            } else {
                username
            };
            &&& r.1 + t.len() <= text.len()
            &&& forall|i: int|
                0 <= i < t.len() ==> ascii_lower(#[trigger] t[i]) == ascii_lower(text[r.1 + i])
        }),
{
    let (u, v) = trimmed_is_a_part(query);
    let t = trimmed(query);
    let q = lowercase(t);
    assert(is_ascii_chars(t));
    assert(q.len() == t.len());
    let in_name = contains_text(lowercase(name), q);
    let text = if in_name {
        name
    } else {
        username
    };
    let a = contained_stands_somewhere(lowercase(text), q);
    assert(lowercase(text).len() == text.len());
    assert forall|i: int| 0 <= i < t.len() implies ascii_lower(#[trigger] t[i]) == ascii_lower(
        text[a + i],
    ) by {
        assert(q[i] == ascii_lower(t[i]));
        assert(lowercase(text)[a + i] == q[i]);
    }
    (in_name, a)
}

/// In any script: a query finds an entry where, in small letters and without the
/// white space around it, it is a part of the name in small letters, or of the
/// user name. So every entry is found by its name, and all are found by no query.
pub proof fn any_script_is_found(
    name: Seq<char>,
    username: Seq<char>,
    query: Seq<char>,
    a: int,
    b: int,
)
    ensures
        0 <= a <= b <= lowercase(name).len() && lowercase(trimmed(query)) == lowercase(
            name,
        ).subrange(a, b) ==> query_finds(name, username, query) && query_finds(
            username,
            name,
            query,
        ),
        trimmed(name) == name ==> query_finds(name, username, name) && query_finds(
            username,
            name,
            name,
        ),
        trimmed(query).len() == 0 ==> query_finds(name, username, query),
        query_finds(name, username, query) == query_finds(username, name, query),
        query_finds(name, username, query) == query_finds(name, username, trimmed(query)),
{
    let n = lowercase(name);
    if 0 <= a <= b <= n.len() {
        parts_are_contained(n, a, b);
    }
    assert(n.subrange(0, n.len() as int) =~= n);
    parts_are_contained(n, 0, n.len() as int);
    if trimmed(query).len() == 0 {
        assert(lowercase(trimmed(query)) =~= Seq::empty());
    }
    trimming_twice(query);
}

/// Trimming a trimmed text changes nothing.
proof fn trimming_twice(s: Seq<char>)
    ensures
        trimmed(trimmed(s)) == trimmed(s),
{
    let (a, b) = trimmed_is_a_part(s);
    let t = trimmed(s);
    let (c, d) = trimmed_is_a_part(t);
    if t.len() > 0 {
        assert(t[0] == s[a] && t.last() == s[b - 1]);
        if c > 0 {
            assert(is_white_space(t[0]));
        }
        if d < t.len() {
            assert(is_white_space(t[t.len() - 1]));
        }
    }
    assert(t.subrange(c, d) =~= t);
}

impl Entry {
    /// A new entry without address and notes, made now.
    pub fn new<N: Into<String>, U: Into<String>, P: Into<Secret>>(
        name: N,
        username: U,
        password: P,
        category: Category,
    ) -> (r: Entry)
        ensures
            is_random_uuid(r.id.value),
            is_drawn_id(r.id.value),
            call_ensures(N::into, (name,), r.name),
            call_ensures(U::into, (username,), r.username),
            call_ensures(P::into, (password,), r.password),
            r.url@ == Seq::<char>::empty(),
            r.notes@ == Seq::<char>::empty(),
            r.category == category,
            r.created_at == r.updated_at,
            is_clock_time(r.created_at),
    {
        Self::made_at(EntryId::random(), now_millis(), name, username, password, category)
    }

    /// A new entry without address and notes, with this id and made at this
    /// time.
    pub fn made_at<N: Into<String>, U: Into<String>, P: Into<Secret>>(
        id: EntryId,
        now: u64,
        name: N,
        username: U,
        password: P,
        category: Category,
    ) -> (r: Entry)
        ensures
            r.id == id,
            call_ensures(N::into, (name,), r.name),
            call_ensures(U::into, (username,), r.username),
            call_ensures(P::into, (password,), r.password),
            r.url@ == Seq::<char>::empty(),
            r.notes@ == Seq::<char>::empty(),
            r.category == category,
            r.created_at == now,
            r.updated_at == now,
    {
        Entry {
            id,
            name: name.into(),
            username: username.into(),
            password: password.into(),
            url: String::new(),
            notes: String::new(),
            category,
            created_at: now,
            updated_at: now,
        }
    }

    /// The entry with this address.
    pub fn with_url<S: Into<String>>(self, url: S) -> (r: Entry)
        ensures
            call_ensures(S::into, (url,), r.url),
            r == (Entry { url: r.url, ..self }),
    {
        let mut e = self;
        e.url = url.into();
        e
    }

    /// The entry with these notes.
    pub fn with_notes<S: Into<String>>(self, notes: S) -> (r: Entry)
        ensures
            call_ensures(S::into, (notes,), r.notes),
            r == (Entry { notes: r.notes, ..self }),
    {
        let mut e = self;
        e.notes = notes.into();
        e
    }

    /// Whether a search for `query` finds the entry.
    pub fn matches(&self, query: &str) -> (r: bool)
        ensures
            r == query_finds(self.name@, self.username@, query@),
    {
        let q = query.trim().to_lowercase();
        if q.as_str().is_empty() {
            return true;
        }
        contains(self.name.as_str().to_lowercase().as_str(), q.as_str()) || contains(
            self.username.as_str().to_lowercase().as_str(),
            q.as_str(),
        )
    }
}

/// Two entries hold the same.
pub open spec fn same_entry(a: Entry, b: Entry) -> bool {
    &&& a.id == b.id
    &&& a.name@ == b.name@
    &&& a.username@ == b.username@
    &&& a.password@ == b.password@
    &&& a.url@ == b.url@
    &&& a.notes@ == b.notes@
    &&& a.category == b.category
    &&& a.created_at == b.created_at
    &&& a.updated_at == b.updated_at
}

impl Clone for Entry {
    fn clone(&self) -> (r: Entry)
        ensures
            same_entry(r, *self),
    {
        Entry {
            id: self.id,
            name: self.name.clone(),
            username: self.username.clone(),
            password: self.password.clone(),
            url: self.url.clone(),
            notes: self.notes.clone(),
            category: self.category,
            created_at: self.created_at,
            updated_at: self.updated_at,
        }
    }
}

// ---------------------------------------------------------------------------
// Settings and content
// ---------------------------------------------------------------------------

/// The settings of a vault. They are kept inside it, encrypted with the
/// entries.
#[derive(Debug)]
pub struct VaultSettings {
    /// Where automatic backups go; `None` where there are none.
    pub auto_backup_dir: Option<String>,
    /// How many automatic backups are kept.
    pub auto_backup_keep: usize,
}

impl Clone for VaultSettings {
    fn clone(&self) -> (r: VaultSettings)
        ensures
            match self.auto_backup_dir {
                Some(d) => r.auto_backup_dir matches Some(e) && e@ == d@,
                None => r.auto_backup_dir is None,
            },
            r.auto_backup_keep == self.auto_backup_keep,
    {
        VaultSettings {
            auto_backup_dir: match &self.auto_backup_dir {
                Some(d) => Some(d.clone()),
                None => None,
            },
            auto_backup_keep: self.auto_backup_keep,
        }
    }
}

/// How many automatic backups are kept where nothing else is set.
pub fn default_keep() -> (r: usize)
    ensures
        r == 24,
{
    24
}

impl Default for VaultSettings {
    fn default() -> (r: VaultSettings)
        ensures
            r.auto_backup_dir is None,
            r.auto_backup_keep == 24,
    {
        VaultSettings { auto_backup_dir: None, auto_backup_keep: default_keep() }
    }
}

/// The content of a vault.
pub struct VaultData {
    pub entries: Vec<Entry>,
    pub settings: VaultSettings,
}

impl Clone for VaultData {
    fn clone(&self) -> (r: VaultData)
        ensures
            r.entries@.len() == self.entries@.len(),
            forall|i: int|
                0 <= i < r.entries@.len() ==> same_entry(#[trigger] r.entries@[i], self.entries@[i]),
            match self.settings.auto_backup_dir {
                Some(d) => r.settings.auto_backup_dir matches Some(e) && e@ == d@,
                None => r.settings.auto_backup_dir is None,
            },
            r.settings.auto_backup_keep == self.settings.auto_backup_keep,
    {
        let mut entries: Vec<Entry> = Vec::new();
        let mut i: usize = 0;
        while i < self.entries.len()
            invariant
                i <= self.entries@.len(),
                entries@.len() == i,
                forall|j: int|
                    0 <= j < i ==> same_entry(#[trigger] entries@[j], self.entries@[j]),
            decreases self.entries.len() - i,
        {
            entries.push(self.entries[i].clone());
            i += 1;
        }
        VaultData { entries, settings: self.settings.clone() }
    }
}

impl Default for VaultData {
    fn default() -> (r: VaultData)
        ensures
            r.entries@ == Seq::<Entry>::empty(),
            r.settings.auto_backup_dir is None,
            r.settings.auto_backup_keep == 24,
    {
        VaultData { entries: Vec::new(), settings: VaultSettings::default() }
    }
}

} // verus!
