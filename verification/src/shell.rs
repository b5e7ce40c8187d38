//! What the user interface asks for.
//!
//! Passwords do not go to the interface on their own: what it is given of an
//! entry has no password in it, only how strong it is. A password is handed
//! over one at a time, when the user asks for it.

use vstd::prelude::*;
use vstd::utf8::encode_utf8;

use crate::backup::{backup_summary, is_ranking, label_text};
use crate::clock::{is_clock_time, now_millis};
use crate::crypto::{kdf_refusal, KdfParams};
use crate::draws::{draws_without_end, is_draw, is_drawn_id, is_failed_draw};
use crate::error::{message_text, ErrorView};
use crate::generator::{acceptable, generate, is_drawn_password, GenOptions};
use crate::model::{
    is_random_uuid, uuid_text, uuid_value, Category, Entry, EntryId, VaultSettings,
};
use crate::reading::estimable;
use crate::secret::Secret;
use crate::strength::{
    assess, is_assessed_by, is_token_list, numbered, passwords_are_estimated_as_they_are, score_of,
    strength_of, zxcvbn_guesses, Assessment, Strength,
};
use crate::text::{
    ascii_upper, chars_of, is_white_space, parts, text_of, texts, to_uppercase, trimmed,
    trimmed_is_a_part, uppercase,
};
use crate::vault::{
    absent, first_at, search_result, with_entry, without, KeyModel, Vault, VaultModel,
};

verus! {

// ---------------------------------------------------------------------------
// What the interface is given
// ---------------------------------------------------------------------------

/// How strong a password is, for the bar.
pub struct StrengthView {
    /// `weak`, `fair` or `strong`.
    pub level: &'static str,
    pub percent: u8,
    /// The score of `zxcvbn`, from 0 to 4.
    pub score: u8,
}

/// An entry without its password.
pub struct EntryView {
    pub id: String,
    pub name: String,
    pub username: String,
    pub url: String,
    pub notes: String,
    pub category: Category,
    /// The first letter of the name, as a capital.
    pub initial: String,
    pub strength: StrengthView,
}

/// The name of a grade.
pub open spec fn level_text(s: Strength) -> Seq<char> {
    match s {
        Strength::Weak => "weak"@,
        Strength::Fair => "fair"@,
        Strength::Strong => "strong"@,
    }
}

/// The percentage of a grade.
pub open spec fn level_percent(s: Strength) -> u8 {
    match s {
        Strength::Weak => 30,
        Strength::Fair => 60,
        Strength::Strong => 100,
    }
}

/// What the interface shows of an assessment.
pub fn strength_view(a: Assessment) -> (r: StrengthView)
    ensures
        r.level@ == level_text(a.strength),
        r.percent == level_percent(a.strength),
        r.score == a.score,
{
    let level = match a.strength {
        Strength::Weak => "weak",
        Strength::Fair => "fair",
        Strength::Strong => "strong",
    };
    StrengthView { level, percent: a.strength.percent(), score: a.score }
}

/// `v` shows how strong a password is, given the texts that belong to it.
pub open spec fn shows_strength(
    v: StrengthView,
    password: Seq<char>,
    inputs: Seq<Seq<char>>,
) -> bool {
    &&& v.level@ == level_text(strength_of(v.score))
    &&& v.percent == level_percent(strength_of(v.score))
    &&& password.len() == 0 ==> v.score == 0
    &&& password.len() > 0 ==> exists|ts: Seq<Seq<char>>, guesses: u64| #[trigger]
        is_token_list(inputs, ts) && #[trigger] is_assessed_by(password, numbered(ts), guesses)
            && v.score == score_of(guesses)
}

/// How strong a password is, given the texts that belong to it.
pub fn assess_password(password: &str, context: &[&str]) -> (r: StrengthView)
    ensures
        shows_strength(r, password@, parts(context@)),
{
    strength_view(assess(password, context))
}

/// `v` shows an entry: everything but the password, of which it only shows how
/// strong it is.
pub open spec fn is_view_of(v: EntryView, e: Entry) -> bool {
    &&& v.id@ == uuid_text(e.id.value)
    &&& v.name@ == e.name@
    &&& v.username@ == e.username@
    &&& v.url@ == e.url@
    &&& v.notes@ == e.notes@
    &&& v.category == e.category
    &&& v.initial@ == if e.name@.len() == 0 {
        Seq::<char>::empty()
    } else {
        uppercase(e.name@[0])
    }
    &&& shows_strength(v.strength, e.password@, seq![e.name@, e.username@, e.url@])
}

/// What the interface is given of an entry. Its name, user name and address go
/// into the assessment of its password.
pub fn view_of(e: &Entry) -> (r: EntryView)
    ensures
        is_view_of(r, *e),
{
    let inputs = [e.name.as_str(), e.username.as_str(), e.url.as_str()];
    assert(parts(inputs@) =~= seq![e.name@, e.username@, e.url@]);
    let name = chars_of(e.name.as_str());
    let initial = if name.len() == 0 {
        String::new()
    } else {
        to_uppercase(name[0])
    };
    EntryView {
        id: e.id.to_text(),
        name: e.name.clone(),
        username: e.username.clone(),
        url: e.url.clone(),
        notes: e.notes.clone(),
        category: e.category,
        initial,
        strength: assess_password(e.password.expose(), inputs.as_slice()),
    }
}

/// Nothing but the strength in a view depends on the password: the views of two
/// entries that differ in their passwords alone show the same texts, and where
/// the passwords have the same score, the same strength.
pub proof fn view_hides_the_password(a: Entry, b: Entry, v: EntryView, w: EntryView)
    requires
        is_view_of(v, a),
        is_view_of(w, b),
        a == (Entry { password: a.password, ..b }),
    ensures
        v.id@ == w.id@,
        v.name@ == w.name@,
        v.username@ == w.username@,
        v.url@ == w.url@,
        v.notes@ == w.notes@,
        v.category == w.category,
        v.initial@ == w.initial@,
        v.strength.score == w.strength.score ==> v.strength.level@ == w.strength.level@
            && v.strength.percent == w.strength.percent,
{
}

// ---------------------------------------------------------------------------
// What the interface asks
// ---------------------------------------------------------------------------

/// An entry as the user typed it.
pub struct EntryInput {
    /// `None` for a new entry, else the id of the one to change.
    pub id: Option<String>,
    pub name: String,
    pub username: String,
    pub password: String,
    pub url: String,
    pub notes: String,
    pub category: Category,
}

/// What is shown about a vault.
pub struct VaultStats {
    pub count: usize,
    /// The size of the encrypted file.
    pub size_bytes: u64,
    /// Where automatic backups go; `None` where there are none.
    pub auto_backup_dir: Option<String>,
    /// How many there are in that directory.
    pub auto_backup_count: usize,
    /// The moment in the name of the newest.
    pub auto_backup_latest: Option<String>,
    /// How the last one failed.
    pub auto_backup_error: Option<String>,
}

/// An entry holds what was typed.
pub open spec fn holds(e: Entry, input: EntryInput) -> bool {
    &&& e.name@ == input.name@
    &&& e.username@ == input.username@
    &&& e.password@ == input.password@
    &&& e.url@ == input.url@
    &&& e.notes@ == input.notes@
    &&& e.category == input.category
}

/// The name is blank, or there is no password.
pub open spec fn lacks_fields(input: EntryInput) -> bool {
    trimmed(input.name@).len() == 0 || input.password@.len() == 0
}

/// What saving a typed entry at the time `now` gives, with `fresh` as the id of
/// a new entry: the result `r`, and the session `after` for the session
/// `before`.
pub open spec fn entry_saved(
    input: EntryInput,
    fresh: EntryId,
    now: u64,
    before: Option<VaultModel>,
    r: Result<EntryId, String>,
    after: Option<VaultModel>,
) -> bool {
    if lacks_fields(input) {
        (r matches Err(m) && m@ == "名称和密码为必填项"@) && after == before
    } else {
        match (before, input.id) {
            (None, _) => (r matches Err(m) && m@ == "保险库已锁定"@) && after is None,
            (Some(v), None) => r == Ok::<EntryId, String>(fresh) && exists|e: Entry|
                {
                    &&& holds(e, input)
                    &&& e.id == fresh
                    &&& e.created_at == now
                    &&& e.updated_at == now
                    &&& after == Some(VaultModel { entries: #[trigger] v.entries.push(e), ..v })
                },
            (Some(v), Some(t)) => match uuid_value(t@) {
                None => (r matches Err(m) && m@ == "条目 id 非法"@) && after == before,
                Some(value) => if absent(v.entries, EntryId { value }) {
                    (r matches Err(m) && m@ == "找不到条目"@) && after == before
                } else {
                    r == Ok::<EntryId, String>(EntryId { value }) && exists|i: int, e: Entry|
                        {
                            &&& first_at(v.entries, EntryId { value }, i)
                            &&& holds(e, input)
                            &&& e.id == EntryId { value }
                            &&& e.created_at == v.entries[i].created_at
                            &&& e.updated_at == now
                            &&& after == Some(#[trigger] with_entry(v, i, e))
                        }
                },
            },
        }
    }
}

/// Reads the id of an entry.
pub fn parse_id(id: &str) -> (r: Result<EntryId, String>)
    ensures
        match uuid_value(id@) {
            Some(value) => r matches Ok(i) && i == (EntryId { value }),
            None => r matches Err(m) && m@ == "条目 id 非法"@,
        },
{
    match EntryId::parse(id) {
        Some(i) => Ok(i),
        None => Err("条目 id 非法".to_owned()),
    }
}

/// Refuses an entry without a name, be it blank, or without a password.
pub fn check_input(input: &EntryInput) -> (r: Result<(), String>)
    ensures
        if lacks_fields(*input) {
            r matches Err(m) && m@ == "名称和密码为必填项"@
        } else {
            r is Ok
        },
{
    if input.name.as_str().trim().is_empty() || input.password.as_str().is_empty() {
        return Err("名称和密码为必填项".to_owned());
    }
    Ok(())
}

/// Refuses a master password of fewer than eight characters.
pub fn check_master_password(password: &str) -> (r: Result<(), String>)
    ensures
        if password@.len() < 8 {
            r matches Err(m) && m@ == "主口令至少 8 个字符"@
        } else {
            r is Ok
        },
{
    let mut n: usize = 0;
    for _c in it: password.chars()
        invariant
            it.seq() == password@,
            n == if it.index() < 8 {
                it.index() as int
            } else {
                8
            },
    {
        if n < 8 {
            n += 1;
        }
    }
    if n < 8 {
        return Err("主口令至少 8 个字符".to_owned());
    }
    Ok(())
}

/// A text without the line ends at its end.
pub open spec fn without_line_end(s: Seq<char>) -> Seq<char>
    decreases s.len(),
{
    if s.len() > 0 && (s.last() == '\r' || s.last() == '\n') {
        without_line_end(s.drop_last())
    } else {
        s
    }
}

/// The password in a line of input.
pub fn password_of_line(line: &str) -> (r: Secret)
    ensures
        r@ == without_line_end(line@),
{
    let v = chars_of(line);
    let mut n: usize = v.len();
    assert(line@.take(n as int) =~= line@);
    while n > 0 && (v[n - 1] == '\r' || v[n - 1] == '\n')
        invariant
            v@ == line@,
            n <= v@.len(),
            without_line_end(line@.take(n as int)) == without_line_end(line@),
        decreases n,
    {
        assert(line@.take(n as int).drop_last() =~= line@.take(n - 1));
        assert(line@.take(n as int).last() == v@[n - 1]);
        n -= 1;
    }
    assert(v@.subrange(0, n as int) =~= line@.take(n as int));
    Secret::from(text_of(&v, 0, n))
}

/// Refuses to make a vault where there is one.
pub fn check_no_vault(present: bool) -> (r: Result<(), String>)
    ensures
        if present {
            r matches Err(m) && m@ == "此设备上已存在保险库"@
        } else {
            r is Ok
        },
{
    if present {
        return Err("此设备上已存在保险库".to_owned());
    }
    Ok(())
}

/// Makes the vault of this device: the master password is checked first, then
/// whether there is a vault already.
pub fn create_vault(master_password: &str, present: bool) -> (r: Result<Vault, String>)
    ensures
        if master_password@.len() < 8 {
            r matches Err(m) && m@ == "主口令至少 8 个字符"@
        } else if present {
            r matches Err(m) && m@ == "此设备上已存在保险库"@
        } else {
            match r {
                Ok(v) => {
                    &&& v@.is_new()
                    &&& v@.keys.kdf == (KdfParams { m_cost: 65536, t_cost: 3, p_cost: 4 })
                    &&& v@.keys.opens_with(encode_utf8(master_password@))
                    &&& v@.keys.are_drawn()
                },
                Err(m) => {
                    ||| exists|t: Seq<char>|
                        m@ == #[trigger] message_text(ErrorView::Random(t)) && is_failed_draw(
                            ErrorView::Random(t),
                        )
                    ||| encode_utf8(master_password@).len() > 0xffff_ffff && m@ == message_text(
                        ErrorView::BadKdfParams("password is too long"@),
                    )
                },
            }
        },
{
    check_master_password(master_password)?;
    check_no_vault(present)?;
    match Vault::create(master_password) {
        Ok(v) => Ok(v),
        Err(e) => Err(e.message()),
    }
}

/// A password made as asked for.
pub fn generate_password(length: usize, digits: bool, symbols: bool) -> (r: Result<String, String>)
    requires
        length <= isize::MAX,
    ensures
        match r {
            Ok(s) => {
                &&& acceptable(s@, GenOptions { length, digits, symbols })
                &&& is_drawn_password(GenOptions { length, digits, symbols }, s@)
            },
            Err(m) => exists|t: Seq<char>|
                m@ == #[trigger] message_text(ErrorView::Random(t)) && (is_failed_draw(
                    ErrorView::Random(t),
                ) || draws_without_end()),
        },
{
    match generate(GenOptions { length, digits, symbols }) {
        Ok(s) => Ok(s.expose().to_owned()),
        Err(e) => Err(e.message()),
    }
}

// ---------------------------------------------------------------------------
// The session
// ---------------------------------------------------------------------------

/// The unlocked vault, if it is unlocked.
pub struct Session {
    vault: Option<Vault>,
}

impl View for Session {
    type V = Option<VaultModel>;

    closed spec fn view(&self) -> Option<VaultModel> {
        match self.vault {
            Some(v) => Some(v@),
            None => None,
        }
    }
}

impl Session {
    /// A locked session.
    pub fn new() -> (r: Session)
        ensures
            r@ is None,
    {
        Session { vault: None }
    }

    /// Whether the vault is unlocked.
    pub fn is_unlocked(&self) -> (r: bool)
        ensures
            r == (self@ is Some),
    {
        self.vault.is_some()
    }

    /// Takes an opened vault.
    pub fn unlock(&mut self, vault: Vault)
        ensures
            final(self)@ == Some(vault@),
    {
        self.vault = Some(vault);
    }

    /// Lets go of the vault, which wipes its key and its passwords.
    pub fn lock(&mut self)
        ensures
            final(self)@ is None,
    {
        self.vault = None;
    }

    /// The vault; an error where it is locked.
    pub fn vault(&self) -> (r: Result<&Vault, String>)
        ensures
            match self@ {
                Some(v) => r matches Ok(w) && w@ == v,
                None => r matches Err(m) && m@ == "保险库已锁定"@,
            },
    {
        match &self.vault {
            Some(v) => Ok(v),
            None => Err("保险库已锁定".to_owned()),
        }
    }

    /// The vault, to be changed; an error where it is locked.
    pub fn vault_mut(&mut self) -> (r: Result<&mut Vault, String>)
        ensures
            match old(self)@ {
                Some(v) => r matches Ok(w) && w@ == v && final(self)@ == Some(final(w)@),
                None => r matches Err(m) && m@ == "保险库已锁定"@ && final(self)@ is None,
            },
    {
        match &mut self.vault {
            Some(v) => Ok(v),
            None => Err("保险库已锁定".to_owned()),
        }
    }

    /// The entries of a category, or of all of them, that a search for `query`
    /// finds, in their order and without their passwords.
    pub fn list_entries(&self, query: &str, category: Option<Category>) -> (r: Result<
        Vec<EntryView>,
        String,
    >)
        ensures
            match self@ {
                None => r matches Err(m) && m@ == "保险库已锁定"@,
                Some(v) => r matches Ok(list) && list@.len() == search_result(
                    v.entries,
                    query@,
                    category,
                ).len() && forall|i: int|
                    0 <= i < list@.len() ==> is_view_of(
                        #[trigger] list@[i],
                        search_result(v.entries, query@, category)[i],
                    ),
            },
    {
        let vault = self.vault()?;
        let found = vault.search(query, category);
        let mut out: Vec<EntryView> = Vec::new();
        let mut i: usize = 0;
        while i < found.len()
            invariant
                i <= found@.len(),
                out@.len() == i,
                forall|j: int| 0 <= j < i ==> is_view_of(#[trigger] out@[j], *found@[j]),
            decreases found.len() - i,
        {
            out.push(view_of(found[i]));
            i += 1;
        }
        Ok(out)
    }

    /// The entry with an id, without its password.
    pub fn get_entry(&self, id: &str) -> (r: Result<EntryView, String>)
        ensures
            match (uuid_value(id@), self@) {
                (None, _) => r matches Err(m) && m@ == "条目 id 非法"@,
                (Some(_), None) => r matches Err(m) && m@ == "保险库已锁定"@,
                (Some(value), Some(v)) => if absent(v.entries, EntryId { value }) {
                    r matches Err(m) && m@ == "找不到条目"@
                } else {
                    r matches Ok(w) && exists|i: int| #[trigger]
                        first_at(v.entries, EntryId { value }, i) && is_view_of(w, v.entries[i])
                },
            },
    {
        let id = parse_id(id)?;
        let vault = self.vault()?;
        match vault.get(id) {
            Some(e) => Ok(view_of(e)),
            None => Err("找不到条目".to_owned()),
        }
    }

    /// The password of the entry with an id.
    pub fn reveal_password(&self, id: &str) -> (r: Result<String, String>)
        ensures
            match (uuid_value(id@), self@) {
                (None, _) => r matches Err(m) && m@ == "条目 id 非法"@,
                (Some(_), None) => r matches Err(m) && m@ == "保险库已锁定"@,
                (Some(value), Some(v)) => if absent(v.entries, EntryId { value }) {
                    r matches Err(m) && m@ == "找不到条目"@
                } else {
                    r matches Ok(p) && exists|i: int| #[trigger]
                        first_at(v.entries, EntryId { value }, i) && p@ == v.entries[i].password@
                },
            },
    {
        let id = parse_id(id)?;
        let vault = self.vault()?;
        match vault.get(id) {
            Some(e) => Ok(e.password.expose().to_owned()),
            None => Err("找不到条目".to_owned()),
        }
    }

    /// Changes the entry that was typed, or adds it where it has no id, and
    /// gives its id. An entry without a name, be it blank, or without a password
    /// is refused first, also where the vault is locked.
    pub fn save_entry(&mut self, input: &EntryInput) -> (r: Result<EntryId, String>)
        ensures
            exists|fresh: EntryId, now: u64| #[trigger]
                entry_saved(*input, fresh, now, old(self)@, r, final(self)@) && is_clock_time(now)
                    && (input.id is None
                    && r is Ok ==> is_random_uuid(fresh.value) && is_drawn_id(fresh.value)),
    {
        let adds = input.id.is_none() && check_input(input).is_ok() && self.is_unlocked();
        let fresh = if adds {
            EntryId::random()
        } else {
            EntryId { value: 0 }
        };
        self.save_entry_at(input, fresh, now_millis())
    }

    /// Changes the entry that was typed at the time `now`, or adds it under the
    /// id `fresh` where it has no id.
    pub fn save_entry_at(&mut self, input: &EntryInput, fresh: EntryId, now: u64) -> (r: Result<
        EntryId,
        String,
    >)
        ensures
            entry_saved(*input, fresh, now, old(self)@, r, final(self)@),
    {
        check_input(input)?;
        let vault = self.vault_mut()?;
        match &input.id {
            Some(raw) => {
                let id = parse_id(raw.as_str())?;
                let edit = |e: &mut Entry|
                    ensures
                        holds(*final(e), *input),
                        final(e).id == old(e).id,
                        final(e).created_at == old(e).created_at,
                    {
                        e.name = input.name.clone();
                        e.username = input.username.clone();
                        e.password = Secret::from(input.password.clone());
                        e.url = input.url.clone();
                        e.notes = input.notes.clone();
                        e.category = input.category;
                    };
                match vault.update_at(id, edit, now) {
                    Ok(_) => Ok(id),
                    Err(e) => Err(e.message()),
                }
            },
            None => {
                let entry = Entry::made_at(
                    fresh,
                    now,
                    input.name.as_str(),
                    input.username.as_str(),
                    input.password.as_str(),
                    input.category,
                ).with_url(input.url.as_str()).with_notes(input.notes.as_str());
                Ok(vault.add(entry))
            },
        }
    }

    /// Removes the entry with an id.
    pub fn delete_entry(&mut self, id: EntryId) -> (r: Result<(), String>)
        ensures
            match old(self)@ {
                None => r matches Err(m) && m@ == "保险库已锁定"@ && final(self)@ is None,
                Some(v) => if absent(v.entries, id) {
                    r matches Err(m) && m@ == "找不到条目"@ && final(self)@ == Some(v)
                } else {
                    r is Ok && final(self)@ == Some(
                        VaultModel { entries: without(v.entries, id), ..v },
                    )
                },
            },
    {
        let vault = self.vault_mut()?;
        match vault.delete(id) {
            Ok(_) => Ok(()),
            Err(e) => Err(e.message()),
        }
    }

    /// Removes all entries; the settings stay.
    pub fn erase_all(&mut self) -> (r: Result<(), String>)
        ensures
            match old(self)@ {
                None => r matches Err(m) && m@ == "保险库已锁定"@ && final(self)@ is None,
                Some(v) => r is Ok && final(self)@ == Some(
                    VaultModel { entries: Seq::<Entry>::empty(), ..v },
                ),
            },
    {
        let vault = self.vault_mut()?;
        vault.erase_all();
        Ok(())
    }

    /// Changes the master password. One of fewer than eight characters is refused
    /// first, also where the vault is locked. Where it fails, nothing has
    /// changed.
    pub fn change_master_password(&mut self, new_password: &str) -> (r: Result<(), String>)
        ensures
            if new_password@.len() < 8 {
                (r matches Err(m) && m@ == "主口令至少 8 个字符"@) && final(self)@ == old(self)@
            } else {
                match (old(self)@, r) {
                    (None, _) => r matches Err(m) && m@ == "保险库已锁定"@ && final(self)@ is None,
                    (Some(v), Ok(_)) => final(self)@ matches Some(w) && w.keys.opens_with(
                        encode_utf8(new_password@),
                    ) && is_draw(w.keys.salt) && is_draw(w.keys.wrap_nonce) && w == (VaultModel {
                        keys: KeyModel {
                            salt: w.keys.salt,
                            wrap_nonce: w.keys.wrap_nonce,
                            wrapped_key: w.keys.wrapped_key,
                            ..v.keys
                        },
                        ..v
                    }),
                    (Some(v), Err(m)) => final(self)@ == Some(v) && {
                        ||| exists|t: Seq<char>|
                            m@ == #[trigger] message_text(ErrorView::Random(t)) && is_failed_draw(
                                ErrorView::Random(t),
                            )
                        ||| kdf_refusal(encode_utf8(new_password@).len(), 16, v.keys.kdf) matches Some(
                            t,
                        ) && m@ == message_text(ErrorView::BadKdfParams(t))
                    },
                }
            },
    {
        check_master_password(new_password)?;
        let vault = self.vault_mut()?;
        match vault.change_master_password(new_password) {
            Ok(_) => Ok(()),
            Err(e) => Err(e.message()),
        }
    }

    /// Turns automatic backups on, into a directory, or off. Backups that are
    /// there stay: they are the user's.
    pub fn set_auto_backup(&mut self, dir: Option<String>) -> (r: Result<(), String>)
        ensures
            match old(self)@ {
                None => r matches Err(m) && m@ == "保险库已锁定"@ && final(self)@ is None,
                Some(v) => r is Ok && final(self)@ == Some(
                    VaultModel {
                        settings: VaultSettings { auto_backup_dir: dir, ..v.settings },
                        ..v
                    },
                ),
            },
    {
        let vault = self.vault_mut()?;
        vault.settings_mut().auto_backup_dir = dir;
        Ok(())
    }

    /// What is shown about the vault: its entries, the size of its file, and
    /// its automatic backups, of which `names` are the files in their directory
    /// and `error` is how the last one failed.
    pub fn vault_stats(&self, size_bytes: u64, names: &Vec<String>, error: Option<String>) -> (r:
        Result<VaultStats, String>)
        ensures
            match self@ {
                None => r matches Err(m) && m@ == "保险库已锁定"@,
                Some(v) => {
                    &&& r matches Ok(s)
                    &&& s.count == v.entries.len()
                    &&& s.size_bytes == size_bytes
                    &&& s.auto_backup_error == error
                    &&& match v.settings.auto_backup_dir {
                        None => s.auto_backup_dir is None && s.auto_backup_count == 0
                            && s.auto_backup_latest is None,
                        Some(d) => s.auto_backup_dir matches Some(e) && e@ == d@ && exists|
                            rank: Seq<usize>,
                        | #[trigger]
                            is_ranking(texts(names@), rank) && s.auto_backup_count == rank.len()
                                && match s.auto_backup_latest {
                                Some(t) => rank.len() > 0 && t@ == label_text(
                                    texts(names@)[rank.last() as int],
                                ),
                                None => rank.len() == 0,
                            },
                    }
                },
            },
    {
        let vault = self.vault()?;
        let count: usize = vault.len();
        match &vault.settings().auto_backup_dir {
            None => Ok(
                VaultStats {
                    count,
                    size_bytes,
                    auto_backup_dir: None,
                    auto_backup_count: 0,
                    auto_backup_latest: None,
                    auto_backup_error: error,
                },
            ),
            Some(d) => {
                let (n, latest) = backup_summary(names);
                Ok(
                    VaultStats {
                        count,
                        size_bytes,
                        auto_backup_dir: Some(d.clone()),
                        auto_backup_count: n,
                        auto_backup_latest: latest,
                        auto_backup_error: error,
                    },
                )
            },
        }
    }
}

// ---------------------------------------------------------------------------
// What the requests come to
// ---------------------------------------------------------------------------

/// An entry is incomplete where its name is nothing but white space or its password is
/// empty.
pub proof fn incomplete_entries(input: EntryInput)
    ensures
        lacks_fields(input) <==> input.password@.len() == 0 || forall|i: int|
            0 <= i < input.name@.len() ==> is_white_space(#[trigger] input.name@[i]),
{
    let (a, b) = trimmed_is_a_part(input.name@);
    if a < b {
        assert(!is_white_space(input.name@[a]));
    }
}

/// What was saved is found again under the id that was given back, with all that was typed
/// and the time of the change. Every other entry is as it was, a new one stands at the end,
/// and settings, keys and file stay.
pub proof fn saved_entries_are_found(
    input: EntryInput,
    fresh: EntryId,
    now: u64,
    v: VaultModel,
    r: Result<EntryId, String>,
    after: Option<VaultModel>,
) -> (i: int)
    requires
        entry_saved(input, fresh, now, Some(v), r, after),
        r is Ok,
    ensures
        after is Some,
        ({
            let w = after->0;
            let e = w.entries[i];
            let new = input.id is None;
            &&& 0 <= i < w.entries.len()
            &&& e.id == r->Ok_0
            &&& e.name@ == input.name@
            &&& e.username@ == input.username@
            &&& e.password@ == input.password@
            &&& e.url@ == input.url@
            &&& e.notes@ == input.notes@
            &&& e.category == input.category
            &&& e.updated_at == now
            &&& w.settings == v.settings
            &&& w.keys == v.keys
            &&& w.path == v.path
            &&& new ==> r->Ok_0 == fresh && i == v.entries.len() && w.entries.len()
                == v.entries.len() + 1 && e.created_at == now
            &&& !new ==> forall|j: int| 0 <= j < i ==> (#[trigger] v.entries[j]).id != r->Ok_0
            &&& !new ==> w.entries.len() == v.entries.len() && v.entries[i].id == r->Ok_0
                && e.created_at == v.entries[i].created_at && uuid_value(input.id->0@) == Some(
                r->Ok_0.value,
            )
            &&& forall|j: int|
                0 <= j < v.entries.len() && j != i ==> #[trigger] w.entries[j] == v.entries[j]
        }),
{
    match input.id {
        None => v.entries.len() as int,
        Some(t) => {
            let value = uuid_value(t@)->0;
            let (i, e) = choose|i: int, e: Entry|
                {
                    &&& first_at(v.entries, EntryId { value }, i)
                    &&& holds(e, input)
                    &&& e.id == EntryId { value }
                    &&& e.created_at == v.entries[i].created_at
                    &&& e.updated_at == now
                    &&& after == Some(#[trigger] with_entry(v, i, e))
                };
            i
        },
    }
}

/// What is refused changes nothing: an incomplete entry in any case, and then any entry in a
/// locked session, one with an id that is none, and one with an id that no entry has. The
/// message says which. Nothing else is refused.
pub proof fn refused_entries_change_nothing(
    input: EntryInput,
    fresh: EntryId,
    now: u64,
    before: Option<VaultModel>,
    r: Result<EntryId, String>,
    after: Option<VaultModel>,
)
    requires
        entry_saved(input, fresh, now, before, r, after),
    ensures
        r is Err ==> after == before,
        input.password@.len() == 0 ==> r is Err,
        before is None ==> r is Err,
        before is Some && input.id is Some && uuid_value(input.id->0@) is None ==> r is Err,
        ({
            let complete = input.password@.len() > 0 && exists|i: int|
                0 <= i < input.name@.len() && !is_white_space(#[trigger] input.name@[i]);
            let parsed = uuid_value(input.id->0@);
            let known = parsed is Some && exists|i: int|
                0 <= i < before->0.entries.len() && (#[trigger] before->0.entries[i]).id.value
                    == parsed->0;
            &&& r is Ok <==> complete && before is Some && (input.id is None || known)
            &&& !complete ==> r->Err_0@ == "名称和密码为必填项"@
            &&& complete && before is None ==> r->Err_0@ == "保险库已锁定"@
            &&& complete && before is Some && input.id is Some && parsed is None ==> r->Err_0@
                == "条目 id 非法"@
            &&& complete && before is Some && input.id is Some && parsed is Some && !known
                ==> r->Err_0@ == "找不到条目"@
        }),
{
    incomplete_entries(input);
    if before is Some && input.id is Some {
        let id = EntryId { value: uuid_value(input.id->0@)->0 };
        let entries = before->0.entries;
        if absent(entries, id) {
            assert forall|i: int| 0 <= i < entries.len() implies (#[trigger] entries[i]).id.value
                != id.value by {
                assert(entries[i].id != id);
            }
        }
    }
}

/// What is shown of a strength: up to a score of 1 `weak` and 30, up to 3 `fair` and 60, and
/// above `strong` and 100. An empty password has the score 0.
pub proof fn strengths_are_shown(v: StrengthView, password: Seq<char>, inputs: Seq<Seq<char>>)
    requires
        shows_strength(v, password, inputs),
    ensures
        v.score <= 1 ==> v.level@ == "weak"@ && v.percent == 30,
        v.score == 2 || v.score == 3 ==> v.level@ == "fair"@ && v.percent == 60,
        v.score >= 4 ==> v.level@ == "strong"@ && v.percent == 100,
        v.score <= 4,
        password.len() == 0 ==> v.score == 0,
{
}

/// The strength that is shown of a password is that of an estimate of the password, as it
/// is, with the tokens of the texts that belong to it.
pub proof fn strengths_are_estimated(
    v: StrengthView,
    password: Seq<char>,
    inputs: Seq<Seq<char>>,
) -> (r: (Seq<Seq<char>>, u64))
    requires
        shows_strength(v, password, inputs),
        password.len() > 0,
    ensures
        is_token_list(inputs, r.0),
        v.score == score_of(r.1),
        is_assessed_by(password, numbered(r.0), r.1),
        estimable(password, numbered(r.0)) ==> zxcvbn_guesses(password, numbered(r.0)).contains(
            r.1,
        ),
{
    let (ts, g) = choose|ts: Seq<Seq<char>>, g: u64| #[trigger]
        is_token_list(inputs, ts) && #[trigger] is_assessed_by(password, numbered(ts), g)
            && v.score == score_of(g);
    (ts, g)
}

/// What a view shows of an entry: all its texts as they are, its category, and the first
/// letter of its name as a capital.
pub proof fn views_show_the_entry(v: EntryView, e: Entry)
    requires
        is_view_of(v, e),
    ensures
        v.name@ == e.name@,
        v.username@ == e.username@,
        v.url@ == e.url@,
        v.notes@ == e.notes@,
        v.category == e.category,
        v.id@ == uuid_text(e.id.value),
        e.name@.len() == 0 ==> v.initial@.len() == 0,
        e.name@.len() > 0 ==> v.initial@ == uppercase(e.name@[0]),
        e.name@.len() > 0 && (e.name@[0] as int) < 128 ==> v.initial@ == seq![
            ascii_upper(e.name@[0]),
        ],
        v.strength.level@ == if v.strength.score <= 1 {
            "weak"@
        } else if v.strength.score <= 3 {
            "fair"@
        } else {
            "strong"@
        },
        v.strength.percent == if v.strength.score <= 1 {
            30
        } else if v.strength.score <= 3 {
            60
        } else {
            100int
        },
        e.password@.len() == 0 ==> v.strength.score == 0,
{
}

/// The strength that is shown of an entry is that of its password, with the tokens of its
/// name, user name and address; of a short password, that of an estimate of the password
/// itself.
pub proof fn views_show_the_strength(v: EntryView, e: Entry) -> (r: (Seq<Seq<char>>, u64))
    requires
        is_view_of(v, e),
        e.password@.len() > 0,
    ensures
        is_token_list(seq![e.name@, e.username@, e.url@], r.0),
        is_assessed_by(e.password@, numbered(r.0), r.1),
        e.password@.len() <= 12 ==> zxcvbn_guesses(e.password@, numbered(r.0)).contains(r.1),
        v.strength.score == score_of(r.1),
{
    let (ts, g) = strengths_are_estimated(
        v.strength,
        e.password@,
        seq![e.name@, e.username@, e.url@],
    );
    if e.password@.len() <= 12 {
        passwords_are_estimated_as_they_are(e.password@, numbered(ts), g);
    }
    (ts, g)
}

/// The password of a line is the line up to its line ends: what is left out is nothing but
/// line ends, and what stays does not end with one.
pub proof fn lines_lose_their_ends(s: Seq<char>)
    ensures
        ({
            let p = without_line_end(s);
            &&& p.len() <= s.len()
            &&& p == s.take(p.len() as int)
            &&& forall|i: int|
                p.len() <= i < s.len() ==> (#[trigger] s[i]) == '\r' || s[i] == '\n'
            &&& p.len() > 0 ==> p.last() != '\r' && p.last() != '\n'
        }),
    decreases s.len(),
{
    if s.len() > 0 && (s.last() == '\r' || s.last() == '\n') {
        let t = s.drop_last();
        lines_lose_their_ends(t);
        let p = without_line_end(s);
        assert(t.take(p.len() as int) =~= s.take(p.len() as int));
        assert forall|i: int| p.len() <= i < s.len() implies (#[trigger] s[i]) == '\r' || s[i]
            == '\n' by {
            if i < t.len() {
                assert(t[i] == s[i]);
            }
        }
    } else {
        assert(s.take(s.len() as int) =~= s);
    }
}

} // verus!
