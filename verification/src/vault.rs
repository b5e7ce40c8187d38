//! The vault: sealed on disk, open in memory.
//!
//! ```text
//! master password --Argon2id(salt, costs)--> key-encryption key
//!                                              |
//!         vault key (32 random bytes) --sealed under it--> wrapped key
//!                                              |
//!             content --sealed under the vault key--> ciphertext
//! ```
//!
//! The vault key stands between the password and the content so that a new
//! password means wrapping 32 bytes anew and nothing else, and so that saving
//! needs no password.
//!
//! The content travels as bytes: [`Vault::to_bytes`] seals what it is handed
//! and [`Vault::from_bytes`] hands back what was sealed. Turning a
//! [`VaultData`] into bytes and back is up to the caller.

use vstd::prelude::*;
use vstd::slice::slice_subrange;
use vstd::utf8::{encode_utf8, is_ascii_chars};

use crate::clock::{is_clock_time, now_millis};
use crate::crypto::{
    self, argon2id, derive_kek, kdf_outcome, kdf_refusal, open_outcome, random_bytes, sealable, xchacha_open,
    xchacha_seal, KdfParams,
};
use crate::draws::{is_draw, is_failed_draw};
use crate::error::{outcome, Error, ErrorView};
use crate::format::{
    array_of, build_header, build_prefix, fields_have_their_places, header_bytes, header_determines_its_bytes, header_fields,
    header_outcome, header_reads_back, headers_are_refused_for_a_reason, parse_header, prefix_bytes, prefix_ends_with_the_salt,
    prefix_has_its_length, push_bytes, Header, HeaderView, HEADER_LEN, PREFIX_LEN,
};
use crate::model::{
    any_script_is_found, every_part_is_found, query_finds, Category, Entry, EntryId, VaultData,
    VaultSettings,
};
use crate::secret::{key_has_its_length, wipe_bytes, Key32};
use crate::text::{ascii_lower, is_white_space, trimmed, trimmed_is_a_part};

verus! {

/// A path in the file system.
#[verifier::external_type_specification]
#[verifier::external_body]
pub struct ExPathBuf(std::path::PathBuf);

// ---------------------------------------------------------------------------
// Keys and files
// ---------------------------------------------------------------------------

/// The vault key and how it is wrapped.
#[verifier::ext_equal]
pub struct KeyModel {
    pub key: Seq<u8>,
    pub kdf: KdfParams,
    pub salt: Seq<u8>,
    pub wrap_nonce: Seq<u8>,
    pub wrapped_key: Seq<u8>,
}

impl KeyModel {
    /// Every part has its length.
    pub open spec fn valid(self) -> bool {
        &&& self.key.len() == 32
        &&& self.salt.len() == 16
        &&& self.wrap_nonce.len() == 24
        &&& self.wrapped_key.len() == 48
    }

    /// Vault key, salt and nonce were drawn at random, each for itself.
    pub open spec fn are_drawn(self) -> bool {
        &&& is_draw(self.key)
        &&& is_draw(self.salt)
        &&& is_draw(self.wrap_nonce)
    }

    /// The header of a file made with these keys.
    pub open spec fn header(self, data_nonce: Seq<u8>) -> HeaderView {
        HeaderView {
            kdf: self.kdf,
            salt: self.salt,
            wrap_nonce: self.wrap_nonce,
            wrapped_key: self.wrapped_key,
            data_nonce,
        }
    }

    /// The password, as bytes, unwraps the vault key.
    pub open spec fn opens_with(self, password: Seq<u8>) -> bool {
        kdf_outcome(password, self.salt, self.kdf) matches Ok(kek) && xchacha_open(
            kek,
            self.wrap_nonce,
            self.wrapped_key,
            prefix_bytes(self.kdf, self.salt),
        ) == Some(self.key)
    }
}

/// A vault file: the header, then the sealed content.
pub open spec fn file_bytes(keys: KeyModel, data_nonce: Seq<u8>, plaintext: Seq<u8>) -> Seq<u8> {
    let header = header_bytes(keys.header(data_nonce));
    header + xchacha_seal(keys.key, data_nonce, plaintext, header)
}

/// What an opened file holds.
#[verifier::ext_equal]
pub struct OpenedModel {
    pub plaintext: Seq<u8>,
    pub keys: KeyModel,
    pub data_nonce: Seq<u8>,
}

/// What unwrapping the vault key of a file gives: the prefix is the associated
/// data. Costs that the key derivation refuses are altered costs, and answered
/// as any alteration is.
pub open spec fn unwrap_outcome(bytes: Seq<u8>, password: Seq<u8>) -> Result<Seq<u8>, ErrorView> {
    let h = header_fields(bytes);
    match kdf_outcome(password, h.salt, h.kdf) {
        Err(_) => Err(ErrorView::Unauthenticated),
        Ok(kek) => match open_outcome(
            kek,
            h.wrap_nonce,
            h.wrapped_key,
            bytes.take(PREFIX_LEN as int),
        ) {
            Err(e) => Err(e),
            Ok(key) => if key.len() == 32 {
                Ok(key)
            } else {
                Err(ErrorView::Unauthenticated)
            },
        },
    }
}

/// What opening a file gives: the header is read, the vault key is unwrapped,
/// and the content is opened with the header as associated data.
pub open spec fn file_outcome(bytes: Seq<u8>, password: Seq<u8>) -> Result<OpenedModel, ErrorView> {
    match header_outcome(bytes) {
        Err(e) => Err(e),
        Ok(h) => match unwrap_outcome(bytes, password) {
            Err(e) => Err(e),
            Ok(key) => match open_outcome(
                key,
                h.data_nonce,
                bytes.skip(HEADER_LEN as int),
                bytes.take(HEADER_LEN as int),
            ) {
                Err(e) => Err(e),
                Ok(plaintext) => Ok(
                    OpenedModel {
                        plaintext,
                        keys: KeyModel {
                            key,
                            kdf: h.kdf,
                            salt: h.salt,
                            wrap_nonce: h.wrap_nonce,
                            wrapped_key: h.wrapped_key,
                        },
                        data_nonce: h.data_nonce,
                    },
                ),
            },
        },
    }
}

/// A wrong password, an altered file and altered costs are answered alike: where
/// the header reads, opening a file succeeds or says
/// [`Error::Unauthenticated`], and nothing else.
pub proof fn refusals_do_not_tell_why(bytes: Seq<u8>, password: Seq<u8>)
    requires
        header_outcome(bytes) is Ok,
    ensures
        file_outcome(bytes, password) is Ok || file_outcome(bytes, password) == Err::<
            OpenedModel,
            ErrorView,
        >(ErrorView::Unauthenticated),
{
}

/// A file whose content opens under the vault key opens under every password
/// that unwraps that key, whatever becomes of the vault that it was written of.
pub proof fn sealed_file_opens(
    keys: KeyModel,
    data_nonce: Seq<u8>,
    plaintext: Seq<u8>,
    password: Seq<u8>,
)
    requires
        keys.valid(),
        data_nonce.len() == 24,
        keys.opens_with(password),
        open_outcome(
            keys.key,
            data_nonce,
            xchacha_seal(keys.key, data_nonce, plaintext, header_bytes(keys.header(data_nonce))),
            header_bytes(keys.header(data_nonce)),
        ) == Ok::<Seq<u8>, ErrorView>(plaintext),
    ensures
        file_outcome(file_bytes(keys, data_nonce, plaintext), password) == Ok::<
            OpenedModel,
            ErrorView,
        >(OpenedModel { plaintext, keys, data_nonce }),
{
    let h = keys.header(data_nonce);
    header_reads_back(h, xchacha_seal(keys.key, data_nonce, plaintext, header_bytes(h)));
}

/// All files of a vault that was not given another password begin alike: with
/// its costs, its salt and its wrapped key, up to the nonce of the content, which
/// follows. With different nonces they differ.
pub proof fn files_of_a_vault_begin_alike(
    keys: KeyModel,
    nonce1: Seq<u8>,
    plaintext1: Seq<u8>,
    nonce2: Seq<u8>,
    plaintext2: Seq<u8>,
)
    requires
        keys.valid(),
        nonce1.len() == 24,
        nonce2.len() == 24,
    ensures
        file_bytes(keys, nonce1, plaintext1).take(108) == file_bytes(keys, nonce2, plaintext2).take(
            108,
        ),
        file_bytes(keys, nonce1, plaintext1).subrange(108, 132) == nonce1,
        nonce1 != nonce2 ==> file_bytes(keys, nonce1, plaintext1) != file_bytes(
            keys,
            nonce2,
            plaintext2,
        ),
{
    prefix_has_its_length(keys.kdf, keys.salt);
    let head = prefix_bytes(keys.kdf, keys.salt) + keys.wrap_nonce + keys.wrapped_key;
    assert(file_bytes(keys, nonce1, plaintext1).take(108) =~= head);
    assert(file_bytes(keys, nonce2, plaintext2).take(108) =~= head);
    assert(file_bytes(keys, nonce1, plaintext1).subrange(108, 132) =~= nonce1);
    assert(file_bytes(keys, nonce2, plaintext2).subrange(108, 132) =~= nonce2);
}

/// A file says with which costs and which salt its key is derived. So the files
/// before and after a change of the master password have the same costs, and
/// with a new salt they differ in it.
pub proof fn rewrapped_files_differ_in_the_salt(
    keys: KeyModel,
    rewrapped: KeyModel,
    nonce1: Seq<u8>,
    plaintext1: Seq<u8>,
    nonce2: Seq<u8>,
    plaintext2: Seq<u8>,
)
    requires
        keys.valid(),
        rewrapped.valid(),
        rewrapped.kdf == keys.kdf,
    ensures
        file_bytes(rewrapped, nonce2, plaintext2).take(20) == file_bytes(
            keys,
            nonce1,
            plaintext1,
        ).take(20),
        file_bytes(keys, nonce1, plaintext1).subrange(20, 36) == keys.salt,
        file_bytes(rewrapped, nonce2, plaintext2).subrange(20, 36) == rewrapped.salt,
{
    prefix_has_its_length(keys.kdf, keys.salt);
    prefix_has_its_length(keys.kdf, rewrapped.salt);
    prefix_ends_with_the_salt(keys.kdf, keys.salt, rewrapped.salt);
    prefix_ends_with_the_salt(keys.kdf, rewrapped.salt, keys.salt);
    let costs = prefix_bytes(keys.kdf, keys.salt).take(20);
    assert(file_bytes(keys, nonce1, plaintext1).take(20) =~= costs);
    assert(file_bytes(rewrapped, nonce2, plaintext2).take(20) =~= prefix_bytes(
        keys.kdf,
        rewrapped.salt,
    ).take(20));
    assert(file_bytes(keys, nonce1, plaintext1).subrange(20, 36) =~= prefix_bytes(
        keys.kdf,
        keys.salt,
    ).subrange(20, 36));
    assert(file_bytes(rewrapped, nonce2, plaintext2).subrange(20, 36) =~= prefix_bytes(
        keys.kdf,
        rewrapped.salt,
    ).subrange(20, 36));
}

/// No alteration of a file goes unnoticed, be it of the header or of the content,
/// as long as nothing is forged in it: what is in the altered file opens only
/// where it is what the vault sealed. Then the altered file does not open,
/// whatever the password, and where its header still reads the answer is the one
/// to a wrong password.
///
/// `kek` is the key that wraps the vault key. That the cipher lets nothing be
/// forged is its promise, and no fact about its code.
pub proof fn altered_file_is_refused(
    keys: KeyModel,
    kek: Seq<u8>,
    data_nonce: Seq<u8>,
    plaintext: Seq<u8>,
    altered: Seq<u8>,
    password: Seq<u8>,
)
    requires
        keys.valid(),
        data_nonce.len() == 24,
        xchacha_open(kek, keys.wrap_nonce, keys.wrapped_key, prefix_bytes(keys.kdf, keys.salt))
            == Some(keys.key),
        forall|k: Seq<u8>|
            (#[trigger] xchacha_open(
                k,
                header_fields(altered).wrap_nonce,
                header_fields(altered).wrapped_key,
                altered.take(PREFIX_LEN as int),
            )) is Some ==> {
                &&& k == kek
                &&& header_fields(altered).wrap_nonce == keys.wrap_nonce
                &&& header_fields(altered).wrapped_key == keys.wrapped_key
                &&& altered.take(PREFIX_LEN as int) == prefix_bytes(keys.kdf, keys.salt)
            },
        xchacha_open(
            keys.key,
            header_fields(altered).data_nonce,
            altered.skip(HEADER_LEN as int),
            altered.take(HEADER_LEN as int),
        ) is Some ==> {
            let header = header_bytes(keys.header(data_nonce));
            &&& altered.take(HEADER_LEN as int) == header
            &&& altered.skip(HEADER_LEN as int) == xchacha_seal(
                keys.key,
                data_nonce,
                plaintext,
                header,
            )
        },
        altered != file_bytes(keys, data_nonce, plaintext),
    ensures
        file_outcome(altered, password) is Err,
        header_outcome(altered) is Ok ==> file_outcome(altered, password) == Err::<
            OpenedModel,
            ErrorView,
        >(ErrorView::Unauthenticated),
{
    if file_outcome(altered, password) is Ok {
        let h = header_fields(altered);
        let k = kdf_outcome(password, h.salt, h.kdf)->Ok_0;
        assert(xchacha_open(k, h.wrap_nonce, h.wrapped_key, altered.take(PREFIX_LEN as int)) is Some);
        assert(unwrap_outcome(altered, password)->Ok_0 == keys.key);
        assert(altered =~= altered.take(HEADER_LEN as int) + altered.skip(HEADER_LEN as int));
    }
    if header_outcome(altered) is Ok {
        refusals_do_not_tell_why(altered, password);
    }
}

/// A password whose key does not unwrap the vault key does not open the file,
/// nor does one from which no key is derived.
pub proof fn wrong_password_is_refused(
    keys: KeyModel,
    data_nonce: Seq<u8>,
    plaintext: Seq<u8>,
    password: Seq<u8>,
)
    requires
        keys.valid(),
        data_nonce.len() == 24,
        kdf_outcome(password, keys.salt, keys.kdf) matches Ok(k) ==> xchacha_open(
            k,
            keys.wrap_nonce,
            keys.wrapped_key,
            prefix_bytes(keys.kdf, keys.salt),
        ) is None,
    ensures
        file_outcome(file_bytes(keys, data_nonce, plaintext), password) == Err::<
            OpenedModel,
            ErrorView,
        >(ErrorView::Unauthenticated),
{
    let header = keys.header(data_nonce);
    header_reads_back(
        header,
        xchacha_seal(keys.key, data_nonce, plaintext, header_bytes(header)),
    );
    prefix_has_its_length(keys.kdf, keys.salt);
}

/// Which passwords open a vault: those from whose bytes, as they are, Argon2id
/// derives with the vault's salt and costs the key that unwraps the vault key.
pub proof fn passwords_are_taken_as_they_are(keys: KeyModel, password: Seq<u8>)
    requires
        keys.valid(),
    ensures
        keys.opens_with(password) <==> {
            &&& accepted(keys.kdf, password.len())
            &&& xchacha_open(
                argon2id(
                    password,
                    keys.salt,
                    keys.kdf.m_cost,
                    keys.kdf.t_cost,
                    keys.kdf.p_cost,
                ),
                keys.wrap_nonce,
                keys.wrapped_key,
                prefix_bytes(keys.kdf, keys.salt),
            ) == Some(keys.key)
        },
{
}

/// The costs that Argon2id accepts for a salt of 16 bytes.
pub open spec fn accepted(kdf: KdfParams, password_len: nat) -> bool {
    &&& 8 <= kdf.m_cost
    &&& 8 * kdf.p_cost <= kdf.m_cost
    &&& 1 <= kdf.t_cost
    &&& 1 <= kdf.p_cost <= 0xff_ffff
    &&& password_len <= 0xffff_ffff
}

/// What opening a file comes to. A file opens with a password where Argon2id derives
/// from the bytes of the password, with the salt and the costs in the file, a key
/// that unwraps 32 bytes from the wrapped key, with the first 36 bytes as associated
/// data; and where those 32 bytes open what stands behind the header, with the whole
/// header as associated data. What it opens to is that content, under those keys.
pub proof fn opening_takes_both_keys(b: Seq<u8>, password: Seq<u8>)
    requires
        header_outcome(b) is Ok,
    ensures
        ({
            let m = (b[8] + 0x100 * b[9] + 0x1_0000 * b[10] + 0x100_0000 * b[11]) as u32;
            let t = (b[12] + 0x100 * b[13] + 0x1_0000 * b[14] + 0x100_0000 * b[15]) as u32;
            let p = (b[16] + 0x100 * b[17] + 0x1_0000 * b[18] + 0x100_0000 * b[19]) as u32;
            let kek = argon2id(password, b.subrange(20, 36), m, t, p);
            let key = xchacha_open(kek, b.subrange(36, 60), b.subrange(60, 108), b.subrange(0, 36));
            let content = xchacha_open(
                key->0,
                b.subrange(108, 132),
                b.subrange(132, b.len() as int),
                b.subrange(0, 132),
            );
            &&& file_outcome(b, password) is Ok <==> {
                &&& accepted(KdfParams { m_cost: m, t_cost: t, p_cost: p }, password.len())
                &&& key is Some && key->0.len() == 32
                &&& 148 <= b.len() <= 148 + 0xffff_fffe * 64
                &&& content is Some
            }
            &&& file_outcome(b, password) matches Ok(o) ==> {
                &&& o.plaintext == content->0
                &&& o.keys.key == key->0
                &&& o.keys.kdf == (KdfParams { m_cost: m, t_cost: t, p_cost: p })
                &&& o.keys.salt == b.subrange(20, 36)
                &&& o.keys.wrap_nonce == b.subrange(36, 60)
                &&& o.keys.wrapped_key == b.subrange(60, 108)
                &&& o.data_nonce == b.subrange(108, 132)
            }
        }),
{
    headers_are_refused_for_a_reason(b);
    assert(b.subrange(0, 36) =~= b.take(36));
    assert(b.subrange(0, 132) =~= b.take(132));
    assert(b.subrange(132, b.len() as int) =~= b.skip(132));
}

/// What a file is made of: the costs, the salt and the wrapped key of the vault, the
/// nonce, and the content sealed under the vault key, with all that stands before it
/// as associated data.
pub proof fn files_are_sealed_under_the_vault_key(
    keys: KeyModel,
    data_nonce: Seq<u8>,
    plaintext: Seq<u8>,
)
    requires
        keys.valid(),
        data_nonce.len() == 24,
    ensures
        ({
            let b = file_bytes(keys, data_nonce, plaintext);
            &&& header_outcome(b) is Ok
            &&& keys.kdf.m_cost == b[8] + 0x100 * b[9] + 0x1_0000 * b[10] + 0x100_0000 * b[11]
            &&& keys.kdf.t_cost == b[12] + 0x100 * b[13] + 0x1_0000 * b[14] + 0x100_0000 * b[15]
            &&& keys.kdf.p_cost == b[16] + 0x100 * b[17] + 0x1_0000 * b[18] + 0x100_0000 * b[19]
            &&& b.subrange(20, 36) == keys.salt
            &&& b.subrange(36, 60) == keys.wrap_nonce
            &&& b.subrange(60, 108) == keys.wrapped_key
            &&& b.subrange(108, 132) == data_nonce
            &&& b.skip(132) == xchacha_seal(keys.key, data_nonce, plaintext, b.take(132))
        }),
{
    let h = keys.header(data_nonce);
    let sealed = xchacha_seal(keys.key, data_nonce, plaintext, header_bytes(h));
    fields_have_their_places(h, sealed);
    header_reads_back(h, sealed);
}

// ---------------------------------------------------------------------------
// Entries
// ---------------------------------------------------------------------------

/// `i` is the first position of an entry with the id.
pub open spec fn first_at(entries: Seq<Entry>, id: EntryId, i: int) -> bool {
    &&& 0 <= i < entries.len()
    &&& entries[i].id == id
    &&& forall|j: int| 0 <= j < i ==> (#[trigger] entries[j]).id != id
}

/// No entry has the id.
pub open spec fn absent(entries: Seq<Entry>, id: EntryId) -> bool {
    forall|i: int| 0 <= i < entries.len() ==> (#[trigger] entries[i]).id != id
}

/// A search in a category, or in all of them, shows the entry.
pub open spec fn shown(e: Entry, query: Seq<char>, category: Option<Category>) -> bool {
    &&& category matches Some(c) ==> e.category == c
    &&& query_finds(e.name@, e.username@, query)
}

/// The entries that a search shows, in their order.
pub open spec fn search_result(
    entries: Seq<Entry>,
    query: Seq<char>,
    category: Option<Category>,
) -> Seq<Entry> {
    entries.filter(|e: Entry| shown(e, query, category))
}

/// The entries without those of the id, in their order.
pub open spec fn without(entries: Seq<Entry>, id: EntryId) -> Seq<Entry> {
    entries.filter(|e: Entry| e.id != id)
}

/// Filtering takes one more element: it is kept or it is not.
proof fn filter_step(entries: Seq<Entry>, keep: spec_fn(Entry) -> bool, n: int)
    requires
        0 <= n < entries.len(),
    ensures
        entries.take(n + 1).filter(keep) == if keep(entries[n]) {
            entries.take(n).filter(keep).push(entries[n])
        } else {
            entries.take(n).filter(keep)
        },
{
    reveal(Seq::filter);
    assert(entries.take(n + 1).drop_last() =~= entries.take(n));
}

/// Removing an id removes every entry of the id and no other; where no entry
/// has it, nothing changes.
pub proof fn without_removes_only_the_id(entries: Seq<Entry>, id: EntryId)
    ensures
        absent(without(entries, id), id),
        forall|e: Entry| e.id != id ==> (entries.contains(e) <==> #[trigger] without(
            entries,
            id,
        ).contains(e)),
        absent(entries, id) ==> without(entries, id) == entries,
        !absent(entries, id) ==> without(entries, id).len() < entries.len(),
    decreases entries.len(),
{
    reveal(Seq::filter);
    let keep = |e: Entry| e.id != id;
    assert forall|i: int| 0 <= i < without(entries, id).len() implies (#[trigger] without(
        entries,
        id,
    )[i]).id != id by {
        entries.lemma_filter_pred(keep, i);
    }
    assert forall|e: Entry| e.id != id implies (entries.contains(e) <==> #[trigger] without(
        entries,
        id,
    ).contains(e)) by {
        if entries.contains(e) {
            let i = choose|i: int| 0 <= i < entries.len() && entries[i] == e;
            entries.lemma_filter_contains(keep, i);
        }
        if without(entries, id).contains(e) {
            entries.lemma_filter_contains_rev(keep, e);
        }
    }
    if entries.len() > 0 {
        let init = entries.drop_last();
        without_removes_only_the_id(init, id);
        if absent(entries, id) {
            assert(without(entries, id) =~= entries);
        } else if entries.last().id != id {
            assert(!absent(init, id)) by {
                let i = choose|i: int| 0 <= i < entries.len() && (#[trigger] entries[i]).id == id;
                assert(init[i].id == id);
            }
        } else {
            init.lemma_filter_len(keep);
        }
    }
}

/// What was added is found again under its id, where no entry had it before.
pub proof fn added_entry_is_found(entries: Seq<Entry>, e: Entry)
    requires
        absent(entries, e.id),
    ensures
        first_at(entries.push(e), e.id, entries.len() as int),
        forall|i: int| #[trigger]
            first_at(entries.push(e), e.id, i) ==> entries.push(e)[i] == e,
        forall|id: EntryId, i: int| #[trigger]
            first_at(entries, id, i) ==> first_at(entries.push(e), id, i),
{
    assert forall|id: EntryId, i: int| #[trigger] first_at(entries, id, i) implies first_at(
        entries.push(e),
        id,
        i,
    ) by {
        assert forall|j: int| 0 <= j < i implies (#[trigger] entries.push(e)[j]).id != id by {
            assert(entries[j].id != id);
        }
    }
    assert forall|j: int| 0 <= j < entries.len() implies (#[trigger] entries.push(e)[j]).id
        != e.id by {
        assert(entries[j].id != e.id);
    }
    assert forall|i: int| #[trigger] first_at(entries.push(e), e.id, i) implies entries.push(e)[i]
        == e by {
        if i < entries.len() {
            assert(entries[i].id != e.id);
        }
    }
}

/// What was changed is found again under its id, and every other entry under
/// its own.
pub proof fn changed_entry_is_found(entries: Seq<Entry>, i: int, e: Entry)
    requires
        first_at(entries, e.id, i),
    ensures
        first_at(entries.update(i, e), e.id, i),
        forall|id: EntryId, j: int|
            id != e.id && #[trigger] first_at(entries, id, j) ==> first_at(
                entries.update(i, e),
                id,
                j,
            ) && entries.update(i, e)[j] == entries[j],
{
    let now = entries.update(i, e);
    assert forall|id: EntryId, j: int| id != e.id && #[trigger] first_at(entries, id, j) implies first_at(
        now,
        id,
        j,
    ) && now[j] == entries[j] by {
        assert forall|k: int| 0 <= k < j implies (#[trigger] now[k]).id != id by {
            assert(entries[k].id != id);
        }
    }
    assert forall|k: int| 0 <= k < i implies (#[trigger] now[k]).id != e.id by {
        assert(entries[k].id != e.id);
    }
}

/// Removing an id does not change what is found under another.
pub proof fn removal_keeps_the_others(entries: Seq<Entry>, gone: EntryId, id: EntryId, i: int)
    requires
        gone != id,
        first_at(entries, id, i),
    ensures
        exists|j: int| #[trigger]
            first_at(without(entries, gone), id, j) && without(entries, gone)[j] == entries[i],
    decreases entries.len(),
{
    reveal(Seq::filter);
    let init = entries.drop_last();
    let rest = without(init, gone);
    if i < init.len() {
        assert(first_at(init, id, i)) by {
            assert forall|k: int| 0 <= k < i implies (#[trigger] init[k]).id != id by {
                assert(entries[k].id != id);
            }
        }
        removal_keeps_the_others(init, gone, id, i);
        let j = choose|j: int| #[trigger] first_at(rest, id, j) && rest[j] == init[i];
        assert(first_at(without(entries, gone), id, j)) by {
            assert forall|k: int| 0 <= k < j implies (#[trigger] without(entries, gone)[k]).id
                != id by {
                assert(rest[k].id != id);
            }
        }
    } else {
        let j = rest.len() as int;
        assert(without(entries, gone) == rest.push(entries[i]));
        assert forall|k: int| 0 <= k < j implies (#[trigger] without(entries, gone)[k]).id != id by {
            assert(rest.contains(rest[k]));
            init.lemma_filter_contains_rev(|e: Entry| e.id != gone, rest[k]);
            let l = choose|l: int| 0 <= l < init.len() && init[l] == rest[k];
            assert(entries[l].id != id);
        }
        assert(first_at(without(entries, gone), id, j));
    }
}

/// A search goes entry by entry and keeps their order.
pub proof fn search_goes_entry_by_entry(
    a: Seq<Entry>,
    b: Seq<Entry>,
    query: Seq<char>,
    category: Option<Category>,
)
    ensures
        search_result(a + b, query, category) == search_result(a, query, category) + search_result(
            b,
            query,
            category,
        ),
{
    Seq::filter_distributes_over_add(a, b, |e: Entry| shown(e, query, category));
}

/// A search shows an entry as it is, where it is of the category that is asked for, or
/// none is, and where its name or user name is found; and otherwise not at all.
pub proof fn search_of_one_entry(e: Entry, query: Seq<char>, category: Option<Category>)
    ensures
        search_result(seq![e], query, category) == if (category == None::<Category> || category
            == Some(e.category)) && query_finds(e.name@, e.username@, query) {
            seq![e]
        } else {
            Seq::<Entry>::empty()
        },
{
    reveal(Seq::filter);
    let s = seq![e];
    assert(s.drop_last() =~= Seq::<Entry>::empty());
    assert(s.drop_last().filter(|e: Entry| shown(e, query, category)) =~= Seq::<Entry>::empty());
    assert(search_result(s, query, category) =~= if shown(e, query, category) {
        seq![e]
    } else {
        Seq::<Entry>::empty()
    });
}

/// Without a query and a category a search shows all entries in their order.
pub proof fn search_for_nothing_shows_all(entries: Seq<Entry>, query: Seq<char>)
    requires
        forall|i: int| 0 <= i < query.len() ==> is_white_space(#[trigger] query[i]),
    ensures
        search_result(entries, query, None) == entries,
    decreases entries.len(),
{
    let (u, v) = trimmed_is_a_part(query);
    assert(trimmed(query).len() == 0) by {
        if u < v {
            assert(is_white_space(query[u]));
        }
    }
    if entries.len() == 0 {
        nothing_is_found_in_an_empty_vault(query, None);
    } else {
        let e = entries.last();
        search_for_nothing_shows_all(entries.drop_last(), query);
        any_script_is_found(e.name@, e.username@, query, 0, 0);
        search_of_one_entry(e, query, None);
        search_goes_entry_by_entry(entries.drop_last(), seq![e], query, None);
        assert(entries.drop_last() + seq![e] =~= entries);
    }
}

/// An entry of a vault is shown by a search for any part of its name or user name, in
/// capitals or small letters, in its own category and in all of them.
pub proof fn search_shows_what_it_is_asked_for(
    entries: Seq<Entry>,
    i: int,
    query: Seq<char>,
    from: int,
    in_name: bool,
)
    requires
        0 <= i < entries.len(),
        is_ascii_chars(query),
        ({
            let text = if in_name {
                entries[i].name@
            } else {
                entries[i].username@
            };
            &&& is_ascii_chars(text)
            &&& 0 <= from
            &&& from + query.len() <= text.len()
            &&& forall|j: int|
                0 <= j < query.len() ==> ascii_lower(#[trigger] query[j]) == ascii_lower(
                    text[from + j],
                )
        }),
    ensures
        search_result(entries, query, None).contains(entries[i]),
        search_result(entries, query, Some(entries[i].category)).contains(entries[i]),
        forall|e: Entry, c: Category|
            #![trigger search_result(entries, query, Some(c)).contains(e)]
            search_result(entries, query, Some(c)).contains(e) ==> e.category == c
                && entries.contains(e),
{
    let e = entries[i];
    if in_name {
        every_part_is_found(e.name@, e.username@, query, from);
    } else {
        every_part_is_found(e.username@, e.name@, query, from);
    }
    entries.lemma_filter_contains(|x: Entry| shown(x, query, None), i);
    entries.lemma_filter_contains(|x: Entry| shown(x, query, Some(e.category)), i);
    assert forall|x: Entry, c: Category|
        #![trigger search_result(entries, query, Some(c)).contains(x)]
        search_result(entries, query, Some(c)).contains(x) implies x.category == c
        && entries.contains(x) by {
        let keep = |y: Entry| shown(y, query, Some(c));
        let r = search_result(entries, query, Some(c));
        let k = choose|k: int| 0 <= k < r.len() && r[k] == x;
        entries.lemma_filter_pred(keep, k);
        entries.lemma_filter_contains_rev(keep, x);
    }
}

/// Removing an id goes entry by entry and keeps the order of the others.
pub proof fn removal_goes_entry_by_entry(a: Seq<Entry>, b: Seq<Entry>, e: Entry, id: EntryId)
    ensures
        without(a + b, id) == without(a, id) + without(b, id),
        without(seq![e], id) == if e.id.value == id.value {
            Seq::<Entry>::empty()
        } else {
            seq![e]
        },
{
    Seq::filter_distributes_over_add(a, b, |e: Entry| e.id != id);
    reveal(Seq::filter);
    let s = seq![e];
    assert(s.drop_last() =~= Seq::<Entry>::empty());
    assert(s.drop_last().filter(|e: Entry| e.id != id) =~= Seq::<Entry>::empty());
    assert(without(s, id) =~= if e.id != id {
        seq![e]
    } else {
        Seq::<Entry>::empty()
    });
}

/// An id is absent where no entry has it; otherwise the first entry that has it is
/// found, and no other.
pub proof fn the_first_entry_is_found(entries: Seq<Entry>, id: EntryId, i: int, j: int)
    ensures
        absent(entries, id) && 0 <= j < entries.len() ==> entries[j].id.value != id.value,
        first_at(entries, id, i) ==> 0 <= i < entries.len() && entries[i].id.value == id.value,
        first_at(entries, id, i) && 0 <= j < i ==> entries[j].id.value != id.value,
        0 <= j < entries.len() && entries[j].id.value == id.value && (forall|k: int|
            0 <= k < j ==> (#[trigger] entries[k]).id.value != id.value) ==> first_at(
            entries,
            id,
            j,
        ),
        !absent(entries, id) ==> exists|k: int| #[trigger] first_at(entries, id, k),
    decreases entries.len(),
{
    if !absent(entries, id) && entries.len() > 0 {
        let init = entries.drop_last();
        if absent(init, id) {
            let n = entries.len() - 1;
            assert forall|k: int| 0 <= k < n implies (#[trigger] entries[k]).id != id by {
                assert(init[k].id != id);
            }
            assert(first_at(entries, id, n));
        } else {
            the_first_entry_is_found(init, id, 0, 0);
            let k = choose|k: int| #[trigger] first_at(init, id, k);
            assert forall|l: int| 0 <= l < k implies (#[trigger] entries[l]).id != id by {
                assert(init[l].id != id);
            }
            assert(first_at(entries, id, k));
        }
    }
}

/// A changed entry gets its time, and a vault with it is otherwise the same.
pub proof fn a_change_is_local(v: VaultModel, i: int, j: int, e: Entry, now: u64)
    requires
        0 <= i < v.entries.len(),
        0 <= j < v.entries.len(),
        i != j,
    ensures
        with_entry(v, i, e).entries.len() == v.entries.len(),
        with_entry(v, i, e).entries[i] == e,
        with_entry(v, i, e).entries[j] == v.entries[j],
        with_entry(v, i, e).settings == v.settings,
        with_entry(v, i, e).keys == v.keys,
        with_entry(v, i, e).path == v.path,
        stamped(e, now).updated_at == now,
        stamped(e, now).id == e.id,
        stamped(e, now).name == e.name,
        stamped(e, now).username == e.username,
        stamped(e, now).password == e.password,
        stamped(e, now).url == e.url,
        stamped(e, now).notes == e.notes,
        stamped(e, now).category == e.category,
        stamped(e, now).created_at == e.created_at,
{
}

/// A vault that is opened again has the keys of its file and the content that was
/// read from it, and a new vault has no entries, no backups and no file.
pub proof fn what_vaults_begin_with(
    o: OpenedModel,
    entries: Seq<Entry>,
    settings: VaultSettings,
    v: VaultModel,
)
    ensures
        reopened(o, entries, settings).entries == entries,
        reopened(o, entries, settings).settings == settings,
        reopened(o, entries, settings).keys == o.keys,
        reopened(o, entries, settings).path is None,
        v.is_new() <==> v.entries.len() == 0 && v.settings.auto_backup_dir is None
            && v.settings.auto_backup_keep == 24 && v.path is None,
{
    if v.entries.len() == 0 {
        assert(v.entries =~= Seq::<Entry>::empty());
    }
}

/// A search looks at names, user names and categories: the password, the
/// address and the notes never decide what it shows.
pub proof fn search_ignores_secrets(a: Entry, b: Entry, query: Seq<char>, category: Option<Category>)
    requires
        a.name@ == b.name@,
        a.username@ == b.username@,
        a.category == b.category,
    ensures
        shown(a, query, category) == shown(b, query, category),
{
}

/// Erasing all entries leaves nothing to be found by any search.
pub proof fn nothing_is_found_in_an_empty_vault(query: Seq<char>, category: Option<Category>)
    ensures
        search_result(Seq::<Entry>::empty(), query, category) == Seq::<Entry>::empty(),
{
    reveal(Seq::filter);
}

// ---------------------------------------------------------------------------
// Opened files
// ---------------------------------------------------------------------------

/// The vault key sealed under a key-encryption key.
fn wrap(kek: &Key32, wrap_nonce: &[u8; 24], vault_key: &Key32, prefix: &[u8; 36]) -> (r: Result<
    [u8; 48],
    Error,
>)
    ensures
        r matches Ok(w) && w@ == xchacha_seal(kek@, wrap_nonce@, vault_key@, prefix@)
            && xchacha_open(kek@, wrap_nonce@, w@, prefix@) == Some(vault_key@),
{
    match crypto::seal(kek, wrap_nonce, vault_key.as_bytes().as_slice(), prefix.as_slice()) {
        Ok(w) => Ok(array_of::<48>(w.as_slice())),
        Err(e) => Err(e),
    }
}

/// The vault key made of unwrapped bytes.
pub fn key_of_unwrapped(bytes: &Vec<u8>) -> (r: Result<Key32, Error>)
    ensures
        outcome(r) == if bytes@.len() == 32 {
            Ok::<Seq<u8>, ErrorView>(bytes@)
        } else {
            Err(ErrorView::Unauthenticated)
        },
{
    if bytes.len() != 32 {
        return Err(Error::Unauthenticated);
    }
    Ok(Key32::from_bytes(array_of::<32>(bytes.as_slice())))
}

/// A vault file that was opened: its content as bytes, and its keys.
pub struct OpenedVault {
    plaintext: Vec<u8>,
    vault_key: Key32,
    header: Header,
}

impl View for OpenedVault {
    type V = OpenedModel;

    closed spec fn view(&self) -> OpenedModel {
        OpenedModel {
            plaintext: self.plaintext@,
            keys: KeyModel {
                key: self.vault_key@,
                kdf: self.header.kdf,
                salt: self.header.salt@,
                wrap_nonce: self.header.wrap_nonce@,
                wrapped_key: self.header.wrapped_key@,
            },
            data_nonce: self.header.data_nonce@,
        }
    }
}

impl OpenedVault {
    /// The content.
    pub fn plaintext(&self) -> (r: &[u8])
        ensures
            r@ == self@.plaintext,
    {
        self.plaintext.as_slice()
    }

    /// The vault with `data` as its content. The bytes of the content are
    /// wiped.
    pub fn into_vault(self, data: VaultData) -> (r: Vault)
        ensures
            r@ == reopened(self@, data.entries@, data.settings),
    {
        let mut plaintext = self.plaintext;
        wipe_bytes(&mut plaintext);
        Vault {
            data,
            vault_key: self.vault_key,
            kdf: self.header.kdf,
            salt: self.header.salt,
            wrap_nonce: self.header.wrap_nonce,
            wrapped_key: self.header.wrapped_key,
            path: None,
        }
    }
}

// ---------------------------------------------------------------------------
// Vaults
// ---------------------------------------------------------------------------

/// An unlocked vault.
///
/// While it lives, the vault key is in memory; dropping it wipes the key and
/// the passwords.
pub struct Vault {
    data: VaultData,
    vault_key: Key32,
    kdf: KdfParams,
    salt: [u8; 16],
    wrap_nonce: [u8; 24],
    wrapped_key: [u8; 48],
    path: Option<std::path::PathBuf>,
}

/// What a vault is.
#[verifier::ext_equal]
pub struct VaultModel {
    pub entries: Seq<Entry>,
    pub settings: VaultSettings,
    pub keys: KeyModel,
    /// Where the vault was opened from or last saved to.
    pub path: Option<std::path::PathBuf>,
}

impl View for Vault {
    type V = VaultModel;

    closed spec fn view(&self) -> VaultModel {
        VaultModel {
            entries: self.data.entries@,
            settings: self.data.settings,
            keys: KeyModel {
                key: self.vault_key@,
                kdf: self.kdf,
                salt: self.salt@,
                wrap_nonce: self.wrap_nonce@,
                wrapped_key: self.wrapped_key@,
            },
            path: self.path,
        }
    }
}

/// The vault that an opened file and its content make.
pub open spec fn reopened(
    o: OpenedModel,
    entries: Seq<Entry>,
    settings: VaultSettings,
) -> VaultModel {
    VaultModel { entries, settings, keys: o.keys, path: None }
}

/// A vault survives its file: where content is written so that reading gives it
/// back, the file of a vault opens, under every password of the vault, to the
/// same entries, settings and keys. Only the path is not in the file.
pub proof fn vault_survives_its_file(
    v: VaultModel,
    data_nonce: Seq<u8>,
    write: spec_fn(Seq<Entry>, VaultSettings) -> Seq<u8>,
    read: spec_fn(Seq<u8>) -> Option<(Seq<Entry>, VaultSettings)>,
    password: Seq<u8>,
)
    requires
        v.keys.valid(),
        data_nonce.len() == 24,
        v.keys.opens_with(password),
        read(write(v.entries, v.settings)) == Some((v.entries, v.settings)),
        open_outcome(
            v.keys.key,
            data_nonce,
            xchacha_seal(
                v.keys.key,
                data_nonce,
                write(v.entries, v.settings),
                header_bytes(v.keys.header(data_nonce)),
            ),
            header_bytes(v.keys.header(data_nonce)),
        ) == Ok::<Seq<u8>, ErrorView>(write(v.entries, v.settings)),
    ensures
        file_outcome(
            file_bytes(v.keys, data_nonce, write(v.entries, v.settings)),
            password,
        ) matches Ok(o) && read(o.plaintext) matches Some(c) && reopened(o, c.0, c.1) == (
        VaultModel { path: None, ..v }),
{
    sealed_file_opens(v.keys, data_nonce, write(v.entries, v.settings), password);
}

/// The keys of a vault have their lengths, in every state of it.
pub proof fn vault_keys_are_valid(v: &Vault)
    ensures
        v@.keys.valid(),
{
    key_has_its_length(&v.vault_key);
}

impl VaultModel {
    /// An empty vault that was never saved.
    pub open spec fn is_new(self) -> bool {
        &&& self.entries == Seq::<Entry>::empty()
        &&& self.settings.auto_backup_dir is None
        &&& self.settings.auto_backup_keep == 24
        &&& self.path is None
    }
}

/// An entry with its time of change.
pub open spec fn stamped(e: Entry, now: u64) -> Entry {
    Entry { updated_at: now, ..e }
}

/// A vault with the entry at position `i` replaced.
pub open spec fn with_entry(v: VaultModel, i: int, e: Entry) -> VaultModel {
    VaultModel { entries: v.entries.update(i, e), ..v }
}

impl Vault {
    // -- making a vault ------------------------------------------------------

    /// A new empty vault with the default costs, not yet saved.
    pub fn create(master_password: &str) -> (r: Result<Vault, Error>)
        ensures
            match r {
                Ok(v) => {
                    &&& v@.is_new()
                    &&& v@.keys.kdf == (KdfParams { m_cost: 65536, t_cost: 3, p_cost: 4 })
                    &&& v@.keys.valid()
                    &&& v@.keys.are_drawn()
                    &&& v@.keys.opens_with(encode_utf8(master_password@))
                },
                Err(e) => (e is Random && is_failed_draw(e@)) || (encode_utf8(master_password@).len() > 0xffff_ffff && e@
                    == ErrorView::BadKdfParams("password is too long"@)),
            },
    {
        Self::create_with_params(master_password, KdfParams::default())
    }

    /// A new empty vault with these costs, not yet saved.
    ///
    /// Salt, vault key and nonce are random. The vault opens with the password.
    /// Where the costs are refused there is no vault; where they are accepted,
    /// only the random source can fail.
    pub fn create_with_params(master_password: &str, kdf: KdfParams) -> (r: Result<Vault, Error>)
        ensures
            match r {
                Ok(v) => {
                    &&& kdf_refusal(encode_utf8(master_password@).len(), 16, kdf) is None
                    &&& v@.is_new()
                    &&& v@.keys.kdf == kdf
                    &&& v@.keys.valid()
                    &&& v@.keys.are_drawn()
                    &&& v@.keys.opens_with(encode_utf8(master_password@))
                },
                Err(e) => (e is Random && is_failed_draw(e@)) || (kdf_refusal(
                    encode_utf8(master_password@).len(),
                    16,
                    kdf,
                ) matches Some(t) && e@ == ErrorView::BadKdfParams(t)),
            },
    {
        let salt = random_bytes::<16>()?;
        let vault_key = Key32::from_bytes(random_bytes::<32>()?);
        let kek = derive_kek(master_password.as_bytes(), salt.as_slice(), kdf)?;
        let wrap_nonce = random_bytes::<24>()?;
        Self::from_keys(&kek, kdf, salt, vault_key, wrap_nonce)
    }

    /// The empty vault with this vault key, wrapped under `kek`. It always
    /// succeeds.
    pub fn from_keys(
        kek: &Key32,
        kdf: KdfParams,
        salt: [u8; 16],
        vault_key: Key32,
        wrap_nonce: [u8; 24],
    ) -> (r: Result<Vault, Error>)
        ensures
            r matches Ok(v) && v@.is_new() && v@.keys == (KeyModel {
                key: vault_key@,
                kdf,
                salt: salt@,
                wrap_nonce: wrap_nonce@,
                wrapped_key: xchacha_seal(
                    kek@,
                    wrap_nonce@,
                    vault_key@,
                    prefix_bytes(kdf, salt@),
                ),
            }) && v@.keys.valid() && xchacha_open(
                kek@,
                wrap_nonce@,
                v@.keys.wrapped_key,
                prefix_bytes(kdf, salt@),
            ) == Some(vault_key@),
    {
        let prefix = build_prefix(kdf, &salt);
        match wrap(kek, &wrap_nonce, &vault_key, &prefix) {
            Ok(wrapped_key) => {
                let v = Vault {
                    data: VaultData::default(),
                    vault_key,
                    kdf,
                    salt,
                    wrap_nonce,
                    wrapped_key,
                    path: None,
                };
                proof {
                    vault_keys_are_valid(&v);
                }
                Ok(v)
            },
            Err(e) => Err(e),
        }
    }

    // -- bytes ---------------------------------------------------------------

    /// The file of this vault, with `plaintext` as its content.
    ///
    /// Each call draws a new nonce. On success the content is wiped. The file
    /// opens, with the same keys and the same content, under every password
    /// that opens the vault; so it goes on doing, whatever later becomes of the
    /// vault.
    pub fn to_bytes(&self, plaintext: &mut Vec<u8>) -> (r: Result<Vec<u8>, Error>)
        requires
            old(plaintext)@.len() + 16 <= isize::MAX,
        ensures
            match r {
                Ok(bytes) => {
                    &&& sealable(old(plaintext)@.len())
                    &&& final(plaintext)@ == Seq::<u8>::empty()
                    &&& bytes@.len() == HEADER_LEN + old(plaintext)@.len() + 16
                    &&& exists|data_nonce: Seq<u8>|
                        {
                            &&& data_nonce.len() == 24
                            &&& is_draw(data_nonce)
                            &&& bytes@ == #[trigger] file_bytes(
                                self@.keys,
                                data_nonce,
                                old(plaintext)@,
                            )
                            &&& forall|password: Seq<u8>|
                                #![trigger file_outcome(bytes@, password)]
                                self@.keys.opens_with(password) ==> file_outcome(bytes@, password)
                                    == Ok::<OpenedModel, ErrorView>(
                                    OpenedModel {
                                        plaintext: old(plaintext)@,
                                        keys: self@.keys,
                                        data_nonce,
                                    },
                                )
                        }
                },
                Err(e) => final(plaintext)@ == old(plaintext)@ && ((e is Random && is_failed_draw(e@)) || (!sealable(
                    old(plaintext)@.len(),
                ) && e is Unauthenticated)),
            },
    {
        let data_nonce = random_bytes::<24>()?;
        self.to_bytes_with_nonce(plaintext, data_nonce)
    }

    /// The file of this vault, with `plaintext` as its content, sealed with
    /// this nonce.
    ///
    /// The nonce must not have been used with the vault's key before.
    pub fn to_bytes_with_nonce(&self, plaintext: &mut Vec<u8>, data_nonce: [u8; 24]) -> (r: Result<
        Vec<u8>,
        Error,
    >)
        requires
            old(plaintext)@.len() + 16 <= isize::MAX,
        ensures
            outcome(r) == if sealable(old(plaintext)@.len()) {
                Ok::<Seq<u8>, ErrorView>(file_bytes(self@.keys, data_nonce@, old(plaintext)@))
            } else {
                Err(ErrorView::Unauthenticated)
            },
            final(plaintext)@ == if r is Ok {
                Seq::<u8>::empty()
            } else {
                old(plaintext)@
            },
            r matches Ok(bytes) ==> bytes@.len() == HEADER_LEN + old(plaintext)@.len() + 16,
            r matches Ok(bytes) ==> forall|password: Seq<u8>|
                #![trigger file_outcome(bytes@, password)]
                self@.keys.opens_with(password) ==> file_outcome(bytes@, password) == Ok::<
                    OpenedModel,
                    ErrorView,
                >(
                    OpenedModel {
                        plaintext: old(plaintext)@,
                        keys: self@.keys,
                        data_nonce: data_nonce@,
                    },
                ),
    {
        let header = build_header(
            &Header {
                kdf: self.kdf,
                salt: self.salt,
                wrap_nonce: self.wrap_nonce,
                wrapped_key: self.wrapped_key,
                data_nonce,
            },
        );
        let ciphertext = match crypto::seal(
            &self.vault_key,
            &data_nonce,
            plaintext.as_slice(),
            header.as_slice(),
        ) {
            Ok(c) => c,
            Err(e) => return Err(e),
        };
        wipe_bytes(plaintext);
        let mut out = header;
        push_bytes(&mut out, ciphertext.as_slice());
        proof {
            vault_keys_are_valid(self);
            assert forall|password: Seq<u8>|
                #![trigger file_outcome(out@, password)]
                self@.keys.opens_with(password) implies file_outcome(out@, password) == Ok::<
                OpenedModel,
                ErrorView,
            >(
                OpenedModel {
                    plaintext: old(plaintext)@,
                    keys: self@.keys,
                    data_nonce: data_nonce@,
                },
            ) by {
                sealed_file_opens(self@.keys, data_nonce@, old(plaintext)@, password);
            }
        }
        Ok(out)
    }

    /// Opens the bytes of a file.
    ///
    /// A wrong password and an altered file give the same error. A file that
    /// opens is, byte for byte, the one that its content and keys are written
    /// as, and its keys open with the password.
    pub fn from_bytes(bytes: &[u8], master_password: &str) -> (r: Result<OpenedVault, Error>)
        ensures
            outcome(r) == file_outcome(bytes@, encode_utf8(master_password@)),
            r matches Ok(v) ==> {
                &&& v@.keys.valid()
                &&& v@.keys.opens_with(encode_utf8(master_password@))
                &&& bytes@ == file_bytes(v@.keys, v@.data_nonce, v@.plaintext)
            },
    {
        let header = parse_header(bytes)?;
        proof {
            header_determines_its_bytes(bytes@);
        }
        let kek = match derive_kek(
            master_password.as_bytes(),
            header.salt.as_slice(),
            header.kdf,
        ) {
            Ok(k) => k,
            Err(_) => return Err(Error::Unauthenticated),
        };
        let unwrapped = crypto::open(
            &kek,
            &header.wrap_nonce,
            header.wrapped_key.as_slice(),
            slice_subrange(bytes, 0, PREFIX_LEN),
        )?;
        let vault_key = key_of_unwrapped(&unwrapped)?;
        let plaintext = crypto::open(
            &vault_key,
            &header.data_nonce,
            slice_subrange(bytes, HEADER_LEN, bytes.len()),
            slice_subrange(bytes, 0, HEADER_LEN),
        )?;
        assert(bytes@.subrange(0, PREFIX_LEN as int) =~= bytes@.take(PREFIX_LEN as int));
        assert(bytes@.subrange(0, HEADER_LEN as int) =~= bytes@.take(HEADER_LEN as int));
        assert(bytes@.subrange(HEADER_LEN as int, bytes@.len() as int) =~= bytes@.skip(
            HEADER_LEN as int,
        ));
        let v = OpenedVault { plaintext, vault_key, header };
        assert(v@.keys.header(v@.data_nonce) =~= header@);
        assert(bytes@ =~= bytes@.take(HEADER_LEN as int) + bytes@.skip(HEADER_LEN as int));
        Ok(v)
    }

    // -- the master password -------------------------------------------------

    /// Changes the master password.
    ///
    /// Only the wrapping of the vault key is made anew, with a new salt:
    /// content, vault key, costs and path stay. The vault opens with the new
    /// password. Where it fails, nothing has changed; it fails only where the
    /// random source does or the key derivation refuses its costs.
    pub fn change_master_password(&mut self, new_password: &str) -> (r: Result<(), Error>)
        ensures
            match r {
                Ok(_) => {
                    &&& final(self)@.keys.opens_with(encode_utf8(new_password@))
                    &&& is_draw(final(self)@.keys.salt)
                    &&& is_draw(final(self)@.keys.wrap_nonce)
                    &&& final(self)@ == (VaultModel {
                        keys: KeyModel {
                            salt: final(self)@.keys.salt,
                            wrap_nonce: final(self)@.keys.wrap_nonce,
                            wrapped_key: final(self)@.keys.wrapped_key,
                            ..old(self)@.keys
                        },
                        ..old(self)@
                    })
                },
                Err(e) => final(self)@ == old(self)@ && ((e is Random && is_failed_draw(e@)) || (kdf_refusal(
                    encode_utf8(new_password@).len(),
                    16,
                    old(self)@.keys.kdf,
                ) matches Some(t) && e@ == ErrorView::BadKdfParams(t))),
            },
    {
        let salt = random_bytes::<16>()?;
        let kek = derive_kek(new_password.as_bytes(), salt.as_slice(), self.kdf)?;
        let wrap_nonce = random_bytes::<24>()?;
        self.rewrap(&kek, salt, wrap_nonce)
    }

    /// Wraps the vault key under `kek`, with a new salt and nonce. It always
    /// succeeds.
    pub fn rewrap(&mut self, kek: &Key32, salt: [u8; 16], wrap_nonce: [u8; 24]) -> (r: Result<
        (),
        Error,
    >)
        ensures
            r is Ok,
            final(self)@ == (VaultModel {
                keys: KeyModel {
                    salt: salt@,
                    wrap_nonce: wrap_nonce@,
                    wrapped_key: xchacha_seal(
                        kek@,
                        wrap_nonce@,
                        old(self)@.keys.key,
                        prefix_bytes(old(self)@.keys.kdf, salt@),
                    ),
                    ..old(self)@.keys
                },
                ..old(self)@
            }),
            xchacha_open(
                kek@,
                wrap_nonce@,
                final(self)@.keys.wrapped_key,
                prefix_bytes(old(self)@.keys.kdf, salt@),
            ) == Some(old(self)@.keys.key),
    {
        let prefix = build_prefix(self.kdf, &salt);
        match wrap(kek, &wrap_nonce, &self.vault_key, &prefix) {
            Ok(wrapped_key) => {
                self.salt = salt;
                self.wrap_nonce = wrap_nonce;
                self.wrapped_key = wrapped_key;
                Ok(())
            },
            Err(e) => Err(e),
        }
    }

    // -- where the vault is kept ---------------------------------------------

    /// Takes note that the vault was read from `path`.
    pub fn opened_from(&mut self, path: std::path::PathBuf)
        ensures
            final(self)@ == (VaultModel { path: Some(path), ..old(self)@ }),
    {
        self.path = Some(path);
    }

    /// Takes note of how writing the vault to `path` ended. Only where it
    /// succeeded is `path` from now on the vault's own.
    pub fn finish_save(&mut self, path: std::path::PathBuf, written: Result<(), Error>) -> (r: Result<
        (),
        Error,
    >)
        ensures
            r == written,
            final(self)@ == (VaultModel {
                path: if written is Ok {
                    Some(path)
                } else {
                    old(self)@.path
                },
                ..old(self)@
            }),
    {
        if let Ok(_) = written {
            self.path = Some(path);
        }
        written
    }

    /// Where saving the vault again writes to; an error where it was neither
    /// opened from a file nor saved to one.
    pub fn save_target(&self) -> (r: Result<&std::path::PathBuf, Error>)
        ensures
            match self@.path {
                Some(p) => r matches Ok(q) && *q == p,
                None => r matches Err(e) && e@ == ErrorView::Io("尚未指定保险库路径"@),
            },
    {
        match &self.path {
            Some(p) => Ok(p),
            None => Err(Error::Io("尚未指定保险库路径".to_owned())),
        }
    }

    // -- entries -------------------------------------------------------------

    /// All entries.
    pub fn entries(&self) -> (r: &[Entry])
        ensures
            r@ == self@.entries,
    {
        self.data.entries.as_slice()
    }

    /// All content, for writing it out.
    pub fn data(&self) -> (r: &VaultData)
        ensures
            r.entries@ == self@.entries,
            r.settings == self@.settings,
    {
        &self.data
    }

    /// How many entries there are.
    pub fn len(&self) -> (r: usize)
        ensures
            r == self@.entries.len(),
    {
        self.data.entries.len()
    }

    /// Whether there are no entries.
    pub fn is_empty(&self) -> (r: bool)
        ensures
            r == (self@.entries.len() == 0),
    {
        self.data.entries.len() == 0
    }

    /// Adds an entry at the end and gives its id.
    pub fn add(&mut self, entry: Entry) -> (r: EntryId)
        ensures
            r == entry.id,
            final(self)@ == (VaultModel {
                entries: old(self)@.entries.push(entry),
                ..old(self)@
            }),
    {
        let id = entry.id;
        self.data.entries.push(entry);
        id
    }

    /// The position of the first entry with the id.
    fn position(&self, id: EntryId) -> (r: Option<usize>)
        ensures
            match r {
                Some(i) => first_at(self@.entries, id, i as int),
                None => absent(self@.entries, id),
            },
    {
        let mut i: usize = 0;
        while i < self.data.entries.len()
            invariant
                i <= self.data.entries.len(),
                forall|j: int| 0 <= j < i ==> (#[trigger] self.data.entries@[j]).id != id,
            decreases self.data.entries.len() - i,
        {
            if self.data.entries[i].id == id {
                return Some(i);
            }
            i += 1;
        }
        None
    }

    /// The first entry with the id.
    pub fn get(&self, id: EntryId) -> (r: Option<&Entry>)
        ensures
            match r {
                Some(e) => exists|i: int| #[trigger]
                    first_at(self@.entries, id, i) && *e == self@.entries[i],
                None => absent(self@.entries, id),
            },
    {
        match self.position(id) {
            Some(i) => Some(&self.data.entries[i]),
            None => None,
        }
    }

    /// Lets `f` change the first entry with the id, then stamps it with the
    /// current time. All other entries stay as they are.
    pub fn update<F: FnOnce(&mut Entry)>(&mut self, id: EntryId, f: F) -> (r: Result<(), Error>)
        requires
            forall|e: &mut Entry, i: int| #[trigger]
                first_at(old(self)@.entries, id, i) && *e == old(self)@.entries[i]
                    ==> #[trigger] f.requires((e,)),
        ensures
            match r {
                Ok(_) => exists|i: int, e: &mut Entry, now: u64|
                    {
                        &&& #[trigger] first_at(old(self)@.entries, id, i)
                        &&& *e == old(self)@.entries[i]
                        &&& #[trigger] f.ensures((e,), ())
                        &&& is_clock_time(now)
                        &&& final(self)@ == #[trigger] with_entry(
                            old(self)@,
                            i,
                            stamped(*final(e), now),
                        )
                    },
                Err(e) => e is EntryNotFound && absent(old(self)@.entries, id) && final(self)@
                    == old(self)@,
            },
    {
        self.update_at(id, f, now_millis())
    }

    /// Lets `f` change the first entry with the id, then stamps it with the time
    /// `now`. All other entries stay as they are.
    pub fn update_at<F: FnOnce(&mut Entry)>(&mut self, id: EntryId, f: F, now: u64) -> (r: Result<
        (),
        Error,
    >)
        requires
            forall|e: &mut Entry, i: int| #[trigger]
                first_at(old(self)@.entries, id, i) && *e == old(self)@.entries[i]
                    ==> #[trigger] f.requires((e,)),
        ensures
            match r {
                Ok(_) => exists|i: int, e: &mut Entry|
                    {
                        &&& #[trigger] first_at(old(self)@.entries, id, i)
                        &&& *e == old(self)@.entries[i]
                        &&& #[trigger] f.ensures((e,), ())
                        &&& final(self)@ == with_entry(old(self)@, i, stamped(*final(e), now))
                    },
                Err(e) => e is EntryNotFound && absent(old(self)@.entries, id) && final(self)@
                    == old(self)@,
            },
    {
        match self.position(id) {
            Some(i) => {
                let e = &mut self.data.entries[i];
                let ghost handed = e;
                f(e);
                self.data.entries[i].updated_at = now;
                proof {
                    assert(self@ =~= with_entry(
                        old(self)@,
                        i as int,
                        stamped(*final(handed), now),
                    ));
                }
                Ok(())
            },
            None => Err(Error::EntryNotFound),
        }
    }

    /// Removes the entries with the id; an error where there is none.
    pub fn delete(&mut self, id: EntryId) -> (r: Result<(), Error>)
        ensures
            final(self)@ == (VaultModel {
                entries: without(old(self)@.entries, id),
                ..old(self)@
            }),
            match r {
                Ok(_) => !absent(old(self)@.entries, id),
                Err(e) => e is EntryNotFound && absent(old(self)@.entries, id) && final(self)@
                    == old(self)@,
            },
    {
        let before: usize = self.data.entries.len();
        let ghost whole = self.data.entries@;
        let ghost keep = |e: Entry| e.id != id;
        let ghost mut seen: int = 0;
        let mut i: usize = 0;
        proof {
            reveal(Seq::filter);
            assert(whole.take(0).filter(keep) =~= Seq::<Entry>::empty());
        }
        while i < self.data.entries.len()
            invariant
                self@ == (VaultModel { entries: self.data.entries@, ..old(self)@ }),
                whole == old(self)@.entries,
                keep == (|e: Entry| e.id != id),
                i <= self.data.entries.len(),
                0 <= seen <= whole.len(),
                seen - i == whole.len() - self.data.entries@.len(),
                self.data.entries@.take(i as int) == whole.take(seen).filter(keep),
                self.data.entries@.skip(i as int) == whole.skip(seen),
            decreases self.data.entries.len() - i,
        {
            let ghost current = self.data.entries@;
            proof {
                filter_step(whole, keep, seen);
                assert(current[i as int] == current.skip(i as int)[0]);
                assert(whole[seen] == whole.skip(seen)[0]);
                assert(whole.skip(seen + 1) =~= whole.skip(seen).drop_first());
                seen = seen + 1;
            }
            if self.data.entries[i].id == id {
                self.data.entries.remove(i);
                assert(self.data.entries@.take(i as int) =~= current.take(i as int));
                assert(self.data.entries@.skip(i as int) =~= current.skip(i as int).drop_first());
            } else {
                i += 1;
                assert(current.take(i as int) =~= current.take(i - 1).push(current[i - 1]));
                assert(current.skip(i as int) =~= current.skip(i - 1).drop_first());
            }
        }
        proof {
            assert(self.data.entries@.take(i as int) =~= self.data.entries@);
            assert(whole.skip(seen).len() == 0);
            assert(whole.take(seen) =~= whole);
            without_removes_only_the_id(whole, id);
        }
        if self.data.entries.len() == before {
            return Err(Error::EntryNotFound);
        }
        Ok(())
    }

    /// The entries of a category, or of all of them, that a search for `query`
    /// finds, in their order.
    pub fn search(&self, query: &str, category: Option<Category>) -> (r: Vec<&Entry>)
        ensures
            r@.len() == search_result(self@.entries, query@, category).len(),
            forall|i: int|
                0 <= i < r@.len() ==> *#[trigger] r@[i] == search_result(
                    self@.entries,
                    query@,
                    category,
                )[i],
    {
        let ghost whole = self.data.entries@;
        let ghost keep = |e: Entry| shown(e, query@, category);
        let mut out: Vec<&Entry> = Vec::new();
        let mut i: usize = 0;
        proof {
            reveal(Seq::filter);
            assert(whole.take(0).filter(keep) =~= Seq::<Entry>::empty());
        }
        while i < self.data.entries.len()
            invariant
                whole == self.data.entries@,
                keep == (|e: Entry| shown(e, query@, category)),
                i <= self.data.entries.len(),
                out@.len() == whole.take(i as int).filter(keep).len(),
                forall|j: int|
                    0 <= j < out@.len() ==> *#[trigger] out@[j] == whole.take(i as int).filter(
                        keep,
                    )[j],
            decreases self.data.entries.len() - i,
        {
            proof {
                filter_step(whole, keep, i as int);
            }
            let e = &self.data.entries[i];
            let in_category = match category {
                Some(c) => e.category == c,
                None => true,
            };
            if in_category && e.matches(query) {
                out.push(e);
            }
            i += 1;
        }
        assert(whole.take(i as int) =~= whole);
        out
    }

    /// Removes all entries; the settings stay.
    pub fn erase_all(&mut self)
        ensures
            final(self)@ == (VaultModel { entries: Seq::<Entry>::empty(), ..old(self)@ }),
    {
        self.data.entries.clear();
    }

    // -- settings ------------------------------------------------------------

    /// The settings.
    pub fn settings(&self) -> (r: &VaultSettings)
        ensures
            *r == self@.settings,
    {
        &self.data.settings
    }

    /// The settings, to be changed. Nothing else changes with them.
    pub fn settings_mut(&mut self) -> (r: &mut VaultSettings)
        ensures
            *r == old(self)@.settings,
            final(self)@ == (VaultModel { settings: *final(r), ..old(self)@ }),
    {
        &mut self.data.settings
    }
}

} // verus!
