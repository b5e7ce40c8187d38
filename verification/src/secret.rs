//! Secrets that are wiped when they go out of scope.
//!
//! Dropping a `String` returns its memory to the allocator with the content
//! still in it. [`Secret`] and [`Key32`] overwrite theirs first. Neither type
//! implements `Debug` or `Display`: what they hold cannot reach a log by
//! accident.

use vstd::prelude::*;
use zeroize::Zeroize;

verus! {

/// Overwrites a text with zeros and empties it, by `Zeroize::zeroize` on
/// `String`.
#[verifier::external_body]
fn wipe_text(s: &mut String)
    ensures
        final(s)@ == Seq::<char>::empty(),
    opens_invariants none
    no_unwind
{
    s.zeroize();
}

/// Overwrites a key with zeros, by `Zeroize::zeroize` on `[u8; 32]`.
#[verifier::external_body]
fn wipe_key(b: &mut [u8; 32])
    ensures
        forall|i: int| 0 <= i < 32 ==> #[trigger] final(b)@[i] == 0,
    opens_invariants none
    no_unwind
{
    b.zeroize();
}

/// Overwrites bytes with zeros and empties the vector, by `Zeroize::zeroize` on
/// `Vec<u8>`.
#[verifier::external_body]
pub(crate) fn wipe_bytes(v: &mut Vec<u8>)
    ensures
        final(v)@ == Seq::<u8>::empty(),
    opens_invariants none
    no_unwind
{
    v.zeroize();
}

/// Overwrites characters with zeros and empties the vector, by
/// `Zeroize::zeroize` on `Vec<char>`.
#[verifier::external_body]
pub(crate) fn wipe_chars(v: &mut Vec<char>)
    ensures
        final(v)@ == Seq::<char>::empty(),
{
    v.zeroize();
}

/// A secret text: an entry's password or a master password.
pub struct Secret(String);

impl View for Secret {
    type V = Seq<char>;

    closed spec fn view(&self) -> Seq<char> {
        self.0@
    }
}

impl Secret {
    /// Takes a text over as a secret.
    pub fn new<S: Into<String>>(s: S) -> (r: Secret)
        ensures
            exists|t: String| #[trigger] call_ensures(S::into, (s,), t) && r@ == t@,
    {
        let t: String = s.into();
        Secret(t)
    }

    /// The text itself.
    pub fn expose(&self) -> (r: &str)
        ensures
            r@ == self@,
    {
        self.0.as_str()
    }

    /// Whether the text is empty.
    pub fn is_empty(&self) -> (r: bool)
        ensures
            r == (self@.len() == 0),
    {
        self.0.as_str().is_empty()
    }

    /// What may be printed of a secret.
    pub fn redacted(&self) -> (r: String)
        ensures
            r@ == "Secret(***)"@,
    {
        "Secret(***)".to_owned()
    }
}

impl Drop for Secret {
    /// Wipes the text.
    fn drop(&mut self)
        ensures
            final(self)@ == Seq::<char>::empty(),
        opens_invariants none
        no_unwind
    {
        wipe_text(&mut self.0);
    }
}

impl Clone for Secret {
    fn clone(&self) -> (r: Secret)
        ensures
            r@ == self@,
    {
        Secret(self.0.clone())
    }
}

impl PartialEq for Secret {
    fn eq(&self, other: &Secret) -> (r: bool) {
        self.0 == other.0
    }
}

impl vstd::std_specs::cmp::PartialEqSpecImpl for Secret {
    open spec fn obeys_eq_spec() -> bool {
        true
    }

    open spec fn eq_spec(&self, other: &Secret) -> bool {
        self@ == other@
    }
}

impl Eq for Secret {

}

impl From<&str> for Secret {
    fn from(s: &str) -> (r: Secret)
        ensures
            r@ == s@,
    {
        Secret(s.to_owned())
    }
}

impl vstd::std_specs::convert::FromSpecImpl<&str> for Secret {
    open spec fn obeys_from_spec() -> bool {
        false
    }

    open spec fn from_spec(s: &str) -> Secret {
        arbitrary()
    }
}

impl From<String> for Secret {
    fn from(s: String) -> (r: Secret)
        ensures
            r@ == s@,
    {
        Secret(s)
    }
}

impl vstd::std_specs::convert::FromSpecImpl<String> for Secret {
    open spec fn obeys_from_spec() -> bool {
        false
    }

    open spec fn from_spec(s: String) -> Secret {
        arbitrary()
    }
}

/// A symmetric key of 32 bytes.
pub struct Key32([u8; 32]);

impl View for Key32 {
    type V = Seq<u8>;

    closed spec fn view(&self) -> Seq<u8> {
        self.0@
    }
}

/// A key has 32 bytes.
pub proof fn key_has_its_length(k: &Key32)
    ensures
        k@.len() == 32,
{
    assert(k.0@.len() == 32);
}

impl Key32 {
    /// The key with these bytes.
    pub fn from_bytes(b: [u8; 32]) -> (r: Key32)
        ensures
            r@ == b@,
    {
        Key32(b)
    }

    /// The bytes of the key.
    pub fn as_bytes(&self) -> (r: &[u8; 32])
        ensures
            r@ == self@,
    {
        &self.0
    }

    /// What may be printed of a key.
    pub fn redacted(&self) -> (r: String)
        ensures
            r@ == "Key32(***)"@,
    {
        "Key32(***)".to_owned()
    }
}

impl Drop for Key32 {
    /// Wipes the key.
    fn drop(&mut self)
        ensures
            forall|i: int| 0 <= i < 32 ==> #[trigger] final(self)@[i] == 0,
        opens_invariants none
        no_unwind
    {
        wipe_key(&mut self.0);
    }
}

impl Clone for Key32 {
    fn clone(&self) -> (r: Key32)
        ensures
            r@ == self@,
    {
        Key32(self.0)
    }
}

} // verus!
