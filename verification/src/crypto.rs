//! Random bytes, key derivation and authenticated encryption.
//!
//! The key derivation is Argon2id, which is memory-hard; the cipher is
//! XChaCha20-Poly1305, whose 192-bit nonce may be drawn at random and whose tag
//! makes every alteration of the ciphertext or of the associated data
//! detectable.

use chacha20poly1305::aead::{Aead, Payload};
use chacha20poly1305::KeyInit;
use vstd::prelude::*;

use crate::draws::{is_draw, is_failed_draw, Draws};
use crate::error::{outcome, Error, ErrorView};
use crate::secret::Key32;

verus! {

/// Length of a salt in bytes.
pub const SALT_LEN: usize = 16;

/// Length of a nonce in bytes.
pub const NONCE_LEN: usize = 24;

/// Length of a Poly1305 authentication tag in bytes.
pub const TAG_LEN: usize = 16;

/// The cost parameters of Argon2id.
///
/// They are written into the file, so that a vault opens with the parameters it
/// was made with and not with the defaults of the program at hand.
#[derive(Debug, Clone, Copy, PartialEq, Eq, Structural)]
pub struct KdfParams {
    /// Memory, in KiB.
    pub m_cost: u32,
    /// Number of passes.
    pub t_cost: u32,
    /// Degree of parallelism.
    pub p_cost: u32,
}

impl Default for KdfParams {
    /// 64 MiB, three passes, four lanes.
    fn default() -> (r: KdfParams)
        ensures
            r == (KdfParams { m_cost: 65536, t_cost: 3, p_cost: 4 }),
    {
        KdfParams { m_cost: 65536, t_cost: 3, p_cost: 4 }
    }
}

// ---------------------------------------------------------------------------
// Randomness
// ---------------------------------------------------------------------------

/// `N` bytes from the system's random source, by `getrandom::fill`; where the
/// source fails, the text of its error. Nothing is claimed of the bytes, of the
/// text or of when the source fails: they are up to the system. The log takes
/// down the bytes that came, or the text.
#[verifier::external_body]
fn system_random<const N: usize>(log: &mut Draws) -> (r: Result<[u8; N], String>)
    ensures
        match r {
            Ok(b) => final(log)@ == old(log)@ + b@ && final(log).failures() == old(log).failures(),
            Err(t) => final(log)@ == old(log)@ && final(log).failures() == old(
                log,
            ).failures().push(t@),
        },
{
    let mut buf = [0u8; N];
    match getrandom::fill(&mut buf) {
        Ok(()) => Ok(buf),
        Err(e) => Err(e.to_string()),
    }
}

/// What a draw from the random source gave, as bytes or as the library's error.
pub fn drawn_bytes<const N: usize>(drawn: Result<[u8; N], String>) -> (r: Result<[u8; N], Error>)
    ensures
        match drawn {
            Ok(b) => r matches Ok(c) && c@ == b@,
            Err(t) => r matches Err(e) && e@ == ErrorView::Random(t@),
        },
{
    match drawn {
        Ok(b) => Ok(b),
        Err(t) => Err(Error::Random(t)),
    }
}

/// `N` bytes from the system's cryptographic random source. Which bytes, and
/// whether the source fails, is up to the system: [`drawn_bytes`] says what is
/// made of every draw.
pub fn random_bytes<const N: usize>() -> (r: Result<[u8; N], Error>)
    ensures
        match r {
            Ok(b) => is_draw(b@),
            Err(e) => e is Random && is_failed_draw(e@),
        },
{
    let mut log = Draws::new();
    let r = draw_bytes::<N>(&mut log);
    proof {
        if let Ok(b) = r {
            assert(log@ =~= b@);
        }
    }
    r
}

/// `N` bytes from the system's cryptographic random source, taken down in a log.
pub fn draw_bytes<const N: usize>(log: &mut Draws) -> (r: Result<[u8; N], Error>)
    ensures
        match r {
            Ok(b) => final(log)@ == old(log)@ + b@,
            Err(e) => e is Random && is_failed_draw(e@) && final(log)@ == old(log)@,
        },
{
    let drawn = system_random::<N>(log);
    proof {
        if drawn is Err {
            let t = drawn->Err_0@;
            assert(log.failures()[old(log).failures().len() as int] == t);
            assert(log.failures().contains(t));
        }
    }
    drawn_bytes(drawn)
}

// ---------------------------------------------------------------------------
// Key derivation
// ---------------------------------------------------------------------------

/// Why Argon2id refuses its inputs, as the text of the refusal; `None` where it
/// accepts them.
pub open spec fn kdf_refusal(password_len: nat, salt_len: nat, params: KdfParams) -> Option<
    Seq<char>,
> {
    if params.m_cost < 8 || params.m_cost < 8 * params.p_cost {
        Some("memory cost is too small"@)
    } else if params.t_cost < 1 {
        Some("time cost is too small"@)
    } else if params.p_cost < 1 {
        Some("not enough threads"@)
    } else if params.p_cost > 0xff_ffff {
        Some("too many threads"@)
    } else if password_len > 0xffff_ffff {
        Some("password is too long"@)
    } else if salt_len < 8 {
        Some("salt is too short"@)
    } else if salt_len > 0xffff_ffff {
        Some("salt is too long"@)
    } else {
        None
    }
}

/// The 32 bytes that Argon2id (version 0x13, no secret, no associated data)
/// derives from a password and a salt.
pub uninterp spec fn argon2id(
    password: Seq<u8>,
    salt: Seq<u8>,
    m_cost: u32,
    t_cost: u32,
    p_cost: u32,
) -> Seq<u8>;

/// Derives 32 bytes by `argon2::Argon2::hash_password_into`, with parameters
/// made by `argon2::Params::new`. The derived bytes are a function of the
/// arguments; the refusals are those that the crate documents, with the text
/// that it displays. From 2^29 lanes on, the crate's own check of the memory
/// against the lanes overflows, so such parameters are left out. The call needs
/// `m_cost` KiB of memory; running out of memory is outside the contract.
#[verifier::external_body]
fn argon2id_hash(password: &[u8], salt: &[u8], m_cost: u32, t_cost: u32, p_cost: u32) -> (r: Result<
    [u8; 32],
    String,
>)
    requires
        p_cost < 0x2000_0000,
    ensures
        match r {
            Ok(h) => kdf_refusal(
                password@.len(),
                salt@.len(),
                KdfParams { m_cost, t_cost, p_cost },
            ) is None && h@ == argon2id(password@, salt@, m_cost, t_cost, p_cost),
            Err(t) => kdf_refusal(
                password@.len(),
                salt@.len(),
                KdfParams { m_cost, t_cost, p_cost },
            ) == Some(t@),
        },
{
    let params = match argon2::Params::new(m_cost, t_cost, p_cost, Some(32)) {
        Ok(p) => p,
        Err(e) => return Err(e.to_string()),
    };
    let mut out = [0u8; 32];
    let context = argon2::Argon2::new(argon2::Algorithm::Argon2id, argon2::Version::V0x13, params);
    match context.hash_password_into(password, salt, &mut out) {
        Ok(()) => Ok(out),
        Err(e) => Err(e.to_string()),
    }
}

/// What deriving a key gives: the key, or the refusal.
pub open spec fn kdf_outcome(password: Seq<u8>, salt: Seq<u8>, params: KdfParams) -> Result<
    Seq<u8>,
    ErrorView,
> {
    match kdf_refusal(password.len(), salt.len(), params) {
        Some(t) => Err(ErrorView::BadKdfParams(t)),
        None => Ok(argon2id(password, salt, params.m_cost, params.t_cost, params.p_cost)),
    }
}

/// A derivation's result as a key, or as the library's error.
pub fn key_of_hash(hash: Result<[u8; 32], String>) -> (r: Result<Key32, Error>)
    ensures
        match hash {
            Ok(h) => r matches Ok(k) && k@ == h@,
            Err(t) => r matches Err(e) && e@ == ErrorView::BadKdfParams(t@),
        },
{
    match hash {
        Ok(h) => Ok(Key32::from_bytes(h)),
        Err(t) => Err(Error::BadKdfParams(t)),
    }
}

/// Derives the key-encryption key from a password.
pub fn derive_kek(password: &[u8], salt: &[u8], params: KdfParams) -> (r: Result<Key32, Error>)
    ensures
        outcome(r) == kdf_outcome(password@, salt@, params),
        r matches Ok(k) ==> k@ == argon2id(
            password@,
            salt@,
            params.m_cost,
            params.t_cost,
            params.p_cost,
        ),
        r is Ok <==> {
            &&& 8 <= params.m_cost
            &&& 8 * params.p_cost <= params.m_cost
            &&& 1 <= params.t_cost
            &&& 1 <= params.p_cost <= 0xff_ffff
            &&& password@.len() <= 0xffff_ffff
            &&& 8 <= salt@.len() <= 0xffff_ffff
        },
{
    if params.p_cost >= 0x2000_0000 {
        return Err(Error::BadKdfParams("memory cost is too small".to_owned()));
    }
    key_of_hash(argon2id_hash(password, salt, params.m_cost, params.t_cost, params.p_cost))
}

// ---------------------------------------------------------------------------
// Authenticated encryption
// ---------------------------------------------------------------------------

/// XChaCha20-Poly1305 encryption: the ciphertext with its tag behind it.
pub uninterp spec fn xchacha_seal(
    key: Seq<u8>,
    nonce: Seq<u8>,
    plaintext: Seq<u8>,
    aad: Seq<u8>,
) -> Seq<u8>;

/// XChaCha20-Poly1305 decryption: the plaintext, or `None` where the tag does
/// not fit.
pub uninterp spec fn xchacha_open(
    key: Seq<u8>,
    nonce: Seq<u8>,
    ciphertext: Seq<u8>,
    aad: Seq<u8>,
) -> Option<Seq<u8>>;

/// The messages that the key stream suffices for: its 32-bit counter numbers the
/// blocks of 64 bytes, and the first block makes the key of the tag.
pub open spec fn sealable(len: nat) -> bool {
    len <= 0xffff_fffe * 64
}

/// Whether the key stream suffices for a message.
fn is_sealable(len: usize) -> (r: bool)
    ensures
        r == sealable(len as nat),
{
    len as u64 <= 0xffff_fffe * 64
}

/// Encrypts by `Aead::encrypt` of `chacha20poly1305::XChaCha20Poly1305`. Messages
/// that the key stream does not suffice for are left out: the crate panics on
/// some of them. On the others it succeeds. What it gives is a function of the
/// arguments, is a tag longer than the message, and decrypts to the message
/// again.
#[verifier::external_body]
fn cipher_encrypt(key: &[u8; 32], nonce: &[u8; 24], plaintext: &[u8], aad: &[u8]) -> (r: Option<
    Vec<u8>,
>)
    requires
        sealable(plaintext@.len()),
        plaintext@.len() + TAG_LEN <= isize::MAX,
    ensures
        r is Some,
        r matches Some(c) ==> {
            &&& c@ == xchacha_seal(key@, nonce@, plaintext@, aad@)
            &&& c@.len() == plaintext@.len() + TAG_LEN
            &&& xchacha_open(key@, nonce@, c@, aad@) == Some(plaintext@)
        },
{
    let cipher = chacha20poly1305::XChaCha20Poly1305::new(key.into());
    cipher.encrypt(nonce.into(), Payload { msg: plaintext, aad }).ok()
}

/// Decrypts by `Aead::decrypt` of `chacha20poly1305::XChaCha20Poly1305`.
/// Ciphertexts that the key stream does not suffice for are left out: the crate
/// panics on some of them. What it gives is a function of the arguments. It succeeds only on what encrypting
/// the plaintext gives: the tag is computed anew and compared, and the rest of
/// the ciphertext is the plaintext combined with the key stream.
#[verifier::external_body]
fn cipher_decrypt(key: &[u8; 32], nonce: &[u8; 24], ciphertext: &[u8], aad: &[u8]) -> (r: Option<
    Vec<u8>,
>)
    requires
        ciphertext@.len() >= TAG_LEN,
        sealable((ciphertext@.len() - TAG_LEN) as nat),
    ensures
        match r {
            Some(p) => {
                &&& xchacha_open(key@, nonce@, ciphertext@, aad@) == Some(p@)
                &&& ciphertext@ == xchacha_seal(key@, nonce@, p@, aad@)
                &&& ciphertext@.len() == p@.len() + TAG_LEN
            },
            None => xchacha_open(key@, nonce@, ciphertext@, aad@) is None,
        },
{
    let cipher = chacha20poly1305::XChaCha20Poly1305::new(key.into());
    cipher.decrypt(nonce.into(), Payload { msg: ciphertext, aad }).ok()
}

/// What sealing gives.
pub open spec fn seal_outcome(
    key: Seq<u8>,
    nonce: Seq<u8>,
    plaintext: Seq<u8>,
    aad: Seq<u8>,
) -> Result<Seq<u8>, ErrorView> {
    if sealable(plaintext.len()) {
        Ok(xchacha_seal(key, nonce, plaintext, aad))
    } else {
        Err(ErrorView::Unauthenticated)
    }
}

/// What opening gives. What is too short to hold a tag, or too long for the key
/// stream, is refused like any other ciphertext.
pub open spec fn open_outcome(
    key: Seq<u8>,
    nonce: Seq<u8>,
    ciphertext: Seq<u8>,
    aad: Seq<u8>,
) -> Result<Seq<u8>, ErrorView> {
    if ciphertext.len() < TAG_LEN || !sealable((ciphertext.len() - TAG_LEN) as nat) {
        Err(ErrorView::Unauthenticated)
    } else {
        match xchacha_open(key, nonce, ciphertext, aad) {
            Some(p) => Ok(p),
            None => Err(ErrorView::Unauthenticated),
        }
    }
}

/// Encrypts and authenticates: the ciphertext with its tag behind it.
///
/// `aad` is authenticated and not encrypted. What was sealed opens again under
/// the same key, nonce and associated data.
pub fn seal(key: &Key32, nonce: &[u8; NONCE_LEN], plaintext: &[u8], aad: &[u8]) -> (r: Result<
    Vec<u8>,
    Error,
>)
    requires
        plaintext@.len() + TAG_LEN <= isize::MAX,
    ensures
        outcome(r) == seal_outcome(key@, nonce@, plaintext@, aad@),
        r is Ok <==> plaintext@.len() <= 0xffff_fffe * 64,
        r matches Ok(c) ==> {
            &&& c@ == xchacha_seal(key@, nonce@, plaintext@, aad@)
            &&& xchacha_open(key@, nonce@, c@, aad@) == Some(plaintext@)
            &&& c@.len() == plaintext@.len() + TAG_LEN
            &&& open_outcome(key@, nonce@, c@, aad@) == Ok::<Seq<u8>, ErrorView>(plaintext@)
        },
{
    if !is_sealable(plaintext.len()) {
        return Err(Error::Unauthenticated);
    }
    match cipher_encrypt(key.as_bytes(), nonce, plaintext, aad) {
        Some(c) => Ok(c),
        None => Err(Error::Unauthenticated),
    }
}

/// Authenticates and decrypts.
///
/// Only what sealing gives opens: the ciphertext is, byte for byte, the seal of
/// the plaintext.
pub fn open(key: &Key32, nonce: &[u8; NONCE_LEN], ciphertext: &[u8], aad: &[u8]) -> (r: Result<
    Vec<u8>,
    Error,
>)
    ensures
        outcome(r) == open_outcome(key@, nonce@, ciphertext@, aad@),
        r is Ok <==> 16 <= ciphertext@.len() <= 16 + 0xffff_fffe * 64 && xchacha_open(
            key@,
            nonce@,
            ciphertext@,
            aad@,
        ) is Some,
        r matches Ok(p) ==> {
            &&& xchacha_open(key@, nonce@, ciphertext@, aad@) == Some(p@)
            &&& ciphertext@ == xchacha_seal(key@, nonce@, p@, aad@)
            &&& ciphertext@.len() == p@.len() + TAG_LEN
        },
{
    if ciphertext.len() < TAG_LEN || !is_sealable(ciphertext.len() - TAG_LEN) {
        return Err(Error::Unauthenticated);
    }
    match cipher_decrypt(key.as_bytes(), nonce, ciphertext, aad) {
        Some(p) => Ok(p),
        None => Err(Error::Unauthenticated),
    }
}

} // verus!
