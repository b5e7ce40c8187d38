//! The vault file.
//!
//! ```text
//! offset  length  field
//! 0       6       magic "LOKAL1"
//! 6       1       format version, 1
//! 7       1       key derivation, 1 for Argon2id
//! 8       4       m_cost, little-endian
//! 12      4       t_cost
//! 16      4       p_cost
//! 20      16      salt
//!                 the 36 bytes above are the prefix
//! 36      24      wrap nonce
//! 60      48      wrapped key, 32 bytes and the tag
//! 108     24      data nonce
//!                 the 132 bytes above are the header
//! 132     ...     ciphertext of the content
//! ```
//!
//! The prefix is the associated data of the wrapped key and the header that of
//! the content, so no byte of either can change unnoticed; that holds for the
//! costs of the key derivation too.

use vstd::prelude::*;
use vstd::slice::slice_subrange;

use crate::crypto::KdfParams;
use crate::error::{outcome, Error, ErrorView};
use crate::text::{decimal, push_padded};

verus! {

/// Length of the prefix.
pub const PREFIX_LEN: usize = 36;

/// Length of the wrapped key: a key and a tag.
pub const WRAPPED_KEY_LEN: usize = 48;

/// Length of the header.
pub const HEADER_LEN: usize = 132;

/// The format version that is written and read.
pub const FORMAT_VERSION: u8 = 1;

/// The identifier of Argon2id.
pub const KDF_ARGON2ID: u8 = 1;

/// The bytes `LOKAL1`.
pub open spec fn magic() -> Seq<u8> {
    seq![76u8, 79u8, 75u8, 65u8, 76u8, 49u8]
}

/// The fields of a header.
pub struct Header {
    pub kdf: KdfParams,
    pub salt: [u8; 16],
    pub wrap_nonce: [u8; 24],
    pub wrapped_key: [u8; 48],
    pub data_nonce: [u8; 24],
}

/// The fields of a header, bytes as sequences.
#[verifier::ext_equal]
pub struct HeaderView {
    pub kdf: KdfParams,
    pub salt: Seq<u8>,
    pub wrap_nonce: Seq<u8>,
    pub wrapped_key: Seq<u8>,
    pub data_nonce: Seq<u8>,
}

impl View for Header {
    type V = HeaderView;

    open spec fn view(&self) -> HeaderView {
        HeaderView {
            kdf: self.kdf,
            salt: self.salt@,
            wrap_nonce: self.wrap_nonce@,
            wrapped_key: self.wrapped_key@,
            data_nonce: self.data_nonce@,
        }
    }
}

impl HeaderView {
    /// The fields have the lengths that the file gives them.
    pub open spec fn valid(self) -> bool {
        &&& self.salt.len() == 16
        &&& self.wrap_nonce.len() == 24
        &&& self.wrapped_key.len() == 48
        &&& self.data_nonce.len() == 24
    }
}

/// A number as four bytes, the lowest first.
pub open spec fn le_bytes(x: u32) -> Seq<u8> {
    seq![
        (x % 256) as u8,
        (x / 256 % 256) as u8,
        (x / 65536 % 256) as u8,
        (x / 16777216) as u8,
    ]
}

/// The number that four bytes stand for, the lowest first.
pub open spec fn le_value(s: Seq<u8>) -> u32 {
    (s[0] + 256 * s[1] + 65536 * s[2] + 16777216 * s[3]) as u32
}

/// The first 36 bytes of a file.
pub open spec fn prefix_bytes(kdf: KdfParams, salt: Seq<u8>) -> Seq<u8> {
    magic() + seq![FORMAT_VERSION, KDF_ARGON2ID] + le_bytes(kdf.m_cost)
        + le_bytes(kdf.t_cost) + le_bytes(kdf.p_cost) + salt
}

/// The first 132 bytes of a file.
pub open spec fn header_bytes(h: HeaderView) -> Seq<u8> {
    prefix_bytes(h.kdf, h.salt) + h.wrap_nonce + h.wrapped_key + h.data_nonce
}

/// The fields that stand in the first 132 bytes of a file.
pub open spec fn header_fields(bytes: Seq<u8>) -> HeaderView {
    HeaderView {
        kdf: KdfParams {
            m_cost: le_value(bytes.subrange(8, 12)),
            t_cost: le_value(bytes.subrange(12, 16)),
            p_cost: le_value(bytes.subrange(16, 20)),
        },
        salt: bytes.subrange(20, 36),
        wrap_nonce: bytes.subrange(36, 60),
        wrapped_key: bytes.subrange(60, 108),
        data_nonce: bytes.subrange(108, 132),
    }
}

/// What reading the header of a file gives. The checks come in this order.
pub open spec fn header_outcome(bytes: Seq<u8>) -> Result<HeaderView, ErrorView> {
    if bytes.len() < HEADER_LEN {
        Err(ErrorView::Truncated)
    } else if bytes.take(6) != magic() {
        Err(ErrorView::BadMagic)
    } else if bytes[6] != FORMAT_VERSION {
        Err(ErrorView::UnsupportedVersion { found: bytes[6], supported: FORMAT_VERSION })
    } else if bytes[7] != KDF_ARGON2ID {
        Err(ErrorView::BadKdfParams("未知 KDF 标识 "@ + decimal(bytes[7] as nat)))
    } else {
        Ok(header_fields(bytes))
    }
}

// ---------------------------------------------------------------------------
// Laws
// ---------------------------------------------------------------------------

/// Writing a number and reading it back, either way round.
pub proof fn le_bytes_read_back()
    ensures
        forall|x: u32| #[trigger] le_bytes(x).len() == 4 && le_value(le_bytes(x)) == x,
        forall|s: Seq<u8>| s.len() == 4 ==> le_bytes(#[trigger] le_value(s)) == s,
{
    assert forall|s: Seq<u8>| s.len() == 4 implies le_bytes(#[trigger] le_value(s)) == s by {
        assert(le_bytes(le_value(s)) =~= s);
    }
}

/// The prefix is 36 bytes long, whatever it holds.
pub proof fn prefix_has_its_length(kdf: KdfParams, salt: Seq<u8>)
    requires
        salt.len() == 16,
    ensures
        prefix_bytes(kdf, salt).len() == PREFIX_LEN,
{
    le_bytes_read_back();
}

/// A prefix ends with the salt, and what stands before it is the same for all
/// salts.
pub proof fn prefix_ends_with_the_salt(kdf: KdfParams, salt: Seq<u8>, other: Seq<u8>)
    requires
        salt.len() == 16,
        other.len() == 16,
    ensures
        prefix_bytes(kdf, salt).subrange(20, 36) == salt,
        prefix_bytes(kdf, salt).take(20) == prefix_bytes(kdf, other).take(20),
{
    prefix_has_its_length(kdf, salt);
    prefix_has_its_length(kdf, other);
    assert(prefix_bytes(kdf, salt).subrange(20, 36) =~= salt);
    assert(prefix_bytes(kdf, salt).take(20) =~= prefix_bytes(kdf, other).take(20));
}

/// Reading a header gives back what was written, whatever stands behind it.
pub proof fn header_reads_back(h: HeaderView, rest: Seq<u8>)
    requires
        h.valid(),
    ensures
        header_bytes(h).len() == HEADER_LEN,
        header_outcome(header_bytes(h) + rest) == Ok::<HeaderView, ErrorView>(h),
        (header_bytes(h) + rest).take(PREFIX_LEN as int) == prefix_bytes(h.kdf, h.salt),
        (header_bytes(h) + rest).take(HEADER_LEN as int) == header_bytes(h),
        (header_bytes(h) + rest).skip(HEADER_LEN as int) == rest,
{
    le_bytes_read_back();
    let b = header_bytes(h) + rest;
    assert(b.take(6) =~= magic());
    assert(b.subrange(8, 12) =~= le_bytes(h.kdf.m_cost));
    assert(b.subrange(12, 16) =~= le_bytes(h.kdf.t_cost));
    assert(b.subrange(16, 20) =~= le_bytes(h.kdf.p_cost));
    assert(b.subrange(20, 36) =~= h.salt);
    assert(b.subrange(36, 60) =~= h.wrap_nonce);
    assert(b.subrange(60, 108) =~= h.wrapped_key);
    assert(b.subrange(108, 132) =~= h.data_nonce);
    assert(header_fields(b) =~= h);
    assert(b.take(36) =~= prefix_bytes(h.kdf, h.salt));
    assert(b.take(132) =~= header_bytes(h));
    assert(b.skip(132) =~= rest);
}

/// A header that reads is, byte for byte, the one that its fields are written
/// as: no two headers read alike.
pub proof fn header_determines_its_bytes(bytes: Seq<u8>)
    requires
        header_outcome(bytes) is Ok,
    ensures
        header_fields(bytes).valid(),
        bytes.take(HEADER_LEN as int) == header_bytes(header_fields(bytes)),
        bytes.take(PREFIX_LEN as int) == prefix_bytes(
            header_fields(bytes).kdf,
            header_fields(bytes).salt,
        ),
{
    le_bytes_read_back();
    let h = header_fields(bytes);
    assert(le_bytes(h.kdf.m_cost) == bytes.subrange(8, 12));
    assert(le_bytes(h.kdf.t_cost) == bytes.subrange(12, 16));
    assert(le_bytes(h.kdf.p_cost) == bytes.subrange(16, 20));
    assert(bytes.take(6)[0] == bytes[0] && bytes.take(6)[1] == bytes[1] && bytes.take(6)[2]
        == bytes[2] && bytes.take(6)[3] == bytes[3] && bytes.take(6)[4] == bytes[4]
        && bytes.take(6)[5] == bytes[5]);
    assert(bytes.take(36) =~= prefix_bytes(h.kdf, h.salt));
    assert(bytes.take(132) =~= header_bytes(h));
}

/// Different costs or a different salt make a different prefix: what
/// authenticates the prefix authenticates the costs.
pub proof fn prefix_is_injective(kdf1: KdfParams, salt1: Seq<u8>, kdf2: KdfParams, salt2: Seq<u8>)
    requires
        salt1.len() == 16,
        salt2.len() == 16,
        prefix_bytes(kdf1, salt1) == prefix_bytes(kdf2, salt2),
    ensures
        kdf1 == kdf2,
        salt1 == salt2,
{
    le_bytes_read_back();
    let p = prefix_bytes(kdf1, salt1);
    assert(p.subrange(8, 12) =~= le_bytes(kdf1.m_cost));
    assert(p.subrange(12, 16) =~= le_bytes(kdf1.t_cost));
    assert(p.subrange(16, 20) =~= le_bytes(kdf1.p_cost));
    assert(p.subrange(20, 36) =~= salt1);
    assert(p.subrange(8, 12) =~= le_bytes(kdf2.m_cost));
    assert(p.subrange(12, 16) =~= le_bytes(kdf2.t_cost));
    assert(p.subrange(16, 20) =~= le_bytes(kdf2.p_cost));
    assert(p.subrange(20, 36) =~= salt2);
}

/// Where everything stands in a file, byte by byte: `LOKAL1`, version and key
/// derivation, the three costs with their lowest byte first, the salt, the nonce
/// and the wrapped key, and the nonce of the content.
pub proof fn fields_have_their_places(h: HeaderView, rest: Seq<u8>)
    requires
        h.valid(),
    ensures
        ({
            let b = header_bytes(h) + rest;
            &&& b.len() == 132 + rest.len()
            &&& b[0] == 0x4c && b[1] == 0x4f && b[2] == 0x4b && b[3] == 0x41 && b[4] == 0x4c && b[5]
                == 0x31
            &&& b[6] == 1 && b[7] == 1
            &&& h.kdf.m_cost == b[8] + 0x100 * b[9] + 0x1_0000 * b[10] + 0x100_0000 * b[11]
            &&& h.kdf.t_cost == b[12] + 0x100 * b[13] + 0x1_0000 * b[14] + 0x100_0000 * b[15]
            &&& h.kdf.p_cost == b[16] + 0x100 * b[17] + 0x1_0000 * b[18] + 0x100_0000 * b[19]
            &&& b.subrange(20, 36) == h.salt
            &&& b.subrange(36, 60) == h.wrap_nonce
            &&& b.subrange(60, 108) == h.wrapped_key
            &&& b.subrange(108, 132) == h.data_nonce
            &&& b.skip(132) == rest
            &&& b.take(36) == prefix_bytes(h.kdf, h.salt)
            &&& b.take(132) == header_bytes(h)
        }),
{
    header_reads_back(h, rest);
    let b = header_bytes(h) + rest;
    assert(header_fields(b) == h);
    assert(b.take(6) == magic());
    assert(b.take(6)[0] == b[0] && b.take(6)[1] == b[1] && b.take(6)[2] == b[2] && b.take(6)[3]
        == b[3] && b.take(6)[4] == b[4] && b.take(6)[5] == b[5]);
}

/// A file is read as a vault where it has 132 bytes, begins with `LOKAL1`, and its
/// version and key derivation are 1. Otherwise the first of these that fails is
/// named. What is read is what stands in its place.
pub proof fn headers_are_refused_for_a_reason(b: Seq<u8>)
    ensures
        ({
            let long = b.len() >= 132;
            let named = b[0] == 0x4c && b[1] == 0x4f && b[2] == 0x4b && b[3] == 0x41 && b[4] == 0x4c
                && b[5] == 0x31;
            &&& header_outcome(b) == Err::<HeaderView, ErrorView>(ErrorView::Truncated) <==> !long
            &&& header_outcome(b) == Err::<HeaderView, ErrorView>(ErrorView::BadMagic) <==> long
                && !named
            &&& (header_outcome(b) matches Err(e) && e is UnsupportedVersion) <==> long && named
                && b[6] != 1
            &&& header_outcome(b) matches Err(
                ErrorView::UnsupportedVersion { found, supported },
            ) ==> found == b[6] && supported == 1
            &&& (header_outcome(b) matches Err(e) && e is BadKdfParams) <==> long && named && b[6]
                == 1 && b[7] != 1
            &&& header_outcome(b) is Ok <==> long && named && b[6] == 1 && b[7] == 1
            &&& header_outcome(b) matches Ok(h) ==> {
                &&& h.kdf.m_cost == b[8] + 0x100 * b[9] + 0x1_0000 * b[10] + 0x100_0000 * b[11]
                &&& h.kdf.t_cost == b[12] + 0x100 * b[13] + 0x1_0000 * b[14] + 0x100_0000 * b[15]
                &&& h.kdf.p_cost == b[16] + 0x100 * b[17] + 0x1_0000 * b[18] + 0x100_0000 * b[19]
                &&& h.salt == b.subrange(20, 36)
                &&& h.wrap_nonce == b.subrange(36, 60)
                &&& h.wrapped_key == b.subrange(60, 108)
                &&& h.data_nonce == b.subrange(108, 132)
            }
        }),
{
    if b.len() >= 132 {
        let m = b.take(6);
        assert(m[0] == b[0] && m[1] == b[1] && m[2] == b[2] && m[3] == b[3] && m[4] == b[4] && m[5]
            == b[5]);
        if b[0] == 0x4c && b[1] == 0x4f && b[2] == 0x4b && b[3] == 0x41 && b[4] == 0x4c && b[5]
            == 0x31 {
            assert(m =~= magic());
        }
    }
}

// ---------------------------------------------------------------------------
// Reading and writing
// ---------------------------------------------------------------------------

/// A slice as an array of its length.
pub fn array_of<const N: usize>(s: &[u8]) -> (r: [u8; N])
    requires
        s@.len() == N,
    ensures
        r@ == s@,
{
    let mut a = [0u8; N];
    let mut i: usize = 0;
    while i < N
        invariant
            i <= N,
            s@.len() == N,
            forall|j: int| 0 <= j < i ==> a@[j] == s@[j],
        decreases N - i,
    {
        a[i] = s[i];
        i += 1;
    }
    assert(a@ =~= s@);
    a
}

/// Appends bytes.
pub fn push_bytes(v: &mut Vec<u8>, s: &[u8])
    ensures
        final(v)@ == old(v)@ + s@,
{
    v.extend_from_slice(s);
    assert(v@ =~= old(v)@ + s@);
}

/// Appends a number as four bytes, the lowest first.
fn push_le(v: &mut Vec<u8>, x: u32)
    ensures
        final(v)@ == old(v)@ + le_bytes(x),
{
    v.push((x % 256) as u8);
    v.push((x / 256 % 256) as u8);
    v.push((x / 65536 % 256) as u8);
    v.push((x / 16777216) as u8);
    assert(v@ =~= old(v)@ + le_bytes(x));
}

/// The number that stands at `at`, the lowest byte first.
fn read_le(bytes: &[u8], at: usize) -> (r: u32)
    requires
        at + 4 <= bytes@.len(),
    ensures
        r == le_value(bytes@.subrange(at as int, at + 4)),
{
    bytes[at] as u32 + 256 * (bytes[at + 1] as u32) + 65536 * (bytes[at + 2] as u32) + 16777216 * (
    bytes[at + 3] as u32)
}

/// The prefix of a file.
pub fn build_prefix(kdf: KdfParams, salt: &[u8; 16]) -> (r: [u8; 36])
    ensures
        r@ == prefix_bytes(kdf, salt@),
{
    proof {
        prefix_has_its_length(kdf, salt@);
    }
    let mut p: Vec<u8> = vec![76u8, 79u8, 75u8, 65u8, 76u8, 49u8];
    assert(p@ =~= magic());
    p.push(FORMAT_VERSION);
    p.push(KDF_ARGON2ID);
    assert(p@ =~= magic() + seq![FORMAT_VERSION, KDF_ARGON2ID]);
    push_le(&mut p, kdf.m_cost);
    push_le(&mut p, kdf.t_cost);
    push_le(&mut p, kdf.p_cost);
    push_bytes(&mut p, salt.as_slice());
    array_of::<36>(p.as_slice())
}

/// The header of a file.
pub fn build_header(h: &Header) -> (r: Vec<u8>)
    ensures
        r@ == header_bytes(h@),
        r@.len() == HEADER_LEN,
{
    proof {
        prefix_has_its_length(h.kdf, h.salt@);
    }
    let mut out: Vec<u8> = Vec::new();
    let prefix = build_prefix(h.kdf, &h.salt);
    push_bytes(&mut out, prefix.as_slice());
    assert(out@ =~= prefix@);
    push_bytes(&mut out, h.wrap_nonce.as_slice());
    push_bytes(&mut out, h.wrapped_key.as_slice());
    push_bytes(&mut out, h.data_nonce.as_slice());
    out
}

/// Whether a file begins with the magic.
fn has_magic(bytes: &[u8]) -> (r: bool)
    requires
        bytes@.len() >= 6,
    ensures
        r == (bytes@.take(6) == magic()),
{
    let r = bytes[0] == 76 && bytes[1] == 79 && bytes[2] == 75 && bytes[3] == 65 && bytes[4] == 76
        && bytes[5] == 49;
    proof {
        if r {
            assert(bytes@.take(6) =~= magic());
        } else {
            assert(bytes@.take(6)[0] == bytes@[0] && bytes@.take(6)[1] == bytes@[1]
                && bytes@.take(6)[2] == bytes@[2] && bytes@.take(6)[3] == bytes@[3]
                && bytes@.take(6)[4] == bytes@[4] && bytes@.take(6)[5] == bytes@[5]);
        }
    }
    r
}

/// Reads the header of a file.
pub fn parse_header(bytes: &[u8]) -> (r: Result<Header, Error>)
    ensures
        outcome(r) == header_outcome(bytes@),
{
    if bytes.len() < HEADER_LEN {
        return Err(Error::Truncated);
    }
    if !has_magic(bytes) {
        return Err(Error::BadMagic);
    }
    let version: u8 = bytes[6];
    if version != FORMAT_VERSION {
        return Err(Error::UnsupportedVersion { found: version, supported: FORMAT_VERSION });
    }
    if bytes[7] != KDF_ARGON2ID {
        let mut s = "未知 KDF 标识 ".to_owned();
        push_padded(&mut s, bytes[7] as u64, 1);
        return Err(Error::BadKdfParams(s));
    }
    let h = Header {
        kdf: KdfParams {
            m_cost: read_le(bytes, 8),
            t_cost: read_le(bytes, 12),
            p_cost: read_le(bytes, 16),
        },
        salt: array_of::<16>(slice_subrange(bytes, 20, 36)),
        wrap_nonce: array_of::<24>(slice_subrange(bytes, 36, 60)),
        wrapped_key: array_of::<48>(slice_subrange(bytes, 60, 108)),
        data_nonce: array_of::<24>(slice_subrange(bytes, 108, 132)),
    };
    assert(h@ =~= header_fields(bytes@));
    Ok(h)
}

} // verus!
