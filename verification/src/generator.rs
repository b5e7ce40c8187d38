//! Random passwords.
//!
//! All randomness comes from the system's cryptographic source. A random byte
//! is not reduced modulo the number of characters, which would favour the first
//! ones: bytes behind the last full multiple are dropped and drawn again.

use vstd::prelude::*;

use crate::crypto::draw_bytes;
use crate::draws::{draws_without_end, is_failed_draw, Draws};
use crate::error::Error;
use crate::secret::Secret;
use crate::text::chars_of;

verus! {

/// How a password is to be made.
#[derive(Debug, Clone, Copy)]
pub struct GenOptions {
    pub length: usize,
    pub digits: bool,
    pub symbols: bool,
}

impl Default for GenOptions {
    /// Twenty characters, digits and symbols among them.
    fn default() -> (r: GenOptions)
        ensures
            r == (GenOptions { length: 20, digits: true, symbols: true }),
    {
        GenOptions { length: 20, digits: true, symbols: true }
    }
}

// ---------------------------------------------------------------------------
// Characters
// ---------------------------------------------------------------------------

/// The small letters, without `l`.
pub open spec fn lower() -> Seq<char> {
    "abcdefghijkmnopqrstuvwxyz"@
}

/// The capital letters, without `I` and `O`.
pub open spec fn upper() -> Seq<char> {
    "ABCDEFGHJKLMNPQRSTUVWXYZ"@
}

/// The digits, without `0` and `1`.
pub open spec fn digits() -> Seq<char> {
    "23456789"@
}

/// The symbols.
pub open spec fn symbols() -> Seq<char> {
    "!@#$%&*?-"@
}

/// The characters that a password is made of.
pub open spec fn pool(with_digits: bool, with_symbols: bool) -> Seq<char> {
    lower() + upper() + (if with_digits {
        digits()
    } else {
        Seq::empty()
    }) + (if with_symbols {
        symbols()
    } else {
        Seq::empty()
    })
}

/// No character stands in the pool twice, and there are fewer than 256.
pub proof fn pool_has_no_repeats(with_digits: bool, with_symbols: bool)
    ensures
        pool(with_digits, with_symbols).no_duplicates(),
        49 <= pool(with_digits, with_symbols).len() <= 66,
{
    reveal_strlit("abcdefghijkmnopqrstuvwxyz");
    reveal_strlit("ABCDEFGHJKLMNPQRSTUVWXYZ");
    reveal_strlit("23456789");
    reveal_strlit("!@#$%&*?-");
}

/// Which characters a password is made of: the letters without `l`, `I` and `O`, and
/// where they are asked for, the digits from 2 on and nine symbols.
pub proof fn pool_holds(c: char, with_digits: bool, with_symbols: bool)
    ensures
        pool(with_digits, with_symbols).contains(c) <==> {
            ||| 'a' <= c <= 'z' && c != 'l'
            ||| 'A' <= c <= 'Z' && c != 'I' && c != 'O'
            ||| with_digits && '2' <= c <= '9'
            ||| with_symbols && (c == '!' || c == '@' || c == '#' || c == '$' || c == '%' || c == '&'
                || c == '*' || c == '?' || c == '-')
        },
{
    kinds_hold(c);
    let p = pool(with_digits, with_symbols);
    let d = if with_digits {
        digits()
    } else {
        Seq::empty()
    };
    let y = if with_symbols {
        symbols()
    } else {
        Seq::empty()
    };
    assert(p == lower() + upper() + d + y);
    if p.contains(c) {
        let i = choose|i: int| 0 <= i < p.len() && p[i] == c;
        let (a, b, e) = (lower().len(), upper().len(), d.len());
        if i < a {
            assert(lower()[i] == c);
        } else if i < a + b {
            assert(upper()[i - a] == c);
        } else if i < a + b + e {
            assert(d[i - a - b] == c);
        } else {
            assert(y[i - a - b - e] == c);
        }
    }
    if lower().contains(c) {
        let i = choose|i: int| 0 <= i < lower().len() && lower()[i] == c;
        assert(p[i] == c);
    }
    if upper().contains(c) {
        let i = choose|i: int| 0 <= i < upper().len() && upper()[i] == c;
        assert(p[lower().len() + i] == c);
    }
    if d.contains(c) {
        let i = choose|i: int| 0 <= i < d.len() && d[i] == c;
        assert(p[lower().len() + upper().len() + i] == c);
    }
    if y.contains(c) {
        let i = choose|i: int| 0 <= i < y.len() && y[i] == c;
        assert(p[lower().len() + upper().len() + d.len() + i] == c);
    }
}

/// Which characters are of which kind.
proof fn kinds_hold(c: char)
    ensures
        lower().contains(c) <==> 'a' <= c <= 'z' && c != 'l',
        upper().contains(c) <==> 'A' <= c <= 'Z' && c != 'I' && c != 'O',
        digits().contains(c) <==> '2' <= c <= '9',
        symbols().contains(c) <==> (c == '!' || c == '@' || c == '#' || c == '$' || c == '%' || c
            == '&' || c == '*' || c == '?' || c == '-'),
{
    small_letters_hold(c);
    capital_letters_hold(c);
    reveal_strlit("23456789");
    let s = digits();
    assert(s[0] == '2' && s[1] == '3' && s[2] == '4' && s[3] == '5' && s[4] == '6' && s[5] == '7'
        && s[6] == '8' && s[7] == '9');
    reveal_strlit("!@#$%&*?-");
    let t = symbols();
    assert(t[0] == '!' && t[1] == '@' && t[2] == '#' && t[3] == '$' && t[4] == '%' && t[5] == '&'
        && t[6] == '*' && t[7] == '?' && t[8] == '-');
}

proof fn small_letters_hold(c: char)
    ensures
        lower().contains(c) <==> 'a' <= c <= 'z' && c != 'l',
{
    reveal_strlit("abcdefghijkmnopqrstuvwxyz");
    let s = lower();
    assert(s[0] == 'a' && s[1] == 'b' && s[2] == 'c' && s[3] == 'd' && s[4] == 'e' && s[5] == 'f'
        && s[6] == 'g' && s[7] == 'h' && s[8] == 'i' && s[9] == 'j' && s[10] == 'k'
        && s[11] == 'm' && s[12] == 'n' && s[13] == 'o' && s[14] == 'p' && s[15] == 'q'
        && s[16] == 'r' && s[17] == 's' && s[18] == 't' && s[19] == 'u' && s[20] == 'v'
        && s[21] == 'w' && s[22] == 'x' && s[23] == 'y' && s[24] == 'z');
}

proof fn capital_letters_hold(c: char)
    ensures
        upper().contains(c) <==> 'A' <= c <= 'Z' && c != 'I' && c != 'O',
{
    reveal_strlit("ABCDEFGHJKLMNPQRSTUVWXYZ");
    let s = upper();
    assert(s[0] == 'A' && s[1] == 'B' && s[2] == 'C' && s[3] == 'D' && s[4] == 'E' && s[5] == 'F'
        && s[6] == 'G' && s[7] == 'H' && s[8] == 'J' && s[9] == 'K' && s[10] == 'L'
        && s[11] == 'M' && s[12] == 'N' && s[13] == 'P' && s[14] == 'Q' && s[15] == 'R'
        && s[16] == 'S' && s[17] == 'T' && s[18] == 'U' && s[19] == 'V' && s[20] == 'W'
        && s[21] == 'X' && s[22] == 'Y' && s[23] == 'Z');
}

/// Characters that are easily mistaken for one another are not used.
pub proof fn pool_has_no_lookalikes(with_digits: bool, with_symbols: bool)
    ensures
        !pool(with_digits, with_symbols).contains('l'),
        !pool(with_digits, with_symbols).contains('I'),
        !pool(with_digits, with_symbols).contains('1'),
        !pool(with_digits, with_symbols).contains('O'),
        !pool(with_digits, with_symbols).contains('0'),
{
    reveal_strlit("abcdefghijkmnopqrstuvwxyz");
    reveal_strlit("ABCDEFGHJKLMNPQRSTUVWXYZ");
    reveal_strlit("23456789");
    reveal_strlit("!@#$%&*?-");
}

/// The characters of a password that is made as asked for.
fn pool_of(with_digits: bool, with_symbols: bool) -> (r: Vec<char>)
    ensures
        r@ == pool(with_digits, with_symbols),
{
    let mut v = chars_of("abcdefghijkmnopqrstuvwxyz");
    v.append(&mut chars_of("ABCDEFGHJKLMNPQRSTUVWXYZ"));
    if with_digits {
        v.append(&mut chars_of("23456789"));
    }
    if with_symbols {
        v.append(&mut chars_of("!@#$%&*?-"));
    }
    assert(v@ =~= pool(with_digits, with_symbols));
    v
}

// ---------------------------------------------------------------------------
// One character
// ---------------------------------------------------------------------------

/// The largest multiple of `n` up to 256: the bytes below it are used.
pub open spec fn usable(n: int) -> int {
    256int / n * n
}

/// The character that a random byte picks; `None` where the byte is to be
/// dropped.
pub open spec fn choice(pool: Seq<char>, b: u8) -> Option<char> {
    if b < usable(pool.len() as int) {
        Some(pool[b as int % pool.len() as int])
    } else {
        None
    }
}

/// The character that a random byte picks; `None` where the byte is to be
/// dropped.
pub fn pick_byte(pool: &Vec<char>, b: u8) -> (r: Option<char>)
    requires
        0 < pool@.len() <= 256,
    ensures
        r == choice(pool@, b),
{
    let n: u32 = pool.len() as u32;
    assert(256int / n as int * n as int <= 256) by (nonlinear_arith)
        requires
            0 < n <= 256,
    ;
    let limit: u32 = (256 / n) * n;
    if (b as u32) < limit {
        Some(pool[(b as u32 % n) as usize])
    } else {
        None
    }
}

/// The bytes that pick a character.
pub open spec fn bytes_that_pick(pool: Seq<char>, c: char) -> Set<int> {
    Set::new(|b: int| 0 <= b < 256 && choice(pool, b as u8) == Some(c))
}

/// Every character is picked by equally many bytes.
pub proof fn choice_is_unbiased(pool: Seq<char>, c: char)
    requires
        pool.no_duplicates(),
        pool.len() <= 256,
        pool.contains(c),
    ensures
        bytes_that_pick(pool, c).finite(),
        bytes_that_pick(pool, c).len() == 256int / pool.len() as int,
{
    let n = pool.len() as int;
    let j = choose|j: int| 0 <= j < n && pool[j] == c;
    residues(n, j, (256int / n) as nat);
    most_bytes_are_used(n);
    assert forall|b: int| #[trigger]
        bytes_that_pick(pool, c).contains(b) <==> residue_set(n, j, 256int / n).contains(b) by {
        if 0 <= b < usable(n) {
            assert(0 <= b % n < n) by {
                vstd::arithmetic::div_mod::lemma_mod_bound(b, n);
            }
        }
    }
    assert(bytes_that_pick(pool, c) =~= residue_set(n, j, 256int / n));
}

spec fn residue_set(n: int, j: int, k: int) -> Set<int> {
    Set::new(|b: int| 0 <= b < k * n && b % n == j)
}

/// Among the numbers below `k * n`, each remainder occurs `k` times.
proof fn residues(n: int, j: int, k: nat)
    requires
        0 <= j < n,
    ensures
        residue_set(n, j, k as int).finite(),
        residue_set(n, j, k as int).len() == k,
    decreases k,
{
    if k == 0 {
        assert(residue_set(n, j, 0) =~= Set::<int>::empty());
    } else {
        let m = (k - 1) as nat;
        residues(n, j, m);
        let last = m * n + j;
        assert(last % n == j) by {
            vstd::arithmetic::div_mod::lemma_mod_multiples_vanish(m as int, j, n);
            vstd::arithmetic::div_mod::lemma_small_mod(j as nat, n as nat);
            assert(last == n * m + j) by (nonlinear_arith)
                requires
                    last == m * n + j,
            ;
        }
        assert(k * n == m * n + n) by (nonlinear_arith)
            requires
                k == m + 1,
        ;
        assert(residue_set(n, j, k as int) =~= residue_set(n, j, m as int).insert(last)) by {
            assert forall|b: int| #[trigger]
                residue_set(n, j, k as int).contains(b) implies residue_set(
                n,
                j,
                m as int,
            ).insert(last).contains(b) by {
                if b >= m * n {
                    vstd::arithmetic::div_mod::lemma_fundamental_div_mod_converse(
                        b,
                        n,
                        m as int,
                        b - m * n,
                    );
                }
            }
        }
    }
}

/// Fewer than half of all bytes are dropped.
pub proof fn most_bytes_are_used(n: int)
    requires
        0 < n <= 256,
    ensures
        128 < usable(n) <= 256,
{
    vstd::arithmetic::div_mod::lemma_fundamental_div_mod(256, n);
    assert(256int / n * n == n * (256int / n)) by (nonlinear_arith);
    if n > 128 {
        assert(256int / n >= 1) by (nonlinear_arith)
            requires
                0 < n <= 256,
        ;
        assert(256int / n * n >= n) by (nonlinear_arith)
            requires
                256int / n >= 1,
                n > 0,
        ;
    }
}

/// The character that random bytes pick, and how many of them are used: the
/// first usable byte decides, and those before it are dropped. `None` where no
/// byte is usable.
pub open spec fn picked(pool: Seq<char>, bytes: Seq<u8>) -> Option<(char, nat)>
    decreases bytes.len(),
{
    if bytes.len() == 0 {
        None
    } else {
        match choice(pool, bytes[0]) {
            Some(c) => Some((c, 1)),
            None => match picked(pool, bytes.drop_first()) {
                Some((c, used)) => Some((c, used + 1)),
                None => None,
            },
        }
    }
}

/// What bytes pick, they pick whatever comes behind them; and what is picked is
/// in the pool and takes a byte at least.
proof fn picked_stays(pool: Seq<char>, bytes: Seq<u8>, more: Seq<u8>)
    requires
        0 < pool.len() <= 256,
        picked(pool, bytes) is Some,
    ensures
        picked(pool, bytes + more) == picked(pool, bytes),
        picked(pool, bytes) matches Some((c, used)) && 1 <= used <= bytes.len() && pool.contains(c),
    decreases bytes.len(),
{
    assert((bytes + more)[0] == bytes[0]);
    match choice(pool, bytes[0]) {
        Some(c) => {
            vstd::arithmetic::div_mod::lemma_mod_bound(bytes[0] as int, pool.len() as int);
            assert(pool[bytes[0] as int % pool.len() as int] == c);
        },
        None => {
            assert((bytes + more).drop_first() =~= bytes.drop_first() + more);
            picked_stays(pool, bytes.drop_first(), more);
        },
    }
}

/// Bytes of which only the last one is usable pick by the last one.
proof fn last_byte_decides(pool: Seq<char>, dropped: Seq<u8>, b: u8)
    requires
        forall|i: int| 0 <= i < dropped.len() ==> choice(pool, #[trigger] dropped[i]) is None,
        choice(pool, b) is Some,
    ensures
        picked(pool, dropped.push(b)) == Some((choice(pool, b)->0, dropped.len() + 1)),
    decreases dropped.len(),
{
    let all = dropped.push(b);
    if dropped.len() > 0 {
        assert(all[0] == dropped[0]);
        assert(all.drop_first() =~= dropped.drop_first().push(b));
        last_byte_decides(pool, dropped.drop_first(), b);
    }
}

/// Where bytes come from: the random source of the system, or bytes that are
/// given.
struct Source<'a> {
    given: Option<&'a [u8]>,
    at: usize,
    taken: Ghost<Seq<u8>>,
    log: Draws,
    earlier: Ghost<Seq<u8>>,
}

impl<'a> Source<'a> {
    /// Bytes are taken one after the other: of given bytes, from the first one; of
    /// the system, those that are drawn.
    closed spec fn well_formed(&self) -> bool {
        match self.given {
            Some(bytes) => {
                &&& self.at <= bytes@.len() <= usize::MAX
                &&& self.taken@ == bytes@.take(self.at as int)
            },
            None => self.log@ == self.earlier@ + self.taken@,
        }
    }

    /// The given bytes that are left; none where they come from the system.
    closed spec fn left(&self) -> Seq<u8> {
        match self.given {
            Some(bytes) => bytes@.skip(self.at as int),
            None => Seq::empty(),
        }
    }

    /// The source after taking `own`.
    closed spec fn after(&self, own: Seq<u8>, before: Self) -> bool {
        &&& self.well_formed()
        &&& self.given == before.given
        &&& self.earlier@ == before.earlier@
        &&& self.taken@ == before.taken@ + own
        &&& self.given is Some ==> before.left() == own + self.left()
    }

    /// The random source of the system. What is drawn goes into the log, behind
    /// what was drawn before.
    fn system(log: Draws) -> (r: Source<'a>)
        ensures
            r.well_formed(),
            r.given is None,
            r.earlier@ == log@,
            r.taken@ == Seq::<u8>::empty(),
    {
        let ghost earlier = log@;
        let r = Source {
            given: None,
            at: 0,
            taken: Ghost(Seq::empty()),
            log,
            earlier: Ghost(earlier),
        };
        assert(r.log@ =~= earlier + Seq::<u8>::empty());
        r
    }

    /// These bytes.
    fn of(bytes: &'a [u8]) -> (r: Source<'a>)
        ensures
            r.well_formed(),
            r.given == Some(bytes),
            r.taken@ == Seq::<u8>::empty(),
            r.left() == bytes@,
            r.at == 0,
    {
        let r = Source {
            given: Some(bytes),
            at: 0,
            taken: Ghost(Seq::empty()),
            log: Draws::new(),
            earlier: Ghost(Seq::empty()),
        };
        assert(bytes.len() <= usize::MAX);
        assert(bytes@.take(0) =~= Seq::empty());
        assert(bytes@.skip(0) =~= bytes@);
        r
    }

    /// The next byte; `None` where the given bytes are used up. It fails only
    /// where the system does.
    fn next(&mut self) -> (r: Result<Option<u8>, Error>)
        requires
            old(self).well_formed(),
        ensures
            final(self).given == old(self).given,
            match r {
                Ok(Some(b)) => final(self).after(seq![b], *old(self)),
                Ok(None) => {
                    &&& *final(self) == *old(self)
                    &&& old(self).given is Some
                    &&& old(self).left().len() == 0
                },
                Err(e) => e is Random && is_failed_draw(e@) && old(self).given is None,
            },
    {
        match self.given {
            Some(bytes) => {
                if self.at >= bytes.len() {
                    return Ok(None);
                }
                let b: u8 = bytes[self.at];
                self.at = self.at + 1;
                proof {
                    let at = old(self).at as int;
                    self.taken@ = old(self).taken@ + seq![b];
                    assert(bytes@.take(at + 1) =~= bytes@.take(at) + seq![b]);
                    assert(bytes@.skip(at) =~= seq![b] + bytes@.skip(at + 1));
                }
                Ok(Some(b))
            },
            None => {
                let b = draw_bytes::<1>(&mut self.log)?;
                proof {
                    self.taken@ = old(self).taken@ + seq![b@[0]];
                    assert(b@ =~= seq![b@[0]]);
                    assert(self.log@ =~= self.earlier@ + self.taken@);
                }
                Ok(Some(b[0]))
            },
        }
    }
}

/// Picks a character by the first usable byte; `None` where given bytes do not
/// suffice.
///
/// The expected number of bytes is below two; after 2^64 dropped bytes of the
/// system, which no working source gives, it fails.
fn pick(pool: &Vec<char>, source: &mut Source) -> (r: Result<Option<char>, Error>)
    requires
        0 < pool@.len() <= 256,
        old(source).well_formed(),
    ensures
        final(source).given == old(source).given,
        match r {
            Ok(Some(c)) => exists|own: Seq<u8>| #[trigger]
                picked(pool@, own) == Some((c, own.len())) && final(source).after(
                    own,
                    *old(source),
                ),
            Ok(None) => {
                &&& old(source).given is Some
                &&& picked(pool@, old(source).left()) is None
            },
            Err(e) => e is Random && (is_failed_draw(e@) || draws_without_end()) && old(
                source,
            ).given is None,
        },
{
    let mut left: u64 = u64::MAX;
    let ghost mut dropped: Seq<u8> = Seq::empty();
    let ghost before = *source;
    proof {
        assert(source.taken@ =~= before.taken@ + dropped);
        assert(before.left() =~= dropped + source.left());
    }
    loop
        invariant
            0 < pool@.len() <= 256,
            before == *old(source),
            source.after(dropped, before),
            left + dropped.len() == u64::MAX,
            forall|i: int| 0 <= i < dropped.len() ==> choice(pool@, #[trigger] dropped[i]) is None,
        decreases left,
    {
        let ghost was = *source;
        match source.next()? {
            None => {
                proof {
                    assert(before.left() =~= dropped);
                    nothing_is_picked(pool@, dropped);
                }
                return Ok(None);
            },
            Some(b) => {
                proof {
                    assert(dropped.push(b) =~= dropped + seq![b]);
                    assert(source.taken@ =~= before.taken@ + dropped.push(b));
                    if source.given is Some {
                        assert(was.left() == seq![b] + source.left());
                        assert(before.left() =~= dropped.push(b) + source.left());
                    }
                }
                if let Some(c) = pick_byte(pool, b) {
                    proof {
                        last_byte_decides(pool@, dropped, b);
                        assert(picked(pool@, dropped.push(b)) == Some(
                            (c, dropped.push(b).len()),
                        ));
                    }
                    return Ok(Some(c));
                }
                proof {
                    if source.given is Some {
                        assert(before.left().len() <= usize::MAX);
                        assert(dropped.push(b).len() <= before.left().len());
                    }
                }
                if left == 0 {
                    assert(source.log@.len() >= 0xffff_ffff_ffff_ffff);
                    return Err(Error::Random("no usable random byte".to_owned()));
                }
                proof {
                    dropped = dropped.push(b);
                }
                left -= 1;
            },
        }
    }
}

/// Bytes none of which is usable pick nothing.
proof fn nothing_is_picked(pool: Seq<char>, bytes: Seq<u8>)
    requires
        forall|i: int| 0 <= i < bytes.len() ==> choice(pool, #[trigger] bytes[i]) is None,
    ensures
        picked(pool, bytes) is None,
    decreases bytes.len(),
{
    if bytes.len() > 0 {
        assert(choice(pool, bytes[0]) is None);
        assert forall|i: int| 0 <= i < bytes.drop_first().len() implies choice(
            pool,
            #[trigger] bytes.drop_first()[i],
        ) is None by {
            assert(bytes.drop_first()[i] == bytes[i + 1]);
        }
        nothing_is_picked(pool, bytes.drop_first());
    }
}

// ---------------------------------------------------------------------------
// Passwords
// ---------------------------------------------------------------------------

/// A text has a character of a kind.
pub open spec fn has_any(s: Seq<char>, kind: Seq<char>) -> bool {
    exists|i: int| 0 <= i < s.len() && kind.contains(#[trigger] s[i])
}

/// A text has the kinds of characters that are asked for.
pub open spec fn has_kinds(s: Seq<char>, with_digits: bool, with_symbols: bool) -> bool {
    &&& with_digits ==> has_any(s, digits())
    &&& with_symbols ==> has_any(s, symbols())
}

/// The passwords that may be made: of the length asked for, but at least four
/// characters, all from the pool, and with the kinds of characters asked for.
pub open spec fn acceptable(s: Seq<char>, opts: GenOptions) -> bool {
    &&& s.len() == wanted_len(opts)
    &&& forall|i: int|
        0 <= i < s.len() ==> pool(opts.digits, opts.symbols).contains(#[trigger] s[i])
    &&& has_kinds(s, opts.digits, opts.symbols)
}

/// What a password has to be: as long as asked for, but of four characters at least;
/// of letters, without `l`, `I` and `O`, and of digits and symbols only where they are
/// asked for; and with one of each kind that is asked for.
pub proof fn acceptable_passwords(s: Seq<char>, opts: GenOptions)
    ensures
        acceptable(s, opts) <==> {
            &&& s.len() == if opts.length < 4 {
                4
            } else {
                opts.length as nat
            }
            &&& forall|i: int| #![trigger s[i]]
                0 <= i < s.len() ==> {
                    ||| 'a' <= s[i] <= 'z' && s[i] != 'l'
                    ||| 'A' <= s[i] <= 'Z' && s[i] != 'I' && s[i] != 'O'
                    ||| opts.digits && '2' <= s[i] <= '9'
                    ||| opts.symbols && (s[i] == '!' || s[i] == '@' || s[i] == '#' || s[i] == '$'
                        || s[i] == '%' || s[i] == '&' || s[i] == '*' || s[i] == '?' || s[i] == '-')
                }
            &&& opts.digits ==> exists|i: int| 0 <= i < s.len() && '2' <= #[trigger] s[i] <= '9'
            &&& opts.symbols ==> exists|i: int|
                0 <= i < s.len() && ({
                    let c = #[trigger] s[i];
                    c == '!' || c == '@' || c == '#' || c == '$' || c == '%' || c == '&' || c == '*'
                        || c == '?' || c == '-'
                })
        },
{
    assert forall|c: char| #[trigger] pool(opts.digits, opts.symbols).contains(c) <==> {
        ||| 'a' <= c <= 'z' && c != 'l'
        ||| 'A' <= c <= 'Z' && c != 'I' && c != 'O'
        ||| opts.digits && '2' <= c <= '9'
        ||| opts.symbols && (c == '!' || c == '@' || c == '#' || c == '$' || c == '%' || c == '&'
            || c == '*' || c == '?' || c == '-')
    } by {
        pool_holds(c, opts.digits, opts.symbols);
    }
    assert forall|c: char| #[trigger] digits().contains(c) <==> '2' <= c <= '9' by {
        kinds_hold(c);
    }
    assert forall|c: char| #[trigger] symbols().contains(c) <==> (c == '!' || c == '@' || c == '#'
        || c == '$' || c == '%' || c == '&' || c == '*' || c == '?' || c == '-') by {
        kinds_hold(c);
    }
    if opts.digits && has_any(s, digits()) {
        let i = choose|i: int| 0 <= i < s.len() && digits().contains(#[trigger] s[i]);
        assert('2' <= s[i] <= '9');
    }
    if exists|i: int| 0 <= i < s.len() && '2' <= #[trigger] s[i] <= '9' {
        let i = choose|i: int| 0 <= i < s.len() && '2' <= #[trigger] s[i] <= '9';
        assert(digits().contains(s[i]));
    }
    if opts.symbols && has_any(s, symbols()) {
        let i = choose|i: int| 0 <= i < s.len() && symbols().contains(#[trigger] s[i]);
        assert(symbols().contains(s[i]));
    }
    if exists|i: int|
        0 <= i < s.len() && ({
            let c = #[trigger] s[i];
            c == '!' || c == '@' || c == '#' || c == '$' || c == '%' || c == '&' || c == '*' || c
                == '?' || c == '-'
        }) {
        let i = choose|i: int|
            0 <= i < s.len() && ({
                let c = #[trigger] s[i];
                c == '!' || c == '@' || c == '#' || c == '$' || c == '%' || c == '&' || c == '*'
                    || c == '?' || c == '-'
            });
        assert(symbols().contains(s[i]));
    }
}

/// Whether a character is of a kind.
fn is_of(c: char, kind: &Vec<char>) -> (r: bool)
    ensures
        r == kind@.contains(c),
{
    let mut i: usize = 0;
    while i < kind.len()
        invariant
            i <= kind.len(),
            forall|j: int| 0 <= j < i ==> kind@[j] != c,
        decreases kind.len() - i,
    {
        if kind[i] == c {
            return true;
        }
        i += 1;
    }
    false
}

/// Whether a text has a character of a kind.
fn any_of(s: &str, kind: &str) -> (r: bool)
    ensures
        r == has_any(s@, kind@),
{
    let k = chars_of(kind);
    for c in it: s.chars()
        invariant
            it.seq() == s@,
            k@ == kind@,
            forall|j: int| 0 <= j < it.index() ==> !kind@.contains(#[trigger] s@[j]),
    {
        if is_of(c, &k) {
            return true;
        }
    }
    false
}

/// Whether a candidate has the kinds of characters that are asked for.
pub fn meets_options(candidate: &str, opts: GenOptions) -> (r: bool)
    ensures
        r == has_kinds(candidate@, opts.digits, opts.symbols),
{
    (!opts.digits || any_of(candidate, "23456789")) && (!opts.symbols || any_of(
        candidate,
        "!@#$%&*?-",
    ))
}

/// How many characters a password has: as many as asked for, but at least four.
pub open spec fn wanted_len(opts: GenOptions) -> nat {
    if opts.length < 4 {
        4
    } else {
        opts.length as nat
    }
}

/// The first `n` characters that random bytes pick, and how many bytes are used;
/// `None` where there are too few bytes.
pub open spec fn candidate(pool: Seq<char>, n: nat, bytes: Seq<u8>) -> Option<(Seq<char>, nat)>
    decreases n,
{
    if n == 0 {
        Some((Seq::empty(), 0))
    } else {
        match candidate(pool, (n - 1) as nat, bytes) {
            None => None,
            Some((s, used)) => match picked(pool, bytes.skip(used as int)) {
                None => None,
                Some((c, more)) => Some((s.push(c), used + more)),
            },
        }
    }
}

/// The password that random bytes make, and how many of them are used: a
/// candidate without the kinds of characters asked for is dropped as a whole,
/// and the next one is made of the bytes behind it. `None` where there are too
/// few bytes.
pub open spec fn drawn(opts: GenOptions, bytes: Seq<u8>) -> Option<(Seq<char>, nat)>
    decreases bytes.len(),
{
    match candidate(pool(opts.digits, opts.symbols), wanted_len(opts), bytes) {
        None => None,
        Some((s, used)) => if has_kinds(s, opts.digits, opts.symbols) {
            Some((s, used))
        } else {
            proof {
                pool_has_no_repeats(opts.digits, opts.symbols);
                candidate_stays(
                    pool(opts.digits, opts.symbols),
                    wanted_len(opts),
                    bytes,
                    Seq::empty(),
                );
            }
            match drawn(opts, bytes.skip(used as int)) {
                None => None,
                Some((t, more)) => Some((t, used + more)),
            }
        },
    }
}

/// A candidate has its length, comes from the pool, takes a byte for each
/// character at least, and stays the same whatever bytes come behind its own.
pub proof fn candidate_stays(pool: Seq<char>, n: nat, bytes: Seq<u8>, more: Seq<u8>)
    requires
        0 < pool.len() <= 256,
        candidate(pool, n, bytes) is Some,
    ensures
        candidate(pool, n, bytes + more) == candidate(pool, n, bytes),
        candidate(pool, n, bytes) matches Some((s, used)) && s.len() == n && n <= used
            <= bytes.len() && forall|i: int| 0 <= i < n ==> pool.contains(#[trigger] s[i]),
    decreases n,
{
    if n > 0 {
        let m = (n - 1) as nat;
        candidate_stays(pool, m, bytes, more);
        let (s, used) = candidate(pool, m, bytes)->0;
        assert((bytes + more).skip(used as int) =~= bytes.skip(used as int) + more);
        picked_stays(pool, bytes.skip(used as int), more);
        let (c, k) = picked(pool, bytes.skip(used as int))->0;
        assert(candidate(pool, n, bytes) == Some((s.push(c), used + k)));
    }
}

/// What random bytes make is acceptable, and they suffice for it.
pub proof fn drawn_passwords_are_acceptable(opts: GenOptions, bytes: Seq<u8>)
    requires
        drawn(opts, bytes) is Some,
    ensures
        drawn(opts, bytes) matches Some((s, used)) && acceptable(s, opts) && used <= bytes.len(),
    decreases bytes.len(),
{
    let p = pool(opts.digits, opts.symbols);
    pool_has_no_repeats(opts.digits, opts.symbols);
    candidate_stays(p, wanted_len(opts), bytes, Seq::empty());
    let (s, used) = candidate(p, wanted_len(opts), bytes)->0;
    if !has_kinds(s, opts.digits, opts.symbols) {
        drawn_passwords_are_acceptable(opts, bytes.skip(used as int));
    }
}

/// One more character of a candidate.
proof fn candidate_grows(pool: Seq<char>, n: nat, bytes: Seq<u8>, s: Seq<char>, c: char, own: Seq<u8>)
    requires
        0 < pool.len() <= 256,
        candidate(pool, n, bytes) == Some((s, bytes.len())),
        picked(pool, own) == Some((c, own.len())),
    ensures
        candidate(pool, n + 1, bytes + own) == Some((s.push(c), (bytes + own).len())),
{
    candidate_stays(pool, n, bytes, own);
    assert((bytes + own).skip(bytes.len() as int) =~= own);
}

/// A candidate that is dropped is gone with its bytes.
proof fn dropped_candidate(opts: GenOptions, s: Seq<char>, own: Seq<u8>, rest: Seq<u8>)
    requires
        candidate(pool(opts.digits, opts.symbols), wanted_len(opts), own) == Some((s, own.len())),
        !has_kinds(s, opts.digits, opts.symbols),
    ensures
        drawn(opts, own + rest) == match drawn(opts, rest) {
            None => None,
            Some((t, more)) => Some((t, own.len() + more)),
        },
{
    let p = pool(opts.digits, opts.symbols);
    pool_has_no_repeats(opts.digits, opts.symbols);
    candidate_stays(p, wanted_len(opts), own, rest);
    assert((own + rest).skip(own.len() as int) =~= rest);
}

/// How many characters a password has.
fn length_of(opts: GenOptions) -> (r: usize)
    ensures
        r == wanted_len(opts),
{
    if opts.length < 4 {
        4
    } else {
        opts.length
    }
}

/// Where bytes do not suffice for `n + 1` characters, they do not for more.
proof fn candidate_fails(pool: Seq<char>, n: nat, len: nat, bytes: Seq<u8>)
    requires
        n < len,
        candidate(pool, n + 1, bytes) is None,
    ensures
        candidate(pool, len, bytes) is None,
    decreases len,
{
    if n + 1 < len {
        candidate_fails(pool, n, (len - 1) as nat, bytes);
    }
}

/// What a password takes, it takes whatever bytes come behind.
proof fn drawn_stays(opts: GenOptions, bytes: Seq<u8>, more: Seq<u8>)
    requires
        drawn(opts, bytes) is Some,
    ensures
        drawn(opts, bytes + more) == drawn(opts, bytes),
    decreases bytes.len(),
{
    let p = pool(opts.digits, opts.symbols);
    pool_has_no_repeats(opts.digits, opts.symbols);
    candidate_stays(p, wanted_len(opts), bytes, more);
    let (s, used) = candidate(p, wanted_len(opts), bytes)->0;
    if !has_kinds(s, opts.digits, opts.symbols) {
        drawn_stays(opts, bytes.skip(used as int), more);
        assert((bytes + more).skip(used as int) =~= bytes.skip(used as int) + more);
    }
}

/// Makes a candidate of the bytes of a source; `None` where given bytes do not
/// suffice.
fn make_candidate(pool: &Vec<char>, len: usize, source: &mut Source) -> (r: Result<
    Option<String>,
    Error,
>)
    requires
        0 < pool@.len() <= 256,
        len <= isize::MAX,
        old(source).well_formed(),
    ensures
        final(source).given == old(source).given,
        match r {
            Ok(Some(s)) => exists|own: Seq<u8>| #[trigger]
                candidate(pool@, len as nat, own) == Some((s@, own.len())) && final(source).after(
                    own,
                    *old(source),
                ),
            Ok(None) => {
                &&& old(source).given is Some
                &&& candidate(pool@, len as nat, old(source).left()) is None
            },
            Err(e) => e is Random && (is_failed_draw(e@) || draws_without_end()) && old(
                source,
            ).given is None,
        },
{
    let ghost before = *source;
    let ghost mut own: Seq<u8> = Seq::empty();
    let mut out = String::with_capacity(len);
    let mut n: usize = 0;
    proof {
        assert(source.taken@ =~= before.taken@ + own);
        assert(before.left() =~= own + source.left());
    }
    while n < len
        invariant
            0 < pool@.len() <= 256,
            n <= len,
            before == *old(source),
            source.after(own, before),
            candidate(pool@, n as nat, own) == Some((out@, own.len())),
        decreases len - n,
    {
        let ghost was = *source;
        match pick(pool, source)? {
            None => {
                proof {
                    candidate_stays(pool@, n as nat, own, was.left());
                    assert((own + was.left()).skip(own.len() as int) =~= was.left());
                    candidate_fails(pool@, n as nat, len as nat, before.left());
                }
                return Ok(None);
            },
            Some(c) => {
                proof {
                    let b = choose|b: Seq<u8>| #[trigger]
                        picked(pool@, b) == Some((c, b.len())) && source.after(b, was);
                    candidate_grows(pool@, n as nat, own, out@, c, b);
                    assert(source.taken@ =~= before.taken@ + (own + b));
                    if source.given is Some {
                        assert(before.left() =~= (own + b) + source.left());
                    }
                    own = own + b;
                }
                out.push(c);
                n += 1;
            },
        }
    }
    Ok(Some(out))
}

/// Makes a password of the bytes of a source; `None` where given bytes do not
/// suffice. A candidate without the kinds of characters asked for is dropped as
/// a whole and made anew of the bytes behind it.
fn make(opts: GenOptions, source: &mut Source) -> (r: Result<Option<Secret>, Error>)
    requires
        opts.length <= isize::MAX,
        old(source).well_formed(),
    ensures
        final(source).given == old(source).given,
        match r {
            Ok(Some(s)) => exists|own: Seq<u8>| #[trigger]
                drawn(opts, own) == Some((s@, own.len())) && final(source).after(
                    own,
                    *old(source),
                ),
            Ok(None) => {
                &&& old(source).given is Some
                &&& drawn(opts, old(source).left()) is None
            },
            Err(e) => e is Random && (is_failed_draw(e@) || draws_without_end()) && old(
                source,
            ).given is None,
        },
{
    let pool = pool_of(opts.digits, opts.symbols);
    proof {
        pool_has_no_repeats(opts.digits, opts.symbols);
    }
    let len: usize = length_of(opts);
    let mut left: u64 = u64::MAX;
    let ghost before = *source;
    let ghost mut gone: Seq<u8> = Seq::empty();
    proof {
        assert(source.taken@ =~= before.taken@ + gone);
        assert(before.left() =~= gone + source.left());
        assert forall|rest: Seq<u8>| #[trigger] drawn(opts, gone + rest) == match drawn(
            opts,
            rest,
        ) {
            None => None::<(Seq<char>, nat)>,
            Some((t, more)) => Some((t, gone.len() + more)),
        } by {
            assert(gone + rest =~= rest);
        }
    }
    loop
        invariant
            pool@ == self::pool(opts.digits, opts.symbols),
            0 < pool@.len() <= 256,
            opts.length <= isize::MAX,
            len == wanted_len(opts),
            before == *old(source),
            source.after(gone, before),
            u64::MAX <= left + gone.len(),
            forall|rest: Seq<u8>| #[trigger]
                drawn(opts, gone + rest) == match drawn(opts, rest) {
                    None => None::<(Seq<char>, nat)>,
                    Some((t, more)) => Some((t, gone.len() + more)),
                },
        decreases left,
    {
        let ghost was = *source;
        match make_candidate(&pool, len, source)? {
            None => {
                proof {
                    assert(drawn(opts, was.left()) is None);
                    assert(drawn(opts, gone + was.left()) is None);
                }
                return Ok(None);
            },
            Some(out) => {
                let ghost own = choose|own: Seq<u8>| #[trigger]
                    candidate(pool@, len as nat, own) == Some((out@, own.len())) && source.after(
                        own,
                        was,
                    );
                proof {
                    candidate_stays(pool@, len as nat, own, Seq::empty());
                    assert(source.taken@ =~= before.taken@ + (gone + own));
                    if source.given is Some {
                        assert(before.left() =~= (gone + own) + source.left());
                        assert((gone + own).len() <= before.left().len() <= usize::MAX);
                    }
                }
                if meets_options(out.as_str(), opts) {
                    proof {
                        assert(drawn(opts, own) == Some((out@, own.len())));
                        assert(drawn(opts, gone + own) == Some((out@, (gone + own).len())));
                    }
                    return Ok(Some(Secret::from(out)));
                }
                if left == 0 {
                    assert(source.log@.len() >= 0xffff_ffff_ffff_ffff);
                    return Err(Error::Random("no acceptable password".to_owned()));
                }
                proof {
                    let old_gone = gone;
                    gone = old_gone + own;
                    assert forall|rest: Seq<u8>| #[trigger] drawn(opts, gone + rest) == match drawn(
                        opts,
                        rest,
                    ) {
                        None => None::<(Seq<char>, nat)>,
                        Some((t, more)) => Some((t, gone.len() + more)),
                    } by {
                        dropped_candidate(opts, out@, own, rest);
                        assert(gone + rest =~= old_gone + (own + rest));
                    }
                }
                left -= 1;
            },
        }
    }
}

/// The password that given bytes make, and how many of them are used; `None`
/// where there are too few.
pub fn password_of_bytes(opts: GenOptions, bytes: &[u8]) -> (r: Option<(Secret, usize)>)
    requires
        opts.length <= isize::MAX,
    ensures
        match r {
            Some((s, used)) => drawn(opts, bytes@) == Some((s@, used as nat)),
            None => drawn(opts, bytes@) is None,
        },
{
    let mut source = Source::of(bytes);
    let ghost before = source;
    match make(opts, &mut source) {
        Ok(Some(s)) => {
            proof {
                let own = choose|own: Seq<u8>| #[trigger]
                    drawn(opts, own) == Some((s@, own.len())) && source.after(own, before);
                assert(own =~= bytes@.take(source.at as int));
                drawn_stays(opts, own, source.left());
            }
            Some((s, source.at))
        },
        Ok(None) => None,
        Err(_) => None,
    }
}

/// The password is made of the bytes that were drawn: of all of them, and of
/// nothing else.
pub open spec fn is_drawn_password(opts: GenOptions, s: Seq<char>) -> bool {
    exists|log: Draws| drawn(opts, #[trigger] log@) == Some((s, log@.len()))
}

/// Makes a password: the one that the bytes which are drawn make.
///
/// It fails only where the random source does, or after 2^64 dropped bytes or
/// candidates, which no working source gives. [`password_of_bytes`] says which
/// password given bytes make.
pub fn generate(opts: GenOptions) -> (r: Result<Secret, Error>)
    requires
        opts.length <= isize::MAX,
    ensures
        match r {
            Ok(s) => acceptable(s@, opts) && is_drawn_password(opts, s@),
            Err(e) => e is Random && (is_failed_draw(e@) || draws_without_end()),
        },
{
    let mut log = Draws::new();
    let r = draw_password(opts, &mut log);
    proof {
        if r is Ok {
            let s = r->Ok_0;
            assert(log@.skip(0) =~= log@);
            assert(drawn(opts, log@) == Some((s@, log@.len())));
        }
    }
    r
}

/// Makes a password of the bytes that are drawn for it, and takes them down in a
/// log: the log grows by the bytes that make the password, and by no others.
pub fn draw_password(opts: GenOptions, log: &mut Draws) -> (r: Result<Secret, Error>)
    requires
        opts.length <= isize::MAX,
    ensures
        r matches Ok(s) ==> {
            let n = old(log)@.len() as int;
            let own = final(log)@.skip(n);
            &&& n <= final(log)@.len()
            &&& final(log)@.take(n) == old(log)@
            &&& drawn(opts, own) == Some((s@, own.len()))
            &&& acceptable(s@, opts)
        },
        r matches Err(e) ==> e is Random && (is_failed_draw(e@) || draws_without_end()),
{
    let mut own = Draws::new();
    core::mem::swap(log, &mut own);
    let mut source = Source::system(own);
    let ghost before = source;
    let r = make(opts, &mut source);
    proof {
        if r is Ok && r->Ok_0 is Some {
            let s = r->Ok_0->0;
            let bytes = choose|b: Seq<u8>| #[trigger]
                drawn(opts, b) == Some((s@, b.len())) && source.after(b, before);
            drawn_passwords_are_acceptable(opts, bytes);
            let n = old(log)@.len() as int;
            assert(source.log@ =~= old(log)@ + bytes);
            assert(source.log@.take(n) =~= old(log)@);
            assert(source.log@.skip(n) =~= bytes);
        }
    }
    *log = source.log;
    match r {
        Ok(Some(s)) => Ok(s),
        Ok(None) => {
            // The system does not run out of bytes.
            assert(false);
            Err(Error::Random("no random byte".to_owned()))
        },
        Err(e) => Err(e),
    }
}

// ---------------------------------------------------------------------------
// Evenness
// ---------------------------------------------------------------------------

/// The byte strings of the length of a text that pick it character by
/// character.
pub open spec fn bytes_that_spell(pool: Seq<char>, s: Seq<char>) -> Set<Seq<u8>> {
    Set::new(
        |b: Seq<u8>|
            b.len() == s.len() && forall|i: int|
                0 <= i < b.len() ==> choice(pool, #[trigger] b[i]) == Some(s[i]),
    )
}

/// All acceptable passwords are made alike often: of the byte strings of their
/// length, equally many make each of them, without a byte dropped.
pub proof fn passwords_are_even(opts: GenOptions, s: Seq<char>)
    requires
        acceptable(s, opts),
    ensures
        ({
            let p = pool(opts.digits, opts.symbols);
            &&& bytes_that_spell(p, s).finite()
            &&& bytes_that_spell(p, s).len() == vstd::arithmetic::power::pow(
                256int / p.len() as int,
                s.len(),
            )
            &&& forall|b: Seq<u8>| #[trigger]
                bytes_that_spell(p, s).contains(b) ==> drawn(opts, b) == Some((s, s.len()))
        }),
{
    let p = pool(opts.digits, opts.symbols);
    pool_has_no_repeats(opts.digits, opts.symbols);
    spellings(p, s);
    assert forall|b: Seq<u8>| #[trigger] bytes_that_spell(p, s).contains(b) implies drawn(opts, b)
        == Some((s, s.len())) by {
        usable_bytes_spell(p, s, b, s.len());
        assert(s.take(s.len() as int) =~= s);
    }
}

/// Bytes that are all usable make a candidate one by one.
proof fn usable_bytes_spell(pool: Seq<char>, s: Seq<char>, b: Seq<u8>, n: nat)
    requires
        bytes_that_spell(pool, s).contains(b),
        n <= s.len(),
    ensures
        candidate(pool, n, b) == Some((s.take(n as int), n)),
    decreases n,
{
    if n == 0 {
        assert(s.take(0) =~= Seq::<char>::empty());
    } else {
        let m = (n - 1) as nat;
        usable_bytes_spell(pool, s, b, m);
        assert(b.skip(m as int)[0] == b[m as int]);
        assert(choice(pool, b[m as int]) == Some(s[m as int]));
        assert(s.take(n as int) =~= s.take(m as int).push(s[m as int]));
    }
}

/// A text is spelled by as many byte strings as there are choices of a byte for
/// each of its characters.
proof fn spellings(pool: Seq<char>, s: Seq<char>)
    requires
        pool.no_duplicates(),
        pool.len() <= 256,
        forall|i: int| 0 <= i < s.len() ==> pool.contains(#[trigger] s[i]),
    ensures
        bytes_that_spell(pool, s).finite(),
        bytes_that_spell(pool, s).len() == vstd::arithmetic::power::pow(
            256int / pool.len() as int,
            s.len(),
        ),
    decreases s.len(),
{
    reveal(vstd::arithmetic::power::pow);
    let q = 256int / pool.len() as int;
    if s.len() == 0 {
        let one = Set::<Seq<u8>>::empty().insert(Seq::empty());
        assert(bytes_that_spell(pool, s) =~= one) by {
            assert forall|b: Seq<u8>| #[trigger] bytes_that_spell(pool, s).contains(b) implies one.contains(
                b,
            ) by {
                assert(b =~= Seq::<u8>::empty());
            }
        }
    } else {
        let t = s.drop_last();
        assert forall|i: int| 0 <= i < t.len() implies pool.contains(#[trigger] t[i]) by {
            assert(pool.contains(s[i]));
        }
        assert(pool.contains(s[s.len() - 1]));
        spellings(pool, t);
        choice_is_unbiased(pool, s.last());
        let xs = bytes_that_spell(pool, t);
        let ys = bytes_that_pick(pool, s.last());
        extensions(xs, ys);
        assert(bytes_that_spell(pool, s) =~= extended(xs, ys)) by {
            assert forall|b: Seq<u8>| #[trigger] bytes_that_spell(pool, s).contains(b) <==> extended(
                xs,
                ys,
            ).contains(b) by {
                if bytes_that_spell(pool, s).contains(b) {
                    assert forall|i: int| 0 <= i < b.drop_last().len() implies choice(
                        pool,
                        #[trigger] b.drop_last()[i],
                    ) == Some(t[i]) by {
                        assert(choice(pool, b[i]) == Some(s[i]));
                    }
                    assert(choice(pool, b[b.len() - 1]) == Some(s.last()));
                    assert(xs.contains(b.drop_last()));
                }
                if extended(xs, ys).contains(b) {
                    assert forall|i: int| 0 <= i < b.len() implies choice(pool, #[trigger] b[i])
                        == Some(s[i]) by {
                        if i < b.len() - 1 {
                            assert(choice(pool, b.drop_last()[i]) == Some(t[i]));
                        }
                    }
                }
            }
        }
        assert(vstd::arithmetic::power::pow(q, s.len()) == q * vstd::arithmetic::power::pow(
            q,
            t.len(),
        ));
        assert(xs.len() * ys.len() == q * vstd::arithmetic::power::pow(q, t.len()))
            by (nonlinear_arith)
            requires
                xs.len() == vstd::arithmetic::power::pow(q, t.len()),
                ys.len() == q,
        ;
    }
}

/// The strings of `xs`, each with each byte of `ys` behind it.
spec fn extended(xs: Set<Seq<u8>>, ys: Set<int>) -> Set<Seq<u8>> {
    Set::new(
        |b: Seq<u8>| b.len() > 0 && xs.contains(b.drop_last()) && ys.contains(b.last() as int),
    )
}

proof fn extensions(xs: Set<Seq<u8>>, ys: Set<int>)
    requires
        xs.finite(),
        ys.finite(),
        forall|y: int| #[trigger] ys.contains(y) ==> 0 <= y < 256,
    ensures
        extended(xs, ys).finite(),
        extended(xs, ys).len() == xs.len() * ys.len(),
    decreases xs.len(),
{
    if xs.len() == 0 {
        assert(xs =~= Set::<Seq<u8>>::empty());
        assert(extended(xs, ys) =~= Set::<Seq<u8>>::empty());
        assert(xs.len() * ys.len() == 0) by (nonlinear_arith)
            requires
                xs.len() == 0,
        ;
    } else {
        let x = xs.choose();
        let rest = xs.remove(x);
        extensions(rest, ys);
        let f = |y: int| x.push(y as u8);
        let own = ys.map(f);
        assert(vstd::relations::injective_on(f, ys)) by {
            assert forall|a: int, b: int|
                ys.contains(a) && ys.contains(b) && #[trigger] f(a) == #[trigger] f(b) implies a
                == b by {
                assert(x.push(a as u8).last() == a as u8);
                assert(x.push(b as u8).last() == b as u8);
            }
        }
        vstd::set_lib::lemma_map_size(ys, own, f);
        assert forall|b: Seq<u8>| #[trigger] own.contains(b) <==> b.len() > 0 && b.drop_last() == x
            && ys.contains(b.last() as int) by {
            if own.contains(b) {
                let y = choose|y: int| ys.contains(y) && f(y) == b;
                assert(b.drop_last() =~= x);
            }
            if b.len() > 0 && b.drop_last() == x && ys.contains(b.last() as int) {
                assert(f(b.last() as int) =~= b);
            }
        }
        assert(extended(xs, ys) =~= extended(rest, ys).union(own));
        assert(extended(rest, ys).disjoint(own));
        vstd::set_lib::lemma_set_disjoint_lens(extended(rest, ys), own);
        assert(xs.len() * ys.len() == rest.len() * ys.len() + ys.len()) by (nonlinear_arith)
            requires
                xs.len() == rest.len() + 1,
        ;
    }
}

} // verus!
