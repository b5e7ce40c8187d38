//! Strings as sequences of characters: what the rest of the library needs of
//! them, stated over `Seq<char>`.
//!
//! The Unicode-aware operations come from the standard library and are
//! specified here; everything built on top of them is proved.

use vstd::prelude::*;
use vstd::string::StringExecFns;
use vstd::utf8::is_ascii_chars;

verus! {

// ---------------------------------------------------------------------------
// Standard library operations on strings and characters
// ---------------------------------------------------------------------------

/// `String::push` appends one character.
pub assume_specification[ String::push ](s: &mut String, c: char)
    ensures
        final(s)@ == old(s)@.push(c),
;

/// `String::with_capacity` makes an empty text; it panics where the capacity is
/// more than `isize::MAX` bytes.
pub assume_specification[ String::with_capacity ](capacity: usize) -> (r: String)
    requires
        capacity <= isize::MAX,
    ensures
        r@ == Seq::<char>::empty(),
;

/// The characters with the Unicode property `White_Space`.
pub open spec fn is_white_space(c: char) -> bool {
    let u = c as int;
    ||| 0x09 <= u <= 0x0d
    ||| u == 0x20
    ||| u == 0x85
    ||| u == 0xa0
    ||| u == 0x1680
    ||| 0x2000 <= u <= 0x200a
    ||| u == 0x2028
    ||| u == 0x2029
    ||| u == 0x202f
    ||| u == 0x205f
    ||| u == 0x3000
}

/// `s` without its leading white space.
pub open spec fn trimmed_start(s: Seq<char>) -> Seq<char>
    decreases s.len(),
{
    if s.len() > 0 && is_white_space(s[0]) {
        trimmed_start(s.drop_first())
    } else {
        s
    }
}

/// `s` without its trailing white space.
pub open spec fn trimmed_end(s: Seq<char>) -> Seq<char>
    decreases s.len(),
{
    if s.len() > 0 && is_white_space(s.last()) {
        trimmed_end(s.drop_last())
    } else {
        s
    }
}

/// `s` without its leading and trailing white space.
pub open spec fn trimmed(s: Seq<char>) -> Seq<char> {
    trimmed_end(trimmed_start(s))
}

/// `str::trim` removes leading and trailing white space.
pub assume_specification[ str::trim ](s: &str) -> (r: &str)
    ensures
        r@ == trimmed(s@),
;

/// An ASCII capital letter as a small one; every other character as it is.
pub open spec fn ascii_lower(c: char) -> char {
    if 'A' <= c <= 'Z' {
        (c as u8 + 32) as u8 as char
    } else {
        c
    }
}

/// An ASCII small letter as a capital one; every other character as it is.
pub open spec fn ascii_upper(c: char) -> char {
    if 'a' <= c <= 'z' {
        (c as u8 - 32) as u8 as char
    } else {
        c
    }
}

/// What `str::to_lowercase` makes of a text that is not all ASCII: Unicode
/// lower-casing.
pub uninterp spec fn unicode_lowercase(s: Seq<char>) -> Seq<char>;

/// A text in small letters.
pub open spec fn lowercase(s: Seq<char>) -> Seq<char> {
    if is_ascii_chars(s) {
        s.map_values(|c: char| ascii_lower(c))
    } else {
        unicode_lowercase(s)
    }
}

/// `str::to_lowercase` is a function of the text; on ASCII text it lowers the
/// capital letters and keeps the rest.
pub assume_specification[ str::to_lowercase ](s: &str) -> (r: String)
    ensures
        is_ascii_chars(s@) ==> r@ == s@.map_values(|c: char| ascii_lower(c)),
        !is_ascii_chars(s@) ==> r@ == unicode_lowercase(s@),
;

/// What `char::is_alphanumeric` says of a character that is not ASCII.
pub uninterp spec fn unicode_alphanumeric(c: char) -> bool;

/// A character is a letter or a digit.
pub open spec fn alphanumeric(c: char) -> bool {
    if (c as int) < 128 {
        'a' <= c <= 'z' || 'A' <= c <= 'Z' || '0' <= c <= '9'
    } else {
        unicode_alphanumeric(c)
    }
}

/// `char::is_alphanumeric` is a function of the character; on ASCII it holds of
/// the letters and the digits.
pub assume_specification[ char::is_alphanumeric ](c: char) -> (r: bool)
    ensures
        (c as int) < 128 ==> r == ('a' <= c <= 'z' || 'A' <= c <= 'Z' || '0' <= c <= '9'),
        (c as int) >= 128 ==> r == unicode_alphanumeric(c),
;

/// What `char::to_uppercase` makes of a character that is not ASCII.
pub uninterp spec fn unicode_uppercase(c: char) -> Seq<char>;

/// A character as a capital: one or more characters.
pub open spec fn uppercase(c: char) -> Seq<char> {
    if (c as int) < 128 {
        seq![ascii_upper(c)]
    } else {
        unicode_uppercase(c)
    }
}

/// The upper-case form of a character, by `char::to_uppercase`: a function of
/// the character; an ASCII character has its ASCII capital.
#[verifier::external_body]
pub(crate) fn to_uppercase(c: char) -> (r: String)
    ensures
        (c as int) < 128 ==> r@ == seq![ascii_upper(c)],
        (c as int) >= 128 ==> r@ == unicode_uppercase(c),
{
    c.to_uppercase().to_string()
}

/// `String::from` on a text gives a string with that text.
pub assume_specification<'a>[ <String as From<&'a str>>::from ](s: &str) -> (r: String)
    ensures
        r@ == s@,
;

/// ASCII texts that differ in case only are trimmed to texts that differ in case
/// only.
pub proof fn trimming_ignores_case(a: Seq<char>, b: Seq<char>)
    requires
        is_ascii_chars(a),
        is_ascii_chars(b),
        lowercase(a) == lowercase(b),
    ensures
        lowercase(trimmed(a)) == lowercase(trimmed(b)),
{
    trimming_starts_ignores_case(a, b);
    trimming_ends_ignores_case(trimmed_start(a), trimmed_start(b));
}

/// Characters of ASCII texts that differ in case only are white space alike.
proof fn spaces_are_alike(a: Seq<char>, b: Seq<char>, i: int)
    requires
        is_ascii_chars(a),
        is_ascii_chars(b),
        lowercase(a) == lowercase(b),
        0 <= i < a.len(),
    ensures
        a.len() == b.len(),
        is_white_space(a[i]) == is_white_space(b[i]),
{
    assert(lowercase(a).len() == a.len() && lowercase(b).len() == b.len());
    assert(lowercase(a)[i] == ascii_lower(a[i]));
    assert(lowercase(b)[i] == ascii_lower(b[i]));
}

proof fn trimming_starts_ignores_case(a: Seq<char>, b: Seq<char>)
    requires
        is_ascii_chars(a),
        is_ascii_chars(b),
        lowercase(a) == lowercase(b),
    ensures
        is_ascii_chars(trimmed_start(a)),
        is_ascii_chars(trimmed_start(b)),
        lowercase(trimmed_start(a)) == lowercase(trimmed_start(b)),
    decreases a.len(),
{
    assert(lowercase(a).len() == a.len() && lowercase(b).len() == b.len());
    if a.len() > 0 {
        spaces_are_alike(a, b, 0);
        if is_white_space(a[0]) {
            assert(lowercase(a.drop_first()) =~= lowercase(a).drop_first());
            assert(lowercase(b.drop_first()) =~= lowercase(b).drop_first());
            trimming_starts_ignores_case(a.drop_first(), b.drop_first());
        }
    }
}

proof fn trimming_ends_ignores_case(a: Seq<char>, b: Seq<char>)
    requires
        is_ascii_chars(a),
        is_ascii_chars(b),
        lowercase(a) == lowercase(b),
    ensures
        lowercase(trimmed_end(a)) == lowercase(trimmed_end(b)),
    decreases a.len(),
{
    assert(lowercase(a).len() == a.len() && lowercase(b).len() == b.len());
    if a.len() > 0 {
        spaces_are_alike(a, b, a.len() - 1);
        if is_white_space(a.last()) {
            assert(lowercase(a.drop_last()) =~= lowercase(a).drop_last());
            assert(lowercase(b.drop_last()) =~= lowercase(b).drop_last());
            trimming_ends_ignores_case(a.drop_last(), b.drop_last());
        }
    }
}

// ---------------------------------------------------------------------------
// Searching
// ---------------------------------------------------------------------------

/// `needle` stands in `hay` at position `i`.
pub open spec fn occurs_at(hay: Seq<char>, needle: Seq<char>, i: int) -> bool {
    &&& 0 <= i
    &&& i + needle.len() <= hay.len()
    &&& hay.subrange(i, i + needle.len()) == needle
}

/// `needle` is a contiguous part of `hay`.
pub open spec fn contains_text(hay: Seq<char>, needle: Seq<char>) -> bool {
    exists|i: int| #[trigger] occurs_at(hay, needle, i)
}

/// `s` begins with `prefix`.
pub open spec fn begins_with(s: Seq<char>, prefix: Seq<char>) -> bool {
    prefix.len() <= s.len() && s.take(prefix.len() as int) == prefix
}

/// `s` ends with `suffix`.
pub open spec fn finishes_with(s: Seq<char>, suffix: Seq<char>) -> bool {
    suffix.len() <= s.len() && s.skip(s.len() - suffix.len()) == suffix
}

/// Strings as sequences of characters.
pub open spec fn texts(s: Seq<String>) -> Seq<Seq<char>> {
    Seq::new(s.len(), |i: int| s[i]@)
}

/// Borrowed texts as sequences of characters.
pub open spec fn parts(s: Seq<&str>) -> Seq<Seq<char>> {
    Seq::new(s.len(), |i: int| s[i]@)
}

/// The characters of a text.
pub fn chars_of(s: &str) -> (r: Vec<char>)
    ensures
        r@ == s@,
{
    let mut v: Vec<char> = Vec::new();
    for c in it: s.chars()
        invariant
            it.seq() == s@,
            v@ == s@.take(it.index()),
    {
        v.push(c);
        assert(s@.take(it.index() + 1) == s@.take(it.index()).push(c));
    }
    assert(s@.take(s@.len() as int) == s@);
    v
}

/// The text made of the characters `v[from..to]`.
pub fn text_of(v: &Vec<char>, from: usize, to: usize) -> (r: String)
    requires
        from <= to <= v.len(),
    ensures
        r@ == v@.subrange(from as int, to as int),
{
    let mut s = String::new();
    let mut i: usize = from;
    while i < to
        invariant
            from <= i <= to <= v.len(),
            s@ == v@.subrange(from as int, i as int),
        decreases to - i,
    {
        s.push(v[i]);
        assert(v@.subrange(from as int, i + 1) == v@.subrange(from as int, i as int).push(v@[i as int]));
        i += 1;
    }
    s
}

/// Whether `needle` stands in `hay` at position `at`.
pub fn stands_at(hay: &Vec<char>, needle: &Vec<char>, at: usize) -> (r: bool)
    requires
        at + needle.len() <= hay.len(),
    ensures
        r == occurs_at(hay@, needle@, at as int),
{
    let mut i: usize = 0;
    while i < needle.len()
        invariant
            i <= needle.len(),
            at + needle.len() <= hay.len(),
            forall|j: int| 0 <= j < i ==> hay@[at + j] == needle@[j],
        decreases needle.len() - i,
    {
        if hay[at + i] != needle[i] {
            assert(hay@.subrange(at as int, at + needle.len())[i as int] != needle@[i as int]);
            return false;
        }
        i += 1;
    }
    assert(hay@.subrange(at as int, at + needle.len()) =~= needle@);
    true
}

/// Whether `needle` is a contiguous part of `hay`.
pub fn contains(hay: &str, needle: &str) -> (r: bool)
    ensures
        r == contains_text(hay@, needle@),
{
    let h = chars_of(hay);
    let n = chars_of(needle);
    if n.len() > h.len() {
        return false;
    }
    let last: usize = h.len() - n.len();
    let mut i: usize = 0;
    while i < last
        invariant
            h@ == hay@,
            n@ == needle@,
            n.len() <= h.len(),
            i <= last == h.len() - n.len(),
            forall|j: int| 0 <= j < i ==> !#[trigger] occurs_at(hay@, needle@, j),
        decreases last - i,
    {
        if stands_at(&h, &n, i) {
            return true;
        }
        i += 1;
    }
    stands_at(&h, &n, last)
}

/// Whether `s` begins with `prefix`.
pub fn starts(s: &Vec<char>, prefix: &Vec<char>) -> (r: bool)
    ensures
        r == begins_with(s@, prefix@),
{
    if prefix.len() > s.len() {
        return false;
    }
    let r = stands_at(s, prefix, 0);
    assert(s@.subrange(0, prefix@.len() as int) =~= s@.take(prefix@.len() as int));
    r
}

/// Whether `s` ends with `suffix`.
pub fn ends(s: &Vec<char>, suffix: &Vec<char>) -> (r: bool)
    ensures
        r == finishes_with(s@, suffix@),
{
    if suffix.len() > s.len() {
        return false;
    }
    let r = stands_at(s, suffix, s.len() - suffix.len());
    assert(s@.subrange(s@.len() - suffix@.len(), s@.len() as int) =~= s@.skip(
        s@.len() - suffix@.len(),
    ));
    r
}

// ---------------------------------------------------------------------------
// Dictionary order
// ---------------------------------------------------------------------------

/// `a` comes before `b` and position `k` decides it.
pub open spec fn before_at(a: Seq<char>, b: Seq<char>, k: int) -> bool {
    &&& 0 <= k <= a.len()
    &&& k < b.len()
    &&& a.take(k) == b.take(k)
    &&& k < a.len() ==> a[k] < b[k]
}

/// Dictionary order by code points, which is also the order of the UTF-8 bytes.
pub open spec fn before(a: Seq<char>, b: Seq<char>) -> bool {
    exists|k: int| #[trigger] before_at(a, b, k)
}

/// Whether `a` comes before `b` in dictionary order.
pub fn comes_before(a: &Vec<char>, b: &Vec<char>) -> (r: bool)
    ensures
        r == before(a@, b@),
{
    let mut i: usize = 0;
    while i < a.len() && i < b.len()
        invariant
            i <= a.len(),
            i <= b.len(),
            a@.take(i as int) == b@.take(i as int),
        decreases a.len() - i,
    {
        if a[i] != b[i] {
            let r = a[i] < b[i];
            proof {
                if r {
                    assert(before_at(a@, b@, i as int));
                } else {
                    assert forall|k: int| !#[trigger] before_at(a@, b@, k) by {
                        if before_at(a@, b@, k) {
                            if k < i {
                                assert(a@.take(i as int)[k] == b@.take(i as int)[k]);
                            } else if k > i {
                                assert(a@.take(k)[i as int] == b@.take(k)[i as int]);
                            }
                        }
                    }
                }
            }
            return r;
        }
        assert(a@.take(i + 1) == a@.take(i as int).push(a@[i as int]));
        assert(b@.take(i + 1) == b@.take(i as int).push(b@[i as int]));
        i += 1;
    }
    proof {
        if i < b.len() {
            assert(before_at(a@, b@, i as int));
        } else {
            assert forall|k: int| !#[trigger] before_at(a@, b@, k) by {
                if before_at(a@, b@, k) {
                    assert(a@.take(i as int)[k] == b@.take(i as int)[k]);
                }
            }
        }
    }
    i < b.len()
}

/// Of two different texts one comes before the other, and never both.
pub proof fn before_is_total(a: Seq<char>, b: Seq<char>)
    ensures
        a != b ==> before(a, b) || before(b, a),
        !(before(a, b) && before(b, a)),
        !before(a, a),
{
    if before(a, b) && before(b, a) {
        let k = choose|k: int| before_at(a, b, k);
        let l = choose|l: int| before_at(b, a, l);
        if k < l {
            assert(b.take(l)[k] == a.take(l)[k]);
        } else if l < k {
            assert(a.take(k)[l] == b.take(k)[l]);
        }
    }
    if before(a, a) {
        let k = choose|k: int| before_at(a, a, k);
        assert(false);
    }
    assert(a.take(0) =~= b.take(0));
    before_or_equal(a, b, 0);
}

proof fn before_or_equal(a: Seq<char>, b: Seq<char>, k: int)
    requires
        0 <= k <= a.len(),
        k <= b.len(),
        a.take(k) == b.take(k),
    ensures
        before(a, b) || before(b, a) || a == b,
    decreases a.len() - k,
{
    if k == a.len() || k == b.len() {
        if k < b.len() {
            assert(before_at(a, b, k));
        } else if k < a.len() {
            assert(before_at(b, a, k));
        } else {
            assert(a.take(k) == a);
            assert(b.take(k) == b);
        }
    } else if a[k] < b[k] {
        assert(before_at(a, b, k));
    } else if b[k] < a[k] {
        assert(before_at(b, a, k));
    } else {
        assert(a.take(k + 1) == a.take(k).push(a[k]));
        assert(b.take(k + 1) == b.take(k).push(b[k]));
        before_or_equal(a, b, k + 1);
    }
}

/// Dictionary order is transitive.
pub proof fn before_is_transitive(a: Seq<char>, b: Seq<char>, c: Seq<char>)
    requires
        before(a, b),
        before(b, c),
    ensures
        before(a, c),
{
    let k = choose|k: int| before_at(a, b, k);
    let l = choose|l: int| before_at(b, c, l);
    let m = if k < l {
        k
    } else {
        l
    };
    assert(a.take(k).take(m) =~= a.take(m));
    assert(b.take(k).take(m) =~= b.take(m));
    assert(b.take(l).take(m) =~= b.take(m));
    assert(c.take(l).take(m) =~= c.take(m));
    if k < l {
        assert(b.take(l)[k] == c.take(l)[k]);
    } else if l < k {
        assert(a.take(k)[l] == b.take(k)[l]);
    }
    assert(before_at(a, c, m));
}

/// The order of two texts of the same length stays whatever is put behind
/// them, and stays when the same text is put in front.
pub proof fn before_extends(a: Seq<char>, b: Seq<char>, x: Seq<char>, y: Seq<char>)
    requires
        a.len() == b.len(),
    ensures
        before(a, b) ==> before(a + x, b + y),
        before(x, y) ==> before(a + x, a + y),
{
    if before(a, b) {
        let k = choose|k: int| before_at(a, b, k);
        assert((a + x).take(k) =~= a.take(k));
        assert((b + y).take(k) =~= b.take(k));
        assert(before_at(a + x, b + y, k));
    }
    if before(x, y) {
        let k = choose|k: int| before_at(x, y, k);
        assert((a + x).take(a.len() + k) =~= a + x.take(k));
        assert((a + y).take(a.len() + k) =~= a + y.take(k));
        assert(before_at(a + x, a + y, a.len() + k));
    }
}

// ---------------------------------------------------------------------------
// Decimal numbers
// ---------------------------------------------------------------------------

/// The decimal digit of value `d`.
pub open spec fn digit(d: int) -> char {
    (48 + d) as char
}

/// `n` in decimal, filled up with leading zeros to at least `width` digits.
pub open spec fn padded(n: nat, width: nat) -> Seq<char>
    decreases n, width,
{
    if n < 10 && width <= 1 {
        seq![digit(n as int)]
    } else {
        padded(
            n / 10,
            if width == 0 {
                0
            } else {
                (width - 1) as nat
            },
        ).push(digit((n % 10) as int))
    }
}

/// `n` in decimal.
pub open spec fn decimal(n: nat) -> Seq<char> {
    padded(n, 1)
}

/// `padded` has at least the digits it was asked for.
pub proof fn padded_len(n: nat, width: nat)
    ensures
        padded(n, width).len() >= width,
        padded(n, width).len() >= 1,
    decreases n, width,
{
    if n >= 10 || width > 1 {
        padded_len(
            n / 10,
            if width == 0 {
                0
            } else {
                (width - 1) as nat
            },
        );
    }
}

/// `padded` is made of digits.
pub proof fn padded_is_digits(n: nat, width: nat)
    ensures
        forall|i: int|
            0 <= i < padded(n, width).len() ==> '0' <= #[trigger] padded(n, width)[i] <= '9',
    decreases n, width,
{
    if n >= 10 || width > 1 {
        let w = if width == 0 {
            0
        } else {
            (width - 1) as nat
        };
        padded_is_digits(n / 10, w);
        let front = padded(n / 10, w);
        assert(padded(n, width) == front.push(digit((n % 10) as int)));
        assert forall|i: int| 0 <= i < padded(n, width).len() implies '0' <= #[trigger] padded(
            n,
            width,
        )[i] <= '9' by {
            if i < front.len() {
                assert('0' <= front[i] <= '9');
            }
        }
    }
}

/// Numbers written with the same number of characters sort as texts as they do
/// as numbers.
pub proof fn padded_in_order(m: nat, n: nat, width: nat)
    requires
        m < n,
        padded(m, width).len() == padded(n, width).len(),
    ensures
        before(padded(m, width), padded(n, width)),
    decreases n, width,
{
    let x = seq![digit((m % 10) as int)];
    let y = seq![digit((n % 10) as int)];
    if n < 10 && width <= 1 {
        assert(x.take(0) =~= y.take(0));
        assert(before_at(x, y, 0));
        assert(padded(m, width) =~= x && padded(n, width) =~= y);
    } else {
        let w = if width == 0 {
            0
        } else {
            (width - 1) as nat
        };
        padded_len(n / 10, w);
        assert(padded(m, width) =~= padded(m / 10, w) + x);
        assert(padded(n, width) =~= padded(n / 10, w) + y);
        before_extends(padded(m / 10, w), padded(n / 10, w), x, y);
        if m / 10 < n / 10 {
            padded_in_order(m / 10, n / 10, w);
        } else {
            assert(x.take(0) =~= y.take(0));
            assert(before_at(x, y, 0));
        }
    }
}

/// Numbers below 100 take two digits, and numbers below 10000 four.
pub proof fn padded_width(n: nat)
    ensures
        n < 100 ==> padded(n, 2).len() == 2,
        n < 10000 ==> padded(n, 4).len() == 4,
{
    reveal_with_fuel(padded, 5);
}

/// Appends `n` in decimal, filled up with leading zeros to at least `width`
/// digits.
pub fn push_padded(s: &mut String, n: u64, width: u64)
    ensures
        final(s)@ == old(s)@ + padded(n as nat, width as nat),
    decreases n, width,
{
    let d: u8 = (n % 10) as u8;
    if n >= 10 || width > 1 {
        push_padded(s, n / 10, if width == 0 { 0 } else { width - 1 });
    }
    s.push((48 + d) as char);
    assert(s@ =~= old(s)@ + padded(n as nat, width as nat));
}

/// A text with another behind it.
pub fn joined(a: &str, b: &str) -> (r: String)
    ensures
        r@ == a@ + b@,
{
    let mut s = a.to_owned();
    push_text(&mut s, b);
    s
}

/// Appends a text.
pub fn push_text(s: &mut String, t: &str)
    ensures
        final(s)@ == old(s)@ + t@,
{
    s.append(t)
}

// ---------------------------------------------------------------------------
// What the texts mean
// ---------------------------------------------------------------------------

/// The number that decimal digits stand for.
pub open spec fn number_of(s: Seq<char>) -> int
    decreases s.len(),
{
    if s.len() == 0 {
        0
    } else {
        10 * number_of(s.drop_last()) + (s.last() as int - '0' as int)
    }
}

/// A written number reads as the number it is. It has the width that was asked for,
/// or it is longer and then begins with no zero.
pub proof fn numbers_read_back(n: nat, width: nat)
    ensures
        number_of(padded(n, width)) == n,
        padded(n, width).len() > width && width >= 1 ==> padded(n, width)[0] != '0',
    decreases n, width,
{
    if n < 10 && width <= 1 {
        let s = padded(n, width);
        assert(s.drop_last() =~= Seq::empty());
        assert(number_of(s.drop_last()) == 0);
        assert(s.last() as int == 48 + n);
    } else {
        let w = if width == 0 {
            0
        } else {
            (width - 1) as nat
        };
        numbers_read_back(n / 10, w);
        padded_len(n / 10, w);
        let s = padded(n, width);
        assert(s.drop_last() =~= padded(n / 10, w));
        assert(s.last() as int == 48 + n % 10);
        if s.len() > width && width >= 1 {
            assert(s[0] == padded(n / 10, w)[0]);
            if w == 0 {
                short_numbers_have_no_zeros(n / 10, 0);
            }
        }
    }
}

/// A number that is not filled up begins with no zero, unless it is zero.
proof fn short_numbers_have_no_zeros(n: nat, width: nat)
    requires
        width <= 1,
        n > 0,
    ensures
        padded(n, width)[0] != '0',
    decreases n,
{
    if n >= 10 {
        short_numbers_have_no_zeros(n / 10, 0);
        padded_len(n / 10, 0);
    }
}

/// Texts are ordered by the first character in which they differ, and a text comes
/// before every text that goes on from it.
pub proof fn first_difference_decides(
    p: Seq<char>,
    c: char,
    d: char,
    x: Seq<char>,
    y: Seq<char>,
)
    requires
        c < d,
    ensures
        before(p + seq![c] + x, p + seq![d] + y),
        !before(p + seq![d] + y, p + seq![c] + x),
        before(p, p + seq![c] + x),
{
    let a = p + seq![c] + x;
    let b = p + seq![d] + y;
    let k = p.len() as int;
    assert(a.take(k) =~= b.take(k));
    assert(a[k] == c && b[k] == d);
    assert(before_at(a, b, k));
    before_is_total(a, b);
    assert(p.take(k) =~= a.take(k));
    assert(before_at(p, a, k));
}

/// Every part of a text is contained in it.
pub proof fn parts_are_contained(hay: Seq<char>, a: int, b: int)
    requires
        0 <= a <= b <= hay.len(),
    ensures
        contains_text(hay, hay.subrange(a, b)),
{
    assert(occurs_at(hay, hay.subrange(a, b), a));
}

/// What is contained in a text stands in it character by character.
pub proof fn contained_stands_somewhere(hay: Seq<char>, needle: Seq<char>) -> (a: int)
    requires
        contains_text(hay, needle),
    ensures
        0 <= a,
        a + needle.len() <= hay.len(),
        forall|j: int| 0 <= j < needle.len() ==> hay[a + j] == #[trigger] needle[j],
{
    let a = choose|i: int| #[trigger] occurs_at(hay, needle, i);
    assert forall|j: int| 0 <= j < needle.len() implies hay[a + j] == #[trigger] needle[j] by {
        assert(hay.subrange(a, a + needle.len())[j] == needle[j]);
    }
    a
}

/// A trimmed text is a part of the text, and what is left out is white space.
pub proof fn trimmed_is_a_part(s: Seq<char>) -> (r: (int, int))
    ensures
        0 <= r.0 <= r.1 <= s.len(),
        trimmed(s) == s.subrange(r.0, r.1),
        forall|i: int| 0 <= i < r.0 ==> is_white_space(#[trigger] s[i]),
        forall|i: int| r.1 <= i < s.len() ==> is_white_space(#[trigger] s[i]),
        r.0 < r.1 ==> !is_white_space(s[r.0]) && !is_white_space(s[r.1 - 1]),
{
    let a = trimmed_start_is_a_part(s);
    let t = trimmed_start(s);
    let n = trimmed_end_is_a_part(t);
    assert(t.take(n) =~= s.subrange(a, a + n));
    assert forall|i: int| a + n <= i < s.len() implies is_white_space(#[trigger] s[i]) by {
        assert(t[i - a] == s[i]);
    }
    if n > 0 {
        assert(t[0] == s[a]);
        assert(t[n - 1] == s[a + n - 1]);
    }
    (a, a + n)
}

proof fn trimmed_start_is_a_part(s: Seq<char>) -> (a: int)
    ensures
        0 <= a <= s.len(),
        trimmed_start(s) == s.skip(a),
        forall|i: int| 0 <= i < a ==> is_white_space(#[trigger] s[i]),
        a < s.len() ==> !is_white_space(s[a]),
    decreases s.len(),
{
    if s.len() > 0 && is_white_space(s[0]) {
        let b = trimmed_start_is_a_part(s.drop_first());
        assert(s.drop_first().skip(b) =~= s.skip(b + 1));
        assert forall|i: int| 0 <= i < b + 1 implies is_white_space(#[trigger] s[i]) by {
            if i > 0 {
                assert(s.drop_first()[i - 1] == s[i]);
            }
        }
        b + 1
    } else {
        assert(s.skip(0) =~= s);
        0
    }
}

proof fn trimmed_end_is_a_part(s: Seq<char>) -> (n: int)
    ensures
        0 <= n <= s.len(),
        trimmed_end(s) == s.take(n),
        forall|i: int| n <= i < s.len() ==> is_white_space(#[trigger] s[i]),
        n > 0 ==> !is_white_space(s[n - 1]),
        s.len() > 0 && !is_white_space(s[0]) ==> n > 0,
    decreases s.len(),
{
    if s.len() > 0 && is_white_space(s.last()) {
        let n = trimmed_end_is_a_part(s.drop_last());
        assert(s.drop_last().take(n) =~= s.take(n));
        assert forall|i: int| n <= i < s.len() implies is_white_space(#[trigger] s[i]) by {
            if i < s.len() - 1 {
                assert(s.drop_last()[i] == s[i]);
            }
        }
        n
    } else {
        assert(s.take(s.len() as int) =~= s);
        s.len() as int
    }
}

} // verus!
