//! Which passwords the estimator can take without an overflow.
//!
//! `zxcvbn` computes with machine integers, and where overflow is checked it
//! panics. This can come of three things, and each has its bound here.
//!
//! - It reads a password as a row of pieces, and takes the factorial of their
//!   number. A piece is a match (a word, a pattern of keys, a sequence, a
//!   repetition, a date, an input) or stands for nothing. Two pieces that stand
//!   for nothing are never neighbours. With six pieces the number of guesses is
//!   already the greatest there is. Readings that end with a piece for nothing are
//!   tried after the one that is a single such piece, which is never worse; so one
//!   of six pieces or more is kept only where it ends with a match. Of the pieces
//!   that are tried, four at most are therefore no matches: three among the first
//!   five, and the last one. The matches lie side by side, and [`most_matches`] is
//!   a bound for them.
//! - It takes powers of the number of turns of a pattern of keys. A pattern goes
//!   from key to neighbouring key, so [`longest_run`] is a bound for the turns.
//! - It multiplies the rank of a word by the number of its spellings in capitals
//!   and other signs. The words of its dictionaries have up to 23 characters, and
//!   up to 28 any spelling is in order. Longer inputs are a matter of
//!   [`spellings_fit`].
//!
//! What a repetition repeats is read in the same way. It stands in the password
//! twice or more, so the bounds hold of it too.

use vstd::prelude::*;

use crate::text::{ascii_lower, chars_of, parts};

verus! {

// ---------------------------------------------------------------------------
// Matches side by side
// ---------------------------------------------------------------------------

/// A sign can stand for a small letter in the words that the estimator reads.
pub open spec fn stands_for(c: char, letter: char) -> bool {
    ||| letter == 'a' && (c == '4' || c == '@')
    ||| letter == 'b' && c == '8'
    ||| letter == 'e' && c == '3'
    ||| letter == 'g' && (c == '6' || c == '9')
    ||| letter == 'i' && (c == '1' || c == '!' || c == '|')
    ||| letter == 'o' && c == '0'
    ||| letter == 's' && (c == '$' || c == '5')
    ||| letter == 't' && (c == '+' || c == '7')
}

/// A character can be read as a small letter.
pub open spec fn spells(c: char, letter: char) -> bool {
    ascii_lower(c) == letter || stands_for(c, letter)
}

fn lower_of(c: char) -> (r: char)
    ensures
        r == ascii_lower(c),
{
    if 'A' <= c && c <= 'Z' {
        (c as u8 + 32) as char
    } else {
        c
    }
}

fn is_spelling(c: char, letter: char) -> (r: bool)
    ensures
        r == spells(c, letter),
{
    let sign = match letter {
        'a' => c == '4' || c == '@',
        'b' => c == '8',
        'e' => c == '3',
        'g' => c == '6' || c == '9',
        'i' => c == '1' || c == '!' || c == '|',
        'o' => c == '0',
        's' => c == '$' || c == '5',
        't' => c == '+' || c == '7',
        _ => false,
    };
    lower_of(c) == letter || sign
}

/// The words of two letters in the estimator's dictionaries, one behind the
/// other.
pub open spec fn two_letter_words() -> Seq<char> {
    "anasatbebydogoheifinisitmemynoofohonorsotoupwe"@
}

/// Two characters spell the word of two letters at position `2 * i`.
pub open spec fn spell_word(a: char, b: char, i: int) -> bool {
    &&& 0 <= i
    &&& 2 * i + 1 < two_letter_words().len()
    &&& spells(a, two_letter_words()[2 * i])
    &&& spells(b, two_letter_words()[2 * i + 1])
}

/// Two characters spell a word of two letters.
pub open spec fn is_short_word(a: char, b: char) -> bool {
    exists|i: int| #[trigger] spell_word(a, b, i)
}

fn spells_short_word(a: char, b: char, words: &Vec<char>) -> (r: bool)
    requires
        words@ == two_letter_words(),
    ensures
        r == is_short_word(a, b),
{
    let mut i: usize = 0;
    while i < words.len() / 2
        invariant
            words@ == two_letter_words(),
            i <= words@.len() / 2,
            forall|j: int| 0 <= j < i ==> !#[trigger] spell_word(a, b, j),
        decreases words.len() - i,
    {
        if is_spelling(a, words[2 * i]) && is_spelling(b, words[2 * i + 1]) {
            assert(spell_word(a, b, i as int));
            return true;
        }
        i += 1;
    }
    assert forall|j: int| !#[trigger] spell_word(a, b, j) by {
        if spell_word(a, b, j) {
            assert(j < i);
        }
    }
    false
}

/// The code of a character.
fn code_of(c: char) -> (r: u32)
    ensures
        r == c as int,
{
    c as u32
}

/// A character can be a match by itself: the only word of one letter is `i`.
pub open spec fn is_lone(c: char) -> bool {
    spells(c, 'i')
}

/// From the character at `k - 1` to the one at `k` it is so many codes.
pub open spec fn step(s: Seq<char>, k: int) -> int {
    s[k] as int - s[k - 1] as int
}

/// The character at `k` and the one before it can be a match: a word, or all of a
/// run of equal characters or of neighbours in the alphabet. A run is a match only
/// as a whole, so it ends at `k`.
pub open spec fn is_pair(s: Seq<char>, k: int) -> bool {
    ||| -1 <= step(s, k) <= 1 && (k + 1 == s.len() || step(s, k + 1) != step(s, k))
    ||| is_short_word(s[k - 1], s[k])
    ||| is_short_word(s[k], s[k - 1])
}

/// How many characters a match has at least that ends at `k`.
pub open spec fn shortest_match(s: Seq<char>, k: int) -> nat {
    if is_lone(s[k]) {
        1
    } else if k > 0 && is_pair(s, k) {
        2
    } else {
        3
    }
}

fn shortest(s: &Vec<char>, k: usize, words: &Vec<char>) -> (r: usize)
    requires
        k < s@.len(),
        words@ == two_letter_words(),
    ensures
        r == shortest_match(s@, k as int),
{
    if is_spelling(s[k], 'i') {
        return 1;
    }
    if k > 0 {
        let a = s[k - 1];
        let b = s[k];
        let len: usize = s.len();
        let d: i64 = code_of(b) as i64 - code_of(a) as i64;
        let run = -1 <= d && d <= 1 && (k + 1 == len || code_of(s[k + 1]) as i64 - code_of(
            b,
        ) as i64 != d);
        if run || spells_short_word(a, b, words) || spells_short_word(b, a, words) {
            return 2;
        }
    }
    3
}

/// How many matches fit side by side into the first `n` characters at most.
pub open spec fn most_matches(s: Seq<char>, n: nat) -> nat
    decreases n,
{
    if n == 0 {
        0
    } else {
        let without = most_matches(s, (n - 1) as nat);
        let t = shortest_match(s, n - 1);
        if t <= n {
            let with = most_matches(s, (n - t) as nat) + 1;
            if with > without {
                with
            } else {
                without
            }
        } else {
            without
        }
    }
}

proof fn matches_are_no_more_than_characters(s: Seq<char>, n: nat)
    ensures
        most_matches(s, n) <= n,
    decreases n,
{
    if n > 0 {
        matches_are_no_more_than_characters(s, (n - 1) as nat);
        let t = shortest_match(s, n - 1);
        if t <= n {
            matches_are_no_more_than_characters(s, (n - t) as nat);
        }
    }
}

fn count_matches(s: &Vec<char>) -> (r: usize)
    ensures
        r == most_matches(s@, s@.len()),
{
    let words = chars_of("anasatbebydogoheifinisitmemynoofohonorsotoupwe");
    let mut most: Vec<usize> = Vec::new();
    most.push(0);
    let mut n: usize = 0;
    while n < s.len()
        invariant
            words@ == two_letter_words(),
            n <= s@.len(),
            most@.len() == n + 1,
            forall|j: int| 0 <= j <= n ==> #[trigger] most@[j] == most_matches(s@, j as nat),
        decreases s.len() - n,
    {
        let t: usize = shortest(s, n, &words);
        let without: usize = most[n];
        let mut next: usize = without;
        if t <= n + 1 {
            proof {
                matches_are_no_more_than_characters(s@, (n + 1 - t) as nat);
            }
            let with: usize = most[n + 1 - t] + 1;
            if with > without {
                next = with;
            }
        }
        most.push(next);
        n += 1;
    }
    most[n]
}

// ---------------------------------------------------------------------------
// Patterns of keys
// ---------------------------------------------------------------------------

/// The rows of a keyboard from top to bottom, as the estimator knows it.
pub open spec fn qwerty() -> Seq<Seq<char>> {
    seq![
        "`1234567890-=~!@#$%^&*()_+"@,
        "qwertyuiop[]\\QWERTYUIOP{}|"@,
        "asdfghjkl;'ASDFGHJKL:\""@,
        "zxcvbnm,./ZXCVBNM<>?"@,
    ]
}

/// The rows of the other keyboard that the estimator knows.
pub open spec fn dvorak() -> Seq<Seq<char>> {
    seq![
        "`1234567890[]~!@#$%^&*(){}"@,
        "',.pyfgcrl/=\\\"<>PYFGCRL?+|"@,
        "aoeuidhtns-AOEUIDHTNS_"@,
        ";qjkxbmwvz:QJKXBMWVZ"@,
    ]
}

/// The rows of both keypads that the estimator knows. The keys for plus and minus
/// stand beside several rows.
pub open spec fn keypad() -> Seq<Seq<char>> {
    seq!["=/*-+"@, "789-+"@, "456-+"@, "123-+"@, "0."@]
}

/// Two different characters stand in the same row or in neighbouring rows. Keys
/// side by side do.
pub open spec fn may_adjoin(rows: Seq<Seq<char>>, a: char, b: char) -> bool {
    a != b && exists|i: int, j: int| #[trigger] near_in(rows, a, b, i, j)
}

/// The characters stand in these rows, which are the same or neighbours.
pub open spec fn near_in(rows: Seq<Seq<char>>, a: char, b: char, i: int, j: int) -> bool {
    &&& 0 <= i < rows.len()
    &&& 0 <= j < rows.len()
    &&& -1 <= i - j <= 1
    &&& rows[i].contains(a)
    &&& rows[j].contains(b)
}

/// How many characters a pattern of keys has at most that ends at `k`.
pub open spec fn run_to(rows: Seq<Seq<char>>, s: Seq<char>, k: int) -> nat
    decreases k,
{
    if k > 0 && may_adjoin(rows, s[k - 1], s[k]) {
        run_to(rows, s, k - 1) + 1
    } else {
        1
    }
}

/// No pattern of keys has more than `limit` characters.
pub open spec fn longest_run(rows: Seq<Seq<char>>, s: Seq<char>, limit: nat) -> bool {
    forall|k: int| 0 <= k < s.len() ==> #[trigger] run_to(rows, s, k) <= limit
}

/// Rows as sequences of characters.
pub open spec fn rows_of(v: Seq<Vec<char>>) -> Seq<Seq<char>> {
    Seq::new(v.len(), |i: int| v[i]@)
}

fn stands_in(c: char, row: &Vec<char>) -> (r: bool)
    ensures
        r == row@.contains(c),
{
    let mut i: usize = 0;
    while i < row.len()
        invariant
            i <= row@.len(),
            forall|j: int| 0 <= j < i ==> row@[j] != c,
        decreases row.len() - i,
    {
        if row[i] == c {
            return true;
        }
        i += 1;
    }
    false
}

fn adjoin(rows: &Vec<Vec<char>>, a: char, b: char) -> (r: bool)
    ensures
        r == may_adjoin(rows_of(rows@), a, b),
{
    if a == b {
        return false;
    }
    let mut i: usize = 0;
    while i < rows.len()
        invariant
            a != b,
            i <= rows@.len(),
            forall|x: int, y: int| 0 <= x < i ==> !#[trigger] near_in(rows_of(rows@), a, b, x, y),
        decreases rows.len() - i,
    {
        if stands_in(a, &rows[i]) {
            let mut j: usize = if i > 0 {
                i - 1
            } else {
                0
            };
            while j < rows.len() && j <= i + 1
                invariant
                    a != b,
                    i < rows@.len(),
                    rows_of(rows@)[i as int].contains(a),
                    0 <= j <= rows@.len(),
                    forall|y: int|
                        y < j ==> !#[trigger] near_in(rows_of(rows@), a, b, i as int, y),
                decreases rows.len() - j,
            {
                if stands_in(b, &rows[j]) {
                    if i <= j + 1 && j <= i + 1 {
                        assert(near_in(rows_of(rows@), a, b, i as int, j as int));
                        return true;
                    }
                }
                j += 1;
            }
        }
        i += 1;
    }
    false
}

fn runs_fit(rows: &Vec<Vec<char>>, s: &Vec<char>, limit: usize) -> (r: bool)
    ensures
        r == longest_run(rows_of(rows@), s@, limit as nat),
{
    let mut run: usize = 0;
    let mut k: usize = 0;
    while k < s.len()
        invariant
            k <= s@.len(),
            k > 0 ==> run == run_to(rows_of(rows@), s@, k - 1),
            run <= k,
            forall|j: int| 0 <= j < k ==> #[trigger] run_to(rows_of(rows@), s@, j) <= limit,
        decreases s.len() - k,
    {
        if k > 0 && adjoin(rows, s[k - 1], s[k]) {
            run += 1;
        } else {
            run = 1;
        }
        if run > limit {
            assert(run_to(rows_of(rows@), s@, k as int) > limit);
            return false;
        }
        k += 1;
    }
    true
}

/// No pattern of keys has more turns than the powers of the estimator allow: it
/// takes powers of four on keyboards and of five on keypads.
pub open spec fn turns_fit(s: Seq<char>) -> bool {
    &&& longest_run(qwerty(), s, 32)
    &&& longest_run(dvorak(), s, 32)
    &&& longest_run(keypad(), s, 28)
}

fn turns_are_few(s: &Vec<char>) -> (r: bool)
    ensures
        r == turns_fit(s@),
{
    let mut q: Vec<Vec<char>> = Vec::new();
    q.push(chars_of("`1234567890-=~!@#$%^&*()_+"));
    q.push(chars_of("qwertyuiop[]\\QWERTYUIOP{}|"));
    q.push(chars_of("asdfghjkl;'ASDFGHJKL:\""));
    q.push(chars_of("zxcvbnm,./ZXCVBNM<>?"));
    assert(rows_of(q@) =~= qwerty());
    let mut d: Vec<Vec<char>> = Vec::new();
    d.push(chars_of("`1234567890[]~!@#$%^&*(){}"));
    d.push(chars_of("',.pyfgcrl/=\\\"<>PYFGCRL?+|"));
    d.push(chars_of("aoeuidhtns-AOEUIDHTNS_"));
    d.push(chars_of(";qjkxbmwvz:QJKXBMWVZ"));
    assert(rows_of(d@) =~= dvorak());
    let mut p: Vec<Vec<char>> = Vec::new();
    p.push(chars_of("=/*-+"));
    p.push(chars_of("789-+"));
    p.push(chars_of("456-+"));
    p.push(chars_of("123-+"));
    p.push(chars_of("0."));
    assert(rows_of(p@) =~= keypad());
    runs_fit(&q, s, 32) && runs_fit(&d, s, 32) && runs_fit(&p, s, 28)
}

// ---------------------------------------------------------------------------
// Spellings
// ---------------------------------------------------------------------------

/// A sign that stands for a letter in some word.
pub open spec fn is_sign(c: char) -> bool {
    "4@8({[<3691!|70$5+%2"@.contains(c)
}

/// A character that can be another spelling: a capital letter, a sign, or one
/// that is not ASCII and may be a capital.
pub open spec fn is_variant(c: char) -> bool {
    'A' <= c <= 'Z' || c as int >= 128 || is_sign(c)
}

/// How many characters of a text can be other spellings.
pub open spec fn variants(s: Seq<char>) -> nat
    decreases s.len(),
{
    if s.len() == 0 {
        0
    } else {
        variants(s.drop_last()) + if is_variant(s.last()) {
            1nat
        } else {
            0
        }
    }
}

/// A character can be read as one of an input.
pub open spec fn may_agree(c: char, x: char) -> bool {
    c as int >= 128 || x as int >= 128 || ascii_lower(c) == ascii_lower(x) || is_sign(c)
}

/// An input can stand in a text at position `i`, forwards or backwards.
pub open spec fn may_stand_at(s: Seq<char>, w: Seq<char>, i: int) -> bool {
    &&& 0 <= i
    &&& i + w.len() <= s.len()
    &&& {
        ||| forall|j: int| 0 <= j < w.len() ==> may_agree(#[trigger] s[i + j], w[j])
        ||| forall|j: int|
            0 <= j < w.len() ==> may_agree(#[trigger] s[i + j], w[w.len() - 1 - j])
    }
}

/// An input can stand in a text. The letter `İ` has two small letters, so an input
/// with it can stand where it seems too long.
pub open spec fn may_stand_in(s: Seq<char>, w: Seq<char>) -> bool {
    w.contains('İ') || exists|i: int| #[trigger] may_stand_at(s, w, i)
}

/// No input of more than 28 characters stands in the text, or the text has so few
/// other spellings that it makes no difference: six in a hundred characters make
/// fewer than `100^6`.
pub open spec fn spellings_fit(s: Seq<char>, inputs: Seq<Seq<char>>) -> bool {
    variants(s) <= 6 || forall|i: int|
        0 <= i < inputs.len() ==> !is_long_and_stands(s, #[trigger] inputs[i])
}

/// An input is long, or may be, and can stand in the text.
pub open spec fn is_long_and_stands(s: Seq<char>, w: Seq<char>) -> bool {
    (w.len() > 28 || w.contains('İ')) && may_stand_in(s, w)
}

fn count_variants(s: &Vec<char>, signs: &Vec<char>) -> (r: usize)
    requires
        signs@ == "4@8({[<3691!|70$5+%2"@,
    ensures
        r == variants(s@),
{
    let mut n: usize = 0;
    let mut k: usize = 0;
    assert(s@.take(0) =~= Seq::empty());
    while k < s.len()
        invariant
            signs@ == "4@8({[<3691!|70$5+%2"@,
            k <= s@.len(),
            n <= k,
            n == variants(s@.take(k as int)),
        decreases s.len() - k,
    {
        let c = s[k];
        let code: u32 = code_of(c);
        assert(s@.take(k + 1).drop_last() =~= s@.take(k as int));
        if ('A' <= c && c <= 'Z') || code >= 128 || stands_in(c, signs) {
            n += 1;
        }
        k += 1;
    }
    assert(s@.take(k as int) =~= s@);
    n
}

fn agree(c: char, x: char, signs: &Vec<char>) -> (r: bool)
    requires
        signs@ == "4@8({[<3691!|70$5+%2"@,
    ensures
        r == may_agree(c, x),
{
    code_of(c) >= 128 || code_of(x) >= 128 || lower_of(c) == lower_of(x) || stands_in(c, signs)
}

fn stands_at(s: &Vec<char>, w: &Vec<char>, i: usize, signs: &Vec<char>) -> (r: bool)
    requires
        signs@ == "4@8({[<3691!|70$5+%2"@,
        i + w@.len() <= s@.len(),
    ensures
        r == may_stand_at(s@, w@, i as int),
{
    let len: usize = s.len();
    let mut forwards = true;
    let mut backwards = true;
    let mut j: usize = 0;
    while j < w.len()
        invariant
            signs@ == "4@8({[<3691!|70$5+%2"@,
            i + w@.len() <= len == s@.len(),
            j <= w@.len(),
            forwards == (forall|x: int| 0 <= x < j ==> may_agree(#[trigger] s@[i + x], w@[x])),
            backwards == (forall|x: int|
                0 <= x < j ==> may_agree(#[trigger] s@[i + x], w@[w@.len() - 1 - x])),
        decreases w.len() - j,
    {
        let c = s[i + j];
        let f = agree(c, w[j], signs);
        let b = agree(c, w[w.len() - 1 - j], signs);
        proof {
            if !f {
                assert(!may_agree(s@[i + j], w@[j as int]));
            }
            if !b {
                assert(!may_agree(s@[i + j], w@[w@.len() - 1 - j]));
            }
        }
        forwards = forwards && f;
        backwards = backwards && b;
        j += 1;
    }
    forwards || backwards
}

fn long_and_stands(s: &Vec<char>, w: &Vec<char>, signs: &Vec<char>) -> (r: bool)
    requires
        signs@ == "4@8({[<3691!|70$5+%2"@,
    ensures
        r == is_long_and_stands(s@, w@),
{
    if stands_in('İ', w) {
        return true;
    }
    if w.len() <= 28 {
        return false;
    }
    let mut i: usize = 0;
    while i < s.len() && w.len() <= s.len() - i
        invariant
            signs@ == "4@8({[<3691!|70$5+%2"@,
            w@.len() > 28,
            i <= s@.len(),
            forall|x: int| 0 <= x < i ==> !#[trigger] may_stand_at(s@, w@, x),
        decreases s.len() - i,
    {
        if stands_at(s, w, i, signs) {
            return true;
        }
        i += 1;
    }
    assert forall|x: int| !#[trigger] may_stand_at(s@, w@, x) by {
        if may_stand_at(s@, w@, x) {
            assert(x < i);
        }
    }
    false
}

fn spellings_are_few(s: &Vec<char>, inputs: &[&str]) -> (r: bool)
    ensures
        r == spellings_fit(s@, parts(inputs@)),
{
    let signs = chars_of("4@8({[<3691!|70$5+%2");
    if count_variants(s, &signs) <= 6 {
        return true;
    }
    let mut i: usize = 0;
    while i < inputs.len()
        invariant
            signs@ == "4@8({[<3691!|70$5+%2"@,
            variants(s@) > 6,
            i <= inputs@.len(),
            forall|j: int|
                0 <= j < i ==> !is_long_and_stands(s@, #[trigger] parts(inputs@)[j]),
        decreases inputs.len() - i,
    {
        let w = chars_of(inputs[i]);
        assert(w@ == parts(inputs@)[i as int]);
        if long_and_stands(s, &w, &signs) {
            return false;
        }
        i += 1;
    }
    true
}

// ---------------------------------------------------------------------------
// Passwords
// ---------------------------------------------------------------------------

/// The number of pieces whose factorial fits into a `usize`.
pub open spec fn most_pieces() -> nat {
    if usize::MAX > 0xffff_ffff {
        20
    } else {
        12
    }
}

/// The estimator can take a text of up to a hundred characters, whatever it reads
/// in it. Short ones have no more pieces than characters. The letter `İ` is left
/// out of the others: it has two small letters, which shifts the pieces.
pub open spec fn is_tame(s: Seq<char>, inputs: Seq<Seq<char>>) -> bool {
    ||| s.len() <= most_pieces()
    ||| {
        &&& !s.contains('İ')
        &&& most_matches(s, s.len()) + 4 <= most_pieces()
        &&& s.len() <= 28 || (turns_fit(s) && spellings_fit(s, inputs))
    }
}

/// What the estimator reads of a password: its first hundred characters.
pub open spec fn head(password: Seq<char>) -> Seq<char> {
    if password.len() <= 100 {
        password
    } else {
        password.take(100)
    }
}

/// The passwords that the estimator can take.
pub open spec fn estimable(password: Seq<char>, inputs: Seq<Seq<char>>) -> bool {
    is_tame(head(password), inputs)
}

/// Whether the estimator can take a text of up to a hundred characters.
pub fn tame(s: &Vec<char>, inputs: &[&str]) -> (r: bool)
    ensures
        r == is_tame(s@, parts(inputs@)),
{
    let pieces: usize = if usize::MAX as u64 > 0xffff_ffff {
        20
    } else {
        12
    };
    if s.len() <= pieces {
        return true;
    }
    if stands_in('İ', s) || count_matches(s) > pieces - 4 {
        return false;
    }
    s.len() <= 28 || (turns_are_few(s) && spellings_are_few(s, inputs))
}

// ---------------------------------------------------------------------------
// Cutting a text
// ---------------------------------------------------------------------------

/// How many characters before `end` repeat with a period: of these, each is equal
/// to the one a period before it. The last `period` ones always do.
pub open spec fn repeating(s: Seq<char>, end: int, period: int) -> int
    decreases end,
{
    if end <= period || period <= 0 {
        end
    } else if s[end - 1] == s[end - 1 - period] {
        repeating(s, end - 1, period) + 1
    } else {
        period
    }
}

/// A cut at `end` is within a repetition of this period: there are two copies
/// before it, and the character behind it goes on with them.
pub open spec fn cuts_repetition(s: Seq<char>, end: int, period: int) -> bool {
    &&& 0 < period
    &&& 2 * period <= repeating(s, end, period)
    &&& s[end] == s[end - period]
}

/// The smallest period, from `from` on, of a repetition that a cut at `end` is
/// within; none where it is within none.
pub open spec fn period_at(s: Seq<char>, end: int, from: int) -> Option<int>
    decreases end + 1 - from,
{
    if from > end {
        None
    } else if cuts_repetition(s, end, from) {
        Some(from)
    } else {
        period_at(s, end, from + 1)
    }
}

/// Where to cut a text, not behind `end`: at `end`; within a repetition, behind
/// the last copy that is whole.
pub open spec fn cut(s: Seq<char>, end: int) -> int {
    match period_at(s, end, 1) {
        Some(p) => end - repeating(s, end, p) % p,
        None => end,
    }
}

proof fn repeating_is_within(s: Seq<char>, end: int, period: int)
    requires
        0 <= end,
        0 < period,
    ensures
        0 <= repeating(s, end, period) <= end,
    decreases end,
{
    if end > period && s[end - 1] == s[end - 1 - period] {
        repeating_is_within(s, end - 1, period);
    }
}

proof fn period_is_a_period(s: Seq<char>, end: int, from: int)
    requires
        0 < from,
        0 <= end,
    ensures
        period_at(s, end, from) matches Some(p) ==> from <= p && cuts_repetition(s, end, p),
    decreases end + 1 - from,
{
    if from <= end && !cuts_repetition(s, end, from) {
        period_is_a_period(s, end, from + 1);
    }
}

/// A cut leaves something before it, and is not behind `end`.
pub proof fn cut_is_within(s: Seq<char>, end: int)
    requires
        0 < end <= s.len(),
    ensures
        0 < cut(s, end) <= end,
{
    period_is_a_period(s, end, 1);
    if let Some(p) = period_at(s, end, 1) {
        repeating_is_within(s, end, p);
        vstd::arithmetic::div_mod::lemma_mod_bound(repeating(s, end, p), p);
    }
}

/// How many characters before `end` repeat with a period.
fn count_repeating(s: &Vec<char>, end: usize, period: usize) -> (r: usize)
    requires
        0 < period,
        end <= s@.len(),
    ensures
        r == repeating(s@, end as int, period as int),
{
    let mut at: usize = end;
    while at > period && s[at - 1] == s[at - 1 - period]
        invariant
            0 < period,
            at <= end <= s@.len(),
            repeating(s@, end as int, period as int) == repeating(s@, at as int, period as int) + (
            end - at),
        decreases at,
    {
        at -= 1;
    }
    if at <= period {
        end
    } else {
        period + (end - at)
    }
}

/// How many characters from `at` on go on with a period: each is equal to the one
/// a period before it.
pub open spec fn going_on(s: Seq<char>, at: int, period: int) -> int
    decreases s.len() - at,
{
    if at < s.len() && s[at] == s[at - period] {
        going_on(s, at + 1, period) + 1
    } else {
        0
    }
}

/// Where the rest of a text begins that is cut at `at`, for want of length at
/// `end`: behind the whole copies that follow, where it is cut within a repetition.
pub open spec fn rest_at(s: Seq<char>, end: int, at: int) -> int {
    match period_at(s, end, 1) {
        Some(p) => if p <= at {
            at + going_on(s, at, p) / p * p
        } else {
            at
        },
        None => at,
    }
}

proof fn going_on_is_within(s: Seq<char>, at: int, period: int)
    requires
        0 <= at <= s.len(),
    ensures
        0 <= going_on(s, at, period) <= s.len() - at,
    decreases s.len() - at,
{
    if at < s.len() && s[at] == s[at - period] {
        going_on_is_within(s, at + 1, period);
    }
}

proof fn whole_copies(n: int, p: int)
    requires
        0 <= n,
        0 < p,
    ensures
        0 <= n / p * p <= n,
{
    vstd::arithmetic::div_mod::lemma_fundamental_div_mod(n, p);
    vstd::arithmetic::div_mod::lemma_mod_bound(n, p);
    vstd::arithmetic::div_mod::lemma_div_pos_is_pos(n, p);
    assert(n / p * p == p * (n / p)) by (nonlinear_arith);
    assert(0 <= n / p * p) by (nonlinear_arith)
        requires
            0 <= n / p,
            0 < p,
    ;
}

/// The rest of a text begins behind the cut.
pub proof fn rest_is_behind(s: Seq<char>, end: int, at: int)
    requires
        0 <= at <= s.len(),
        0 <= end,
    ensures
        at <= rest_at(s, end, at) <= s.len(),
{
    period_is_a_period(s, end, 1);
    if let Some(p) = period_at(s, end, 1) {
        going_on_is_within(s, at, p);
        whole_copies(going_on(s, at, p), p);
    }
}

/// How many characters from `at` on go on with a period.
fn count_going_on(s: &Vec<char>, at: usize, period: usize) -> (r: usize)
    requires
        0 < period <= at <= s@.len(),
    ensures
        r == going_on(s@, at as int, period as int),
{
    let mut i: usize = at;
    while i < s.len() && s[i] == s[i - period]
        invariant
            0 < period <= at <= i <= s@.len(),
            going_on(s@, at as int, period as int) == going_on(s@, i as int, period as int) + (i
                - at),
        decreases s.len() - i,
    {
        i += 1;
    }
    i - at
}

/// The smallest period of a repetition that a cut at `end` is within.
fn period_of(s: &Vec<char>, end: usize) -> (r: Option<usize>)
    requires
        0 < end < s@.len(),
    ensures
        match r {
            Some(p) => 0 < p && period_at(s@, end as int, 1) == Some(p as int),
            None => period_at(s@, end as int, 1) is None,
        },
{
    let len: usize = s.len();
    let mut p: usize = 1;
    while p <= end
        invariant
            0 < p <= end + 1,
            0 < end < len == s@.len(),
            period_at(s@, end as int, 1) == period_at(s@, end as int, p as int),
        decreases end + 1 - p,
    {
        let n: usize = count_repeating(s, end, p);
        proof {
            repeating_is_within(s@, end as int, p as int);
        }
        if n / 2 >= p && s[end] == s[end - p] {
            assert(cuts_repetition(s@, end as int, p as int));
            return Some(p);
        }
        p += 1;
    }
    None
}

/// Where to cut a text.
pub fn cut_of(s: &Vec<char>, end: usize) -> (r: usize)
    requires
        0 < end < s@.len(),
    ensures
        r == cut(s@, end as int),
{
    match period_of(s, end) {
        Some(p) => {
            proof {
                cut_is_within(s@, end as int);
            }
            let n: usize = count_repeating(s, end, p);
            end - n % p
        },
        None => end,
    }
}

/// Where the rest of a text begins.
pub fn rest_of(s: &Vec<char>, end: usize, at: usize) -> (r: usize)
    requires
        0 < end < s@.len(),
        at <= s@.len(),
    ensures
        r == rest_at(s@, end as int, at as int),
{
    match period_of(s, end) {
        Some(p) => {
            if p > at {
                return at;
            }
            let len: usize = s.len();
            let n: usize = count_going_on(s, at, p);
            proof {
                going_on_is_within(s@, at as int, p as int);
                whole_copies(n as int, p as int);
                assert(at + n <= len);
            }
            at + n / p * p
        },
        None => at,
    }
}

/// The character at `end` and the `period` ones before it are each equal to the one a period
/// before: the text repeats itself there, and goes on to do so.
pub open spec fn repeats_at(s: Seq<char>, end: int, period: int) -> bool {
    &&& 0 < period
    &&& 2 * period <= end < s.len()
    &&& forall|k: int| end - period <= k <= end ==> #[trigger] s[k] == s[k - period]
}

proof fn repeating_ones_are_equal(s: Seq<char>, end: int, period: int)
    requires
        0 <= end <= s.len(),
        0 < period,
    ensures
        forall|k: int|
            end - repeating(s, end, period) + period <= k < end ==> #[trigger] s[k] == s[k
                - period],
    decreases end,
{
    if end > period && s[end - 1] == s[end - 1 - period] {
        repeating_ones_are_equal(s, end - 1, period);
    }
}

proof fn equal_ones_repeat(s: Seq<char>, end: int, period: int, from: int)
    requires
        0 < period <= from <= end <= s.len(),
        forall|k: int| from <= k < end ==> #[trigger] s[k] == s[k - period],
    ensures
        end - from + period <= repeating(s, end, period),
    decreases end,
{
    if from < end {
        assert(s[end - 1] == s[end - 1 - period]);
        equal_ones_repeat(s, end - 1, period, from);
    } else if end > period {
        equal_ones_repeat(s, end - 1, period, end - 1);
    }
}

proof fn repetitions_are_seen(s: Seq<char>, end: int, period: int)
    requires
        0 < end < s.len(),
        0 < period <= end,
    ensures
        cuts_repetition(s, end, period) <==> repeats_at(s, end, period),
{
    repeating_is_within(s, end, period);
    repeating_ones_are_equal(s, end, period);
    if repeats_at(s, end, period) {
        equal_ones_repeat(s, end, period, end - period);
        assert(s[end] == s[end - period]);
    }
}

proof fn smallest_period_is_found(s: Seq<char>, end: int, from: int, period: int)
    requires
        0 < end < s.len(),
        0 < from <= period,
        repeats_at(s, end, period),
        forall|q: int| from <= q < period ==> !#[trigger] repeats_at(s, end, q),
    ensures
        period_at(s, end, from) == Some(period),
    decreases period - from,
{
    repetitions_are_seen(s, end, from);
    if from < period {
        assert(!repeats_at(s, end, from));
        smallest_period_is_found(s, end, from + 1, period);
    }
}

proof fn no_period_is_found(s: Seq<char>, end: int, from: int)
    requires
        0 < end < s.len(),
        0 < from,
        forall|q: int| from <= q ==> !#[trigger] repeats_at(s, end, q),
    ensures
        period_at(s, end, from) is None,
    decreases end + 1 - from,
{
    if from <= end {
        repetitions_are_seen(s, end, from);
        assert(!repeats_at(s, end, from));
        no_period_is_found(s, end, from + 1);
    }
}

proof fn going_on_is_equal(s: Seq<char>, at: int, period: int)
    requires
        0 < period <= at <= s.len(),
    ensures
        forall|k: int| at <= k < at + going_on(s, at, period) ==> #[trigger] s[k] == s[k - period],
        at + going_on(s, at, period) < s.len() ==> s[at + going_on(s, at, period)] != s[at
            + going_on(s, at, period) - period],
    decreases s.len() - at,
{
    if at < s.len() && s[at] == s[at - period] {
        going_on_is_equal(s, at + 1, period);
    }
}

/// Where a text repeats itself, with a smallest period, it is cut less than a period before
/// the place; and what is left out behind a cut are whole copies, and as many as follow.
pub proof fn copies_are_left_out(s: Seq<char>, end: int, period: int, at: int)
    requires
        0 < end < s.len(),
        repeats_at(s, end, period),
        forall|q: int| 0 < q < period ==> !#[trigger] repeats_at(s, end, q),
        period <= at <= s.len(),
    ensures
        end - period < cut(s, end) <= end,
        at <= rest_at(s, end, at) <= s.len(),
        (rest_at(s, end, at) - at) % period == 0,
        forall|k: int| at <= k < rest_at(s, end, at) ==> #[trigger] s[k] == s[k - period],
        rest_at(s, end, at) + period > s.len() || exists|k: int|
            rest_at(s, end, at) <= k < rest_at(s, end, at) + period && #[trigger] s[k] != s[k
                - period],
{
    smallest_period_is_found(s, end, 1, period);
    rest_is_behind(s, end, at);
    going_on_is_equal(s, at, period);
    let n = going_on(s, at, period);
    going_on_is_within(s, at, period);
    whole_copies(n, period);
    vstd::arithmetic::div_mod::lemma_mod_bound(repeating(s, end, period), period);
    vstd::arithmetic::div_mod::lemma_mod_multiples_basic(n / period, period);
    vstd::arithmetic::div_mod::lemma_fundamental_div_mod(n, period);
    vstd::arithmetic::div_mod::lemma_mod_bound(n, period);
    assert(n / period * period == period * (n / period)) by (nonlinear_arith);
    if at + n < s.len() {
        assert(s[at + n] != s[at + n - period]);
    }
}

/// Where a text does not repeat itself, it is cut at the place, and nothing is left out.
pub proof fn nothing_else_is_left_out(s: Seq<char>, end: int, at: int)
    requires
        0 < end < s.len(),
        forall|q: int| 0 < q ==> !#[trigger] repeats_at(s, end, q),
    ensures
        cut(s, end) == end,
        rest_at(s, end, at) == at,
{
    no_period_is_found(s, end, 1);
}

// ---------------------------------------------------------------------------
// Ordinary passwords
// ---------------------------------------------------------------------------

/// Without lone characters at most every second character ends a match.
proof fn matches_take_two_characters(s: Seq<char>, n: nat)
    requires
        n <= s.len(),
        forall|i: int|
            0 <= i < s.len() ==> (#[trigger] s[i]) != 'i' && s[i] != 'I' && s[i] != '1' && s[i]
                != '!' && s[i] != '|',
    ensures
        2 * most_matches(s, n) <= n,
    decreases n,
{
    if n > 0 {
        matches_take_two_characters(s, (n - 1) as nat);
        let c = s[n - 1];
        assert(!is_lone(c));
        let t = shortest_match(s, n - 1);
        if t <= n {
            matches_take_two_characters(s, (n - t) as nat);
        }
    }
}

/// Passwords of up to 28 characters are taken as a whole with every input, where the
/// machine counts to more than 32 bits and no character can be a match by itself; and
/// those of up to twelve characters are so in any case.
pub proof fn ordinary_passwords_are_estimable(password: Seq<char>, inputs: Seq<Seq<char>>)
    requires
        password.len() <= 12 || {
            &&& password.len() <= 28
            &&& usize::MAX > 0xffff_ffff
            &&& forall|i: int|
                0 <= i < password.len() ==> (#[trigger] password[i]) != 'i' && password[i] != 'I'
                    && password[i] != '1' && password[i] != '!' && password[i] != '|' && password[i]
                    != 'İ'
        },
    ensures
        estimable(password, inputs),
{
    if password.len() > 12 {
        matches_take_two_characters(password, password.len());
        assert(!password.contains('İ'));
    }
}

/// Where characters are not ASCII and do not follow each other in the alphabet, every match
/// takes three of them.
proof fn matches_take_three_characters(s: Seq<char>, n: nat)
    requires
        n <= s.len(),
        forall|i: int| 0 <= i < s.len() ==> (#[trigger] s[i]) as int >= 128,
        forall|i: int| 0 < i < s.len() ==> !(-1 <= #[trigger] step(s, i) <= 1),
    ensures
        3 * most_matches(s, n) <= n,
    decreases n,
{
    if n > 0 {
        matches_take_three_characters(s, (n - 1) as nat);
        let k = n - 1;
        assert(!is_lone(s[k]));
        if k > 0 {
            words_are_ascii(s[k - 1], s[k]);
            words_are_ascii(s[k], s[k - 1]);
            assert(!is_pair(s, k));
        }
        if 3 <= n {
            matches_take_three_characters(s, (n - 3) as nat);
        }
    }
}

proof fn words_are_ascii(a: char, b: char)
    requires
        a as int >= 128,
    ensures
        !is_short_word(a, b),
{
    reveal_strlit("anasatbebydogoheifinisitmemynoofohonorsotoupwe");
    assert forall|i: int| !#[trigger] spell_word(a, b, i) by {
        if spell_word(a, b, i) {
            let w = two_letter_words()[2 * i];
            assert((w as int) < 128) by {
                words_are_letters(2 * i);
            }
        }
    }
}

proof fn words_are_letters(k: int)
    requires
        0 <= k < two_letter_words().len(),
    ensures
        (two_letter_words()[k] as int) < 128,
{
    reveal_strlit("anasatbebydogoheifinisitmemynoofohonorsotoupwe");
    assert(two_letter_words().len() == 46);
}

/// Passwords in other scripts are taken as a whole up to 48 characters where the inputs have
/// up to 28 characters and the machine counts to more than 32 bits: no dictionary and no
/// keyboard of the estimator has such characters.
pub proof fn other_scripts_are_estimable(password: Seq<char>, inputs: Seq<Seq<char>>)
    requires
        usize::MAX > 0xffff_ffff,
        password.len() <= 48,
        !password.contains('İ'),
        forall|i: int| 0 <= i < password.len() ==> (#[trigger] password[i]) as int >= 128,
        forall|i: int| 0 < i < password.len() ==> !(-1 <= #[trigger] step(password, i) <= 1),
        forall|i: int|
            0 <= i < inputs.len() ==> (#[trigger] inputs[i]).len() <= 28 && !inputs[i].contains(
                'İ',
            ),
    ensures
        estimable(password, inputs),
{
    matches_take_three_characters(password, password.len());
    no_keys(password);
}

/// Characters that are on no key make no pattern.
proof fn no_keys(s: Seq<char>)
    requires
        forall|i: int| 0 <= i < s.len() ==> (#[trigger] s[i]) as int >= 128,
    ensures
        turns_fit(s),
{
    reveal_strlit("`1234567890-=~!@#$%^&*()_+");
    reveal_strlit("qwertyuiop[]\\QWERTYUIOP{}|");
    reveal_strlit("asdfghjkl;'ASDFGHJKL:\"");
    reveal_strlit("zxcvbnm,./ZXCVBNM<>?");
    reveal_strlit("`1234567890[]~!@#$%^&*(){}");
    reveal_strlit("',.pyfgcrl/=\\\"<>PYFGCRL?+|");
    reveal_strlit("aoeuidhtns-AOEUIDHTNS_");
    reveal_strlit(";qjkxbmwvz:QJKXBMWVZ");
    reveal_strlit("=/*-+");
    reveal_strlit("789-+");
    reveal_strlit("456-+");
    reveal_strlit("123-+");
    reveal_strlit("0.");
    assert forall|k: int| 0 <= k < s.len() implies #[trigger] run_to(qwerty(), s, k) <= 32 by {
        if k > 0 {
            assert(!may_adjoin(qwerty(), s[k - 1], s[k]));
        }
    }
    assert forall|k: int| 0 <= k < s.len() implies #[trigger] run_to(dvorak(), s, k) <= 32 by {
        if k > 0 {
            assert(!may_adjoin(dvorak(), s[k - 1], s[k]));
        }
    }
    assert forall|k: int| 0 <= k < s.len() implies #[trigger] run_to(keypad(), s, k) <= 28 by {
        if k > 0 {
            assert(!may_adjoin(keypad(), s[k - 1], s[k]));
        }
    }
}

/// Every three characters can be a match, and so can every one that spells `i`.
proof fn matches_are_found(s: Seq<char>, n: nat)
    requires
        n <= s.len(),
    ensures
        n <= 3 * most_matches(s, n) + 2,
        (forall|i: int| 0 <= i < s.len() ==> spells(#[trigger] s[i], 'i')) ==> most_matches(s, n)
            == n,
    decreases n,
{
    matches_are_no_more_than_characters(s, n);
    if n > 0 {
        matches_are_found(s, (n - 1) as nat);
        let t = shortest_match(s, n - 1);
        if t <= n {
            matches_are_found(s, (n - t) as nat);
        }
    }
}

/// No password of more than fifty characters is taken as a whole, whatever the machine, and
/// none of more than twenty that is made of spellings of `i`.
pub proof fn long_passwords_are_not_estimable(password: Seq<char>, inputs: Seq<Seq<char>>)
    requires
        password.len() > 50 || {
            &&& password.len() > 20
            &&& forall|i: int| 0 <= i < password.len() ==> spells(#[trigger] password[i], 'i')
        },
    ensures
        !estimable(password, inputs),
{
    let s = head(password);
    matches_are_found(s, s.len());
}

proof fn run_goes_back(rows: Seq<Seq<char>>, s: Seq<char>, k: int, m: int)
    requires
        0 <= m <= k < s.len(),
        forall|l: int| k - m < l <= k ==> may_adjoin(rows, s[l - 1], #[trigger] s[l]),
    ensures
        m < run_to(rows, s, k),
    decreases k,
{
    if m > 0 {
        assert(may_adjoin(rows, s[k - 1], s[k]));
        run_goes_back(rows, s, k - 1, m - 1);
    }
}

proof fn run_adjoins(rows: Seq<Seq<char>>, s: Seq<char>, k: int)
    requires
        0 <= k < s.len(),
    ensures
        0 < run_to(rows, s, k) <= k + 1,
        forall|l: int|
            k - run_to(rows, s, k) + 1 < l <= k ==> may_adjoin(rows, s[l - 1], #[trigger] s[l]),
    decreases k,
{
    if k > 0 && may_adjoin(rows, s[k - 1], s[k]) {
        run_adjoins(rows, s, k - 1);
    }
}

/// From `j` on, `limit + 1` characters go from key to neighbouring key.
pub open spec fn is_run_from(rows: Seq<Seq<char>>, s: Seq<char>, limit: nat, j: int) -> bool {
    &&& 0 <= j
    &&& j + limit < s.len()
    &&& forall|l: int| j < l <= j + limit ==> may_adjoin(rows, s[l - 1], #[trigger] s[l])
}

/// The patterns of keys are short enough where nowhere more characters go from key to
/// neighbouring key: 33 on a keyboard, 29 on a keypad.
pub proof fn long_patterns_are_seen(s: Seq<char>)
    ensures
        turns_fit(s) <==> {
            &&& forall|j: int| !#[trigger] is_run_from(qwerty(), s, 32, j)
            &&& forall|j: int| !#[trigger] is_run_from(dvorak(), s, 32, j)
            &&& forall|j: int| !#[trigger] is_run_from(keypad(), s, 28, j)
        },
{
    long_runs_are_seen(qwerty(), s, 32);
    long_runs_are_seen(dvorak(), s, 32);
    long_runs_are_seen(keypad(), s, 28);
}

proof fn long_runs_are_seen(rows: Seq<Seq<char>>, s: Seq<char>, limit: nat)
    ensures
        longest_run(rows, s, limit) <==> forall|j: int| !#[trigger] is_run_from(rows, s, limit, j),
{
    if longest_run(rows, s, limit) {
        assert forall|j: int| !#[trigger] is_run_from(rows, s, limit, j) by {
            if is_run_from(rows, s, limit, j) {
                run_goes_back(rows, s, j + limit, limit as int);
                assert(run_to(rows, s, j + limit) > limit);
            }
        }
    } else {
        let k = choose|k: int| 0 <= k < s.len() && #[trigger] run_to(rows, s, k) > limit;
        run_adjoins(rows, s, k);
        assert(is_run_from(rows, s, limit, k - limit));
    }
}

/// Which texts are taken as a whole where the machine counts to more than 32 bits: those of
/// up to twenty characters; and those without `İ` and with up to sixteen matches, where they
/// have up to 28 characters or short patterns of keys and few spellings.
pub proof fn what_is_taken_as_a_whole(s: Seq<char>, inputs: Seq<Seq<char>>)
    requires
        usize::MAX > 0xffff_ffff,
    ensures
        s.len() <= 20 ==> is_tame(s, inputs),
        s.len() > 20 && s.contains('İ') ==> !is_tame(s, inputs),
        s.len() > 20 && !s.contains('İ') ==> (is_tame(s, inputs) <==> most_matches(s, s.len())
            <= 16 && (s.len() <= 28 || turns_fit(s) && spellings_fit(s, inputs))),
{
}

} // verus!
