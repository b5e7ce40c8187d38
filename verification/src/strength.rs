//! How strong a password is.
//!
//! The measure is how many guesses an attacker needs, as `zxcvbn` estimates it
//! with dictionaries, keyboard patterns, dates and repetitions; not how many
//! kinds of characters there are.

use vstd::prelude::*;
use vstd::string::StrSliceExecFns;

use crate::reading::{
    cut, cut_is_within, cut_of, estimable, head, is_tame, most_pieces, rest_at, rest_is_behind,
    rest_of, tame,
};
use crate::secret::wipe_chars;
use crate::text::{
    alphanumeric, before, before_is_total, before_is_transitive, chars_of, comes_before, parts,
    text_of, texts, trimmed,
};

verus! {

/// Three grades.
#[derive(Debug, Clone, Copy, PartialEq, Eq, PartialOrd, Ord, Structural)]
pub enum Strength {
    Weak,
    Fair,
    Strong,
}

impl Strength {
    /// How far the bar is filled, in percent.
    pub fn percent(self) -> (r: u8)
        ensures
            r == match self {
                Strength::Weak => 30u8,
                Strength::Fair => 60u8,
                Strength::Strong => 100u8,
            },
    {
        match self {
            Strength::Weak => 30,
            Strength::Fair => 60,
            Strength::Strong => 100,
        }
    }
}

/// What is found of a password.
#[derive(Debug, Clone, Copy)]
pub struct Assessment {
    pub strength: Strength,
    /// The estimated number of guesses; an order of magnitude.
    pub guesses: u64,
    /// The score of `zxcvbn`, from 0 to 4.
    pub score: u8,
}

// ---------------------------------------------------------------------------
// Tokens
// ---------------------------------------------------------------------------

/// `v[a..b]` is a word of `v`: letters and digits, with nothing of the kind
/// next to it.
pub open spec fn word_at(v: Seq<char>, a: int, b: int) -> bool {
    &&& 0 <= a < b <= v.len()
    &&& forall|i: int| a <= i < b ==> alphanumeric(#[trigger] v[i])
    &&& a > 0 ==> !alphanumeric(v[a - 1])
    &&& b < v.len() ==> !alphanumeric(v[b])
}

/// `t` is a word of `v`.
pub open spec fn is_word(v: Seq<char>, t: Seq<char>) -> bool {
    exists|a: int, b: int| #[trigger] word_at(v, a, b) && t == v.subrange(a, b)
}

/// A text is long enough to be a token: three characters.
pub open spec fn long_enough(t: Seq<char>) -> bool {
    t.len() >= 3
}

/// `t` is a token of an input: the whole input without surrounding white space,
/// or a word of it.
pub open spec fn is_token_of(input: Seq<char>, t: Seq<char>) -> bool {
    long_enough(t) && (t == trimmed(input) || is_word(trimmed(input), t))
}

/// `t` is a token of one of the inputs.
pub open spec fn is_token(inputs: Seq<Seq<char>>, t: Seq<char>) -> bool {
    exists|i: int| 0 <= i < inputs.len() && is_token_of(#[trigger] inputs[i], t)
}

/// Texts in strictly ascending order.
pub open spec fn ascending(ts: Seq<Seq<char>>) -> bool {
    forall|i: int, j: int| 0 <= i < j < ts.len() ==> before(#[trigger] ts[i], #[trigger] ts[j])
}

/// `ts` lists the tokens of the inputs, each once, in ascending order.
pub open spec fn is_token_list(inputs: Seq<Seq<char>>, ts: Seq<Seq<char>>) -> bool {
    &&& ascending(ts)
    &&& forall|t: Seq<char>| #[trigger] ts.contains(t) <==> is_token(inputs, t)
}

/// There is one list of tokens only.
pub proof fn token_list_is_unique(inputs: Seq<Seq<char>>, a: Seq<Seq<char>>, b: Seq<Seq<char>>)
    requires
        is_token_list(inputs, a),
        is_token_list(inputs, b),
    ensures
        a == b,
{
    lists_agree(a, b, 0);
    assert(a =~= b);
}

proof fn lists_agree(a: Seq<Seq<char>>, b: Seq<Seq<char>>, n: int)
    requires
        ascending(a),
        ascending(b),
        forall|t: Seq<char>| #[trigger] a.contains(t) <==> b.contains(t),
        0 <= n <= a.len(),
        n <= b.len(),
        forall|k: int| 0 <= k < n ==> a[k] == b[k],
    ensures
        a.len() == b.len(),
        forall|k: int| 0 <= k < a.len() ==> a[k] == b[k],
    decreases a.len() - n,
{
    if n < a.len() {
        assert(a.contains(a[n]));
        let k = choose|k: int| 0 <= k < b.len() && b[k] == a[n];
        if k < n {
            before_is_total(a[k], a[n]);
        }
        assert(b.contains(b[n]) && a.contains(b[n]));
        let l = choose|l: int| 0 <= l < a.len() && a[l] == b[n];
        if l < n {
            before_is_total(b[l], b[n]);
        } else if k > n && l > n {
            before_is_total(a[n], b[n]);
        }
        lists_agree(a, b, n + 1);
    } else if n < b.len() {
        assert(b.contains(b[n]) && a.contains(b[n]));
        let l = choose|l: int| 0 <= l < a.len() && a[l] == b[n];
        before_is_total(b[l], b[n]);
    }
}

/// The texts of a list.
pub open spec fn contents(ts: Seq<Vec<char>>) -> Seq<Seq<char>> {
    Seq::new(ts.len(), |i: int| ts[i]@)
}

/// Adds a text to an ascending list, if it is long enough and not yet there.
fn add_token(list: &mut Vec<Vec<char>>, t: Vec<char>)
    requires
        ascending(contents(old(list)@)),
    ensures
        ascending(contents(final(list)@)),
        forall|u: Seq<char>| #[trigger]
            contents(final(list)@).contains(u) <==> contents(old(list)@).contains(u) || (u == t@
                && long_enough(t@)),
{
    if t.len() < 3 {
        return;
    }
    let ghost was = contents(list@);
    let mut p: usize = 0;
    while p < list.len() && comes_before(&list[p], &t)
        invariant
            p <= list@.len(),
            was == contents(list@),
            forall|k: int| 0 <= k < p ==> before(#[trigger] was[k], t@),
        decreases list.len() - p,
    {
        p += 1;
    }
    if p < list.len() && !comes_before(&t, &list[p]) {
        proof {
            before_is_total(was[p as int], t@);
            assert(was[p as int] == t@);
        }
        return;
    }
    let ghost text = t@;
    list.insert(p, t);
    proof {
        let now = contents(list@);
        assert(now =~= was.insert(p as int, text));
        assert forall|i: int, j: int| 0 <= i < j < now.len() implies before(
            #[trigger] now[i],
            #[trigger] now[j],
        ) by {
            if i == p {
                if j > p + 1 {
                    assert(before(was[p as int], was[j - 1]));
                    before_is_transitive(text, was[p as int], was[j - 1]);
                }
            } else if j != p {
                let a = if i < p {
                    i
                } else {
                    i - 1
                };
                let b = if j < p {
                    j
                } else {
                    j - 1
                };
                assert(before(was[a], was[b]));
            }
        }
        assert forall|u: Seq<char>| #[trigger] now.contains(u) <==> was.contains(u) || u == text by {
            if was.contains(u) {
                let k = choose|k: int| 0 <= k < was.len() && was[k] == u;
                if k < p {
                    assert(now[k] == u);
                } else {
                    assert(now[k + 1] == u);
                }
            }
            if u == text {
                assert(now[p as int] == u);
            }
            if now.contains(u) {
                let k = choose|k: int| 0 <= k < now.len() && now[k] == u;
                if k < p {
                    assert(was[k] == u);
                } else if k > p {
                    assert(was[k - 1] == u);
                }
            }
        }
    }
}

/// Adds the words of a text to an ascending list.
fn add_words(list: &mut Vec<Vec<char>>, v: &Vec<char>)
    requires
        ascending(contents(old(list)@)),
    ensures
        ascending(contents(final(list)@)),
        forall|t: Seq<char>| #[trigger]
            contents(final(list)@).contains(t) <==> contents(old(list)@).contains(t) || (
            long_enough(t) && is_word(v@, t)),
{
    let ghost was = contents(list@);
    let mut i: usize = 0;
    proof {
        assert forall|t: Seq<char>| !word_before(v@, t, 0) by {}
    }
    while i < v.len()
        invariant
            i <= v@.len(),
            i > 0 && i < v@.len() ==> !alphanumeric(v@[i - 1]) || !alphanumeric(v@[i as int]),
            ascending(contents(list@)),
            forall|t: Seq<char>| #[trigger]
                contents(list@).contains(t) <==> was.contains(t) || (long_enough(t) && word_before(
                    v@,
                    t,
                    i as int,
                )),
        decreases v.len() - i,
    {
        if v[i].is_alphanumeric() {
            let mut j: usize = i + 1;
            while j < v.len() && v[j].is_alphanumeric()
                invariant
                    i < j <= v@.len(),
                    forall|k: int| i <= k < j ==> alphanumeric(#[trigger] v@[k]),
                decreases v.len() - j,
            {
                j += 1;
            }
            let text = text_of(v, i, j);
            let word = chars_of(text.as_str());
            let ghost before_word = contents(list@);
            add_token(list, word);
            proof {
                assert(word_at(v@, i as int, j as int));
                assert forall|t: Seq<char>| #[trigger] word_before(v@, t, j as int) <==> word_before(
                    v@,
                    t,
                    i as int,
                ) || t == v@.subrange(i as int, j as int) by {
                    next_word(v@, t, i as int, j as int);
                }
            }
            i = j;
        } else {
            proof {
                assert forall|t: Seq<char>| #[trigger] word_before(v@, t, i + 1) <==> word_before(
                    v@,
                    t,
                    i as int,
                ) by {
                    no_word(v@, t, i as int);
                }
            }
            i += 1;
        }
    }
    proof {
        assert forall|t: Seq<char>| word_before(v@, t, v@.len() as int) <==> is_word(v@, t) by {}
    }
}

/// `t` is a word of `v` that ends at or before `n`.
spec fn word_before(v: Seq<char>, t: Seq<char>, n: int) -> bool {
    exists|a: int, b: int| #[trigger] word_at(v, a, b) && b <= n && t == v.subrange(a, b)
}

proof fn next_word(v: Seq<char>, t: Seq<char>, i: int, j: int)
    requires
        word_at(v, i, j),
    ensures
        word_before(v, t, j) <==> word_before(v, t, i) || t == v.subrange(i, j),
{
    if word_before(v, t, j) && !word_before(v, t, i) {
        let (a, b) = choose|a: int, b: int| #[trigger]
            word_at(v, a, b) && b <= j && t == v.subrange(a, b);
        if a < i {
            assert(alphanumeric(v[i]));
            assert(alphanumeric(v[i - 1]));
        } else if a > i {
            assert(alphanumeric(v[a - 1]));
        }
        if b < j {
            assert(alphanumeric(v[b]));
        }
    }
}

proof fn no_word(v: Seq<char>, t: Seq<char>, i: int)
    requires
        0 <= i < v.len(),
        !alphanumeric(v[i]),
    ensures
        word_before(v, t, i + 1) <==> word_before(v, t, i),
{
    if word_before(v, t, i + 1) {
        let (a, b) = choose|a: int, b: int| #[trigger]
            word_at(v, a, b) && b <= i + 1 && t == v.subrange(a, b);
        if b == i + 1 {
            assert(alphanumeric(v[i]));
        }
    }
}

/// The tokens of inputs such as names and addresses: each input as a whole and
/// each of its words, as far as they have three characters, in ascending order.
///
/// The estimator compares a password with whole inputs, so a name of several
/// words has to be handed over word by word. Shorter pieces would only find
/// fault with good passwords.
pub fn tokenize(inputs: &[&str]) -> (r: Vec<String>)
    ensures
        is_token_list(parts(inputs@), texts(r@)),
{
    let ghost all = parts(inputs@);
    let mut list: Vec<Vec<char>> = Vec::new();
    let mut n: usize = 0;
    while n < inputs.len()
        invariant
            n <= inputs@.len(),
            all == parts(inputs@),
            ascending(contents(list@)),
            forall|t: Seq<char>| #[trigger]
                contents(list@).contains(t) <==> is_token(all.take(n as int), t),
        decreases inputs.len() - n,
    {
        let raw = inputs[n].trim();
        let v = chars_of(raw);
        add_token(&mut list, chars_of(raw));
        add_words(&mut list, &v);
        proof {
            assert forall|t: Seq<char>| #[trigger]
                is_token(all.take(n + 1), t) <==> is_token(all.take(n as int), t) || is_token_of(
                    all[n as int],
                    t,
                ) by {
                one_more_input(all, n as int, t);
            }
        }
        n += 1;
    }
    assert(all.take(n as int) =~= all);
    let mut out: Vec<String> = Vec::new();
    let mut k: usize = 0;
    while k < list.len()
        invariant
            k <= list@.len(),
            out@.len() == k,
            forall|j: int| 0 <= j < k ==> (#[trigger] out@[j])@ == list@[j]@,
        decreases list.len() - k,
    {
        let ghost whole = list@[k as int]@;
        out.push(text_of(&list[k], 0, list[k].len()));
        assert(whole.subrange(0, whole.len() as int) =~= whole);
        k += 1;
    }
    assert(texts(out@) =~= contents(list@));
    out
}

proof fn one_more_input(inputs: Seq<Seq<char>>, n: int, t: Seq<char>)
    requires
        0 <= n < inputs.len(),
    ensures
        is_token(inputs.take(n + 1), t) <==> is_token(inputs.take(n), t) || is_token_of(
            inputs[n],
            t,
        ),
{
    if is_token(inputs.take(n), t) {
        let i = choose|i: int|
            0 <= i < n && is_token_of(#[trigger] inputs.take(n)[i], t);
        assert(is_token_of(inputs.take(n + 1)[i], t));
    }
    if is_token_of(inputs[n], t) {
        assert(is_token_of(inputs.take(n + 1)[n], t));
    }
    if is_token(inputs.take(n + 1), t) {
        let i = choose|i: int|
            0 <= i < n + 1 && is_token_of(#[trigger] inputs.take(n + 1)[i], t);
        if i < n {
            assert(is_token_of(inputs.take(n)[i], t));
        }
    }
}

/// Only texts of three characters or more are tokens.
pub proof fn tokens_are_long_enough(inputs: Seq<Seq<char>>, ts: Seq<Seq<char>>)
    requires
        is_token_list(inputs, ts),
    ensures
        forall|i: int| 0 <= i < ts.len() ==> long_enough(#[trigger] ts[i]),
{
    assert forall|i: int| 0 <= i < ts.len() implies long_enough(#[trigger] ts[i]) by {
        assert(ts.contains(ts[i]));
    }
}

/// Inputs of which every piece is shorter than that change nothing: they
/// have the tokens of no inputs at all.
pub proof fn short_inputs_have_no_tokens(inputs: Seq<Seq<char>>, ts: Seq<Seq<char>>)
    requires
        is_token_list(inputs, ts),
        forall|i: int, t: Seq<char>|
            0 <= i < inputs.len() && is_word(trimmed(#[trigger] inputs[i]), t)
                ==> !#[trigger] long_enough(t),
        forall|i: int| 0 <= i < inputs.len() ==> !long_enough(trimmed(#[trigger] inputs[i])),
    ensures
        ts == Seq::<Seq<char>>::empty(),
        is_token_list(Seq::<Seq<char>>::empty(), ts),
{
    if ts.len() > 0 {
        assert(ts.contains(ts[0]));
        let i = choose|i: int| 0 <= i < inputs.len() && is_token_of(#[trigger] inputs[i], ts[0]);
        assert(false);
    }
    assert(ts =~= Seq::<Seq<char>>::empty());
}

// ---------------------------------------------------------------------------
// Assessment
// ---------------------------------------------------------------------------

/// The numbers of guesses that `zxcvbn::zxcvbn` can estimate for a password,
/// with these inputs, in any year and in any process.
pub uninterp spec fn zxcvbn_guesses(password: Seq<char>, inputs: Seq<Seq<char>>) -> Set<u64>;

/// The score that belongs to a number of guesses.
pub open spec fn score_of(guesses: u64) -> u8 {
    if guesses < 1_005 {
        0
    } else if guesses < 1_000_005 {
        1
    } else if guesses < 100_000_005 {
        2
    } else if guesses < 10_000_000_005 {
        3
    } else {
        4
    }
}

/// How many inputs the estimator can number without its products overflowing.
pub open spec fn most_inputs() -> nat {
    0x10_0000
}

/// Estimates by `zxcvbn::zxcvbn` how many guesses a password takes, and gives
/// the number with its score.
///
/// The estimate depends on the password and on the inputs in their order, but
/// also on the current year and, between equally good readings of the password,
/// on the order of a hash map. So only a set of estimates can be named for the
/// arguments, and the estimate is one of them. The score follows from the
/// number of guesses alone.
///
/// Where overflow is checked the crate panics on some long passwords. Those on
/// which that can happen are left out, for the reasons that
/// [`reading`](crate::reading) gives. So are inputs of fewer than three
/// characters, which would be matches that are not counted there, and too many
/// inputs, whose numbers are factors.
#[verifier::external_body]
fn zxcvbn_estimate(password: &str, inputs: &[&str]) -> (r: (u64, u8))
    requires
        estimable(password@, parts(inputs@)),
        inputs@.len() <= most_inputs(),
        forall|i: int| 0 <= i < inputs@.len() ==> (#[trigger] inputs@[i])@.len() >= 3,
    ensures
        zxcvbn_guesses(password@, parts(inputs@)).contains(r.0),
        r.1 == score_of(r.0),
{
    let entropy = zxcvbn::zxcvbn(password, inputs);
    (entropy.guesses(), u8::from(entropy.score()))
}

/// The grade of a score. Only the highest score is strong: a generated password
/// reaches it easily.
pub open spec fn strength_of(score: u8) -> Strength {
    if score <= 1 {
        Strength::Weak
    } else if score <= 3 {
        Strength::Fair
    } else {
        Strength::Strong
    }
}

/// The assessment that an estimate gives.
pub fn assessment_of(guesses: u64, score: u8) -> (r: Assessment)
    ensures
        r == (Assessment { strength: strength_of(score), guesses, score }),
{
    let strength = match score {
        0 | 1 => Strength::Weak,
        2 | 3 => Strength::Fair,
        _ => Strength::Strong,
    };
    Assessment { strength, guesses, score }
}

/// The tokens that the estimator is given: all of them, unless they are more than
/// it can number.
pub open spec fn numbered(ts: Seq<Seq<char>>) -> Seq<Seq<char>> {
    if ts.len() <= most_inputs() {
        ts
    } else {
        ts.take(most_inputs() as int)
    }
}

/// The longest beginning of a text that the estimator can take.
pub open spec fn tame_part(s: Seq<char>, inputs: Seq<Seq<char>>) -> Seq<char>
    decreases s.len(),
{
    if is_tame(s, inputs) || s.len() == 0 {
        s
    } else {
        tame_part(s.drop_last(), inputs)
    }
}

/// The longest beginning is a beginning that the estimator can take, it is not empty,
/// and the estimator can take no longer one.
pub proof fn tame_part_is_tame(s: Seq<char>, inputs: Seq<Seq<char>>)
    ensures
        is_tame(tame_part(s, inputs), inputs),
        tame_part(s, inputs).len() <= s.len(),
        tame_part(s, inputs) == s.take(tame_part(s, inputs).len() as int),
        s.len() > 0 ==> tame_part(s, inputs).len() > 0,
        forall|m: int|
            tame_part(s, inputs).len() < m <= s.len() ==> !is_tame(#[trigger] s.take(m), inputs),
    decreases s.len(),
{
    assert(s.take(s.len() as int) =~= s);
    if !is_tame(s, inputs) {
        let t = s.drop_last();
        tame_part_is_tame(t, inputs);
        let n = tame_part(s, inputs).len() as int;
        assert(t.take(n) =~= s.take(n));
        assert forall|m: int| n < m <= s.len() implies !is_tame(#[trigger] s.take(m), inputs) by {
            if m <= t.len() {
                assert(t.take(m) =~= s.take(m));
            }
        }
    }
}

/// The first part of a text that the estimator cannot take as a whole: as long as
/// it can take it, and without a copy that is not whole where the text repeats
/// itself there.
pub open spec fn first_part(s: Seq<char>, inputs: Seq<Seq<char>>) -> Seq<char> {
    tame_part(s.take(cut(s, tame_part(s, inputs).len() as int)), inputs)
}

/// What has to be assessed of a text besides its first part: what follows, without
/// the whole copies of what the text repeats there.
pub open spec fn rest(s: Seq<char>, inputs: Seq<Seq<char>>) -> Seq<char> {
    s.skip(
        rest_at(s, tame_part(s, inputs).len() as int, first_part(s, inputs).len() as int),
    )
}

/// The guesses that two parts take: each guess of one with each of the other, in
/// both orders, as the estimator counts them.
pub open spec fn combined(a: u64, b: u64) -> u64 {
    let r: int = 2 * (a * b);
    if r > u64::MAX {
        u64::MAX
    } else {
        r as u64
    }
}

/// The first part of a text is a beginning that the estimator can take, and not
/// empty. It and what remains are shorter than the text.
pub proof fn first_part_is_proper(s: Seq<char>, inputs: Seq<Seq<char>>)
    requires
        !is_tame(s, inputs),
    ensures
        is_tame(first_part(s, inputs), inputs),
        0 < first_part(s, inputs).len() < s.len(),
        first_part(s, inputs) == s.take(first_part(s, inputs).len() as int),
        rest(s, inputs).len() < s.len(),
{
    tame_part_is_tame(s, inputs);
    let t = tame_part(s, inputs).len() as int;
    cut_is_within(s, t);
    let before = s.take(cut(s, t));
    tame_part_is_tame(before, inputs);
    let n = first_part(s, inputs).len() as int;
    assert(before.take(n) =~= s.take(n));
    if t == s.len() {
        assert(s.take(t) =~= s);
    }
    rest_is_behind(s, t, n);
}

/// `guesses` is made of estimates of the parts of a text: of the text itself where
/// the estimator can take it; otherwise of its first part and of the rest.
pub open spec fn is_made_of_parts(s: Seq<char>, inputs: Seq<Seq<char>>, guesses: u64) -> bool
    decreases s.len(),
{
    if is_tame(s, inputs) {
        zxcvbn_guesses(s, inputs).contains(guesses)
    } else {
        proof {
            first_part_is_proper(s, inputs);
        }
        let part = first_part(s, inputs);
        if rest(s, inputs).len() == 0 {
            zxcvbn_guesses(part, inputs).contains(guesses)
        } else {
            exists|a: u64, b: u64|
                #![trigger combined(a, b)]
                {
                    &&& guesses == combined(a, b)
                    &&& zxcvbn_guesses(part, inputs).contains(a)
                    &&& is_made_of_parts(rest(s, inputs), inputs, b)
                }
        }
    }
}

/// `guesses` is what a password is assessed by: an estimate of the password, or,
/// where the estimator cannot take it as a whole, of the parts of what it reads.
pub open spec fn is_assessed_by(
    password: Seq<char>,
    inputs: Seq<Seq<char>>,
    guesses: u64,
) -> bool {
    if estimable(password, inputs) {
        zxcvbn_guesses(password, inputs).contains(guesses)
    } else {
        is_made_of_parts(head(password), inputs, guesses)
    }
}

/// Leaves the longest beginning that the estimator can take.
fn shorten(v: &mut Vec<char>, inputs: &[&str])
    ensures
        final(v)@ == tame_part(old(v)@, parts(inputs@)),
{
    while v.len() > 0 && !tame(v, inputs)
        invariant
            tame_part(old(v)@, parts(inputs@)) == tame_part(v@, parts(inputs@)),
        decreases v.len(),
    {
        let ghost was = v@;
        let _ = v.pop();
        assert(v@ =~= was.drop_last());
    }
}

/// Where the first part of a text ends, and where the rest begins.
fn split(s: &Vec<char>, inputs: &[&str]) -> (r: (usize, usize))
    requires
        !is_tame(s@, parts(inputs@)),
    ensures
        r.0 == first_part(s@, parts(inputs@)).len(),
        s@.skip(r.1 as int) == rest(s@, parts(inputs@)),
        r.0 <= r.1 <= s@.len(),
{
    let mut v = copy_of(s, s.len());
    assert(s@.take(s@.len() as int) =~= s@);
    shorten(&mut v, inputs);
    let end: usize = v.len();
    wipe_chars(&mut v);
    proof {
        tame_part_is_tame(s@, parts(inputs@));
        cut_is_within(s@, end as int);
        first_part_is_proper(s@, parts(inputs@));
    }
    let mut w = copy_of(s, cut_of(s, end));
    shorten(&mut w, inputs);
    let n: usize = w.len();
    wipe_chars(&mut w);
    proof {
        rest_is_behind(s@, end as int, n as int);
    }
    (n, rest_of(s, end, n))
}

/// The first characters of a text.
fn copy_of(s: &Vec<char>, n: usize) -> (r: Vec<char>)
    requires
        n <= s@.len(),
    ensures
        r@ == s@.take(n as int),
{
    let mut v: Vec<char> = Vec::with_capacity(n);
    let mut i: usize = 0;
    while i < n
        invariant
            i <= n <= s@.len(),
            v@ == s@.take(i as int),
        decreases n - i,
    {
        v.push(s[i]);
        assert(s@.take(i + 1) =~= s@.take(i as int).push(s@[i as int]));
        i += 1;
    }
    v
}

/// The guesses that two parts take.
fn combine(a: u64, b: u64) -> (r: u64)
    ensures
        r == combined(a, b),
{
    match a.checked_mul(b) {
        Some(n) => match n.checked_mul(2) {
            Some(r) => r,
            None => u64::MAX,
        },
        None => u64::MAX,
    }
}

/// The estimate of a text, made of those of its parts.
fn estimate_parts(s: &str, inputs: &[&str]) -> (r: u64)
    requires
        s@.len() <= 100,
        inputs@.len() <= most_inputs(),
        forall|i: int| 0 <= i < inputs@.len() ==> (#[trigger] inputs@[i])@.len() >= 3,
    ensures
        is_made_of_parts(s@, parts(inputs@), r),
    decreases s@.len(),
{
    let mut v = chars_of(s);
    if tame(&v, inputs) {
        wipe_chars(&mut v);
        let (guesses, _) = zxcvbn_estimate(s, inputs);
        return guesses;
    }
    let (n, m) = split(&v, inputs);
    let len: usize = v.len();
    wipe_chars(&mut v);
    proof {
        first_part_is_proper(s@, parts(inputs@));
    }
    let part = s.substring_char(0, n);
    assert(part@ =~= s@.take(n as int));
    let (a, _) = zxcvbn_estimate(part, inputs);
    if m == len {
        return a;
    }
    let remains = s.substring_char(m, len);
    assert(remains@ =~= s@.skip(m as int));
    let b: u64 = estimate_parts(remains, inputs);
    combine(a, b)
}

/// The estimate of a password; made of those of its parts where the estimator
/// cannot take it as a whole.
fn estimate(password: &str, inputs: &[&str]) -> (r: (u64, u8))
    requires
        inputs@.len() <= most_inputs(),
        forall|i: int| 0 <= i < inputs@.len() ==> (#[trigger] inputs@[i])@.len() >= 3,
    ensures
        is_assessed_by(password@, parts(inputs@), r.0),
        r.1 == score_of(r.0),
{
    let len: usize = password.unicode_len();
    let first = if len <= 100 {
        password
    } else {
        password.substring_char(0, 100)
    };
    assert(first@ =~= head(password@));
    let mut v = chars_of(first);
    let whole = tame(&v, inputs);
    wipe_chars(&mut v);
    if whole {
        zxcvbn_estimate(password, inputs)
    } else {
        let guesses: u64 = estimate_parts(first, inputs);
        (guesses, score(guesses))
    }
}

/// The score that belongs to a number of guesses.
fn score(guesses: u64) -> (r: u8)
    ensures
        r == score_of(guesses),
{
    if guesses < 1_005 {
        0
    } else if guesses < 1_000_005 {
        1
    } else if guesses < 100_000_005 {
        2
    } else if guesses < 10_000_000_005 {
        3
    } else {
        4
    }
}

/// Assesses a password.
///
/// `user_inputs` are the name, user name and address of the entry as they are:
/// a password made of them is easily guessed, and the estimator has to know
/// them to see it. They are split into tokens here.
pub fn assess(password: &str, user_inputs: &[&str]) -> (r: Assessment)
    ensures
        password@.len() == 0 ==> r == (Assessment {
            strength: Strength::Weak,
            guesses: 0,
            score: 0,
        }),
        r.score == score_of(r.guesses),
        r.strength == strength_of(r.score),
        r.score <= 4,
        r.strength == Strength::Weak <==> r.score <= 1,
        r.strength == Strength::Fair <==> r.score == 2 || r.score == 3,
        r.strength == Strength::Strong <==> r.score == 4,
        password@.len() > 0 ==> exists|ts: Seq<Seq<char>>| #[trigger]
            is_token_list(parts(user_inputs@), ts) && is_assessed_by(
                password@,
                numbered(ts),
                r.guesses,
            ),
{
    if password.is_empty() {
        return Assessment { strength: Strength::Weak, guesses: 0, score: 0 };
    }
    let tokens = tokenize(user_inputs);
    proof {
        tokens_are_long_enough(parts(user_inputs@), texts(tokens@));
    }
    let mut refs: Vec<&str> = Vec::new();
    let mut i: usize = 0;
    while i < tokens.len() && i < 0x10_0000
        invariant
            i <= tokens@.len(),
            i <= most_inputs(),
            refs@.len() == i,
            forall|j: int| 0 <= j < i ==> (#[trigger] refs@[j])@ == texts(tokens@)[j],
        decreases tokens.len() - i,
    {
        refs.push(tokens[i].as_str());
        i += 1;
    }
    assert(parts(refs@) =~= numbered(texts(tokens@)));
    let (guesses, score) = estimate(password, refs.as_slice());
    assessment_of(guesses, score)
}

/// Short passwords are assessed as a whole, whatever they and the inputs are.
pub proof fn short_passwords_are_estimable(password: Seq<char>, inputs: Seq<Seq<char>>)
    requires
        password.len() <= most_pieces(),
    ensures
        estimable(password, inputs),
        most_pieces() >= 12,
{
}

/// A password that takes more guesses never gets a lower score or grade.
pub proof fn more_guesses_are_never_weaker(a: u64, b: u64)
    requires
        a <= b,
    ensures
        score_of(a) <= score_of(b),
        strength_of(score_of(b)) == Strength::Weak ==> strength_of(score_of(a)) == Strength::Weak,
        strength_of(score_of(a)) == Strength::Strong ==> strength_of(score_of(b))
            == Strength::Strong,
{
}

// ---------------------------------------------------------------------------
// What tokens and assessments are
// ---------------------------------------------------------------------------

/// Every input is a token as a whole, without the white space around it, where it has
/// three characters.
pub proof fn whole_inputs_are_tokens(inputs: Seq<Seq<char>>, ts: Seq<Seq<char>>, i: int)
    requires
        is_token_list(inputs, ts),
        0 <= i < inputs.len(),
        trimmed(inputs[i]).len() >= 3,
    ensures
        ts.contains(trimmed(inputs[i])),
{
    assert(is_token_of(inputs[i], trimmed(inputs[i])));
}

/// Every word of an input is a token where it has three characters: letters and digits
/// between characters that are neither, or at an end.
pub proof fn words_are_tokens(
    inputs: Seq<Seq<char>>,
    ts: Seq<Seq<char>>,
    i: int,
    a: int,
    b: int,
)
    requires
        is_token_list(inputs, ts),
        0 <= i < inputs.len(),
        0 <= a,
        a + 3 <= b <= trimmed(inputs[i]).len(),
        forall|k: int| a <= k < b ==> alphanumeric(#[trigger] trimmed(inputs[i])[k]),
        a == 0 || !alphanumeric(trimmed(inputs[i])[a - 1]),
        b == trimmed(inputs[i]).len() || !alphanumeric(trimmed(inputs[i])[b]),
    ensures
        ts.contains(trimmed(inputs[i]).subrange(a, b)),
{
    let v = trimmed(inputs[i]);
    assert(word_at(v, a, b));
    assert(is_token_of(inputs[i], v.subrange(a, b)));
}

/// Nothing else is a token: each has three characters, and is an input as a whole or a
/// word of one. Each is listed once, in the order of the texts.
pub proof fn nothing_else_is_a_token(
    inputs: Seq<Seq<char>>,
    ts: Seq<Seq<char>>,
    k: int,
    l: int,
) -> (r: (int, int, int))
    requires
        is_token_list(inputs, ts),
        0 <= k < ts.len(),
    ensures
        0 <= r.0 < inputs.len(),
        ts[k].len() >= 3,
        ({
            let v = trimmed(inputs[r.0]);
            let (a, b) = (r.1, r.2);
            &&& 0 <= a < b <= v.len()
            &&& ts[k] == v.subrange(a, b)
            &&& {
                ||| a == 0 && b == v.len()
                ||| {
                    &&& forall|j: int| a <= j < b ==> alphanumeric(#[trigger] v[j])
                    &&& a == 0 || !alphanumeric(v[a - 1])
                    &&& b == v.len() || !alphanumeric(v[b])
                }
            }
        }),
        k < l < ts.len() ==> before(ts[k], ts[l]),
{
    assert(ts.contains(ts[k]));
    let i = choose|i: int| 0 <= i < inputs.len() && is_token_of(#[trigger] inputs[i], ts[k]);
    let v = trimmed(inputs[i]);
    if ts[k] == v {
        assert(v.subrange(0, v.len() as int) =~= v);
        (i, 0, v.len() as int)
    } else {
        let (a, b) = choose|a: int, b: int| #[trigger]
            word_at(v, a, b) && ts[k] == v.subrange(a, b);
        (i, a, b)
    }
}

/// What a score comes to: up to 1 weak, 2 and 3 fair, 4 strong. The scores begin at a
/// thousand, a million, a hundred million and ten thousand million guesses, and five
/// more.
pub proof fn scores_and_grades(guesses: u64, score: u8)
    ensures
        strength_of(score) == Strength::Weak <==> score <= 1,
        strength_of(score) == Strength::Fair <==> score == 2 || score == 3,
        strength_of(score) == Strength::Strong <==> score >= 4,
        score_of(guesses) <= 4,
        score_of(guesses) >= 1 <==> guesses >= 1_005,
        score_of(guesses) >= 2 <==> guesses >= 1_000_005,
        score_of(guesses) >= 3 <==> guesses >= 100_000_005,
        score_of(guesses) >= 4 <==> guesses >= 10_000_000_005,
{
}

/// A password that the estimator can take is assessed by an estimate of this very
/// password with these very inputs, and by nothing else.
pub proof fn passwords_are_estimated_as_they_are(
    password: Seq<char>,
    inputs: Seq<Seq<char>>,
    guesses: u64,
)
    requires
        estimable(password, inputs) || password.len() <= 12,
    ensures
        is_assessed_by(password, inputs, guesses) <==> zxcvbn_guesses(password, inputs).contains(
            guesses,
        ),
{
    if password.len() <= 12 {
        assert(password.len() <= most_pieces());
    }
}

/// The tokens are handed to the estimator as they are, unless there are more than a
/// million.
pub proof fn tokens_are_handed_on(ts: Seq<Seq<char>>)
    ensures
        ts.len() <= 1_000_000 ==> numbered(ts) == ts,
        numbered(ts).len() <= ts.len(),
        forall|i: int| 0 <= i < numbered(ts).len() ==> #[trigger] numbered(ts)[i] == ts[i],
{
}

/// What a text is assessed by that the estimator cannot take as a whole: an estimate of a
/// beginning of it, which it can take, and of what follows, where there is something besides
/// the copies that are left out. The beginning is the longest that the estimator can take up
/// to the cut.
pub proof fn parts_are_estimated(s: Seq<char>, inputs: Seq<Seq<char>>, guesses: u64) -> (r: (
    int,
    u64,
    u64,
))
    requires
        !is_tame(s, inputs),
        is_made_of_parts(s, inputs, guesses),
    ensures
        ({
            let end = tame_part(s, inputs).len() as int;
            let (n, a, b) = r;
            let m = rest_at(s, end, n);
            &&& 0 < n <= cut(s, end) <= end < s.len()
            &&& is_tame(s.take(n), inputs)
            &&& forall|l: int| n < l <= cut(s, end) ==> !is_tame(#[trigger] s.take(l), inputs)
            &&& zxcvbn_guesses(s.take(n), inputs).contains(a)
            &&& n <= m <= s.len()
            &&& m == s.len() ==> guesses == a
            &&& m < s.len() ==> guesses == combined(a, b) && is_made_of_parts(s.skip(m), inputs, b)
        }),
{
    first_part_is_proper(s, inputs);
    tame_part_is_tame(s, inputs);
    let end = tame_part(s, inputs).len() as int;
    if end == s.len() {
        assert(s.take(end) =~= s);
    }
    cut_is_within(s, end);
    let before = s.take(cut(s, end));
    tame_part_is_tame(before, inputs);
    let part = first_part(s, inputs);
    let n = part.len() as int;
    assert forall|l: int| n < l <= cut(s, end) implies !is_tame(#[trigger] s.take(l), inputs) by {
        assert(before.take(l) =~= s.take(l));
    }
    rest_is_behind(s, end, n);
    if rest(s, inputs).len() == 0 {
        (n, guesses, 0)
    } else {
        let (a, b) = choose|a: u64, b: u64|
            #![trigger combined(a, b)]
            {
                &&& guesses == combined(a, b)
                &&& zxcvbn_guesses(part, inputs).contains(a)
                &&& is_made_of_parts(rest(s, inputs), inputs, b)
            };
        (n, a, b)
    }
}

/// Only the first hundred characters of a password count.
pub proof fn a_hundred_characters_count(password: Seq<char>, more: Seq<char>)
    ensures
        password.len() <= 100 ==> head(password) == password,
        password.len() >= 100 ==> head(password + more) == password.take(100) && head(password)
            == password.take(100),
{
    if password.len() >= 100 {
        assert((password + more).take(100) =~= password.take(100));
        if password.len() == 100 {
            assert(password.take(100) =~= password);
            if more.len() == 0 {
                assert(password + more =~= password);
            }
        }
    }
}

/// A text of two parts takes twice as many guesses as the one times the other, as far as
/// that can be counted.
pub proof fn parts_multiply(a: u64, b: u64)
    ensures
        2 * (a * b) <= u64::MAX ==> combined(a, b) == 2 * (a * b),
        2 * (a * b) > u64::MAX ==> combined(a, b) == u64::MAX,
        combined(a, b) == combined(b, a),
        a >= 1 ==> combined(a, b) >= b,
{
    assert(a * b == b * a) by (nonlinear_arith);
    assert(a >= 1 ==> a * b >= b) by (nonlinear_arith);
}

} // verus!
