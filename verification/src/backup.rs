//! Automatic backups: their names, which of them to keep, and what to show of
//! them.
//!
//! Rotating backups deletes files of the user, so it would rather delete too
//! little than too much: it only ever names files that this program wrote.

use vstd::prelude::*;

use crate::calendar::{
    date_of, date_text, dates_have_eight_characters, dates_sort, stamp, stamp_len, stamp_text,
    year_10000,
};
use crate::text::{
    before, before_extends, before_is_total, before_is_transitive, begins_with, chars_of,
    comes_before, ends, finishes_with, padded, padded_in_order, padded_len, padded_is_digits, push_text, starts,
    text_of, texts,
};

verus! {

// ---------------------------------------------------------------------------
// Names
// ---------------------------------------------------------------------------

/// The name of the automatic backup of a moment:
/// `lokal-auto-YYYYMMDD-HHZ.lokal`.
pub open spec fn auto_backup_text(secs: nat) -> Seq<char> {
    "lokal-auto-"@ + stamp_text(secs).take(11) + "Z.lokal"@
}

/// The name of the automatic backup of the moment `secs` seconds after 1970.
///
/// The name is exact to the hour on purpose: changes within an hour go to one
/// file, so the backups that are kept reach back in time and do not all stem
/// from the last few minutes.
pub fn auto_backup_name(secs: u64) -> (r: String)
    ensures
        r@ == auto_backup_text(secs as nat),
{
    let s = stamp(secs);
    let v = chars_of(s.as_str());
    proof {
        hour_stands_in_front(secs as nat);
    }
    let mut name = "lokal-auto-".to_owned();
    push_text(&mut name, text_of(&v, 0, 11).as_str());
    push_text(&mut name, "Z.lokal");
    assert(v@.subrange(0, 11) =~= stamp_text(secs as nat).take(11));
    name
}

/// The name offered for a backup that the user exports.
pub fn export_name(secs: u64) -> (r: String)
    ensures
        r@ == "lokal-backup-"@ + stamp_text(secs as nat) + ".lokal"@,
{
    let mut name = "lokal-backup-".to_owned();
    push_text(&mut name, stamp(secs).as_str());
    push_text(&mut name, ".lokal");
    name
}

/// A name that an automatic backup can have: prefix and suffix fit.
pub open spec fn is_auto_backup(name: Seq<char>) -> bool {
    begins_with(name, "lokal-auto-"@) && finishes_with(name, ".lokal"@)
}

/// Whether a file name is that of an automatic backup.
fn names_auto_backup(name: &Vec<char>) -> (r: bool)
    ensures
        r == is_auto_backup(name@),
{
    starts(name, &chars_of("lokal-auto-")) && ends(name, &chars_of(".lokal"))
}

/// A stamp begins with the date and the hour, which take eleven characters or,
/// from the year 10000 on, more.
proof fn hour_stands_in_front(secs: nat)
    ensures
        ({
            let d = date_text(date_of(secs / 86400));
            let p = d + "-"@ + padded(secs % 86400 / 3600, 2);
            &&& (d + "-"@).len() == d.len() + 1
            &&& p.len() == d.len() + 3
            &&& d.len() >= 8
            &&& stamp_text(secs).len() >= 11
            &&& stamp_text(secs).take(11) == p.take(11)
        }),
{
    let date = date_of(secs / 86400);
    let d = date_text(date);
    padded_len(date.year as nat, 4);
    padded_len(date.month as nat, 2);
    padded_len(date.day as nat, 2);
    stamp_len(secs);
    reveal_strlit("-");
    assert(stamp_text(secs).take(11) =~= (d + "-"@ + padded(secs % 86400 / 3600, 2)).take(11));
}

/// Backups of the same hour share a name.
pub proof fn same_hour_same_name(a: nat, b: nat)
    requires
        a / 3600 == b / 3600,
    ensures
        auto_backup_text(a) == auto_backup_text(b),
{
    hour_stands_in_front(a);
    hour_stands_in_front(b);
    hours_make_days(a);
    hours_make_days(b);
}

/// The day and the hour of the day follow from the hours since 1970.
proof fn hours_make_days(n: nat)
    ensures
        n / 86400 == (n / 3600) / 24,
        n % 86400 / 3600 == (n / 3600) % 24,
{
    assert(n == 86400 * (n / 3600 / 24) + 3600 * (n / 3600 % 24) + n % 3600);
}

/// Before the year 10000, backups of different hours have different names,
/// which sort as texts as the hours do in time.
pub proof fn names_sort_by_hour(a: nat, b: nat)
    requires
        a / 3600 < b / 3600,
        b < year_10000(),
    ensures
        before(auto_backup_text(a), auto_backup_text(b)),
        auto_backup_text(a) != auto_backup_text(b),
{
    hour_stands_in_front(a);
    hour_stands_in_front(b);
    hours_make_days(a);
    hours_make_days(b);
    dates_have_eight_characters(a / 86400);
    dates_have_eight_characters(b / 86400);
    let (t1, h1) = (date_text(date_of(a / 86400)), padded(a % 86400 / 3600, 2));
    let (t2, h2) = (date_text(date_of(b / 86400)), padded(b % 86400 / 3600, 2));
    if a / 86400 < b / 86400 {
        dates_sort(a / 86400, b / 86400);
    } else {
        padded_in_order(a % 86400 / 3600, b % 86400 / 3600, 2);
    }
    before_extends(t1, t2, "-"@, "-"@);
    before_extends(t1 + "-"@, t2 + "-"@, h1, h2);
    let (p1, p2) = (t1 + "-"@ + h1, t2 + "-"@ + h2);
    assert(p1.take(11) =~= p1 && p2.take(11) =~= p2);
    let p = "lokal-auto-"@;
    before_extends(p, p, p1, p2);
    before_extends(p + p1, p + p2, "Z.lokal"@, "Z.lokal"@);
    before_is_total(auto_backup_text(a), auto_backup_text(b));
}

/// What is named as an automatic backup is recognised as one.
pub proof fn own_names_are_recognised(secs: nat)
    ensures
        is_auto_backup(auto_backup_text(secs)),
{
    reveal_strlit("lokal-auto-");
    reveal_strlit("Z.lokal");
    reveal_strlit(".lokal");
    let name = auto_backup_text(secs);
    let n = name.len();
    assert(name.take("lokal-auto-"@.len() as int) =~= "lokal-auto-"@);
    assert("Z.lokal"@.skip(1) =~= ".lokal"@);
    assert(name.skip(n - 6) =~= "Z.lokal"@.skip(1));
}

// ---------------------------------------------------------------------------
// Rotation
// ---------------------------------------------------------------------------

/// The file at position `i` sorts before the one at `j`: by name, and for
/// equal names by position.
pub open spec fn older(names: Seq<Seq<char>>, i: int, j: int) -> bool {
    before(names[i], names[j]) || (names[i] == names[j] && i < j)
}

/// `rank` lists the positions of the automatic backups among `names`, each
/// once, the oldest first.
pub open spec fn is_ranking(names: Seq<Seq<char>>, rank: Seq<usize>) -> bool {
    &&& forall|k: int|
        0 <= k < rank.len() ==> (#[trigger] rank[k]) < names.len() && is_auto_backup(names[rank[k] as int])
    &&& forall|i: int|
        0 <= i < names.len() && is_auto_backup(#[trigger] names[i]) ==> rank.contains(i as usize)
    &&& forall|k: int, l: int|
        0 <= k < l < rank.len() ==> older(names, (#[trigger] rank[k]) as int, (#[trigger] rank[l]) as int)
}

/// `older` orders the positions totally.
pub proof fn older_is_an_order(names: Seq<Seq<char>>, i: int, j: int, k: int)
    ensures
        !older(names, i, i),
        i != j ==> older(names, i, j) || older(names, j, i),
        !(older(names, i, j) && older(names, j, i)),
        older(names, i, j) && older(names, j, k) ==> older(names, i, k),
{
    before_is_total(names[i], names[i]);
    before_is_total(names[i], names[j]);
    if before(names[i], names[j]) && before(names[j], names[k]) {
        before_is_transitive(names[i], names[j], names[k]);
    }
}

/// There is one ranking only.
pub proof fn ranking_is_unique(names: Seq<Seq<char>>, a: Seq<usize>, b: Seq<usize>)
    requires
        is_ranking(names, a),
        is_ranking(names, b),
    ensures
        a == b,
{
    ranking_agrees(names, a, b, 0);
    assert(a =~= b);
}

/// Rankings agree from position `n` on backwards to the start.
proof fn ranking_agrees(names: Seq<Seq<char>>, a: Seq<usize>, b: Seq<usize>, n: int)
    requires
        is_ranking(names, a),
        is_ranking(names, b),
        0 <= n <= a.len(),
        n <= b.len(),
        forall|k: int| 0 <= k < n ==> a[k] == b[k],
    ensures
        a.len() == b.len(),
        forall|k: int| 0 <= k < a.len() ==> a[k] == b[k],
    decreases a.len() - n,
{
    if n < a.len() {
        let k = position_in(names, a, b, n);
        if k < n {
            older_is_an_order(names, a[k] as int, a[n] as int, 0);
        } else {
            let l = position_in(names, b, a, n);
            if l < n {
                older_is_an_order(names, b[l] as int, b[n] as int, 0);
            } else if k > n {
                older_is_an_order(names, b[n] as int, b[k] as int, 0);
                if l > n {
                    older_is_an_order(names, a[n] as int, a[l] as int, 0);
                }
            }
        }
        assert(n < b.len() && a[n] == b[n]);
        ranking_agrees(names, a, b, n + 1);
    } else if n < b.len() {
        let l = position_in(names, b, a, n);
        older_is_an_order(names, b[l] as int, b[n] as int, 0);
    }
}

/// What one ranking lists, the other lists too.
proof fn position_in(names: Seq<Seq<char>>, a: Seq<usize>, b: Seq<usize>, n: int) -> (k: int)
    requires
        is_ranking(names, a),
        is_ranking(names, b),
        0 <= n < a.len(),
    ensures
        0 <= k < b.len(),
        b[k] == a[n],
{
    let i = a[n] as int;
    assert(is_auto_backup(names[i]));
    assert(b.contains(i as usize));
    choose|k: int| 0 <= k < b.len() && b[k] == a[n]
}

/// The characters of each name.
fn all_chars(names: &Vec<String>) -> (r: Vec<Vec<char>>)
    ensures
        r@.len() == names@.len(),
        forall|i: int| 0 <= i < r@.len() ==> (#[trigger] r@[i])@ == texts(names@)[i],
{
    let mut out: Vec<Vec<char>> = Vec::new();
    let mut i: usize = 0;
    while i < names.len()
        invariant
            i <= names.len(),
            out@.len() == i,
            forall|j: int| 0 <= j < i ==> (#[trigger] out@[j])@ == names@[j]@,
        decreases names.len() - i,
    {
        out.push(chars_of(names[i].as_str()));
        i += 1;
    }
    out
}

/// Where the name at position `i`, which is behind all that `rank` lists, goes
/// in the list.
fn place(all: &Vec<Vec<char>>, rank: &Vec<usize>, i: usize) -> (r: usize)
    requires
        i < all@.len(),
        forall|k: int| 0 <= k < rank@.len() ==> (#[trigger] rank@[k]) < i,
    ensures
        r <= rank@.len(),
        r > 0 ==> !before(all@[i as int]@, all@[rank@[r - 1] as int]@),
        forall|k: int|
            r <= k < rank@.len() ==> before(all@[i as int]@, all@[(#[trigger] rank@[k]) as int]@),
{
    let mut p: usize = rank.len();
    while p > 0 && comes_before(&all[i], &all[rank[p - 1]])
        invariant
            i < all@.len(),
            p <= rank@.len(),
            forall|k: int| 0 <= k < rank@.len() ==> (#[trigger] rank@[k]) < i,
            forall|k: int|
                p <= k < rank@.len() ==> before(
                    all@[i as int]@,
                    all@[(#[trigger] rank@[k]) as int]@,
                ),
        decreases p,
    {
        p -= 1;
    }
    p
}

/// The positions of the automatic backups among file names, the oldest first.
pub fn rank_auto_backups(names: &Vec<String>) -> (r: Vec<usize>)
    ensures
        is_ranking(texts(names@), r@),
{
    let all = all_chars(names);
    let ghost t = texts(names@);
    let mut rank: Vec<usize> = Vec::new();
    let mut i: usize = 0;
    while i < all.len()
        invariant
            i <= all.len(),
            all@.len() == t.len(),
            t == texts(names@),
            forall|j: int| 0 <= j < all@.len() ==> (#[trigger] all@[j])@ == t[j],
            forall|k: int|
                0 <= k < rank@.len() ==> (#[trigger] rank@[k]) < i && is_auto_backup(
                    t[rank@[k] as int],
                ),
            forall|j: int|
                0 <= j < i && is_auto_backup(#[trigger] t[j]) ==> rank@.contains(j as usize),
            forall|k: int, l: int|
                0 <= k < l < rank@.len() ==> older(
                    t,
                    (#[trigger] rank@[k]) as int,
                    (#[trigger] rank@[l]) as int,
                ),
        decreases all.len() - i,
    {
        if names_auto_backup(&all[i]) {
            let p: usize = place(&all, &rank, i);
            let ghost was = rank@;
            rank.insert(p, i);
            proof {
                insertion_keeps_the_order(t, was, i, p as int);
                assert forall|j: int| 0 <= j < i + 1 && is_auto_backup(#[trigger] t[j]) implies rank@.contains(
                    j as usize,
                ) by {
                    if j < i {
                        let k = choose|k: int| 0 <= k < was.len() && was[k] == j as usize;
                        if k < p {
                            assert(rank@[k] == j as usize);
                        } else {
                            assert(rank@[k + 1] == j as usize);
                        }
                    } else {
                        assert(rank@[p as int] == j as usize);
                    }
                }
            }
        }
        i += 1;
    }
    rank
}

/// Inserting a position behind all the others keeps a list in order.
proof fn insertion_keeps_the_order(names: Seq<Seq<char>>, rank: Seq<usize>, i: usize, p: int)
    requires
        0 <= p <= rank.len(),
        forall|k: int| 0 <= k < rank.len() ==> (#[trigger] rank[k]) < i,
        forall|k: int, l: int|
            0 <= k < l < rank.len() ==> older(
                names,
                (#[trigger] rank[k]) as int,
                (#[trigger] rank[l]) as int,
            ),
        p > 0 ==> !before(names[i as int], names[rank[p - 1] as int]),
        forall|k: int|
            p <= k < rank.len() ==> before(names[i as int], names[(#[trigger] rank[k]) as int]),
    ensures
        forall|k: int, l: int|
            0 <= k < l <= rank.len() ==> older(
                names,
                (#[trigger] rank.insert(p, i)[k]) as int,
                (#[trigger] rank.insert(p, i)[l]) as int,
            ),
{
    let new = rank.insert(p, i);
    assert forall|k: int, l: int| 0 <= k < l <= rank.len() implies older(
        names,
        (#[trigger] new[k]) as int,
        (#[trigger] new[l]) as int,
    ) by {
        if l == p {
            let q = rank[p - 1] as int;
            before_is_total(names[q], names[i as int]);
            assert(older(names, q, i as int));
            if k < p - 1 {
                assert(older(names, rank[k] as int, q));
                older_is_an_order(names, rank[k] as int, q, i as int);
            }
        } else if l > p && k < p {
            assert(older(names, rank[k] as int, rank[l - 1] as int));
        } else if k > p {
            assert(older(names, rank[k - 1] as int, rank[l - 1] as int));
        }
    }
}

/// The names of the automatic backups among file names, the oldest first.
pub fn list_auto_backups(names: &Vec<String>) -> (r: Vec<String>)
    ensures
        exists|rank: Seq<usize>| #[trigger]
            is_ranking(texts(names@), rank) && r@.len() == rank.len() && forall|k: int|
                0 <= k < rank.len() ==> (#[trigger] r@[k])@ == texts(names@)[rank[k] as int],
        forall|k: int|
            0 <= k < r@.len() ==> (#[trigger] r@[k])@.len() >= 17 && r@[k]@.take(11)
                == "lokal-auto-"@ && r@[k]@.skip(r@[k]@.len() - 6) == ".lokal"@,
        forall|i: int|
            0 <= i < names@.len() && (#[trigger] names@[i])@.len() >= 17 && names@[i]@.take(11)
                == "lokal-auto-"@ && names@[i]@.skip(names@[i]@.len() - 6) == ".lokal"@
                ==> exists|k: int| 0 <= k < r@.len() && (#[trigger] r@[k])@ == names@[i]@,
        forall|j: int, k: int|
            0 <= j < k < r@.len() ==> before((#[trigger] r@[j])@, (#[trigger] r@[k])@) || r@[j]@
                == r@[k]@,
{
    let rank = rank_auto_backups(names);
    let mut out: Vec<String> = Vec::new();
    let mut k: usize = 0;
    while k < rank.len()
        invariant
            k <= rank.len(),
            is_ranking(texts(names@), rank@),
            out@.len() == k,
            forall|j: int| 0 <= j < k ==> (#[trigger] out@[j])@ == texts(names@)[rank@[j] as int],
        decreases rank.len() - k,
    {
        out.push(names[rank[k]].clone());
        k += 1;
    }
    proof {
        let all = texts(names@);
        rankings_list_our_backups(all, rank@);
        assert forall|k: int| 0 <= k < out@.len() implies (#[trigger] out@[k])@.len() >= 17
            && out@[k]@.take(11) == "lokal-auto-"@ && out@[k]@.skip(out@[k]@.len() - 6)
            == ".lokal"@ by {
            assert(out@[k]@ == all[rank@[k] as int]);
        }
        assert forall|i: int|
            0 <= i < names@.len() && (#[trigger] names@[i])@.len() >= 17 && names@[i]@.take(11)
                == "lokal-auto-"@ && names@[i]@.skip(names@[i]@.len() - 6)
                == ".lokal"@ implies exists|k: int|
            0 <= k < out@.len() && (#[trigger] out@[k])@ == names@[i]@ by {
            assert(all[i] == names@[i]@);
            assert(names.len() <= usize::MAX);
            assert(rank@.contains(i as usize));
            let k = choose|k: int| 0 <= k < rank@.len() && rank@[k] == i as usize;
            assert(out@[k]@ == names@[i]@);
        }
        assert forall|j: int, k: int| 0 <= j < k < out@.len() implies before(
            (#[trigger] out@[j])@,
            (#[trigger] out@[k])@,
        ) || out@[j]@ == out@[k]@ by {
            assert(older(all, rank@[j] as int, rank@[k] as int));
        }
    }
    out
}

/// The positions of the automatic backups to delete so that `keep` of them are
/// left: of the ranking, the oldest that are too many.
pub fn prune_auto_backups(names: &Vec<String>, keep: usize) -> (r: Vec<usize>)
    ensures
        exists|rank: Seq<usize>| #[trigger]
            is_ranking(texts(names@), rank) && r@ == doomed(rank, keep as nat),
        r@.no_duplicates(),
        forall|k: int|
            0 <= k < r@.len() ==> (#[trigger] r@[k]) < names@.len() && names@[r@[k] as int]@.len()
                >= 17 && names@[r@[k] as int]@.take(11) == "lokal-auto-"@
                && names@[r@[k] as int]@.skip(names@[r@[k] as int]@.len() - 6) == ".lokal"@,
{
    let rank = rank_auto_backups(names);
    let ghost ranking = rank@;
    let mut out = rank;
    if out.len() <= keep {
        out.clear();
    } else {
        let n: usize = out.len() - keep;
        out.truncate(n);
    }
    assert(out@ =~= doomed(ranking, keep as nat));
    proof {
        rotation_keeps_the_newest(texts(names@), ranking, keep as nat);
        rankings_list_our_backups(texts(names@), ranking);
        assert forall|k: int| 0 <= k < out@.len() implies (#[trigger] out@[k]) < names@.len()
            && names@[out@[k] as int]@.len() >= 17 && names@[out@[k] as int]@.take(11)
            == "lokal-auto-"@ && names@[out@[k] as int]@.skip(names@[out@[k] as int]@.len() - 6)
            == ".lokal"@ by {
            assert(out@[k] == ranking[k]);
        }
    }
    out
}

/// Of a ranking, the backups that are to be deleted so that `keep` are left.
pub open spec fn doomed(rank: Seq<usize>, keep: nat) -> Seq<usize> {
    if rank.len() <= keep {
        Seq::<usize>::empty()
    } else {
        rank.take(rank.len() - keep)
    }
}

/// A ranking lists the files whose names begin with `lokal-auto-` and end with
/// `.lokal`, all of them and no others, and lists them in the order of their names.
pub proof fn rankings_list_our_backups(names: Seq<Seq<char>>, rank: Seq<usize>)
    requires
        is_ranking(names, rank),
    ensures
        forall|k: int|
            0 <= k < rank.len() ==> (#[trigger] rank[k]) < names.len() && names[rank[k] as int].len()
                >= 17 && names[rank[k] as int].take(11) == "lokal-auto-"@
                && names[rank[k] as int].skip(names[rank[k] as int].len() - 6) == ".lokal"@,
        forall|i: int|
            0 <= i < names.len() && (#[trigger] names[i]).len() >= 17 && names[i].take(11)
                == "lokal-auto-"@ && names[i].skip(names[i].len() - 6) == ".lokal"@
                ==> rank.contains(i as usize),
        forall|j: int, k: int|
            0 <= j < k < rank.len() ==> before(
                names[(#[trigger] rank[j]) as int],
                names[(#[trigger] rank[k]) as int],
            ) || names[rank[j] as int] == names[rank[k] as int] && rank[j] < rank[k],
{
    reveal_strlit("lokal-auto-");
    reveal_strlit(".lokal");
    assert forall|k: int| 0 <= k < rank.len() implies (#[trigger] rank[k]) < names.len()
        && names[rank[k] as int].len() >= 17 && names[rank[k] as int].take(11) == "lokal-auto-"@
        && names[rank[k] as int].skip(names[rank[k] as int].len() - 6) == ".lokal"@ by {
        let n = names[rank[k] as int];
        assert(is_auto_backup(n));
        if n.len() < 17 {
            let d = n.len() - 6;
            assert(n.skip(d)[0] == '.');
            assert(n.take(11)[d] == n[d]);
        }
    }
    assert forall|i: int|
        0 <= i < names.len() && (#[trigger] names[i]).len() >= 17 && names[i].take(11)
            == "lokal-auto-"@ && names[i].skip(names[i].len() - 6) == ".lokal"@ implies rank.contains(
        i as usize,
    ) by {
        assert(is_auto_backup(names[i]));
    }
    assert forall|j: int, k: int| 0 <= j < k < rank.len() implies before(
        names[(#[trigger] rank[j]) as int],
        names[(#[trigger] rank[k]) as int],
    ) || names[rank[j] as int] == names[rank[k] as int] && rank[j] < rank[k] by {
        assert(older(names, rank[j] as int, rank[k] as int));
    }
}

/// A file whose name does not begin with `lokal-auto-`, or does not end with
/// `.lokal`, is never deleted. Of the others as many are left as are to be kept, or
/// all, and none that is left comes before one that is deleted.
pub proof fn pruning_spares_the_rest(
    names: Seq<Seq<char>>,
    rank: Seq<usize>,
    keep: nat,
    i: int,
)
    requires
        is_ranking(names, rank),
        0 <= i < names.len() <= usize::MAX,
    ensures
        names[i].len() < 17 || names[i].take(11) != "lokal-auto-"@ || names[i].skip(
            names[i].len() - 6,
        ) != ".lokal"@ ==> !doomed(rank, keep).contains(i as usize),
        doomed(rank, keep).len() == if rank.len() <= keep {
            0
        } else {
            rank.len() - keep
        },
        rank.contains(i as usize) && !doomed(rank, keep).contains(i as usize) ==> forall|k: int|
            0 <= k < doomed(rank, keep).len() ==> !before(
                names[i],
                names[(#[trigger] doomed(rank, keep)[k]) as int],
            ),
{
    rankings_list_our_backups(names, rank);
    rotation_keeps_the_newest(names, rank, keep);
    let gone = doomed(rank, keep);
    if gone.contains(i as usize) {
        let k = choose|k: int| 0 <= k < gone.len() && gone[k] == i as usize;
        assert(gone[k] == rank[k]);
    }
    if rank.contains(i as usize) && !gone.contains(i as usize) {
        let l = choose|l: int| 0 <= l < rank.len() && rank[l] == i as usize;
        assert(is_auto_backup(names[rank[l] as int]));
        assert forall|k: int| 0 <= k < gone.len() implies !before(
            names[i],
            names[(#[trigger] gone[k]) as int],
        ) by {
            assert(older(names, gone[k] as int, i));
            before_is_total(names[gone[k] as int], names[i]);
        }
    }
}

/// The name of an automatic backup: `lokal-auto-`, eleven characters of the stamp, and
/// `Z.lokal`.
pub proof fn names_carry_the_hour(secs: nat)
    ensures
        auto_backup_text(secs).take(11) == "lokal-auto-"@,
        auto_backup_text(secs).subrange(11, 22) == stamp_text(secs).subrange(0, 11),
        auto_backup_text(secs).skip(22) == "Z.lokal"@,
{
    reveal_strlit("lokal-auto-");
    reveal_strlit("Z.lokal");
    hour_stands_in_front(secs);
    let name = auto_backup_text(secs);
    assert(name.take(11) =~= "lokal-auto-"@);
    assert(name.subrange(11, 22) =~= stamp_text(secs).subrange(0, 11));
    assert(name.skip(22) =~= "Z.lokal"@);
}

/// What is shown of a name is what stands between `lokal-auto-` and `.lokal`.
pub proof fn labels_are_the_middle(x: Seq<char>)
    requires
        x.len() < 11 || x.take(11) != "lokal-auto-"@,
        x.len() < 6 || x.skip(x.len() - 6) != ".lokal"@,
    ensures
        label_text("lokal-auto-"@ + x + ".lokal"@) == x,
{
    reveal_strlit("lokal-auto-");
    reveal_strlit(".lokal");
    let name = "lokal-auto-"@ + x + ".lokal"@;
    let middle = x + ".lokal"@;
    assert(name.take(11) =~= "lokal-auto-"@);
    assert(name.skip(11) =~= middle);
    assert(!begins_with(middle, "lokal-auto-"@)) by {
        if begins_with(middle, "lokal-auto-"@) {
            if x.len() >= 11 {
                assert(middle.take(11) =~= x.take(11));
            } else {
                let d = x.len() as int;
                assert(middle.take(11)[d] == '.');
            }
        }
    }
    assert(strip_front(middle, "lokal-auto-"@) == middle);
    assert(strip_front(name, "lokal-auto-"@) == middle);
    let n = middle.len() as int;
    assert(middle.skip(n - 6) =~= ".lokal"@);
    assert(middle.take(n - 6) =~= x);
    assert(strip_back(x, ".lokal"@) == x);
    assert(strip_back(middle, ".lokal"@) == x);
}

/// What is shown of a name does not change with another `lokal-auto-` before it.
pub proof fn labels_lose_every_front(name: Seq<char>)
    ensures
        label_text("lokal-auto-"@ + name) == label_text(name),
{
    reveal_strlit("lokal-auto-");
    let longer = "lokal-auto-"@ + name;
    assert(longer.take(11) =~= "lokal-auto-"@);
    assert(longer.skip(11) =~= name);
}

/// Rotation deletes automatic backups only, and each at most once; it leaves as
/// many as are to be kept, or all where there are no more; and all that it
/// leaves are newer than all that it deletes.
pub proof fn rotation_keeps_the_newest(names: Seq<Seq<char>>, rank: Seq<usize>, keep: nat)
    requires
        is_ranking(names, rank),
    ensures
        forall|k: int|
            0 <= k < doomed(rank, keep).len() ==> is_auto_backup(
                names[(#[trigger] doomed(rank, keep)[k]) as int],
            ),
        doomed(rank, keep).no_duplicates(),
        rank.len() - doomed(rank, keep).len() == if rank.len() <= keep {
            rank.len() as int
        } else {
            keep as int
        },
        forall|k: int, i: int|
            #![trigger doomed(rank, keep)[k], names[i]]
            0 <= k < doomed(rank, keep).len() && 0 <= i < names.len() && i <= usize::MAX
                && is_auto_backup(names[i]) && !doomed(rank, keep).contains(i as usize) ==> older(
                names,
                doomed(rank, keep)[k] as int,
                i,
            ),
{
    let gone = doomed(rank, keep);
    assert(gone.no_duplicates()) by {
        assert forall|k: int, l: int| 0 <= k < l < gone.len() implies gone[k] != gone[l] by {
            older_is_an_order(names, rank[k] as int, rank[l] as int, 0);
        }
    }
    assert forall|k: int, i: int|
        #![trigger doomed(rank, keep)[k], names[i]]
        0 <= k < gone.len() && 0 <= i < names.len() && i <= usize::MAX && is_auto_backup(names[i])
            && !gone.contains(i as usize) implies older(names, doomed(rank, keep)[k] as int, i) by {
        assert(rank.contains(i as usize));
        let l = choose|l: int| 0 <= l < rank.len() && rank[l] == i as usize;
        if l < gone.len() {
            assert(gone[l] == i as usize);
        }
        assert(older(names, rank[k] as int, rank[l] as int));
    }
}

// ---------------------------------------------------------------------------
// What is shown of the backups
// ---------------------------------------------------------------------------

/// `s` with `p` taken off its front as often as it stands there.
pub open spec fn strip_front(s: Seq<char>, p: Seq<char>) -> Seq<char>
    decreases s.len(),
{
    if p.len() > 0 && begins_with(s, p) {
        strip_front(s.skip(p.len() as int), p)
    } else {
        s
    }
}

/// `s` with `p` taken off its end as often as it stands there.
pub open spec fn strip_back(s: Seq<char>, p: Seq<char>) -> Seq<char>
    decreases s.len(),
{
    if p.len() > 0 && finishes_with(s, p) {
        strip_back(s.take(s.len() - p.len()), p)
    } else {
        s
    }
}

/// What is shown of a backup's name: the part with the date and the hour.
pub open spec fn label_text(name: Seq<char>) -> Seq<char> {
    strip_back(strip_front(name, "lokal-auto-"@), ".lokal"@)
}

/// The characters of `v[from..to]`.
fn part(v: &Vec<char>, from: usize, to: usize) -> (r: Vec<char>)
    requires
        from <= to <= v@.len(),
    ensures
        r@ == v@.subrange(from as int, to as int),
{
    chars_of(text_of(v, from, to).as_str())
}

/// What is shown of the name of a backup.
pub fn backup_label(name: &str) -> (r: String)
    ensures
        r@ == label_text(name@),
{
    let prefix = chars_of("lokal-auto-");
    let suffix = chars_of(".lokal");
    proof {
        reveal_strlit("lokal-auto-");
        reveal_strlit(".lokal");
    }
    let mut v = chars_of(name);
    while starts(&v, &prefix)
        invariant
            prefix@.len() > 0,
            strip_front(v@, prefix@) == strip_front(name@, prefix@),
        decreases v.len(),
    {
        assert(v@.subrange(prefix@.len() as int, v@.len() as int) =~= v@.skip(
            prefix@.len() as int,
        ));
        v = part(&v, prefix.len(), v.len());
    }
    let ghost middle = v@;
    while ends(&v, &suffix)
        invariant
            suffix@.len() > 0,
            strip_back(v@, suffix@) == strip_back(middle, suffix@),
        decreases v.len(),
    {
        assert(v@.subrange(0, v@.len() - suffix@.len()) =~= v@.take(v@.len() - suffix@.len()));
        v = part(&v, 0, v.len() - suffix.len());
    }
    assert(v@.subrange(0, v@.len() as int) =~= v@);
    text_of(&v, 0, v.len())
}

/// What is shown of a directory of backups: how many there are and the label of
/// the newest.
pub fn backup_summary(names: &Vec<String>) -> (r: (usize, Option<String>))
    ensures
        exists|rank: Seq<usize>| #[trigger]
            is_ranking(texts(names@), rank) && r.0 == rank.len() && match r.1 {
                Some(t) => rank.len() > 0 && t@ == label_text(
                    texts(names@)[rank.last() as int],
                ),
                None => rank.len() == 0,
            },
{
    let rank = rank_auto_backups(names);
    let n: usize = rank.len();
    let latest = if n == 0 {
        None
    } else {
        Some(backup_label(names[rank[n - 1]].as_str()))
    };
    (n, latest)
}

/// The label of a backup is the moment in its name.
pub proof fn label_of_own_name(secs: nat)
    ensures
        label_text(auto_backup_text(secs)) == stamp_text(secs).take(11) + "Z"@,
{
    reveal_strlit("lokal-auto-");
    reveal_strlit("Z.lokal");
    reveal_strlit(".lokal");
    reveal_strlit("Z");
    hour_stands_in_front(secs);
    let name = auto_backup_text(secs);
    let middle = stamp_text(secs).take(11) + "Z.lokal"@;
    let label = stamp_text(secs).take(11) + "Z"@;
    assert(name.take(11) =~= "lokal-auto-"@);
    assert(name.skip(11) =~= middle);
    assert(middle[0] != 'l') by {
        first_character_is_a_digit(secs);
    }
    assert(!begins_with(middle, "lokal-auto-"@)) by {
        assert(middle.take(11)[0] == middle[0]);
    }
    assert(strip_front(middle, "lokal-auto-"@) == middle);
    assert(strip_front(name, "lokal-auto-"@) == middle);
    assert(middle.skip(12) =~= ".lokal"@);
    assert(middle.take(12) =~= label);
    assert(!finishes_with(label, ".lokal"@)) by {
        assert(label.skip(6)[5] == 'Z');
    }
    assert(strip_back(label, ".lokal"@) == label);
    assert(strip_back(middle, ".lokal"@) == label);
}

/// A stamp begins with a digit.
proof fn first_character_is_a_digit(secs: nat)
    ensures
        stamp_text(secs).len() >= 11,
        '0' <= stamp_text(secs)[0] <= '9',
{
    hour_stands_in_front(secs);
    let y = date_of(secs / 86400).year as nat;
    padded_len(y, 4);
    padded_is_digits(y, 4);
    assert(stamp_text(secs)[0] == padded(y, 4)[0]);
}

} // verus!
