//! Dates of the proleptic Gregorian calendar, and moments as sortable text.

use vstd::prelude::*;

use crate::text::{
    before, before_extends, number_of, numbers_read_back, padded, padded_in_order, padded_width, push_padded, push_text,
};

verus! {

// ---------------------------------------------------------------------------
// The calendar
// ---------------------------------------------------------------------------

/// Every fourth year is a leap year, but of the full centuries only every
/// fourth.
pub open spec fn is_leap(year: int) -> bool {
    year % 4 == 0 && (year % 100 != 0 || year % 400 == 0)
}

/// The days of a year.
pub open spec fn year_days(year: int) -> int {
    if is_leap(year) {
        366
    } else {
        365
    }
}

/// The days of a month.
pub open spec fn month_days(year: int, month: int) -> int {
    if month == 2 {
        if is_leap(year) {
            29
        } else {
            28
        }
    } else if month == 4 || month == 6 || month == 9 || month == 11 {
        30
    } else {
        31
    }
}

/// The days from the start of 1970 to the start of a year.
pub open spec fn days_before_year(year: int) -> int
    decreases year - 1970,
{
    if year <= 1970 {
        0
    } else {
        days_before_year(year - 1) + year_days(year - 1)
    }
}

/// The days from the start of a year to the start of one of its months.
pub open spec fn days_before_month(year: int, month: int) -> int
    decreases month,
{
    if month <= 1 {
        0
    } else {
        days_before_month(year, month - 1) + month_days(year, month - 1)
    }
}

/// A date.
pub struct Date {
    pub year: int,
    pub month: int,
    pub day: int,
}

impl Date {
    /// The date is in the calendar, and not before 1970.
    pub open spec fn valid(self) -> bool {
        &&& self.year >= 1970
        &&& 1 <= self.month <= 12
        &&& 1 <= self.day <= month_days(self.year, self.month)
    }

    /// The days from 1970-01-01 to the date.
    pub open spec fn number(self) -> int {
        days_before_year(self.year) + days_before_month(self.year, self.month) + self.day - 1
    }

    /// The date comes before another.
    pub open spec fn earlier(self, other: Date) -> bool {
        ||| self.year < other.year
        ||| self.year == other.year && self.month < other.month
        ||| self.year == other.year && self.month == other.month && self.day < other.day
    }
}

/// The date that is `n` days after 1970-01-01.
pub open spec fn date_of(n: nat) -> Date {
    choose|d: Date| d.valid() && #[trigger] d.number() == n
}

proof fn year_offsets_grow(a: int, b: int)
    requires
        1970 <= a < b,
    ensures
        days_before_year(a) + year_days(a) <= days_before_year(b),
    decreases b,
{
    if a + 1 < b {
        year_offsets_grow(a, b - 1);
    }
}

proof fn month_offsets_grow(year: int, a: int, b: int)
    requires
        1 <= a < b <= 13,
    ensures
        days_before_month(year, a) + month_days(year, a) <= days_before_month(year, b),
    decreases b,
{
    if a + 1 < b {
        month_offsets_grow(year, a, b - 1);
    }
}

proof fn months_fill_the_year(year: int)
    ensures
        days_before_month(year, 13) == year_days(year),
{
    reveal_with_fuel(days_before_month, 13);
}

/// Dates are numbered in their order.
pub proof fn earlier_dates_have_smaller_numbers(a: Date, b: Date)
    requires
        a.valid(),
        b.valid(),
    ensures
        a.earlier(b) <==> a.number() < b.number(),
        a.number() == b.number() ==> a == b,
{
    if a.earlier(b) {
        earlier_is_smaller(a, b);
    } else if b.earlier(a) {
        earlier_is_smaller(b, a);
    }
}

proof fn earlier_is_smaller(a: Date, b: Date)
    requires
        a.valid(),
        b.valid(),
        a.earlier(b),
    ensures
        a.number() < b.number(),
{
    months_fill_the_year(a.year);
    month_offsets_grow(a.year, a.month, 13);
    if a.year < b.year {
        year_offsets_grow(a.year, b.year);
        if b.month > 1 {
            month_offsets_grow(b.year, 1, b.month);
        }
    } else if a.month < b.month {
        month_offsets_grow(a.year, a.month, b.month);
    }
}

proof fn every_day_has_a_date(n: nat) -> (d: Date)
    ensures
        d.valid(),
        d.number() == n,
    decreases n,
{
    if n == 0 {
        Date { year: 1970, month: 1, day: 1 }
    } else {
        let p = every_day_has_a_date((n - 1) as nat);
        if p.day < month_days(p.year, p.month) {
            Date { day: p.day + 1, ..p }
        } else if p.month < 12 {
            Date { month: p.month + 1, day: 1, ..p }
        } else {
            months_fill_the_year(p.year);
            Date { year: p.year + 1, month: 1, day: 1 }
        }
    }
}

/// Every day from 1970 on has a date, and only one.
pub proof fn date_of_is_the_date(n: nat, d: Date)
    ensures
        date_of(n).valid(),
        date_of(n).number() == n,
        d.valid() && d.number() == n ==> d == date_of(n),
{
    let w = every_day_has_a_date(n);
    assert(w.valid() && w.number() == n);
    if d.valid() && d.number() == n {
        earlier_dates_have_smaller_numbers(d, date_of(n));
    }
}

// ---------------------------------------------------------------------------
// From days to dates
// ---------------------------------------------------------------------------

/// The leap years up to a year are one more than those before it where the year
/// is one.
proof fn leap_years_count(year: int)
    ensures
        year / 4 - year / 100 + year / 400 == (year - 1) / 4 - (year - 1) / 100 + (year - 1) / 400
            + if is_leap(year) {
            1int
        } else {
            0
        },
{
    assert(year / 4 == (year - 1) / 4 + if year % 4 == 0 {
        1int
    } else {
        0
    });
    assert(year / 100 == (year - 1) / 100 + if year % 100 == 0 {
        1int
    } else {
        0
    });
    assert(year / 400 == (year - 1) / 400 + if year % 400 == 0 {
        1int
    } else {
        0
    });
    assert(year % 100 == 0 ==> year % 4 == 0);
    assert(year % 400 == 0 ==> year % 100 == 0);
}

/// The days before a year, without recursion.
proof fn year_offset_closed(year: int)
    requires
        year >= 1970,
    ensures
        days_before_year(year) == 365 * (year - 1970) + (year - 1) / 4 - (year - 1) / 100 + (year
            - 1) / 400 - 477,
    decreases year,
{
    if year > 1970 {
        year_offset_closed(year - 1);
        leap_years_count(year - 1);
    }
}

/// The days before a month, in years that begin in March: the months from
/// March on have 31, 30, 31, 30, 31 days, twice, and then come January and
/// February.
proof fn month_offset_closed(year: int, month: int)
    requires
        1 <= month <= 12,
    ensures
        month <= 2 ==> days_before_month(year, month) == (153 * (month + 9) + 2) / 5 - 306,
        month > 2 ==> days_before_month(year, month) == (153 * (month - 3) + 2) / 5 + 59 + (if is_leap(
            year,
        ) {
            1int
        } else {
            0
        }),
{
    reveal_with_fuel(days_before_month, 13);
}

/// The number of a date by the year, counted from March, that it lies in, and
/// the month of that year.
proof fn number_closed(d: Date, y: int, mp: int)
    requires
        d.valid(),
        d.month <= 2 ==> y == d.year - 1 && mp == d.month + 9,
        d.month > 2 ==> y == d.year && mp == d.month - 3,
    ensures
        d.number() == 365 * y + y / 4 - y / 100 + y / 400 + (153 * mp + 2) / 5 + d.day - 1
            - 719468,
{
    year_offset_closed(d.year);
    month_offset_closed(d.year, d.month);
    leap_years_count(d.year);
}

/// The year of an era of 400 years that a day of the era lies in.
#[verifier::spinoff_prover]
proof fn year_of_era(doe: int, yoe: int, doy: int)
    requires
        0 <= doe < 146097,
        yoe == (doe - doe / 1460 + doe / 36524 - doe / 146096) / 365,
        doy == doe - (365 * yoe + yoe / 4 - yoe / 100),
    ensures
        0 <= yoe < 400,
        0 <= doy <= 365,
        doy == 365 ==> is_leap(yoe + 1),
{
}

/// The month, counted from March, and the day of a month that a day of a year
/// lies in.
proof fn month_of_year(doy: int, mp: int, d: int)
    requires
        0 <= doy <= 365,
        mp == (5 * doy + 2) / 153,
        d == doy - (153 * mp + 2) / 5 + 1,
    ensures
        0 <= mp <= 11,
        1 <= d <= 31,
        mp == 1 || mp == 3 || mp == 6 || mp == 8 ==> d <= 30,
        mp == 11 ==> d <= 29,
        mp == 11 && d == 29 ==> doy == 365,
{
}

/// Eras repeat: what holds of a year of an era holds of it in every era.
proof fn eras_repeat(era: int, yoe: int)
    requires
        0 <= yoe < 400,
    ensures
        (yoe + era * 400) / 4 == yoe / 4 + era * 100,
        (yoe + era * 400) / 100 == yoe / 100 + era * 4,
        (yoe + era * 400) / 400 == era,
        is_leap(yoe + era * 400 + 1) == is_leap(yoe + 1),
{
}

/// The era, the year of the era and the day of that year make the date.
#[verifier::spinoff_prover]
proof fn civil_is_the_date(days: nat, era: int, yoe: int, doy: int, mp: int, date: Date)
    requires
        days + 719468 == era * 146097 + 365 * yoe + yoe / 4 - yoe / 100 + doy,
        era >= 0,
        0 <= yoe < 400,
        0 <= doy <= 365,
        doy == 365 ==> is_leap(yoe + 1),
        mp == (5 * doy + 2) / 153,
        date.day == doy - (153 * mp + 2) / 5 + 1,
        date.month == if mp < 10 {
            mp + 3
        } else {
            mp - 9
        },
        date.year == yoe + era * 400 + if date.month <= 2 {
            1int
        } else {
            0
        },
    ensures
        date == date_of(days),
{
    let march_year = yoe + era * 400;
    month_of_year(doy, mp, date.day);
    eras_repeat(era, yoe);
    assert(march_year >= 1969) by {
        if era < 4 {
            assert(days + 719468 < era * 146097 + 146463);
        }
    }
    assert(date.year >= 1970) by {
        if march_year == 1969 {
            assert(era == 4 && yoe == 369);
        }
    }
    assert(date.valid());
    number_closed(date, march_year, mp);
    date_of_is_the_date(days, date);
}

/// The date that is `days` days after 1970-01-01, as year, month and day.
///
/// Howard Hinnant's algorithm: with years that begin in March, the leap day is
/// the last day of a year and the conversion needs no table.
#[verifier::spinoff_prover]
fn civil(days: u64) -> (r: (u64, u64, u64))
    requires
        days * 86400 <= u64::MAX,
    ensures
        date_of(days as nat) == (Date { year: r.0 as int, month: r.1 as int, day: r.2 as int }),
{
    let z: u64 = days + 719468;
    let era: u64 = z / 146097;
    let doe: u64 = z - era * 146097;
    let yoe: u64 = (doe - doe / 1460 + doe / 36524 - doe / 146096) / 365;
    let ghost day_of_year = doe as int - (365 * yoe as int + yoe as int / 4 - yoe as int / 100);
    proof {
        year_of_era(doe as int, yoe as int, day_of_year);
    }
    let doy: u64 = doe - (365 * yoe + yoe / 4 - yoe / 100);
    let mp: u64 = (5 * doy + 2) / 153;
    proof {
        month_of_year(doy as int, mp as int, doy as int - (153 * mp as int + 2) / 5 + 1);
    }
    let d: u64 = doy - (153 * mp + 2) / 5 + 1;
    let m: u64 = if mp < 10 {
        mp + 3
    } else {
        mp - 9
    };
    let y: u64 = yoe + era * 400 + (if m <= 2 {
        1
    } else {
        0
    });
    proof {
        civil_is_the_date(
            days as nat,
            era as int,
            yoe as int,
            doy as int,
            mp as int,
            Date { year: y as int, month: m as int, day: d as int },
        );
    }
    (y, m, d)
}

// ---------------------------------------------------------------------------
// Moments as text
// ---------------------------------------------------------------------------

/// A date as `YYYYMMDD`; years from 10000 on have more digits.
pub open spec fn date_text(d: Date) -> Seq<char> {
    padded(d.year as nat, 4) + padded(d.month as nat, 2) + padded(d.day as nat, 2)
}

/// The moment that is `secs` seconds after 1970, as `YYYYMMDD-HHMMSSZ` in UTC.
pub open spec fn stamp_text(secs: nat) -> Seq<char> {
    date_text(date_of(secs / 86400)) + "-"@ + padded(secs % 86400 / 3600, 2) + padded(
        secs % 3600 / 60,
        2,
    ) + padded(secs % 60, 2) + "Z"@
}

/// A moment is made of its day, hour, minute and second.
#[verifier::spinoff_prover]
proof fn clock_parts(n: nat)
    ensures
        n == 86400 * (n / 86400) + 3600 * (n % 86400 / 3600) + 60 * (n % 3600 / 60) + n % 60,
        n % 86400 % 3600 == n % 3600,
        n % 86400 % 60 == n % 60,
{
    let r = n % 86400;
    assert(n == 3600 * (24 * (n / 86400) + r / 3600) + r % 3600);
    assert(n % 3600 == r % 3600);
    assert(n == 60 * (1440 * (n / 86400) + r / 60) + r % 60);
    assert(n % 60 == r % 60);
    let t = n % 3600;
    assert(n == 60 * (60 * (n / 3600) + t / 60) + t % 60);
    assert(n % 60 == t % 60);
}

/// The moment that is `secs` seconds after 1970, as `YYYYMMDD-HHMMSSZ` in UTC.
#[verifier::spinoff_prover]
pub fn stamp(secs: u64) -> (r: String)
    ensures
        r@ == stamp_text(secs as nat),
{
    let days: u64 = secs / 86400;
    let rem: u64 = secs % 86400;
    let (y, m, d) = civil(days);
    proof {
        clock_parts(secs as nat);
    }
    let mut s = String::new();
    push_padded(&mut s, y, 4);
    assert(s@ =~= padded(y as nat, 4));
    push_padded(&mut s, m, 2);
    push_padded(&mut s, d, 2);
    assert(s@ == date_text(date_of(secs as nat / 86400)));
    push_text(&mut s, "-");
    push_padded(&mut s, rem / 3600, 2);
    push_padded(&mut s, (rem % 3600) / 60, 2);
    push_padded(&mut s, rem % 60, 2);
    push_text(&mut s, "Z");
    s
}

/// Dates of the same length sort as texts as they do in time.
pub proof fn dates_sort(a: nat, b: nat)
    requires
        a < b,
        date_text(date_of(a)).len() == date_text(date_of(b)).len(),
    ensures
        before(date_text(date_of(a)), date_text(date_of(b))),
{
    let x = date_of(a);
    let y = date_of(b);
    date_of_is_the_date(a, x);
    date_of_is_the_date(b, y);
    earlier_dates_have_smaller_numbers(x, y);
    padded_width(x.month as nat);
    padded_width(y.month as nat);
    padded_width(x.day as nat);
    padded_width(y.day as nat);
    let (y1, m1, d1) = (
        padded(x.year as nat, 4),
        padded(x.month as nat, 2),
        padded(x.day as nat, 2),
    );
    let (y2, m2, d2) = (
        padded(y.year as nat, 4),
        padded(y.month as nat, 2),
        padded(y.day as nat, 2),
    );
    before_extends(y1, y2, m1, m2);
    before_extends(y1 + m1, y2 + m2, d1, d2);
    if x.year < y.year {
        padded_in_order(x.year as nat, y.year as nat, 4);
    } else if x.month < y.month {
        padded_in_order(x.month as nat, y.month as nat, 2);
    } else {
        padded_in_order(x.day as nat, y.day as nat, 2);
    }
}

/// The first moment of the year 10000, in seconds after 1970.
pub open spec fn year_10000() -> nat {
    253402300800
}

/// Before the year 10000 a date has eight characters.
pub proof fn dates_have_eight_characters(n: nat)
    requires
        n * 86400 < year_10000(),
    ensures
        date_text(date_of(n)).len() == 8,
{
    let d = date_of(n);
    date_of_is_the_date(n, d);
    year_offset_closed(10000);
    if d.year > 10000 {
        year_offsets_grow(10000, d.year);
    }
    if d.month > 1 {
        month_offsets_grow(d.year, 1, d.month);
    }
    padded_width(d.year as nat);
    padded_width(d.month as nat);
    padded_width(d.day as nat);
}

/// Within a day, moments sort by hour, minute and second.
proof fn clocks_sort(a: nat, b: nat)
    requires
        a < b,
        a / 86400 == b / 86400,
    ensures
        ({
            ||| a % 86400 / 3600 < b % 86400 / 3600
            ||| a % 86400 / 3600 == b % 86400 / 3600 && a % 3600 / 60 < b % 3600 / 60
            ||| a % 86400 / 3600 == b % 86400 / 3600 && a % 3600 / 60 == b % 3600 / 60 && a % 60
                < b % 60
        }),
{
    clock_parts(a);
    clock_parts(b);
    let (h1, n1, s1) = (a % 86400 / 3600, a % 3600 / 60, a % 60);
    let (h2, n2, s2) = (b % 86400 / 3600, b % 3600 / 60, b % 60);
    assert(3600 * h1 + 60 * n1 + s1 < 3600 * h2 + 60 * n2 + s2);
    assert(n1 < 60 && n2 < 60 && s1 < 60 && s2 < 60);
}

/// The order of two stamps, part by part.
proof fn parts_sort(
    t1: Seq<char>,
    t2: Seq<char>,
    h1: Seq<char>,
    h2: Seq<char>,
    n1: Seq<char>,
    n2: Seq<char>,
    s1: Seq<char>,
    s2: Seq<char>,
)
    requires
        t1.len() == t2.len(),
        h1.len() == h2.len(),
        n1.len() == n2.len(),
        s1.len() == s2.len(),
        ({
            ||| before(t1, t2)
            ||| t1 == t2 && before(h1, h2)
            ||| t1 == t2 && h1 == h2 && before(n1, n2)
            ||| t1 == t2 && h1 == h2 && n1 == n2 && before(s1, s2)
        }),
    ensures
        before(t1 + "-"@ + h1 + n1 + s1 + "Z"@, t2 + "-"@ + h2 + n2 + s2 + "Z"@),
{
    before_extends(t1, t2, "-"@, "-"@);
    before_extends(t1 + "-"@, t2 + "-"@, h1, h2);
    before_extends(t1 + "-"@ + h1, t2 + "-"@ + h2, n1, n2);
    before_extends(t1 + "-"@ + h1 + n1, t2 + "-"@ + h2 + n2, s1, s2);
    before_extends(t1 + "-"@ + h1 + n1 + s1, t2 + "-"@ + h2 + n2 + s2, "Z"@, "Z"@);
}

/// Stamps have eight characters more than their dates.
pub proof fn stamp_len(secs: nat)
    ensures
        stamp_text(secs).len() == date_text(date_of(secs / 86400)).len() + 8,
        padded(secs % 86400 / 3600, 2).len() == 2,
{
    reveal_strlit("-");
    reveal_strlit("Z");
    padded_width(secs % 86400 / 3600);
    padded_width(secs % 3600 / 60);
    padded_width(secs % 60);
}

/// Stamps of the same length sort as texts as their moments do in time.
pub proof fn stamps_sort_by_time(a: nat, b: nat)
    requires
        a < b,
        stamp_text(a).len() == stamp_text(b).len(),
    ensures
        before(stamp_text(a), stamp_text(b)),
{
    stamp_len(a);
    stamp_len(b);
    padded_width(a % 3600 / 60);
    padded_width(b % 3600 / 60);
    padded_width(a % 60);
    padded_width(b % 60);
    if a / 86400 < b / 86400 {
        dates_sort(a / 86400, b / 86400);
    } else {
        clocks_sort(a, b);
        if a % 86400 / 3600 < b % 86400 / 3600 {
            padded_in_order(a % 86400 / 3600, b % 86400 / 3600, 2);
        } else if a % 3600 / 60 < b % 3600 / 60 {
            padded_in_order(a % 3600 / 60, b % 3600 / 60, 2);
        } else {
            padded_in_order(a % 60, b % 60, 2);
        }
    }
    parts_sort(
        date_text(date_of(a / 86400)),
        date_text(date_of(b / 86400)),
        padded(a % 86400 / 3600, 2),
        padded(b % 86400 / 3600, 2),
        padded(a % 3600 / 60, 2),
        padded(b % 3600 / 60, 2),
        padded(a % 60, 2),
        padded(b % 60, 2),
    );
}

/// Before the year 10000 all stamps have sixteen characters, so they all sort
/// by time.
pub proof fn stamps_have_sixteen_characters(secs: nat)
    requires
        secs < year_10000(),
    ensures
        stamp_text(secs).len() == 16,
{
    dates_have_eight_characters(secs / 86400);
    stamp_len(secs);
}

// ---------------------------------------------------------------------------
// Days and moments
// ---------------------------------------------------------------------------

/// The days are counted from 1970-01-01 on, and each is followed by the next: within a
/// month, into the next month, or into the next year. February has 29 days in every
/// fourth year, but of the full centuries only in every fourth.
pub proof fn days_follow_each_other(n: nat)
    ensures
        date_of(0) == (Date { year: 1970, month: 1, day: 1 }),
        ({
            let d = date_of(n);
            let m = d.month;
            let last: int = if m == 2 {
                if d.year % 4 == 0 && (d.year % 100 != 0 || d.year % 400 == 0) {
                    29
                } else {
                    28
                }
            } else if m == 4 || m == 6 || m == 9 || m == 11 {
                30
            } else {
                31
            };
            &&& 1 <= m <= 12
            &&& 1 <= d.day <= last
            &&& date_of(n + 1) == if d.day < last {
                Date { year: d.year, month: m, day: d.day + 1 }
            } else if m < 12 {
                Date { year: d.year, month: m + 1, day: 1 }
            } else {
                Date { year: d.year + 1, month: 1, day: 1 }
            }
        }),
{
    let first = Date { year: 1970, month: 1, day: 1 };
    assert(first.number() == 0);
    date_of_is_the_date(0, first);
    let p = date_of(n);
    date_of_is_the_date(n, p);
    let next = if p.day < month_days(p.year, p.month) {
        Date { day: p.day + 1, ..p }
    } else if p.month < 12 {
        Date { month: p.month + 1, day: 1, ..p }
    } else {
        months_fill_the_year(p.year);
        Date { year: p.year + 1, month: 1, day: 1 }
    };
    assert(next.valid());
    assert(next.number() == n + 1);
    date_of_is_the_date(n + 1, next);
}

/// A stamp reads as the moment it is of: the year, month and day of its date, and the
/// hour, minute and second of the day, each in its place.
pub proof fn stamps_read_back(secs: nat)
    requires
        secs < year_10000(),
    ensures
        ({
            let s = stamp_text(secs);
            let d = date_of(secs / 86400);
            &&& s.len() == 16
            &&& number_of(s.subrange(0, 4)) == d.year
            &&& number_of(s.subrange(4, 6)) == d.month
            &&& number_of(s.subrange(6, 8)) == d.day
            &&& s[8] == '-'
            &&& number_of(s.subrange(9, 11)) == secs % 86400 / 3600
            &&& number_of(s.subrange(11, 13)) == secs % 86400 % 3600 / 60
            &&& number_of(s.subrange(13, 15)) == secs % 86400 % 60
            &&& s[15] == 'Z'
        }),
{
    let s = stamp_text(secs);
    let d = date_of(secs / 86400);
    date_of_is_the_date(secs / 86400, d);
    clock_parts(secs);
    stamps_have_sixteen_characters(secs);
    dates_have_eight_characters(secs / 86400);
    reveal_strlit("-");
    reveal_strlit("Z");
    let (h, n, t) = (secs % 86400 / 3600, secs % 3600 / 60, secs % 60);
    padded_width(d.year as nat);
    padded_width(d.month as nat);
    padded_width(d.day as nat);
    padded_width(h);
    padded_width(n);
    padded_width(t);
    numbers_read_back(d.year as nat, 4);
    numbers_read_back(d.month as nat, 2);
    numbers_read_back(d.day as nat, 2);
    numbers_read_back(h, 2);
    numbers_read_back(n, 2);
    numbers_read_back(t, 2);
    assert(s.subrange(0, 4) =~= padded(d.year as nat, 4));
    assert(s.subrange(4, 6) =~= padded(d.month as nat, 2));
    assert(s.subrange(6, 8) =~= padded(d.day as nat, 2));
    assert(s.subrange(9, 11) =~= padded(h, 2));
    assert(s.subrange(11, 13) =~= padded(n, 2));
    assert(s.subrange(13, 15) =~= padded(t, 2));
}

} // verus!
