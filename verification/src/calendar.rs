//! The civil calendar: from days since 1970 to dates.

use vstd::prelude::*;
use vstd::string::StringExecFns;

use crate::text::{
    decimal, decimal_reads_back, number, pad, padded, padding_stands_on_the_left, to_decimal,
};

verus! {

/// The year has a 29 February.
pub open spec fn leap(y: int) -> bool {
    y % 4 == 0 && (y % 100 != 0 || y % 400 == 0)
}

/// How many days the month has.
pub open spec fn days_in_month(y: int, m: int) -> int {
    if m == 2 {
        if leap(y) {
            29
        } else {
            28
        }
    } else if m == 4 || m == 6 || m == 9 || m == 11 {
        30
    } else {
        31
    }
}

/// The days of the year `y` before its month `m`.
pub open spec fn days_before_month(y: int, m: int) -> int
    decreases m,
{
    if m <= 1 {
        0
    } else {
        days_before_month(y, m - 1) + days_in_month(y, m - 1)
    }
}

/// The days before the year `y`, counted from the start of year 0 less one
/// day: 365 for each year and one more for each leap year.
pub open spec fn days_before_year(y: int) -> int {
    365 * y + (y - 1) / 4 - (y - 1) / 100 + (y - 1) / 400
}

/// `y`-`m`-`d` is a date.
pub open spec fn is_date(y: int, m: int, d: int) -> bool {
    1 <= m <= 12 && 1 <= d <= days_in_month(y, m)
}

/// The number of the day `y`-`m`-`d`, counted from 1970-01-01.
pub open spec fn day_number(y: int, m: int, d: int) -> int {
    days_before_year(y) - days_before_year(1970) + days_before_month(y, m) + d - 1
}

/// A point in time as `YYYY-MM-DD HH:MM`.
pub open spec fn date_text(y: nat, m: nat, d: nat, hour: nat, minute: nat) -> Seq<char> {
    padded(decimal(y), 4, '0') + "-"@ + padded(decimal(m), 2, '0') + "-"@ + padded(
        decimal(d),
        2,
        '0',
    ) + " "@ + padded(decimal(hour), 2, '0') + ":"@ + padded(decimal(minute), 2, '0')
}

/// Leap years make the years differ in length.
#[verifier::spinoff_prover]
#[verifier::rlimit(50)]
proof fn lemma_next_year(y: int)
    ensures
        days_before_year(y + 1) == days_before_year(y) + 365 + if leap(y) {
            1int
        } else {
            0
        },
{
}

/// The months of a year that is counted from 1 March.
proof fn lemma_days_before_month(y: int)
    ensures
        days_before_month(y, 1) == 0,
        days_before_month(y, 2) == 31,
        days_before_month(y, 3) == 31 + days_in_month(y, 2),
        days_before_month(y, 4) == 62 + days_in_month(y, 2),
        days_before_month(y, 5) == 92 + days_in_month(y, 2),
        days_before_month(y, 6) == 123 + days_in_month(y, 2),
        days_before_month(y, 7) == 153 + days_in_month(y, 2),
        days_before_month(y, 8) == 184 + days_in_month(y, 2),
        days_before_month(y, 9) == 215 + days_in_month(y, 2),
        days_before_month(y, 10) == 245 + days_in_month(y, 2),
        days_before_month(y, 11) == 276 + days_in_month(y, 2),
        days_before_month(y, 12) == 306 + days_in_month(y, 2),
        days_before_month(y, 13) == 337 + days_in_month(y, 2),
{
    reveal_with_fuel(days_before_month, 13);
}

/// The day `doy` of the year that starts on 1 March of year `y` has month and
/// day by the lengths of the months, which repeat every five months.
proof fn lemma_month_of_day(y: int, doy: int, mp: int, d: int, m: int, year: int)
    requires
        0 <= doy <= 365,
        doy == 365 ==> leap(y + 1),
        mp == (5 * doy + 2) / 153,
        d == doy - (153 * mp + 2) / 5 + 1,
        m == (if mp < 10 {
            mp + 3
        } else {
            mp - 9
        }),
        year == (if m <= 2 {
            y + 1
        } else {
            y
        }),
    ensures
        is_date(year, m, d),
        day_number(year, m, d) == 365 * y + y / 4 - y / 100 + y / 400 + doy - 719468,
{
    lemma_days_before_month(y);
    lemma_days_before_month(y + 1);
    lemma_next_year(y);
    assert(0 <= mp <= 11);
    if mp == 0 {
    } else if mp == 1 {
    } else if mp == 2 {
    } else if mp == 3 {
    } else if mp == 4 {
    } else if mp == 5 {
    } else if mp == 6 {
    } else if mp == 7 {
    } else if mp == 8 {
    } else if mp == 9 {
    } else if mp == 10 {
    } else {
    }
}

/// A date.
pub struct Date {
    pub year: u64,
    pub month: u64,
    pub day: u64,
}

/// The date of a day after 1970-01-01.
pub fn civil_date(days: u64) -> (r: Date)
    requires
        days < 0x1_0000_0000_0000,
    ensures
        is_date(r.year as int, r.month as int, r.day as int),
        day_number(r.year as int, r.month as int, r.day as int) == days,
{
    // Eras of 400 years start on 1 March, so that leap days come last in
    // their years, centuries and eras.
    let z: u64 = days + 719468;
    let era: u64 = z / 146097;
    let doe: u64 = z % 146097;
    let century: u64 = if doe / 36524 > 3 {
        3
    } else {
        doe / 36524
    };
    let in_century: u64 = doe - 36524 * century;
    let fours: u64 = in_century / 1461;
    let in_four: u64 = in_century % 1461;
    let year_of_four: u64 = if in_four / 365 > 3 {
        3
    } else {
        in_four / 365
    };
    let doy: u64 = in_four - 365 * year_of_four;
    let y: u64 = 400 * era + 100 * century + 4 * fours + year_of_four;
    let mp: u64 = (5 * doy + 2) / 153;
    let d: u64 = doy - (153 * mp + 2) / 5 + 1;
    let m: u64 = if mp < 10 {
        mp + 3
    } else {
        mp - 9
    };
    let year: u64 = if m <= 2 {
        y + 1
    } else {
        y
    };
    proof {
        let (e, c, q, t) = (era as int, century as int, fours as int, year_of_four as int);
        assert(0 <= q <= 24);
        assert(y / 4 == 100 * e + 25 * c + q);
        assert(y / 100 == 4 * e + c);
        assert(y / 400 == e);
        assert(doy <= 365);
        if doy == 365 {
            assert(t == 3);
            assert((y + 1) % 4 == 0);
            assert((y + 1) % 100 == 0 ==> q == 24 && c == 3);
            assert((y + 1) % 100 == 0 ==> (y + 1) % 400 == 0);
        }
        lemma_month_of_day(y as int, doy as int, mp as int, d as int, m as int, year as int);
    }
    Date { year, month: m, day: d }
}

/// Later months start later.
proof fn lemma_months_in_order(y: int, a: int, b: int)
    requires
        1 <= a < b <= 13,
    ensures
        days_before_month(y, a) + days_in_month(y, a) <= days_before_month(y, b),
    decreases b - a,
{
    if a + 1 < b {
        lemma_months_in_order(y, a, b - 1);
    }
}

/// Later years start later.
proof fn lemma_years_in_order(a: int, b: int)
    requires
        a < b,
    ensures
        days_before_year(a) + days_before_month(a, 13) <= days_before_year(b),
    decreases b - a,
{
    lemma_next_year(b - 1);
    lemma_days_before_month(a);
    if a + 1 < b {
        lemma_years_in_order(a, b - 1);
        lemma_days_before_month(b - 1);
    }
}

/// Days are numbered in the order of their dates, so that no two dates share a
/// number.
pub proof fn days_are_in_order(y: int, m: int, d: int, y2: int, m2: int, d2: int)
    requires
        is_date(y, m, d),
        is_date(y2, m2, d2),
    ensures
        day_number(y, m, d) < day_number(y2, m2, d2) <==> (y < y2 || (y == y2 && (m < m2 || (m == m2
            && d < d2)))),
{
    if y < y2 {
        lemma_years_in_order(y, y2);
        lemma_months_in_order(y, m, 13);
        lemma_month_start(y2, m2);
    } else if y2 < y {
        lemma_years_in_order(y2, y);
        lemma_months_in_order(y2, m2, 13);
        lemma_month_start(y, m);
    } else if m < m2 {
        lemma_months_in_order(y, m, m2);
    } else if m2 < m {
        lemma_months_in_order(y, m2, m);
    }
}

proof fn lemma_month_start(y: int, m: int)
    requires
        1 <= m <= 13,
    ensures
        days_before_month(y, m) >= 0,
    decreases m,
{
    if m > 1 {
        lemma_month_start(y, m - 1);
    }
}

/// The text says that `secs` seconds after 1970 began it is `y`-`m`-`d`, and the
/// hour and minute of that day.
pub open spec fn is_date_text(text: Seq<char>, secs: nat, y: nat, m: nat, d: nat) -> bool {
    &&& is_date(y as int, m as int, d as int)
    &&& day_number(y as int, m as int, d as int) == secs / 86400
    &&& text == date_text(y, m, d, secs % 86400 / 3600, secs % 3600 / 60)
}

/// The text says when `secs` seconds after 1970 began are.
pub open spec fn tells_date(text: Seq<char>, secs: nat) -> bool {
    exists|y: nat, m: nat, d: nat| is_date_text(text, secs, y, m, d)
}

/// A time in seconds since 1970, in UTC, as `YYYY-MM-DD HH:MM`; 0 stands for
/// an unknown time.
pub open spec fn shown_date(secs: nat) -> Seq<char> {
    if secs == 0 {
        "unknown"@
    } else {
        choose|t: Seq<char>| tells_date(t, secs)
    }
}

/// A time is told in one way only.
pub proof fn date_texts_agree(a: Seq<char>, b: Seq<char>, secs: nat)
    requires
        tells_date(a, secs),
        tells_date(b, secs),
    ensures
        a == b,
{
    let (y, m, d) = choose|y: nat, m: nat, d: nat| is_date_text(a, secs, y, m, d);
    let (y2, m2, d2) = choose|y: nat, m: nat, d: nat| is_date_text(b, secs, y, m, d);
    days_are_in_order(y as int, m as int, d as int, y2 as int, m2 as int, d2 as int);
    days_are_in_order(y2 as int, m2 as int, d2 as int, y as int, m as int, d as int);
}

/// A time in seconds since 1970, in UTC, as `YYYY-MM-DD HH:MM`; 0 stands for
/// an unknown time.
pub fn fmt_date(secs: u64) -> (r: String)
    ensures
        r@ == shown_date(secs as nat),
        secs > 0 ==> tells_date(r@, secs as nat),
{
    if secs == 0 {
        return "unknown".to_owned();
    }
    let date = civil_date(secs / 86400);
    let hour: u64 = secs % 86400 / 3600;
    let minute: u64 = secs % 3600 / 60;
    let y = pad(to_decimal(date.year).as_str(), 4, '0');
    let m = pad(to_decimal(date.month).as_str(), 2, '0');
    let d = pad(to_decimal(date.day).as_str(), 2, '0');
    let h = pad(to_decimal(hour).as_str(), 2, '0');
    let n = pad(to_decimal(minute).as_str(), 2, '0');
    let r = y.concat("-").concat(m.as_str()).concat("-").concat(d.as_str()).concat(" ").concat(
        h.as_str(),
    ).concat(":").concat(n.as_str());
    proof {
        assert(is_date_text(
            r@,
            secs as nat,
            date.year as nat,
            date.month as nat,
            date.day as nat,
        ));
        assert(tells_date(r@, secs as nat));
        date_texts_agree(r@, shown_date(secs as nat), secs as nat);
    }
    r
}

/// The date of the day after.
pub open spec fn day_after(y: int, m: int, d: int) -> (int, int, int) {
    let leap_year = y % 400 == 0 || (y % 4 == 0 && y % 100 != 0);
    let last = if m == 2 && leap_year {
        29
    } else if m == 2 {
        28
    } else if m == 4 || m == 6 || m == 9 || m == 11 {
        30
    } else {
        31int
    };
    if d < last {
        (y, m, d + 1)
    } else if m < 12 {
        (y, m + 1, 1)
    } else {
        (y + 1, 1, 1)
    }
}

/// Days are counted one by one from the first of 1970.
pub proof fn days_are_counted_one_by_one(y: int, m: int, d: int)
    requires
        is_date(y, m, d),
    ensures
        day_number(1970, 1, 1) == 0,
        ({
            let (y2, m2, d2) = day_after(y, m, d);
            is_date(y2, m2, d2) && day_number(y2, m2, d2) == day_number(y, m, d) + 1
        }),
{
    lemma_next_year(y);
    lemma_days_before_month(y);
}

/// A time is told as the year, the month, the day, the hour and the minute, each
/// in digits of a fixed number, as far as the year has four.
pub proof fn times_are_told_in_digits(y: nat, m: nat, d: nat, hour: nat, minute: nat)
    requires
        y <= 9999,
        m <= 99 && d <= 99 && hour <= 99 && minute <= 99,
    ensures
        ({
            let t = date_text(y, m, d, hour, minute);
            &&& t.len() == 16
            &&& t[4] == '-' && t[7] == '-' && t[10] == ' ' && t[13] == ':'
            &&& number(t.subrange(0, 4)) == y
            &&& number(t.subrange(5, 7)) == m
            &&& number(t.subrange(8, 10)) == d
            &&& number(t.subrange(11, 13)) == hour
            &&& number(t.subrange(14, 16)) == minute
        }),
{
    reveal_strlit("-");
    reveal_strlit(" ");
    reveal_strlit(":");
    lemma_padded_number(y, 4, 9999);
    lemma_padded_number(m, 2, 99);
    lemma_padded_number(d, 2, 99);
    lemma_padded_number(hour, 2, 99);
    lemma_padded_number(minute, 2, 99);
    let t = date_text(y, m, d, hour, minute);
    assert(t.subrange(0, 4) =~= padded(decimal(y), 4, '0'));
    assert(t.subrange(5, 7) =~= padded(decimal(m), 2, '0'));
    assert(t.subrange(8, 10) =~= padded(decimal(d), 2, '0'));
    assert(t.subrange(11, 13) =~= padded(decimal(hour), 2, '0'));
    assert(t.subrange(14, 16) =~= padded(decimal(minute), 2, '0'));
}

proof fn lemma_padded_number(n: nat, width: nat, most: nat)
    requires
        n <= most,
        (width == 4 && most == 9999) || (width == 2 && most == 99),
    ensures
        padded(decimal(n), width, '0').len() == width,
        number(padded(decimal(n), width, '0')) == n,
{
    decimal_reads_back(n);
    reveal_with_fuel(decimal, 5);
    assert(decimal(n).len() <= width);
    padding_stands_on_the_left(decimal(n), width, '0');
    lemma_zeros_count_nothing((width - decimal(n).len()) as nat, decimal(n));
    if decimal(n).len() == width {
        assert(padded(decimal(n), width, '0') =~= decimal(n));
    }
}

proof fn lemma_zeros_count_nothing(k: nat, s: Seq<char>)
    ensures
        number(Seq::new(k, |i: int| '0') + s) == number(s),
    decreases s.len(), k,
{
    let z = Seq::new(k, |i: int| '0');
    if s.len() > 0 {
        lemma_zeros_count_nothing(k, s.drop_last());
        assert((z + s).drop_last() =~= z + s.drop_last());
    } else if k > 0 {
        let y = Seq::new((k - 1) as nat, |i: int| '0');
        lemma_zeros_count_nothing((k - 1) as nat, s);
        assert((z + s).drop_last() =~= y + s);
        assert((z + s).last() == '0');
    } else {
        assert(z + s =~= s);
    }
}

/// The text tells the minute `minute` of the hour `hour` on the day of the number
/// `days`.
pub open spec fn tells_minute(text: Seq<char>, days: nat, hour: nat, minute: nat) -> bool {
    exists|y: nat, m: nat, d: nat|
        is_date(y as int, m as int, d as int) && day_number(y as int, m as int, d as int) == days
            && text == #[trigger] date_text(y, m, d, hour, minute)
}

/// The time of day is what is left of the seconds after the whole days.
pub proof fn times_of_day_are_what_is_left(
    text: Seq<char>,
    days: nat,
    hour: nat,
    minute: nat,
    rest: nat,
)
    requires
        hour < 24 && minute < 60 && rest < 60,
        tells_date(text, days * 86400 + hour * 3600 + minute * 60 + rest),
    ensures
        tells_minute(text, days, hour, minute),
{
    let secs = days * 86400 + hour * 3600 + minute * 60 + rest;
    let (y, m, d) = choose|y: nat, m: nat, d: nat| is_date_text(text, secs, y, m, d);
    assert(secs / 86400 == days);
    assert(secs % 86400 == hour * 3600 + minute * 60 + rest);
    assert(secs % 86400 / 3600 == hour);
    assert(secs % 3600 == minute * 60 + rest);
    assert(secs % 3600 / 60 == minute);
    assert(text == date_text(y, m, d, hour, minute));
}

} // verus!
