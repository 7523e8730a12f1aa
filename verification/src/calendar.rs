//! Dates and times from seconds since the start of 1970.

use vstd::prelude::*;
use vstd::string::*;

use crate::chars::{decimal, decimal_text, law_decimal, value_of_digits};

verus! {

// ---------------------------------------------------------------------------
// The calendar
// ---------------------------------------------------------------------------

/// A year with a 29th of February.
pub open spec fn is_leap(y: int) -> bool {
    y % 4 == 0 && (y % 100 != 0 || y % 400 == 0)
}

pub open spec fn days_in_month(y: int, m: int) -> int {
    if m == 2 {
        if is_leap(y) {
            29
        } else {
            28
        }
    } else if m == 4 || m == 6 || m == 9 || m == 11 {
        30
    } else {
        31
    }
}

/// The days of the year before its month `m`.
pub open spec fn days_before_month(y: int, m: int) -> int
    decreases m,
{
    if m <= 1 {
        0
    } else {
        days_before_month(y, m - 1) + days_in_month(y, m - 1)
    }
}

/// The days before the year `y`, counted from a fixed day.
pub open spec fn days_before_year(y: int) -> int {
    365 * y + (y - 1) / 4 - (y - 1) / 100 + (y - 1) / 400
}

/// There is such a day.
pub open spec fn is_date(y: int, m: int, d: int) -> bool {
    1 <= m <= 12 && 1 <= d <= days_in_month(y, m)
}

/// The number of a day, counted from the first of January 1970.
pub open spec fn day_number(y: int, m: int, d: int) -> int {
    days_before_year(y) - days_before_year(1970) + days_before_month(y, m) + d - 1
}

/// A year has 366 days where it is a leap year, and else 365.
pub proof fn law_year_length(y: int)
    ensures
        days_before_year(y + 1) - days_before_year(y) == if is_leap(y) {
            366int
        } else {
            365
        },
        days_before_month(y, 13) == if is_leap(y) {
            366int
        } else {
            365
        },
{
    reveal_with_fuel(days_before_month, 14);
}

/// The year that starts in March, from a day in a cycle of 400 years.
proof fn lemma_year_of_era(doe: int)
    requires
        0 <= doe < 146097,
    ensures
        ({
            let yoe = (doe - doe / 1460 + doe / 36524 - doe / 146096) / 365;
            let doy = doe - (365 * yoe + yoe / 4 - yoe / 100);
            &&& 0 <= yoe <= 399
            &&& 0 <= doy <= 365
            &&& doy == 365 ==> (yoe + 1) % 4 == 0 && ((yoe + 1) % 100 != 0 || yoe == 399)
        }),
{
}

/// `a / b` rounded down.
fn div_floor(a: i64, b: i64) -> (res: i64)
    requires
        0 < b,
    ensures
        res == a as int / b as int,
{
    proof {
        assert(i64::MIN <= a as int / b as int <= i64::MAX) by (nonlinear_arith)
            requires
                0 < b,
        ;
    }
    match a.checked_div_euclid(b) {
        Some(q) => q,
        None => 0,
    }
}

/// What is left of `a` when it is divided by `b`.
fn mod_floor(a: i64, b: i64) -> (res: i64)
    requires
        0 < b,
    ensures
        res == a as int % b as int,
{
    match a.checked_rem_euclid(b) {
        Some(r) => r,
        None => 0,
    }
}

/// `y` modulo 2^32, between -2^31 and 2^31.
pub open spec fn low_half(y: int) -> int {
    (y + 0x8000_0000) % 0x1_0000_0000 - 0x8000_0000
}

/// The date and time of the given second are these. The year is kept modulo
/// 2^32.
pub open spec fn is_time(secs: int, t: (i32, u32, u32, u32, u32, u32)) -> bool {
    &&& exists|y: int|
        {
            &&& #[trigger] low_half(y) == t.0
            &&& is_date(y, t.1 as int, t.2 as int)
            &&& day_number(y, t.1 as int, t.2 as int) == secs / 86400
        }
    &&& t.3 < 24 && t.4 < 60 && t.5 < 60
    &&& 3600 * t.3 + 60 * t.4 + t.5 == secs % 86400
}

/// The date and time of a second, in UTC: year, month, day, hour, minute and
/// second.
#[verifier::rlimit(40)]
pub fn epoch_to_ymd_hms(secs: i64) -> (res: (i32, u32, u32, u32, u32, u32))
    ensures
        is_time(secs as int, res),
{
    let days: i64 = div_floor(secs, 86400);
    let rem: i64 = mod_floor(secs, 86400);
    let h: u32 = (rem / 3600) as u32;
    let mi: u32 = ((rem % 3600) / 60) as u32;
    let s: u32 = (rem % 60) as u32;

    let z: i64 = days + 719468;
    let era: i64 = div_floor(z, 146097);
    let doe: i64 = mod_floor(z, 146097);
    proof {
        lemma_year_of_era(doe as int);
    }
    let yoe: i64 = (doe - doe / 1460 + doe / 36524 - doe / 146096) / 365;
    let march_year: i64 = era * 400 + yoe;
    let doy: i64 = doe - (365 * yoe + yoe / 4 - yoe / 100);
    let mp: i64 = (5 * doy + 2) / 153;
    let d: i64 = doy - (153 * mp + 2) / 5 + 1;
    let m: i64 = if mp < 10 {
        mp + 3
    } else {
        mp - 9
    };
    let y: i64 = if m <= 2 {
        march_year + 1
    } else {
        march_year
    };
    proof {
        lemma_march(march_year as int);
        lemma_eras(era as int, yoe as int);
        lemma_in_march_year(march_year as int, doy as int);
    }
    let low: i64 = mod_floor(y + 0x8000_0000, 0x1_0000_0000) - 0x8000_0000;
    assert(low_half(y as int) == low);
    (low as i32, m as u32, d as u32, h, mi, s)
}

/// Whole cycles of 400 years do not change which years are leap years.
proof fn lemma_eras(era: int, yoe: int)
    requires
        0 <= yoe <= 399,
    ensures
        ({
            let y = era * 400 + yoe;
            &&& y / 4 == 100 * era + yoe / 4
            &&& y / 100 == 4 * era + yoe / 100
            &&& y / 400 == era
            &&& is_leap(y + 1) == ((yoe + 1) % 4 == 0 && ((yoe + 1) % 100 != 0 || yoe == 399))
        }),
{
}

/// The date of a day in the year that starts in March.
proof fn lemma_in_march_year(y: int, doy: int)
    requires
        0 <= doy <= 365,
        doy == 365 ==> is_leap(y + 1),
    ensures
        ({
            let mp = (5 * doy + 2) / 153;
            let d = doy - (153 * mp + 2) / 5 + 1;
            let m = if mp < 10 {
                mp + 3
            } else {
                mp - 9
            };
            let year = if m <= 2 {
                y + 1
            } else {
                y
            };
            &&& 0 <= mp <= 11
            &&& is_date(year, m, d)
            &&& day_number(year, m, d) == day_number(y, 3, 1) + doy
        }),
{
    let mp = (5 * doy + 2) / 153;
    let d = doy - (153 * mp + 2) / 5 + 1;
    law_year_length(y);
    lemma_months(y);
    lemma_months(y + 1);
    assert(0 <= mp <= 11);
    if mp == 11 {
        assert(day_number(y + 1, 2, d) == day_number(y, 3, 1) + doy);
    } else if mp == 10 {
        assert(day_number(y + 1, 1, d) == day_number(y, 3, 1) + doy);
    } else {
        assert(is_date(y, mp + 3, d));
    }
}

proof fn lemma_months(y: int)
    ensures
        ({
            let f = if is_leap(y) {
                60int
            } else {
                59
            };
            &&& days_before_month(y, 1) == 0
            &&& days_before_month(y, 2) == 31
            &&& forall|m: int|
                3 <= m <= 12 ==> #[trigger] days_before_month(y, m) == f + (153 * (m - 3) + 2) / 5
        }),
{
    reveal_with_fuel(days_before_month, 13);
}

/// The number of the first of March.
proof fn lemma_march(y: int)
    ensures
        day_number(y, 3, 1) == 365 * y + y / 4 - y / 100 + y / 400 - 719468,
{
    reveal_with_fuel(days_before_month, 4);
}

// ---------------------------------------------------------------------------
// Every day once
// ---------------------------------------------------------------------------

proof fn lemma_years_grow(a: int, b: int)
    requires
        a < b,
    ensures
        days_before_year(a) + 365 <= days_before_year(b),
        is_leap(a) ==> days_before_year(a) + 366 <= days_before_year(b),
    decreases b - a,
{
    law_year_length(a);
    if a + 1 < b {
        lemma_years_grow(a + 1, b);
    }
}

proof fn lemma_months_grow(y: int, a: int, b: int)
    requires
        1 <= a < b,
    ensures
        days_before_month(y, a) + days_in_month(y, a) <= days_before_month(y, b),
    decreases b,
{
    if a + 1 < b {
        lemma_months_grow(y, a, b - 1);
    }
}

proof fn lemma_day_of_year(y: int, m: int, d: int)
    requires
        is_date(y, m, d),
    ensures
        0 <= days_before_month(y, m) + d - 1 < days_before_month(y, 13),
{
    lemma_months_grow(y, m, 13);
    if m > 1 {
        lemma_months_grow(y, 1, m);
    }
}

/// No two dates have the same number: the date of a day is the only one.
pub proof fn law_one_date(y: int, m: int, d: int, y2: int, m2: int, d2: int)
    requires
        is_date(y, m, d),
        is_date(y2, m2, d2),
        day_number(y, m, d) == day_number(y2, m2, d2),
    ensures
        (y, m, d) == (y2, m2, d2),
{
    lemma_day_of_year(y, m, d);
    lemma_day_of_year(y2, m2, d2);
    law_year_length(y);
    law_year_length(y2);
    if y < y2 {
        lemma_years_grow(y, y2);
    } else if y2 < y {
        lemma_years_grow(y2, y);
    } else if m < m2 {
        lemma_months_grow(y, m, m2);
    } else if m2 < m {
        lemma_months_grow(y, m2, m);
    }
}

// ---------------------------------------------------------------------------
// Writing them down
// ---------------------------------------------------------------------------

/// The decimal digits of `n` with zeros in front, up to the given width.
pub open spec fn padded(n: nat, width: nat) -> Seq<char> {
    let digits = decimal(n);
    if digits.len() < width {
        Seq::new((width - digits.len()) as nat, |i: int| '0') + digits
    } else {
        digits
    }
}

/// A number that may be negative; the sign counts towards the width.
pub open spec fn padded_signed(n: int, width: nat) -> Seq<char> {
    if n < 0 {
        "-"@ + padded(
            (-n) as nat,
            if width > 0 {
                (width - 1) as nat
            } else {
                0
            },
        )
    } else {
        padded(n as nat, width)
    }
}

fn append_padded(text: &mut String, n: u64, width: usize)
    ensures
        final(text)@ == old(text)@ + padded(n as nat, width as nat),
{
    let digits = decimal_text(n);
    let mut k: usize = digits.as_str().unicode_len();
    let ghost before = text@;
    let ghost start = k;
    while k < width
        invariant
            start <= k,
            k <= width || k == start,
            text@ == before + Seq::new((k - start) as nat, |i: int| '0'),
        decreases width - k,
    {
        text.push('0');
        k += 1;
        assert(text@ =~= before + Seq::new((k - start) as nat, |i: int| '0'));
    }
    text.append(digits.as_str());
    assert(text@ =~= before + padded(n as nat, width as nat));
}

/// A date and time as in `2026-05-25T10:30:00Z`.
pub open spec fn iso(t: (i32, u32, u32, u32, u32, u32)) -> Seq<char> {
    padded_signed(t.0 as int, 4) + "-"@ + padded(t.1 as nat, 2) + "-"@ + padded(t.2 as nat, 2)
        + "T"@ + padded(t.3 as nat, 2) + ":"@ + padded(t.4 as nat, 2) + ":"@ + padded(
        t.5 as nat,
        2,
    ) + "Z"@
}

/// The date and time of a second as in `2026-05-25T10:30:00Z`.
pub fn iso_timestamp(secs: i64) -> (res: String)
    ensures
        exists|t: (i32, u32, u32, u32, u32, u32)|
            is_time(secs as int, t) && res@ == #[trigger] iso(t),
{
    let (y, mo, d, h, mi, s) = epoch_to_ymd_hms(secs);
    let mut res: String = String::new();
    if y < 0 {
        res.append("-");
        append_padded(&mut res, (-(y as i64)) as u64, 3);
    } else {
        append_padded(&mut res, y as u64, 4);
    }
    res.append("-");
    append_padded(&mut res, mo as u64, 2);
    res.append("-");
    append_padded(&mut res, d as u64, 2);
    res.append("T");
    append_padded(&mut res, h as u64, 2);
    res.append(":");
    append_padded(&mut res, mi as u64, 2);
    res.append(":");
    append_padded(&mut res, s as u64, 2);
    res.append("Z");
    assert(res@ =~= iso((y, mo, d, h, mi, s)));
    res
}

proof fn lemma_zeros_in_front(z: nat, s: Seq<char>)
    ensures
        value_of_digits(Seq::new(z, |i: int| '0') + s) == value_of_digits(s),
    decreases s.len(), z,
{
    let t = Seq::new(z, |i: int| '0') + s;
    if s.len() > 0 {
        lemma_zeros_in_front(z, s.drop_last());
        assert(t.drop_last() =~= Seq::new(z, |i: int| '0') + s.drop_last());
        assert(t.last() == s.last());
    } else if z > 0 {
        lemma_zeros_in_front((z - 1) as nat, s);
        assert(t.drop_last() =~= Seq::new((z - 1) as nat, |i: int| '0') + s);
        assert(t.last() == '0');
    } else {
        assert(t =~= s);
    }
}

/// A padded number still stands for itself, and is as wide as it has to be and
/// at least as wide as was asked for.
pub proof fn law_padded(n: nat, width: nat)
    ensures
        value_of_digits(padded(n, width)) == n,
        padded(n, width).len() >= width,
        padded(n, width).len() == width || padded(n, width) == decimal(n),
{
    law_decimal(n);
    if decimal(n).len() < width {
        lemma_zeros_in_front((width - decimal(n).len()) as nat, decimal(n));
    }
}

/// Every fourth year is a leap year, but of the full centuries only every
/// fourth.
pub proof fn law_leap_years(y: int)
    ensures
        is_leap(4 * y) <==> y % 25 != 0 || y % 100 == 0,
        y % 4 != 0 ==> !is_leap(y),
        is_leap(400 * y),
        !is_leap(400 * y + 100) && !is_leap(400 * y + 200) && !is_leap(400 * y + 300),
{
    assert((4 * y) % 100 == 4 * (y % 25));
    assert((4 * y) % 400 == 4 * (y % 100));
}

/// The days of each month, and how many a year with a 29th of February has.
pub proof fn law_months(y: int)
    ensures
        days_in_month(y, 2) == 28 || days_in_month(y, 2) == 29,
        days_in_month(y, 2) == 29 <==> days_before_year(y + 1) - days_before_year(y) == 366,
        is_leap(y) <==> days_in_month(y, 2) == 29,
        days_in_month(y, 1) + days_in_month(y, 3) + days_in_month(y, 5) + days_in_month(y, 7)
            + days_in_month(y, 8) + days_in_month(y, 10) + days_in_month(y, 12) == 7 * 31,
        days_in_month(y, 4) + days_in_month(y, 6) + days_in_month(y, 9) + days_in_month(y, 11)
            == 4 * 30,
{
    law_year_length(y);
}

/// The day behind a date is the next of its month, else the first of the next
/// month, else the first of the next year; and its number is the next one.
pub proof fn law_next_day(y: int, m: int, d: int)
    requires
        is_date(y, m, d),
    ensures
        d < days_in_month(y, m) ==> is_date(y, m, d + 1) && day_number(y, m, d + 1) == day_number(
            y,
            m,
            d,
        ) + 1,
        d == days_in_month(y, m) && m < 12 ==> is_date(y, m + 1, 1) && day_number(y, m + 1, 1)
            == day_number(y, m, d) + 1,
        d == days_in_month(y, m) && m == 12 ==> is_date(y + 1, 1, 1) && day_number(y + 1, 1, 1)
            == day_number(y, m, d) + 1,
        day_number(1970, 1, 1) == 0,
{
    law_year_length(y);
    if m == 12 {
        assert(days_before_month(y, 13) == days_before_month(y, 12) + days_in_month(y, 12));
    }
}

proof fn lemma_clock(r: int, h: int, m: int, s: int)
    requires
        r == 3600 * h + 60 * m + s,
        0 <= h && 0 <= m < 60 && 0 <= s < 60,
    ensures
        h == r / 3600,
        m == (r / 60) % 60,
        s == r % 60,
{
    assert(r / 60 == 60 * h + m);
}

/// The time of day is that of the second within its day.
pub proof fn law_clock(secs: int, t: (i32, u32, u32, u32, u32, u32))
    requires
        is_time(secs, t),
    ensures
        t.3 == (secs % 86400) / 3600,
        t.4 == (secs % 86400) / 60 % 60,
        t.5 == (secs % 86400) % 60,
        t.1 >= 1 && t.1 <= 12 && t.2 >= 1 && t.2 <= 31,
{
    lemma_clock(secs % 86400, t.3 as int, t.4 as int, t.5 as int);
}

/// A second has one date and time.
pub proof fn law_one_time(
    secs: int,
    t: (i32, u32, u32, u32, u32, u32),
    u: (i32, u32, u32, u32, u32, u32),
)
    requires
        is_time(secs, t),
        is_time(secs, u),
    ensures
        t == u,
{
    law_clock(secs, t);
    law_clock(secs, u);
    let y = choose|y: int|
        {
            &&& #[trigger] low_half(y) == t.0
            &&& is_date(y, t.1 as int, t.2 as int)
            &&& day_number(y, t.1 as int, t.2 as int) == secs / 86400
        };
    let z = choose|z: int|
        {
            &&& #[trigger] low_half(z) == u.0
            &&& is_date(z, u.1 as int, u.2 as int)
            &&& day_number(z, u.1 as int, u.2 as int) == secs / 86400
        };
    law_one_date(y, t.1 as int, t.2 as int, z, u.1 as int, u.2 as int);
}

/// A negative number has its sign in front, and takes up the same width.
pub proof fn law_padded_signed(n: int, width: nat)
    requires
        n < 0,
        width > 0,
    ensures
        padded_signed(n, width)[0] == '-',
        value_of_digits(padded_signed(n, width).skip(1)) == -n,
        padded_signed(n, width).len() >= width,
        padded_signed(-n, width) == padded((-n) as nat, width),
{
    reveal_strlit("-");
    let w = (width - 1) as nat;
    law_padded((-n) as nat, w);
    assert(padded_signed(n, width).skip(1) =~= padded((-n) as nat, w));
}

proof fn lemma_width(n: nat, width: nat)
    requires
        width == 2 && n < 100 || width == 4 && n < 10000,
    ensures
        padded(n, width).len() == width,
{
    reveal_with_fuel(decimal, 5);
    law_padded(n, width);
}

/// A date and time is written in twenty characters: four digits of the year,
/// two each of the month, the day, the hour, the minute and the second, and the
/// marks between them and at the end.
pub proof fn law_iso(t: (i32, u32, u32, u32, u32, u32))
    requires
        0 <= t.0 < 10000,
        t.1 < 100 && t.2 < 100 && t.3 < 100 && t.4 < 100 && t.5 < 100,
    ensures
        ({
            let s = iso(t);
            &&& s.len() == 20
            &&& value_of_digits(s.subrange(0, 4)) == t.0 && s[4] == '-'
            &&& value_of_digits(s.subrange(5, 7)) == t.1 && s[7] == '-'
            &&& value_of_digits(s.subrange(8, 10)) == t.2 && s[10] == 'T'
            &&& value_of_digits(s.subrange(11, 13)) == t.3 && s[13] == ':'
            &&& value_of_digits(s.subrange(14, 16)) == t.4 && s[16] == ':'
            &&& value_of_digits(s.subrange(17, 19)) == t.5 && s[19] == 'Z'
        }),
{
    reveal_strlit("-");
    reveal_strlit("T");
    reveal_strlit(":");
    reveal_strlit("Z");
    let s = iso(t);
    let (a, b, c) = (padded(t.0 as nat, 4), padded(t.1 as nat, 2), padded(t.2 as nat, 2));
    let (d, e, f) = (padded(t.3 as nat, 2), padded(t.4 as nat, 2), padded(t.5 as nat, 2));
    lemma_width(t.0 as nat, 4);
    lemma_width(t.1 as nat, 2);
    lemma_width(t.2 as nat, 2);
    lemma_width(t.3 as nat, 2);
    lemma_width(t.4 as nat, 2);
    lemma_width(t.5 as nat, 2);
    law_padded(t.0 as nat, 4);
    law_padded(t.1 as nat, 2);
    law_padded(t.2 as nat, 2);
    law_padded(t.3 as nat, 2);
    law_padded(t.4 as nat, 2);
    law_padded(t.5 as nat, 2);
    assert(s.subrange(0, 4) =~= a);
    assert(s.subrange(5, 7) =~= b);
    assert(s.subrange(8, 10) =~= c);
    assert(s.subrange(11, 13) =~= d);
    assert(s.subrange(14, 16) =~= e);
    assert(s.subrange(17, 19) =~= f);
}

} // verus!
