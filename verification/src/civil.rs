//! Civil (proleptic Gregorian) dates and RFC 3339 UTC timestamps.
use vstd::prelude::*;

use crate::text::{decimal, lemma_decimal_short, push_decimal_padded, string_of, zero_pad};

verus! {

/// Gregorian leap year.
pub open spec fn is_leap(y: int) -> bool {
    y % 4 == 0 && (y % 100 != 0 || y % 400 == 0)
}

/// Number of days of month `m` (1 to 12) of year `y`.
pub open spec fn days_in_month(y: int, m: int) -> int {
    if m == 2 {
        if is_leap(y) {
            29
        } else {
            28
        }
    } else if m == 4 || m == 6 || m == 9 || m == 11 {
        30
    } else {
        31
    }
}

/// Days of year `y` before the first of month `m`.
pub open spec fn days_before_month(y: int, m: int) -> int {
    let base: int = if m <= 1 {
        0
    } else if m == 2 {
        31
    } else if m == 3 {
        59
    } else if m == 4 {
        90
    } else if m == 5 {
        120
    } else if m == 6 {
        151
    } else if m == 7 {
        181
    } else if m == 8 {
        212
    } else if m == 9 {
        243
    } else if m == 10 {
        273
    } else if m == 11 {
        304
    } else {
        334
    };
    base + if m > 2 && is_leap(y) {
        1int
    } else {
        0int
    }
}

/// Number of leap years from year 1 up to, not including, year `y`.
pub open spec fn leap_years_before(y: int) -> int {
    (y - 1) / 4 - (y - 1) / 100 + (y - 1) / 400
}

/// Days from 1970-01-01 to the date `y-m-d`.
pub open spec fn day_number(y: int, m: int, d: int) -> int {
    365 * (y - 1970) + leap_years_before(y) - leap_years_before(1970) + days_before_month(y, m)
        + d - 1
}

/// A real date.
pub open spec fn valid_date(y: int, m: int, d: int) -> bool {
    1 <= m <= 12 && 1 <= d <= days_in_month(y, m)
}

/// Days from 0000-03-01 to `t`-03-01.
#[verifier::opaque]
spec fn march_years(t: int) -> int {
    365 * t + t / 4 - t / 100 + t / 400
}

#[verifier::spinoff_prover]
#[verifier::rlimit(40)]
proof fn lemma_year_of_era(doe: int)
    requires
        0 <= doe <= 146096,
    ensures
        ({
            let yoe = (doe - doe / 1460 + doe / 36524 - doe / 146096) / 365;
            &&& 0 <= yoe <= 399
            &&& march_years(yoe) <= doe < march_years(yoe + 1)
        }),
{
    reveal(march_years);
    let yoe = (doe - doe / 1460 + doe / 36524 - doe / 146096) / 365;
    assert(0 <= yoe <= 399);
    assert(march_years(yoe) <= doe < march_years(yoe + 1));
}

/// Days before the first of each March-based month (March is 0).
#[verifier::opaque]
spec fn march_month_start(mp: int) -> int {
    (153 * mp + 2) / 5
}

#[verifier::spinoff_prover]
proof fn lemma_month_of_year(doy: int)
    requires
        0 <= doy <= 365,
    ensures
        ({
            let mp = (5 * doy + 2) / 153;
            &&& 0 <= mp <= 11
            &&& march_month_start(mp) <= doy < march_month_start(mp + 1)
            &&& march_month_start(mp) == (153 * mp + 2) / 5
        }),
{
    reveal(march_month_start);
}


#[verifier::spinoff_prover]
proof fn lemma_march_years_step(t: int)
    ensures
        march_years(t + 1) - march_years(t) == 365 + if is_leap(t + 1) {
            1int
        } else {
            0int
        },
{
    reveal(march_years);
}

proof fn lemma_march_years_era(yoe: int, era: int)
    ensures
        march_years(yoe + 400 * era) == march_years(yoe) + 146097 * era,
{
    reveal(march_years);
    assert((yoe + 400 * era) / 4 == yoe / 4 + 100 * era);
    assert((yoe + 400 * era) / 100 == yoe / 100 + 4 * era);
    assert((yoe + 400 * era) / 400 == yoe / 400 + era);
}

#[verifier::spinoff_prover]
proof fn lemma_leap_count(y: int)
    ensures
        leap_years_before(y) + (if is_leap(y) {
            1int
        } else {
            0int
        }) == y / 4 - y / 100 + y / 400,
        leap_years_before(y + 1) == y / 4 - y / 100 + y / 400,
{
    let a = if y % 4 == 0 {
        1int
    } else {
        0int
    };
    let b = if y % 100 == 0 {
        1int
    } else {
        0int
    };
    let c = if y % 400 == 0 {
        1int
    } else {
        0int
    };
    assert((y - 1) / 4 + a == y / 4);
    assert((y - 1) / 100 + b == y / 100);
    assert((y - 1) / 400 + c == y / 400);
    assert(c == 1 ==> b == 1 && a == 1);
    assert(b == 1 ==> a == 1);
}

#[verifier::spinoff_prover]
proof fn lemma_civil_date(zp: int, big_y: int, doy: int, mp: int, d: int, m: int, year: int)
    requires
        zp == march_years(big_y) + doy,
        0 <= doy < march_years(big_y + 1) - march_years(big_y),
        0 <= mp <= 11,
        march_month_start(mp) <= doy < march_month_start(mp + 1),
        d == doy - march_month_start(mp) + 1,
        m == if mp < 10 {
            mp + 3
        } else {
            mp - 9
        },
        year == if m <= 2 {
            big_y + 1
        } else {
            big_y
        },
    ensures
        valid_date(year, m, d),
        day_number(year, m, d) == zp - 719468,
{
    reveal(march_years);
    reveal(march_month_start);
    lemma_march_years_step(big_y);
    lemma_leap_count(big_y);
    assert(march_years(big_y) == 365 * big_y + big_y / 4 - big_y / 100 + big_y / 400);
    lemma_leap_count(big_y + 1);
    assert(leap_years_before(1970) == 477);
    if mp == 11 {
        assert(march_month_start(11) == 337);
    }
}

#[verifier::spinoff_prover]
proof fn lemma_era(z: int)
    requires
        i64::MIN + 146_096 <= z <= i64::MAX,
    ensures
        (if z >= 0 {
            z / 146097
        } else {
            -((-(z + 1)) / 146097) - 1
        }) == z / 146097,
        0 <= z - (z / 146097) * 146097 <= 146096,
        i64::MIN / 146097 - 1 <= z / 146097 <= i64::MAX / 146097,
{
}

#[verifier::spinoff_prover]
proof fn lemma_day_of_year(doe: int, yoe: int)
    requires
        0 <= yoe <= 399,
        march_years(yoe) <= doe < march_years(yoe + 1),
    ensures
        doe - (365 * yoe + yoe / 4 - yoe / 100) == doe - march_years(yoe),
        0 <= doe - march_years(yoe) <= 365,
{
    reveal(march_years);
    lemma_march_years_step(yoe);
}

/// Era (400 Gregorian years) and day within it of `z` days after 0000-03-01.
#[verifier::spinoff_prover]
fn split_era(z: i64) -> (r: (i64, i64))
    requires
        z >= i64::MIN + 146_096,
    ensures
        r.0 == (z as int) / 146097,
        r.1 == z - r.0 * 146097,
        0 <= r.1 <= 146096,
        i64::MIN / 146097 - 1 <= r.0 <= i64::MAX / 146097,
{
    proof {
        lemma_era(z as int);
    }
    let era: i64 = if z >= 0 {
        z / 146_097
    } else {
        -((-(z + 1)) / 146_097) - 1
    };
    (era, z - era * 146_097)
}

/// Year within the era (March-based) and day within that year.
#[verifier::spinoff_prover]
fn split_year(doe: i64) -> (r: (i64, i64))
    requires
        0 <= doe <= 146096,
    ensures
        0 <= r.0 <= 399,
        0 <= r.1 <= 365,
        doe == march_years(r.0 as int) + r.1,
        r.1 < march_years(r.0 + 1) - march_years(r.0 as int),
{
    let yoe = (doe - doe / 1460 + doe / 36524 - doe / 146_096) / 365;
    proof {
        lemma_year_of_era(doe as int);
        lemma_day_of_year(doe as int, yoe as int);
    }
    (yoe, doe - (365 * yoe + yoe / 4 - yoe / 100))
}

/// March-based month and day of month.
#[verifier::spinoff_prover]
fn split_month(doy: i64) -> (r: (i64, i64))
    requires
        0 <= doy <= 365,
    ensures
        0 <= r.0 <= 11,
        march_month_start(r.0 as int) <= doy < march_month_start(r.0 + 1),
        r.1 == doy - march_month_start(r.0 as int) + 1,
{
    proof {
        lemma_month_of_year(doy as int);
    }
    let mp = (5 * doy + 2) / 153;
    (mp, doy - (153 * mp + 2) / 5 + 1)
}

/// Convert days since the Unix epoch into a (year, month, day) civil date.
/// Algorithm from Howard Hinnant's date library.
pub fn civil_from_days(z: i64) -> (r: (i64, u32, u32))
    requires
        z <= i64::MAX - 719_468,
        z + 719_468 >= i64::MIN + 146_096,
    ensures
        valid_date(r.0 as int, r.1 as int, r.2 as int),
        day_number(r.0 as int, r.1 as int, r.2 as int) == z,
{
    let z = z + 719_468;
    let (era, doe) = split_era(z);
    let (yoe, doy) = split_year(doe);
    proof {
        lemma_march_years_era(yoe as int, era as int);
    }
    let y = yoe + era * 400;
    let (mp, d) = split_month(doy);
    let m: u32 = if mp < 10 {
        (mp + 3) as u32
    } else {
        (mp - 9) as u32
    };
    let year = if m <= 2 {
        y + 1
    } else {
        y
    };
    proof {
        lemma_march_years_step(yoe as int);
        lemma_march_years_step(y as int);
        lemma_march_years_era(yoe + 1, era as int);
        lemma_civil_date(z as int, y as int, doy as int, mp as int, d as int, m as int, year as int);
    }
    (year, m, d as u32)
}


/// Days from 1970-01-01 to January 1 of year `y`.
spec fn year_start(y: int) -> int {
    365 * (y - 1970) + leap_years_before(y) - leap_years_before(1970)
}

#[verifier::spinoff_prover]
proof fn lemma_leap_years_monotone(a: int, b: int)
    requires
        a <= b,
    ensures
        leap_years_before(a) <= leap_years_before(b),
{
    assert((a - 1) / 4 <= (b - 1) / 4);
    assert((a - 1) / 400 <= (b - 1) / 400);
    assert((b - 1) / 100 - (a - 1) / 100 <= (b - 1) / 4 - (a - 1) / 4 + (b - 1) / 400 - (a - 1)
        / 400);
}

#[verifier::spinoff_prover]
proof fn lemma_date_in_year(y: int, m: int, d: int)
    requires
        valid_date(y, m, d),
    ensures
        year_start(y) <= day_number(y, m, d) < year_start(y + 1),
{
    lemma_leap_count(y);
}

/// A valid date is the only valid date with its day number.
pub proof fn lemma_day_number_injective(y1: int, m1: int, d1: int, y2: int, m2: int, d2: int)
    requires
        valid_date(y1, m1, d1),
        valid_date(y2, m2, d2),
        day_number(y1, m1, d1) == day_number(y2, m2, d2),
    ensures
        y1 == y2 && m1 == m2 && d1 == d2,
{
    lemma_date_in_year(y1, m1, d1);
    lemma_date_in_year(y2, m2, d2);
    if y1 < y2 {
        lemma_leap_years_monotone(y1 + 1, y2);
        assert(year_start(y1 + 1) <= year_start(y2));
    } else if y2 < y1 {
        lemma_leap_years_monotone(y2 + 1, y1);
        assert(year_start(y2 + 1) <= year_start(y1));
    } else {
        assert(days_before_month(y1, m1) + d1 == days_before_month(y1, m2) + d2);
    }
}

/// Dates from 1970-01-01 on have day numbers from 0 on.
proof fn lemma_year_from_epoch(y: int, m: int, d: int)
    requires
        valid_date(y, m, d),
        day_number(y, m, d) >= 0,
    ensures
        y >= 1970,
{
    lemma_date_in_year(y, m, d);
    if y < 1970 {
        lemma_leap_years_monotone(y + 1, 1970);
        assert(year_start(y + 1) <= year_start(1970));
    }
}

/// The calendar day after `y-m-d`.
pub open spec fn next_day(y: int, m: int, d: int) -> (int, int, int) {
    if d < days_in_month(y, m) {
        (y, m, d + 1)
    } else if m < 12 {
        (y, m + 1, 1)
    } else {
        (y + 1, 1, 1)
    }
}

/// The day after a date is a date, and its day number is one more.
pub proof fn lemma_next_day(y: int, m: int, d: int)
    requires
        valid_date(y, m, d),
    ensures
        valid_date(next_day(y, m, d).0, next_day(y, m, d).1, next_day(y, m, d).2),
        day_number(next_day(y, m, d).0, next_day(y, m, d).1, next_day(y, m, d).2) == day_number(
            y,
            m,
            d,
        ) + 1,
{
    if d == days_in_month(y, m) && m == 12 {
        lemma_leap_count(y);
    }
}

/// Consecutive day numbers are consecutive calendar days: the date of day
/// `z + 1` is the day after the date of day `z` (so `civil_from_days(z + 1)`
/// is the day after `civil_from_days(z)`).
pub proof fn lemma_consecutive_days(y1: int, m1: int, d1: int, y2: int, m2: int, d2: int)
    requires
        valid_date(y1, m1, d1),
        valid_date(y2, m2, d2),
        day_number(y2, m2, d2) == day_number(y1, m1, d1) + 1,
    ensures
        (y2, m2, d2) == next_day(y1, m1, d1),
{
    lemma_next_day(y1, m1, d1);
    let n = next_day(y1, m1, d1);
    lemma_day_number_injective(y2, m2, d2, n.0, n.1, n.2);
}

/// Dates before 2932897 days after the epoch (10000-01-01) have years
/// below 10000.
proof fn lemma_year_below(y: int, m: int, d: int)
    requires
        valid_date(y, m, d),
        day_number(y, m, d) < 2_932_897,
    ensures
        y < 10000,
{
    lemma_date_in_year(y, m, d);
    if y >= 10000 {
        lemma_leap_years_monotone(10000, y);
        assert(leap_years_before(10000) == 2424);
        assert(year_start(10000) == 2_932_897);
    }
}

/// The civil date `z` days after 1970-01-01.
pub open spec fn civil_date(z: int) -> (int, int, int) {
    choose|y: int, m: int, d: int| valid_date(y, m, d) && day_number(y, m, d) == z
}

/// `YYYY-MM-DDTHH:MM:SSZ` for `secs` seconds after the Unix epoch (UTC),
/// each field zero-padded to its width (the year to at least 4 digits).
pub open spec fn iso8601(secs: nat) -> Seq<char> {
    let (y, mo, d) = civil_date((secs / 86400) as int);
    let t = secs % 86400;
    zero_pad(decimal(y as nat), 4) + seq!['-'] + zero_pad(decimal(mo as nat), 2) + seq!['-']
        + zero_pad(decimal(d as nat), 2) + seq!['T'] + zero_pad(decimal(t / 3600), 2) + seq![':']
        + zero_pad(decimal((t % 3600) / 60), 2) + seq![':'] + zero_pad(decimal(t % 60), 2) + seq![
        'Z',
    ]
}

/// Minimal RFC3339-ish UTC timestamp for `secs` seconds after the epoch.
/// Up to the end of year 9999 it has the shape `YYYY-MM-DDTHH:MM:SSZ`.
pub fn format_timestamp(secs: u64) -> (r: String)
    ensures
        r@ == iso8601(secs as nat),
        secs < 253_402_300_800 ==> {
            &&& r@.len() == 20
            &&& r@[4] == '-' && r@[7] == '-' && r@[10] == 'T'
            &&& r@[13] == ':' && r@[16] == ':' && r@[19] == 'Z'
        },
{
    let days = secs / 86_400;
    let rem = secs % 86_400;
    let (h, mi, s) = (rem / 3600, (rem % 3600) / 60, rem % 60);
    let (y, mo, d) = civil_from_days(days as i64);
    proof {
        lemma_year_from_epoch(y as int, mo as int, d as int);
        let c = civil_date(days as int);
        assert(valid_date(c.0, c.1, c.2) && day_number(c.0, c.1, c.2) == days);
        lemma_day_number_injective(y as int, mo as int, d as int, c.0, c.1, c.2);
    }
    proof {
        if secs < 253_402_300_800 {
            lemma_year_below(y as int, mo as int, d as int);
            lemma_decimal_short(y as nat);
            lemma_decimal_short(mo as nat);
            lemma_decimal_short(d as nat);
            lemma_decimal_short(h as nat);
            lemma_decimal_short(mi as nat);
            lemma_decimal_short(s as nat);
        }
    }
    let mut out: Vec<char> = Vec::new();
    push_decimal_padded(&mut out, y as u128, 4);
    out.push('-');
    push_decimal_padded(&mut out, mo as u128, 2);
    out.push('-');
    push_decimal_padded(&mut out, d as u128, 2);
    out.push('T');
    push_decimal_padded(&mut out, h as u128, 2);
    out.push(':');
    push_decimal_padded(&mut out, mi as u128, 2);
    out.push(':');
    push_decimal_padded(&mut out, s as u128, 2);
    out.push('Z');
    assert(out@ =~= iso8601(secs as nat));
    string_of(&out)
}

/// The current time in whole seconds since the Unix epoch (zero if the
/// clock is before it). Nothing is claimed of the value.
#[verifier::external_body]
fn unix_time_secs() -> u64 {
    std::time::SystemTime::now().duration_since(std::time::UNIX_EPOCH).unwrap_or_default().as_secs()
}

/// Minimal RFC3339-ish UTC timestamp without pulling in a date crate.
pub fn now_iso8601() -> (r: String)
    ensures
        exists|secs: nat| secs <= u64::MAX && r@ == iso8601(secs),
{
    let secs = unix_time_secs();
    format_timestamp(secs)
}

} // verus!
