//! Calendar arithmetic and the timestamp format used throughout the library.
//!
//! Instants are carried as milliseconds since 1970-01-01T00:00:00Z. The
//! known-blobs file and the collection windows render instants in ISO-8601
//! shapes (`2030-01-01T00:00:00.000Z`, `2030-01-01T00:00:00Z`), and the
//! expiration parser accepts those shapes, a bare date-time without zone,
//! and an RFC-3339 numeric offset. Formatting and parsing are verified to
//! invert each other over the whole representable range.

use vstd::prelude::*;
use vstd::arithmetic::div_mod::{
    lemma_fundamental_div_mod, lemma_fundamental_div_mod_converse_div,
    lemma_fundamental_div_mod_converse_mod, lemma_mod_multiples_vanish,
};

verus! {

/// Milliseconds in one day.
pub const MS_PER_DAY: i64 = 86_400_000;

/// Largest instant the formatter renders: 9999-12-31T23:59:59.999Z.
pub const MAX_TS_MILLIS: i64 = 253_402_300_799_999;

pub open spec fn is_leap_year(y: int) -> bool {
    y % 4 == 0 && (y % 100 != 0 || y % 400 == 0)
}

pub open spec fn days_in_month(y: int, m: int) -> int {
    if m == 2 {
        if is_leap_year(y) {
            29
        } else {
            28
        }
    } else if m == 4 || m == 6 || m == 9 || m == 11 {
        30
    } else {
        31
    }
}

pub open spec fn valid_date(y: int, m: int, d: int) -> bool {
    &&& 0 <= y <= 9999
    &&& 1 <= m <= 12
    &&& 1 <= d <= days_in_month(y, m)
}

/// Month index in a March-first year: March is 0, February is 11.
pub open spec fn mp_of_month(m: int) -> int {
    if m > 2 {
        m - 3
    } else {
        m + 9
    }
}

pub open spec fn month_of_mp(mp: int) -> int {
    if mp < 10 {
        mp + 3
    } else {
        mp - 9
    }
}

/// First day-of-March-year of month `mp` (cumulative lengths of
/// 31,30,31,30,31,31,30,31,30,31,31 days for March..January).
pub open spec fn month_start(mp: int) -> int {
    if mp <= 0 {
        0
    } else if mp == 1 {
        31
    } else if mp == 2 {
        61
    } else if mp == 3 {
        92
    } else if mp == 4 {
        122
    } else if mp == 5 {
        153
    } else if mp == 6 {
        184
    } else if mp == 7 {
        214
    } else if mp == 8 {
        245
    } else if mp == 9 {
        275
    } else if mp == 10 {
        306
    } else {
        337
    }
}

/// One past the last day-of-March-year of month `mp`; February may reach
/// day 365 (a leap year's 366th day).
pub open spec fn month_end(mp: int) -> int {
    if mp >= 11 {
        366
    } else {
        month_start(mp + 1)
    }
}

/// Days before March-year `yoe` within a 400-year era.
pub open spec fn year_start(yoe: int) -> int {
    365 * yoe + yoe / 4 - yoe / 100
}

/// One past the last day-of-era of March-year `yoe`.
pub open spec fn year_end(yoe: int) -> int {
    if yoe >= 399 {
        146097
    } else {
        year_start(yoe + 1)
    }
}

/// The March-year within the era that contains day-of-era `doe`,
/// scanning upward from `k`.
pub open spec fn find_yoe(doe: int, k: int) -> int
    decreases 400 - k,
{
    if k >= 399 {
        399
    } else if doe < year_end(k) {
        k
    } else {
        find_yoe(doe, k + 1)
    }
}

/// The March-month that contains day-of-March-year `doy`, scanning from `k`.
pub open spec fn find_mp(doy: int, k: int) -> int
    decreases 12 - k,
{
    if k >= 11 {
        11
    } else if doy < month_end(k) {
        k
    } else {
        find_mp(doy, k + 1)
    }
}

/// Day count of 1970-01-01 from the era origin 0000-03-01.
pub const EPOCH_SHIFT_DAYS: i64 = 719_468;

pub open spec fn spec_days_from_civil(y: int, m: int, d: int) -> int {
    let yy = if m <= 2 {
        y - 1
    } else {
        y
    };
    let era = yy / 400;
    let yoe = yy % 400;
    let doy = month_start(mp_of_month(m)) + d - 1;
    let doe = year_start(yoe) + doy;
    era * 146097 + doe - 719468
}

pub open spec fn spec_civil_from_days(z: int) -> (int, int, int) {
    let zz = z + 719468;
    let era = zz / 146097;
    let doe = zz % 146097;
    let yoe = find_yoe(doe, 0);
    let doy = doe - year_start(yoe);
    let mp = find_mp(doy, 0);
    let d = doy - month_start(mp) + 1;
    let m = month_of_mp(mp);
    let y = era * 400 + yoe + if m <= 2 {
        1int
    } else {
        0int
    };
    (y, m, d)
}

/// `(k + 1) / c` steps up from `k / c` exactly on multiples of `c`.
proof fn lemma_div_step(k: int, c: int)
    requires
        c > 0,
    ensures
        (k + 1) / c == k / c + if (k + 1) % c == 0 {
            1int
        } else {
            0int
        },
        (k + 1) % c == if (k + 1) % c == 0 {
            0int
        } else {
            k % c + 1
        },
{
    lemma_fundamental_div_mod(k, c);
    lemma_fundamental_div_mod(k + 1, c);
    vstd::arithmetic::div_mod::lemma_mod_division_less_than_divisor(k, c);
    vstd::arithmetic::mul::lemma_mul_is_commutative(c, k / c);
    if k % c + 1 < c {
        assert(k + 1 == (k / c) * c + (k % c + 1));
        lemma_fundamental_div_mod_converse_div(k + 1, c, k / c, k % c + 1);
        lemma_fundamental_div_mod_converse_mod(k + 1, c, k / c, k % c + 1);
    } else {
        assert((k / c + 1) * c == (k / c) * c + c) by {
            vstd::arithmetic::mul::lemma_mul_is_distributive_add_other_way(c, k / c, 1);
        }
        assert(k + 1 == (k / c + 1) * c + 0);
        lemma_fundamental_div_mod_converse_div(k + 1, c, k / c + 1, 0);
        lemma_fundamental_div_mod_converse_mod(k + 1, c, k / c + 1, 0);
    }
}

/// Length of March-year `yoe`: 366 exactly when the February it contains
/// falls in a (proleptic Gregorian) leap year.
proof fn lemma_year_len(yoe: int)
    requires
        0 <= yoe <= 399,
    ensures
        year_end(yoe) - year_start(yoe) == 365 + if (yoe + 1) % 4 == 0 && ((yoe + 1) % 100 != 0
            || yoe == 399) {
            1int
        } else {
            0int
        },
{
    if yoe == 399 {
        assert(year_start(399) == 365 * 399 + 99 - 3) by {
            lemma_fundamental_div_mod_converse_div(399, 4, 99, 3);
            lemma_fundamental_div_mod_converse_div(399, 100, 3, 99);
        }
    } else {
        lemma_div_step(yoe, 4);
        lemma_div_step(yoe, 100);
        if (yoe + 1) % 100 == 0 {
            // a multiple of 100 is a multiple of 4
            lemma_fundamental_div_mod(yoe + 1, 100);
            assert(yoe + 1 == 100 * ((yoe + 1) / 100));
            assert((yoe + 1) % 4 == 0) by {
                lemma_fundamental_div_mod_converse_mod(
                    yoe + 1,
                    4,
                    25 * ((yoe + 1) / 100),
                    0,
                );
            }
        }
    }
}

/// `find_yoe` lands on the March-year whose day range contains `doe`.
proof fn lemma_find_yoe(doe: int, k: int)
    requires
        0 <= k <= 399,
        year_start(k) <= doe < 146097,
    ensures
        ({
            let yoe = find_yoe(doe, k);
            &&& k <= yoe <= 399
            &&& year_start(yoe) <= doe < year_end(yoe)
        }),
    decreases 400 - k,
{
    if k >= 399 {
    } else if doe < year_end(k) {
    } else {
        lemma_find_yoe(doe, k + 1);
    }
}

/// `find_mp` lands on the month whose day range contains `doy`.
proof fn lemma_find_mp(doy: int, k: int)
    requires
        0 <= k <= 11,
        month_start(k) <= doy < 366,
    ensures
        ({
            let mp = find_mp(doy, k);
            &&& k <= mp <= 11
            &&& month_start(mp) <= doy < month_end(mp)
        }),
    decreases 12 - k,
{
    if k >= 11 {
    } else if doy < month_end(k) {
    } else {
        lemma_find_mp(doy, k + 1);
    }
}

/// Splitting an instant into whole days and the rest, and reassembling the
/// date through `spec_days_from_civil`, returns the instant's day count:
/// the two calendar conversions invert each other, and the date produced
/// is a valid one.
pub proof fn lemma_days_civil_inverse(z: int)
    requires
        -719468 <= z < 2932897,
    ensures
        ({
            let (y, m, d) = spec_civil_from_days(z);
            &&& valid_date(y, m, d)
            &&& spec_days_from_civil(y, m, d) == z
        }),
{
    let zz = z + 719468;
    let era = zz / 146097;
    let doe = zz % 146097;
    lemma_fundamental_div_mod(zz, 146097);
    assert(0 <= doe < 146097) by {
        vstd::arithmetic::div_mod::lemma_mod_division_less_than_divisor(zz, 146097);
        vstd::arithmetic::div_mod::lemma_remainder_lower(zz, 146097);
    }
    assert(0 <= era <= 24) by {
        lemma_fundamental_div_mod_converse_div(zz, 146097, era, doe);
        if era < 0 {
            assert(zz == 146097 * era + doe < 0);
        }
        if era > 24 {
            assert(zz == 146097 * era + doe >= 146097 * 25);
        }
    }
    let yoe = find_yoe(doe, 0);
    lemma_find_yoe(doe, 0);
    let doy = doe - year_start(yoe);
    let mp = find_mp(doy, 0);
    lemma_year_len(yoe);
    assert(doy < 366);
    lemma_find_mp(doy, 0);
    let d = doy - month_start(mp) + 1;
    let m = month_of_mp(mp);
    let y = era * 400 + yoe + if m <= 2 {
        1int
    } else {
        0int
    };

    // the rebuilt March-calendar year is the one we started from
    let yy = if m <= 2 {
        y - 1
    } else {
        y
    };
    assert(yy == era * 400 + yoe);
    assert(yy / 400 == era && yy % 400 == yoe) by {
        lemma_fundamental_div_mod_converse_div(yy, 400, era, yoe);
        lemma_fundamental_div_mod_converse_mod(yy, 400, era, yoe);
    }
    assert(mp_of_month(m) == mp);
    assert(spec_days_from_civil(y, m, d) == z);

    // the date is valid
    assert(1 <= m <= 12);
    assert(1 <= d);
    if mp < 11 {
        assert(d <= days_in_month(y, m));
    } else {
        // February: the year length decides between 28 and 29 days
        assert(m == 2);
        assert(d <= year_end(yoe) - year_start(yoe) - 337 + 0);
        assert(is_leap_year(y) <==> ((yoe + 1) % 4 == 0 && ((yoe + 1) % 100 != 0 || yoe == 399)))
            by {
            lemma_mod_multiples_vanish(era * 100, yoe + 1, 4);
            lemma_mod_multiples_vanish(era * 4, yoe + 1, 100);
            lemma_mod_multiples_vanish(era, yoe + 1, 400);
            if yoe == 399 {
                lemma_fundamental_div_mod_converse_mod(y, 400, era + 1, 0);
            } else if (yoe + 1) % 400 == 0 {
                // impossible below 400
                lemma_fundamental_div_mod(yoe + 1, 400);
            }
        }
        assert(d <= days_in_month(y, m));
    }
    assert(0 <= y);
    if y > 9999 {
        // only era 24 could overrun, and it ends at 9999-12-31
        assert(era == 24 && yoe == 399 && m <= 2);
        assert(year_start(399) == 365 * 399 + 99 - 3) by {
            lemma_fundamental_div_mod_converse_div(399, 4, 99, 3);
            lemma_fundamental_div_mod_converse_div(399, 100, 3, 99);
        }
        assert(doe >= 145731 + 306);
        assert(zz == 146097 * 24 + doe);
        assert(false);
    }
}

/// Date of the day `days` counted from 1970-01-01.
pub fn civil_from_days(days: i64) -> (ymd: (i64, i64, i64))
    requires
        -719468 <= days < 2932897,
    ensures
        (ymd.0 as int, ymd.1 as int, ymd.2 as int) == spec_civil_from_days(days as int),
{
    let zz: u64 = (days + 719468) as u64;
    let era: u64 = zz / 146097;
    let doe: u64 = zz % 146097;
    proof {
        lemma_fundamental_div_mod(zz as int, 146097);
    }
    let mut yoe: u64 = 0;
    while yoe < 399 && doe >= year_end_exec(yoe)
        invariant
            0 <= yoe <= 399,
            doe < 146097,
            find_yoe(doe as int, 0) == find_yoe(doe as int, yoe as int),
        decreases 399 - yoe,
    {
        yoe = yoe + 1;
    }
    assert(find_yoe(doe as int, yoe as int) == yoe);
    proof {
        lemma_find_yoe(doe as int, 0);
    }
    let ys: u64 = year_start_exec(yoe);
    let doy: u64 = doe - ys;
    let mut mp: u64 = 0;
    while mp < 11 && doy >= month_end_exec(mp)
        invariant
            0 <= mp <= 11,
            doy < 366,
            find_mp(doy as int, 0) == find_mp(doy as int, mp as int),
        decreases 11 - mp,
    {
        mp = mp + 1;
    }
    assert(find_mp(doy as int, mp as int) == mp);
    proof {
        lemma_find_mp(doy as int, 0);
    }
    let d: u64 = doy - month_start_exec(mp) + 1;
    let m: i64 = if mp < 10 {
        mp as i64 + 3
    } else {
        mp as i64 - 9
    };
    let y: i64 = era as i64 * 400 + yoe as i64 + if m <= 2 {
        1
    } else {
        0
    };
    (y, m, d as i64)
}

fn year_start_exec(yoe: u64) -> (r: u64)
    requires
        yoe <= 400,
    ensures
        r == year_start(yoe as int),
        r <= 146196,
{
    365 * yoe + yoe / 4 - yoe / 100
}

fn year_end_exec(yoe: u64) -> (r: u64)
    requires
        yoe <= 399,
    ensures
        r == year_end(yoe as int),
{
    if yoe >= 399 {
        146097
    } else {
        year_start_exec(yoe + 1)
    }
}

fn month_start_exec(mp: u64) -> (r: u64)
    requires
        mp <= 11,
    ensures
        r == month_start(mp as int),
{
    if mp == 0 {
        0
    } else if mp == 1 {
        31
    } else if mp == 2 {
        61
    } else if mp == 3 {
        92
    } else if mp == 4 {
        122
    } else if mp == 5 {
        153
    } else if mp == 6 {
        184
    } else if mp == 7 {
        214
    } else if mp == 8 {
        245
    } else if mp == 9 {
        275
    } else if mp == 10 {
        306
    } else {
        337
    }
}

fn month_end_exec(mp: u64) -> (r: u64)
    requires
        mp <= 11,
    ensures
        r == month_end(mp as int),
{
    if mp >= 11 {
        366
    } else {
        month_start_exec(mp + 1)
    }
}

/// Day count from 1970-01-01 of the date `(y, m, d)`.
pub fn days_from_civil(y: i64, m: i64, d: i64) -> (z: i64)
    requires
        0 <= y <= 9999,
        1 <= m <= 12,
        1 <= d <= 31,
    ensures
        z as int == spec_days_from_civil(y as int, m as int, d as int),
        -866000 <= z <= 2933000,
{
    let yy: i64 = if m <= 2 {
        y - 1
    } else {
        y
    };
    let ys: u64 = (yy + 400) as u64;
    let era_s: u64 = ys / 400;
    let yoe: u64 = ys % 400;
    assert(era_s <= 25) by {
        lemma_fundamental_div_mod(ys as int, 400);
        vstd::arithmetic::div_mod::lemma_mod_division_less_than_divisor(ys as int, 400);
        if ys as int / 400 >= 26 {
            assert(ys as int == 400 * (ys as int / 400) + ys as int % 400 >= 400 * 26);
        }
    }
    proof {
        lemma_fundamental_div_mod(ys as int, 400);
        lemma_fundamental_div_mod(yy as int, 400);
        lemma_fundamental_div_mod_converse_div(
            ys as int,
            400,
            yy as int / 400 + 1,
            yy as int % 400,
        );
        lemma_fundamental_div_mod_converse_mod(
            ys as int,
            400,
            yy as int / 400 + 1,
            yy as int % 400,
        );
    }
    let era: i64 = era_s as i64 - 1;
    let mp: u64 = if m > 2 {
        (m - 3) as u64
    } else {
        (m + 9) as u64
    };
    let doy: u64 = month_start_exec(mp) + (d - 1) as u64;
    let doe: u64 = year_start_exec(yoe) + doy;
    era * 146097 + doe as i64 - 719468
}

// ---------------------------------------------------------------------------
// digits
// ---------------------------------------------------------------------------

pub open spec fn is_digit(c: char) -> bool {
    48 <= c as u32 <= 57
}

pub open spec fn digit_val(c: char) -> int {
    c as u32 - 48
}

pub open spec fn digit_char(v: int) -> char {
    if v == 0 {
        '0'
    } else if v == 1 {
        '1'
    } else if v == 2 {
        '2'
    } else if v == 3 {
        '3'
    } else if v == 4 {
        '4'
    } else if v == 5 {
        '5'
    } else if v == 6 {
        '6'
    } else if v == 7 {
        '7'
    } else if v == 8 {
        '8'
    } else {
        '9'
    }
}

pub open spec fn two_digits(v: int) -> Seq<char> {
    seq![digit_char(v / 10), digit_char(v % 10)]
}

pub open spec fn three_digits(v: int) -> Seq<char> {
    seq![digit_char(v / 100), digit_char((v / 10) % 10), digit_char(v % 10)]
}

pub open spec fn four_digits(v: int) -> Seq<char> {
    seq![
        digit_char(v / 1000),
        digit_char((v / 100) % 10),
        digit_char((v / 10) % 10),
        digit_char(v % 10),
    ]
}

/// A rendered digit reads back as its value.
proof fn lemma_digit_char_val(v: int)
    requires
        0 <= v <= 9,
    ensures
        is_digit(digit_char(v)),
        digit_val(digit_char(v)) == v,
{
}

pub fn digit_str(d: u64) -> (r: &'static str)
    requires
        d <= 9,
    ensures
        r@ =~= seq![digit_char(d as int)],
{
    proof {
        reveal_strlit("0");
        reveal_strlit("1");
        reveal_strlit("2");
        reveal_strlit("3");
        reveal_strlit("4");
        reveal_strlit("5");
        reveal_strlit("6");
        reveal_strlit("7");
        reveal_strlit("8");
        reveal_strlit("9");
    }
    if d == 0 {
        "0"
    } else if d == 1 {
        "1"
    } else if d == 2 {
        "2"
    } else if d == 3 {
        "3"
    } else if d == 4 {
        "4"
    } else if d == 5 {
        "5"
    } else if d == 6 {
        "6"
    } else if d == 7 {
        "7"
    } else if d == 8 {
        "8"
    } else {
        "9"
    }
}

fn push_two_digits(out: &mut String, v: u64)
    requires
        v <= 99,
    ensures
        final(out)@ =~= old(out)@ + two_digits(v as int),
{
    out.append(digit_str(v / 10));
    out.append(digit_str(v % 10));
}

fn push_three_digits(out: &mut String, v: u64)
    requires
        v <= 999,
    ensures
        final(out)@ =~= old(out)@ + three_digits(v as int),
{
    out.append(digit_str(v / 100));
    out.append(digit_str((v / 10) % 10));
    out.append(digit_str(v % 10));
}

fn push_four_digits(out: &mut String, v: u64)
    requires
        v <= 9999,
    ensures
        final(out)@ =~= old(out)@ + four_digits(v as int),
{
    out.append(digit_str(v / 1000));
    out.append(digit_str((v / 100) % 10));
    out.append(digit_str((v / 10) % 10));
    out.append(digit_str(v % 10));
}

// ---------------------------------------------------------------------------
// formatting
// ---------------------------------------------------------------------------

/// The calendar fields of the instant `t`, milliseconds since the epoch:
/// year, month, day, hour, minute, second, millisecond.
#[verifier::opaque]
pub open spec fn ts_fields(t: int) -> (int, int, int, int, int, int, int) {
    let days = t / 86400000;
    let msod = t % 86400000;
    let (y, m, d) = spec_civil_from_days(days);
    (y, m, d, msod / 3600000, (msod / 60000) % 60, (msod / 1000) % 60, msod % 1000)
}

/// `YYYY-MM-DDTHH:MM:SS.mmmZ`, the shape the known-blobs file stores.
pub open spec fn spec_format_millis(t: int) -> Seq<char> {
    let (y, m, d, h, mi, se, ms) = ts_fields(t);
    four_digits(y) + seq!['-'] + two_digits(m) + seq!['-'] + two_digits(d) + seq!['T'] + two_digits(
        h,
    ) + seq![':'] + two_digits(mi) + seq![':'] + two_digits(se) + seq!['.'] + three_digits(ms)
        + seq!['Z']
}

/// `YYYY-MM-DDTHH:MM:SSZ`, the shape collection-window endpoints use.
pub open spec fn spec_format_secs(t: int) -> Seq<char> {
    let (y, m, d, h, mi, se, ms) = ts_fields(t);
    four_digits(y) + seq!['-'] + two_digits(m) + seq!['-'] + two_digits(d) + seq!['T'] + two_digits(
        h,
    ) + seq![':'] + two_digits(mi) + seq![':'] + two_digits(se) + seq!['Z']
}

/// `YYYYMMDDHHMMSS`, the shape file-name postfixes use.
pub open spec fn spec_format_compact(t: int) -> Seq<char> {
    let (y, m, d, h, mi, se, ms) = ts_fields(t);
    four_digits(y) + two_digits(m) + two_digits(d) + two_digits(h) + two_digits(mi) + two_digits(se)
}

/// Bounds on every calendar field of an instant in the formatter's range.
proof fn lemma_ts_fields_bounds(t: int)
    requires
        0 <= t <= MAX_TS_MILLIS,
    ensures
        ({
            let (y, m, d, h, mi, se, ms) = ts_fields(t);
            &&& valid_date(y, m, d)
            &&& 0 <= h <= 23
            &&& 0 <= mi <= 59
            &&& 0 <= se <= 59
            &&& 0 <= ms <= 999
            &&& 0 <= t / 86400000 <= 2932896
            &&& spec_days_from_civil(y, m, d) == t / 86400000
        }),
{
    reveal(ts_fields);
    let days = t / 86400000;
    let msod = t % 86400000;
    lemma_fundamental_div_mod(t, 86400000);
    vstd::arithmetic::div_mod::lemma_mod_division_less_than_divisor(t, 86400000);
    assert(0 <= days <= 2932896) by {
        lemma_fundamental_div_mod_converse_div(t, 86400000, days, msod);
        if days < 0 {
            assert(t == 86400000 * days + msod < 0);
        }
        if days > 2932896 {
            assert(t == 86400000 * days + msod >= 86400000 * 2932897);
        }
    }
    lemma_days_civil_inverse(days);
    vstd::arithmetic::div_mod::lemma_mod_division_less_than_divisor(msod, 60);
    assert(msod / 3600000 <= 23) by {
        if msod / 3600000 > 23 {
            lemma_fundamental_div_mod(msod, 3600000);
            vstd::arithmetic::div_mod::lemma_mod_division_less_than_divisor(msod, 3600000);
            assert(msod == 3600000 * (msod / 3600000) + msod % 3600000 >= 3600000 * 24);
        }
    }
    assert(0 <= msod / 3600000) by {
        vstd::arithmetic::div_mod::lemma_div_pos_is_pos(msod, 3600000);
    }
    vstd::arithmetic::div_mod::lemma_mod_division_less_than_divisor(msod / 60000, 60);
    vstd::arithmetic::div_mod::lemma_mod_division_less_than_divisor(msod / 1000, 60);
    vstd::arithmetic::div_mod::lemma_mod_division_less_than_divisor(msod, 1000);
}

/// Renders `t` as `YYYY-MM-DDTHH:MM:SS.mmmZ`.
pub fn format_timestamp_millis(t: i64) -> (r: String)
    requires
        0 <= t <= MAX_TS_MILLIS,
    ensures
        r@ =~= spec_format_millis(t as int),
{
    proof {
        reveal(ts_fields);
        lemma_ts_fields_bounds(t as int);
        reveal_strlit("-");
        reveal_strlit("T");
        reveal_strlit(":");
        reveal_strlit(".");
        reveal_strlit("Z");
    }
    let tu: u64 = t as u64;
    let days: u64 = tu / 86400000;
    let msod: u64 = tu % 86400000;
    let (y, m, d) = civil_from_days(days as i64);
    let mut out = String::new();
    push_four_digits(&mut out, y as u64);
    out.append("-");
    push_two_digits(&mut out, m as u64);
    out.append("-");
    push_two_digits(&mut out, d as u64);
    out.append("T");
    push_two_digits(&mut out, msod / 3600000);
    out.append(":");
    push_two_digits(&mut out, (msod / 60000) % 60);
    out.append(":");
    push_two_digits(&mut out, (msod / 1000) % 60);
    out.append(".");
    push_three_digits(&mut out, msod % 1000);
    out.append("Z");
    out
}

/// Renders `t` as `YYYY-MM-DDTHH:MM:SSZ`.
pub fn format_timestamp_secs(t: i64) -> (r: String)
    requires
        0 <= t <= MAX_TS_MILLIS,
    ensures
        r@ =~= spec_format_secs(t as int),
{
    proof {
        reveal(ts_fields);
        lemma_ts_fields_bounds(t as int);
        reveal_strlit("-");
        reveal_strlit("T");
        reveal_strlit(":");
        reveal_strlit("Z");
    }
    let tu: u64 = t as u64;
    let days: u64 = tu / 86400000;
    let msod: u64 = tu % 86400000;
    let (y, m, d) = civil_from_days(days as i64);
    let mut out = String::new();
    push_four_digits(&mut out, y as u64);
    out.append("-");
    push_two_digits(&mut out, m as u64);
    out.append("-");
    push_two_digits(&mut out, d as u64);
    out.append("T");
    push_two_digits(&mut out, msod / 3600000);
    out.append(":");
    push_two_digits(&mut out, (msod / 60000) % 60);
    out.append(":");
    push_two_digits(&mut out, (msod / 1000) % 60);
    out.append("Z");
    out
}

// ---------------------------------------------------------------------------
// parsing
// ---------------------------------------------------------------------------

pub open spec fn digits_at(s: Seq<char>, i: int, n: int) -> bool {
    forall|j: int| i <= j < i + n ==> is_digit(#[trigger] s[j])
}

pub open spec fn num2(s: Seq<char>, i: int) -> int {
    digit_val(s[i]) * 10 + digit_val(s[i + 1])
}

pub open spec fn num4(s: Seq<char>, i: int) -> int {
    digit_val(s[i]) * 1000 + digit_val(s[i + 1]) * 100 + digit_val(s[i + 2]) * 10 + digit_val(
        s[i + 3],
    )
}

/// Length of the run of digits in `s` starting at `i`.
pub open spec fn digit_run(s: Seq<char>, i: int) -> int
    decreases s.len() - i when 0 <= i <= s.len()
{
    if i < s.len() && is_digit(s[i]) {
        1 + digit_run(s, i + 1)
    } else {
        0
    }
}

/// The first fractional digits read as milliseconds, truncating past the
/// third digit and padding short fractions with zeros.
pub open spec fn frac_millis(s: Seq<char>, i: int, k: int) -> int {
    if k == 1 {
        digit_val(s[i]) * 100
    } else if k == 2 {
        digit_val(s[i]) * 100 + digit_val(s[i + 1]) * 10
    } else {
        digit_val(s[i]) * 100 + digit_val(s[i + 1]) * 10 + digit_val(s[i + 2])
    }
}

/// A non-empty zone designator: `Z` or a numeric offset `+HH:MM` / `-HH:MM`.
/// The result is the offset east of UTC in minutes.
pub open spec fn spec_parse_zone(z: Seq<char>) -> Option<int> {
    if z.len() == 1 && z[0] == 'Z' {
        Some(0int)
    } else if z.len() == 6 && (z[0] == '+' || z[0] == '-') && digits_at(z, 1, 2) && z[3] == ':'
        && digits_at(z, 4, 2) && num2(z, 1) <= 23 && num2(z, 4) <= 59 {
        if z[0] == '+' {
            Some(num2(z, 1) * 60 + num2(z, 4))
        } else {
            Some(-(num2(z, 1) * 60 + num2(z, 4)))
        }
    } else {
        None
    }
}

/// What may follow the nineteen-character date-time head: nothing, a zone,
/// or a fraction of one to nine digits that must be followed by a zone.
/// The result is the fraction in milliseconds and the offset in minutes.
pub open spec fn spec_parse_tail(t: Seq<char>) -> Option<(int, int)> {
    if t.len() == 0 {
        Some((0int, 0int))
    } else if t[0] == '.' {
        let k = digit_run(t, 1);
        if 1 <= k <= 9 {
            match spec_parse_zone(t.subrange(1 + k, t.len() as int)) {
                Some(off) => Some((frac_millis(t, 1, k), off)),
                None => None,
            }
        } else {
            None
        }
    } else {
        match spec_parse_zone(t) {
            Some(off) => Some((0int, off)),
            None => None,
        }
    }
}

/// The date-time head has digits and separators in their places.
pub open spec fn head_struct_ok(s: Seq<char>) -> bool {
    &&& digits_at(s, 0, 4)
    &&& s[4] == '-'
    &&& digits_at(s, 5, 2)
    &&& s[7] == '-'
    &&& digits_at(s, 8, 2)
    &&& s[10] == 'T'
    &&& digits_at(s, 11, 2)
    &&& s[13] == ':'
    &&& digits_at(s, 14, 2)
    &&& s[16] == ':'
    &&& digits_at(s, 17, 2)
}

/// The fields the head carries are a real date and time of day.
pub open spec fn head_values_ok(s: Seq<char>) -> bool {
    &&& valid_date(num4(s, 0), num2(s, 5), num2(s, 8))
    &&& num2(s, 11) <= 23
    &&& num2(s, 14) <= 59
    &&& num2(s, 17) <= 59
}

/// The instant a parsed timestamp denotes, in milliseconds since the epoch.
pub open spec fn ts_value(s: Seq<char>, fms: int, off: int) -> int {
    (spec_days_from_civil(num4(s, 0), num2(s, 5), num2(s, 8)) * 86400 + num2(s, 11) * 3600 + num2(
        s,
        14,
    ) * 60 + num2(s, 17)) * 1000 + fms - off * 60000
}

/// The timestamp grammar: `YYYY-MM-DDTHH:MM:SS`, then an optional fraction
/// and zone as `spec_parse_tail` says. Yields milliseconds since the epoch.
#[verifier::opaque]
pub open spec fn spec_parse_ts(s: Seq<char>) -> Option<int> {
    if s.len() >= 19 && head_struct_ok(s) && head_values_ok(s) {
        match spec_parse_tail(s.subrange(19, s.len() as int)) {
            Some(fo) => Some(ts_value(s, fo.0, fo.1)),
            None => None,
        }
    } else {
        None
    }
}

/// A timestamp parses to the value its fields denote.
proof fn lemma_parse_ts_some(s: Seq<char>, fms: int, off: int, t: int)
    requires
        s.len() >= 19,
        head_struct_ok(s),
        head_values_ok(s),
        spec_parse_tail(s.subrange(19, s.len() as int)) == Some((fms, off)),
        t == ts_value(s, fms, off),
    ensures
        spec_parse_ts(s) == Some(t),
{
    reveal(spec_parse_ts);
}

/// A string without a well-formed in-range head does not parse.
proof fn lemma_parse_ts_none_head(s: Seq<char>)
    requires
        s.len() < 19 || !(head_struct_ok(s) && head_values_ok(s)),
    ensures
        spec_parse_ts(s) is None,
{
    reveal(spec_parse_ts);
}

/// A string whose tail does not parse does not parse.
proof fn lemma_parse_ts_none_tail(s: Seq<char>)
    requires
        s.len() >= 19,
        spec_parse_tail(s.subrange(19, s.len() as int)) is None,
    ensures
        spec_parse_ts(s) is None,
{
    reveal(spec_parse_ts);
}

pub open spec fn is_space(c: char) -> bool {
    c == ' ' || c == '\t' || c == '\r' || c == '\n'
}

/// `s` with leading and trailing whitespace removed.
pub open spec fn trim_spec(s: Seq<char>) -> Seq<char>
    decreases s.len(),
{
    if s.len() > 0 && is_space(s[0]) {
        trim_spec(s.drop_first())
    } else if s.len() > 0 && is_space(s.last()) {
        trim_spec(s.drop_last())
    } else {
        s
    }
}

/// What the expiration parser accepts: the timestamp grammar applied to the
/// trimmed input.
pub open spec fn spec_parse_expiration(s: Seq<char>) -> Option<int> {
    spec_parse_ts(trim_spec(s))
}

/// A window free of whitespace at both ends is what trimming leaves.
pub proof fn lemma_trim_window(s: Seq<char>, lo: int, hi: int)
    requires
        0 <= lo <= hi <= s.len(),
        forall|j: int| 0 <= j < lo ==> is_space(#[trigger] s[j]),
        forall|j: int| hi <= j < s.len() ==> is_space(#[trigger] s[j]),
        lo < hi ==> !is_space(s[lo]) && !is_space(s[hi - 1]),
    ensures
        trim_spec(s) =~= s.subrange(lo, hi),
    decreases s.len(),
{
    if s.len() > 0 && is_space(s[0]) {
        assert(lo >= 1 || lo == hi) by {
            if lo == 0 && lo < hi {
                assert(!is_space(s[0]));
            }
        }
        if lo == hi {
            if lo == 0 {
                // the whole string is whitespace
                lemma_trim_window(s.drop_first(), 0, 0);
            } else {
                lemma_trim_window(s.drop_first(), lo - 1, hi - 1);
            }
        } else {
            lemma_trim_window(s.drop_first(), lo - 1, hi - 1);
        }
    } else if s.len() > 0 && is_space(s.last()) {
        assert(hi < s.len() || lo == hi) by {
            if hi == s.len() && lo < hi {
                assert(!is_space(s[hi - 1]));
            }
        }
        if lo == hi && hi == s.len() {
            lemma_trim_window(s.drop_last(), lo - 1, hi - 1);
        } else {
            lemma_trim_window(s.drop_last(), lo, hi);
        }
    } else {
    }
}

pub fn is_space_exec(c: char) -> (r: bool)
    ensures
        r == is_space(c),
{
    c == ' ' || c == '\t' || c == '\r' || c == '\n'
}

/// The characters of `s`, in order.
pub fn to_char_vec(s: &str) -> (v: Vec<char>)
    ensures
        v@ =~= s@,
{
    let n = s.unicode_len();
    let mut v: Vec<char> = Vec::new();
    let mut i: usize = 0;
    while i < n
        invariant
            i <= n,
            n == s@.len(),
            v@ =~= s@.subrange(0, i as int),
        decreases n - i,
    {
        v.push(s.get_char(i));
        i = i + 1;
    }
    v
}

fn digit_at(v: &Vec<char>, i: usize) -> (r: bool)
    requires
        i < v@.len(),
    ensures
        r == is_digit(v@[i as int]),
{
    let c = v[i];
    let u = c as u32;
    48 <= u && u <= 57
}

fn digit_value(v: &Vec<char>, i: usize) -> (r: u32)
    requires
        i < v@.len(),
        is_digit(v@[i as int]),
    ensures
        r == digit_val(v@[i as int]),
        r <= 9,
{
    v[i] as u32 - 48
}

fn num2_exec(v: &Vec<char>, i: usize) -> (r: u32)
    requires
        i < usize::MAX,
        i + 1 < v@.len(),
        is_digit(v@[i as int]),
        is_digit(v@[i as int + 1]),
    ensures
        r == num2(v@, i as int),
        r <= 99,
{
    digit_value(v, i) * 10 + digit_value(v, i + 1)
}

fn char_eq(v: &Vec<char>, i: usize, c: char) -> (r: bool)
    requires
        i < v@.len(),
    ensures
        r == (v@[i as int] == c),
{
    v[i] == c
}

fn days_in_month_exec(y: i64, m: i64) -> (r: i64)
    requires
        0 <= y <= 9999,
        1 <= m <= 12,
    ensures
        r == days_in_month(y as int, m as int),
{
    if m == 2 {
        if (y % 4 == 0 && y % 100 != 0) || y % 400 == 0 {
            29
        } else {
            28
        }
    } else if m == 4 || m == 6 || m == 9 || m == 11 {
        30
    } else {
        31
    }
}

/// Parses a non-empty zone designator spanning `[i, hi)` of `v`.
fn parse_zone_exec(v: &Vec<char>, i: usize, hi: usize) -> (r: Option<i64>)
    requires
        i < hi <= v@.len(),
    ensures
        ({
            let zr = spec_parse_zone(v@.subrange(i as int, hi as int));
            match r {
                Some(off) => zr == Some(off as int),
                None => zr is None,
            }
        }),
{
    let ghost z = v@.subrange(i as int, hi as int);
    if hi - i == 1 && char_eq(v, i, 'Z') {
        Some(0)
    } else if hi - i == 6 && (char_eq(v, i, '+') || char_eq(v, i, '-')) && digit_at(v, i + 1)
        && digit_at(v, i + 2) && char_eq(v, i + 3, ':') && digit_at(v, i + 4) && digit_at(
        v,
        i + 5,
    ) {
        let hh = num2_exec(v, i + 1);
        let mm = num2_exec(v, i + 4);
        assert(num2(z, 1) == hh && num2(z, 4) == mm);
        if hh <= 23 && mm <= 59 {
            let total: i64 = (hh as i64) * 60 + mm as i64;
            if char_eq(v, i, '+') {
                Some(total)
            } else {
                Some(-total)
            }
        } else {
            None
        }
    } else {
        assert(spec_parse_zone(z) is None);
        None
    }
}

/// Checks the nineteen-character date-time head of the window `[lo, hi)`
/// and yields its fields when they are structurally present and in range.
fn parse_head_exec(v: &Vec<char>, lo: usize, hi: usize) -> (r: Option<(i64, i64, i64, i64, i64, i64)>)
    requires
        lo <= hi <= v@.len(),
        hi - lo >= 19,
    ensures
        ({
            let s = v@.subrange(lo as int, hi as int);
            match r {
                Some(f) => {
                    &&& head_struct_ok(s) && head_values_ok(s)
                    &&& f.0 == num4(s, 0) && f.1 == num2(s, 5) && f.2 == num2(s, 8)
                    &&& f.3 == num2(s, 11) && f.4 == num2(s, 14) && f.5 == num2(s, 17)
                    &&& valid_date(f.0 as int, f.1 as int, f.2 as int)
                    &&& f.3 <= 23 && f.4 <= 59 && f.5 <= 59
                },
                None => !(head_struct_ok(s) && head_values_ok(s)),
            }
        }),
{
    let ghost s = v@.subrange(lo as int, hi as int);
    assert(forall|j: int| 0 <= j < 19 ==> s[j] == v@[lo + j]);
    let head_ok = digit_at(v, lo) && digit_at(v, lo + 1) && digit_at(v, lo + 2) && digit_at(
        v,
        lo + 3,
    ) && char_eq(v, lo + 4, '-') && digit_at(v, lo + 5) && digit_at(v, lo + 6) && char_eq(
        v,
        lo + 7,
        '-',
    ) && digit_at(v, lo + 8) && digit_at(v, lo + 9) && char_eq(v, lo + 10, 'T') && digit_at(
        v,
        lo + 11,
    ) && digit_at(v, lo + 12) && char_eq(v, lo + 13, ':') && digit_at(v, lo + 14) && digit_at(
        v,
        lo + 15,
    ) && char_eq(v, lo + 16, ':') && digit_at(v, lo + 17) && digit_at(v, lo + 18);
    if !head_ok {
        assert(!head_struct_ok(s)) by {
            if digits_at(s, 0, 4) && digits_at(s, 5, 2) && digits_at(s, 8, 2) && digits_at(
                s,
                11,
                2,
            ) && digits_at(s, 14, 2) && digits_at(s, 17, 2) {
                assert(is_digit(s[0]) && is_digit(s[1]) && is_digit(s[2]) && is_digit(s[3]));
                assert(is_digit(s[5]) && is_digit(s[6]));
                assert(is_digit(s[8]) && is_digit(s[9]));
                assert(is_digit(s[11]) && is_digit(s[12]));
                assert(is_digit(s[14]) && is_digit(s[15]));
                assert(is_digit(s[17]) && is_digit(s[18]));
            }
        }
        return None;
    }
    assert(digits_at(s, 0, 4) && digits_at(s, 5, 2) && digits_at(s, 8, 2) && digits_at(s, 11, 2)
        && digits_at(s, 14, 2) && digits_at(s, 17, 2));
    let y: i64 = (digit_value(v, lo) * 1000 + digit_value(v, lo + 1) * 100 + digit_value(v, lo + 2)
        * 10 + digit_value(v, lo + 3)) as i64;
    let mo: i64 = num2_exec(v, lo + 5) as i64;
    let da: i64 = num2_exec(v, lo + 8) as i64;
    let h: i64 = num2_exec(v, lo + 11) as i64;
    let mi: i64 = num2_exec(v, lo + 14) as i64;
    let se: i64 = num2_exec(v, lo + 17) as i64;
    assert(y == num4(s, 0) && mo == num2(s, 5) && da == num2(s, 8) && h == num2(s, 11) && mi
        == num2(s, 14) && se == num2(s, 17));
    if !(1 <= mo && mo <= 12) || !(1 <= da) || da > days_in_month_exec(y, mo) || h > 23 || mi > 59
        || se > 59 {
        return None;
    }
    Some((y, mo, da, h, mi, se))
}

/// Parses the fraction-and-zone tail spanning `[start, hi)` of `v`.
fn parse_tail_exec(v: &Vec<char>, start: usize, hi: usize) -> (r: Option<(i64, i64)>)
    requires
        start <= hi <= v@.len(),
    ensures
        ({
            let tr = spec_parse_tail(v@.subrange(start as int, hi as int));
            match r {
                Some(fo) => tr == Some((fo.0 as int, fo.1 as int)),
                None => tr is None,
            }
        }),
{
    let ghost tail = v@.subrange(start as int, hi as int);
    assert(forall|j: int| 0 <= j < tail.len() ==> tail[j] == v@[start + j]);
    if hi == start {
        return Some((0, 0));
    }
    if char_eq(v, start, '.') {
        let mut j: usize = start + 1;
        while j < hi && digit_at(v, j)
            invariant
                start + 1 <= j <= hi,
                hi <= v@.len(),
                forall|q: int| start + 1 <= q < j ==> is_digit(#[trigger] v@[q]),
            decreases hi - j,
        {
            j = j + 1;
        }
        let k = j - (start + 1);
        assert(digit_run(tail, 1) == k) by {
            lemma_digit_run_window(tail, 1, k as int + 1);
        }
        if k < 1 || k > 9 {
            return None;
        }
        if j >= hi {
            assert(spec_parse_tail(tail) is None);
            return None;
        }
        assert(tail.subrange(1 + k as int, tail.len() as int) =~= v@.subrange(
            j as int,
            hi as int,
        ));
        match parse_zone_exec(v, j, hi) {
            Some(o) => {
                let mut fms: i64 = digit_value(v, start + 1) as i64 * 100;
                if k >= 2 {
                    fms = fms + digit_value(v, start + 2) as i64 * 10;
                }
                if k >= 3 {
                    fms = fms + digit_value(v, start + 3) as i64;
                }
                assert(fms == frac_millis(tail, 1, k as int));
                Some((fms, o))
            },
            None => None,
        }
    } else {
        assert(tail =~= v@.subrange(start as int, hi as int));
        match parse_zone_exec(v, start, hi) {
            Some(o) => Some((0, o)),
            None => None,
        }
    }
}

/// Parses the timestamp grammar over the window `[lo, hi)` of `v`.
#[verifier::rlimit(100)]
pub fn parse_ts_window(v: &Vec<char>, lo: usize, hi: usize) -> (r: Option<i64>)
    requires
        lo <= hi <= v@.len(),
    ensures
        ({
            let pr = spec_parse_ts(v@.subrange(lo as int, hi as int));
            match r {
                Some(t) => pr == Some(t as int),
                None => pr is None,
            }
        }),
{
    let ghost s = v@.subrange(lo as int, hi as int);
    if hi - lo < 19 {
        proof {
            lemma_parse_ts_none_head(s);
        }
        return None;
    }
    let head = parse_head_exec(v, lo, hi);
    match head {
        None => {
            proof {
                lemma_parse_ts_none_head(s);
            }
            None
        },
        Some((y, mo, da, h, mi, se)) => {
            let ghost tail = s.subrange(19, s.len() as int);
            assert(tail =~= v@.subrange(lo as int + 19, hi as int));
            match parse_tail_exec(v, lo + 19, hi) {
                None => {
                    proof {
                        lemma_parse_ts_none_tail(s);
                    }
                    None
                },
                Some((fms, off)) => {
                    let days: i64 = days_from_civil(y, mo, da);
                    assert(0 <= fms <= 999 && -1439 <= off <= 1439) by {
                        lemma_parse_tail_bounds(tail);
                    }
                    let t: i64 = (days * 86400 + h * 3600 + mi * 60 + se) * 1000 + fms - off
                        * 60000;
                    proof {
                        lemma_parse_ts_some(s, fms as int, off as int, t as int);
                    }
                    Some(t)
                },
            }
        },
    }
}

/// A tail that parses carries a fraction under a second and an offset
/// under a day.
proof fn lemma_parse_tail_bounds(t: Seq<char>)
    requires
        spec_parse_tail(t) is Some,
    ensures
        ({
            let (fms, off) = spec_parse_tail(t)->Some_0;
            0 <= fms <= 999 && -1439 <= off <= 1439
        }),
{
    let (fms, off) = spec_parse_tail(t)->Some_0;
    if t.len() == 0 {
    } else if t[0] == '.' {
        let k = digit_run(t, 1);
        let z = t.subrange(1 + k, t.len() as int);
        lemma_zone_bounds(z);
        lemma_digit_run_digits(t, 1);
        lemma_frac_bounds(t, 1, k);
    } else {
        lemma_zone_bounds(t);
    }
}

proof fn lemma_zone_bounds(z: Seq<char>)
    requires
        spec_parse_zone(z) is Some,
    ensures
        -1439 <= spec_parse_zone(z)->Some_0 <= 1439,
{
}

proof fn lemma_frac_bounds(s: Seq<char>, i: int, k: int)
    requires
        1 <= k,
        0 <= i,
        i + k <= s.len(),
        forall|j: int| i <= j < i + k ==> is_digit(#[trigger] s[j]),
    ensures
        0 <= frac_millis(s, i, k) <= 999,
{
}

/// A digit run stays inside the string and is made of digits.
proof fn lemma_digit_run_digits(s: Seq<char>, i: int)
    requires
        0 <= i <= s.len(),
    ensures
        i + digit_run(s, i) <= s.len(),
        forall|j: int| i <= j < i + digit_run(s, i) ==> is_digit(#[trigger] s[j]),
    decreases s.len() - i,
{
    if i < s.len() && is_digit(s[i]) {
        lemma_digit_run_digits(s, i + 1);
    }
}

/// Run length of digits seen by a scan that stopped at the first non-digit.
proof fn lemma_digit_run_window(s: Seq<char>, i: int, stop: int)
    requires
        0 <= i <= stop <= s.len(),
        forall|q: int| i <= q < stop ==> is_digit(#[trigger] s[q]),
        stop < s.len() ==> !is_digit(s[stop]),
    ensures
        digit_run(s, i) == stop - i,
    decreases stop - i,
{
    if i < stop {
        lemma_digit_run_window(s, i + 1, stop);
    }
}

/// Parses an expiration string: the timestamp grammar after trimming.
/// Returns milliseconds since the epoch.
pub fn parse_expiration(s: &str) -> (r: Option<i64>)
    ensures
        ({
            let pr = spec_parse_expiration(s@);
            match r {
                Some(t) => pr == Some(t as int),
                None => pr is None,
            }
        }),
{
    let v = to_char_vec(s);
    let n = v.len();
    let mut lo: usize = 0;
    while lo < n && is_space_exec(v[lo])
        invariant
            lo <= n,
            n == v@.len(),
            forall|j: int| 0 <= j < lo ==> is_space(#[trigger] v@[j]),
        decreases n - lo,
    {
        lo = lo + 1;
    }
    let mut hi: usize = n;
    while hi > lo && is_space_exec(v[hi - 1])
        invariant
            lo <= hi <= n,
            n == v@.len(),
            forall|j: int| hi <= j < n ==> is_space(#[trigger] v@[j]),
        decreases hi,
    {
        hi = hi - 1;
    }
    proof {
        lemma_trim_window(v@, lo as int, hi as int);
    }
    parse_ts_window(&v, lo, hi)
}

// ---------------------------------------------------------------------------
// the formatter and the parser invert each other
// ---------------------------------------------------------------------------

proof fn lemma_dec2(x: int)
    requires
        0 <= x < 100,
    ensures
        x == (x / 10) * 10 + x % 10,
        0 <= x / 10 <= 9,
        0 <= x % 10 <= 9,
{
    lemma_fundamental_div_mod(x, 10);
    vstd::arithmetic::div_mod::lemma_mod_division_less_than_divisor(x, 10);
    vstd::arithmetic::div_mod::lemma_div_pos_is_pos(x, 10);
    if x / 10 >= 10 {
        assert(x == 10 * (x / 10) + x % 10 >= 100);
    }
}

proof fn lemma_dec3(x: int)
    requires
        0 <= x < 1000,
    ensures
        x == (x / 100) * 100 + ((x / 10) % 10) * 10 + x % 10,
        0 <= x / 100 <= 9,
        0 <= (x / 10) % 10 <= 9,
        0 <= x % 10 <= 9,
{
    lemma_fundamental_div_mod(x, 10);
    vstd::arithmetic::div_mod::lemma_mod_division_less_than_divisor(x, 10);
    let x1 = x / 10;
    vstd::arithmetic::div_mod::lemma_div_pos_is_pos(x, 10);
    if x1 >= 100 {
        assert(x == 10 * x1 + x % 10 >= 1000);
    }
    lemma_dec2(x1);
    assert(x1 / 10 == x / 100) by {
        vstd::arithmetic::div_mod::lemma_div_denominator(x, 10, 10);
    }
}

proof fn lemma_dec4(x: int)
    requires
        0 <= x < 10000,
    ensures
        x == (x / 1000) * 1000 + ((x / 100) % 10) * 100 + ((x / 10) % 10) * 10 + x % 10,
        0 <= x / 1000 <= 9,
        0 <= (x / 100) % 10 <= 9,
        0 <= (x / 10) % 10 <= 9,
        0 <= x % 10 <= 9,
{
    lemma_fundamental_div_mod(x, 10);
    vstd::arithmetic::div_mod::lemma_mod_division_less_than_divisor(x, 10);
    let x1 = x / 10;
    vstd::arithmetic::div_mod::lemma_div_pos_is_pos(x, 10);
    if x1 >= 1000 {
        assert(x == 10 * x1 + x % 10 >= 10000);
    }
    lemma_dec3(x1);
    assert(x1 / 10 == x / 100) by {
        vstd::arithmetic::div_mod::lemma_div_denominator(x, 10, 10);
    }
    assert(x1 / 100 == x / 1000) by {
        vstd::arithmetic::div_mod::lemma_div_denominator(x, 10, 100);
    }
}

/// Reading back two rendered digits gives the value.
proof fn lemma_two_digits_value(x: int)
    requires
        0 <= x < 100,
    ensures
        two_digits(x).len() == 2,
        is_digit(two_digits(x)[0]) && is_digit(two_digits(x)[1]),
        digit_val(two_digits(x)[0]) * 10 + digit_val(two_digits(x)[1]) == x,
{
    lemma_dec2(x);
    lemma_digit_char_val(x / 10);
    lemma_digit_char_val(x % 10);
}

/// The millisecond fields of an in-range instant recombine into it.
proof fn lemma_msod_decomp(msod: int)
    requires
        0 <= msod < 86400000,
    ensures
        msod == (msod / 3600000) * 3600000 + ((msod / 60000) % 60) * 60000 + ((msod / 1000) % 60)
            * 1000 + msod % 1000,
{
    lemma_fundamental_div_mod(msod, 1000);
    vstd::arithmetic::div_mod::lemma_mod_division_less_than_divisor(msod, 1000);
    let a = msod / 1000;
    lemma_fundamental_div_mod(a, 60);
    vstd::arithmetic::div_mod::lemma_mod_division_less_than_divisor(a, 60);
    let b = a / 60;
    lemma_fundamental_div_mod(b, 60);
    vstd::arithmetic::div_mod::lemma_mod_division_less_than_divisor(b, 60);
    assert(a / 60 == msod / 60000) by {
        vstd::arithmetic::div_mod::lemma_div_denominator(msod, 1000, 60);
    }
    assert(b / 60 == msod / 3600000) by {
        vstd::arithmetic::div_mod::lemma_div_denominator(msod, 60000, 60);
    }
    assert(b % 60 == (msod / 60000) % 60);
    assert(msod == 1000 * (60 * (60 * (b / 60) + b % 60) + a % 60) + msod % 1000);
}

/// The rendered characters of `spec_format_millis`, one by one.
proof fn lemma_format_millis_chars(t: int)
    requires
        0 <= t <= MAX_TS_MILLIS,
    ensures
        ({
            let (y, m, d, h, mi, se, ms) = ts_fields(t);
            spec_format_millis(t) =~= seq![
                digit_char(y / 1000),
                digit_char((y / 100) % 10),
                digit_char((y / 10) % 10),
                digit_char(y % 10),
                '-',
                digit_char(m / 10),
                digit_char(m % 10),
                '-',
                digit_char(d / 10),
                digit_char(d % 10),
                'T',
                digit_char(h / 10),
                digit_char(h % 10),
                ':',
                digit_char(mi / 10),
                digit_char(mi % 10),
                ':',
                digit_char(se / 10),
                digit_char(se % 10),
                '.',
                digit_char(ms / 100),
                digit_char((ms / 10) % 10),
                digit_char(ms % 10),
                'Z',
            ]
        }),
{
}

/// The rendered head reads back as the instant's calendar fields.
proof fn lemma_format_head_values(t: int)
    requires
        0 <= t <= MAX_TS_MILLIS,
    ensures
        ({
            let s = spec_format_millis(t);
            let (y, m, d, h, mi, se, ms) = ts_fields(t);
            &&& s.len() == 24
            &&& head_struct_ok(s)
            &&& head_values_ok(s)
            &&& num4(s, 0) == y && num2(s, 5) == m && num2(s, 8) == d
            &&& num2(s, 11) == h && num2(s, 14) == mi && num2(s, 17) == se
        }),
{
    let s = spec_format_millis(t);
    let (y, m, d, h, mi, se, ms) = ts_fields(t);
    lemma_ts_fields_bounds(t);
    lemma_format_millis_chars(t);
    lemma_dec4(y);
    lemma_digit_char_val(y / 1000);
    lemma_digit_char_val((y / 100) % 10);
    lemma_digit_char_val((y / 10) % 10);
    lemma_digit_char_val(y % 10);
    lemma_two_digits_value(m);
    lemma_two_digits_value(d);
    lemma_two_digits_value(h);
    lemma_two_digits_value(mi);
    lemma_two_digits_value(se);
    assert(head_struct_ok(s)) by {
        assert(digits_at(s, 0, 4));
        assert(digits_at(s, 5, 2));
        assert(digits_at(s, 8, 2));
        assert(digits_at(s, 11, 2));
        assert(digits_at(s, 14, 2));
        assert(digits_at(s, 17, 2));
    }
    assert(num4(s, 0) == y);
    assert(num2(s, 5) == m);
    assert(num2(s, 8) == d);
    assert(num2(s, 11) == h);
    assert(num2(s, 14) == mi);
    assert(num2(s, 17) == se);
    assert(head_values_ok(s));
}

/// The rendered tail parses as the instant's milliseconds with zone `Z`.
proof fn lemma_format_tail_values(t: int)
    requires
        0 <= t <= MAX_TS_MILLIS,
    ensures
        ({
            let s = spec_format_millis(t);
            let (y, m, d, h, mi, se, ms) = ts_fields(t);
            spec_parse_tail(s.subrange(19, s.len() as int)) == Some((ms, 0int))
        }),
{
    let s = spec_format_millis(t);
    let (y, m, d, h, mi, se, ms) = ts_fields(t);
    lemma_ts_fields_bounds(t);
    lemma_format_millis_chars(t);
    lemma_dec3(ms);
    lemma_digit_char_val(ms / 100);
    lemma_digit_char_val((ms / 10) % 10);
    lemma_digit_char_val(ms % 10);
    let tail = s.subrange(19, s.len() as int);
    assert(tail =~= seq![
        '.',
        digit_char(ms / 100),
        digit_char((ms / 10) % 10),
        digit_char(ms % 10),
        'Z',
    ]);
    assert(!is_digit('Z'));
    assert(digit_run(tail, 5) == 0);
    assert(digit_run(tail, 4) == 0);
    assert(digit_run(tail, 3) == 1);
    assert(digit_run(tail, 2) == 2);
    assert(digit_run(tail, 1) == 3);
    let zone = tail.subrange(4, 5);
    assert(zone =~= seq!['Z']);
    assert(spec_parse_zone(zone) == Some(0int));
    assert(frac_millis(tail, 1, 3) == ms);
    assert(spec_parse_tail(tail) == Some((ms, 0int)));
}

/// Formatting an instant and parsing the result returns the instant: the
/// known-blobs file survives a save-and-load round trip. The rendered line
/// also holds no comma, no newline and no blank, so line splitting and
/// trimming leave it intact.
pub proof fn lemma_format_parse_millis(t: int)
    requires
        0 <= t <= MAX_TS_MILLIS,
    ensures
        spec_parse_ts(spec_format_millis(t)) == Some(t),
        spec_parse_expiration(spec_format_millis(t)) == Some(t),
        spec_format_millis(t).len() == 24,
        forall|i: int|
            0 <= i < 24 ==> (#[trigger] spec_format_millis(t)[i]) != ',' && !is_space(
                spec_format_millis(t)[i],
            ),
{
    let s = spec_format_millis(t);
    let (y, m, d, h, mi, se, ms) = ts_fields(t);
    lemma_ts_fields_bounds(t);
    lemma_format_head_values(t);
    lemma_format_tail_values(t);
    // the parsed value is t
    assert(ts_value(s, ms, 0) == t) by {
        reveal(ts_fields);
        let days = t / 86400000;
        let msod = t % 86400000;
        lemma_fundamental_div_mod(t, 86400000);
        lemma_msod_decomp(msod);
        assert(spec_days_from_civil(y, m, d) == days);
        assert((days * 86400 + h * 3600 + mi * 60 + se) * 1000 + ms - 0 * 60000 == t);
    }
    lemma_parse_ts_some(s, ms, 0, t);
    // shape facts
    assert(forall|i: int| 0 <= i < 24 ==> (#[trigger] s[i]) != ',' && !is_space(s[i])) by {
        lemma_format_millis_chars(t);
        lemma_ts_fields_bounds(t);
        lemma_dec4(y);
        lemma_two_digits_value(m);
        lemma_two_digits_value(d);
        lemma_two_digits_value(h);
        lemma_two_digits_value(mi);
        lemma_two_digits_value(se);
        lemma_dec3(ms);
        assert(forall|x: int| 0 <= x <= 9 ==> is_digit(#[trigger] digit_char(x))) by {
            assert forall|x: int| 0 <= x <= 9 implies is_digit(#[trigger] digit_char(x)) by {
                lemma_digit_char_val(x);
            }
        }
        assert(forall|c: char| is_digit(c) ==> c != ',' && !is_space(c)) by {
            assert(forall|c: char| is_digit(c) ==> 48 <= c as u32 <= 57);
        }
    }
    assert(trim_spec(s) =~= s) by {
        assert(!is_space(s[0]) && !is_space(s[23]));
    }
    assert(spec_parse_expiration(s) == Some(t));
}

/// Renders `t` as `YYYYMMDDHHMMSS`.
pub fn format_timestamp_compact(t: i64) -> (r: String)
    requires
        0 <= t <= MAX_TS_MILLIS,
    ensures
        r@ =~= spec_format_compact(t as int),
{
    proof {
        reveal(ts_fields);
        lemma_ts_fields_bounds(t as int);
    }
    let tu: u64 = t as u64;
    let days: u64 = tu / 86400000;
    let msod: u64 = tu % 86400000;
    let (y, m, d) = civil_from_days(days as i64);
    let mut out = String::new();
    push_four_digits(&mut out, y as u64);
    push_two_digits(&mut out, m as u64);
    push_two_digits(&mut out, d as u64);
    push_two_digits(&mut out, msod / 3600000);
    push_two_digits(&mut out, (msod / 60000) % 60);
    push_two_digits(&mut out, (msod / 1000) % 60);
    out
}

} // verus!

