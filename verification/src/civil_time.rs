//! Deterministic civil-time breakdown for the clock functions.
//!
//! The runtime's clock is UTC, so local time is UTC and there is no zone
//! offset. The calendar is the proleptic Gregorian one.

use vstd::prelude::*;

use crate::bytes::{
    addr, addr_of, guest_range, i32_at, in_range, law_signed_reads_back, le_bytes,
    lemma_le_bytes_len, signed_at, splice, u32_bytes, write_at, write_bytes,
};

verus! {

/// `a` divided by `b`, rounded towards zero.
pub open spec fn div_trunc(a: int, b: int) -> int {
    if a >= 0 {
        a / b
    } else {
        -((-a) / b)
    }
}

/// Days from the civil date 1970-01-01 to `y-m-d`, in closed form: years run
/// from March to February and come in eras of 400.
pub open spec fn civil_days(y: int, m: int, d: int) -> int {
    let year = if m <= 2 {
        y - 1
    } else {
        y
    };
    let month = if m > 2 {
        m - 3
    } else {
        m + 9
    };
    let era = year / 400;
    let yoe = year - era * 400;
    let doy = div_trunc(153 * month + 2, 5) + d - 1;
    era * 146097 + yoe * 365 + yoe / 4 - yoe / 100 + doy - 719468
}

/// Whether `y` is a leap year.
pub open spec fn is_leap(y: int) -> bool {
    y % 4 == 0 && (y % 100 != 0 || y % 400 == 0)
}

/// The number of days of month `m` of year `y`.
pub open spec fn month_len(y: int, m: int) -> int {
    if m == 2 {
        if is_leap(y) {
            29
        } else {
            28
        }
    } else if m == 4 || m == 6 || m == 9 || m == 11 {
        30
    } else {
        31
    }
}

/// Whether `y-m-d` is a date of the calendar.
pub open spec fn is_date(y: int, m: int, d: int) -> bool {
    1 <= m <= 12 && 1 <= d <= month_len(y, m)
}

/// The date after `y-m-d`.
pub open spec fn next_date(y: int, m: int, d: int) -> (int, int, int) {
    if d < month_len(y, m) {
        (y, m, d + 1)
    } else if m < 12 {
        (y, m + 1, 1)
    } else {
        (y + 1, 1, 1)
    }
}

/// 1970-01-01 is day 0.
pub proof fn law_epoch_is_day_zero()
    ensures
        civil_days(1970, 1, 1) == 0,
{
}

/// Days count the dates of the calendar: the date after a date is one day
/// later.
pub proof fn law_next_date_is_next_day(y: int, m: int, d: int)
    requires
        is_date(y, m, d),
    ensures
        ({
            let n = next_date(y, m, d);
            is_date(n.0, n.1, n.2) && civil_days(n.0, n.1, n.2) == civil_days(y, m, d) + 1
        }),
{
    if d == month_len(y, m) && m == 2 {
        lemma_leap_step(y);
    }
}

/// Counting multiples of 4 and of 100 up to a number.
proof fn lemma_count_step(n: int)
    requires
        0 <= n,
    ensures
        (n + 1) / 4 == n / 4 + if (n + 1) % 4 == 0 {
            1int
        } else {
            0int
        },
        (n + 1) / 100 == n / 100 + if (n + 1) % 100 == 0 {
            1int
        } else {
            0int
        },
{
}

/// Whether a year is a leap year depends on its place in the era.
proof fn lemma_leap_in_era(y: int)
    ensures
        is_leap(y) == is_leap(y % 400),
{
    let e = y / 400;
    let o = y % 400;
    assert(y == 400 * e + o);
    assert(y == 4 * (100 * e) + o);
    assert(y == 100 * (4 * e) + o);
    assert(y % 4 == o % 4);
    assert(y % 100 == o % 100);
}

/// From one March to the next it is 365 days, or 366 past a leap day.
proof fn lemma_leap_step(y: int)
    ensures
        ({
            let a = y - 1;
            let ea = a / 400;
            let oa = a - ea * 400;
            let ey = y / 400;
            let oy = y - ey * 400;
            (ey * 146097 + oy * 365 + oy / 4 - oy / 100) - (ea * 146097 + oa * 365 + oa / 4 - oa
                / 100) == if is_leap(y) {
                366int
            } else {
                365int
            }
        }),
{
    let a = y - 1;
    let ea = a / 400;
    let oa = a - ea * 400;
    let ey = y / 400;
    let oy = y - ey * 400;
    lemma_leap_in_era(y);
    assert(oa == a % 400 && oy == y % 400);
    if oa == 399 {
        assert(ey == ea + 1 && oy == 0);
    } else {
        assert(ey == ea && oy == oa + 1);
        lemma_count_step(oa);
    }
}

/// Later dates are later days.
pub proof fn law_days_increase(y: int, m: int, d: int, y2: int, m2: int, d2: int)
    requires
        is_date(y, m, d),
        is_date(y2, m2, d2),
        y < y2 || (y == y2 && (m < m2 || (m == m2 && d < d2))),
    ensures
        civil_days(y, m, d) < civil_days(y2, m2, d2),
{
    lemma_days_of_year(y, m, d);
    lemma_days_of_year(y2, m2, d2);
    if y < y2 {
        lemma_year_starts(y, y2);
    }
}

/// The first of January of `y`.
pub open spec fn year_start(y: int) -> int {
    civil_days(y, 1, 1)
}

proof fn lemma_days_of_year(y: int, m: int, d: int)
    requires
        is_date(y, m, d),
    ensures
        year_start(y) <= civil_days(y, m, d) < year_start(y + 1),
        year_start(y + 1) == year_start(y) + if is_leap(y) {
            366int
        } else {
            365int
        },
        forall|m2: int, d2: int|
            #![trigger civil_days(y, m2, d2)]
            is_date(y, m2, d2) && (m < m2 || (m == m2 && d < d2)) ==> civil_days(y, m, d)
                < civil_days(y, m2, d2),
{
    lemma_leap_step(y);
}

proof fn lemma_year_starts(y: int, y2: int)
    requires
        y < y2,
    ensures
        year_start(y + 1) <= year_start(y2),
    decreases y2 - y,
{
    if y + 1 < y2 {
        lemma_year_starts(y, y2 - 1);
        lemma_days_of_year(y2 - 1, 1, 1);
    }
}

/// Different dates are different days.
pub proof fn law_days_injective(y: int, m: int, d: int, y2: int, m2: int, d2: int)
    requires
        is_date(y, m, d),
        is_date(y2, m2, d2),
        civil_days(y, m, d) == civil_days(y2, m2, d2),
    ensures
        y == y2 && m == m2 && d == d2,
{
    if y < y2 || (y == y2 && (m < m2 || (m == m2 && d < d2))) {
        law_days_increase(y, m, d, y2, m2, d2);
    } else if y2 < y || (y == y2 && (m2 < m || (m == m2 && d2 < d))) {
        law_days_increase(y2, m2, d2, y, m, d);
    }
}

/// `a` divided by `b`, rounded down.
fn div_floor(a: i128, b: i128) -> (r: i128)
    requires
        0 < b <= 1_000_000,
        i128::MIN + 1_000_000 < a,
    ensures
        r == a as int / b as int,
{
    if a >= 0 {
        a / b
    } else {
        let r: i128 = -((-a + (b - 1)) / b);
        proof {
            let q = (-a + (b - 1)) / (b as int);
            let x = -a + (b - 1);
            assert(x == b * q + x % (b as int)) by (nonlinear_arith)
                requires
                    q == x / (b as int),
                    b > 0,
            ;
            assert(a as int == (b as int) * (-q) + (b - 1 - x % (b as int))) by (nonlinear_arith)
                requires
                    x == -a + (b - 1),
                    x == b * q + x % (b as int),
            ;
            vstd::arithmetic::div_mod::lemma_fundamental_div_mod_converse(
                a as int,
                b as int,
                -q,
                b - 1 - x % (b as int),
            );
        }
        r
    }
}

/// Days from the civil date 1970-01-01 to `y-m-d` (m in 1..=12).
pub fn days_from_civil(y: i64, m: i64, d: i64) -> (r: i64)
    requires
        i64::MIN <= civil_days(y as int, m as int, d as int) <= i64::MAX,
    ensures
        r == civil_days(y as int, m as int, d as int),
{
    let year: i128 = if m <= 2 {
        y as i128 - 1
    } else {
        y as i128
    };
    let month: i128 = if m > 2 {
        m as i128 - 3
    } else {
        m as i128 + 9
    };
    let era: i128 = div_floor(year, 400);
    let yoe: i128 = year - era * 400;
    assert(0 <= yoe < 400);
    let scaled: i128 = 153 * month + 2;
    let months: i128 = if scaled >= 0 {
        scaled / 5
    } else {
        -((-scaled) / 5)
    };
    let doy: i128 = months + d as i128 - 1;
    let doe: i128 = yoe * 365 + yoe / 4 - yoe / 100 + doy;
    (era * 146097 + doe - 719468) as i64
}

/// The year of an era that holds day `doe` of it (both counted from March).
proof fn lemma_year_of_era(doe: int, yoe: int)
    requires
        0 <= doe < 146097,
        yoe == (doe - doe / 1460 + doe / 36524 - doe / 146096) / 365,
    ensures
        0 <= yoe < 400,
        365 * yoe + yoe / 4 - yoe / 100 <= doe,
        doe < 365 * (yoe + 1) + (yoe + 1) / 4 - (yoe + 1) / 100 || (yoe == 399 && doe == 146096),
{
    // Centuries, leap cycles, years and days, the last of each possibly long.
    let c = if doe == 146096 {
        3int
    } else {
        doe / 36524
    };
    let in_c = doe - 36524 * c;
    let q = in_c / 1461;
    let in_q = in_c - 1461 * q;
    let yr = if in_q == 1460 {
        3int
    } else {
        in_q / 365
    };
    let r = in_q - 365 * yr;
    assert(0 <= c <= 3);
    assert(0 <= in_c <= 36524);
    assert(0 <= q <= 24);
    assert(0 <= in_q <= 1460);
    assert(0 <= yr <= 3);
    assert(0 <= r <= 365);
    let carry = if 24 * c + q + 365 * yr + r >= 1460 {
        1int
    } else {
        0int
    };
    assert(doe == 1460 * (25 * c + q + carry) + (24 * c + q + 365 * yr + r - 1460 * carry));
    assert(doe / 1460 == 25 * c + q + carry);
    let n = 100 * c + 4 * q + yr;
    if doe != 146096 {
        assert(doe / 146096 == 0);
        assert(365 * n + (r - carry) == doe - doe / 1460 + doe / 36524 - doe / 146096);
    } else {
        assert(365 * n + (r - carry) == doe - doe / 1460 + doe / 36524 - doe / 146096);
    }
    assert(0 <= r - carry < 365);
    assert(yoe == n);
    assert(n / 4 == 25 * c + q);
    assert(n / 100 == c);
}

/// The month and day of day `doy` of a year that starts in March.
proof fn lemma_month_of_doy(doy: int, mp: int, d: int)
    requires
        0 <= doy <= 365,
        mp == (5 * doy + 2) / 153,
        d == doy - (153 * mp + 2) / 5 + 1,
    ensures
        0 <= mp <= 11,
        1 <= d <= 31,
        (mp == 1 || mp == 3 || mp == 6 || mp == 8) ==> d <= 30,
        mp == 11 ==> d <= 29,
        mp == 11 && d == 29 ==> doy == 365,
{
    assert(mp == 0 || mp == 1 || mp == 2 || mp == 3 || mp == 4 || mp == 5 || mp == 6 || mp == 7
        || mp == 8 || mp == 9 || mp == 10 || mp == 11);
}

/// The leap day is the last day of a year that starts in March, and only years
/// before a leap February have it.
proof fn lemma_leap_day(era: int, yoe: int, doe: int)
    requires
        0 <= yoe < 400,
        doe == 365 * yoe + yoe / 4 - yoe / 100 + 365,
        doe < 365 * (yoe + 1) + (yoe + 1) / 4 - (yoe + 1) / 100 || (yoe == 399 && doe == 146096),
    ensures
        is_leap(yoe + 400 * era + 1),
{
    let y = yoe + 400 * era + 1;
    lemma_leap_in_era(y);
    if yoe == 399 {
        assert(y == 400 * (era + 1));
        assert(y % 400 == 0);
    } else {
        lemma_count_step(yoe);
        assert(y % 400 == yoe + 1);
    }
}

/// A year has at most 366 days.
proof fn lemma_doy_range(yoe: int, doe: int)
    requires
        0 <= yoe < 400,
        365 * yoe + yoe / 4 - yoe / 100 <= doe,
        doe < 365 * (yoe + 1) + (yoe + 1) / 4 - (yoe + 1) / 100 || (yoe == 399 && doe == 146096),
    ensures
        0 <= doe - (365 * yoe + yoe / 4 - yoe / 100) <= 365,
{
    if yoe < 399 {
        lemma_count_step(yoe);
    }
}

/// The date whose year starts at March of year `yoe` of an era and which is
/// `doy` days later.
proof fn lemma_date_of(era: int, yoe: int, doy: int, mp: int, m: int, d: int, year: int)
    requires
        0 <= yoe < 400,
        0 <= doy <= 365,
        mp == (5 * doy + 2) / 153,
        d == doy - (153 * mp + 2) / 5 + 1,
        m == if mp < 10 {
            mp + 3
        } else {
            mp - 9
        },
        year == if m <= 2 {
            yoe + 400 * era + 1
        } else {
            yoe + 400 * era
        },
        doy == 365 ==> is_leap(yoe + 400 * era + 1),
    ensures
        is_date(year, m, d),
        civil_days(year, m, d) == era * 146097 + yoe * 365 + yoe / 4 - yoe / 100 + doy - 719468,
{
    lemma_month_of_doy(doy, mp, d);
    assert((yoe + 400 * era) / 400 == era);
}

/// Inverse of [`days_from_civil`]: the civil date `(year, month, day)` for a
/// day count `z` since 1970-01-01.
pub fn civil_from_days(z: i64) -> (r: (i64, i64, i64))
    ensures
        is_date(r.0 as int, r.1 as int, r.2 as int),
        civil_days(r.0 as int, r.1 as int, r.2 as int) == z,
{
    let days: i128 = z as i128 + 719468;
    let era: i128 = div_floor(days, 146097);
    let doe: i128 = days - era * 146097;
    assert(0 <= doe < 146097);
    let yoe: i128 = (doe - doe / 1460 + doe / 36524 - doe / 146096) / 365;
    proof {
        lemma_year_of_era(doe as int, yoe as int);
    }
    let y: i128 = yoe + era * 400;
    let doy: i128 = doe - (365 * yoe + yoe / 4 - yoe / 100);
    let mp: i128 = (5 * doy + 2) / 153;
    let d: i128 = doy - (153 * mp + 2) / 5 + 1;
    let m: i128 = if mp < 10 {
        mp + 3
    } else {
        mp - 9
    };
    let year: i128 = if m <= 2 {
        y + 1
    } else {
        y
    };
    proof {
        lemma_doy_range(yoe as int, doe as int);
        if doy == 365 {
            lemma_leap_day(era as int, yoe as int, doe as int);
        }
        lemma_date_of(
            era as int,
            yoe as int,
            doy as int,
            mp as int,
            m as int,
            d as int,
            year as int,
        );
    }
    (year as i64, m as i64, d as i64)
}

/// The date of day `z`.
pub open spec fn date_of_day(z: int) -> (int, int, int) {
    choose|r: (int, int, int)| is_date(r.0, r.1, r.2) && #[trigger] civil_days(r.0, r.1, r.2) == z
}

/// A date is the date of its day.
pub proof fn law_date_of_day(y: int, m: int, d: int)
    requires
        is_date(y, m, d),
    ensures
        date_of_day(civil_days(y, m, d)) == (y, m, d),
{
    let z = civil_days(y, m, d);
    let r = (y, m, d);
    assert(is_date(r.0, r.1, r.2) && civil_days(r.0, r.1, r.2) == z);
    let p = date_of_day(z);
    law_days_injective(p.0, p.1, p.2, y, m, d);
}

/// The weekday of day `z`, Sunday being 0: day 0 was a Thursday.
pub open spec fn weekday(z: int) -> int {
    (z + 4) % 7
}

/// The `struct tm` of Unix time `t`: seconds, minutes, hours, day of the month,
/// month (0 to 11), years since 1900, weekday, day of the year and 0 for
/// daylight saving, four bytes each.
pub open spec fn tm_record(t: int) -> Seq<u8> {
    let z = t / 86400;
    let s = t % 86400;
    let date = date_of_day(z);
    le_bytes((s % 60) as nat, 4) + le_bytes((s % 3600 / 60) as nat, 4) + le_bytes(
        (s / 3600) as nat,
        4,
    ) + le_bytes(date.2 as nat, 4) + le_bytes((date.1 - 1) as nat, 4) + le_bytes(
        ((date.0 - 1900) as i32) as u32 as nat,
        4,
    ) + le_bytes(weekday(z) as nat, 4) + le_bytes(
        (z - civil_days(date.0, 1, 1)) as nat,
        4,
    ) + le_bytes(0, 4)
}

/// Field `i` of the `struct tm` at `at`.
pub open spec fn tm_field(mem: Seq<u8>, at: int, i: int) -> int {
    signed_at(mem, at + 4 * i) as int
}

/// The Unix time that the `struct tm` at `at` stands for.
pub open spec fn tm_unix(mem: Seq<u8>, at: int) -> int {
    civil_days(tm_field(mem, at, 5) + 1900, tm_field(mem, at, 4) + 1, tm_field(mem, at, 3)) * 86400
        + tm_field(mem, at, 2) * 3600 + tm_field(mem, at, 1) * 60 + tm_field(mem, at, 0)
}

/// Every day has a date.
pub proof fn law_every_day_has_a_date(z: int)
    ensures
        ({
            let r = date_of_day(z);
            is_date(r.0, r.1, r.2) && civil_days(r.0, r.1, r.2) == z
        }),
{
    let days = z + 719468;
    let era = days / 146097;
    let doe = days - era * 146097;
    let yoe = (doe - doe / 1460 + doe / 36524 - doe / 146096) / 365;
    lemma_year_of_era(doe, yoe);
    let doy = doe - (365 * yoe + yoe / 4 - yoe / 100);
    let mp = (5 * doy + 2) / 153;
    let d = doy - (153 * mp + 2) / 5 + 1;
    let m = if mp < 10 {
        mp + 3
    } else {
        mp - 9
    };
    let year = if m <= 2 {
        yoe + 400 * era + 1
    } else {
        yoe + 400 * era
    };
    lemma_doy_range(yoe, doe);
    if doy == 365 {
        lemma_leap_day(era, yoe, doe);
    }
    lemma_date_of(era, yoe, doy, mp, m, d, year);
    law_date_of_day(year, m, d);
}

/// What the nine fields of a written `struct tm` read as.
#[verifier::spinoff_prover]
proof fn lemma_tm_fields(mem: Seq<u8>, at: int, t: int)
    requires
        0 <= at,
        at + 36 <= mem.len(),
    ensures
        ({
            let w = splice(mem, at, tm_record(t));
            let z = t / 86400;
            let s = t % 86400;
            let date = date_of_day(z);
            &&& is_date(date.0, date.1, date.2)
            &&& civil_days(date.0, date.1, date.2) == z
            &&& tm_field(w, at, 0) == s % 60
            &&& tm_field(w, at, 1) == s % 3600 / 60
            &&& tm_field(w, at, 2) == s / 3600
            &&& tm_field(w, at, 3) == date.2
            &&& tm_field(w, at, 4) == date.1 - 1
            &&& tm_field(w, at, 5) == (date.0 - 1900) as i32
            &&& tm_field(w, at, 6) == weekday(z)
            &&& tm_field(w, at, 7) == z - year_start(date.0)
            &&& tm_field(w, at, 8) == 0
        }),
{
    let z = t / 86400;
    let s = t % 86400;
    law_every_day_has_a_date(z);
    let (y, m, d) = date_of_day(z);
    lemma_days_of_year(y, m, d);
    let rec = tm_record(t);
    let yd = (z - civil_days(y, 1, 1)) as nat;
    lemma_le_bytes_len((s % 60) as nat, 4);
    lemma_le_bytes_len((s % 3600 / 60) as nat, 4);
    lemma_le_bytes_len((s / 3600) as nat, 4);
    lemma_le_bytes_len(d as nat, 4);
    lemma_le_bytes_len((m - 1) as nat, 4);
    lemma_le_bytes_len(((y - 1900) as i32) as u32 as nat, 4);
    lemma_le_bytes_len(weekday(z) as nat, 4);
    lemma_le_bytes_len(yd, 4);
    lemma_le_bytes_len(0, 4);
    assert(rec.len() == 36);
    let w = splice(mem, at, rec);
    assert(w.subrange(at, at + 4) =~= le_bytes((s % 60) as nat, 4));
    assert(w.subrange(at + 4, at + 8) =~= le_bytes((s % 3600 / 60) as nat, 4));
    assert(w.subrange(at + 8, at + 12) =~= le_bytes((s / 3600) as nat, 4));
    assert(w.subrange(at + 12, at + 16) =~= le_bytes(d as nat, 4));
    assert(w.subrange(at + 16, at + 20) =~= le_bytes((m - 1) as nat, 4));
    assert(w.subrange(at + 20, at + 24) =~= le_bytes(((y - 1900) as i32) as u32 as nat, 4));
    assert(w.subrange(at + 24, at + 28) =~= le_bytes(weekday(z) as nat, 4));
    assert(w.subrange(at + 28, at + 32) =~= le_bytes(yd, 4));
    assert(w.subrange(at + 32, at + 36) =~= le_bytes(0, 4));
    law_signed_reads_back(w, at, (s % 60) as i32);
    law_signed_reads_back(w, at + 4, (s % 3600 / 60) as i32);
    law_signed_reads_back(w, at + 8, (s / 3600) as i32);
    law_signed_reads_back(w, at + 12, d as i32);
    law_signed_reads_back(w, at + 16, (m - 1) as i32);
    law_signed_reads_back(w, at + 20, (y - 1900) as i32);
    law_signed_reads_back(w, at + 24, weekday(z) as i32);
    law_signed_reads_back(w, at + 28, yd as i32);
    law_signed_reads_back(w, at + 32, 0);
}

/// A time is its days, hours, minutes and seconds.
proof fn lemma_clock_of(t: int)
    ensures
        ({
            let s = t % 86400;
            t / 86400 * 86400 + s / 3600 * 3600 + s % 3600 / 60 * 60 + s % 60 == t
        }),
{
    let s = t % 86400;
    assert(s == s / 3600 * 3600 + s % 3600);
    assert(s % 3600 == s % 3600 / 60 * 60 + s % 60);
}

/// Breaking a time down and putting it together again gives the time, as long
/// as its year fits in the structure.
#[verifier::spinoff_prover]
pub proof fn law_tm_round_trip(mem: Seq<u8>, at: int, t: int, y: int, m: int, d: int)
    requires
        0 <= at,
        at + 36 <= mem.len(),
        is_date(y, m, d),
        civil_days(y, m, d) == t / 86400,
        i32::MIN <= y - 1900 <= i32::MAX,
    ensures
        tm_unix(splice(mem, at, tm_record(t)), at) == t,
{
    let w = splice(mem, at, tm_record(t));
    law_date_of_day(y, m, d);
    lemma_tm_fields(mem, at, t);
    lemma_clock_of(t);
    assert(tm_field(w, at, 5) + 1900 == y && tm_field(w, at, 4) + 1 == m && tm_field(w, at, 3)
        == d);
}

/// Every time breaks down into fields within their ranges: seconds and minutes
/// below 60, hours below 24, a day that its month has, months from 0 to 11,
/// weekdays from 0 to 6, a day that its year has, and no daylight saving. The
/// years since 1900 fill their field, and are exact as long as they fit in it.
#[verifier::spinoff_prover]
pub proof fn law_tm_ranges(mem: Seq<u8>, at: int, t: int)
    requires
        0 <= at,
        at + 36 <= mem.len(),
    ensures
        ({
            let w = splice(mem, at, tm_record(t));
            let (y, m, _) = date_of_day(t / 86400);
            &&& 0 <= tm_field(w, at, 0) < 60
            &&& 0 <= tm_field(w, at, 1) < 60
            &&& 0 <= tm_field(w, at, 2) < 24
            &&& 1 <= tm_field(w, at, 3) <= month_len(y, m) <= 31
            &&& 0 <= tm_field(w, at, 4) < 12
            &&& tm_field(w, at, 4) == m - 1
            &&& i32::MIN <= tm_field(w, at, 5) <= i32::MAX
            &&& (i32::MIN <= y - 1900 <= i32::MAX ==> tm_field(w, at, 5) == y - 1900)
            &&& 0 <= tm_field(w, at, 6) < 7
            &&& 0 <= tm_field(w, at, 7) < if is_leap(y) {
                366int
            } else {
                365int
            }
            &&& tm_field(w, at, 8) == 0
        }),
{
    lemma_tm_fields(mem, at, t);
    let (y, m, d) = date_of_day(t / 86400);
    lemma_days_of_year(y, m, d);
}

/// Day 0 is a Thursday, and the weekday of each day is one more than that of the
/// day before, seven days making a week.
pub proof fn law_weekdays_go_round(z: int)
    ensures
        weekday(0) == 4,
        0 <= weekday(z) <= 6,
        weekday(z + 1) == (weekday(z) + 1) % 7,
        weekday(z + 7) == weekday(z),
{
}

/// Months have the lengths that the Gregorian calendar gives them, and a year has
/// as many days as its months together.
pub proof fn law_month_starts(y: int, m: int)
    requires
        1 <= m <= 12,
    ensures
        m < 12 ==> civil_days(y, m + 1, 1) - civil_days(y, m, 1) == if m == 2 {
            if y % 4 == 0 && (y % 100 != 0 || y % 400 == 0) {
                29int
            } else {
                28int
            }
        } else if m == 4 || m == 6 || m == 9 || m == 11 {
            30int
        } else {
            31int
        },
        m == 12 ==> civil_days(y + 1, 1, 1) - civil_days(y, 12, 1) == 31,
        civil_days(y + 1, 1, 1) - civil_days(y, 1, 1) == if y % 4 == 0 && (y % 100 != 0 || y % 400
            == 0) {
            366int
        } else {
            365int
        },
{
    lemma_month_start(y, m);
    lemma_days_of_year(y, 1, 1);
}

/// From one month to the next.
proof fn lemma_month_start(y: int, m: int)
    requires
        1 <= m <= 12,
    ensures
        m < 12 ==> civil_days(y, m + 1, 1) - civil_days(y, m, 1) == month_len(y, m),
        m == 12 ==> civil_days(y + 1, 1, 1) - civil_days(y, 12, 1) == 31,
{
    let n = month_len(y, m);
    law_next_date_is_next_day(y, m, n);
    assert(civil_days(y, m, n) == civil_days(y, m, 1) + n - 1);
}

/// The calendar repeats itself every 400 years.
pub proof fn law_calendar_repeats(y: int, m: int, d: int)
    ensures
        civil_days(y + 400, m, d) - civil_days(y, m, d) == 146097,
{
    let year = if m <= 2 {
        y - 1
    } else {
        y
    };
    assert((year + 400) / 400 == year / 400 + 1);
}

/// A day later every `struct tm` shows the same time of day, the next weekday and
/// the next date; the day of the year goes up by one, or back to 0 on the first of
/// January.
#[verifier::spinoff_prover]
pub proof fn law_tm_next_day(mem: Seq<u8>, at: int, t: int)
    requires
        0 <= at,
        at + 36 <= mem.len(),
    ensures
        ({
            let w = splice(mem, at, tm_record(t));
            let n = splice(mem, at, tm_record(t + 86400));
            let d = tm_field(w, at, 3);
            let m = tm_field(w, at, 4);
            let d2 = tm_field(n, at, 3);
            let m2 = tm_field(n, at, 4);
            &&& tm_field(n, at, 0) == tm_field(w, at, 0)
            &&& tm_field(n, at, 1) == tm_field(w, at, 1)
            &&& tm_field(n, at, 2) == tm_field(w, at, 2)
            &&& tm_field(n, at, 6) == (tm_field(w, at, 6) + 1) % 7
            &&& (d2 == d + 1 && m2 == m) || (d >= 28 && d2 == 1 && (m2 == m + 1 || (m == 11 && m2
                == 0)))
            &&& tm_field(n, at, 7) == if d2 == 1 && m2 == 0 {
                0
            } else {
                tm_field(w, at, 7) + 1
            }
            &&& !(d2 == 1 && m2 == 0) ==> tm_field(n, at, 5) == tm_field(w, at, 5)
        }),
{
    lemma_tm_fields(mem, at, t);
    lemma_tm_fields(mem, at, t + 86400);
    lemma_date_step(t);
}

/// The date and the weekday a day later.
proof fn lemma_date_step(t: int)
    ensures
        (t + 86400) % 86400 == t % 86400,
        (t + 86400) / 86400 == t / 86400 + 1,
        ({
            let z = t / 86400;
            let (y, m, d) = date_of_day(z);
            let (y2, m2, d2) = date_of_day(z + 1);
            &&& (y2 == y && m2 == m && d2 == d + 1) || (y2 == y && m2 == m + 1 && d2 == 1 && d >= 28)
                || (y2 == y + 1 && m == 12 && m2 == 1 && d2 == 1 && d >= 28)
            &&& y2 == y + 1 ==> z + 1 == year_start(y2)
            &&& m2 == 1 && d2 == 1 ==> y2 == y + 1
            &&& weekday(z + 1) == (weekday(z) + 1) % 7
        }),
{
    let z = t / 86400;
    law_every_day_has_a_date(z);
    let (y, m, d) = date_of_day(z);
    law_next_date_is_next_day(y, m, d);
    let (y2, m2, d2) = next_date(y, m, d);
    law_date_of_day(y2, m2, d2);
    law_weekdays_go_round(z);
}

/// A second later the seconds of a `struct tm` go up by one, and every minute and
/// every hour back to 0, the minutes and the hours by one in turn. Within the day
/// the date stays.
#[verifier::spinoff_prover]
pub proof fn law_tm_next_second(mem: Seq<u8>, at: int, t: int)
    requires
        0 <= at,
        at + 36 <= mem.len(),
    ensures
        ({
            let w = splice(mem, at, tm_record(t));
            let n = splice(mem, at, tm_record(t + 1));
            let sec = tm_field(w, at, 0);
            let min = tm_field(w, at, 1);
            let hour = tm_field(w, at, 2);
            &&& tm_field(n, at, 0) == (sec + 1) % 60
            &&& tm_field(n, at, 1) == if sec == 59 {
                (min + 1) % 60
            } else {
                min
            }
            &&& tm_field(n, at, 2) == if sec == 59 && min == 59 {
                (hour + 1) % 24
            } else {
                hour
            }
            &&& !(sec == 59 && min == 59 && hour == 23) ==> {
                &&& tm_field(n, at, 3) == tm_field(w, at, 3)
                &&& tm_field(n, at, 4) == tm_field(w, at, 4)
                &&& tm_field(n, at, 5) == tm_field(w, at, 5)
                &&& tm_field(n, at, 6) == tm_field(w, at, 6)
                &&& tm_field(n, at, 7) == tm_field(w, at, 7)
            }
        }),
{
    lemma_tm_fields(mem, at, t);
    lemma_tm_fields(mem, at, t + 1);
    lemma_second_step(t);
}

/// The clock a second later.
proof fn lemma_second_step(t: int)
    ensures
        ({
            let s = t % 86400;
            let n = (t + 1) % 86400;
            &&& n % 60 == (s % 60 + 1) % 60
            &&& n % 3600 / 60 == if s % 60 == 59 {
                (s % 3600 / 60 + 1) % 60
            } else {
                s % 3600 / 60
            }
            &&& n / 3600 == if s % 60 == 59 && s % 3600 / 60 == 59 {
                (s / 3600 + 1) % 24
            } else {
                s / 3600
            }
            &&& !(s % 60 == 59 && s % 3600 / 60 == 59 && s / 3600 == 23) ==> (t + 1) / 86400 == t
                / 86400
        }),
{
    let s = t % 86400;
    lemma_clock_step(s);
    if s == 86399 {
        assert((t + 1) % 86400 == 0);
    } else {
        assert((t + 1) % 86400 == s + 1 && (t + 1) / 86400 == t / 86400);
    }
}

/// The clock a second later, within the day.
proof fn lemma_clock_step(s: int)
    requires
        0 <= s < 86400,
    ensures
        (s + 1) % 60 == (s % 60 + 1) % 60,
        (s + 1) % 3600 / 60 == if s % 60 == 59 {
            (s % 3600 / 60 + 1) % 60
        } else {
            s % 3600 / 60
        },
        (s + 1) / 3600 == if s % 60 == 59 && s % 3600 / 60 == 59 {
            s / 3600 + 1
        } else {
            s / 3600
        },
        s / 3600 < 24,
        s == 86399 <==> (s % 60 == 59 && s % 3600 / 60 == 59 && s / 3600 == 23),
{
    let h = s / 3600;
    let r = s % 3600;
    let m = r / 60;
    let x = r % 60;
    assert(s == 3600 * h + r && r == 60 * m + x);
    assert(s % 60 == x) by {
        assert(s == 60 * (60 * h + m) + x);
    }
    if r == 3599 {
        assert(m == 59 && x == 59);
        assert((s + 1) % 3600 == 0 && (s + 1) / 3600 == h + 1);
    } else {
        assert((s + 1) % 3600 == r + 1 && (s + 1) / 3600 == h);
        if x == 59 {
            assert(r + 1 == 60 * (m + 1));
        }
    }
}

/// Putting a `struct tm` together counts every second, minute, hour and day of it
/// for what it is, and a `struct tm` of zeros but for the first day of January 1970
/// is time 0.
pub proof fn law_tm_unix_counts(a: Seq<u8>, b: Seq<u8>, at: int)
    requires
        tm_field(a, at, 5) == tm_field(b, at, 5),
        tm_field(a, at, 4) == tm_field(b, at, 4),
    ensures
        tm_unix(b, at) - tm_unix(a, at) == (tm_field(b, at, 3) - tm_field(a, at, 3)) * 86400 + (
        tm_field(b, at, 2) - tm_field(a, at, 2)) * 3600 + (tm_field(b, at, 1) - tm_field(a, at, 1))
            * 60 + tm_field(b, at, 0) - tm_field(a, at, 0),
        tm_field(a, at, 5) == 70 && tm_field(a, at, 4) == 0 && tm_field(a, at, 3) == 1 && tm_field(
            a,
            at,
            2,
        ) == 0 && tm_field(a, at, 1) == 0 && tm_field(a, at, 0) == 0 ==> tm_unix(a, at) == 0,
{
}

/// Append one field of a `struct tm`.
fn push_field(rec: &mut Vec<u8>, v: u32)
    ensures
        final(rec)@ == old(rec)@ + le_bytes(v as nat, 4),
{
    let mut b = u32_bytes(v);
    rec.append(&mut b);
}

/// Fill the `struct tm` at `tmptr` with the UTC breakdown of Unix time `t`
/// (seconds). A struct that does not lie inside memory is left untouched.
pub fn write_tm(mem: &mut [u8], t: i64, tmptr: i32)
    ensures
        final(mem)@ == if guest_range(old(mem)@, tmptr, 36) {
            splice(old(mem)@, addr(tmptr), tm_record(t as int))
        } else {
            old(mem)@
        },
{
    let base: usize = addr_of(tmptr);
    if !in_range(mem.len(), base, 36) {
        return ;
    }
    let days: i64 = div_floor(t as i128, 86400) as i64;
    let secs: i64 = (t as i128 - days as i128 * 86400) as i64;
    assert(days == t as int / 86400 && secs == t as int % 86400);
    let (year, month, day): (i64, i64, i64) = civil_from_days(days);
    proof {
        law_date_of_day(year as int, month as int, day as int);
        lemma_days_of_year(year as int, month as int, day as int);
        lemma_days_of_year(year as int, 1, 1);
    }
    let wday: i64 = days + 4 - 7 * (div_floor(days as i128 + 4, 7) as i64);
    let yday: i64 = days - days_from_civil(year, 1, 1);
    let mut rec: Vec<u8> = Vec::new();
    push_field(&mut rec, (secs % 60) as u32);
    push_field(&mut rec, (secs % 3600 / 60) as u32);
    push_field(&mut rec, (secs / 3600) as u32);
    push_field(&mut rec, day as u32);
    push_field(&mut rec, (month - 1) as u32);
    push_field(&mut rec, (year - 1900) as i32 as u32);
    push_field(&mut rec, wday as u32);
    push_field(&mut rec, yday as u32);
    push_field(&mut rec, 0);
    proof {
        lemma_le_bytes_len((secs % 60) as nat, 4);
        lemma_le_bytes_len((secs % 3600 / 60) as nat, 4);
        lemma_le_bytes_len((secs / 3600) as nat, 4);
        lemma_le_bytes_len(day as nat, 4);
        lemma_le_bytes_len((month - 1) as nat, 4);
        lemma_le_bytes_len(((year - 1900) as i32) as u32 as nat, 4);
        lemma_le_bytes_len(wday as nat, 4);
        lemma_le_bytes_len(yday as nat, 4);
        lemma_le_bytes_len(0, 4);
        assert(rec@ =~= tm_record(t as int));
    }
    write_at(mem, base, &rec);
}

/// The Unix timestamp (seconds, UTC) for the `struct tm` at `tmptr`. Reads the
/// first six fields; the rest are derived. Returns -1 for a struct that does
/// not lie inside memory.
pub fn read_tm_to_unix(mem: &[u8], tmptr: i32) -> (r: i64)
    ensures
        r == if guest_range(mem@, tmptr, 24) {
            tm_unix(mem@, addr(tmptr))
        } else {
            -1
        },
{
    let base: usize = addr_of(tmptr);
    if !in_range(mem.len(), base, 24) {
        return -1;
    }
    let len: usize = mem.len();
    assert(base + 24 <= len);
    let sec: i64 = i32_at(mem, base) as i64;
    let min: i64 = i32_at(mem, base + 4) as i64;
    let hour: i64 = i32_at(mem, base + 8) as i64;
    let mday: i64 = i32_at(mem, base + 12) as i64;
    let mon: i64 = i32_at(mem, base + 16) as i64;
    let year: i64 = i32_at(mem, base + 20) as i64;
    let days: i64 = days_from_civil(year + 1900, mon + 1, mday);
    days * 86400 + hour * 3600 + min * 60 + sec
}

/// Write the libc timezone globals: UTC without daylight saving, so both
/// numbers are 0 and both names "UTC". A null or out-of-bounds pointer is
/// skipped without touching the others.
pub fn write_tzset(
    mem: &mut [u8],
    timezone_ptr: i32,
    daylight_ptr: i32,
    std_name_ptr: i32,
    dst_name_ptr: i32,
)
    ensures
        final(mem)@ == zone_told(
            old(mem)@,
            timezone_ptr,
            daylight_ptr,
            std_name_ptr,
            dst_name_ptr,
        ),
{
    let zero = vec![0u8, 0, 0, 0];
    let name = vec![85u8, 84, 67, 0];
    assert(zero@ =~= zero_word());
    assert(name@ =~= utc_name());
    put_word_at(mem, timezone_ptr, &zero);
    put_word_at(mem, daylight_ptr, &zero);
    put_word_at(mem, std_name_ptr, &name);
    put_word_at(mem, dst_name_ptr, &name);
}

/// Memory after the timezone globals were written.
pub open spec fn zone_told(
    mem: Seq<u8>,
    timezone_ptr: i32,
    daylight_ptr: i32,
    std_name_ptr: i32,
    dst_name_ptr: i32,
) -> Seq<u8> {
    put_word(
        put_word(
            put_word(put_word(mem, timezone_ptr, zero_word()), daylight_ptr, zero_word()),
            std_name_ptr,
            utc_name(),
        ),
        dst_name_ptr,
        utc_name(),
    )
}

/// Whether the words at two addresses have no byte in common.
pub open spec fn words_apart(a: int, b: int) -> bool {
    a + 4 <= b || b + 4 <= a
}

/// The timezone globals read as zero and as the C string `UTC` afterwards, wherever
/// their pointers are not null, lie inside memory and are apart. No other byte of
/// memory changes.
pub proof fn law_zone_is_utc(mem: Seq<u8>, a: i32, b: i32, c: i32, d: i32, i: int)
    requires
        words_apart(addr(a), addr(b)),
        words_apart(addr(a), addr(c)),
        words_apart(addr(a), addr(d)),
        words_apart(addr(b), addr(c)),
        words_apart(addr(b), addr(d)),
        words_apart(addr(c), addr(d)),
        0 <= i < mem.len(),
    ensures
        ({
            let m = zone_told(mem, a, b, c, d);
            &&& m.len() == mem.len()
            &&& a != 0 && addr(a) + 4 <= mem.len() ==> {
                m[addr(a)] == 0 && m[addr(a) + 1] == 0 && m[addr(a) + 2] == 0 && m[addr(a) + 3] == 0
            }
            &&& b != 0 && addr(b) + 4 <= mem.len() ==> {
                m[addr(b)] == 0 && m[addr(b) + 1] == 0 && m[addr(b) + 2] == 0 && m[addr(b) + 3] == 0
            }
            &&& c != 0 && addr(c) + 4 <= mem.len() ==> {
                m[addr(c)] == 'U' as u8 && m[addr(c) + 1] == 'T' as u8 && m[addr(c) + 2]
                    == 'C' as u8 && m[addr(c) + 3] == 0
            }
            &&& d != 0 && addr(d) + 4 <= mem.len() ==> {
                m[addr(d)] == 'U' as u8 && m[addr(d) + 1] == 'T' as u8 && m[addr(d) + 2]
                    == 'C' as u8 && m[addr(d) + 3] == 0
            }
            &&& !(addr(a) <= i < addr(a) + 4) && !(addr(b) <= i < addr(b) + 4) && !(addr(c) <= i
                < addr(c) + 4) && !(addr(d) <= i < addr(d) + 4) ==> m[i] == mem[i]
        }),
{
}

/// Four zero bytes.
pub open spec fn zero_word() -> Seq<u8> {
    seq![0u8, 0, 0, 0]
}

/// The text "UTC" with its NUL.
pub open spec fn utc_name() -> Seq<u8> {
    seq![85u8, 84, 67, 0]
}

/// Memory with four bytes written at a pointer, unless that is null or out of
/// bounds.
pub open spec fn put_word(mem: Seq<u8>, ptr: i32, word: Seq<u8>) -> Seq<u8> {
    if ptr != 0 && guest_range(mem, ptr, 4) {
        splice(mem, addr(ptr), word)
    } else {
        mem
    }
}

fn put_word_at(mem: &mut [u8], ptr: i32, word: &Vec<u8>)
    requires
        word@.len() == 4,
    ensures
        final(mem)@ == put_word(old(mem)@, ptr, word@),
{
    if ptr != 0 {
        write_bytes(mem, ptr, word);
    }
}

} // verus!
