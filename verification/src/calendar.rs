//! The proleptic Gregorian calendar, and the week that an instant falls in.

use crate::types::Instant;
use vstd::prelude::*;

verus! {

/// A day of the calendar.
pub struct Civil {
    pub year: int,
    pub month: int,
    pub day: int,
}

/// A leap year.
pub open spec fn leap(year: int) -> bool {
    year % 4 == 0 && (year % 100 != 0 || year % 400 == 0)
}

pub open spec fn days_in_month(year: int, month: int) -> int {
    if month == 2 {
        if leap(year) {
            29
        } else {
            28
        }
    } else if month == 4 || month == 6 || month == 9 || month == 11 {
        30
    } else {
        31
    }
}

/// A day that the calendar has.
pub open spec fn valid(c: Civil) -> bool {
    1 <= c.month <= 12 && 1 <= c.day <= days_in_month(c.year, c.month)
}

/// The day after.
pub open spec fn tomorrow(c: Civil) -> Civil {
    if c.day < days_in_month(c.year, c.month) {
        Civil { day: c.day + 1, ..c }
    } else if c.month < 12 {
        Civil { month: c.month + 1, day: 1, ..c }
    } else {
        Civil { year: c.year + 1, month: 1, day: 1 }
    }
}

/// The first day of a year of an era of four hundred years. The years begin in
/// March, so that a leap day is the last of its year.
pub open spec fn year_start(year: int) -> int {
    365 * year + year / 4 - year / 100
}

/// How long a year of an era is.
pub open spec fn year_len(year: int) -> int {
    if (year + 1) % 4 == 0 && ((year + 1) % 100 != 0 || year + 1 == 400) {
        366
    } else {
        365
    }
}

/// The year of an era that a day of it falls in.
pub open spec fn year_of(day: int) -> int {
    (day - day / 1_460 + day / 36_524 - day / 146_096) / 365
}

/// The month of a day of a year, from March on.
pub open spec fn month_of(day: int) -> int {
    (5 * day + 2) / 153
}

pub open spec fn month_start(month: int) -> int {
    (153 * month + 2) / 5
}

/// The day of the calendar that is this many days after the first of January
/// of 1970.
pub open spec fn civil(days: int) -> Civil {
    let z = days + 719_468;
    let era = z / 146_097;
    let day_of_era = z % 146_097;
    let year = year_of(day_of_era);
    let day_of_year = day_of_era - year_start(year);
    let from_march = month_of(day_of_year);
    let month = if from_march < 10 {
        from_march + 3
    } else {
        from_march - 9
    };
    Civil {
        year: year + era * 400 + if month <= 2 {
            1int
        } else {
            0
        },
        month,
        day: day_of_year - month_start(from_march) + 1,
    }
}

/// A day of an era by centuries, groups of four years, years, and what is left.
proof fn lemma_year_parts(day: int, c: int, q: int, s: int, r: int)
    requires
        0 <= c <= 3,
        0 <= q <= 24,
        0 <= s <= 3,
        0 <= r,
        r <= 364 || (r == 365 && s == 3 && (q < 24 || c == 3)),
        day == 36_524 * c + 1_461 * q + 365 * s + r,
    ensures
        year_of(day) == 100 * c + 4 * q + s,
        year_start(year_of(day)) == 36_524 * c + 1_461 * q + 365 * s,
        0 <= r < year_len(year_of(day)),
{
    let y = 100 * c + 4 * q + s;
    assert(y / 100 == c);
    assert(y / 4 == 25 * c + q);
    if day == 146_096 {
        assert(c == 3 && q == 24 && s == 3 && r == 365);
        assert(year_of(day) == 399);
    } else {
        assert(day / 146_096 == 0);
        assert(day / 36_524 == c);
        let left = 24 * c + q + 365 * s + r;
        assert(day == 1_460 * (25 * c + q) + left);
        if left >= 1_460 {
            assert(day / 1_460 == 25 * c + q + 1);
        } else {
            assert(day / 1_460 == 25 * c + q);
        }
        assert(year_of(day) == y);
    }
    assert((y + 1) % 4 == (s + 1) % 4);
}

/// Every day of an era falls into its year.
proof fn lemma_year_of(day: int)
    requires
        0 <= day < 146_097,
    ensures
        0 <= year_of(day) < 400,
        0 <= day - year_start(year_of(day)) < year_len(year_of(day)),
{
    let c = if day / 36_524 > 3 {
        3
    } else {
        day / 36_524
    };
    let in_century = day - 36_524 * c;
    let q = in_century / 1_461;
    let in_group = in_century - 1_461 * q;
    let s = if in_group / 365 > 3 {
        3
    } else {
        in_group / 365
    };
    let r = in_group - 365 * s;
    assert(0 <= in_century <= 36_524);
    assert(0 <= q <= 24);
    assert(0 <= in_group < 1_461);
    lemma_year_parts(day, c, q, s, r);
}

/// The last day of a year is followed by the first of the next.
proof fn lemma_next_year(day: int)
    requires
        0 <= day < 146_096,
    ensures
        day - year_start(year_of(day)) + 1 < year_len(year_of(day)) ==> year_of(day + 1)
            == year_of(day),
        day - year_start(year_of(day)) + 1 == year_len(year_of(day)) ==> year_of(day + 1)
            == year_of(day) + 1 && year_start(year_of(day + 1)) == day + 1,
{
    lemma_year_of(day);
    lemma_year_of(day + 1);
    let a = year_of(day);
    let b = year_of(day + 1);
    lemma_starts_grow(a, b);
    lemma_starts_grow(b, a);
}

/// Years do not overlap.
proof fn lemma_starts_grow(a: int, b: int)
    requires
        0 <= a < 400,
        0 <= b < 400,
    ensures
        a < b ==> year_start(a) + year_len(a) <= year_start(b),
        b == a + 1 ==> year_start(b) == year_start(a) + year_len(a),
{
    let a4 = a / 4;
    let b4 = b / 4;
    let a100 = a / 100;
    let b100 = b / 100;
    let n4 = (a + 1) / 4;
    let n100 = (a + 1) / 100;
    assert(n4 == a4 + if (a + 1) % 4 == 0 {
        1int
    } else {
        0
    });
    assert(n100 == a100 + if (a + 1) % 100 == 0 {
        1int
    } else {
        0
    });
    if a < b {
        assert(b4 - b100 >= n4 - n100) by {
            let u = b4 - n4;
            let v = b100 - n100;
            assert(u >= 0);
            assert(v >= 0);
            assert(v <= u) by {
                assert(100 * b100 <= b < 100 * b100 + 100);
                assert(100 * n100 <= a + 1 < 100 * n100 + 100);
                assert(4 * b4 <= b < 4 * b4 + 4);
                assert(4 * n4 <= a + 1 < 4 * n4 + 4);
                assert(b4 >= 25 * b100);
                if v > 0 {
                    assert(n4 <= 25 * n100 + 24);
                    assert(b4 >= 25 * n100 + 25 * v);
                }
            }
        }
    }
}

/// A day of a year falls into its month; the months from March on have the
/// lengths that they have.
proof fn lemma_month_of(day: int)
    requires
        0 <= day <= 365,
    ensures
        0 <= month_of(day) <= 11,
        month_start(month_of(day)) <= day,
        month_of(day) < 11 ==> day < month_start(month_of(day) + 1),
{
}

proof fn lemma_month_lengths(m: int)
    requires
        0 <= m <= 10,
    ensures
        month_start(m + 1) - month_start(m) == (if m == 1 || m == 3 || m == 6 || m == 8 {
            30int
        } else {
            31
        }),
        month_start(0) == 0,
        month_start(11) == 337,
{
}

proof fn lemma_month_steps(day: int)
    requires
        0 <= day < 365,
    ensures
        month_of(day) < 11 && day + 1 == month_start(month_of(day) + 1) ==> month_of(day + 1)
            == month_of(day) + 1,
        !(month_of(day) < 11 && day + 1 == month_start(month_of(day) + 1)) ==> month_of(day + 1)
            == month_of(day),
{
    lemma_month_of(day);
    lemma_month_of(day + 1);
}

proof fn lemma_leap(era: int, year: int)
    requires
        0 <= year < 400,
    ensures
        leap(year + 1 + era * 400) == (year_len(year) == 366),
{
    let y = year + 1 + era * 400;
    assert(y == 4 * (100 * era) + (year + 1));
    assert(y == 100 * (4 * era) + (year + 1));
    assert(y == 400 * era + (year + 1));
    vstd::arithmetic::div_mod::lemma_mod_multiples_vanish(100 * era, year + 1, 4);
    vstd::arithmetic::div_mod::lemma_mod_multiples_vanish(4 * era, year + 1, 100);
    vstd::arithmetic::div_mod::lemma_mod_multiples_vanish(era, year + 1, 400);
}

/// Every number of days is a day that the calendar has.
pub proof fn law_civil_is_valid(days: int)
    ensures
        valid(civil(days)),
{
    let z = days + 719_468;
    let era = z / 146_097;
    let doe = z % 146_097;
    let year = year_of(doe);
    let doy = doe - year_start(year);
    lemma_year_of(doe);
    lemma_month_of(doy);
    let m = month_of(doy);
    lemma_leap(era, year);
    if m <= 10 {
        lemma_month_lengths(m);
    } else {
        lemma_month_lengths(10);
    }
}

/// The numbering is the calendar's: day 0 is the first of January of 1970, and
/// the day after a day is tomorrow.
pub proof fn law_civil_counts_days(days: int)
    ensures
        civil(0) == (Civil { year: 1970, month: 1, day: 1 }),
        civil(days + 1) == tomorrow(civil(days)),
{
    let z = days + 719_468;
    let era = z / 146_097;
    let doe = z % 146_097;
    let year = year_of(doe);
    let doy = doe - year_start(year);
    let m = month_of(doy);
    lemma_year_of(doe);
    lemma_month_of(doy);
    lemma_leap(era, year);
    lemma_month_lengths(10);
    if m <= 10 {
        lemma_month_lengths(m);
    }
    if doe == 146_096 {
        assert((z + 1) / 146_097 == era + 1);
        assert((z + 1) % 146_097 == 0);
        lemma_year_parts(146_096, 3, 24, 3, 365);
        lemma_year_parts(0, 0, 0, 0, 0);
        assert(m == 11);
    } else {
        assert((z + 1) / 146_097 == era);
        assert((z + 1) % 146_097 == doe + 1);
        lemma_next_year(doe);
        lemma_year_of(doe + 1);
        if doy + 1 < year_len(year) {
            lemma_month_steps(doy);
        } else {
            assert(m == 11);
        }
    }
}

/// The days since the first of January of 1970 that an instant falls on.
pub open spec fn day_of(t: Instant) -> int {
    t.us as int / 86_400_000_000
}

/// The Monday of the week of a day, by its number.
pub open spec fn monday(days: int) -> int {
    days - (days + 3) % 7
}

/// The Monday is in the same week, and all days of a week have the same; the
/// fifth of January of 1970 was one.
pub proof fn law_weeks_begin_on_monday(days: int, other: int)
    ensures
        monday(days) <= days < monday(days) + 7,
        monday(days) <= other < monday(days) + 7 ==> monday(other) == monday(days),
        monday(4) == 4,
{
}

/// A day as a number in which year, month and day can be read.
pub open spec fn packed_date(c: Civil) -> int {
    c.year * 10_000 + c.month * 100 + c.day
}

const MICROS_PER_DAY: i64 = 86_400_000_000;

/// The quotient rounded down.
pub open spec fn floor_div(n: int, d: int) -> int {
    if d > 0 {
        n / d
    } else {
        (-n) / (-d)
    }
}

/// Division that rounds down.
pub fn div_floor(n: i64, d: i64) -> (r: i64)
    requires
        d != 0,
        !(n == i64::MIN && d == -1),
    ensures
        r == floor_div(n as int, d as int),
{
    let (a, b): (i128, i128) = if d > 0 {
        (n as i128, d as i128)
    } else {
        (-(n as i128), -(d as i128))
    };
    if a >= 0 {
        let q: u128 = a as u128 / b as u128;
        proof {
            lemma_quotient_bound(a as int, b as int);
        }
        q as i64
    } else {
        let back: u128 = (-(a + 1)) as u128;
        let q: u128 = back / b as u128;
        proof {
            lemma_quotient_bound(back as int, b as int);
            lemma_floor_below_zero(a as int, b as int);
        }
        -(q as i64) - 1
    }
}

/// A quotient of numbers that are not negative is at most the dividend, and at
/// most half of it where the divisor is not one.
proof fn lemma_quotient_bound(a: int, b: int)
    requires
        0 <= a,
        1 <= b,
    ensures
        0 <= a / b <= a,
        b >= 2 ==> 2 * (a / b) <= a,
{
    vstd::arithmetic::div_mod::lemma_fundamental_div_mod(a, b);
    vstd::arithmetic::div_mod::lemma_div_pos_is_pos(a, b);
    let q = a / b;
    assert(b * q >= q) by (nonlinear_arith)
        requires
            q >= 0,
            b >= 1,
    ;
    if b >= 2 {
        assert(b * q >= 2 * q) by (nonlinear_arith)
            requires
                q >= 0,
                b >= 2,
        ;
    }
}

proof fn lemma_floor_below_zero(a: int, b: int)
    requires
        a < 0,
        1 <= b,
    ensures
        a / b == -((-a - 1) / b) - 1,
{
    let back = -a - 1;
    let q = back / b;
    let r = back % b;
    vstd::arithmetic::div_mod::lemma_fundamental_div_mod(back, b);
    assert(a == (-q - 1) * b + (b - r - 1)) by (nonlinear_arith)
        requires
            back == b * q + r,
            back == -a - 1,
    ;
    vstd::arithmetic::div_mod::lemma_fundamental_div_mod_converse(a, b, -q - 1, b - r - 1);
}

/// The quotient is the largest whole number of divisors that the dividend holds.
pub proof fn law_division_rounds_down(n: int, d: int)
    requires
        d != 0,
    ensures
        d > 0 ==> d * floor_div(n, d) <= n < d * floor_div(n, d) + d,
        d < 0 ==> d * floor_div(n, d) >= n > d * floor_div(n, d) + d,
{
    if d > 0 {
        vstd::arithmetic::div_mod::lemma_fundamental_div_mod(n, d);
    } else {
        vstd::arithmetic::div_mod::lemma_fundamental_div_mod(-n, -d);
        let q = floor_div(n, d);
        assert((-d) * q == -(d * q)) by (nonlinear_arith);
    }
}

fn day_number(t: Instant) -> (r: i64)
    ensures
        r == day_of(t),
        -106_751_992 <= r <= 106_751_991,
{
    div_floor(t.us, MICROS_PER_DAY)
}

/// The day of the calendar of a number of days.
pub fn civil_from_days(days: i64) -> (r: (i32, u32, u32))
    requires
        -784_000_000_000 <= days <= 784_000_000_000,
    ensures
        r.0 == civil(days as int).year,
        r.1 == civil(days as int).month,
        r.2 == civil(days as int).day,
        1 <= r.1 <= 12,
        1 <= r.2 <= 31,
{
    proof {
        law_civil_is_valid(days as int);
    }
    // Counted from 5 400 000 eras before, so that no number is negative.
    let z: u64 = (days + 719_468 + 788_923_800_000) as u64;
    let era: u64 = z / 146_097;
    let doe: u64 = z % 146_097;
    proof {
        let z0 = days + 719_468;
        assert(z0 / 146_097 == era - 5_400_000);
        assert(z0 % 146_097 == doe);
        lemma_year_of(doe as int);
    }
    let yoe: u64 = (doe - doe / 1_460 + doe / 36_524 - doe / 146_096) / 365;
    let doy: u64 = doe - (365 * yoe + yoe / 4 - yoe / 100);
    proof {
        lemma_month_of(doy as int);
    }
    let mp: u64 = (5 * doy + 2) / 153;
    let day: u64 = doy - (153 * mp + 2) / 5 + 1;
    let month: u64 = if mp < 10 {
        mp + 3
    } else {
        mp - 9
    };
    let carry: i64 = if month <= 2 {
        1
    } else {
        0
    };
    let year: i64 = yoe as i64 + (era as i64 - 5_400_000) * 400 + carry;
    (year as i32, month as u32, day as u32)
}

/// The Monday of an instant's week, with year, month and day in one number.
pub fn week_bucket_yyyymmdd(t: Instant) -> (r: u32)
    requires
        civil(monday(day_of(t))).year >= 0,
    ensures
        r == packed_date(civil(monday(day_of(t)))),
{
    let days = day_number(t);
    let weekday: u64 = ((days + 3 + 146_097_000 * 7) as u64) % 7;
    assert(weekday == (days + 3) % 7);
    let monday: i64 = days - weekday as i64;
    let (year, month, day) = civil_from_days(monday);
    proof {
        lemma_year_bound(monday as int);
    }
    (year as u32) * 10_000 + month * 100 + day
}

proof fn lemma_year_bound(days: int)
    requires
        -106_752_000 <= days <= 106_752_000,
    ensures
        civil(days).year <= 294_000 + 1000,
{
    let z = days + 719_468;
    lemma_year_of(z % 146_097);
    assert(z / 146_097 <= 736);
}

} // verus!
