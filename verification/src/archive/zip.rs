//! ZIP timestamps.
//!
//! ZIP inherited MS-DOS dates: two-second resolution, and no time zone at all.
//! Like most tools, we read them as UTC, because there is nothing better to do.
use vstd::prelude::*;
use vstd::arithmetic::div_mod::{lemma_fundamental_div_mod, lemma_fundamental_div_mod_converse};

verus! {

#[verifier::external_type_specification]
#[verifier::external_body]
pub struct ExDateTime(zip::DateTime);

/// What `zip::DateTime::year` gives for a stamp.
pub uninterp spec fn stamp_year(stamp: zip::DateTime) -> u16;

/// `zip::DateTime::year`: the year, which the format keeps as 1980 plus seven bits.
#[verifier::external_body]
fn dos_year(stamp: &zip::DateTime) -> (r: u16)
    ensures
        1980 <= r <= 2107,
        r == stamp_year(*stamp),
{
    stamp.year()
}

/// What `zip::DateTime::month` gives for a stamp.
pub uninterp spec fn stamp_month(stamp: zip::DateTime) -> u8;

/// `zip::DateTime::month`: four bits of the stored date.
#[verifier::external_body]
fn dos_month(stamp: &zip::DateTime) -> (r: u8)
    ensures
        r <= 15,
        r == stamp_month(*stamp),
{
    stamp.month()
}

/// What `zip::DateTime::day` gives for a stamp.
pub uninterp spec fn stamp_day(stamp: zip::DateTime) -> u8;

/// `zip::DateTime::day`: five bits of the stored date.
#[verifier::external_body]
fn dos_day(stamp: &zip::DateTime) -> (r: u8)
    ensures
        r <= 31,
        r == stamp_day(*stamp),
{
    stamp.day()
}

/// What `zip::DateTime::hour` gives for a stamp.
pub uninterp spec fn stamp_hour(stamp: zip::DateTime) -> u8;

/// `zip::DateTime::hour`: five bits of the stored time.
#[verifier::external_body]
fn dos_hour(stamp: &zip::DateTime) -> (r: u8)
    ensures
        r <= 31,
        r == stamp_hour(*stamp),
{
    stamp.hour()
}

/// What `zip::DateTime::minute` gives for a stamp.
pub uninterp spec fn stamp_minute(stamp: zip::DateTime) -> u8;

/// `zip::DateTime::minute`: six bits of the stored time.
#[verifier::external_body]
fn dos_minute(stamp: &zip::DateTime) -> (r: u8)
    ensures
        r <= 63,
        r == stamp_minute(*stamp),
{
    stamp.minute()
}

/// What `zip::DateTime::second` gives for a stamp.
pub uninterp spec fn stamp_second(stamp: zip::DateTime) -> u8;

/// `zip::DateTime::second`: five bits of the stored time, doubled.
#[verifier::external_body]
fn dos_second(stamp: &zip::DateTime) -> (r: u8)
    ensures
        r <= 62,
        r == stamp_second(*stamp),
{
    stamp.second()
}

/// Days from 1970-01-01 to the given date, negative before it: Howard Hinnant's
/// `days_from_civil`. It shifts the year to start in March so that the leap day
/// lands at the end, which makes the whole thing work out without any table of
/// month lengths; `era` is a 400-year cycle, the period after which the
/// Gregorian calendar repeats exactly.
pub open spec fn civil_days(year: int, month: int, day: int) -> int {
    let y = if month <= 2 { year - 1 } else { year };
    let era = y / 400;
    let year_of_era = y - era * 400;
    let day_of_year = div5_toward_zero(153 * march_month(month) + 2) + day - 1;
    let day_of_era = year_of_era * 365 + year_of_era / 4 - year_of_era / 100 + day_of_year;
    era * 146097 + day_of_era - 719468
}

/// Months counted from March: March is 0, February 11.
pub open spec fn march_month(month: int) -> int {
    if month > 2 {
        month - 3
    } else {
        month + 9
    }
}

/// Division by 5 rounding toward zero, as integer division does in code.
pub open spec fn div5_toward_zero(a: int) -> int {
    if a >= 0 {
        a / 5
    } else {
        -((-a) / 5)
    }
}

pub open spec fn fits_i64(v: int) -> bool {
    i64::MIN <= v <= i64::MAX
}

/// No step of the formula, as it is computed with 64-bit integers, overflows.
pub open spec fn civil_fits(year: int, month: int, day: int) -> bool {
    let y = if month <= 2 { year - 1 } else { year };
    let era = y / 400;
    let year_of_era = y - era * 400;
    let shifted = 153 * march_month(month);
    let day_of_year = div5_toward_zero(shifted + 2) + day - 1;
    let day_of_era = year_of_era * 365 + year_of_era / 4 - year_of_era / 100 + day_of_year;
    &&& fits_i64(y)
    &&& (y < 0 ==> fits_i64(y - 399))
    &&& fits_i64(era * 400)
    &&& fits_i64(shifted)
    &&& fits_i64(shifted + 2)
    &&& fits_i64(div5_toward_zero(shifted + 2) + day)
    &&& fits_i64(day_of_year)
    &&& fits_i64(day_of_era)
    &&& fits_i64(era * 146097)
    &&& fits_i64(era * 146097 + day_of_era)
    &&& fits_i64(era * 146097 + day_of_era - 719468)
}

pub open spec fn is_leap(year: int) -> bool {
    (year % 4 == 0 && year % 100 != 0) || year % 400 == 0
}

pub open spec fn month_length(year: int, month: int) -> int {
    if month == 2 {
        if is_leap(year) {
            29
        } else {
            28
        }
    } else if month == 4 || month == 6 || month == 9 || month == 11 {
        30
    } else {
        31
    }
}

/// Days from 1970-01-01 to the given date, negative before it. It takes any
/// date whose computation stays within 64-bit integers (every date a ZIP can
/// hold, and years far beyond). A month or day outside its usual range is
/// taken as the formula takes it.
pub fn days_from_civil(year: i64, month: i64, day: i64) -> (r: i64)
    requires
        civil_fits(year as int, month as int, day as int),
    ensures
        r == civil_days(year as int, month as int, day as int),
{
    let y: i64 = if month <= 2 {
        year - 1
    } else {
        year
    };
    // The 400-year cycle, rounded down for years before 0.
    let era: i64 = if y >= 0 {
        y / 400
    } else {
        -((-(y + 1)) / 400) - 1
    };
    proof {
        assert(era == y / 400) by (nonlinear_arith)
            requires
                era == (if y >= 0 { y / 400 } else { -((-(y + 1)) / 400) - 1 }),
        ;
    }
    let year_of_era = y - era * 400;
    proof {
        assert(0 <= year_of_era < 400) by (nonlinear_arith)
            requires
                era == y / 400,
                year_of_era == y - era * 400,
        ;
    }
    let shifted: i64 = if month > 2 {
        month - 3
    } else {
        month + 9
    };
    let a = 153 * shifted + 2;
    let fifth: i64 = if a >= 0 {
        a / 5
    } else {
        let b = -(a + 1);
        -(b / 5 + if b % 5 == 4 {
            1
        } else {
            0
        })
    };
    proof {
        assert(fifth == div5_toward_zero(a as int)) by (nonlinear_arith)
            requires
                fifth == (if a >= 0 {
                    a / 5
                } else {
                    -((-(a + 1)) / 5 + if (-(a + 1)) % 5 == 4 {
                        1int
                    } else {
                        0int
                    })
                }),
        ;
    }
    let day_of_year = fifth + day - 1;
    let day_of_era = year_of_era * 365 + year_of_era / 4 - year_of_era / 100 + day_of_year;
    era * 146097 + day_of_era - 719468
}

proof fn lemma_small_dates_fit(year: int, month: int, day: int)
    requires
        0 <= year <= 65535,
        0 <= month <= 255,
        0 <= day <= 255,
    ensures
        civil_fits(year, month, day),
{
    let y = if month <= 2 { year - 1 } else { year };
    let era = y / 400;
    assert(-1 <= era <= 164) by (nonlinear_arith)
        requires
            -1 <= y <= 65535,
            era == y / 400,
    ;
    assert(0 <= y - era * 400 < 400) by (nonlinear_arith)
        requires
            era == y / 400,
    ;
    assert(-400 <= era * 400 <= 65600) by (nonlinear_arith)
        requires
            -1 <= era <= 164,
    ;
    assert(-146097 <= era * 146097 <= 164 * 146097) by (nonlinear_arith)
        requires
            -1 <= era <= 164,
    ;
    let yoe = y - era * 400;
    assert(0 <= yoe * 365 <= 399 * 365) by (nonlinear_arith)
        requires
            0 <= yoe < 400,
    ;
    assert(0 <= 153 * march_month(month) <= 153 * 264) by (nonlinear_arith)
        requires
            0 <= march_month(month) <= 264,
    ;
}

/// Seconds since the epoch of a date and time read as UTC.
pub open spec fn epoch_seconds(year: int, month: int, day: int, hour: int, minute: int, second: int) -> int {
    civil_days(year, month, day) * 86400 + hour * 3600 + minute * 60 + second
}

/// A ZIP timestamp as nanoseconds since the epoch, from its parts.
pub fn dos_parts_to_nanos(year: u16, month: u8, day: u8, hour: u8, minute: u8, second: u8) -> (r: i128)
    ensures
        r == epoch_seconds(year as int, month as int, day as int, hour as int, minute as int, second as int)
            * 1_000_000_000,
{
    proof {
        lemma_small_dates_fit(year as int, month as int, day as int);
    }
    let days = days_from_civil(year as i64, month as i64, day as i64);
    proof {
        assert(-1_000_000_000_000 <= days <= 1_000_000_000_000) by (nonlinear_arith)
            requires
                days == civil_days(year as int, month as int, day as int),
                0 <= year <= 65535,
                0 <= month <= 255,
                0 <= day <= 255,
        ;
    }
    let seconds: i128 = (days as i128) * 86400 + (hour as i128) * 3600 + (minute as i128) * 60 + (second as i128);
    seconds * 1_000_000_000
}

/// The instant, in nanoseconds since the epoch, of MS-DOS date and time parts read as UTC.
pub open spec fn dos_instant(year: u16, month: u8, day: u8, hour: u8, minute: u8, second: u8) -> int {
    epoch_seconds(year as int, month as int, day as int, hour as int, minute as int, second as int) * 1_000_000_000
}

/// A ZIP timestamp as an instant, in nanoseconds since the epoch: the one its
/// stored date and time name, read as UTC.
pub fn to_system_time(stamp: zip::DateTime) -> (r: Option<i128>)
    ensures
        r matches Some(t) && t == dos_instant(
            stamp_year(stamp),
            stamp_month(stamp),
            stamp_day(stamp),
            stamp_hour(stamp),
            stamp_minute(stamp),
            stamp_second(stamp),
        ),
{
    let year = dos_year(&stamp);
    let month = dos_month(&stamp);
    let day = dos_day(&stamp);
    let hour = dos_hour(&stamp);
    let minute = dos_minute(&stamp);
    let second = dos_second(&stamp);
    let t = dos_parts_to_nanos(year, month, day, hour, minute, second);
    assert(t == dos_instant(year, month, day, hour, minute, second));
    Some(t)
}

} // verus!

verus! {

// ---------------------------------------------------------------------------------------------
// The formula against the calendar
// ---------------------------------------------------------------------------------------------

/// The days of the March-to-February year that starts in March of `y`, counted
/// from the start of the calendar's cycle: what the formula adds up before the
/// day of that year.
pub open spec fn days_before_march(y: int) -> int {
    let era = y / 400;
    let year_of_era = y - era * 400;
    era * 146097 + year_of_era * 365 + year_of_era / 4 - year_of_era / 100
}

/// From one March to the next there are 366 days when the February in between
/// has a leap day, 365 otherwise.
proof fn lemma_march_to_march(y: int)
    ensures
        days_before_march(y + 1) - days_before_march(y) == if is_leap(y + 1) { 366int } else { 365int },
{
    let q = y / 400;
    let r = y % 400;
    lemma_fundamental_div_mod(y, 400);
    assert(y - q * 400 == r);
    let s = r + 1;
    if s < 400 {
        lemma_fundamental_div_mod_converse(y + 1, 400, q, s);
        assert((y + 1) - q * 400 == s);
        lemma_fundamental_div_mod(r, 4);
        lemma_fundamental_div_mod(s, 4);
        lemma_fundamental_div_mod(r, 100);
        lemma_fundamental_div_mod(s, 100);
        lemma_fundamental_div_mod_converse(y + 1, 4, 100 * q + s / 4, s % 4);
        lemma_fundamental_div_mod_converse(y + 1, 100, 4 * q + s / 100, s % 100);
        assert((y + 1) % 400 != 0);
    } else {
        lemma_fundamental_div_mod_converse(y + 1, 400, q + 1, 0);
        assert((y + 1) - (q + 1) * 400 == 0);
        lemma_fundamental_div_mod_converse(y + 1, 4, 100 * (q + 1), 0);
        assert(r == 399);
        assert(399int / 4 == 99 && 399int / 100 == 3);
    }
}

/// January 1st, 1970 is day 0.
pub proof fn lemma_epoch_is_day_zero()
    ensures
        civil_days(1970, 1, 1) == 0,
{
    // The formula's year starts in March, so January 1970 is in its year 1969.
    assert(1969int / 400 == 4);
    assert(1969int - 4 * 400 == 369);
    assert((153int * 10 + 2) / 5 == 306);
    assert(369int / 4 == 92 && 369int / 100 == 3);
}

/// The day after `day`, `month`, `year`.
pub open spec fn next_day(year: int, month: int, day: int) -> (int, int, int) {
    if day < month_length(year, month) {
        (year, month, day + 1)
    } else if month < 12 {
        (year, month + 1, 1)
    } else {
        (year + 1, 1, 1)
    }
}

/// Each date of the calendar is exactly one day after the one before it, so
/// counting from January 1st, 1970 gives the number of days since then.
pub proof fn lemma_next_day_is_one_more(year: int, month: int, day: int)
    requires
        1 <= month <= 12,
        1 <= day <= month_length(year, month),
    ensures
        ({
            let (y2, m2, d2) = next_day(year, month, day);
            civil_days(y2, m2, d2) == civil_days(year, month, day) + 1
        }),
{
    if day < month_length(year, month) {
    } else if month == 2 {
        // February ends the formula's year: what follows is the start of the next one.
        lemma_march_to_march(year - 1);
        assert(days_before_march(year) - days_before_march(year - 1) == 337 + month_length(year, 2));
    } else if month == 12 {
    } else {
    }
}

} // verus!
