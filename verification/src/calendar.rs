//! Timestamps of the form `YYYY-MM-DDTHH:MM:SSZ` in the proleptic Gregorian calendar.

use vstd::prelude::*;

verus! {

/// Whether `year` is a leap year.
pub open spec fn is_leap(year: int) -> bool {
    year % 4 == 0 && (year % 100 != 0 || year % 400 == 0)
}

/// Days from 1 January of year 0 to 1 January of `year`: 365 a year, and one more
/// for each leap year before it.
pub open spec fn days_before_year(year: int) -> int {
    365 * year + (year + 3) / 4 - (year + 99) / 100 + (year + 399) / 400
}

/// Days from 1 January to the first of `month`, in a year that is not a leap year.
pub open spec fn days_before_month(month: int) -> int {
    if month == 1 {
        0
    } else if month == 2 {
        31
    } else if month == 3 {
        59
    } else if month == 4 {
        90
    } else if month == 5 {
        120
    } else if month == 6 {
        151
    } else if month == 7 {
        181
    } else if month == 8 {
        212
    } else if month == 9 {
        243
    } else if month == 10 {
        273
    } else if month == 11 {
        304
    } else {
        334
    }
}

/// Days from 1 January 1970 to the given date; a day past the end of its month
/// counts on into the next.
pub open spec fn days_since_epoch(year: int, month: int, day: int) -> int {
    days_before_year(year) + days_before_month(month) + (if month > 2 && is_leap(year) {
        1int
    } else {
        0
    }) + day - 1 - 719528
}

/// Days since the epoch in a calendar whose year starts in March, so that the leap
/// day comes last: agrees with [`days_since_epoch`] on months 1 to 12, and gives
/// months outside that range a meaning too.
pub open spec fn days_from_march(year: int, month: int, day: int) -> int {
    let y = if month <= 2 {
        year - 1
    } else {
        year
    };
    let m = if month <= 2 {
        month + 9
    } else {
        month - 3
    };
    365 * y + y / 4 - y / 100 + y / 400 + (153 * m + 2) / 5 + day - 1 - 719468
}

/// A year has 366 days if it is a leap year, 365 otherwise.
pub proof fn law_year_length(year: int)
    ensures
        days_before_year(year + 1) - days_before_year(year) == if is_leap(year) {
            366int
        } else {
            365
        },
{
    lemma_next_multiple(year, 4);
    lemma_next_multiple(year, 100);
    lemma_next_multiple(year, 400);
    assert(year % 100 == 0 ==> year % 4 == 0) by (nonlinear_arith);
    assert(year % 400 == 0 ==> year % 100 == 0) by (nonlinear_arith);
}

/// Going from `n` to `n + 1` passes one more multiple of `d` just when `n` is one.
proof fn lemma_next_multiple(n: int, d: int)
    requires
        d > 0,
    ensures
        (n + d) / d - (n + d - 1) / d == if n % d == 0 {
            1int
        } else {
            0
        },
        (n + d) / d == n / d + 1,
        (n + d - 1) / d == (n - 1) / d + 1,
{
    let q = n / d;
    let r = n % d;
    vstd::arithmetic::div_mod::lemma_div_plus_one(n, d);
    vstd::arithmetic::div_mod::lemma_div_plus_one(n - 1, d);
    vstd::arithmetic::div_mod::lemma_fundamental_div_mod(n, d);
    assert(d * (q + 1) == d * q + d) by (nonlinear_arith);
    assert(d * q == q * d && d * (q + 1) == (q + 1) * d) by (nonlinear_arith);
    vstd::arithmetic::div_mod::lemma_fundamental_div_mod_converse(n + d, d, q + 1, r);
    if r == 0 {
        vstd::arithmetic::div_mod::lemma_fundamental_div_mod_converse(n + d - 1, d, q, d - 1);
    } else {
        vstd::arithmetic::div_mod::lemma_fundamental_div_mod_converse(
            n + d - 1,
            d,
            q + 1,
            r - 1,
        );
    }
}

/// The March calendar agrees with the civil one on real months.
pub proof fn law_march_calendar(year: int, month: int, day: int)
    requires
        0 <= year,
        1 <= month <= 12,
    ensures
        days_from_march(year, month, day) == days_since_epoch(year, month, day),
{
    lemma_years_from_march(year);
}

/// Counting years from 1 March and counting them from 1 January differ by the
/// sixty days before 1 March of a leap year.
proof fn lemma_years_from_march(year: int)
    requires
        0 <= year,
    ensures
        365 * year + year / 4 - year / 100 + year / 400 + 60 == days_before_year(year) + 59 + (
        if is_leap(year) {
            1int
        } else {
            0
        }),
        365 * (year - 1) + (year - 1) / 4 - (year - 1) / 100 + (year - 1) / 400 + 366
            == days_before_year(year),
{
    lemma_next_multiple(year, 4);
    lemma_next_multiple(year, 100);
    lemma_next_multiple(year, 400);
    assert(year % 100 == 0 ==> year % 4 == 0) by (nonlinear_arith);
    assert(year % 400 == 0 ==> year % 100 == 0) by (nonlinear_arith);
}

/// Years count by eras of 400 years, which all have 146097 days.
proof fn lemma_era(y: int, era: int, yoe: int)
    requires
        y == 400 * era + yoe,
        0 <= yoe < 400,
    ensures
        365 * y + y / 4 - y / 100 + y / 400 == era * 146097 + yoe * 365 + yoe / 4 - yoe / 100,
{
    assert(y / 4 == 100 * era + yoe / 4);
    assert(y / 100 == 4 * era + yoe / 100);
    assert(y / 400 == era);
}

/// Seconds since the epoch of a date and a time of day.
pub open spec fn unix_time(
    year: u32,
    month: u32,
    day: u32,
    hour: u32,
    min: u32,
    sec: u32,
) -> int {
    days_from_march(year as int, month as int, day as int) * 86400 + hour * 3600 + min * 60 + sec
}

/// Seconds since the epoch of a date and a time of day.
pub fn to_unix(year: u32, month: u32, day: u32, hour: u32, min: u32, sec: u32) -> (r: i64)
    ensures
        r == unix_time(year, month, day, hour, min, sec),
        1 <= month <= 12 ==> r == days_since_epoch(year as int, month as int, day as int) * 86400
            + hour * 3600 + min * 60 + sec,
{
    let y: i64 = year as i64;
    let m: i64 = month as i64;
    let d: i64 = day as i64;
    let (y, m): (i64, i64) = if m <= 2 {
        (y - 1, m + 9)
    } else {
        (y, m - 3)
    };
    let era: i64 = y.checked_div_euclid(400).unwrap();
    let yoe: i64 = y - era * 400;
    proof {
        lemma_era(y as int, era as int, yoe as int);
    }
    let doy: i64 = (153 * m + 2) / 5 + d - 1;
    let doe: i64 = yoe * 365 + yoe / 4 - yoe / 100 + doy;
    let days: i64 = era * 146097 + doe - 719468;
    proof {
        if 1 <= month <= 12 {
            law_march_calendar(year as int, month as int, day as int);
        }
    }
    days * 86400 + hour as i64 * 3600 + min as i64 * 60 + sec as i64
}

/// The last year whose February lies before the date: leap days are counted up to it.
pub open spec fn counted_year(year: int, month: int) -> int {
    if month < 3 {
        year - 1
    } else {
        year
    }
}

/// The sum from which [`day_of_week_mon0`] takes the weekday: days of whole years,
/// an offset for the month, and the day.
pub open spec fn weekday_sum(year: int, month: int, day: int) -> int {
    let y = counted_year(year, month);
    y + y / 4 - y / 100 + y / 400 + month_offset(month) + day
}

/// Weekday of the first of the month relative to the first of March, as
/// [`weekday_sum`] counts it.
pub open spec fn month_offset(month: int) -> int {
    if month == 1 {
        0
    } else if month == 2 {
        3
    } else if month == 3 {
        2
    } else if month == 4 {
        5
    } else if month == 5 {
        0
    } else if month == 6 {
        3
    } else if month == 7 {
        5
    } else if month == 8 {
        1
    } else if month == 9 {
        4
    } else if month == 10 {
        6
    } else if month == 11 {
        2
    } else {
        4
    }
}

/// The weekday sum and the days since the epoch agree on the day of the week
/// (the epoch was a Thursday).
proof fn lemma_weekday(year: int, month: int, day: int)
    requires
        0 <= year,
        1 <= month <= 12,
    ensures
        (weekday_sum(year, month, day) + 6) % 7 == (days_since_epoch(year, month, day) + 3) % 7,
{
    law_march_calendar(year, month, day);
    let y = if month < 3 {
        year - 1
    } else {
        year
    };
    let m = if month < 3 {
        month + 9
    } else {
        month - 3
    };
    let k = lemma_month_offset(month, m);
    lemma_same_weekday(
        weekday_sum(year, month, day) + 6,
        days_from_march(year, month, day) + 3,
        52 * y + k,
    );
}

/// The month offsets follow the lengths of the months up to whole weeks.
proof fn lemma_month_offset(month: int, m: int) -> (k: int)
    requires
        1 <= month <= 12,
        m == if month < 3 {
            month + 9
        } else {
            month - 3
        },
    ensures
        (153 * m + 2) / 5 - month_offset(month) - 719472 == 7 * k,
{
    ((153 * m + 2) / 5 - month_offset(month) - 719472) / 7
}

/// Whole weeks do not change the weekday.
proof fn lemma_same_weekday(a: int, b: int, weeks: int)
    requires
        b == a + 7 * weeks,
    ensures
        a % 7 == b % 7,
{
}

/// Counting from Sunday instead of Monday shifts the day of the week by one.
proof fn lemma_from_monday(sum: int)
    ensures
        (sum % 7 + 6) % 7 == (sum + 6) % 7,
{
}

/// Day of the week of a date, from 0 for Sunday to 6 for Saturday.
fn day_of_week_sun0(year: u32, month: u32, day: u32) -> (r: u32)
    requires
        1 <= month <= 12,
        month < 3 ==> year > 0,
        counted_year(year as int, month as int) + counted_year(year as int, month as int) / 4
            <= u32::MAX,
        weekday_sum(year as int, month as int, day as int) <= u32::MAX,
    ensures
        r == weekday_sum(year as int, month as int, day as int) % 7,
        r < 7,
{
    let t: [u32; 12] = [0, 3, 2, 5, 0, 3, 5, 1, 4, 6, 2, 4];
    let y: u32 = if month < 3 {
        year - 1
    } else {
        year
    };
    assert(t[month - 1] == month_offset(month as int));
    (y + y / 4 - y / 100 + y / 400 + t[(month - 1) as usize] + day) % 7
}

/// Day of the week of a date, from 0 for Monday to 6 for Sunday.
///
/// The bounds on the year keep the sum that is computed within `u32`; January and
/// February of year 0 have no year before them to count from.
pub fn day_of_week_mon0(year: u32, month: u32, day: u32) -> (r: u32)
    requires
        1 <= month <= 12,
        month < 3 ==> year > 0,
        counted_year(year as int, month as int) + counted_year(year as int, month as int) / 4
            <= u32::MAX,
        weekday_sum(year as int, month as int, day as int) <= u32::MAX,
    ensures
        r == (days_since_epoch(year as int, month as int, day as int) + 3) % 7,
        r < 7,
{
    let from_sunday: u32 = day_of_week_sun0(year, month, day);
    proof {
        lemma_weekday(year as int, month as int, day as int);
        lemma_from_monday(weekday_sum(year as int, month as int, day as int));
    }
    (from_sunday + 6) % 7
}

/// The weekday of a date is that of the day which its seconds since the epoch fall
/// on, whatever the time of day.
pub proof fn law_weekday_of_unix(year: u32, month: u32, day: u32, hour: u32, min: u32, sec: u32)
    requires
        1 <= month <= 12,
        hour < 24,
        min < 60,
        sec < 60,
    ensures
        unix_time(year, month, day, hour, min, sec) / 86400 == days_since_epoch(
            year as int,
            month as int,
            day as int,
        ),
        (unix_time(year, month, day, hour, min, sec) / 86400 + 3) % 7 == (days_since_epoch(
            year as int,
            month as int,
            day as int,
        ) + 3) % 7,
{
    law_march_calendar(year as int, month as int, day as int);
}

/// One day later is 86400 seconds later.
pub proof fn law_next_day(year: u32, month: u32, day: u32, hour: u32, min: u32, sec: u32)
    requires
        day < u32::MAX,
    ensures
        unix_time(year, month, (day + 1) as u32, hour, min, sec) == unix_time(
            year,
            month,
            day,
            hour,
            min,
            sec,
        ) + 86400,
{
}

/// Value of the decimal digit at `i`.
pub open spec fn digit_at(b: Seq<u8>, i: int) -> int {
    b[i] - 48
}

/// Value of the two decimal digits from `i` on.
pub open spec fn two_digits(b: Seq<u8>, i: int) -> int {
    digit_at(b, i) * 10 + digit_at(b, i + 1)
}

/// Year of a timestamp.
pub open spec fn ts_year(b: Seq<u8>) -> int {
    two_digits(b, 0) * 100 + two_digits(b, 2)
}

/// Whether a timestamp can be read: it is long enough, no digit stands below `0`,
/// and the date has a weekday (see [`day_of_week_mon0`]).
pub open spec fn is_timestamp(b: Seq<u8>) -> bool {
    &&& b.len() >= 19
    &&& forall|i: int|
        0 <= i < 19 && i != 4 && i != 7 && i != 10 && i != 13 && i != 16 ==> #[trigger] b[i] >= 48
    &&& 1 <= two_digits(b, 5) <= 12
    &&& two_digits(b, 5) < 3 ==> ts_year(b) > 0
}

/// Hour of a timestamp.
pub open spec fn ts_hour(b: Seq<u8>) -> int {
    two_digits(b, 11)
}

/// Weekday of a timestamp, from 0 for Monday.
pub open spec fn ts_weekday(b: Seq<u8>) -> int {
    (days_since_epoch(ts_year(b), two_digits(b, 5), two_digits(b, 8)) + 3) % 7
}

/// Seconds since the epoch of a timestamp.
pub open spec fn ts_unix(b: Seq<u8>) -> int {
    days_since_epoch(ts_year(b), two_digits(b, 5), two_digits(b, 8)) * 86400 + two_digits(b, 11)
        * 3600 + two_digits(b, 14) * 60 + two_digits(b, 17)
}

/// Value of a decimal digit.
pub fn db(b: u8) -> (r: u32)
    requires
        b >= 48,
    ensures
        r == b - 48,
{
    (b - 48) as u32
}

/// Whether [`parse_ts_bytes`] can read the timestamp.
pub fn readable_ts(b: &[u8]) -> (r: bool)
    ensures
        r == is_timestamp(b@),
{
    if b.len() < 19 {
        return false;
    }
    for i in 0..19usize
        invariant
            b@.len() >= 19,
            forall|j: int|
                0 <= j < i && j != 4 && j != 7 && j != 10 && j != 13 && j != 16 ==> #[trigger] b@[j]
                    >= 48,
    {
        if i != 4 && i != 7 && i != 10 && i != 13 && i != 16 && b[i] < 48 {
            return false;
        }
    }
    let year: u32 = db(b[0]) * 1000 + db(b[1]) * 100 + db(b[2]) * 10 + db(b[3]);
    let month: u32 = db(b[5]) * 10 + db(b[6]);
    1 <= month && month <= 12 && (month >= 3 || year > 0)
}

/// Hour, weekday (from 0 for Monday) and seconds since the epoch of a timestamp.
pub fn parse_ts_bytes(b: &[u8]) -> (r: (u32, u32, i64))
    requires
        is_timestamp(b@),
    ensures
        r.0 == ts_hour(b@),
        r.1 == ts_weekday(b@),
        r.2 == ts_unix(b@),
{
    let year: u32 = db(b[0]) * 1000 + db(b[1]) * 100 + db(b[2]) * 10 + db(b[3]);
    let month: u32 = db(b[5]) * 10 + db(b[6]);
    let day: u32 = db(b[8]) * 10 + db(b[9]);
    let hour: u32 = db(b[11]) * 10 + db(b[12]);
    let min: u32 = db(b[14]) * 10 + db(b[15]);
    let sec: u32 = db(b[17]) * 10 + db(b[18]);
    let dow: u32 = day_of_week_mon0(year, month, day);
    let unix: i64 = to_unix(year, month, day, hour, min, sec);
    (hour, dow, unix)
}

} // verus!
