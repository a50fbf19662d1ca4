//! What the features of a request say, said of its fields and of the calendar
//! themselves.

use crate::calendar::{
    days_before_year, days_from_march, days_since_epoch, is_leap, is_timestamp,
    law_march_calendar, law_year_length, ts_hour, ts_unix, ts_weekday, unix_time,
};
use crate::models::{LastView, RequestView};
use crate::scan::{has_quoted, key_at};
use crate::vectorize::{
    clamped, features_of, is_dated, is_known, mcc_risk, minutes_between, FeatureView,
};
use crate::written::{lemma_key_at, listed, quoted};
use vstd::prelude::*;
use vstd::string::*;

verus! {

/// Days of a year: 366 every fourth year, but not in three of four full centuries.
pub open spec fn year_length(year: int) -> int {
    if (year % 4 == 0 && year % 100 != 0) || year % 400 == 0 {
        366
    } else {
        365
    }
}

/// Days of a month.
pub open spec fn month_length(year: int, month: int) -> int {
    if month == 2 {
        year_length(year) - 337
    } else if month == 4 || month == 6 || month == 9 || month == 11 {
        30
    } else {
        31
    }
}

/// Days from 1 January 1970 to 1 January of a year.
pub open spec fn to_year(year: int) -> int
    decreases
            (if year < 1970 {
                1970 - year
            } else {
                year - 1970
            }),
{
    if year > 1970 {
        to_year(year - 1) + year_length(year - 1)
    } else if year < 1970 {
        to_year(year + 1) - year_length(year)
    } else {
        0
    }
}

/// Days from 1 January to the first of a month.
pub open spec fn to_month(year: int, month: int) -> int
    decreases month,
{
    if month > 1 {
        to_month(year, month - 1) + month_length(year, month - 1)
    } else {
        0
    }
}

/// The days since the epoch are those of the years and months that have passed, day by
/// day.
pub proof fn law_days(year: int, month: int, day: int)
    requires
        1 <= month <= 12,
    ensures
        days_since_epoch(year, month, day) == to_year(year) + to_month(year, month) + day - 1,
        0 <= year ==> days_from_march(year, month, day) == to_year(year) + to_month(year, month)
            + day - 1,
{
    lemma_to_year(year);
    reveal_with_fuel(to_month, 12);
    if 0 <= year {
        law_march_calendar(year, month, day);
    }
}

/// The days of the years that have passed.
proof fn lemma_to_year(year: int)
    ensures
        to_year(year) == days_before_year(year) - 719528,
    decreases
            (if year < 1970 {
                1970 - year
            } else {
                year - 1970
            }),
{
    if year > 1970 {
        lemma_to_year(year - 1);
        law_year_length(year - 1);
        lemma_leap(year - 1);
    } else if year < 1970 {
        lemma_to_year(year + 1);
        law_year_length(year);
        lemma_leap(year);
    }
}

/// Leap years have 366 days.
proof fn lemma_leap(year: int)
    ensures
        is_leap(year) <==> year_length(year) == 366,
{
    assert(year % 400 == 0 ==> year % 4 == 0) by (nonlinear_arith);
}

/// Seconds since the epoch: 86400 a day, 3600 an hour, 60 a minute. Months outside the
/// year count in steps of 153 days for five months from March on.
pub proof fn law_unix_time(year: u32, month: u32, day: u32, hour: u32, min: u32, sec: u32)
    ensures
        1 <= month <= 12 ==> unix_time(year, month, day, hour, min, sec) == 86400 * (to_year(
            year as int,
        ) + to_month(year as int, month as int) + day - 1) + 3600 * hour + 60 * min + sec,
        month > 12 ==> unix_time(year, month, day, hour, min, sec) == 86400 * (to_year(year as int)
            + to_month(year as int, 3) + (153 * (month - 3) + 2) / 5 + day - 1) + 3600 * hour + 60
            * min + sec,
        month == 0 ==> unix_time(year, month, day, hour, min, sec) == 86400 * (to_year(
            year - 1,
        ) + to_month(year - 1, 3) + 275 + day - 1) + 3600 * hour + 60 * min + sec || year == 0,
{
    if 1 <= month <= 12 {
        law_days(year as int, month as int, day as int);
    } else if month > 12 {
        law_days(year as int, 3, day as int);
    } else if year > 0 {
        law_days(year - 1, 3, day as int);
    }
}

/// The bytes from `i` on write `n` with two decimal digits.
pub open spec fn writes_two(b: Seq<u8>, i: int, n: int) -> bool {
    b[i] == 48 + n / 10 && b[i + 1] == 48 + n % 10
}

/// A timestamp in the form year, month, day, hour, minute and second is read as what it
/// writes: the hour, the day of the week (counted from the Thursday of the epoch on) and
/// the seconds since the epoch.
pub proof fn law_timestamp(
    b: Seq<u8>,
    century: int,
    rest: int,
    month: int,
    day: int,
    hour: int,
    min: int,
    sec: int,
)
    requires
        b.len() >= 19,
        0 <= century < 100 && writes_two(b, 0, century),
        0 <= rest < 100 && writes_two(b, 2, rest),
        1 <= month <= 12 && writes_two(b, 5, month),
        0 <= day < 100 && writes_two(b, 8, day),
        0 <= hour < 100 && writes_two(b, 11, hour),
        0 <= min < 100 && writes_two(b, 14, min),
        0 <= sec < 100 && writes_two(b, 17, sec),
        century * 100 + rest > 0,
    ensures
        is_timestamp(b),
        ts_hour(b) == hour,
        ts_weekday(b) == (to_year(century * 100 + rest) + to_month(century * 100 + rest, month) + day
            - 1 + 3) % 7,
        ts_unix(b) == 86400 * (to_year(century * 100 + rest) + to_month(
            century * 100 + rest,
            month,
        ) + day - 1) + 3600 * hour + 60 * min + sec,
{
    let year = century * 100 + rest;
    assert(crate::calendar::two_digits(b, 0) == century);
    assert(crate::calendar::two_digits(b, 2) == rest);
    assert(crate::calendar::two_digits(b, 5) == month);
    assert(crate::calendar::two_digits(b, 8) == day);
    assert(crate::calendar::two_digits(b, 11) == hour);
    assert(crate::calendar::two_digits(b, 14) == min);
    assert(crate::calendar::two_digits(b, 17) == sec);
    assert(crate::calendar::ts_year(b) == year);
    law_days(year, month, day);
}

/// What any timestamp is read as, byte by byte: two bytes a number, and two of those the
/// year.
pub proof fn law_timestamp_bytes(b: Seq<u8>)
    requires
        is_timestamp(b),
    ensures
        ({
            let year = 1000 * (b[0] - 48) + 100 * (b[1] - 48) + 10 * (b[2] - 48) + (b[3] - 48);
            let month = 10 * (b[5] - 48) + (b[6] - 48);
            let day = 10 * (b[8] - 48) + (b[9] - 48);
            let days = to_year(year) + to_month(year, month) + day - 1;
            &&& ts_hour(b) == 10 * (b[11] - 48) + (b[12] - 48)
            &&& ts_weekday(b) == (days + 3) % 7
            &&& ts_unix(b) == 86400 * days + 3600 * (10 * (b[11] - 48) + (b[12] - 48)) + 60 * (10 * (
            b[14] - 48) + (b[15] - 48)) + (10 * (b[17] - 48) + (b[18] - 48))
        }),
{
    let year = 1000 * (b[0] - 48) + 100 * (b[1] - 48) + 10 * (b[2] - 48) + (b[3] - 48);
    let month = 10 * (b[5] - 48) + (b[6] - 48);
    let day = 10 * (b[8] - 48) + (b[9] - 48);
    assert(crate::calendar::ts_year(b) == year);
    assert(crate::calendar::two_digits(b, 5) == month);
    assert(crate::calendar::two_digits(b, 8) == day);
    law_days(year, month, day);
}

/// What can be read as a timestamp at all: nineteen bytes, none of those that stand for
/// digits below `0`, a month of the year, and a year after which its weekday can be
/// counted.
pub proof fn law_is_timestamp(b: Seq<u8>)
    ensures
        is_timestamp(b) <==> {
            let month = 10 * (b[5] - 48) + (b[6] - 48);
            &&& b.len() >= 19
            &&& b[0] >= 48 && b[1] >= 48 && b[2] >= 48 && b[3] >= 48
            &&& b[5] >= 48 && b[6] >= 48 && b[8] >= 48 && b[9] >= 48
            &&& b[11] >= 48 && b[12] >= 48 && b[14] >= 48 && b[15] >= 48
            &&& b[17] >= 48 && b[18] >= 48
            &&& 1 <= month <= 12
            &&& month >= 3 || b[0] > 48 || b[1] > 48 || b[2] > 48 || b[3] > 48
        },
{
    let month = 10 * (b[5] - 48) + (b[6] - 48);
    assert(crate::calendar::two_digits(b, 5) == month);
    if is_timestamp(b) {
        assert(b[0] >= 48 && b[1] >= 48 && b[2] >= 48 && b[3] >= 48);
        assert(b[5] >= 48 && b[6] >= 48 && b[8] >= 48 && b[9] >= 48);
        assert(b[11] >= 48 && b[12] >= 48 && b[14] >= 48 && b[15] >= 48);
        assert(b[17] >= 48 && b[18] >= 48);
    }
}

/// The sixth feature counts the whole minutes that have passed since the last
/// transaction, by the seconds between the two timestamps alone: none if it lies ahead,
/// and a day's at most.
pub proof fn law_minutes(r: RequestView, last: LastView, num: int, den: int)
    requires
        is_dated(r),
        r.last_transaction == Some(last),
        features_of(r)[5] == (FeatureView::Ratio { num, den }),
    ensures
        den == 1440,
        ({
            let seconds = ts_unix(r.requested_at) - ts_unix(last.timestamp);
            &&& seconds <= 0 ==> num == 0
            &&& 0 <= seconds < 86400 ==> 60 * num <= seconds < 60 * num + 60
            &&& seconds >= 86400 ==> num == 1440
        }),
{
}

/// Shifting both timestamps by the same time leaves the sixth feature as it is.
pub proof fn law_minutes_shift(r: RequestView, last: LastView, other: RequestView, before: LastView)
    requires
        is_dated(r),
        is_dated(other),
        r.last_transaction == Some(last),
        other.last_transaction == Some(before),
        ts_unix(r.requested_at) - ts_unix(last.timestamp) == ts_unix(other.requested_at) - ts_unix(
            before.timestamp,
        ),
    ensures
        features_of(r)[5] == features_of(other)[5],
        features_of(r)[5] is Ratio,
{
    lemma_sixth(r, last);
    lemma_sixth(other, before);
    lemma_same_minutes(
        last.timestamp,
        r.requested_at,
        before.timestamp,
        other.requested_at,
    );
}

/// The sixth feature goes by the minutes between the two timestamps.
proof fn lemma_sixth(r: RequestView, last: LastView)
    requires
        r.last_transaction == Some(last),
    ensures
        features_of(r)[5] == clamped(minutes_between(last.timestamp, r.requested_at), 1440),
{
}

/// The minutes go by the seconds.
proof fn lemma_same_minutes(a: Seq<u8>, b: Seq<u8>, c: Seq<u8>, d: Seq<u8>)
    requires
        ts_unix(b) - ts_unix(a) == ts_unix(d) - ts_unix(c),
    ensures
        minutes_between(a, b) == minutes_between(c, d),
{
}

/// A ratio of `n` to `max` that is no more than one.
pub open spec fn is_share(f: FeatureView, n: int, max: int) -> bool {
    &&& n <= max ==> f == (FeatureView::Ratio { num: n, den: max })
    &&& n >= max ==> f == (FeatureView::Ratio { num: max, den: max })
}

/// One if so, zero if not.
pub open spec fn tells(f: FeatureView, b: bool) -> bool {
    &&& b ==> f == (FeatureView::Ratio { num: 1, den: 1 })
    &&& !b ==> f == (FeatureView::Ratio { num: 0, den: 1 })
}

/// What each feature takes from the request, and the most it can be.
pub proof fn law_features(r: RequestView)
    ensures
        features_of(r).len() == 16,
        features_of(r)[0] == (FeatureView::Scaled { number: r.amount, max: 10000 }),
        is_share(features_of(r)[1], r.installments as int, 12),
        features_of(r)[2] == (FeatureView::Relative {
            amount: r.amount,
            average: r.customer_avg_amount,
            factor: 10,
        }),
        features_of(r)[3] == (FeatureView::Ratio { num: ts_hour(r.requested_at), den: 23 }),
        features_of(r)[4] == (FeatureView::Ratio { num: ts_weekday(r.requested_at), den: 6 }),
        r.last_transaction is None ==> features_of(r)[5] is Absent && features_of(r)[6] is Absent,
        r.last_transaction is Some ==> features_of(r)[5] is Ratio && features_of(r)[6] == (
        FeatureView::Scaled {
            number: r.last_transaction.unwrap().km_from_current,
            max: 1000,
        }),
        features_of(r)[7] == (FeatureView::Scaled { number: r.km_from_home, max: 1000 }),
        is_share(features_of(r)[8], r.tx_count_24h as int, 20),
        tells(features_of(r)[9], r.is_online),
        tells(features_of(r)[10], r.card_present),
        tells(features_of(r)[11], !is_known(r.known_merchants, r.merchant_id)),
        features_of(r)[12] == (FeatureView::Ratio { num: mcc_risk(r.mcc), den: 100 }),
        features_of(r)[13] == (FeatureView::Scaled { number: r.merchant_avg_amount, max: 10000 }),
        tells(features_of(r)[14], false),
        tells(features_of(r)[15], false),
{
}

/// The risk of each category code, by its four digits; 50 in 100 for any other.
pub proof fn law_risk(mcc: Seq<u8>)
    ensures
        mcc == seq![53u8, 52, 49, 49] ==> mcc_risk(mcc) == 15,
        mcc == seq![53u8, 56, 49, 50] ==> mcc_risk(mcc) == 30,
        mcc == seq![53u8, 57, 49, 50] ==> mcc_risk(mcc) == 20,
        mcc == seq![53u8, 57, 52, 52] ==> mcc_risk(mcc) == 45,
        mcc == seq![55u8, 56, 48, 49] ==> mcc_risk(mcc) == 80,
        mcc == seq![55u8, 56, 48, 50] ==> mcc_risk(mcc) == 75,
        mcc == seq![55u8, 57, 57, 53] ==> mcc_risk(mcc) == 85,
        mcc == seq![52u8, 53, 49, 49] ==> mcc_risk(mcc) == 35,
        mcc == seq![53u8, 51, 49, 49] ==> mcc_risk(mcc) == 25,
        mcc != seq![53u8, 52, 49, 49] && mcc != seq![53u8, 56, 49, 50] && mcc
            != seq![53u8, 57, 49, 50] && mcc != seq![53u8, 57, 52, 52] && mcc
            != seq![55u8, 56, 48, 49] && mcc != seq![55u8, 56, 48, 50] && mcc
            != seq![55u8, 57, 57, 53] && mcc != seq![52u8, 53, 49, 49] && mcc
            != seq![53u8, 51, 49, 49] ==> mcc_risk(mcc) == 50,
{
    reveal_strlit("5411");
    reveal_strlit("5812");
    reveal_strlit("5912");
    reveal_strlit("5944");
    reveal_strlit("7801");
    reveal_strlit("7802");
    reveal_strlit("7995");
    reveal_strlit("4511");
    reveal_strlit("5311");
    is_ascii_spec_bytes("5411");
    is_ascii_spec_bytes("5812");
    is_ascii_spec_bytes("5912");
    is_ascii_spec_bytes("5944");
    is_ascii_spec_bytes("7801");
    is_ascii_spec_bytes("7802");
    is_ascii_spec_bytes("7995");
    is_ascii_spec_bytes("4511");
    is_ascii_spec_bytes("5311");
    assert("5411".spec_bytes() =~= seq![53u8, 52, 49, 49]);
    assert("5812".spec_bytes() =~= seq![53u8, 56, 49, 50]);
    assert("5912".spec_bytes() =~= seq![53u8, 57, 49, 50]);
    assert("5944".spec_bytes() =~= seq![53u8, 57, 52, 52]);
    assert("7801".spec_bytes() =~= seq![55u8, 56, 48, 49]);
    assert("7802".spec_bytes() =~= seq![55u8, 56, 48, 50]);
    assert("7995".spec_bytes() =~= seq![55u8, 57, 57, 53]);
    assert("4511".spec_bytes() =~= seq![52u8, 53, 49, 49]);
    assert("5311".spec_bytes() =~= seq![53u8, 51, 49, 49]);
    lemma_codes_differ(mcc);
}

/// The category codes differ from each other.
proof fn lemma_codes_differ(mcc: Seq<u8>)
    ensures
        mcc == seq![53u8, 52, 49, 49] ==> mcc[1] == 52 && mcc[0] == 53,
        mcc == seq![53u8, 56, 49, 50] ==> mcc[1] == 56 && mcc[0] == 53,
        mcc == seq![53u8, 57, 49, 50] ==> mcc[1] == 57 && mcc[2] == 49,
        mcc == seq![53u8, 57, 52, 52] ==> mcc[1] == 57 && mcc[2] == 52,
        mcc == seq![55u8, 56, 48, 49] ==> mcc[0] == 55 && mcc[3] == 49,
        mcc == seq![55u8, 56, 48, 50] ==> mcc[0] == 55 && mcc[3] == 50,
        mcc == seq![55u8, 57, 57, 53] ==> mcc[0] == 55 && mcc[3] == 53,
        mcc == seq![52u8, 53, 49, 49] ==> mcc[0] == 52,
        mcc == seq![53u8, 51, 49, 49] ==> mcc[0] == 53 && mcc[1] == 51,
{
}

/// No quotation mark stands in the text.
pub open spec fn is_plain(s: Seq<u8>) -> bool {
    forall|i: int| 0 <= i < s.len() ==> #[trigger] s[i] != 34
}

/// A merchant is known just when its name is among those listed. (A name that is a single
/// comma is left out: in quotation marks it also stands between two names.)
pub proof fn law_known(names: Seq<Seq<u8>>, id: Seq<u8>)
    requires
        forall|i: int| 0 <= i < names.len() ==> is_plain(#[trigger] names[i]),
        is_plain(id),
        id != seq![44u8],
    ensures
        is_known(listed(names), id) <==> id.len() > 0 && names.contains(id),
{
    let d = listed(names);
    if id.len() > 0 && has_quoted(d, id) {
        let q = choose|q: int| #[trigger] key_at(d, q, id);
        lemma_listed(names, id, q);
    }
    if names.contains(id) {
        lemma_lists(names, id);
    }
}

/// What stands in quotation marks in a list of names is one of them.
proof fn lemma_listed(names: Seq<Seq<u8>>, id: Seq<u8>, q: int)
    requires
        forall|i: int| 0 <= i < names.len() ==> is_plain(#[trigger] names[i]),
        is_plain(id),
        id != seq![44u8],
        id.len() > 0,
        key_at(listed(names), q, id),
    ensures
        names.contains(id),
    decreases names.len(),
{
    let d = listed(names);
    let c = q + 1 + id.len();
    assert forall|i: int| q < i < c implies #[trigger] d[i] != 34 by {
        assert(d.subrange(q + 1, q + 1 + id.len())[i - q - 1] == id[i - q - 1]);
    }
    if names.len() == 1 {
        let one = names[0];
        assert(d.subrange(0, d.len() as int) =~= quoted(one));
        lemma_in_quotes(d, 0, one, q, id);
        assert(names[0] == id);
    } else if names.len() > 1 {
        let most = listed(names.drop_last());
        let one = names.last();
        assert(names[names.len() - 1] == one);
        let m = most.len() as int;
        lemma_listed_ends(names.drop_last());
        assert(d =~= most + (seq![44u8] + quoted(one)));
        assert(d[m - 1] == most[m - 1]);
        assert(d[m] == 44);
        assert(d[m + 1] == quoted(one)[0]);
        if c < m {
            assert(most.subrange(q + 1, q + 1 + id.len()) =~= d.subrange(q + 1, q + 1 + id.len()));
            assert(most[q] == d[q] && most[c] == d[c]);
            assert(key_at(most, q, id));
            assert forall|i: int| 0 <= i < names.drop_last().len() implies is_plain(
                #[trigger] names.drop_last()[i],
            ) by {
                assert(names.drop_last()[i] == names[i]);
            }
            lemma_listed(names.drop_last(), id, q);
            let i = choose|i: int|
                0 <= i < names.drop_last().len() && names.drop_last()[i] == id;
            assert(names[i] == id);
        } else if q > m {
            assert(d.subrange(m + 1, m + 1 + one.len() + 2) =~= quoted(one));
            lemma_in_quotes(d, m + 1, one, q, id);
        } else {
            assert(q == m - 1);
            assert(c == m + 1);
            assert(id =~= seq![44u8]) by {
                assert(d.subrange(q + 1, q + 1 + id.len())[0] == d[m]);
            }
        }
    }
}

/// Between the quotation marks of a name stands only the name.
proof fn lemma_in_quotes(d: Seq<u8>, p: int, name: Seq<u8>, q: int, id: Seq<u8>)
    requires
        0 <= p <= q,
        p + name.len() + 2 == d.len(),
        d.subrange(p, d.len() as int) == quoted(name),
        is_plain(name),
        key_at(d, q, id),
        id.len() > 0,
    ensures
        id == name,
{
    let part = d.subrange(p, d.len() as int);
    let n = name.len() as int;
    assert forall|i: int| p < i < p + n + 1 implies #[trigger] d[i] != 34 by {
        assert(part[i - p] == d[i]);
        assert(quoted(name)[i - p] == name[i - p - 1]);
    }
    assert(q == p);
    assert(q + 1 + id.len() == p + n + 1);
    assert(part.subrange(1, n + 1) =~= d.subrange(q + 1, q + 1 + id.len()));
    assert(quoted(name).subrange(1, n + 1) =~= name);
}

/// A list of names ends with a quotation mark.
proof fn lemma_listed_ends(names: Seq<Seq<u8>>)
    requires
        names.len() > 0,
    ensures
        listed(names).len() >= 2,
        listed(names)[listed(names).len() - 1] == 34,
{
    let d = listed(names);
    if names.len() > 1 {
        assert(d[d.len() - 1] == quoted(names.last())[names.last().len() as int + 1]);
    }
}

/// Every name of a list stands in it in quotation marks.
proof fn lemma_lists(names: Seq<Seq<u8>>, id: Seq<u8>)
    requires
        names.contains(id),
    ensures
        has_quoted(listed(names), id),
    decreases names.len(),
{
    let d = listed(names);
    if names.len() == 1 {
        assert(names[0] == id);
        assert(d.subrange(0, id.len() as int + 2) =~= quoted(id));
        lemma_key_at(d, 0, id);
    } else {
        let most = listed(names.drop_last());
        let m = most.len() as int;
        let one = names.last();
        assert(d =~= most + (seq![44u8] + quoted(one)));
        if one == id {
            assert(d.subrange(m + 1, m + 1 + id.len() + 2) =~= quoted(id));
            lemma_key_at(d, m + 1, id);
        } else {
            let i = choose|i: int| 0 <= i < names.len() && names[i] == id;
            assert(names.drop_last()[i] == id);
            lemma_lists(names.drop_last(), id);
            let q = choose|q: int| #[trigger] key_at(most, q, id);
            lemma_key_at(most, q, id);
            assert(d.subrange(q, q + id.len() + 2) =~= most.subrange(q, q + id.len() + 2));
            lemma_key_at(d, q, id);
        }
    }
}

} // verus!
