//! From the JSON body of a request to the sixteen features of a query.
//!
//! The fields are expected in the order of the schema: transaction, customer,
//! merchant, terminal, last transaction.

use crate::calendar::{
    is_timestamp, parse_ts_bytes, readable_ts, ts_hour, ts_unix, ts_weekday,
};
use crate::models::{
    Customer, FraudRequest, LastTransaction, LastView, Merchant, RequestView, Terminal,
    Transaction,
};
use crate::scan::{
    after_array, after_key, after_string, array_at, array_slice, array_start, bytes_equal,
    decimal_run, has_key, has_quoted, holds_quoted, is_true, law_run, lemma_after_key,
    lemma_after_string, lemma_array_end, number_slice, parse_bool, run_end, scan_u32, seek,
    str_slice, string_at, Class,
};
use vstd::prelude::*;
use vstd::string::*;

verus! {

/// Amount at which the amount feature saturates.
pub const MAX_AMOUNT: u32 = 10000;

/// Installments at which their feature saturates.
pub const MAX_INSTALLMENTS: u32 = 12;

/// Multiple of the customer's average at which the ratio feature saturates.
pub const AMOUNT_VS_AVG_RATIO: u32 = 10;

/// Minutes since the last transaction at which their feature saturates.
pub const MAX_MINUTES: u32 = 1440;

/// Distance at which the distance features saturate.
pub const MAX_KM: u32 = 1000;

/// Transactions in a day at which their feature saturates.
pub const MAX_TX_COUNT_24H: u32 = 20;

/// Merchant average at which its feature saturates.
pub const MAX_MERCHANT_AVG: u32 = 10000;

/// One feature of a query, short of the floating-point arithmetic that evaluates it.
#[derive(Clone, Copy)]
pub enum Feature<'a> {
    /// `num / den`.
    Ratio { num: u32, den: u32 },
    /// The number that the text writes over `max`, clamped to the range 0 to 1.
    Scaled { number: &'a [u8], max: u32 },
    /// `amount` over `factor` times `average`, clamped to the range 0 to 1; 0
    /// unless the average is positive.
    Relative { amount: &'a [u8], average: &'a [u8], factor: u32 },
    /// No last transaction: -1.
    Absent,
}

/// What a [`Feature`] says.
pub enum FeatureView {
    Ratio { num: int, den: int },
    Scaled { number: Seq<u8>, max: int },
    Relative { amount: Seq<u8>, average: Seq<u8>, factor: int },
    Absent,
}

impl<'a> View for Feature<'a> {
    type V = FeatureView;

    open spec fn view(&self) -> FeatureView {
        match self {
            Feature::Ratio { num, den } => FeatureView::Ratio { num: *num as int, den: *den as int },
            Feature::Scaled { number, max } => FeatureView::Scaled {
                number: number@,
                max: *max as int,
            },
            Feature::Relative { amount, average, factor } => FeatureView::Relative {
                amount: amount@,
                average: average@,
                factor: *factor as int,
            },
            Feature::Absent => FeatureView::Absent,
        }
    }
}

/// The smaller of two numbers.
pub open spec fn at_most(n: int, max: int) -> int {
    if n < max {
        n
    } else {
        max
    }
}

/// Risk of a merchant category code in hundredths.
pub open spec fn mcc_risk(mcc: Seq<u8>) -> int {
    if mcc == "5411".spec_bytes() {
        15
    } else if mcc == "5812".spec_bytes() {
        30
    } else if mcc == "5912".spec_bytes() {
        20
    } else if mcc == "5944".spec_bytes() {
        45
    } else if mcc == "7801".spec_bytes() {
        80
    } else if mcc == "7802".spec_bytes() {
        75
    } else if mcc == "7995".spec_bytes() {
        85
    } else if mcc == "4511".spec_bytes() {
        35
    } else if mcc == "5311".spec_bytes() {
        25
    } else {
        50
    }
}

/// Whether the list of known merchants holds the name, in quotation marks.
pub open spec fn is_known(list: Seq<u8>, id: Seq<u8>) -> bool {
    id.len() > 0 && has_quoted(list, id)
}

/// Whole minutes from the last transaction to this one, 0 if it lies ahead.
pub open spec fn minutes_between(last: Seq<u8>, current: Seq<u8>) -> int {
    let seconds = ts_unix(current) - ts_unix(last);
    if seconds > 0 {
        seconds / 60
    } else {
        0
    }
}

/// 1 for yes, 0 for no.
pub open spec fn flag(b: bool) -> FeatureView {
    FeatureView::Ratio {
        num: if b {
            1
        } else {
            0
        },
        den: 1,
    }
}

/// `num / den`, clamped to at most 1.
pub open spec fn clamped(num: int, den: int) -> FeatureView {
    FeatureView::Ratio { num: at_most(num, den), den }
}

/// The sixteen features of a request: fourteen dimensions and two of padding.
pub open spec fn features_of(r: RequestView) -> Seq<FeatureView> {
    seq![
        FeatureView::Scaled { number: r.amount, max: MAX_AMOUNT as int },
        clamped(r.installments as int, MAX_INSTALLMENTS as int),
        FeatureView::Relative {
            amount: r.amount,
            average: r.customer_avg_amount,
            factor: AMOUNT_VS_AVG_RATIO as int,
        },
        FeatureView::Ratio { num: ts_hour(r.requested_at), den: 23 },
        FeatureView::Ratio { num: ts_weekday(r.requested_at), den: 6 },
        match r.last_transaction {
            Some(last) => clamped(
                minutes_between(last.timestamp, r.requested_at),
                MAX_MINUTES as int,
            ),
            None => FeatureView::Absent,
        },
        match r.last_transaction {
            Some(last) => FeatureView::Scaled { number: last.km_from_current, max: MAX_KM as int },
            None => FeatureView::Absent,
        },
        FeatureView::Scaled { number: r.km_from_home, max: MAX_KM as int },
        clamped(r.tx_count_24h as int, MAX_TX_COUNT_24H as int),
        flag(r.is_online),
        flag(r.card_present),
        flag(!is_known(r.known_merchants, r.merchant_id)),
        FeatureView::Ratio { num: mcc_risk(r.mcc), den: 100 },
        FeatureView::Scaled { number: r.merchant_avg_amount, max: MAX_MERCHANT_AVG as int },
        FeatureView::Ratio { num: 0, den: 1 },
        FeatureView::Ratio { num: 0, den: 1 },
    ]
}

/// Whether the timestamps of a request can be read.
pub open spec fn is_dated(r: RequestView) -> bool {
    &&& is_timestamp(r.requested_at)
    &&& match r.last_transaction {
        Some(last) => is_timestamp(last.timestamp),
        None => true,
    }
}

/// Position after the truth value at `p`.
pub open spec fn after_bool(d: Seq<u8>, p: int) -> int {
    p + if is_true(d, p) {
        4int
    } else {
        5
    }
}

/// The bytes at `p` that may write a number.
pub open spec fn number_at(d: Seq<u8>, p: int) -> Seq<u8> {
    d.subrange(p, run_end(d, p, Class::Number))
}

/// The last transaction, looked for from `p` on; none if the field is missing or
/// its value starts like `null`.
pub open spec fn last_at(d: Seq<u8>, p: int) -> Option<LastView> {
    let l = after_key(d, p, "last_transaction".spec_bytes());
    if has_key(d, p, "last_transaction".spec_bytes()) && l < d.len() && d[l] != 110 {
        let t = after_key(d, l, "timestamp".spec_bytes());
        let k = after_key(d, after_string(d, t), "km_from_current".spec_bytes());
        Some(LastView { timestamp: string_at(d, t), km_from_current: number_at(d, k) })
    } else {
        None
    }
}

/// Where the values of the fields start, each looked for after the value before it.
pub struct Layout {
    pub amount: int,
    pub installments: int,
    pub requested_at: int,
    pub average: int,
    pub count: int,
    pub known: int,
    pub id: int,
    pub mcc: int,
    pub merchant_average: int,
    pub online: int,
    pub card: int,
    pub km: int,
}

/// The fields of a body.
pub open spec fn layout(d: Seq<u8>) -> Layout {
    let amount = after_key(d, 0, "amount".spec_bytes());
    let installments = after_key(
        d,
        run_end(d, amount, Class::Number),
        "installments".spec_bytes(),
    );
    let requested_at = after_key(
        d,
        run_end(d, installments, Class::Digit),
        "requested_at".spec_bytes(),
    );
    let average = after_key(d, after_string(d, requested_at), "avg_amount".spec_bytes());
    let count = after_key(d, run_end(d, average, Class::Number), "tx_count_24h".spec_bytes());
    let known = after_key(d, run_end(d, count, Class::Digit), "known_merchants".spec_bytes());
    let id = after_key(d, after_array(d, known), "id".spec_bytes());
    let mcc = after_key(d, after_string(d, id), "mcc".spec_bytes());
    let merchant_average = after_key(d, after_string(d, mcc), "avg_amount".spec_bytes());
    let online = after_key(
        d,
        run_end(d, merchant_average, Class::Number),
        "is_online".spec_bytes(),
    );
    let card = after_key(d, after_bool(d, online), "card_present".spec_bytes());
    let km = after_key(d, after_bool(d, card), "km_from_home".spec_bytes());
    Layout {
        amount,
        installments,
        requested_at,
        average,
        count,
        known,
        id,
        mcc,
        merchant_average,
        online,
        card,
        km,
    }
}

/// What the fields of a body say.
pub open spec fn request_at(d: Seq<u8>, l: Layout) -> RequestView {
    RequestView {
        amount: number_at(d, l.amount),
        installments: decimal_run(d, l.installments) as u32,
        requested_at: string_at(d, l.requested_at),
        customer_avg_amount: number_at(d, l.average),
        tx_count_24h: decimal_run(d, l.count) as u32,
        known_merchants: array_at(d, l.known),
        merchant_id: string_at(d, l.id),
        mcc: string_at(d, l.mcc),
        merchant_avg_amount: number_at(d, l.merchant_average),
        is_online: is_true(d, l.online),
        card_present: is_true(d, l.card),
        km_from_home: number_at(d, l.km),
        last_transaction: last_at(d, run_end(d, l.km, Class::Number)),
    }
}

/// The request that a body writes, if the fields can be read: the counts fit in 32
/// bits, the timestamps are long enough and dated, the list of merchants has a
/// first byte, and the body does not end within a truth value.
pub open spec fn request_of(d: Seq<u8>) -> Option<RequestView> {
    let l = layout(d);
    if {
        &&& decimal_run(d, l.installments) <= u32::MAX
        &&& decimal_run(d, l.count) <= u32::MAX
        &&& array_start(d, l.known) < d.len()
        &&& after_bool(d, l.online) <= d.len()
        &&& after_bool(d, l.card) <= d.len()
        &&& is_dated(request_at(d, l))
    } {
        Some(request_at(d, l))
    } else {
        None
    }
}

/// Risk of a merchant category code in hundredths; 50 for a code that is not known.
pub fn mcc_risk_bytes(mcc: &[u8]) -> (r: u32)
    ensures
        r == mcc_risk(mcc@),
        r <= 100,
{
    if bytes_equal(mcc, "5411".as_bytes()) {
        15
    } else if bytes_equal(mcc, "5812".as_bytes()) {
        30
    } else if bytes_equal(mcc, "5912".as_bytes()) {
        20
    } else if bytes_equal(mcc, "5944".as_bytes()) {
        45
    } else if bytes_equal(mcc, "7801".as_bytes()) {
        80
    } else if bytes_equal(mcc, "7802".as_bytes()) {
        75
    } else if bytes_equal(mcc, "7995".as_bytes()) {
        85
    } else if bytes_equal(mcc, "4511".as_bytes()) {
        35
    } else if bytes_equal(mcc, "5311".as_bytes()) {
        25
    } else {
        50
    }
}

/// Whether the list of known merchants holds the name, in quotation marks.
pub fn known_merchant(list: &[u8], id: &[u8]) -> (r: bool)
    ensures
        r == is_known(list@, id@),
{
    id.len() > 0 && holds_quoted(list, id)
}

/// Reads the truth value at `pos`, unless the body ends within it.
fn scan_bool(d: &[u8], pos: &mut usize) -> (r: Option<bool>)
    requires
        *old(pos) <= d@.len(),
    ensures
        match r {
            Some(b) => {
                &&& b == is_true(d@, *old(pos) as int)
                &&& *final(pos) == after_bool(d@, *old(pos) as int)
                &&& *final(pos) <= d@.len()
            },
            None => after_bool(d@, *old(pos) as int) > d@.len(),
        },
{
    if d.len() - *pos < 4 {
        return None;
    }
    if d.len() - *pos == 4 {
        return if bytes_equal(&d[*pos..*pos + 4], "true".as_bytes()) {
            *pos = *pos + 4;
            Some(true)
        } else {
            None
        };
    }
    Some(parse_bool(d, pos))
}

/// Reads the last transaction from `pos` on; `Err` if its timestamp cannot be read.
fn read_last<'a>(d: &'a [u8], from: usize) -> (r: Result<Option<LastTransaction<'a>>, ()>)
    requires
        from <= d@.len(),
    ensures
        match (r, last_at(d@, from as int)) {
            (Ok(Some(last)), Some(v)) => {
                &&& is_timestamp(v.timestamp)
                &&& v == LastView {
                    timestamp: last.timestamp@,
                    km_from_current: last.km_from_current@,
                }
            },
            (Ok(None), None) => true,
            (Err(_), Some(v)) => !is_timestamp(v.timestamp),
            _ => false,
        },
{
    let mut pos: usize = from;
    proof {
        lemma_after_key(d@, from as int, "last_transaction".spec_bytes());
    }
    if seek(d, &mut pos, "last_transaction".as_bytes()) && pos < d.len() && d[pos] != 110 {
        proof {
            lemma_after_key(d@, pos as int, "timestamp".spec_bytes());
        }
        seek(d, &mut pos, "timestamp".as_bytes());
        proof {
            lemma_after_string(d@, pos as int);
        }
        let timestamp = str_slice(d, &mut pos);
        proof {
            lemma_after_key(d@, pos as int, "km_from_current".spec_bytes());
        }
        seek(d, &mut pos, "km_from_current".as_bytes());
        let km_from_current = number_slice(d, &mut pos);
        if !readable_ts(timestamp) {
            return Err(());
        }
        Ok(Some(LastTransaction { timestamp, km_from_current }))
    } else {
        Ok(None)
    }
}

/// Reads the request that a body writes, if its fields can be read.
pub fn read_request<'a>(body: &'a [u8]) -> (r: Option<FraudRequest<'a>>)
    ensures
        match (r, request_of(body@)) {
            (Some(request), Some(v)) => request@ == v && is_dated(v),
            (None, None) => true,
            _ => false,
        },
{
    let ghost d = body@;
    let mut pos: usize = 0;

    proof {
        lemma_after_key(d, pos as int, "amount".spec_bytes());
    }
    seek(body, &mut pos, "amount".as_bytes());
    proof {
        law_run(d, pos as int, Class::Number);
    }
    let amount = number_slice(body, &mut pos);

    proof {
        lemma_after_key(d, pos as int, "installments".spec_bytes());
    }
    seek(body, &mut pos, "installments".as_bytes());
    proof {
        law_run(d, pos as int, Class::Digit);
    }
    let installments: u32 = match scan_u32(body, &mut pos) {
        Some(n) => n,
        None => {
            return None;
        },
    };

    proof {
        lemma_after_key(d, pos as int, "requested_at".spec_bytes());
    }
    seek(body, &mut pos, "requested_at".as_bytes());
    proof {
        lemma_after_string(d, pos as int);
    }
    let requested_at = str_slice(body, &mut pos);
    if !readable_ts(requested_at) {
        return None;
    }

    proof {
        lemma_after_key(d, pos as int, "avg_amount".spec_bytes());
    }
    seek(body, &mut pos, "avg_amount".as_bytes());
    proof {
        law_run(d, pos as int, Class::Number);
    }
    let customer_avg = number_slice(body, &mut pos);

    proof {
        lemma_after_key(d, pos as int, "tx_count_24h".spec_bytes());
    }
    seek(body, &mut pos, "tx_count_24h".as_bytes());
    proof {
        law_run(d, pos as int, Class::Digit);
    }
    let tx_count_24h: u32 = match scan_u32(body, &mut pos) {
        Some(n) => n,
        None => {
            return None;
        },
    };

    proof {
        lemma_after_key(d, pos as int, "known_merchants".spec_bytes());
    }
    seek(body, &mut pos, "known_merchants".as_bytes());
    if pos == body.len() || (body[pos] == 91 && pos + 1 == body.len()) {
        return None;
    }
    proof {
        lemma_array_end(d, array_start(d, pos as int), 1);
    }
    let known_merchants = array_slice(body, &mut pos);

    proof {
        lemma_after_key(d, pos as int, "id".spec_bytes());
    }
    seek(body, &mut pos, "id".as_bytes());
    proof {
        lemma_after_string(d, pos as int);
    }
    let id = str_slice(body, &mut pos);

    proof {
        lemma_after_key(d, pos as int, "mcc".spec_bytes());
    }
    seek(body, &mut pos, "mcc".as_bytes());
    proof {
        lemma_after_string(d, pos as int);
    }
    let mcc = str_slice(body, &mut pos);

    proof {
        lemma_after_key(d, pos as int, "avg_amount".spec_bytes());
    }
    seek(body, &mut pos, "avg_amount".as_bytes());
    proof {
        law_run(d, pos as int, Class::Number);
    }
    let merchant_avg = number_slice(body, &mut pos);

    proof {
        lemma_after_key(d, pos as int, "is_online".spec_bytes());
    }
    seek(body, &mut pos, "is_online".as_bytes());
    let is_online = match scan_bool(body, &mut pos) {
        Some(b) => b,
        None => {
            return None;
        },
    };

    proof {
        lemma_after_key(d, pos as int, "card_present".spec_bytes());
    }
    seek(body, &mut pos, "card_present".as_bytes());
    let card_present = match scan_bool(body, &mut pos) {
        Some(b) => b,
        None => {
            return None;
        },
    };

    proof {
        lemma_after_key(d, pos as int, "km_from_home".spec_bytes());
    }
    seek(body, &mut pos, "km_from_home".as_bytes());
    proof {
        law_run(d, pos as int, Class::Number);
    }
    let km_from_home = number_slice(body, &mut pos);

    let last_transaction = match read_last(body, pos) {
        Ok(last) => last,
        Err(_) => {
            return None;
        },
    };

    Some(
        FraudRequest {
            transaction: Transaction { amount, installments, requested_at },
            customer: Customer { avg_amount: customer_avg, tx_count_24h, known_merchants },
            merchant: Merchant { id, mcc, avg_amount: merchant_avg },
            terminal: Terminal { is_online, card_present, km_from_home },
            last_transaction,
        },
    )
}

/// `num / den`, clamped to at most 1.
fn clamped_ratio<'a>(num: u32, den: u32) -> (r: Feature<'a>)
    ensures
        r@ == clamped(num as int, den as int),
{
    Feature::Ratio {
        num: if num < den {
            num
        } else {
            den
        },
        den,
    }
}

/// 1 for yes, 0 for no.
fn flag_ratio<'a>(b: bool) -> (r: Feature<'a>)
    ensures
        r@ == flag(b),
{
    Feature::Ratio {
        num: if b {
            1
        } else {
            0
        },
        den: 1,
    }
}

/// Whole minutes from the last transaction to this one, at most [`MAX_MINUTES`].
fn minutes_since(last: &[u8], current: &[u8]) -> (r: u32)
    requires
        is_timestamp(last@),
        is_timestamp(current@),
    ensures
        r == at_most(minutes_between(last@, current@), MAX_MINUTES as int),
{
    let (_, _, cur_unix): (u32, u32, i64) = parse_ts_bytes(current);
    let (_, _, last_unix): (u32, u32, i64) = parse_ts_bytes(last);
    proof {
        lemma_unix_range(current@);
        lemma_unix_range(last@);
    }
    let seconds: i64 = cur_unix - last_unix;
    let minutes: i64 = if seconds > 0 {
        seconds / 60
    } else {
        0
    };
    if minutes < MAX_MINUTES as i64 {
        minutes as u32
    } else {
        MAX_MINUTES
    }
}

/// What the features of a query say.
pub open spec fn feature_views(features: Seq<Feature<'_>>) -> Seq<FeatureView> {
    features.map_values(|f: Feature<'_>| f@)
}

/// The sixteen features of a request: fourteen dimensions and two of padding.
pub fn vectorize<'a>(request: &FraudRequest<'a>) -> (r: [Feature<'a>; 16])
    requires
        is_dated(request@),
    ensures
        feature_views(r@) == features_of(request@),
{
    let amount = request.transaction.amount;
    let (hour, dow, _): (u32, u32, i64) = parse_ts_bytes(request.transaction.requested_at);
    let (since_last, km_from_last): (Feature<'a>, Feature<'a>) = match request.last_transaction {
        Some(last) => (
            Feature::Ratio {
                num: minutes_since(last.timestamp, request.transaction.requested_at),
                den: MAX_MINUTES,
            },
            Feature::Scaled { number: last.km_from_current, max: MAX_KM },
        ),
        None => (Feature::Absent, Feature::Absent),
    };
    let known: bool = known_merchant(request.customer.known_merchants, request.merchant.id);
    let r: [Feature<'a>; 16] = [
        Feature::Scaled { number: amount, max: MAX_AMOUNT },
        clamped_ratio(request.transaction.installments, MAX_INSTALLMENTS),
        Feature::Relative {
            amount,
            average: request.customer.avg_amount,
            factor: AMOUNT_VS_AVG_RATIO,
        },
        Feature::Ratio { num: hour, den: 23 },
        Feature::Ratio { num: dow, den: 6 },
        since_last,
        km_from_last,
        Feature::Scaled { number: request.terminal.km_from_home, max: MAX_KM },
        clamped_ratio(request.customer.tx_count_24h, MAX_TX_COUNT_24H),
        flag_ratio(request.terminal.is_online),
        flag_ratio(request.terminal.card_present),
        flag_ratio(!known),
        Feature::Ratio { num: mcc_risk_bytes(request.merchant.mcc), den: 100 },
        Feature::Scaled { number: request.merchant.avg_amount, max: MAX_MERCHANT_AVG },
        Feature::Ratio { num: 0, den: 1 },
        Feature::Ratio { num: 0, den: 1 },
    ];
    assert(feature_views(r@) =~= features_of(request@));
    r
}

/// The sixteen features of the request that a body writes.
pub fn vectorize_raw<'a>(body: &'a [u8]) -> (r: [Feature<'a>; 16])
    requires
        request_of(body@) is Some,
    ensures
        feature_views(r@) == features_of(request_of(body@).unwrap()),
{
    let request = read_request(body).unwrap();
    vectorize(&request)
}

/// Whether a ratio lies within the range 0 to 1. Features that are evaluated in
/// floating point are clamped to that range there.
pub open spec fn in_unit_range(f: FeatureView) -> bool {
    match f {
        FeatureView::Ratio { num, den } => 0 <= num <= den && den > 0,
        _ => true,
    }
}

/// All features lie within the range 0 to 1 (or are absent), as long as the hour
/// of the request is an hour of the day.
pub proof fn law_unit_range(r: RequestView)
    requires
        is_dated(r),
        ts_hour(r.requested_at) <= 23,
    ensures
        features_of(r).len() == 16,
        forall|i: int| 0 <= i < 16 ==> in_unit_range(#[trigger] features_of(r)[i]),
{
    let b = r.requested_at;
    assert(b[11] >= 48 && b[12] >= 48);
    assert(0 <= ts_hour(b));
    assert(0 <= ts_weekday(b) <= 6);
    lemma_ratios(r);
}

/// The ratios of a request, one by one.
proof fn lemma_ratios(r: RequestView)
    requires
        0 <= ts_hour(r.requested_at) <= 23,
        0 <= ts_weekday(r.requested_at) <= 6,
    ensures
        features_of(r).len() == 16,
        forall|i: int| 0 <= i < 16 ==> in_unit_range(#[trigger] features_of(r)[i]),
{
    let f = features_of(r);
    lemma_risk_range(r.mcc);
    assert(in_unit_range(f[3]) && in_unit_range(f[4]));
    assert(in_unit_range(f[5]));
    assert(in_unit_range(f[12]));
}

/// Risks are hundredths.
proof fn lemma_risk_range(mcc: Seq<u8>)
    ensures
        0 <= mcc_risk(mcc) <= 100,
{
}

/// The two features of the last transaction are absent just when there is none, no
/// other feature ever is, and the padding is zero.
pub proof fn law_absent(r: RequestView)
    ensures
        forall|i: int|
            0 <= i < 16 ==> ((#[trigger] features_of(r)[i] is Absent) <==> (r.last_transaction is None
                && (i == 5 || i == 6))),
        features_of(r)[14] == (FeatureView::Ratio { num: 0, den: 1 }),
        features_of(r)[15] == (FeatureView::Ratio { num: 0, den: 1 }),
{
}

/// Timestamps are small enough to subtract.
proof fn lemma_unix_range(b: Seq<u8>)
    requires
        is_timestamp(b),
    ensures
        -100_000_000_000_000 < ts_unix(b) < 100_000_000_000_000,
{
    let y = crate::calendar::ts_year(b);
    assert(0 <= y <= 1_000_000) by {
        assert(b[0] >= 48 && b[1] >= 48 && b[2] >= 48 && b[3] >= 48);
    }
    assert(b[5] >= 48 && b[6] >= 48 && b[8] >= 48 && b[9] >= 48);
    assert(b[11] >= 48 && b[12] >= 48 && b[14] >= 48 && b[15] >= 48 && b[17] >= 48 && b[18] >= 48);
    assert(0 <= (y + 3) / 4 <= 1_000_000);
    assert(0 <= (y + 99) / 100 <= 1_000_000);
    assert(0 <= (y + 399) / 400 <= 1_000_000);
}

} // verus!
