use fraud_knn::calendar::{day_of_week_mon0, parse_ts_bytes, readable_ts, to_unix};
use fraud_knn::vectorize::{
    known_merchant, mcc_risk_bytes, read_request, vectorize, vectorize_raw, Feature,
};

fn number(text: &[u8]) -> f32 {
    std::str::from_utf8(text).unwrap().parse::<f64>().unwrap_or(0.0) as f32
}

fn evaluate(feature: &Feature) -> f32 {
    match *feature {
        Feature::Ratio { num, den } => num as f32 / den as f32,
        Feature::Scaled { number: text, max } => (number(text) / max as f32).clamp(0.0, 1.0),
        Feature::Relative { amount, average, factor } => {
            let average = number(average);
            if average > 0.0 {
                (number(amount) / (average * factor as f32)).clamp(0.0, 1.0)
            } else {
                0.0
            }
        }
        Feature::Absent => -1.0,
    }
}

fn values(body: &[u8]) -> [f32; 16] {
    assert!(read_request(body).is_some());
    let features = vectorize_raw(body);
    let mut v = [0.0f32; 16];
    for i in 0..16 {
        v[i] = evaluate(&features[i]);
    }
    v
}

fn legit_json() -> &'static [u8] {
    br#"{"transaction":{"amount":41.12,"installments":2,"requested_at":"2026-03-11T18:45:53Z"},"customer":{"avg_amount":82.24,"tx_count_24h":3,"known_merchants":["MERC-003","MERC-016"]},"merchant":{"id":"MERC-016","mcc":"5411","avg_amount":60.25},"terminal":{"is_online":false,"card_present":true,"km_from_home":29.23},"last_transaction":null}"#
}

#[test]
fn test_vectorize_legit() {
    let v = values(legit_json());
    let eps = 1e-3;

    assert!((v[0] - 0.0041).abs() < eps, "dim0 amount: {}", v[0]);
    assert!((v[1] - 0.1667).abs() < eps, "dim1 installments: {}", v[1]);
    assert!((v[2] - 0.05).abs() < eps, "dim2 amount_vs_avg: {}", v[2]);
    assert!((v[3] - 0.7826).abs() < eps, "dim3 hour 18/23: {}", v[3]);
    assert!((v[4] - 0.3333).abs() < eps, "dim4 dow: {}", v[4]);
    assert_eq!(v[5], -1.0, "dim5 without last transaction");
    assert_eq!(v[6], -1.0, "dim6 without last transaction");
    assert!((v[7] - 0.02923).abs() < eps, "dim7 km_home: {}", v[7]);
    assert!((v[8] - 0.15).abs() < eps, "dim8 tx_count: {}", v[8]);
    assert_eq!(v[9], 0.0, "dim9 is_online");
    assert_eq!(v[10], 1.0, "dim10 card_present");
    assert_eq!(v[11], 0.0, "dim11 known merchant");
    assert!((v[12] - 0.15).abs() < eps, "dim12 mcc 5411: {}", v[12]);
    assert!((v[13] - 0.006025).abs() < eps, "dim13 merchant_avg: {}", v[13]);
    assert_eq!(v[14], 0.0);
    assert_eq!(v[15], 0.0);
}

#[test]
fn test_unknown_merchant() {
    let json = br#"{"transaction":{"amount":41.12,"installments":2,"requested_at":"2026-03-11T18:45:53Z"},"customer":{"avg_amount":82.24,"tx_count_24h":3,"known_merchants":["MERC-003","MERC-016"]},"merchant":{"id":"MERC-999","mcc":"5411","avg_amount":60.25},"terminal":{"is_online":false,"card_present":true,"km_from_home":29.23},"last_transaction":null}"#;
    assert_eq!(values(json)[11], 1.0);
}

#[test]
fn test_minutes_since_last_tx() {
    let json = br#"{"transaction":{"amount":41.12,"installments":2,"requested_at":"2026-03-11T18:45:53Z"},"customer":{"avg_amount":82.24,"tx_count_24h":3,"known_merchants":[]},"merchant":{"id":"MERC-016","mcc":"5411","avg_amount":60.25},"terminal":{"is_online":false,"card_present":true,"km_from_home":29.23},"last_transaction":{"timestamp":"2026-03-11T12:45:53Z","km_from_current":100.0}}"#;
    let v = values(json);
    assert!((v[5] - 0.25).abs() < 1e-3, "dim5 360/1440: {}", v[5]);
    assert!((v[6] - 0.10).abs() < 1e-3, "dim6 100/1000: {}", v[6]);
}

#[test]
fn test_mcc_default() {
    let json = br#"{"transaction":{"amount":41.12,"installments":2,"requested_at":"2026-03-11T18:45:53Z"},"customer":{"avg_amount":82.24,"tx_count_24h":3,"known_merchants":[]},"merchant":{"id":"MERC-016","mcc":"9999","avg_amount":60.25},"terminal":{"is_online":false,"card_present":true,"km_from_home":29.23},"last_transaction":null}"#;
    assert_eq!(values(json)[12], 0.5);
}

#[test]
fn test_unix_epoch() {
    assert_eq!(to_unix(1970, 1, 1, 0, 0, 0), 0);
    assert_eq!(to_unix(1970, 1, 1, 0, 1, 0), 60);
    assert_eq!(to_unix(2026, 1, 1, 0, 0, 0), 1767225600);
}

#[test]
fn test_day_of_week() {
    assert_eq!(day_of_week_mon0(2026, 3, 11), 2); // Wednesday
    assert_eq!(day_of_week_mon0(2026, 1, 1), 3); // Thursday
    assert_eq!(day_of_week_mon0(2026, 3, 15), 6); // Sunday
}

#[test]
fn the_weekday_is_that_of_the_seconds_since_the_epoch() {
    for year in [1900u32, 1970, 1999, 2000, 2024, 2026, 2100] {
        for month in 1..=12u32 {
            let day = 1 + (year + month) % 28;
            let days = to_unix(year, month, day, 0, 0, 0).div_euclid(86400);
            let last = to_unix(year, month, day, 23, 59, 59).div_euclid(86400);
            assert_eq!(days, last);
            assert_eq!(day_of_week_mon0(year, month, day) as i64, (days + 3).rem_euclid(7));
        }
    }
}

#[test]
fn weekdays_reach_to_the_last_year_that_can_be_counted() {
    // weekdays repeat every 400 years, and both years leave 237
    assert_eq!(day_of_week_mon0(3435973837, 1, 1), day_of_week_mon0(2237, 1, 1));
    assert_eq!(day_of_week_mon0(3435973837, 2, 28), day_of_week_mon0(2237, 2, 28));
}

#[test]
fn leap_years_have_one_day_more() {
    let days = |year: u32| {
        (to_unix(year + 1, 1, 1, 0, 0, 0) - to_unix(year, 1, 1, 0, 0, 0)) / 86400
    };
    assert_eq!(days(2023), 365);
    assert_eq!(days(2024), 366);
    assert_eq!(days(1900), 365);
    assert_eq!(days(2000), 366);
}

#[test]
fn timestamps_are_read_digit_by_digit() {
    let ts = b"2026-03-11T18:45:53Z";
    assert!(readable_ts(ts));
    assert_eq!(parse_ts_bytes(ts), (18, 2, to_unix(2026, 3, 11, 18, 45, 53)));
    assert!(!readable_ts(b"2026-03-11T18:45:5"));
    assert!(!readable_ts(b"2026-13-11T18:45:53Z"));
    assert!(!readable_ts(b"2026-03-11T18:45: 3Z"));
    assert!(!readable_ts(b""));
}

#[test]
fn merchant_categories_have_fixed_risks() {
    let risks: [(&[u8], u32); 11] = [
        (b"5411", 15),
        (b"5812", 30),
        (b"5912", 20),
        (b"5944", 45),
        (b"7801", 80),
        (b"7802", 75),
        (b"7995", 85),
        (b"4511", 35),
        (b"5311", 25),
        (b"5999", 50),
        (b"", 50),
    ];
    for (mcc, risk) in risks {
        assert_eq!(mcc_risk_bytes(mcc), risk, "{mcc:?}");
    }
}

#[test]
fn a_merchant_is_known_by_its_quoted_name() {
    let list = br#""MERC-003","MERC-016""#;
    assert!(known_merchant(list, b"MERC-003"));
    assert!(known_merchant(list, b"MERC-016"));
    assert!(!known_merchant(list, b"MERC-01"));
    assert!(!known_merchant(list, b"ERC-016"));
    assert!(!known_merchant(list, b""));
    assert!(!known_merchant(b"", b"MERC-003"));
}

fn with(amount: &str, installments: &str, requested_at: &str, average: &str, last: &str) -> String {
    format!(
        r#"{{"transaction": {{"amount": {amount}, "installments": {installments}, "requested_at": "{requested_at}"}}, "customer": {{"avg_amount": {average}, "tx_count_24h": 3, "known_merchants": []}}, "merchant": {{"id": "M", "mcc": "5411", "avg_amount": 60.25}}, "terminal": {{"is_online": true, "card_present": false, "km_from_home": 29.23}}, "last_transaction": {last}}}"#
    )
}

#[test]
fn features_saturate() {
    let json = with("1e6", "48", "2026-03-11T18:45:53Z", "1", "null");
    let v = values(json.as_bytes());
    assert_eq!(v[0], 1.0);
    assert_eq!(v[1], 1.0);
    assert_eq!(v[2], 1.0);
    assert_eq!(v[9], 1.0);
    assert_eq!(v[10], 0.0);
}

#[test]
fn an_average_that_is_not_positive_gives_no_ratio() {
    let json = with("10", "1", "2026-03-11T18:45:53Z", "0", "null");
    assert_eq!(values(json.as_bytes())[2], 0.0);
    let json = with("10", "1", "2026-03-11T18:45:53Z", "-5.5", "null");
    assert_eq!(values(json.as_bytes())[2], 0.0);
}

#[test]
fn a_last_transaction_in_the_future_counts_as_now() {
    let last = r#"{"timestamp": "2026-03-11T19:00:00Z", "km_from_current": 2500}"#;
    let json = with("10", "1", "2026-03-11T18:45:53Z", "10", last);
    let v = values(json.as_bytes());
    assert_eq!(v[5], 0.0);
    assert_eq!(v[6], 1.0);
}

#[test]
fn the_time_since_the_last_transaction_saturates_at_a_day() {
    let last = r#"{"timestamp": "2026-03-01T18:45:53Z", "km_from_current": 0}"#;
    let json = with("10", "1", "2026-03-11T18:45:53Z", "10", last);
    let v = values(json.as_bytes());
    assert_eq!(v[5], 1.0);
    assert_eq!(v[6], 0.0);
}

#[test]
fn a_request_without_a_last_transaction_lacks_its_features() {
    let json = with("10", "1", "2026-03-11T18:45:53Z", "10", "null");
    let request = read_request(json.as_bytes()).unwrap();
    assert!(request.last_transaction.is_none());
    let features = vectorize(&request);
    assert!(matches!(features[5], Feature::Absent));
    assert!(matches!(features[6], Feature::Absent));
}

#[test]
fn a_request_is_read_field_by_field() {
    let request = read_request(legit_json()).unwrap();
    assert_eq!(request.transaction.amount, b"41.12");
    assert_eq!(request.transaction.installments, 2);
    assert_eq!(request.transaction.requested_at, b"2026-03-11T18:45:53Z");
    assert_eq!(request.customer.avg_amount, b"82.24");
    assert_eq!(request.customer.tx_count_24h, 3);
    assert_eq!(request.customer.known_merchants, br#""MERC-003","MERC-016""#);
    assert_eq!(request.merchant.id, b"MERC-016");
    assert_eq!(request.merchant.mcc, b"5411");
    assert_eq!(request.merchant.avg_amount, b"60.25");
    assert!(!request.terminal.is_online);
    assert!(request.terminal.card_present);
    assert_eq!(request.terminal.km_from_home, b"29.23");
}

#[test]
fn requests_that_cannot_be_read_are_told_apart() {
    assert!(read_request(b"").is_none());
    assert!(read_request(b"{}").is_none());
    let late = with("10", "1", "2026-13-11T18:45:53Z", "10", "null");
    assert!(read_request(late.as_bytes()).is_none());
    let many = with("10", "4294967296", "2026-03-11T18:45:53Z", "10", "null");
    assert!(read_request(many.as_bytes()).is_none());
    let most = with("10", "4294967295", "2026-03-11T18:45:53Z", "10", "null");
    assert!(read_request(most.as_bytes()).is_some());
}

/// The body with `blank` put between all tokens but those of words.
fn spread(body: &[u8], blank: &[u8]) -> Vec<u8> {
    let mut out = blank.to_vec();
    let mut in_string = false;
    let mut escaped = false;
    for &b in body {
        let mark = !in_string && b"{}[]:,".contains(&b);
        if mark {
            out.extend_from_slice(blank);
        }
        out.push(b);
        if mark {
            out.extend_from_slice(blank);
        }
        if in_string {
            if escaped {
                escaped = false;
            } else if b == b'\\' {
                escaped = true;
            } else if b == b'"' {
                in_string = false;
            }
        } else if b == b'"' {
            in_string = true;
        }
    }
    out.extend_from_slice(blank);
    out
}

#[test]
fn white_space_between_tokens_changes_nothing() {
    let last = r#"{"timestamp": "2026-03-11T12:45:53Z", "km_from_current": 100.0}"#;
    let other = with("41.5", "2", "2026-03-11T18:45:53Z", "82.25", last);
    for body in [legit_json(), other.as_bytes()] {
        let v = values(body);
        for blank in [&b" "[..], b"\t", b"\r\n", b" \n\t\r  "] {
            assert_eq!(values(&spread(body, blank)), v);
        }
    }
}

#[test]
fn a_merchant_named_like_a_separator_depends_on_white_space() {
    let tight = br#"{"amount":1,"installments":1,"requested_at":"2026-03-11T18:45:53Z","avg_amount":1,"tx_count_24h":1,"known_merchants":["A","B"],"id":",","mcc":"5411","avg_amount":1,"is_online":true,"card_present":true,"km_from_home":1}"#;
    assert_eq!(values(tight)[11], 0.0);
    assert_eq!(values(&spread(tight, b" "))[11], 1.0);
}

#[test]
fn escaped_quotes_and_brackets_in_names_are_read_over() {
    let json = br#"{"transaction":{"amount":41.12,"installments":2,"requested_at":"2026-03-11T18:45:53Z"},"customer":{"avg_amount":82.24,"tx_count_24h":3,"known_merchants":["a]b","c\"d"]},"merchant":{"id":"c\"d","mcc":"5411","avg_amount":60.25},"terminal":{"is_online":false,"card_present":true,"km_from_home":29.23},"last_transaction":null}"#;
    let request = read_request(json).unwrap();
    assert_eq!(request.customer.known_merchants, br#""a]b","c\"d""#);
    assert_eq!(request.merchant.id, br#"c\"d"#);
    assert_eq!(values(json)[11], 0.0);
}
