use fraud_knn::scan::{
    array_slice, bytes_equal, holds_quoted, number_slice, parse_bool, parse_u32, scan_u32, seek, skip_ws,
    str_slice,
};

#[test]
fn blanks_are_skipped() {
    let d = b" \t\r\n x";
    let mut p = 0;
    skip_ws(d, &mut p);
    assert_eq!(p, 5);
    skip_ws(d, &mut p);
    assert_eq!(p, 5);
    let mut past = 9;
    skip_ws(d, &mut past);
    assert_eq!(past, 9);
}

#[test]
fn a_key_is_sought_with_its_quotes() {
    let d = br#"{"ab":1,"a" : 2}"#;
    let mut p = 0;
    assert!(seek(d, &mut p, b"a"));
    assert_eq!(d[p], b'2');
    let mut p = 0;
    assert!(seek(d, &mut p, b"ab"));
    assert_eq!(d[p], b'1');
    assert!(!seek(d, &mut p, b"ab"));
    let mut p = 0;
    assert!(!seek(d, &mut p, b"b"));
}

#[test]
fn a_key_has_a_colon() {
    let d = br#""id","id":1"#;
    let mut p = 0;
    assert!(seek(d, &mut p, b"id"));
    assert_eq!(p, 10);
    let d = b"\"id\" \t:\r\n 5";
    let mut p = 0;
    assert!(seek(d, &mut p, b"id"));
    assert_eq!(d[p], b'5');
    let mut p = 0;
    assert!(!seek(br#"["a" 5]"#, &mut p, b"a"));
    let mut p = 0;
    assert!(!seek(br#"{"a""#, &mut p, b"a"));
}

#[test]
fn names_are_found_in_their_quotes() {
    assert!(holds_quoted(br#""ab","c""#, b"ab"));
    assert!(holds_quoted(br#""ab","c""#, b"c"));
    assert!(!holds_quoted(br#""ab","c""#, b"b"));
    assert!(!holds_quoted(b"", b"b"));
}

#[test]
fn numbers_end_at_the_first_other_character() {
    let d = b"-12.5e+3,";
    let mut p = 0;
    assert_eq!(number_slice(d, &mut p), b"-12.5e+3");
    assert_eq!(p, 8);
    assert_eq!(number_slice(d, &mut p), b"");
}

#[test]
fn whole_numbers_are_read_in_decimal() {
    let mut p = 1;
    assert_eq!(parse_u32(b"x0420.5", &mut p), 420);
    assert_eq!(p, 5);
    let mut p = 0;
    assert_eq!(parse_u32(b"abc", &mut p), 0);
    let mut p = 0;
    assert_eq!(scan_u32(b"4294967295", &mut p), Some(4294967295));
    let mut p = 0;
    assert_eq!(scan_u32(b"4294967296", &mut p), None);
    assert_eq!(p, 10);
}

#[test]
fn what_is_not_true_is_false() {
    let mut p = 0;
    assert!(parse_bool(b"true", &mut p));
    assert_eq!(p, 4);
    let mut p = 0;
    assert!(!parse_bool(b"false", &mut p));
    assert_eq!(p, 5);
    let mut p = 0;
    assert!(!parse_bool(b"tru", &mut p));
    assert_eq!(p, 5);
}

#[test]
fn strings_end_at_the_next_quote() {
    let d = br#""abc",""#;
    let mut p = 0;
    assert_eq!(str_slice(d, &mut p), b"abc");
    assert_eq!(p, 5);
    let mut p = 1;
    assert_eq!(str_slice(d, &mut p), b"abc");
}

#[test]
fn an_escaped_quote_does_not_end_a_string() {
    let d = br#""a\"b""#;
    let mut p = 0;
    assert_eq!(str_slice(d, &mut p), br#"a\"b"#);
    assert_eq!(p, 6);
    let d = br#""a\\","b""#;
    let mut p = 0;
    assert_eq!(str_slice(d, &mut p), br#"a\\"#);
    assert_eq!(p, 5);
    let mut p = 0;
    assert_eq!(str_slice(br#""a\"#, &mut p), br#"a\"#);
    assert_eq!(p, 3);
}

#[test]
fn arrays_end_at_their_own_bracket() {
    let d = br#"["a",["b"]],1"#;
    let mut p = 0;
    assert_eq!(array_slice(d, &mut p), br#""a",["b"]"#);
    assert_eq!(p, 11);
    let d = br#"["a]b"]"#;
    let mut p = 0;
    assert_eq!(array_slice(d, &mut p), br#""a]b""#);
    assert_eq!(p, 7);
    let d = br#"["[\"]"],1"#;
    let mut p = 0;
    assert_eq!(array_slice(d, &mut p), br#""[\"]""#);
    assert_eq!(p, 8);
}

#[test]
fn equal_bytes_are_equal_in_length_and_content() {
    assert!(bytes_equal(b"", b""));
    assert!(bytes_equal(b"ab", b"ab"));
    assert!(!bytes_equal(b"ab", b"abc"));
    assert!(!bytes_equal(b"ab", b"ac"));
}
