use codecompass::decimal::{append_i64, append_padded, append_u64, parse_i64};

#[test]
fn numbers_are_written_in_decimal() {
    let mut s = String::from("n=");
    append_u64(&mut s, 1234);
    assert_eq!(s, "n=1234");
    let mut s = String::new();
    append_i64(&mut s, -45);
    assert_eq!(s, "-45");
    let mut s = String::new();
    append_i64(&mut s, i64::MIN);
    assert_eq!(s, "-9223372036854775808");
    let mut s = String::new();
    append_padded(&mut s, 7, 2);
    assert_eq!(s, "07");
    let mut s = String::new();
    append_padded(&mut s, 2024, 2);
    assert_eq!(s, "2024");
    let mut s = String::new();
    append_u64(&mut s, 0);
    assert_eq!(s, "0");
}

#[test]
fn integers_are_parsed() {
    let v: Vec<char> = "x 42 -7 +3 9223372036854775808 - 12a".chars().collect();
    assert_eq!(parse_i64(&v, 2, 4), Some(42));
    assert_eq!(parse_i64(&v, 5, 7), Some(-7));
    assert_eq!(parse_i64(&v, 8, 10), Some(3));
    assert_eq!(parse_i64(&v, 11, 30), None);
    assert_eq!(parse_i64(&v, 31, 32), None);
    assert_eq!(parse_i64(&v, 33, 36), None);
    assert_eq!(parse_i64(&v, 0, 0), None);
}
