use route_provider::text::append_decimal;

fn decimal(i: i32) -> String {
    let mut out = String::new();
    append_decimal(&mut out, i);
    out
}

#[test]
fn decimal_of_small_numbers() {
    assert_eq!(decimal(0), "0");
    assert_eq!(decimal(7), "7");
    assert_eq!(decimal(9), "9");
    assert_eq!(decimal(10), "10");
    assert_eq!(decimal(80), "80");
    assert_eq!(decimal(101), "101");
    assert_eq!(decimal(65535), "65535");
}

#[test]
fn decimal_of_negative_numbers() {
    assert_eq!(decimal(-1), "-1");
    assert_eq!(decimal(-120), "-120");
}

#[test]
fn decimal_of_the_bounds() {
    assert_eq!(decimal(i32::MAX), "2147483647");
    assert_eq!(decimal(i32::MIN), "-2147483648");
}

#[test]
fn decimal_agrees_with_the_standard_notation() {
    let mut i: i32 = -3000;
    while i <= 3000 {
        assert_eq!(decimal(i), i.to_string());
        i += 7;
    }
}

#[test]
fn decimal_is_appended_to_what_is_there() {
    let mut out = "port ".to_string();
    append_decimal(&mut out, 443);
    assert_eq!(out, "port 443");
}
