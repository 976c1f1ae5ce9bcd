use hsharp_runtime::number::{
    hsh_atoll, hsh_conv_int_to_hex, hsh_int_to_str, hsh_int_to_string, hsh_str_to_int,
    hsh_to_int, hsh_to_int_from_hex, hsh_val_to_str, parse_int,
};

fn s(x: &str) -> Option<&[u8]> {
    Some(x.as_bytes())
}

fn chars(x: &str) -> Vec<char> {
    x.chars().collect()
}

#[test]
fn parse_int_follows_from_str_radix() {
    assert_eq!(parse_int(&chars("123"), 10), Some(123));
    assert_eq!(parse_int(&chars("+7"), 10), Some(7));
    assert_eq!(parse_int(&chars("-9223372036854775808"), 10), Some(i64::MIN));
    assert_eq!(parse_int(&chars("9223372036854775807"), 10), Some(i64::MAX));
    assert_eq!(parse_int(&chars("9223372036854775808"), 10), None);
    assert_eq!(parse_int(&chars("-"), 10), None);
    assert_eq!(parse_int(&chars(""), 10), None);
    assert_eq!(parse_int(&chars("12a"), 10), None);
    assert_eq!(parse_int(&chars("fF"), 16), Some(255));
    assert_eq!(parse_int(&chars("g"), 16), None);
}

#[test]
fn atoll_trims_and_defaults_to_zero() {
    assert_eq!(hsh_atoll(s("  42\n")), 42);
    assert_eq!(hsh_atoll(s("\u{2003}-17\u{a0}")), -17);
    assert_eq!(hsh_atoll(s("4 2")), 0);
    assert_eq!(hsh_atoll(s("abc")), 0);
    assert_eq!(hsh_atoll(None), 0);
    assert_eq!(hsh_atoll(s("99999999999999999999")), 0);
    assert_eq!(hsh_str_to_int(s("5")), 5);
    assert_eq!(hsh_to_int(s("-5")), -5);
}

#[test]
fn hex_parsing_strips_prefixes() {
    assert_eq!(hsh_to_int_from_hex(s("0xff")), 255);
    assert_eq!(hsh_to_int_from_hex(s(" 0X1A ")), 26);
    assert_eq!(hsh_to_int_from_hex(s("0x0x10")), 16);
    assert_eq!(hsh_to_int_from_hex(s("0X0x10")), 0);
    assert_eq!(hsh_to_int_from_hex(s("-ff")), -255);
    assert_eq!(hsh_to_int_from_hex(s("zz")), 0);
    assert_eq!(hsh_to_int_from_hex(None), 0);
}

#[test]
fn decimal_writing() {
    assert_eq!(hsh_int_to_string(0), b"0".to_vec());
    assert_eq!(hsh_int_to_string(1234), b"1234".to_vec());
    assert_eq!(hsh_int_to_string(-56), b"-56".to_vec());
    assert_eq!(hsh_int_to_string(i64::MIN), b"-9223372036854775808".to_vec());
    assert_eq!(hsh_int_to_str(7), b"7".to_vec());
    assert_eq!(hsh_val_to_str(-1), b"-1".to_vec());
}

#[test]
fn hex_writing() {
    assert_eq!(hsh_conv_int_to_hex(0), b"0".to_vec());
    assert_eq!(hsh_conv_int_to_hex(255), b"ff".to_vec());
    assert_eq!(hsh_conv_int_to_hex(-1), b"ffffffffffffffff".to_vec());
}

#[test]
fn decimal_round_trip() {
    for n in [0i64, 1, -1, 42, -987654321, i64::MAX, i64::MIN] {
        let t = hsh_int_to_string(n);
        assert_eq!(hsh_atoll(Some(&t)), n);
    }
}

#[test]
fn hex_round_trip_for_non_negative() {
    for n in [0i64, 15, 16, 4096, i64::MAX] {
        let t = hsh_conv_int_to_hex(n);
        assert_eq!(hsh_to_int_from_hex(Some(&t)), n);
    }
    let t = hsh_conv_int_to_hex(-1);
    assert_eq!(hsh_to_int_from_hex(Some(&t)), 0);
}
