use git_starter_rust::order::bytes_lt;
use git_starter_rust::text::ascii_string;
use git_starter_rust::text::chars_of;
use git_starter_rust::text::decimal_bytes;
use git_starter_rust::text::find_byte;
use git_starter_rust::text::find_char;
use git_starter_rust::text::hex_encode;
use git_starter_rust::text::parse_usize_chars;
use git_starter_rust::text::push_bytes;

#[test]
fn decimal_numerals() {
    assert_eq!(decimal_bytes(0), b"0".to_vec());
    assert_eq!(decimal_bytes(7), b"7".to_vec());
    assert_eq!(decimal_bytes(10), b"10".to_vec());
    assert_eq!(decimal_bytes(1234567890), b"1234567890".to_vec());
    assert_eq!(decimal_bytes(usize::MAX), usize::MAX.to_string().into_bytes());
}

#[test]
fn decimal_reads_back() {
    for n in [0usize, 1, 9, 10, 99, 100, 65535, usize::MAX] {
        let chars: Vec<char> = String::from_utf8(decimal_bytes(n)).unwrap().chars().collect();
        assert_eq!(parse_usize_chars(&chars, 0, chars.len()), Some(n));
    }
}

#[test]
fn parse_usize_like_from_str() {
    for s in ["0", "42", "+42", "0042", "", "+", "-1", "4 2", "12a", "99999999999999999999"] {
        let chars: Vec<char> = s.chars().collect();
        assert_eq!(parse_usize_chars(&chars, 0, chars.len()), s.parse::<usize>().ok(), "{}", s);
    }
    let chars: Vec<char> = "x123y".chars().collect();
    assert_eq!(parse_usize_chars(&chars, 1, 4), Some(123));
}

#[test]
fn hex_is_lower_case_two_digits() {
    assert_eq!(hex_encode(&[0x00, 0x0f, 0xa0, 0xff]), b"000fa0ff".to_vec());
    assert_eq!(hex_encode(&[]), Vec::<u8>::new());
}

#[test]
fn byte_order_of_strings() {
    assert!(bytes_lt(b"a", b"b"));
    assert!(bytes_lt(b"B", b"a"));
    assert!(bytes_lt(b"a", b"ab"));
    assert!(bytes_lt(b"", b"a"));
    assert!(!bytes_lt(b"ab", b"a"));
    assert!(!bytes_lt(b"a", b"a"));
    assert!(!bytes_lt(b"", b""));
}

#[test]
fn searching() {
    assert_eq!(find_byte(b"ab cd ", 0, b' '), Some(2));
    assert_eq!(find_byte(b"ab cd ", 3, b' '), Some(5));
    assert_eq!(find_byte(b"abc", 0, 0), None);
    assert_eq!(find_byte(b"abc", 3, b'a'), None);
    let cs: Vec<char> = "héllo wörld".chars().collect();
    assert_eq!(find_char(&cs, 0, cs.len(), ' '), Some(5));
    assert_eq!(find_char(&cs, 0, 5, ' '), None);
}

#[test]
fn strings_and_bytes() {
    assert_eq!(ascii_string(b"abc".to_vec()), "abc");
    assert_eq!(chars_of("héllo"), vec!['h', 'é', 'l', 'l', 'o']);
    let mut v = b"ab".to_vec();
    push_bytes(&mut v, b"cd");
    assert_eq!(v, b"abcd".to_vec());
}
