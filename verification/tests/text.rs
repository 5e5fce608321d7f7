use hub::bytes::{output_text, utf8_bytes};
use hub::number::{
    decimal_text, hex_of_bytes, hex_text, parse_hex_byte, parse_i32_or_zero, parse_usize,
    signed_text,
};
use hub::text::{
    capitals, contains, ends_with, lines, small_letters, split, split_once, starts_with, trim,
    words,
};

#[test]
fn lines_end_with_or_without_carriage_return() {
    assert_eq!(lines("a\r\nb\nc"), ["a", "b", "c"]);
    assert_eq!(lines("a\n\nb\n"), ["a", "", "b"]);
    assert!(lines("").is_empty());
    assert_eq!(lines("\n"), [""]);
    assert_eq!(lines("a\r"), ["a\r"]);
}

#[test]
fn words_are_parted_by_any_white_space() {
    assert_eq!(words(" a\tb\u{3000}c\n"), ["a", "b", "c"]);
    assert!(words(" \t").is_empty());
}

#[test]
fn trimming_takes_white_space_from_both_ends() {
    assert_eq!(trim("\u{a0} a b \r\n"), "a b");
    assert_eq!(trim("  "), "");
}

#[test]
fn splitting_gives_every_field() {
    assert_eq!(split("a::b", ':'), ["a", "", "b"]);
    assert_eq!(split("", ':'), [""]);
    assert_eq!(split_once("a:b:c", ':'), Some(("a".to_string(), "b:c".to_string())));
    assert_eq!(split_once("abc", ':'), None);
}

#[test]
fn parts_are_found() {
    assert!(contains("xWPA2y", "WPA2"));
    assert!(!contains("WPA", "WPA2"));
    assert!(starts_with("/ide/x", "/ide/"));
    assert!(ends_with("GET / HTTP/1.1", "HTTP/1.1"));
    assert!(!ends_with("1", "HTTP/1.1"));
}

#[test]
fn letters_change_case_beyond_ascii() {
    assert_eq!(capitals("wpa2 straße"), "WPA2 STRASSE");
    assert_eq!(capitals("wpa2"), "WPA2");
    assert_eq!(small_letters("ÄB"), "äb");
    assert_eq!(small_letters("AB9"), "ab9");
}

#[test]
fn bytes_that_are_no_text_become_replacement_characters() {
    assert_eq!(output_text(b"a\xffb"), "a\u{fffd}b");
    assert_eq!(output_text("h\u{e9}".as_bytes()), "h\u{e9}");
    assert_eq!(utf8_bytes("h\u{e9}"), [b'h', 0xc3, 0xa9]);
}

#[test]
fn numerals_read_back() {
    for n in [0u64, 7, 10, 404, 65535, u64::MAX] {
        assert_eq!(decimal_text(n), n.to_string());
        assert_eq!(hex_text(n), format!("{n:x}"));
    }
    for i in [0i32, -1, 77, i32::MIN, i32::MAX] {
        assert_eq!(signed_text(i), i.to_string());
        assert_eq!(parse_i32_or_zero(&signed_text(i)), i);
    }
    assert_eq!(hex_of_bytes(&[0x00, 0x0f, 0xa9]), "000fa9");
}

#[test]
fn numerals_are_read_as_they_are_elsewhere() {
    for s in ["", "+", "-", "+7", "-7", "12a", "007", " 1", "99999999999999999999999"] {
        assert_eq!(parse_usize(s), s.parse::<usize>().ok(), "{s}");
        assert_eq!(parse_i32_or_zero(s), s.parse::<i32>().unwrap_or(0), "{s}");
        assert_eq!(parse_hex_byte(s), u8::from_str_radix(s, 16).ok(), "{s}");
    }
    assert_eq!(parse_hex_byte("fF"), Some(255));
    assert_eq!(parse_hex_byte("100"), None);
}
