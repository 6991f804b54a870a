use csp_transport::hex::{parse_hex_bytes, parse_token};

#[test]
fn hex_bytes_of_spaced_pairs() {
    assert_eq!(parse_hex_bytes(b"01 02 03 04"), vec![0x01, 0x02, 0x03, 0x04]);
}

#[test]
fn hex_bytes_skip_tokens_that_are_not_bytes() {
    assert_eq!(parse_hex_bytes(b"zz 1 +ff 100 -1 0000fF + 0x1"), vec![0x01, 0xff, 0xff]);
}

#[test]
fn hex_bytes_of_blank_text_are_empty() {
    assert_eq!(parse_hex_bytes(b""), Vec::<u8>::new());
    assert_eq!(parse_hex_bytes(b" \t\n "), Vec::<u8>::new());
}

#[test]
fn hex_bytes_split_on_any_ascii_whitespace() {
    assert_eq!(parse_hex_bytes(b"\t0a\n0B\r\n  c "), vec![0x0a, 0x0b, 0x0c]);
}

#[test]
fn hex_bytes_agree_with_from_str_radix() {
    let text = "7 +7 ff FF 1ff 0 00 g1 + ++1 12 Ab";
    let expected: Vec<u8> = text.split_whitespace().filter_map(|s| u8::from_str_radix(s, 16).ok()).collect();
    assert_eq!(parse_hex_bytes(text.as_bytes()), expected);
}

#[test]
fn token_reads_inside_bounds_only() {
    let s = b"xx1fyy";
    assert_eq!(parse_token(s, 2, 4), Some(0x1f));
    assert_eq!(parse_token(s, 2, 2), None);
    assert_eq!(parse_token(s, 1, 4), None);
}

#[test]
fn hex_bytes_split_on_unicode_whitespace() {
    let text = "01\u{a0}02\u{3000}03\u{2003}04\u{85}05\u{1680}06\u{2029}07\u{202f}08\u{205f}09";
    let expected: Vec<u8> = text.split_whitespace().filter_map(|s| u8::from_str_radix(s, 16).ok()).collect();
    assert_eq!(expected, vec![1, 2, 3, 4, 5, 6, 7, 8, 9]);
    assert_eq!(parse_hex_bytes(text.as_bytes()), expected);
}

#[test]
fn hex_bytes_keep_non_space_unicode_inside_tokens() {
    let text = "0\u{e9}1 02 \u{200b}03";
    let expected: Vec<u8> = text.split_whitespace().filter_map(|s| u8::from_str_radix(s, 16).ok()).collect();
    assert_eq!(parse_hex_bytes(text.as_bytes()), expected);
    assert_eq!(expected, vec![2]);
}
