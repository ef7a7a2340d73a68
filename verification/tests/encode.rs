use yajl::encode::{char_to_hex, yajl_string_decode, yajl_string_encode, yajl_string_validate_utf8};

fn encode(s: &[u8], sol: bool) -> Vec<u8> {
    let mut out = Vec::new();
    yajl_string_encode(&mut out, s, sol);
    out
}

fn decode(s: &[u8]) -> Vec<u8> {
    let mut out = Vec::new();
    yajl_string_decode(&mut out, s);
    out
}

#[test]
fn encode_escapes() {
    assert_eq!(encode(b"a\"b\\c\n\r\t\x08\x0c/", false), b"a\\\"b\\\\c\\n\\r\\t\\b\\f/".to_vec());
    assert_eq!(encode(b"/", true), b"\\/".to_vec());
    assert_eq!(encode(b"\x1f\x00", false), b"\\u001F\\u0000".to_vec());
    assert_eq!(encode(b"\xc3\xa9", false), b"\xc3\xa9".to_vec());
    assert_eq!(char_to_hex(0xab), (b'A', b'B'));
}

#[test]
fn decode_escapes() {
    assert_eq!(decode(br#"a\"b\\c\/\n\r\t\b\f"#), b"a\"b\\c/\n\r\t\x08\x0c".to_vec());
    assert_eq!(decode(br"\u0041\u00e9\u20ac"), "A\u{e9}\u{20ac}".as_bytes().to_vec());
    assert_eq!(decode(br"\ud83d\ude00"), "\u{1f600}".as_bytes().to_vec());
    // a high surrogate without its low half becomes a question mark, and
    // the byte after it is dropped
    assert_eq!(decode(br"\ud83dxy"), b"?y".to_vec());
    assert_eq!(decode(br"\u0000"), b"\0".to_vec());
}

#[test]
fn decode_undoes_encode() {
    for s in [&b"plain"[..], b"q\"uo\\te/\n\x01\x7f", b"\xe2\x82\xac"] {
        for sol in [false, true] {
            assert_eq!(decode(&encode(s, sol)), s.to_vec());
        }
    }
}

#[test]
fn validate_utf8() {
    assert!(yajl_string_validate_utf8(b"ascii"));
    assert!(yajl_string_validate_utf8("\u{e9}\u{20ac}\u{1f600}".as_bytes()));
    assert!(!yajl_string_validate_utf8(b"\xff"));
    assert!(!yajl_string_validate_utf8(b"\xc3"));
    assert!(!yajl_string_validate_utf8(b"\xe2\x82"));
    assert!(yajl_string_validate_utf8(b""));
}
