use grep_redo::encoding::{decode_bytes, decode_source, detect_bom, encode_text, DecodeError};

#[test]
fn bom_detection() {
    assert_eq!(detect_bom(&[0xEF, 0xBB, 0xBF, b'a']), (Some("utf-8"), 3));
    assert_eq!(detect_bom(&[0xFF, 0xFE, b'a', 0]), (Some("utf-16le"), 2));
    assert_eq!(detect_bom(&[0xFE, 0xFF]), (Some("utf-16be"), 2));
    assert_eq!(detect_bom(&[0xFF, 0xFE, 0, 0]), (Some("utf-32le"), 4));
    assert_eq!(detect_bom(&[0, 0, 0xFE, 0xFF]), (Some("utf-32be"), 4));
    assert_eq!(detect_bom(b"abc"), (None, 0));
    assert_eq!(detect_bom(&[]), (None, 0));
}

#[test]
fn decode_auto() {
    assert!(matches!(decode_bytes(b"hi", "auto"), Ok(ref s) if s == "hi"));
    assert!(matches!(decode_bytes(&[0xEF, 0xBB, 0xBF, b'h', b'i'], "auto"), Ok(ref s) if s == "hi"));
    assert!(matches!(decode_bytes(&[0xFF, 0xFE, b'h', 0, b'i', 0], "auto"), Ok(ref s) if s == "hi"));
    assert!(matches!(decode_bytes(&[0xFE, 0xFF, 0, b'h'], "auto"), Ok(ref s) if s == "h"));
    assert!(matches!(decode_bytes(&[0xFF], "auto"), Err(DecodeError::InvalidData(ref m)) if m == "invalid utf-8 data"));
    assert!(matches!(decode_bytes(&[0xFF, 0xFE, b'h'], "auto"), Err(DecodeError::InvalidData(ref m)) if m == "invalid UTF-16LE data after BOM"));
}

#[test]
fn decode_named() {
    assert!(matches!(decode_bytes(&[0xC4, 0xE3], "gbk"), Ok(ref s) if s == "你"));
    assert!(matches!(decode_bytes(b"x", "no-such-encoding"), Err(DecodeError::UnknownEncoding(ref m)) if m == "unknown encoding: no-such-encoding"));
    assert!(matches!(decode_bytes(&[0xC3], "utf-8"), Err(DecodeError::InvalidData(ref m)) if m == "invalid utf-8 data"));
    assert!(matches!(decode_bytes(&[0xE9], "latin1"), Ok(ref s) if s == "é"));
}

#[test]
fn encode() {
    assert_eq!(encode_text("你", "gbk"), vec![0xC4, 0xE3]);
    assert_eq!(encode_text("a", ""), b"a".to_vec());
    assert_eq!(encode_text("é", "no-such-encoding"), "é".as_bytes().to_vec());
    assert_eq!(encode_text("é", "latin1"), vec![0xE9]);
}

#[test]
fn encode_utf16() {
    assert_eq!(encode_text("A", "utf-16le"), vec![0x41, 0x00]);
    assert_eq!(encode_text("A", "utf-16be"), vec![0x00, 0x41]);
    assert_eq!(encode_text("你", "utf-16le"), vec![0x60, 0x4F]);
    assert_eq!(encode_text("😀", "utf-16le"), vec![0x3D, 0xD8, 0x00, 0xDE]);
    assert_eq!(encode_text("😀", "utf-16be"), vec![0xD8, 0x3D, 0xDE, 0x00]);
    assert_eq!(encode_text("A", "utf-16"), vec![0x41, 0x00]);
}

#[test]
fn labels_through_decoding() {
    assert!(matches!(decode_bytes(&[0xFE, 0xFF, 0xD8], "auto"), Err(DecodeError::InvalidData(ref m)) if m == "invalid UTF-16BE data after BOM"));
    assert!(matches!(decode_bytes(b"a", " latin1 "), Ok(ref s) if s == "a"));
    assert!(matches!(decode_bytes(b"a", "utf-32le"), Err(DecodeError::UnknownEncoding(ref m)) if m == "unknown encoding: utf-32le"));
}

#[test]
fn utf32_mark_under_auto_is_an_unknown_encoding() {
    assert!(matches!(decode_bytes(&[0x00, 0x00, 0xFE, 0xFF, 0, 0, 0, b'a'], "auto"), Err(DecodeError::UnknownEncoding(ref m)) if m == "unknown encoding: utf-32be"));
    assert!(matches!(decode_bytes(&[0xFF, 0xFE, 0x00, 0x00], "auto"), Err(DecodeError::UnknownEncoding(ref m)) if m == "unknown encoding: utf-32le"));
}

#[test]
fn output_falls_back_to_utf8() {
    assert_eq!(encode_text("中", "gbk"), vec![0xD6, 0xD0]);
    assert_eq!(encode_text("中", ""), vec![0xE4, 0xB8, 0xAD]);
    assert_eq!(encode_text("中", "no-such-enc"), vec![0xE4, 0xB8, 0xAD]);
    assert_eq!(encode_text("中", "utf-8"), vec![0xE4, 0xB8, 0xAD]);
}

#[test]
fn utf8_round_trip() {
    for s in ["", "abc", "中文 é😀", "a\u{FEFF}b"] {
        for enc in ["auto", "utf-8"] {
            assert!(matches!(decode_bytes(&encode_text(s, "utf-8"), enc), Ok(ref t) if t == s));
        }
    }
}

#[test]
fn binary_sources_are_skipped() {
    assert_eq!(decode_source(&[0x61, 0xFF, 0x62], "auto"), Ok(None));
    assert_eq!(decode_source(&[0x61, 0xC3], "utf-8"), Ok(None));
    assert_eq!(decode_source(b"hi", "auto"), Ok(Some("hi".to_string())));
    assert_eq!(decode_source(b"hi", "no-such-enc"), Err("unknown encoding: no-such-enc".to_string()));
}
