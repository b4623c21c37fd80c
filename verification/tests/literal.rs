use eye::literal::{decode_char_literal, decode_string_literal};

#[test]
fn string_escapes_decode_to_bytes() {
    assert_eq!(decode_string_literal("a\\nb"), b"a\nb".to_vec());
    assert_eq!(decode_string_literal("\\t\\r\\0\\\\\\\""), b"\t\r\0\\\"".to_vec());
    assert_eq!(decode_string_literal("plain"), b"plain".to_vec());
    assert_eq!(decode_string_literal(""), Vec::<u8>::new());
}

#[test]
fn unknown_escape_keeps_backslash() {
    assert_eq!(decode_string_literal("\\q"), b"\\q".to_vec());
    assert_eq!(decode_string_literal("\\é"), "\\é".as_bytes().to_vec());
}

#[test]
fn trailing_backslash_is_kept() {
    assert_eq!(decode_string_literal("ab\\"), b"ab\\".to_vec());
}

#[test]
fn multibyte_text_is_utf8_encoded() {
    assert_eq!(decode_string_literal("é𝄞"), "é𝄞".as_bytes().to_vec());
}

#[test]
fn char_literals_decode() {
    assert_eq!(decode_char_literal("a"), 'a');
    assert_eq!(decode_char_literal("\\n"), '\n');
    assert_eq!(decode_char_literal("\\t"), '\t');
    assert_eq!(decode_char_literal("\\r"), '\r');
    assert_eq!(decode_char_literal("\\0"), '\0');
    assert_eq!(decode_char_literal("\\'"), '\'');
    assert_eq!(decode_char_literal("\\"), '\\');
    assert_eq!(decode_char_literal(""), '\0');
    assert_eq!(decode_char_literal("é"), 'é');
}

#[test]
fn decoding_splits_at_a_seam_outside_escapes() {
    for (a, b) in [("x\\\\", "n"), ("\\n", "\\t"), ("", "a\\\"b"), ("é\\\\\\\\", "\\0z")] {
        let whole = format!("{a}{b}");
        let mut parts = decode_string_literal(a);
        parts.extend(decode_string_literal(b));
        assert_eq!(decode_string_literal(&whole), parts, "{a:?} + {b:?}");
    }
    // An odd run of backslashes at the seam joins the two halves.
    assert_ne!(decode_string_literal("x\\n"), {
        let mut p = decode_string_literal("x\\");
        p.extend(decode_string_literal("n"));
        p
    });
}
