use eye::source::{utf16_units, LineCol, SourceText};

#[test]
fn line_col_utf16_counts_code_units() {
    // `é` is 2 bytes / 1 UTF-16 unit; `𝄞` is 4 bytes / 2 UTF-16 units.
    let src = "-- é𝄞x\nyz";
    let st = SourceText::new(src.to_string());
    // offset of `x`: 3 + 2 + 4 = 9 bytes; UTF-16 col 7 one-based.
    let lc = st.line_col_utf16(9);
    assert_eq!((lc.line, lc.col), (1, 7));
    assert_eq!(st.line_col(9).col, 10);
    let y_offset = src.find('y').unwrap() as u32;
    let lc = st.line_col_utf16(y_offset);
    assert_eq!((lc.line, lc.col), (2, 1));
}

#[test]
fn crlf_line_starts_and_columns() {
    let src = "a\r\nbc\r\nd";
    let st = SourceText::new(src.to_string());
    assert_eq!(st.line_starts(), &[0, 3, 7]);
    let lc = st.line_col(0);
    assert_eq!((lc.line, lc.col), (1, 1));
    let lc = st.line_col(3);
    assert_eq!((lc.line, lc.col), (2, 1));
    let lc = st.line_col(7);
    assert_eq!((lc.line, lc.col), (3, 1));
}

#[test]
fn line_col_at_end_and_after_newline() {
    let st = SourceText::new("ab\n".to_string());
    assert_eq!(st.line_col(2), LineCol { line: 1, col: 3 });
    assert_eq!(st.line_col(3), LineCol { line: 2, col: 1 });
    assert_eq!(st.len(), 3);
    assert!(!st.is_empty());
    assert!(SourceText::new(String::new()).is_empty());
}

#[test]
fn offset_utf16_inverts_line_col_utf16() {
    let src = "-- é𝄞x\nyz\n";
    let st = SourceText::new(src.to_string());
    for (off, _) in src.char_indices() {
        let lc = st.line_col_utf16(off as u32);
        assert_eq!(st.offset_utf16(lc.line - 1, lc.col - 1), off as u32);
    }
}

#[test]
fn offset_utf16_clamps() {
    let st = SourceText::new("ab\ncd".to_string());
    // a column past the end of the first line clamps to its end, the offset
    // of its `\n`; a line past the last clamps to the end of the text.
    assert_eq!(st.offset_utf16(0, 99), 2);
    assert_eq!(st.offset_utf16(0, 10), 2);
    assert_eq!(st.offset_utf16(5, 0), 5);
    assert_eq!(st.offset_utf16(9, 0), 5);
    assert_eq!(st.offset_utf16(1, 1), 4);
    assert_eq!(st.offset_utf16(1, 9), 5);
}

#[test]
fn slice_respects_char_boundaries() {
    let st = SourceText::new("aé b".to_string());
    assert_eq!(st.slice(0, 3), Some("aé"));
    assert_eq!(st.slice(0, 2), None);
    assert_eq!(st.slice(3, 2), None);
    assert_eq!(st.slice(0, 9), None);
    assert_eq!(st.slice(4, 5), Some("b"));
    assert_eq!(st.as_str(), "aé b");
    assert_eq!(st.as_bytes().len(), 5);
}

#[test]
fn utf16_units_counts_surrogate_pairs() {
    assert_eq!(utf16_units(""), 0);
    assert_eq!(utf16_units("abc"), 3);
    assert_eq!(utf16_units("é𝄞"), 3);
}
