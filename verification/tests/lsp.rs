use eye::legend;
use eye::semantic::{encode_semantic_tokens, lookup_ident, ClassifiedToken, SemToken};
use eye::source::SourceText;

#[test]
fn public_api_constants_stable() {
    assert_eq!(legend::STRUCT, 2);
    assert_eq!(legend::FUNCTION, 7);
}

#[test]
fn legend_indices_are_in_order() {
    let all = [
        legend::TYPE,
        legend::ENUM,
        legend::STRUCT,
        legend::PARAMETER,
        legend::VARIABLE,
        legend::PROPERTY,
        legend::ENUM_MEMBER,
        legend::FUNCTION,
        legend::METHOD,
        legend::KEYWORD,
        legend::COMMENT,
        legend::STRING,
        legend::NUMBER,
        legend::OPERATOR,
        legend::FALLBACK,
    ];
    for (i, v) in all.iter().enumerate() {
        assert_eq!(*v as usize, i);
    }
}

/// The comment is 10 UTF-16 units (`-- ` + 6 box chars + `x`) but 22 bytes;
/// `let` opens line 2 at column 0.
#[test]
fn semantic_tokens_use_utf16_units() {
    let src = "-- ──────x\nlet y = 1;";
    let source = SourceText::new(src.to_string());
    let nl = src.find('\n').unwrap() as u32;
    let tokens = vec![
        ClassifiedToken { start: 0, end: nl, token_type: legend::COMMENT },
        ClassifiedToken { start: nl + 1, end: nl + 4, token_type: legend::KEYWORD },
    ];
    let data = encode_semantic_tokens(&source, &tokens);
    let comment = &data[0];
    assert_eq!(comment.length, 10, "comment length must be UTF-16 units, not bytes");
    let let_tok = &data[1];
    assert_eq!((let_tok.delta_line, let_tok.delta_start), (1, 0));
}

#[test]
fn semantic_tokens_delta_encode_on_one_line() {
    let source = SourceText::new("let x = 1;".to_string());
    let tokens = vec![
        ClassifiedToken { start: 0, end: 3, token_type: legend::KEYWORD },
        ClassifiedToken { start: 4, end: 5, token_type: legend::VARIABLE },
        ClassifiedToken { start: 6, end: 7, token_type: legend::OPERATOR },
        ClassifiedToken { start: 8, end: 9, token_type: legend::NUMBER },
    ];
    let data = encode_semantic_tokens(&source, &tokens);
    assert_eq!(
        data,
        vec![
            SemToken { delta_line: 0, delta_start: 0, length: 3, token_type: legend::KEYWORD, token_modifiers_bitset: 0 },
            SemToken { delta_line: 0, delta_start: 4, length: 1, token_type: legend::VARIABLE, token_modifiers_bitset: 0 },
            SemToken { delta_line: 0, delta_start: 2, length: 1, token_type: legend::OPERATOR, token_modifiers_bitset: 0 },
            SemToken { delta_line: 0, delta_start: 2, length: 1, token_type: legend::NUMBER, token_modifiers_bitset: 0 },
        ]
    );
}

#[test]
fn semantic_tokens_new_line_resets_column() {
    let source = SourceText::new("a\n  bb\ncc".to_string());
    let tokens = vec![
        ClassifiedToken { start: 0, end: 1, token_type: legend::VARIABLE },
        ClassifiedToken { start: 4, end: 6, token_type: legend::VARIABLE },
        ClassifiedToken { start: 7, end: 9, token_type: legend::FUNCTION },
    ];
    let data = encode_semantic_tokens(&source, &tokens);
    assert_eq!((data[1].delta_line, data[1].delta_start, data[1].length), (1, 2, 2));
    assert_eq!((data[2].delta_line, data[2].delta_start, data[2].length), (1, 0, 2));
}

#[test]
fn semantic_token_length_falls_back_to_bytes_off_boundary() {
    // `é` is two bytes; a range ending inside it is not a slice, so the
    // length is counted in bytes.
    let source = SourceText::new("é".to_string());
    let tokens = vec![ClassifiedToken { start: 0, end: 1, token_type: legend::STRING }];
    let data = encode_semantic_tokens(&source, &tokens);
    assert_eq!(data[0].length, 1);
    let whole = vec![ClassifiedToken { start: 0, end: 2, token_type: legend::STRING }];
    assert_eq!(encode_semantic_tokens(&source, &whole)[0].length, 1);
}

#[test]
fn semantic_tokens_empty_input() {
    let source = SourceText::new(String::new());
    assert!(encode_semantic_tokens(&source, &Vec::new()).is_empty());
}

/// Reading the deltas back (summing line deltas, and column deltas within a
/// line) gives every token's position.
#[test]
fn semantic_tokens_decode_back_to_positions() {
    let src = "fn a() {\n  let é = 1;\n\n  b + c\n}";
    let source = SourceText::new(src.to_string());
    let spans = [(0u32, 2u32), (3, 4), (11, 14), (15, 17), (26, 27), (28, 29), (30, 31)];
    let tokens: Vec<ClassifiedToken> = spans
        .iter()
        .map(|&(s, e)| ClassifiedToken { start: s, end: e, token_type: legend::VARIABLE })
        .collect();
    let data = encode_semantic_tokens(&source, &tokens);
    assert_eq!(data.len(), tokens.len());
    let (mut line, mut col) = (0u32, 0u32);
    for (t, d) in tokens.iter().zip(data.iter()) {
        line += d.delta_line;
        col = if d.delta_line == 0 { col + d.delta_start } else { d.delta_start };
        let lc = source.line_col_utf16(t.start);
        assert_eq!((line, col), (lc.line - 1, lc.col - 1));
    }
}

#[test]
fn lookup_ident_takes_last_exact_span() {
    let spans = vec![
        ClassifiedToken { start: 4, end: 10, token_type: legend::ENUM },
        ClassifiedToken { start: 30, end: 36, token_type: legend::ENUM_MEMBER },
        ClassifiedToken { start: 50, end: 51, token_type: legend::VARIABLE },
        ClassifiedToken { start: 30, end: 36, token_type: legend::VARIABLE },
    ];
    assert_eq!(lookup_ident(30, 36, &spans), Some(legend::VARIABLE));
    assert_eq!(lookup_ident(4, 10, &spans), Some(legend::ENUM));
    assert_eq!(lookup_ident(30, 35, &spans), None);
    assert_eq!(lookup_ident(0, 0, &[]), None);
}
