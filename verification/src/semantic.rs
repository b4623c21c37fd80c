//! Semantic tokens as the language server sends them: each classified
//! token's position and length in UTF-16 units, delta-encoded against the
//! token before it.

use vstd::prelude::*;
use vstd::string::StringSliceAdditionalSpecFns;
use vstd::utf8::*;

use crate::source::{spec_line_col_utf16, utf16_units, SourceText};
use crate::text::utf16_len;

verus! {

/// One delta-encoded semantic token: line offset from the previous token,
/// start column (relative to the previous token on the same line), length,
/// token type and modifier bits.
#[derive(Debug, Clone, Copy, PartialEq, Eq, Structural)]
pub struct SemToken {
    pub delta_line: u32,
    pub delta_start: u32,
    pub length: u32,
    pub token_type: u32,
    pub token_modifiers_bitset: u32,
}

/// A token to highlight: its byte range and its token type.
#[derive(Debug, Clone, Copy, PartialEq, Eq, Structural)]
pub struct ClassifiedToken {
    pub start: u32,
    pub end: u32,
    pub token_type: u32,
}

/// `a - b`, or zero when `b` exceeds `a`.
pub open spec fn sat_sub(a: u32, b: u32) -> u32 {
    if a >= b {
        (a - b) as u32
    } else {
        0
    }
}

/// The zero-based line and UTF-16 column of byte offset `start` of `b`.
pub open spec fn token_pos(b: Seq<u8>, start: u32) -> (u32, u32) {
    let lc = spec_line_col_utf16(b, start as int);
    (sat_sub(lc.line, 1), sat_sub(lc.col, 1))
}

/// The length of `start..end` in UTF-16 units when both ends lie on
/// character boundaries, else in bytes.
pub open spec fn token_len(b: Seq<u8>, start: u32, end: u32) -> u32 {
    if start <= end && end <= b.len() && is_char_boundary(b, start as int) && is_char_boundary(b, end as int) {
        utf16_len(decode_utf8(b.subrange(start as int, end as int))) as u32
    } else {
        (end - start) as u32
    }
}

/// The encoding of `toks` after a token at line `pl`, column `ps`.
pub open spec fn encode_from(b: Seq<u8>, toks: Seq<ClassifiedToken>, pl: u32, ps: u32) -> Seq<SemToken>
    decreases toks.len(),
{
    if toks.len() == 0 {
        seq![]
    } else {
        let t = toks[0];
        let (line, col) = token_pos(b, t.start);
        let dl = sat_sub(line, pl);
        let tok = SemToken {
            delta_line: dl,
            delta_start: if dl == 0 {
                sat_sub(col, ps)
            } else {
                col
            },
            length: token_len(b, t.start, t.end),
            token_type: t.token_type,
            token_modifiers_bitset: 0,
        };
        seq![tok] + encode_from(b, toks.drop_first(), line, col)
    }
}

/// Every token starts on a character boundary of `b` and spans a range of
/// it.
pub open spec fn tokens_ok(b: Seq<u8>, toks: Seq<ClassifiedToken>) -> bool {
    forall|i: int|
        0 <= i < toks.len() ==> {
            let t = #[trigger] toks[i];
            &&& t.start <= t.end
            &&& t.end <= b.len()
            &&& is_char_boundary(b, t.start as int)
        }
}

fn saturating(a: u32, b: u32) -> (r: u32)
    ensures
        r == sat_sub(a, b),
{
    if a >= b {
        a - b
    } else {
        0
    }
}

/// Encodes one token after a token at `*prev_line`, `*prev_start`, and
/// moves those to this token.
fn push_token(source: &SourceText, t: ClassifiedToken, data: &mut Vec<SemToken>, prev_line: &mut u32, prev_start: &mut u32)
    requires
        t.start <= t.end,
        t.end <= source.bytes().len(),
        is_char_boundary(source.bytes(), t.start as int),
    ensures
        final(data)@ == old(data)@ + encode_from(source.bytes(), seq![t], *old(prev_line), *old(prev_start)),
        (*final(prev_line), *final(prev_start)) == token_pos(source.bytes(), t.start),
{
    let lc = source.line_col_utf16(t.start);
    let line = saturating(lc.line, 1);
    let start_char = saturating(lc.col, 1);
    let length = match source.slice(t.start, t.end) {
        Some(s) => {
            proof {
                encode_utf8_decode_utf8(s@);
                assert(s.spec_bytes().len() <= usize::MAX) by {
                    assert(s.spec_bytes() == source.bytes().subrange(t.start as int, t.end as int));
                }
            }
            let n = utf16_units(s);
            proof {
                assert(s.spec_bytes() == source.bytes().subrange(t.start as int, t.end as int));
                assert(n <= t.end - t.start);
            }
            n as u32
        },
        None => t.end - t.start,
    };
    let delta_line = saturating(line, *prev_line);
    let delta_start = if delta_line == 0 {
        saturating(start_char, *prev_start)
    } else {
        start_char
    };
    data.push(
        SemToken { delta_line, delta_start, length, token_type: t.token_type, token_modifiers_bitset: 0 },
    );
    *prev_line = line;
    *prev_start = start_char;
    proof {
        let b = source.bytes();
        assert(length == token_len(b, t.start, t.end));
        assert((line, start_char) == token_pos(b, t.start));
        assert(seq![t].drop_first() =~= Seq::<ClassifiedToken>::empty());
        assert(seq![t][0] == t);
        assert(encode_from(b, seq![t].drop_first(), line, start_char) =~= Seq::<SemToken>::empty());
        assert(encode_from(b, seq![t], *old(prev_line), *old(prev_start)) =~= seq![data@.last()]);
        assert(data@ =~= old(data)@ + seq![data@.last()]);
    }
}

/// The delta-encoded semantic tokens of `tokens`, in order.
pub fn encode_semantic_tokens(source: &SourceText, tokens: &Vec<ClassifiedToken>) -> (data: Vec<SemToken>)
    requires
        tokens_ok(source.bytes(), tokens@),
    ensures
        data@ == encode_from(source.bytes(), tokens@, 0, 0),
{
    let ghost b = source.bytes();
    let mut data: Vec<SemToken> = Vec::new();
    let mut prev_line: u32 = 0;
    let mut prev_start: u32 = 0;
    let mut i: usize = 0;
    proof {
        assert(tokens@.skip(0) =~= tokens@);
    }
    while i < tokens.len()
        invariant
            b == source.bytes(),
            tokens_ok(b, tokens@),
            i <= tokens@.len(),
            data@ + encode_from(b, tokens@.skip(i as int), prev_line, prev_start) == encode_from(b, tokens@, 0, 0),
        decreases tokens@.len() - i,
    {
        let t = tokens[i];
        assert(t == tokens@[i as int]);
        let ghost d0 = data@;
        let ghost pl = prev_line;
        let ghost ps = prev_start;
        push_token(source, t, &mut data, &mut prev_line, &mut prev_start);
        proof {
            let rest = tokens@.skip(i as int);
            assert(rest[0] == t);
            assert(rest.drop_first() =~= tokens@.skip(i + 1));
            let one = encode_from(b, seq![t], pl, ps);
            assert(encode_from(b, rest, pl, ps) == one + encode_from(b, tokens@.skip(i + 1), prev_line, prev_start)) by {
                assert(seq![t].drop_first() =~= Seq::<ClassifiedToken>::empty());
                assert(seq![t][0] == t);
                assert(encode_from(b, seq![t].drop_first(), prev_line, prev_start) =~= Seq::<SemToken>::empty());
                assert(one =~= seq![data@.last()]);
            }
            assert(data@ + encode_from(b, tokens@.skip(i + 1), prev_line, prev_start) =~= d0 + encode_from(
                b,
                rest,
                pl,
                ps,
            ));
        }
        i = i + 1;
    }
    data
}

/// Whether every token starts on a character boundary of the text and spans
/// a range of it.
pub fn tokens_in_bounds(source: &SourceText, tokens: &Vec<ClassifiedToken>) -> (r: bool)
    ensures
        r == tokens_ok(source.bytes(), tokens@),
{
    let text = source.as_str();
    let n = source.len();
    let mut i: usize = 0;
    while i < tokens.len()
        invariant
            text@ == source@,
            n == source.bytes().len(),
            i <= tokens@.len(),
            forall|j: int|
                0 <= j < i ==> {
                    let t = #[trigger] tokens@[j];
                    &&& t.start <= t.end
                    &&& t.end <= source.bytes().len()
                    &&& is_char_boundary(source.bytes(), t.start as int)
                },
        decreases tokens@.len() - i,
    {
        let t = tokens[i];
        if t.start > t.end || t.end as usize > n || !text.is_char_boundary(t.start as usize) {
            assert(!tokens_ok(source.bytes(), tokens@)) by {
                assert(tokens@[i as int] == t);
            }
            return false;
        }
        i = i + 1;
    }
    true
}

/// The token type that the classified spans give the range `start..end`:
/// that of the last span over exactly that range, where one exists.
pub open spec fn ident_type_in(spans: Seq<ClassifiedToken>, start: u32, end: u32) -> Option<u32>
    decreases spans.len(),
{
    if spans.len() == 0 {
        None
    } else if spans.last().start == start && spans.last().end == end {
        Some(spans.last().token_type)
    } else {
        ident_type_in(spans.drop_last(), start, end)
    }
}

/// The token type of the identifier at `start..end`: the last classified span
/// over exactly that range wins; `None` when no span covers it exactly.
pub fn lookup_ident(start: u32, end: u32, spans: &[ClassifiedToken]) -> (r: Option<u32>)
    ensures
        r == ident_type_in(spans@, start, end),
        r.is_none() <==> forall|k: int| 0 <= k < spans@.len() ==> !(#[trigger] spans@[k].start == start && spans@[k].end == end),
{
    let mut i: usize = spans.len();
    proof {
        assert(spans@.take(i as int) =~= spans@);
    }
    while i > 0
        invariant
            i <= spans@.len(),
            ident_type_in(spans@, start, end) == ident_type_in(spans@.take(i as int), start, end),
            forall|k: int| i <= k < spans@.len() ==> !(#[trigger] spans@[k].start == start && spans@[k].end == end),
        decreases i,
    {
        let s = spans[i - 1];
        proof {
            assert(spans@.take(i as int).drop_last() =~= spans@.take(i - 1));
            assert(spans@.take(i as int).last() == s);
        }
        if s.start == start && s.end == end {
            proof {
                lemma_ident_type_some(spans@.take(i as int), start, end);
            }
            assert(spans@[i - 1].start == start && spans@[i - 1].end == end);
            return Some(s.token_type);
        }
        i = i - 1;
    }
    proof {
        assert(spans@.take(0) =~= Seq::<ClassifiedToken>::empty());
    }
    None
}

proof fn lemma_ident_type_some(spans: Seq<ClassifiedToken>, start: u32, end: u32)
    requires
        spans.len() > 0,
        spans.last().start == start && spans.last().end == end,
    ensures
        ident_type_in(spans, start, end) is Some,
{
}

} // verus!
