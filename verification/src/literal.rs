//! Decoding of string and char literal spellings, and the placeholder count
//! of a `println` format string.

use vstd::prelude::*;
use vstd::std_specs::iter::IteratorSpec;
use vstd::utf8::*;

verus! {

broadcast use vstd::string::group_string_axioms;

/// The byte an escape letter stands for: `\n \t \r \0 \\ \" \'`.
pub open spec fn escape_byte(c: char) -> Option<u8> {
    if c == 'n' {
        Some(10u8)
    } else if c == 't' {
        Some(9u8)
    } else if c == 'r' {
        Some(13u8)
    } else if c == '0' {
        Some(0u8)
    } else if c == '\\' {
        Some(92u8)
    } else if c == '"' {
        Some(34u8)
    } else if c == '\'' {
        Some(39u8)
    } else {
        None
    }
}

/// The byte content of a string literal's spelling: escapes are expanded,
/// an unknown escape keeps the backslash and the escaped char, a trailing
/// lone backslash stays a backslash, and every other char is UTF-8 encoded.
pub open spec fn decoded_bytes(s: Seq<char>) -> Seq<u8>
    decreases s.len(),
{
    if s.len() == 0 {
        seq![]
    } else if s[0] == '\\' {
        if s.len() == 1 {
            seq![92u8]
        } else {
            match escape_byte(s[1]) {
                Some(b) => seq![b] + decoded_bytes(s.skip(2)),
                None => seq![92u8] + encode_scalar(s[1] as u32) + decoded_bytes(s.skip(2)),
            }
        }
    } else {
        encode_scalar(s[0] as u32) + decoded_bytes(s.skip(1))
    }
}

/// The char an escape letter stands for, or the letter itself when the
/// escape is unknown.
pub open spec fn escape_char(c: char) -> char {
    if c == 'n' {
        '\n'
    } else if c == 't' {
        '\t'
    } else if c == 'r' {
        '\r'
    } else if c == '0' {
        '\0'
    } else {
        c
    }
}

/// The char a char literal's inner text denotes: the first (decoded) char,
/// `\` for a lone backslash, NUL for an empty body.
pub open spec fn decoded_char(s: Seq<char>) -> char {
    if s.len() == 0 {
        '\0'
    } else if s[0] == '\\' {
        if s.len() == 1 {
            '\\'
        } else {
            escape_char(s[1])
        }
    } else {
        s[0]
    }
}

/// Appends the UTF-8 encoding of `c` to `out`.
fn push_utf8(out: &mut Vec<u8>, c: char)
    ensures
        final(out)@ == old(out)@ + encode_scalar(c as u32),
{
    let v = c as u32;
    proof {
        char_is_scalar(c);
    }
    if v <= 0x7F {
        out.push((v & 0x7F) as u8);
    } else if v <= 0x7FF {
        out.push(0xC0 | ((v >> 6) & 0x1F) as u8);
        out.push(0x80 | (v & 0x3F) as u8);
    } else if v <= 0xFFFF {
        out.push(0xE0 | ((v >> 12) & 0x0F) as u8);
        out.push(0x80 | ((v >> 6) & 0x3F) as u8);
        out.push(0x80 | (v & 0x3F) as u8);
    } else {
        out.push(0xF0 | ((v >> 18) & 0x7) as u8);
        out.push(0x80 | ((v >> 12) & 0x3F) as u8);
        out.push(0x80 | ((v >> 6) & 0x3F) as u8);
        out.push(0x80 | (v & 0x3F) as u8);
    }
}

/// The chars still to decode: the rest of the input, behind a pending
/// backslash when one was just read.
spec fn pending(escape: bool, rest: Seq<char>) -> Seq<char> {
    if escape {
        seq!['\\'] + rest
    } else {
        rest
    }
}

/// Decodes a string literal's spelling (without its quotes) into its bytes.
pub fn decode_string_literal(raw: &str) -> (out: Vec<u8>)
    ensures
        out@ == decoded_bytes(raw@),
{
    let mut out: Vec<u8> = Vec::new();
    let mut chars = raw.chars();
    let mut escape = false;
    loop
        invariant_except_break
            out@ + decoded_bytes(pending(escape, chars.remaining())) == decoded_bytes(raw@),
        invariant
            chars.decrease() is Some,
        ensures
            out@ == decoded_bytes(raw@),
        decreases chars.decrease()->0,
    {
        let ghost rem = chars.remaining();
        let ghost before = pending(escape, rem);
        match chars.next() {
            None => {
                if escape {
                    assert(before.len() == 1 && before[0] == '\\');
                    out.push(92u8);
                } else {
                    assert(decoded_bytes(before) == Seq::<u8>::empty());
                }
                assert(out@ + Seq::<u8>::empty() == out@);
                break ;
            },
            Some(c) => {
                if escape {
                    assert(before[0] == '\\' && before[1] == c);
                    assert(before.skip(2) == chars.remaining());
                    escape = false;
                    if c == 'n' {
                        out.push(10u8);
                    } else if c == 't' {
                        out.push(9u8);
                    } else if c == 'r' {
                        out.push(13u8);
                    } else if c == '0' {
                        out.push(0u8);
                    } else if c == '\\' {
                        out.push(92u8);
                    } else if c == '"' {
                        out.push(34u8);
                    } else if c == '\'' {
                        out.push(39u8);
                    } else {
                        out.push(92u8);
                        push_utf8(&mut out, c);
                    }
                } else if c == '\\' {
                    assert(pending(true, chars.remaining()) == rem);
                    escape = true;
                } else {
                    assert(rem.skip(1) == chars.remaining());
                    push_utf8(&mut out, c);
                }
            },
        }
    }
    out
}

/// Decodes a char literal's inner text (between the quotes) to one char.
pub fn decode_char_literal(inner: &str) -> (c: char)
    ensures
        c == decoded_char(inner@),
{
    let mut chars = inner.chars();
    let ghost rem = chars.remaining();
    match chars.next() {
        Some(first) => {
            if first == '\\' {
                match chars.next() {
                    Some(e) => {
                        if e == 'n' {
                            '\n'
                        } else if e == 't' {
                            '\t'
                        } else if e == 'r' {
                            '\r'
                        } else if e == '0' {
                            '\0'
                        } else {
                            e
                        }
                    },
                    None => '\\',
                }
            } else {
                first
            }
        },
        None => '\0',
    }
}

} // verus!
