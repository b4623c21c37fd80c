//! Source text and byte-offset queries: line starts, one-based line/column
//! positions (byte and UTF-16 columns), the inverse UTF-16 position to
//! offset mapping, and range slicing.

use vstd::prelude::*;
use vstd::std_specs::iter::IteratorSpec;
use vstd::string::StringSliceAdditionalSpecFns;
use vstd::utf8::*;

use crate::text::{
    char_utf16_width, char_utf8_width, lemma_boundary_after_ascii, lemma_boundary_in_suffix,
    utf16_len, utf16_width, utf8_width,
};

verus! {

broadcast use vstd::string::group_string_axioms;

/// The offsets, in order, at which `needle` occurs in `h`.
pub open spec fn byte_positions(h: Seq<u8>, needle: u8) -> Seq<usize>
    decreases h.len(),
{
    if h.len() == 0 {
        seq![]
    } else {
        let rest = byte_positions(h.drop_last(), needle);
        if h.last() == needle {
            rest.push((h.len() - 1) as usize)
        } else {
            rest
        }
    }
}

/// The byte offset at which each line starts: 0, then one past every `\n`.
pub open spec fn line_starts(b: Seq<u8>) -> Seq<usize> {
    seq![0usize] + byte_positions(b, 10u8).map_values(|p: usize| (p + 1) as usize)
}

/// `i` is the (zero-based) line holding byte offset `offset`.
pub open spec fn is_line_of(starts: Seq<usize>, offset: int, i: int) -> bool {
    &&& 0 <= i < starts.len()
    &&& starts[i] <= offset
    &&& i + 1 < starts.len() ==> offset < starts[i + 1]
}

/// The zero-based line holding byte offset `offset`.
pub open spec fn line_of(starts: Seq<usize>, offset: int) -> int {
    choose|i: int| is_line_of(starts, offset, i)
}

/// A one-based source position: a line and a column.
#[derive(Debug, Clone, Copy, PartialEq, Eq)]
pub struct LineCol {
    pub line: u32,
    pub col: u32,
}

/// The one-based line and byte column of `offset`.
pub open spec fn spec_line_col(b: Seq<u8>, offset: int) -> LineCol {
    let starts = line_starts(b);
    let i = line_of(starts, offset);
    LineCol { line: (i + 1) as u32, col: (offset - starts[i] + 1) as u32 }
}

/// The one-based line and UTF-16 column of `offset`.
pub open spec fn spec_line_col_utf16(b: Seq<u8>, offset: int) -> LineCol {
    let starts = line_starts(b);
    let i = line_of(starts, offset);
    LineCol {
        line: (i + 1) as u32,
        col: (utf16_len(decode_utf8(b.subrange(starts[i] as int, offset))) + 1) as u32,
    }
}

/// The number of bytes of `chars` walked over while fewer than `target`
/// UTF-16 units have been seen (`seen` so far).
pub open spec fn utf16_advance(chars: Seq<char>, target: int, seen: int) -> int
    decreases chars.len(),
{
    if chars.len() == 0 || seen >= target {
        0
    } else {
        utf8_width(chars[0]) + utf16_advance(
            chars.drop_first(),
            target,
            seen + utf16_width(chars[0]),
        )
    }
}

/// The byte offset of zero-based `line` and zero-based UTF-16 column `col`:
/// a column past the line's end clamps to the line end (the offset of its
/// `\n`, or the end of the text on the last line) and a line past the last
/// clamps to the end of the text.
pub open spec fn spec_offset_utf16(b: Seq<u8>, line: int, col: int) -> u32 {
    let starts = line_starts(b);
    if line >= starts.len() {
        b.len() as u32
    } else {
        let start = starts[line] as int;
        let end = if line + 1 < starts.len() {
            starts[line + 1] - 1
        } else {
            b.len() as int
        };
        (start + utf16_advance(decode_utf8(b.subrange(start, end)), col, 0)) as u32
    }
}

/// The offsets, in order, at which `needle` occurs in `haystack`
/// (`memchr::memchr_iter`, collected).
#[verifier::external_body]
fn memchr_positions(needle: u8, haystack: &[u8]) -> (r: Vec<usize>)
    ensures
        r@ == byte_positions(haystack@, needle),
{
    memchr::memchr_iter(needle, haystack).collect()
}

proof fn lemma_byte_positions(h: Seq<u8>, needle: u8)
    requires
        h.len() <= usize::MAX,
    ensures
        forall|k: int|
            0 <= k < byte_positions(h, needle).len() ==> {
                let p = #[trigger] byte_positions(h, needle)[k];
                &&& p < h.len()
                &&& h[p as int] == needle
            },
        forall|j: int, k: int|
            0 <= j < k < byte_positions(h, needle).len() ==> byte_positions(h, needle)[j]
                < byte_positions(h, needle)[k],
    decreases h.len(),
{
    if h.len() > 0 {
        let t = h.drop_last();
        lemma_byte_positions(t, needle);
        let rest = byte_positions(t, needle);
        let bp = byte_positions(h, needle);
        assert forall|k: int| 0 <= k < rest.len() implies rest[k] < h.len() - 1 && h[rest[k] as int]
            == needle by {
            assert(t[rest[k] as int] == h[rest[k] as int]);
        }
        if h.last() == needle {
            assert(bp == rest.push((h.len() - 1) as usize));
            assert forall|k: int| 0 <= k < bp.len() implies {
                let p = #[trigger] bp[k];
                &&& p < h.len()
                &&& h[p as int] == needle
            } by {
                if k < rest.len() {
                    assert(bp[k] == rest[k]);
                }
            }
            assert forall|j: int, k: int| 0 <= j < k < bp.len() implies bp[j] < bp[k] by {
                assert(bp[j] == rest[j]);
                if k < rest.len() {
                    assert(bp[k] == rest[k]);
                }
            }
        } else {
            assert(bp == rest);
        }
    }
}

/// The facts about line starts that the queries lean on: the first is 0,
/// they strictly increase, each later one follows a `\n`, none passes the end.
pub proof fn lemma_line_starts(b: Seq<u8>)
    requires
        b.len() <= usize::MAX,
    ensures
        line_starts(b).len() >= 1,
        line_starts(b)[0] == 0,
        forall|j: int, k: int|
            0 <= j < k < line_starts(b).len() ==> line_starts(b)[j] < line_starts(b)[k],
        forall|k: int|
            0 < k < line_starts(b).len() ==> {
                &&& 1 <= #[trigger] line_starts(b)[k] <= b.len()
                &&& b[line_starts(b)[k] - 1] == 10u8
            },
{
    lemma_byte_positions(b, 10u8);
    let pos = byte_positions(b, 10u8);
    let s = line_starts(b);
    let m = pos.map_values(|p: usize| (p + 1) as usize);
    assert forall|k: int| 0 < k < s.len() implies s[k] == pos[k - 1] + 1 by {
        assert(s[k] == m[k - 1]);
        assert(pos[k - 1] < b.len());
    }
    assert forall|k: int| 0 < k < s.len() implies 1 <= #[trigger] s[k] <= b.len() && b[s[k] - 1]
        == 10u8 by {
        assert(s[k] == pos[k - 1] + 1);
    }
    assert forall|j: int, k: int| 0 <= j < k < s.len() implies s[j] < s[k] by {
        if j > 0 {
            assert(s[j] == pos[j - 1] + 1);
        }
        assert(s[k] == pos[k - 1] + 1);
    }
}

/// Every line start of valid UTF-8 is a char boundary.
pub proof fn lemma_line_starts_boundaries(b: Seq<u8>)
    requires
        valid_utf8(b),
        b.len() <= usize::MAX,
    ensures
        forall|k: int| 0 <= k < line_starts(b).len() ==> is_char_boundary(b, #[trigger] line_starts(b)[k] as int),
        forall|k: int| 0 < k < line_starts(b).len() ==> is_char_boundary(b, #[trigger] line_starts(b)[k] - 1),
{
    lemma_line_starts(b);
    is_char_boundary_start_end_of_seq(b);
    assert forall|k: int| 0 <= k < line_starts(b).len() implies is_char_boundary(b, #[trigger] line_starts(b)[k] as int) by {
        if k > 0 {
            lemma_boundary_after_ascii(b, line_starts(b)[k] - 1);
        }
    }
    assert forall|k: int| 0 < k < line_starts(b).len() implies is_char_boundary(b, #[trigger] line_starts(b)[k] - 1) by {
        is_char_boundary_iff_not_is_continuation_byte(b, line_starts(b)[k] - 1);
    }
}

/// For strictly increasing starts, the line of an offset is unique.
pub proof fn lemma_line_of_unique(starts: Seq<usize>, offset: int, i: int)
    requires
        is_line_of(starts, offset, i),
        forall|j: int, k: int| 0 <= j < k < starts.len() ==> starts[j] < starts[k],
    ensures
        line_of(starts, offset) == i,
{
    let c = line_of(starts, offset);
    assert(is_line_of(starts, offset, c));
    if c < i {
        assert(starts[c + 1] <= starts[i]);
    } else if i < c {
        assert(starts[i + 1] <= starts[c]);
    }
}

/// The line starts of `bytes`.
fn lstarts(bytes: &[u8]) -> (r: Vec<usize>)
    ensures
        r@ == line_starts(bytes@),
        bytes@.len() <= usize::MAX,
{
    let blen = bytes.len();
    let nl = memchr_positions(10u8, bytes);
    proof {
        lemma_byte_positions(bytes@, 10u8);
    }
    let mut r: Vec<usize> = Vec::with_capacity(bytes.len() / 40);
    r.push(0);
    let mut i: usize = 0;
    while i < nl.len()
        invariant
            i <= nl@.len(),
            nl@ == byte_positions(bytes@, 10u8),
            blen == bytes@.len(),
            forall|k: int| 0 <= k < nl@.len() ==> #[trigger] nl@[k] < bytes@.len(),
            r@ == seq![0usize] + nl@.take(i as int).map_values(|p: usize| (p + 1) as usize),
        decreases nl@.len() - i,
    {
        let p = nl[i];
        r.push(p + 1);
        i = i + 1;
        assert(nl@.take(i as int).map_values(|p: usize| (p + 1) as usize) =~= nl@.take(
            (i - 1) as int,
        ).map_values(|p: usize| (p + 1) as usize).push((p + 1) as usize));
    }
    assert(nl@.take(i as int) =~= nl@);
    r
}

/// Source text with its line-start table.
pub struct SourceText {
    text: String,
    lstart: Vec<usize>,
}

impl View for SourceText {
    type V = Seq<char>;

    closed spec fn view(&self) -> Seq<char> {
        self.text@
    }
}

impl SourceText {
    #[verifier::type_invariant]
    spec fn inv(&self) -> bool {
        &&& self.lstart@ == line_starts(encode_utf8(self.text@))
        &&& encode_utf8(self.text@).len() <= usize::MAX
    }

    /// The UTF-8 bytes of the text.
    pub open spec fn bytes(&self) -> Seq<u8> {
        encode_utf8(self@)
    }

    /// Builds the source text from a string.
    pub fn new(content: String) -> (s: SourceText)
        ensures
            s@ == content@,
    {
        let lstart = lstarts(content.as_str().as_bytes());
        SourceText { text: content, lstart }
    }

    pub fn as_bytes(&self) -> (b: &[u8])
        ensures
            b@ == self.bytes(),
    {
        self.text.as_str().as_bytes()
    }

    pub fn as_str(&self) -> (s: &str)
        ensures
            s@ == self@,
    {
        self.text.as_str()
    }

    /// The length of the text in bytes.
    pub fn len(&self) -> (n: usize)
        ensures
            n == self.bytes().len(),
    {
        self.text.as_str().as_bytes().len()
    }

    pub fn is_empty(&self) -> (b: bool)
        ensures
            b == (self.bytes().len() == 0),
    {
        self.len() == 0
    }

    /// The byte offset at which each line starts.
    pub fn line_starts(&self) -> (s: &[usize])
        ensures
            s@ == line_starts(self.bytes()),
    {
        proof {
            use_type_invariant(self);
        }
        self.lstart.as_slice()
    }

    /// The zero-based line holding `offset`, by binary search over the
    /// line starts.
    fn find_line(&self, offset: usize) -> (i: usize)
        requires
            offset <= self.bytes().len(),
        ensures
            i < line_starts(self.bytes()).len(),
            i < usize::MAX,
            i == line_of(line_starts(self.bytes()), offset as int),
            is_line_of(line_starts(self.bytes()), offset as int, i as int),
    {
        proof {
            use_type_invariant(self);
            lemma_line_starts(self.bytes());
        }
        let starts = &self.lstart;
        let n = starts.len();
        let mut lo: usize = 0;
        let mut hi: usize = n;
        while hi - lo > 1
            invariant
                starts@ == line_starts(self.bytes()),
                n == starts@.len(),
                lo < hi <= n,
                starts@[lo as int] <= offset,
                hi < n ==> offset < starts@[hi as int],
            decreases hi - lo,
        {
            let mid = lo + (hi - lo) / 2;
            if starts[mid] <= offset {
                lo = mid;
            } else {
                hi = mid;
            }
        }
        proof {
            lemma_line_of_unique(starts@, offset as int, lo as int);
        }
        lo
    }

    /// The one-based line and byte column of `offset`.
    pub fn line_col(&self, offset: u32) -> (lc: LineCol)
        requires
            offset <= self.bytes().len(),
        ensures
            lc == spec_line_col(self.bytes(), offset as int),
    {
        proof {
            use_type_invariant(self);
        }
        let off = offset as usize;
        let line = self.find_line(off);
        let col = off - self.lstart[line];
        LineCol { line: (line as u64 + 1) as u32, col: (col as u64 + 1) as u32 }
    }

    /// The one-based line and UTF-16 column of `offset`, which must lie on a
    /// char boundary.
    pub fn line_col_utf16(&self, offset: u32) -> (lc: LineCol)
        requires
            offset <= self.bytes().len(),
            is_char_boundary(self.bytes(), offset as int),
        ensures
            lc == spec_line_col_utf16(self.bytes(), offset as int),
    {
        proof {
            use_type_invariant(self);
            encode_utf8_valid_utf8(self@);
            lemma_line_starts(self.bytes());
            lemma_line_starts_boundaries(self.bytes());
        }
        let off = offset as usize;
        let line = self.find_line(off);
        let start = self.lstart[line];
        let s = self.text.as_str();
        proof {
            lemma_boundary_in_suffix(self.bytes(), start as int, off as int);
        }
        let (_, tail) = s.split_at(start);
        let (mid, _) = tail.split_at(off - start);
        proof {
            encode_utf8_decode_utf8(mid@);
            assert(mid@ == decode_utf8(self.bytes().subrange(start as int, off as int)));
        }
        let col = utf16_units(mid);
        LineCol { line: (line as u64 + 1) as u32, col: (col as u64 + 1) as u32 }
    }

    /// The byte offset of zero-based `line` and zero-based UTF-16 column
    /// `col_utf16` (the inverse of [`Self::line_col_utf16`], clamping).
    pub fn offset_utf16(&self, line: u32, col_utf16: u32) -> (off: u32)
        ensures
            off == spec_offset_utf16(self.bytes(), line as int, col_utf16 as int),
    {
        proof {
            use_type_invariant(self);
            encode_utf8_valid_utf8(self@);
            lemma_line_starts(self.bytes());
            lemma_line_starts_boundaries(self.bytes());
            is_char_boundary_start_end_of_seq(self.bytes());
        }
        let len = self.len();
        let l = line as usize;
        if l >= self.lstart.len() {
            return len as u32;
        }
        let start = self.lstart[l];
        let end = if l + 1 < self.lstart.len() {
            self.lstart[l + 1] - 1
        } else {
            len
        };
        let s = self.text.as_str();
        proof {
            lemma_boundary_in_suffix(self.bytes(), start as int, end as int);
        }
        let (_, tail) = s.split_at(start);
        let (seg, _) = tail.split_at(end - start);
        proof {
            encode_utf8_decode_utf8(seg@);
        }
        let adv = utf16_walk(seg, col_utf16 as usize, end - start);
        (start + adv) as u32
    }

    /// The text of the byte range `start..end`, or `None` when it is out of
    /// bounds, reversed, or not on char boundaries.
    pub fn slice(&self, start: u32, end: u32) -> (r: Option<&str>)
        ensures
            r is Some <==> (start <= end <= self.bytes().len() && is_char_boundary(
                self.bytes(),
                start as int,
            ) && is_char_boundary(self.bytes(), end as int)),
            r matches Some(t) ==> t.spec_bytes() == self.bytes().subrange(start as int, end as int),
    {
        proof {
            encode_utf8_valid_utf8(self@);
        }
        let s = self.text.as_str();
        let st = start as usize;
        let en = end as usize;
        if st > en || en > s.as_bytes().len() {
            return None;
        }
        if !s.is_char_boundary(st) || !s.is_char_boundary(en) {
            return None;
        }
        proof {
            lemma_boundary_in_suffix(self.bytes(), st as int, en as int);
        }
        let (_, tail) = s.split_at(st);
        let (mid, _) = tail.split_at(en - st);
        Some(mid)
    }
}

/// The number of UTF-16 code units that encode `s`.
pub fn utf16_units(s: &str) -> (n: usize)
    requires
        s.spec_bytes().len() <= usize::MAX,
    ensures
        n == utf16_len(s@),
        n <= s.spec_bytes().len(),
{
    let mut n: usize = 0;
    let mut chars = s.chars();
    proof {
        lemma_utf16_len_bounded(s@);
    }
    loop
        invariant
            n + utf16_len(chars.remaining()) == utf16_len(s@),
            utf16_len(s@) <= usize::MAX,
            chars.decrease() is Some,
        ensures
            n == utf16_len(s@),
        decreases chars.decrease()->0,
    {
        let ghost rem = chars.remaining();
        match chars.next() {
            None => {
                break ;
            },
            Some(c) => {
                assert(rem.drop_first() == chars.remaining());
                n = n + char_utf16_width(c);
            },
        }
    }
    n
}

/// A text takes no more UTF-16 units than UTF-8 bytes.
pub proof fn lemma_utf16_len_bounded(s: Seq<char>)
    ensures
        utf16_len(s) <= encode_utf8(s).len(),
    decreases s.len(),
{
    if s.len() > 0 {
        lemma_utf16_len_bounded(s.drop_first());
        char_is_scalar(s[0]);
    }
}

/// The bytes of `s` walked over, char by char, while fewer than `target`
/// UTF-16 units have been seen.
fn utf16_walk(s: &str, target: usize, nbytes: usize) -> (adv: usize)
    requires
        s.spec_bytes().len() == nbytes,
    ensures
        adv == utf16_advance(s@, target as int, 0),
        adv <= nbytes,
{
    let mut seen: usize = 0;
    let mut byte: usize = 0;
    let mut chars = s.chars();
    loop
        invariant
            byte + utf16_advance(chars.remaining(), target as int, seen as int) == utf16_advance(
                s@,
                target as int,
                0,
            ),
            byte + encode_utf8(chars.remaining()).len() == nbytes,
            seen <= byte,
            chars.decrease() is Some,
        ensures
            byte == utf16_advance(s@, target as int, 0),
            byte <= nbytes,
        decreases chars.decrease()->0,
    {
        let ghost rem = chars.remaining();
        if seen >= target {
            assert(utf16_advance(rem, target as int, seen as int) == 0);
            break ;
        }
        match chars.next() {
            None => {
                break ;
            },
            Some(c) => {
                assert(rem.drop_first() == chars.remaining());
                assert(encode_utf8(rem) == encode_scalar(c as u32) + encode_utf8(chars.remaining()));
                let w8 = char_utf8_width(c);
                let w16 = char_utf16_width(c);
                seen = seen + w16;
                byte = byte + w8;
            },
        }
    }
    byte
}

} // verus!
