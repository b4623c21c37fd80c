//! Properties that span several operations of the library: what a later
//! call gives back of an earlier one, and what every result keeps.

use vstd::prelude::*;
use vstd::set_lib::{lemma_int_range, lemma_len_subset, set_int_range};
use vstd::arithmetic::power2::{lemma2_to64, pow2};
use vstd::utf8::*;

use crate::consts::{digit_value, digits_value, spec_from_str_radix, spec_int_range, spec_parse_int_literal, spec_wrap_int};
use crate::graph::{edge, graph_ok, is_walk, lemma_n_unset_set, lemma_reaches_trans, n_unset, reaches, step_ok};
use crate::interner::{distinct, interned};
use crate::literal::decoded_bytes;
use crate::items::{collect_fold, collect_step, enum_step, register_variants, CollectPass, EnumView, ItemDecl, ItemsView};
use crate::ids::EnumId;
use crate::ids::LocalId;
use crate::lowering::{destructure_fold, DestructureState, PatField};
use crate::names::spec_is_int_type;
use crate::scopes::{spec_lookup, Binding};
use crate::semantic::{encode_from, token_pos, ClassifiedToken, SemToken};
use crate::source::{
    is_line_of, lemma_line_starts, lemma_line_starts_boundaries, lemma_utf16_len_bounded, line_of, line_starts,
    spec_line_col_utf16, spec_offset_utf16, utf16_advance,
};
use crate::text::{decimal, digit_char, utf16_len, utf16_width};
use crate::typegraph::{
    add_new, all_wrappers, dep_edge, deps_all, hard_deps_list, hard_deps_of, is_dep_graph, lemma_add_new_props,
    node_deps_of, nominal_nodes, type_nodes, wrappers_list, wrappers_of, DeclsView, NodeView,
    all_unset, first_ready, kahn, leftovers, lemma_first_ready, on_cycle, ready, same_cycle_at, topo_positions,
};
use crate::types::{all_below, children_below, kind_interned, wf_kinds, KindView, TypeRef};

verus! {

/// Interning a string and reading its symbol back gives the string;
/// interning it again gives the same symbol and leaves the table as it is;
/// the strings interned before keep their symbols.
pub proof fn law_intern_idempotent(v: Seq<Seq<char>>, s: Seq<char>)
    requires
        distinct(v),
    ensures
        ({
            let (v1, i) = interned(v, s);
            &&& 0 <= i < v1.len()
            &&& v1[i] == s
            &&& distinct(v1)
            &&& interned(v1, s) == (v1, i)
            &&& v1.subrange(0, v.len() as int) == v
        }),
{
    let (v1, i) = interned(v, s);
    if v.contains(s) {
        assert(v.subrange(0, v.len() as int) =~= v);
        let j = choose|j: int| 0 <= j < v1.len() && v1[j] == s;
        assert(v1[j] == s);
    } else {
        assert(v1[v.len() as int] == s);
        assert(v1.contains(s));
        assert(v1.subrange(0, v.len() as int) =~= v);
        let j = choose|j: int| 0 <= j < v1.len() && v1[j] == s;
        if j < v.len() {
            assert(v[j] == s);
        }
    }
}

/// Two different strings interned one after the other get different
/// symbols.
pub proof fn law_intern_distinct(v: Seq<Seq<char>>, s: Seq<char>, t: Seq<char>)
    requires
        distinct(v),
        s != t,
    ensures
        ({
            let (v1, i) = interned(v, s);
            let (v2, j) = interned(v1, t);
            i != j && v2[i] == s && v2[j] == t
        }),
{
    law_intern_idempotent(v, s);
    let (v1, i) = interned(v, s);
    law_intern_idempotent(v1, t);
    let (v2, j) = interned(v1, t);
    assert(v2.subrange(0, v1.len() as int)[i] == v2[i]);
}

/// Interning a kind and looking its handle up gives the kind back;
/// interning it again gives the same handle and leaves the table as it
/// is; the table stays well formed.
pub proof fn law_kind_intern_idempotent(v: Seq<KindView>, k: KindView)
    requires
        wf_kinds(v),
        children_below(k, v.len() as int),
    ensures
        ({
            let (v1, i) = kind_interned(v, k);
            &&& 0 <= i < v1.len()
            &&& v1[i] == k
            &&& wf_kinds(v1)
            &&& kind_interned(v1, k) == (v1, i)
            &&& v1.subrange(0, v.len() as int) == v
        }),
{
    let (v1, i) = kind_interned(v, k);
    if v.contains(k) {
        assert(v.subrange(0, v.len() as int) =~= v);
        let j = choose|j: int| 0 <= j < v1.len() && v1[j] == k;
        assert(v1[j] == k);
        if j != i {
            assert(v1[j] == v1[i]);
        }
    } else {
        assert(v1[v.len() as int] == k);
        assert(v1.contains(k));
        assert(v1.subrange(0, v.len() as int) =~= v);
        assert forall|a: int| 0 <= a < v1.len() implies children_below(#[trigger] v1[a], a) by {
            if a < v.len() {
                assert(v1[a] == v[a]);
                assert(children_below(v[a], a));
            }
        }
        let j = choose|j: int| 0 <= j < v1.len() && v1[j] == k;
        if j < v.len() {
            assert(v[j] == k);
        }
    }
}

/// Interning two kinds one after the other gives them the same handle
/// exactly when they are equal, and each handle looks its kind up.
pub proof fn law_kind_intern_same_iff_equal(v: Seq<KindView>, k1: KindView, k2: KindView)
    requires
        wf_kinds(v),
        children_below(k1, v.len() as int),
        children_below(k2, v.len() as int),
    ensures
        ({
            let (v1, i) = kind_interned(v, k1);
            let (v2, j) = kind_interned(v1, k2);
            &&& (i == j) == (k1 == k2)
            &&& v2[i] == k1
            &&& v2[j] == k2
        }),
{
    law_kind_intern_idempotent(v, k1);
    let (v1, i) = kind_interned(v, k1);
    assert(children_below(k2, v1.len() as int)) by {
        if let KindView::Fn { params, .. } = k2 {
            assert(all_below(params, v.len() as int));
            assert(all_below(params, v1.len() as int));
        }
    }
    law_kind_intern_idempotent(v1, k2);
    let (v2, j) = kind_interned(v1, k2);
    assert(v2.subrange(0, v1.len() as int)[i] == v2[i]);
}

/// The number of backslashes that end `s`.
pub open spec fn trailing_backslashes(s: Seq<char>) -> nat
    decreases s.len(),
{
    if s.len() == 0 || s.last() != '\\' {
        0
    } else {
        1 + trailing_backslashes(s.drop_last())
    }
}

proof fn lemma_trailing_skip(s: Seq<char>)
    requires
        s.len() >= 1,
    ensures
        trailing_backslashes(s) <= s.len(),
        s[0] != '\\' ==> trailing_backslashes(s.skip(1)) == trailing_backslashes(s),
        s[0] == '\\' ==> if trailing_backslashes(s.skip(1)) == s.len() - 1 {
            trailing_backslashes(s) == s.len()
        } else {
            trailing_backslashes(s) == trailing_backslashes(s.skip(1))
        },
    decreases s.len(),
{
    if s.len() == 1 {
        assert(s.skip(1).len() == 0);
        assert(s.drop_last().len() == 0);
        assert(trailing_backslashes(s.drop_last()) == 0);
        assert(trailing_backslashes(s.skip(1)) == 0);
        assert(s.last() == s[0]);
    } else {
        let d = s.drop_last();
        lemma_trailing_skip(d);
        assert(s.skip(1).drop_last() =~= d.skip(1));
        assert(s.skip(1).last() == s.last());
        assert(d[0] == s[0]);
        assert(s.skip(1).len() > 0);
        if s.last() == '\\' {
            assert(trailing_backslashes(s) == 1 + trailing_backslashes(d));
            assert(trailing_backslashes(s.skip(1)) == 1 + trailing_backslashes(d.skip(1)));
        } else {
            assert(trailing_backslashes(s) == 0);
            assert(trailing_backslashes(s.skip(1)) == 0);
        }
    }
}

/// Decoding a string literal's spelling distributes over a seam that cuts
/// no escape: when `a` ends in an even run of backslashes (none at all
/// included), decoding `a` followed by `b` gives the bytes of `a` followed
/// by those of `b`.
pub proof fn law_decode_concat(a: Seq<char>, b: Seq<char>)
    requires
        trailing_backslashes(a) % 2 == 0,
    ensures
        decoded_bytes(a + b) == decoded_bytes(a) + decoded_bytes(b),
    decreases a.len(),
{
    if a.len() == 0 {
        assert(a + b =~= b);
        assert(decoded_bytes(a) =~= Seq::<u8>::empty());
        assert(decoded_bytes(a) + decoded_bytes(b) =~= decoded_bytes(b));
    } else if a[0] == '\\' {
        lemma_trailing_skip(a);
        if a.len() == 1 {
            assert(a.drop_last().len() == 0);
            assert(a.last() == a[0]);
            assert(trailing_backslashes(a) == 1);
        } else {
            lemma_trailing_skip(a.skip(1));
            assert(a.skip(1).skip(1) =~= a.skip(2));
            assert(a.skip(1)[0] == a[1]);
            if a.len() == 2 {
                assert(a.skip(2).len() == 0);
                assert(trailing_backslashes(a.skip(2)) == 0);
            } else {
                lemma_trailing_skip(a.skip(2));
            }
            let t = trailing_backslashes(a);
            let t2 = trailing_backslashes(a.skip(2));
            assert(t2 == t || t2 + 2 == t);
            law_decode_concat(a.skip(2), b);
            assert((a + b).skip(2) =~= a.skip(2) + b);
            assert((a + b)[0] == a[0]);
            assert((a + b)[1] == a[1]);
            match crate::literal::escape_byte(a[1]) {
                Some(x) => {
                    assert(seq![x] + (decoded_bytes(a.skip(2)) + decoded_bytes(b)) =~= (seq![x] + decoded_bytes(
                        a.skip(2),
                    )) + decoded_bytes(b));
                },
                None => {
                    let e = seq![92u8] + encode_scalar(a[1] as u32);
                    assert(e + (decoded_bytes(a.skip(2)) + decoded_bytes(b)) =~= (e + decoded_bytes(a.skip(2)))
                        + decoded_bytes(b));
                    assert(seq![92u8] + encode_scalar(a[1] as u32) + (decoded_bytes(a.skip(2)) + decoded_bytes(b))
                        =~= e + (decoded_bytes(a.skip(2)) + decoded_bytes(b)));
                },
            }
        }
    } else {
        lemma_trailing_skip(a);
        law_decode_concat(a.skip(1), b);
        assert((a + b).skip(1) =~= a.skip(1) + b);
        assert((a + b)[0] == a[0]);
        let e = encode_scalar(a[0] as u32);
        assert(e + (decoded_bytes(a.skip(1)) + decoded_bytes(b)) =~= (e + decoded_bytes(a.skip(1))) + decoded_bytes(b));
    }
}

/// The frames after binding `name` to `b` in the innermost one.
pub open spec fn bind_innermost(
    frames: Seq<Map<Seq<char>, Binding>>,
    name: Seq<char>,
    b: Binding,
) -> Seq<Map<Seq<char>, Binding>> {
    frames.update(frames.len() - 1, frames.last().insert(name, b))
}

/// A name looked up right after it is bound gives that binding; every
/// other name keeps its binding.
pub proof fn law_lookup_after_define(
    frames: Seq<Map<Seq<char>, Binding>>,
    name: Seq<char>,
    b: Binding,
    other: Seq<char>,
)
    requires
        frames.len() > 0,
    ensures
        spec_lookup(bind_innermost(frames, name, b), name) == Some(b),
        other != name ==> spec_lookup(bind_innermost(frames, name, b), other) == spec_lookup(frames, other),
{
    let f = bind_innermost(frames, name, b);
    assert(f.drop_last() =~= frames.drop_last());
}

/// A new innermost frame hides nothing until a name is bound in it; a
/// binding made there shadows outer ones, and closing the frame brings
/// every outer binding back.
pub proof fn law_scope_shadow_restore(
    frames: Seq<Map<Seq<char>, Binding>>,
    name: Seq<char>,
    b: Binding,
    other: Seq<char>,
)
    ensures
        spec_lookup(frames.push(Map::empty()), other) == spec_lookup(frames, other),
        spec_lookup(bind_innermost(frames.push(Map::empty()), name, b), name) == Some(b),
        bind_innermost(frames.push(Map::empty()), name, b).drop_last() == frames,
{
    let inner = frames.push(Map::empty());
    assert(inner.drop_last() =~= frames);
    let f = bind_innermost(inner, name, b);
    assert(f.drop_last() =~= frames);
}

/// Truncating a value to an integer type gives a value in that type's
/// range.
pub proof fn law_wrap_in_range(v: i128, n: Seq<char>)
    requires
        spec_is_int_type(n),
    ensures
        spec_int_range(n) matches Some((lo, hi)) && lo <= spec_wrap_int(v, n) <= hi,
{
}

/// The lower-case digit of value `d` in bases up to sixteen.
pub open spec fn radix_digit(d: nat) -> char {
    if d < 10 {
        digit_char(d)
    } else if d == 10 {
        'a'
    } else if d == 11 {
        'b'
    } else if d == 12 {
        'c'
    } else if d == 13 {
        'd'
    } else if d == 14 {
        'e'
    } else {
        'f'
    }
}

/// The spelling of `n` in base `r` with lower-case digits and no leading
/// zero, as Rust's `{}`, `{:x}`, `{:o}` and `{:b}` print it.
pub open spec fn radix_spelling(n: nat, r: nat) -> Seq<char>
    decreases n,
{
    if n < r || r < 2 {
        seq![radix_digit(n)]
    } else {
        proof {
            assert(n / r < n) by (nonlinear_arith)
                requires
                    n >= r,
                    r >= 2,
            ;
        }
        radix_spelling(n / r, r).push(radix_digit(n % r))
    }
}

proof fn lemma_radix_digit_value(d: nat)
    requires
        d < 16,
    ensures
        digit_value(radix_digit(d)) == d,
        radix_digit(d) != '+',
        d != 0 ==> radix_digit(d) != '0',
{
}

proof fn lemma_radix_spelling_value(n: nat, r: nat)
    requires
        2 <= r <= 16,
    ensures
        digits_value(radix_spelling(n, r), r) == Some(n),
        radix_spelling(n, r).len() > 0,
        radix_spelling(n, r)[0] != '+',
        n != 0 ==> radix_spelling(n, r)[0] != '0',
    decreases n,
{
    if n < r {
        lemma_radix_digit_value(n);
        let sp = radix_spelling(n, r);
        assert(sp.drop_last() =~= Seq::<char>::empty());
        assert(sp.last() == radix_digit(n));
        assert(digits_value(sp.drop_last(), r) == Some(0nat));
        assert(0 * r + n == n) by (nonlinear_arith);
    } else {
        assert(n / r < n) by (nonlinear_arith)
            requires
                n >= r,
                r >= 2,
        ;
        lemma_radix_spelling_value(n / r, r);
        assert(n % r < r) by (nonlinear_arith)
            requires
                r >= 2,
        ;
        lemma_radix_digit_value(n % r);
        let sp = radix_spelling(n, r);
        let pre = radix_spelling(n / r, r);
        assert(sp.drop_last() =~= pre);
        assert(sp.last() == radix_digit(n % r));
        assert(sp[0] == pre[0]);
        vstd::arithmetic::div_mod::lemma_fundamental_div_mod(n as int, r as int);
        assert((n / r) * r + n % r == n) by (nonlinear_arith)
            requires
                n == r * (n / r) + (n % r),
        ;
        vstd::arithmetic::div_mod::lemma_div_non_zero(n as int, r as int);
    }
}

/// The decimal spelling is the base-ten spelling.
proof fn lemma_decimal_spelling(n: nat)
    ensures
        decimal(n) == radix_spelling(n, 10),
    decreases n,
{
    if n >= 10 {
        lemma_decimal_spelling(n / 10);
    }
}

/// Reading back a printed number gives the number: its decimal spelling,
/// and its hexadecimal, binary and octal spellings behind `0x`, `0b` and
/// `0o`.
pub proof fn law_parse_int_printed(n: u128)
    ensures
        spec_parse_int_literal(decimal(n as nat)) == Some(n),
        spec_parse_int_literal(seq!['0', 'x'] + radix_spelling(n as nat, 16)) == Some(n),
        spec_parse_int_literal(seq!['0', 'b'] + radix_spelling(n as nat, 2)) == Some(n),
        spec_parse_int_literal(seq!['0', 'o'] + radix_spelling(n as nat, 8)) == Some(n),
{
    lemma_decimal_spelling(n as nat);
    lemma_radix_spelling_value(n as nat, 10);
    lemma_radix_spelling_value(n as nat, 16);
    lemma_radix_spelling_value(n as nat, 2);
    lemma_radix_spelling_value(n as nat, 8);
    let d = radix_spelling(n as nat, 10);
    if d.len() >= 2 {
        assert(d[0] != '0');
    }
    assert((seq!['0', 'x'] + radix_spelling(n as nat, 16)).skip(2) =~= radix_spelling(n as nat, 16));
    assert((seq!['0', 'b'] + radix_spelling(n as nat, 2)).skip(2) =~= radix_spelling(n as nat, 2));
    assert((seq!['0', 'o'] + radix_spelling(n as nat, 8)).skip(2) =~= radix_spelling(n as nat, 8));
}

/// The width in bits of the named integer type (LP64 widths).
pub open spec fn int_width(n: Seq<char>) -> nat {
    if n == "int8"@ || n == "uint8"@ {
        8
    } else if n == "int16"@ || n == "uint16"@ {
        16
    } else if n == "int32"@ || n == "uint32"@ {
        32
    } else {
        64
    }
}

/// Truncating a value to an integer type keeps it congruent to the value
/// modulo two to the type's width: only the bits above the width change.
pub proof fn law_wrap_congruent(v: i128, n: Seq<char>)
    requires
        spec_is_int_type(n),
    ensures
        (spec_wrap_int(v, n) - v) % (pow2(int_width(n)) as int) == 0,
{
    lemma2_to64();
    assert(((v as i8) as i128 - v) % 0x100 == 0) by (bit_vector);
    assert(((v as u8) as i128 - v) % 0x100 == 0) by (bit_vector);
    assert(((v as i16) as i128 - v) % 0x10000 == 0) by (bit_vector);
    assert(((v as u16) as i128 - v) % 0x10000 == 0) by (bit_vector);
    assert(((v as i32) as i128 - v) % 0x1_0000_0000 == 0) by (bit_vector);
    assert(((v as u32) as i128 - v) % 0x1_0000_0000 == 0) by (bit_vector);
    assert(((v as i64) as i128 - v) % 0x1_0000_0000_0000_0000 == 0) by (bit_vector);
    assert(((v as u64) as i128 - v) % 0x1_0000_0000_0000_0000 == 0) by (bit_vector);
    reveal_strlit("int8");
    reveal_strlit("int16");
    reveal_strlit("int32");
    reveal_strlit("int64");
    reveal_strlit("isize");
    reveal_strlit("uint8");
    reveal_strlit("uint16");
    reveal_strlit("uint32");
    reveal_strlit("uint64");
    reveal_strlit("usize");
    assert(pow2(8) == 0x100 && pow2(16) == 0x10000 && pow2(32) == 0x1_0000_0000 && pow2(64)
        == 0x1_0000_0000_0000_0000);
    assert(
        "int8"@.len() == 4 && "int8"@[0] == 'i' && "int8"@[1] == 'n' && "int8"@[3] == '8'
            && "int16"@.len() == 5 && "int16"@[0] == 'i' && "int16"@[1] == 'n' && "int16"@[3] == '1'
            && "int32"@.len() == 5 && "int32"@[0] == 'i' && "int32"@[1] == 'n' && "int32"@[3] == '3'
            && "int64"@.len() == 5 && "int64"@[0] == 'i' && "int64"@[1] == 'n' && "int64"@[3] == '6'
            && "isize"@.len() == 5 && "isize"@[0] == 'i' && "isize"@[1] == 's' && "isize"@[3] == 'z'
            && "uint8"@.len() == 5 && "uint8"@[0] == 'u' && "uint8"@[1] == 'i' && "uint8"@[3] == 't'
            && "uint16"@.len() == 6 && "uint16"@[0] == 'u' && "uint16"@[1] == 'i' && "uint16"@[3] == 't'
            && "uint32"@.len() == 6 && "uint32"@[0] == 'u' && "uint32"@[1] == 'i' && "uint32"@[3] == 't'
            && "uint64"@.len() == 6 && "uint64"@[0] == 'u' && "uint64"@[1] == 'i' && "uint64"@[3] == 't'
            && "usize"@.len() == 5 && "usize"@[0] == 'u' && "usize"@[1] == 's' && "usize"@[3] == 'z'
    );
    let w = spec_wrap_int(v, n);
    if n == "int8"@ {
        assert(w == (v as i8) as i128 && int_width(n) == 8);
    } else if n == "int16"@ {
        assert(w == (v as i16) as i128 && int_width(n) == 16);
    } else if n == "int32"@ {
        assert(w == (v as i32) as i128 && int_width(n) == 32);
    } else if n == "int64"@ || n == "isize"@ {
        assert(w == (v as i64) as i128 && int_width(n) == 64);
    } else if n == "uint8"@ {
        assert(w == (v as u8) as i128 && int_width(n) == 8);
    } else if n == "uint16"@ {
        assert(w == (v as u16) as i128 && int_width(n) == 16);
    } else if n == "uint32"@ {
        assert(w == (v as u32) as i128 && int_width(n) == 32);
    } else {
        assert(n == "uint64"@ || n == "usize"@);
        assert(w == (v as u64) as i128 && int_width(n) == 64);
    }
}

/// Lying on one cycle is symmetric.
pub proof fn law_same_cycle_symmetric(g: Seq<Seq<usize>>, i: int, j: int)
    ensures
        same_cycle_at(g, i, j) == same_cycle_at(g, j, i),
{
}

/// Two nodes on one cycle each lie on a cycle.
pub proof fn law_same_cycle_on_cycle(g: Seq<Seq<usize>>, i: int, j: int)
    requires
        same_cycle_at(g, i, j),
    ensures
        on_cycle(g, i),
        on_cycle(g, j),
{
    lemma_reaches_trans(g, i, j, i);
    lemma_reaches_trans(g, j, i, j);
}

/// `done` with every position of `o` set as well.
pub open spec fn mark_all(done: Seq<bool>, o: Seq<int>) -> Seq<bool> {
    Seq::new(done.len(), |i: int| done[i] || o.contains(i))
}

/// What the emission order from `done` on keeps: it emits nodes of the
/// graph that were not yet emitted, each once, each after all its
/// dependencies, and stops only when no node is ready.
#[verifier::spinoff_prover]
proof fn lemma_kahn(g: Seq<Seq<usize>>, done: Seq<bool>)
    requires
        graph_ok(g),
        done.len() == g.len(),
    ensures
        ({
            let o = kahn(g, done);
            &&& forall|p: int| 0 <= p < o.len() ==> 0 <= #[trigger] o[p] < g.len() && !done[o[p]]
            &&& o.no_duplicates()
            &&& forall|p: int, k: int|
                0 <= p < o.len() && 0 <= k < g[o[p]].len() ==> done[#[trigger] g[o[p]][k] as int] || exists|q: int|
                    0 <= q < p && #[trigger] o[q] == g[o[p]][k] as int
            &&& forall|i: int| !#[trigger] ready(g, mark_all(done, o), i)
        }),
    decreases n_unset(done),
{
    lemma_first_ready(g, done, 0);
    let o = kahn(g, done);
    match first_ready(g, done, 0) {
        None => {
            assert(o =~= Seq::<int>::empty());
            assert(mark_all(done, o) =~= done);
        },
        Some(i) => {
            let d1 = done.update(i, true);
            lemma_n_unset_set(done, i);
            lemma_kahn(g, d1);
            let o1 = kahn(g, d1);
            assert(o == seq![i] + o1);
            assert forall|p: int| 0 <= p < o.len() implies 0 <= #[trigger] o[p] < g.len() && !done[o[p]] by {
                if p > 0 {
                    assert(o[p] == o1[p - 1]);
                }
            }
            assert forall|a: int, b: int| 0 <= a < o.len() && 0 <= b < o.len() && a != b implies o[a] != o[b] by {
                if a > 0 && b > 0 {
                    assert(o[a] == o1[a - 1] && o[b] == o1[b - 1]);
                } else if a == 0 {
                    assert(o[b] == o1[b - 1]);
                    assert(!d1[o1[b - 1]]);
                } else {
                    assert(o[a] == o1[a - 1]);
                    assert(!d1[o1[a - 1]]);
                }
            }
            assert forall|p: int, k: int|
                0 <= p < o.len() && 0 <= k < g[o[p]].len() implies done[#[trigger] g[o[p]][k] as int] || exists|q: int|
                0 <= q < p && #[trigger] o[q] == g[o[p]][k] as int by {
                let x = g[o[p]][k] as int;
                if p == 0 {
                    assert(ready(g, done, i));
                    assert(done[g[i][k] as int]);
                } else {
                    assert(o[p] == o1[p - 1]);
                    assert(g[o1[p - 1]][k] as int == x);
                    if d1[x] {
                        if x == i {
                            assert(o[0] == x);
                        }
                    } else {
                        let q1 = choose|q: int| 0 <= q < p - 1 && #[trigger] o1[q] == g[o1[p - 1]][k] as int;
                        assert(o[q1 + 1] == o1[q1]);
                    }
                }
            }
            assert(mark_all(done, o) =~= mark_all(d1, o1)) by {
                assert forall|j: int| 0 <= j < done.len() implies mark_all(done, o)[j] == mark_all(d1, o1)[j] by {
                    if o.contains(j) {
                        let q = choose|q: int| 0 <= q < o.len() && o[q] == j;
                        if q > 0 {
                            assert(o1[q - 1] == j);
                        }
                    }
                    if o1.contains(j) {
                        let q = choose|q: int| 0 <= q < o1.len() && o1[q] == j;
                        assert(o[q + 1] == j);
                    }
                    if j == i {
                        assert(o[0] == j);
                    }
                }
            }
        },
    }
}

/// The positions below `k` that `order` does not hold are each once there,
/// ascending, and are exactly those positions.
proof fn lemma_leftovers(order: Seq<int>, k: int)
    ensures
        forall|j: int| #[trigger] leftovers(order, k).contains(j) <==> (0 <= j < k && !order.contains(j)),
        leftovers(order, k).no_duplicates(),
    decreases k,
{
    if k > 0 {
        lemma_leftovers(order, k - 1);
        let prev = leftovers(order, k - 1);
        if !order.contains(k - 1) {
            let cur = prev.push(k - 1);
            assert forall|j: int| #[trigger] cur.contains(j) <==> (prev.contains(j) || j == k - 1) by {
                if cur.contains(j) {
                    let q = choose|q: int| 0 <= q < cur.len() && cur[q] == j;
                    if q < prev.len() {
                        assert(prev[q] == j);
                    }
                }
                if prev.contains(j) {
                    let q = choose|q: int| 0 <= q < prev.len() && prev[q] == j;
                    assert(cur[q] == j);
                }
                if j == k - 1 {
                    assert(cur[prev.len() as int] == j);
                }
            }
            assert forall|a: int, b: int| 0 <= a < cur.len() && 0 <= b < cur.len() && a != b implies cur[a] != cur[b] by {
                if a < prev.len() && b < prev.len() {
                } else if a < prev.len() {
                    assert(prev.contains(prev[a]));
                } else if b < prev.len() {
                    assert(prev.contains(prev[b]));
                }
            }
        }
    }
}

/// A sequence of distinct positions below `n` holds at most `n` items, and
/// exactly `n` only when it holds them all.
proof fn lemma_positions_card(s: Seq<int>, n: int)
    requires
        0 <= n,
        s.no_duplicates(),
        forall|p: int| 0 <= p < s.len() ==> 0 <= #[trigger] s[p] < n,
    ensures
        s.len() <= n,
        s.len() < n ==> exists|j: int| 0 <= j < n && !s.contains(j),
        s.len() == n ==> forall|j: int| 0 <= j < n ==> s.contains(j),
{
    s.unique_seq_to_set();
    lemma_int_range(0, n);
    assert(s.to_set().subset_of(set_int_range(0, n))) by {
        assert forall|x: int| s.to_set().contains(x) implies set_int_range(0, n).contains(x) by {
            let q = choose|q: int| 0 <= q < s.len() && s[q] == x;
            assert(0 <= s[q] < n);
        }
    }
    lemma_len_subset(s.to_set(), set_int_range(0, n));
    if s.len() < n {
        if forall|j: int| 0 <= j < n ==> s.contains(j) {
            assert(set_int_range(0, n).subset_of(s.to_set()));
            lemma_len_subset(set_int_range(0, n), s.to_set());
        }
    }
    if s.len() == n {
        assert forall|j: int| 0 <= j < n implies s.contains(j) by {
            if !s.contains(j) {
                let r = set_int_range(0, n).remove(j);
                assert(s.to_set().subset_of(r)) by {
                    assert forall|x: int| s.to_set().contains(x) implies r.contains(x) by {
                        let q = choose|q: int| 0 <= q < s.len() && s[q] == x;
                        assert(0 <= s[q] < n);
                    }
                }
                assert(set_int_range(0, n).contains(j));
                lemma_len_subset(s.to_set(), r);
            }
        }
    }
}

/// The emission order is a permutation of the nodes: every node appears
/// exactly once.
#[verifier::spinoff_prover]
pub proof fn law_topo_permutation(g: Seq<Seq<usize>>)
    requires
        graph_ok(g),
    ensures
        topo_positions(g).len() == g.len(),
        topo_positions(g).no_duplicates(),
        forall|j: int| 0 <= j < g.len() ==> #[trigger] topo_positions(g).contains(j),
        forall|p: int| 0 <= p < g.len() ==> 0 <= #[trigger] topo_positions(g)[p] < g.len(),
{
    let n = g.len() as int;
    let done = all_unset(g.len());
    lemma_kahn(g, done);
    let o = kahn(g, done);
    lemma_leftovers(o, n);
    let l = leftovers(o, n);
    let t = o + l;
    assert forall|p: int| 0 <= p < t.len() implies 0 <= #[trigger] t[p] < n by {
        if p < o.len() {
            assert(t[p] == o[p]);
        } else {
            assert(t[p] == l[p - o.len()]);
            assert(l.contains(l[p - o.len()]));
        }
    }
    assert forall|a: int, b: int| 0 <= a < t.len() && 0 <= b < t.len() && a != b implies t[a] != t[b] by {
        if a < o.len() && b >= o.len() {
            assert(l.contains(t[b]));
            assert(o.contains(t[a]));
        } else if b < o.len() && a >= o.len() {
            assert(l.contains(t[a]));
            assert(o.contains(t[b]));
        }
    }
    assert forall|j: int| 0 <= j < n implies #[trigger] t.contains(j) by {
        if o.contains(j) {
            let q = choose|q: int| 0 <= q < o.len() && o[q] == j;
            assert(t[q] == j);
        } else {
            assert(l.contains(j));
            let q = choose|q: int| 0 <= q < l.len() && l[q] == j;
            assert(t[o.len() + q] == j);
        }
    }
    lemma_positions_card(t, n);
}

/// In the emission order, every node emitted by the dependency phase comes
/// after every node it depends on: the `k`-th dependency of the node at
/// position `p` sits at an earlier position.
pub proof fn law_topo_deps_first(g: Seq<Seq<usize>>, p: int, k: int)
    requires
        graph_ok(g),
        0 <= p < kahn(g, all_unset(g.len())).len(),
        0 <= k < g[kahn(g, all_unset(g.len()))[p]].len(),
    ensures
        exists|q: int| 0 <= q < p && #[trigger] topo_positions(g)[q] == g[topo_positions(g)[p]][k] as int,
{
    let done = all_unset(g.len());
    lemma_kahn(g, done);
    let o = kahn(g, done);
    let t = topo_positions(g);
    assert(t == o + leftovers(o, g.len() as int));
    assert(t[p] == o[p]);
    assert(0 <= o[p] < g.len());
    assert(!done[g[o[p]][k] as int]);
    let q = choose|q: int| 0 <= q < p && #[trigger] o[q] == g[o[p]][k] as int;
    assert(t[q] == o[q]);
}

/// A walk of `m + 1` nodes from `x` through nodes left unset in `fin`,
/// each step to an unset successor.
spec fn stuck_walk(g: Seq<Seq<usize>>, fin: Seq<bool>, x: int, m: nat) -> Seq<int>
    decreases m,
{
    if m == 0 {
        seq![x]
    } else {
        let k = choose|k: int| 0 <= k < g[x].len() && !fin[g[x][k] as int];
        seq![x] + stuck_walk(g, fin, g[x][k] as int, (m - 1) as nat)
    }
}

proof fn lemma_stuck_walk(g: Seq<Seq<usize>>, fin: Seq<bool>, x: int, m: nat)
    requires
        graph_ok(g),
        fin.len() == g.len(),
        0 <= x < g.len(),
        !fin[x],
        forall|u: int| 0 <= u < g.len() && !fin[u] ==> exists|k: int| 0 <= k < g[u].len() && !fin[#[trigger] g[u][k] as int],
    ensures
        stuck_walk(g, fin, x, m).len() == m + 1,
        stuck_walk(g, fin, x, m)[0] == x,
        forall|p: int| 0 <= p <= m ==> 0 <= #[trigger] stuck_walk(g, fin, x, m)[p] < g.len(),
        forall|p: int| 0 <= p < m ==> #[trigger] step_ok(g, stuck_walk(g, fin, x, m), p),
    decreases m,
{
    if m > 0 {
        let k = choose|k: int| 0 <= k < g[x].len() && !fin[g[x][k] as int];
        let y = g[x][k] as int;
        assert(0 <= y < g.len());
        lemma_stuck_walk(g, fin, y, (m - 1) as nat);
        let w = stuck_walk(g, fin, x, m);
        let w1 = stuck_walk(g, fin, y, (m - 1) as nat);
        assert(w == seq![x] + w1);
        assert forall|p: int| 0 <= p <= m implies 0 <= #[trigger] w[p] < g.len() by {
            if p > 0 {
                assert(w[p] == w1[p - 1]);
            }
        }
        assert forall|p: int| 0 <= p < m implies #[trigger] step_ok(g, w, p) by {
            if p == 0 {
                assert(g[x].contains(g[x][k]));
                assert(edge(g, x, y));
            } else {
                assert(step_ok(g, w1, p - 1));
                assert(w[p] == w1[p - 1] && w[p + 1] == w1[p]);
            }
        }
    }
}

/// When every node left unset in `fin` has an unset successor, some node
/// reaches itself.
#[verifier::spinoff_prover]
proof fn lemma_cycle_from_stuck(g: Seq<Seq<usize>>, fin: Seq<bool>, x: int)
    requires
        graph_ok(g),
        fin.len() == g.len(),
        0 <= x < g.len(),
        !fin[x],
        forall|u: int| 0 <= u < g.len() && !fin[u] ==> exists|k: int| 0 <= k < g[u].len() && !fin[#[trigger] g[u][k] as int],
    ensures
        exists|y: int| 0 <= y < g.len() && #[trigger] reaches(g, y, y),
{
    let n = g.len() as int;
    lemma_stuck_walk(g, fin, x, n as nat);
    let w = stuck_walk(g, fin, x, n as nat);
    if w.no_duplicates() {
        lemma_positions_card(w, n);
    }
    let (a, b) = choose|a: int, b: int| 0 <= a < w.len() && 0 <= b < w.len() && a != b && w[a] == w[b];
    let (lo, hi) = if a < b {
        (a, b)
    } else {
        (b, a)
    };
    let sub = w.subrange(lo, hi + 1);
    assert forall|k: int| 0 <= k < sub.len() - 1 implies #[trigger] step_ok(g, sub, k) by {
        assert(step_ok(g, w, lo + k));
        assert(sub[k] == w[lo + k] && sub[k + 1] == w[lo + k + 1]);
    }
    assert(is_walk(g, sub));
    assert(sub[0] == w[lo] && sub.last() == w[hi]);
    assert(reaches(g, w[lo], w[lo]));
}

/// When no node reaches itself, the dependency phase emits every node:
/// none is left over.
#[verifier::spinoff_prover]
pub proof fn law_topo_complete(g: Seq<Seq<usize>>)
    requires
        graph_ok(g),
        forall|i: int| 0 <= i < g.len() ==> !#[trigger] reaches(g, i, i),
    ensures
        kahn(g, all_unset(g.len())).len() == g.len(),
        topo_positions(g) == kahn(g, all_unset(g.len())),
{
    let n = g.len() as int;
    let done = all_unset(g.len());
    lemma_kahn(g, done);
    let o = kahn(g, done);
    lemma_positions_card(o, n);
    if o.len() < n {
        let fin = mark_all(done, o);
        let x = choose|j: int| 0 <= j < n && !o.contains(j);
        assert(!fin[x]);
        assert forall|u: int| 0 <= u < g.len() && !fin[u] implies exists|k: int|
            0 <= k < g[u].len() && !fin[#[trigger] g[u][k] as int] by {
            assert(!ready(g, fin, u));
        }
        lemma_cycle_from_stuck(g, fin, x);
    }
    lemma_leftovers(o, n);
    let l = leftovers(o, n);
    if l.len() > 0 {
        assert(l.contains(l[0]));
    }
    assert(l =~= Seq::<int>::empty());
    assert(o + l =~= o);
}

/// Some line holds every offset from 0 on (starting the search at line `k`).
proof fn lemma_line_exists(starts: Seq<usize>, off: int, k: int)
    requires
        0 <= k < starts.len(),
        starts[k] <= off,
    ensures
        exists|i: int| is_line_of(starts, off, i),
    decreases starts.len() - k,
{
    if k + 1 < starts.len() && starts[k + 1] <= off {
        lemma_line_exists(starts, off, k + 1);
    } else {
        assert(is_line_of(starts, off, k));
    }
}

/// Strictly increasing starts bounded by `m` number at most `m + 1`.
proof fn lemma_increasing_len(starts: Seq<usize>, m: int, k: int)
    requires
        starts.len() >= 1,
        starts[0] >= 0,
        forall|j: int, l: int| 0 <= j < l < starts.len() ==> starts[j] < starts[l],
        0 <= k < starts.len(),
    ensures
        starts[k] >= k,
    decreases k,
{
    if k > 0 {
        lemma_increasing_len(starts, m, k - 1);
    }
}

/// An offset that is a char boundary of `b` stays one in the part of `b`
/// between two of its char boundaries, which is valid UTF-8 too.
proof fn lemma_boundary_in_part(b: Seq<u8>, s: int, e: int, x: int)
    requires
        valid_utf8(b),
        0 <= s <= x <= e <= b.len(),
        is_char_boundary(b, s),
        is_char_boundary(b, e),
        is_char_boundary(b, x),
    ensures
        valid_utf8(b.subrange(s, e)),
        is_char_boundary(b.subrange(s, e), x - s),
{
    let tail = b.subrange(s, b.len() as int);
    valid_utf8_split(b, s);
    assert(is_char_boundary(tail, e - s)) by {
        if e - s == tail.len() {
            is_char_boundary_start_end_of_seq(tail);
        } else {
            is_char_boundary_iff_not_is_continuation_byte(b, e);
            is_char_boundary_iff_not_is_continuation_byte(tail, e - s);
            assert(tail[e - s] == b[e]);
        }
    }
    valid_utf8_split(tail, e - s);
    let part = b.subrange(s, e);
    assert(tail.subrange(0, e - s) =~= part);
    if x - s == 0 {
        is_char_boundary_start_end_of_seq(part);
    } else if x == e {
        is_char_boundary_start_end_of_seq(part);
    } else {
        is_char_boundary_iff_not_is_continuation_byte(b, x);
        is_char_boundary_iff_not_is_continuation_byte(part, x - s);
        assert(part[x - s] == b[x]);
    }
}

/// Walking `p + q` until `utf16_len(p)` more units are seen covers exactly
/// the bytes of `p`.
proof fn lemma_advance_prefix(p: Seq<char>, q: Seq<char>, seen: int)
    ensures
        utf16_advance(p + q, seen + utf16_len(p), seen) == encode_utf8(p).len(),
    decreases p.len(),
{
    if p.len() == 0 {
        assert(p + q =~= q);
        if q.len() > 0 {
        }
    } else {
        let c = p[0];
        assert((p + q)[0] == c);
        assert((p + q).drop_first() =~= p.drop_first() + q);
        lemma_advance_prefix(p.drop_first(), q, seen + utf16_width(c));
    }
}

/// Converting a byte offset to a zero-based line and UTF-16 column and back
/// gives the offset: for every char boundary `off` of the text,
/// `offset_utf16` of what `line_col_utf16` reports (each made zero-based) is
/// `off`. (Offsets are `u32`, so the text is shorter than `u32::MAX` bytes.)
#[verifier::spinoff_prover]
pub proof fn law_offset_utf16_inverts_line_col(chars: Seq<char>, off: int)
    requires
        encode_utf8(chars).len() < u32::MAX,
        0 <= off <= encode_utf8(chars).len(),
        is_char_boundary(encode_utf8(chars), off),
    ensures
        ({
            let b = encode_utf8(chars);
            let lc = spec_line_col_utf16(b, off);
            spec_offset_utf16(b, lc.line - 1, lc.col - 1) == off
        }),
{
    let b = encode_utf8(chars);
    encode_utf8_valid_utf8(chars);
    lemma_line_starts(b);
    lemma_line_starts_boundaries(b);
    is_char_boundary_start_end_of_seq(b);
    let starts = line_starts(b);
    lemma_line_exists(starts, off, 0);
    let i = line_of(starts, off);
    assert(is_line_of(starts, off, i));
    lemma_increasing_len(starts, b.len() as int, starts.len() - 1);
    if starts.len() > 1 {
        assert(starts[starts.len() - 1] <= b.len());
    }
    let s = starts[i] as int;
    let e = if i + 1 < starts.len() {
        starts[i + 1] - 1
    } else {
        b.len() as int
    };
    assert(is_char_boundary(b, s));
    assert(is_char_boundary(b, e));
    lemma_boundary_in_part(b, s, e, off);
    let part = b.subrange(s, e);
    decode_utf8_split(part, off - s);
    let pre = part.subrange(0, off - s);
    let post = part.subrange(off - s, part.len() as int);
    assert(pre =~= b.subrange(s, off));
    valid_utf8_split(part, off - s);
    decode_utf8_encode_utf8(pre);
    let p = decode_utf8(pre);
    lemma_advance_prefix(p, decode_utf8(post), 0);
    lemma_utf16_len_bounded(p);
    let lc = spec_line_col_utf16(b, off);
    assert(lc.line == (i + 1) as u32);
    assert(lc.col == (utf16_len(p) + 1) as u32);
}

/// The kind a node stands for.
pub open spec fn node_kind(x: NodeView) -> KindView {
    match x {
        NodeView::Nominal(n) => KindView::Path(n),
        NodeView::Array { elem, len } => KindView::Array { elem, len },
        NodeView::Fn { params, ret, variadic } => KindView::Fn { params, ret, variadic },
    }
}

/// `x` is a function-pointer typedef whose kind sits below position `m`.
pub open spec fn fn_ranked(kinds: Seq<KindView>, x: NodeView, m: int) -> bool {
    &&& x is Fn
    &&& exists|h: int| 0 <= h < m && h < kinds.len() && #[trigger] kinds[h] == node_kind(x)
}

/// Every node of `s` is a function-pointer typedef below position `m`.
pub open spec fn all_fn_ranked(kinds: Seq<KindView>, s: Seq<NodeView>, m: int) -> bool {
    forall|k: int| 0 <= k < s.len() ==> fn_ranked(kinds, #[trigger] s[k], m)
}

proof fn lemma_all_fn_ranked_concat(kinds: Seq<KindView>, a: Seq<NodeView>, b: Seq<NodeView>, m: int)
    requires
        all_fn_ranked(kinds, a, m),
        all_fn_ranked(kinds, b, m),
    ensures
        all_fn_ranked(kinds, a + b, m),
{
    assert forall|k: int| 0 <= k < (a + b).len() implies fn_ranked(kinds, #[trigger] (a + b)[k], m) by {
        if k < a.len() {
            assert((a + b)[k] == a[k]);
        } else {
            assert((a + b)[k] == b[k - a.len()]);
        }
    }
}

proof fn lemma_all_fn_ranked_weaken(kinds: Seq<KindView>, a: Seq<NodeView>, m: int, n: int)
    requires
        all_fn_ranked(kinds, a, m),
        m <= n,
    ensures
        all_fn_ranked(kinds, a, n),
{
    assert forall|k: int| 0 <= k < a.len() implies fn_ranked(kinds, #[trigger] a[k], n) by {
        assert(fn_ranked(kinds, a[k], m));
        let h = choose|h: int| 0 <= h < m && h < kinds.len() && #[trigger] kinds[h] == node_kind(a[k]);
        assert(kinds[h] == node_kind(a[k]));
    }
}

/// Behind a pointer, the only nodes a type depends on are function-pointer
/// typedefs no larger than the type.
#[verifier::spinoff_prover]
proof fn lemma_soft_deps_ranked(kinds: Seq<KindView>, d: DeclsView, t: TypeRef)
    ensures
        all_fn_ranked(kinds, hard_deps_of(kinds, d, t, true), t.0 as int + 1),
    decreases t.0 as int + 1, 0int,
{
    let s = hard_deps_of(kinds, d, t, true);
    let m = t.0 as int + 1;
    if (t.0 as int) < kinds.len() {
        match kinds[t.0 as int] {
            KindView::Ref(i) => {
                if i.0 < t.0 {
                    lemma_soft_deps_ranked(kinds, d, i);
                    lemma_all_fn_ranked_weaken(kinds, s, i.0 as int + 1, m);
                }
            },
            KindView::Ptr(i) => {
                if i.0 < t.0 {
                    lemma_soft_deps_ranked(kinds, d, i);
                    lemma_all_fn_ranked_weaken(kinds, s, i.0 as int + 1, m);
                }
            },
            KindView::Array { elem, len } => {
                if elem.0 < t.0 {
                    lemma_soft_deps_ranked(kinds, d, elem);
                    assert(seq![] + hard_deps_of(kinds, d, elem, true) =~= hard_deps_of(kinds, d, elem, true));
                    lemma_all_fn_ranked_weaken(kinds, s, elem.0 as int + 1, m);
                }
            },
            KindView::Fn { params, ret, variadic } => {
                let head = seq![NodeView::Fn { params, ret, variadic }];
                assert(fn_ranked(kinds, head[0], m)) by {
                    assert(kinds[t.0 as int] == node_kind(head[0]));
                }
                lemma_soft_list_ranked(kinds, d, params, t.0);
                lemma_all_fn_ranked_weaken(kinds, hard_deps_list(kinds, d, params, true, t.0), t.0 as int, m);
                let tail = match ret {
                    Some(r) => if r.0 < t.0 {
                        hard_deps_of(kinds, d, r, true)
                    } else {
                        seq![]
                    },
                    None => seq![],
                };
                if let Some(r) = ret {
                    if r.0 < t.0 {
                        lemma_soft_deps_ranked(kinds, d, r);
                        lemma_all_fn_ranked_weaken(kinds, tail, r.0 as int + 1, m);
                    }
                }
                lemma_all_fn_ranked_concat(kinds, head, hard_deps_list(kinds, d, params, true, t.0), m);
                lemma_all_fn_ranked_concat(kinds, head + hard_deps_list(kinds, d, params, true, t.0), tail, m);
            },
            _ => {},
        }
    }
}

proof fn lemma_soft_list_ranked(kinds: Seq<KindView>, d: DeclsView, ps: Seq<TypeRef>, bound: u32)
    ensures
        all_fn_ranked(kinds, hard_deps_list(kinds, d, ps, true, bound), bound as int),
    decreases bound as int, ps.len() as int,
{
    if ps.len() > 0 {
        lemma_soft_list_ranked(kinds, d, ps.drop_last(), bound);
        let last = if ps.last().0 < bound {
            hard_deps_of(kinds, d, ps.last(), true)
        } else {
            seq![]
        };
        if ps.last().0 < bound {
            lemma_soft_deps_ranked(kinds, d, ps.last());
            lemma_all_fn_ranked_weaken(kinds, last, ps.last().0 as int + 1, bound as int);
        }
        lemma_all_fn_ranked_concat(kinds, hard_deps_list(kinds, d, ps.drop_last(), true, bound), last, bound as int);
    }
}

proof fn lemma_deps_all_soft_ranked(kinds: Seq<KindView>, d: DeclsView, ts: Seq<TypeRef>, m: int)
    requires
        all_below(ts, m),
    ensures
        all_fn_ranked(kinds, deps_all(kinds, d, ts, true), m),
    decreases ts.len(),
{
    if ts.len() > 0 {
        assert(all_below(ts.drop_last(), m)) by {
            assert forall|k: int| 0 <= k < ts.drop_last().len() implies ((#[trigger] ts.drop_last()[k]).0 as int) < m by {
                assert(ts.drop_last()[k] == ts[k]);
            }
        }
        lemma_deps_all_soft_ranked(kinds, d, ts.drop_last(), m);
        let t = ts.last();
        assert((t.0 as int) < m) by {
            assert(ts[ts.len() - 1] == t);
        }
        lemma_soft_deps_ranked(kinds, d, t);
        lemma_all_fn_ranked_weaken(kinds, hard_deps_of(kinds, d, t, true), t.0 as int + 1, m);
        lemma_all_fn_ranked_concat(kinds, deps_all(kinds, d, ts.drop_last(), true), hard_deps_of(kinds, d, t, true), m);
    }
}

/// The nodes a function-pointer typedef depends on are function-pointer
/// typedefs strictly below its own kind.
proof fn lemma_fn_node_deps_ranked(kinds: Seq<KindView>, d: DeclsView, x: NodeView, h: int)
    requires
        wf_kinds(kinds),
        x is Fn,
        0 <= h < kinds.len(),
        kinds[h] == node_kind(x),
    ensures
        all_fn_ranked(kinds, node_deps_of(kinds, d, x), h),
{
    if let NodeView::Fn { params, ret, variadic } = x {
        assert(children_below(kinds[h], h));
        assert(all_below(params, h));
        lemma_deps_all_soft_ranked(kinds, d, params, h);
        let tail = match ret {
            Some(r) => hard_deps_of(kinds, d, r, true),
            None => seq![],
        };
        if let Some(r) = ret {
            assert((r.0 as int) < h);
            lemma_soft_deps_ranked(kinds, d, r);
            lemma_all_fn_ranked_weaken(kinds, tail, r.0 as int + 1, h);
        }
        lemma_all_fn_ranked_concat(kinds, deps_all(kinds, d, params, true), tail, h);
    }
}

/// Every function-pointer typedef among the wrappers of `t` stands for a
/// kind of the table no later than `t`.
#[verifier::spinoff_prover]
proof fn lemma_wrappers_ranked(kinds: Seq<KindView>, t: TypeRef)
    ensures
        forall|k: int|
            0 <= k < wrappers_of(kinds, t).len() && (#[trigger] wrappers_of(kinds, t)[k]) is Fn ==> fn_ranked(
                kinds,
                wrappers_of(kinds, t)[k],
                t.0 as int + 1,
            ),
    decreases t.0 as int + 1, 0int,
{
    let w = wrappers_of(kinds, t);
    let m = t.0 as int + 1;
    if (t.0 as int) < kinds.len() {
        match kinds[t.0 as int] {
            KindView::Ref(i) => {
                if i.0 < t.0 {
                    lemma_wrappers_ranked(kinds, i);
                    assert forall|k: int| 0 <= k < w.len() && (#[trigger] w[k]) is Fn implies fn_ranked(kinds, w[k], m) by {
                        lemma_all_fn_ranked_weaken(kinds, seq![w[k]], i.0 as int + 1, m);
                        assert(seq![w[k]][0] == w[k]);
                    }
                }
            },
            KindView::Ptr(i) => {
                if i.0 < t.0 {
                    lemma_wrappers_ranked(kinds, i);
                    assert forall|k: int| 0 <= k < w.len() && (#[trigger] w[k]) is Fn implies fn_ranked(kinds, w[k], m) by {
                        lemma_all_fn_ranked_weaken(kinds, seq![w[k]], i.0 as int + 1, m);
                        assert(seq![w[k]][0] == w[k]);
                    }
                }
            },
            KindView::Array { elem, len } => {
                let inner = if elem.0 < t.0 {
                    wrappers_of(kinds, elem)
                } else {
                    seq![]
                };
                if elem.0 < t.0 {
                    lemma_wrappers_ranked(kinds, elem);
                }
                assert forall|k: int| 0 <= k < w.len() && (#[trigger] w[k]) is Fn implies fn_ranked(kinds, w[k], m) by {
                    if k < inner.len() {
                        assert(w[k] == inner[k]);
                        lemma_all_fn_ranked_weaken(kinds, seq![w[k]], elem.0 as int + 1, m);
                        assert(seq![w[k]][0] == w[k]);
                    }
                }
            },
            KindView::Fn { params, ret, variadic } => {
                let inner = wrappers_list(kinds, params, t.0) + match ret {
                    Some(r) => if r.0 < t.0 {
                        wrappers_of(kinds, r)
                    } else {
                        seq![]
                    },
                    None => seq![],
                };
                lemma_wrappers_list_ranked(kinds, params, t.0);
                if let Some(r) = ret {
                    if r.0 < t.0 {
                        lemma_wrappers_ranked(kinds, r);
                    }
                }
                assert forall|k: int| 0 <= k < w.len() && (#[trigger] w[k]) is Fn implies fn_ranked(kinds, w[k], m) by {
                    if k == inner.len() {
                        assert(kinds[t.0 as int] == node_kind(w[k]));
                    } else {
                        assert(w[k] == inner[k]);
                        let wl = wrappers_list(kinds, params, t.0);
                        if k < wl.len() {
                            assert(inner[k] == wl[k]);
                            lemma_all_fn_ranked_weaken(kinds, seq![w[k]], t.0 as int, m);
                            assert(seq![w[k]][0] == w[k]);
                        } else {
                            let r = ret->0;
                            assert(inner[k] == wrappers_of(kinds, r)[k - wl.len()]);
                            lemma_all_fn_ranked_weaken(kinds, seq![w[k]], r.0 as int + 1, m);
                            assert(seq![w[k]][0] == w[k]);
                        }
                    }
                }
            },
            _ => {},
        }
    }
}

proof fn lemma_wrappers_list_ranked(kinds: Seq<KindView>, ps: Seq<TypeRef>, bound: u32)
    ensures
        forall|k: int|
            0 <= k < wrappers_list(kinds, ps, bound).len() && (#[trigger] wrappers_list(kinds, ps, bound)[k]) is Fn
                ==> fn_ranked(kinds, wrappers_list(kinds, ps, bound)[k], bound as int),
    decreases bound as int, ps.len() as int,
{
    if ps.len() > 0 {
        lemma_wrappers_list_ranked(kinds, ps.drop_last(), bound);
        let w = wrappers_list(kinds, ps, bound);
        let pre = wrappers_list(kinds, ps.drop_last(), bound);
        let p = ps.last();
        if p.0 < bound {
            lemma_wrappers_ranked(kinds, p);
        }
        assert forall|k: int| 0 <= k < w.len() && (#[trigger] w[k]) is Fn implies fn_ranked(kinds, w[k], bound as int) by {
            if k < pre.len() {
                assert(w[k] == pre[k]);
            } else {
                assert(w[k] == wrappers_of(kinds, p)[k - pre.len()]);
                lemma_all_fn_ranked_weaken(kinds, seq![w[k]], p.0 as int + 1, bound as int);
                assert(seq![w[k]][0] == w[k]);
            }
        }
    }
}

proof fn lemma_all_wrappers_ranked(kinds: Seq<KindView>, ts: Seq<TypeRef>)
    ensures
        forall|k: int|
            0 <= k < all_wrappers(kinds, ts).len() && (#[trigger] all_wrappers(kinds, ts)[k]) is Fn ==> fn_ranked(
                kinds,
                all_wrappers(kinds, ts)[k],
                kinds.len() as int,
            ),
    decreases ts.len(),
{
    if ts.len() > 0 {
        lemma_all_wrappers_ranked(kinds, ts.drop_last());
        let t = ts.last();
        lemma_wrappers_ranked(kinds, t);
        let w = all_wrappers(kinds, ts);
        let pre = all_wrappers(kinds, ts.drop_last());
        assert forall|k: int| 0 <= k < w.len() && (#[trigger] w[k]) is Fn implies fn_ranked(kinds, w[k], kinds.len() as int) by {
            if k < pre.len() {
                assert(w[k] == pre[k]);
            } else {
                let x = wrappers_of(kinds, t)[k - pre.len()];
                assert(w[k] == x);
                assert(fn_ranked(kinds, x, t.0 as int + 1));
                let h = choose|h: int| 0 <= h < t.0 as int + 1 && h < kinds.len() && #[trigger] kinds[h] == node_kind(x);
                assert(kinds[h] == node_kind(x));
            }
        }
    }
}

/// A function-pointer typedef never lies on a value-dependency cycle: its
/// parameter and return types need only a forward declaration, and a
/// function type nested in it is a smaller type.
#[verifier::spinoff_prover]
pub proof fn law_fn_typedef_acyclic(kinds: Seq<KindView>, d: DeclsView, g: Seq<Seq<usize>>, i: int)
    requires
        wf_kinds(kinds),
        is_dep_graph(g, kinds, d, type_nodes(kinds, d), true),
        0 <= i < type_nodes(kinds, d).len(),
        type_nodes(kinds, d)[i] is Fn,
    ensures
        !on_cycle(g, i),
{
    let nodes = type_nodes(kinds, d);
    let base = add_new(seq![], nominal_nodes(d.structs + d.unions));
    lemma_add_new_props(seq![], nominal_nodes(d.structs + d.unions));
    lemma_add_new_props(base, all_wrappers(kinds, d.declared));
    let x = nodes[i];
    assert(nodes.contains(x));
    assert(!base.contains(x)) by {
        if base.contains(x) {
            let nn = nominal_nodes(d.structs + d.unions);
            assert(nn.contains(x));
            let k = choose|k: int| 0 <= k < nn.len() && nn[k] == x;
            assert(nn[k] is Nominal);
        }
    }
    let aw = all_wrappers(kinds, d.declared);
    assert(aw.contains(x));
    let kx = choose|k: int| 0 <= k < aw.len() && aw[k] == x;
    lemma_all_wrappers_ranked(kinds, d.declared);
    assert(fn_ranked(kinds, aw[kx], kinds.len() as int));
    let h0 = choose|h: int| 0 <= h < kinds.len() as int && h < kinds.len() && #[trigger] kinds[h] == node_kind(x);
    if on_cycle(g, i) {
        let p = choose|p: Seq<int>| #[trigger] is_walk(g, p) && p[0] == i && p.last() == i;
        lemma_walk_fn_ranked(kinds, d, g, nodes, p, h0, p.len() - 1);
        let hl = choose|h: int| 0 <= h < h0 && h < kinds.len() && #[trigger] kinds[h] == node_kind(nodes[p[p.len() - 1]]);
        assert(kinds[hl] == kinds[h0]);
    }
}

/// Along a walk from a function-pointer typedef whose kind sits at `h0`,
/// every later node is a function-pointer typedef below `h0`.
proof fn lemma_walk_fn_ranked(
    kinds: Seq<KindView>,
    d: DeclsView,
    g: Seq<Seq<usize>>,
    nodes: Seq<NodeView>,
    p: Seq<int>,
    h0: int,
    k: int,
)
    requires
        wf_kinds(kinds),
        is_dep_graph(g, kinds, d, nodes, true),
        is_walk(g, p),
        0 <= p[0] < nodes.len(),
        nodes[p[0]] is Fn,
        0 <= h0 < kinds.len(),
        kinds[h0] == node_kind(nodes[p[0]]),
        1 <= k < p.len(),
    ensures
        0 <= p[k] < nodes.len(),
        fn_ranked(kinds, nodes[p[k]], h0),
    decreases k,
{
    assert(step_ok(g, p, k - 1));
    assert(edge(g, p[k - 1], p[k]));
    assert(dep_edge(kinds, d, nodes, p[k - 1], p[k]));
    let prev = nodes[p[k - 1]];
    let cur = nodes[p[k]];
    let deps = node_deps_of(kinds, d, prev);
    let j = choose|j: int| 0 <= j < deps.len() && deps[j] == cur;
    if k == 1 {
        lemma_fn_node_deps_ranked(kinds, d, prev, h0);
        assert(fn_ranked(kinds, deps[j], h0));
    } else {
        lemma_walk_fn_ranked(kinds, d, g, nodes, p, h0, k - 1);
        let h = choose|h: int| 0 <= h < h0 && h < kinds.len() && #[trigger] kinds[h] == node_kind(prev);
        lemma_fn_node_deps_ranked(kinds, d, prev, h);
        assert(fn_ranked(kinds, deps[j], h));
        lemma_all_fn_ranked_weaken(kinds, seq![cur], h, h0);
        assert(seq![cur][0] == cur);
    }
}

/// The positions that delta-encoded tokens stand for, read back after a
/// token at line `pl`, column `ps`.
pub open spec fn decode_positions(data: Seq<SemToken>, pl: int, ps: int) -> Seq<(int, int)>
    decreases data.len(),
{
    if data.len() == 0 {
        seq![]
    } else {
        let t = data[0];
        let line = pl + t.delta_line;
        let col = if t.delta_line == 0 {
            ps + t.delta_start
        } else {
            t.delta_start as int
        };
        seq![(line, col)] + decode_positions(data.drop_first(), line, col)
    }
}

/// Token `k` of `toks` starts no earlier than position (`pl`, `ps`) and each
/// later token starts no earlier than the one before it.
pub open spec fn tokens_in_order(b: Seq<u8>, toks: Seq<ClassifiedToken>, pl: u32, ps: u32) -> bool {
    forall|k: int|
        #![trigger toks[k]]
        0 <= k < toks.len() ==> {
            let (l, c) = token_pos(b, toks[k].start);
            let (pl2, ps2) = if k == 0 {
                (pl, ps)
            } else {
                token_pos(b, toks[k - 1].start)
            };
            pl2 < l || (pl2 == l && ps2 <= c)
        }
}

/// Reading delta-encoded tokens back gives each token's position when the
/// tokens come in source order: the encoding loses nothing.
pub proof fn law_semantic_tokens_decode(b: Seq<u8>, toks: Seq<ClassifiedToken>, pl: u32, ps: u32)
    requires
        tokens_in_order(b, toks, pl, ps),
    ensures
        encode_from(b, toks, pl, ps).len() == toks.len(),
        decode_positions(encode_from(b, toks, pl, ps), pl as int, ps as int) == toks.map_values(
            |t: ClassifiedToken| {
                let (l, c) = token_pos(b, t.start);
                (l as int, c as int)
            },
        ),
    decreases toks.len(),
{
    if toks.len() > 0 {
        let t = toks[0];
        let (l, c) = token_pos(b, t.start);
        let rest = toks.drop_first();
        assert(tokens_in_order(b, rest, l, c)) by {
            assert forall|k: int| #![trigger rest[k]] 0 <= k < rest.len() implies {
                let (l2, c2) = token_pos(b, rest[k].start);
                let (pl2, ps2) = if k == 0 {
                    (l, c)
                } else {
                    token_pos(b, rest[k - 1].start)
                };
                pl2 < l2 || (pl2 == l2 && ps2 <= c2)
            } by {
                assert(rest[k] == toks[k + 1]);
                if k > 0 {
                    assert(rest[k - 1] == toks[k]);
                }
            }
        }
        law_semantic_tokens_decode(b, rest, l, c);
        let data = encode_from(b, toks, pl, ps);
        assert(data.drop_first() =~= encode_from(b, rest, l, c));
        assert(toks.map_values(
            |t: ClassifiedToken| {
                let (l, c) = token_pos(b, t.start);
                (l as int, c as int)
            },
        ) =~= seq![(l as int, c as int)] + rest.map_values(
            |t: ClassifiedToken| {
                let (l, c) = token_pos(b, t.start);
                (l as int, c as int)
            },
        ));
    }
}

/// `a` is a prefix of `b`.
pub open spec fn prefix_of<T>(a: Seq<T>, b: Seq<T>) -> bool {
    a.len() <= b.len() && b.take(a.len() as int) == a
}

proof fn lemma_prefix_trans<T>(a: Seq<T>, b: Seq<T>, c: Seq<T>)
    requires
        prefix_of(a, b),
        prefix_of(b, c),
    ensures
        prefix_of(a, c),
{
    assert(c.take(a.len() as int) =~= a) by {
        assert forall|i: int| 0 <= i < a.len() implies c[i] == a[i] by {
            assert(c.take(b.len() as int)[i] == b[i]);
            assert(b.take(a.len() as int)[i] == a[i]);
        }
    }
}

proof fn lemma_prefix_push<T>(a: Seq<T>, x: T)
    ensures
        prefix_of(a, a.push(x)),
{
    assert(a.push(x).take(a.len() as int) =~= a);
}

proof fn lemma_prefix_append<T>(a: Seq<T>, b: Seq<T>)
    ensures
        prefix_of(a, a + b),
{
    assert((a + b).take(a.len() as int) =~= a);
}

proof fn lemma_prefix_refl<T>(a: Seq<T>)
    ensures
        prefix_of(a, a),
{
    assert(a.take(a.len() as int) =~= a);
}

/// Every arena of `w` extends the same arena of `v`.
pub open spec fn arenas_extend(v: ItemsView, w: ItemsView) -> bool {
    &&& prefix_of(v.structs, w.structs)
    &&& prefix_of(v.unions, w.unions)
    &&& prefix_of(v.enums, w.enums)
    &&& prefix_of(v.consts, w.consts)
    &&& prefix_of(v.globals, w.globals)
    &&& prefix_of(v.opaques, w.opaques)
    &&& prefix_of(v.fields, w.fields)
    &&& prefix_of(v.functions, w.functions)
}

proof fn lemma_step_extends(v: ItemsView, d: ItemDecl, pass: CollectPass)
    ensures
        arenas_extend(v, collect_step(v, d, pass).0),
{
    lemma_prefix_refl(v.structs);
    lemma_prefix_refl(v.unions);
    lemma_prefix_refl(v.enums);
    lemma_prefix_refl(v.consts);
    lemma_prefix_refl(v.globals);
    lemma_prefix_refl(v.opaques);
    lemma_prefix_refl(v.fields);
    lemma_prefix_refl(v.functions);
    let w = collect_step(v, d, pass).0;
    match (pass, d) {
        (CollectPass::Consts, ItemDecl::Const { .. }) => {
            lemma_prefix_push(v.consts, w.consts.last());
            assert(w.consts =~= v.consts.push(w.consts.last()));
        },
        (CollectPass::Globals, ItemDecl::Global { .. }) => {
            lemma_prefix_push(v.globals, w.globals.last());
            assert(w.globals =~= v.globals.push(w.globals.last()));
        },
        (CollectPass::Items, ItemDecl::Struct { .. }) => {
            lemma_prefix_push(v.structs, w.structs.last());
            assert(w.structs =~= v.structs.push(w.structs.last()));
            lemma_prefix_append(v.fields, w.fields.skip(v.fields.len() as int));
            assert(w.fields =~= v.fields + w.fields.skip(v.fields.len() as int));
        },
        (CollectPass::Items, ItemDecl::Union { .. }) => {
            lemma_prefix_push(v.unions, w.unions.last());
            assert(w.unions =~= v.unions.push(w.unions.last()));
            lemma_prefix_append(v.fields, w.fields.skip(v.fields.len() as int));
            assert(w.fields =~= v.fields + w.fields.skip(v.fields.len() as int));
        },
        (CollectPass::Items, ItemDecl::Fn { .. }) => {
            lemma_prefix_push(v.functions, w.functions.last());
            assert(w.functions =~= v.functions.push(w.functions.last()));
        },
        (CollectPass::Items, ItemDecl::ExternFn { .. }) => {
            lemma_prefix_push(v.functions, w.functions.last());
            assert(w.functions =~= v.functions.push(w.functions.last()));
        },
        (CollectPass::Items, ItemDecl::ExternType { .. }) => {
            lemma_prefix_push(v.opaques, w.opaques.last());
            assert(w.opaques =~= v.opaques.push(w.opaques.last()));
        },
        (CollectPass::Items, ItemDecl::Enum { .. }) => {
            lemma_prefix_push(v.enums, w.enums.last());
            assert(w.enums =~= v.enums.push(w.enums.last()));
        },
        _ => {},
    }
}

/// Collecting items never drops or moves an item already allocated: every
/// arena after a pass extends the arena before it, so an item handle stays
/// valid, duplicates included.
pub proof fn law_collect_keeps_slots(v: ItemsView, ds: Seq<ItemDecl>, pass: CollectPass)
    ensures
        arenas_extend(v, collect_fold(v, ds, pass).0),
    decreases ds.len(),
{
    if ds.len() == 0 {
        lemma_prefix_refl(v.structs);
        lemma_prefix_refl(v.unions);
        lemma_prefix_refl(v.enums);
        lemma_prefix_refl(v.consts);
        lemma_prefix_refl(v.globals);
        lemma_prefix_refl(v.opaques);
        lemma_prefix_refl(v.fields);
        lemma_prefix_refl(v.functions);
    } else {
        law_collect_keeps_slots(v, ds.drop_last(), pass);
        let v1 = collect_fold(v, ds.drop_last(), pass).0;
        lemma_step_extends(v1, ds.last(), pass);
        let w = collect_fold(v, ds, pass).0;
        lemma_prefix_trans(v.structs, v1.structs, w.structs);
        lemma_prefix_trans(v.unions, v1.unions, w.unions);
        lemma_prefix_trans(v.enums, v1.enums, w.enums);
        lemma_prefix_trans(v.consts, v1.consts, w.consts);
        lemma_prefix_trans(v.globals, v1.globals, w.globals);
        lemma_prefix_trans(v.opaques, v1.opaques, w.opaques);
        lemma_prefix_trans(v.fields, v1.fields, w.fields);
        lemma_prefix_trans(v.functions, v1.functions, w.functions);
    }
}

/// The name of a struct declaration.
pub open spec fn struct_decl_name(d: ItemDecl) -> Option<Seq<char>> {
    match d {
        ItemDecl::Struct { name, .. } => Some(name@),
        _ => None,
    }
}

/// How many struct declarations `ds` holds.
pub open spec fn n_struct_decls(ds: Seq<ItemDecl>) -> nat
    decreases ds.len(),
{
    if ds.len() == 0 {
        0
    } else {
        n_struct_decls(ds.drop_last()) + if ds.last() is Struct {
            1nat
        } else {
            0nat
        }
    }
}

proof fn lemma_struct_count(v: ItemsView, ds: Seq<ItemDecl>)
    ensures
        collect_fold(v, ds, CollectPass::Items).0.structs.len() == v.structs.len() + n_struct_decls(ds),
    decreases ds.len(),
{
    if ds.len() > 0 {
        lemma_struct_count(v, ds.drop_last());
    }
}

/// Of several structs declared under one name, the last takes the name:
/// after the item pass the name refers to the struct of the last
/// declaration (earlier ones keep their slots, and each later one is
/// reported as a duplicate).
pub proof fn law_later_struct_takes_name(v: ItemsView, ds: Seq<ItemDecl>, p: int)
    requires
        0 <= p < ds.len(),
        struct_decl_name(ds[p]) is Some,
        forall|q: int| p < q < ds.len() ==> #[trigger] struct_decl_name(ds[q]) != struct_decl_name(ds[p]),
    ensures
        ({
            let n = struct_decl_name(ds[p])->0;
            let w = collect_fold(v, ds, CollectPass::Items).0;
            &&& w.scope.structs.contains_key(n)
            &&& w.scope.structs[n] == (v.structs.len() + n_struct_decls(ds.take(p))) as u32
        }),
    decreases ds.len(),
{
    let n = struct_decl_name(ds[p])->0;
    if p == ds.len() - 1 {
        assert(ds.drop_last() =~= ds.take(p));
        lemma_struct_count(v, ds.drop_last());
    } else {
        let dl = ds.drop_last();
        assert forall|q: int| p < q < dl.len() implies #[trigger] struct_decl_name(dl[q]) != struct_decl_name(dl[p]) by {
            assert(dl[q] == ds[q]);
        }
        law_later_struct_takes_name(v, dl, p);
        assert(dl.take(p) =~= ds.take(p));
        assert(struct_decl_name(ds.last()) != struct_decl_name(ds[p]));
    }
}

/// A destructure binds each pattern field, in order, to a fresh local: the
/// `k`-th field to the `k`-th local allocated, through the `k`-th pattern.
pub proof fn law_destructure_binds_each_field(
    v: ItemsView,
    ty: Seq<char>,
    fs: Seq<PatField>,
    st0: DestructureState,
    mutable: bool,
)
    ensures
        ({
            let st = destructure_fold(v, ty, fs, st0, mutable);
            &&& st.bindings.len() == st0.bindings.len() + fs.len()
            &&& st.locals.len() == st0.locals.len() + fs.len()
            &&& st.pats.len() == st0.pats.len() + fs.len()
            &&& st.bindings.take(st0.bindings.len() as int) == st0.bindings
            &&& forall|k: int|
                0 <= k < fs.len() ==> #[trigger] st.bindings[st0.bindings.len() + k] == (
                    fs[k].field@,
                    LocalId((st0.locals.len() + k) as u32),
                )
        }),
    decreases fs.len(),
{
    let st = destructure_fold(v, ty, fs, st0, mutable);
    if fs.len() == 0 {
        assert(st.bindings.take(st0.bindings.len() as int) =~= st0.bindings);
    } else {
        law_destructure_binds_each_field(v, ty, fs.drop_last(), st0, mutable);
        let prev = destructure_fold(v, ty, fs.drop_last(), st0, mutable);
        assert(st.bindings == prev.bindings.push((fs.last().field@, LocalId(prev.locals.len() as u32))));
        assert(st.bindings.take(st0.bindings.len() as int) =~= st0.bindings) by {
            assert forall|i: int| 0 <= i < st0.bindings.len() implies st.bindings[i] == st0.bindings[i] by {
                assert(prev.bindings.take(st0.bindings.len() as int)[i] == st0.bindings[i]);
            }
        }
        assert forall|k: int| 0 <= k < fs.len() implies #[trigger] st.bindings[st0.bindings.len() + k] == (
            fs[k].field@,
            LocalId((st0.locals.len() + k) as u32),
        ) by {
            if k < fs.len() - 1 {
                assert(prev.bindings[st0.bindings.len() + k] == (
                    fs.drop_last()[k].field@,
                    LocalId((st0.locals.len() + k) as u32),
                ));
            }
        }
    }
}

proof fn lemma_register_keeps(
    m: Map<Seq<char>, (EnumId, u32)>,
    enums: Seq<Seq<char>>,
    id: EnumId,
    vs: Seq<Seq<char>>,
    n: Seq<char>,
)
    requires
        m.contains_key(n),
    ensures
        register_variants(m, enums, id, vs).0.contains_key(n),
        register_variants(m, enums, id, vs).0[n] == m[n],
    decreases vs.len(),
{
    if vs.len() > 0 {
        lemma_register_keeps(m, enums, id, vs.drop_last(), n);
    }
}

proof fn lemma_register_first(
    m: Map<Seq<char>, (EnumId, u32)>,
    enums: Seq<Seq<char>>,
    id: EnumId,
    vs: Seq<Seq<char>>,
    p: int,
)
    requires
        0 <= p < vs.len(),
        !m.contains_key(vs[p]),
        forall|q: int| 0 <= q < p ==> vs[q] != vs[p],
    ensures
        register_variants(m, enums, id, vs).0.contains_key(vs[p]),
        register_variants(m, enums, id, vs).0[vs[p]] == (id, p as u32),
    decreases vs.len(),
{
    let n = vs[p];
    if p == vs.len() - 1 {
        let m1 = register_variants(m, enums, id, vs.drop_last()).0;
        assert(!m1.contains_key(n)) by {
            lemma_register_absent(m, enums, id, vs.drop_last(), n);
        }
    } else {
        let d = vs.drop_last();
        assert(d[p] == n);
        lemma_register_first(m, enums, id, d, p);
        let m1 = register_variants(m, enums, id, d).0;
        lemma_register_keeps(m1, enums, id, seq![vs.last()], n);
    }
}

proof fn lemma_register_absent(
    m: Map<Seq<char>, (EnumId, u32)>,
    enums: Seq<Seq<char>>,
    id: EnumId,
    vs: Seq<Seq<char>>,
    n: Seq<char>,
)
    requires
        !m.contains_key(n),
        !vs.contains(n),
    ensures
        !register_variants(m, enums, id, vs).0.contains_key(n),
    decreases vs.len(),
{
    if vs.len() > 0 {
        assert(!vs.drop_last().contains(n)) by {
            if vs.drop_last().contains(n) {
                let k = choose|k: int| 0 <= k < vs.drop_last().len() && vs.drop_last()[k] == n;
                assert(vs[k] == n);
            }
        }
        assert(vs.last() != n) by {
            if vs.last() == n {
                assert(vs[vs.len() - 1] == n);
            }
        }
        lemma_register_absent(m, enums, id, vs.drop_last(), n);
    }
}

/// A variant name belongs to the first enum that declares it: collecting
/// an enum leaves a variant name already indexed with its earlier enum.
pub proof fn law_first_variant_keeps_name(v: ItemsView, name: Seq<char>, vs: Seq<Seq<char>>, n: Seq<char>)
    requires
        v.scope.variants.contains_key(n),
    ensures
        enum_step(v, name, vs).0.scope.variants.contains_key(n),
        enum_step(v, name, vs).0.scope.variants[n] == v.scope.variants[n],
{
    let rec = EnumView { name, variants: vs, variant_index: crate::items::first_index_map(vs, 0) };
    let names = crate::items::enum_names(v.enums.push(rec));
    let id = EnumId(v.enums.len() as u32);
    assert(enum_step(v, name, vs).0.scope.variants == register_variants(v.scope.variants, names, id, vs).0);
    lemma_register_keeps(v.scope.variants, names, id, vs, n);
}

/// A variant name no enum has declared yet is indexed with the enum being
/// collected and the position of its first occurrence there.
pub proof fn law_new_variant_takes_first_position(v: ItemsView, name: Seq<char>, vs: Seq<Seq<char>>, p: int)
    requires
        0 <= p < vs.len(),
        !v.scope.variants.contains_key(vs[p]),
        forall|q: int| 0 <= q < p ==> vs[q] != vs[p],
    ensures
        enum_step(v, name, vs).0.scope.variants.contains_key(vs[p]),
        enum_step(v, name, vs).0.scope.variants[vs[p]] == (EnumId(v.enums.len() as u32), p as u32),
{
    let rec = EnumView { name, variants: vs, variant_index: crate::items::first_index_map(vs, 0) };
    let names = crate::items::enum_names(v.enums.push(rec));
    let id = EnumId(v.enums.len() as u32);
    assert(enum_step(v, name, vs).0.scope.variants == register_variants(v.scope.variants, names, id, vs).0);
    lemma_register_first(v.scope.variants, names, id, vs, p);
}
} // verus!
