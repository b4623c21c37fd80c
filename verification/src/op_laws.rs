//! What constant folding means, stated over the integers, booleans and
//! chars it computes with: each operator of a constant expression, the
//! casts, the ranges of the integer types, and how evaluating the
//! top-level constants agrees with folding inside a body.

use vstd::prelude::*;

use vstd::arithmetic::power2::{lemma2_to64, pow2};

use crate::consts::{
    spec_apply_binary, spec_apply_cast, spec_apply_unary, spec_int_range, spec_int_type_range, spec_wrap_int,
    trunc_mod, trunc_quot, BinOp, ConstValue, UnaryOp,
};
use crate::body::LocalConst;
use crate::body_lowering::{spec_fold, FoldDiag, Folded};
use crate::const_eval::{eval_expr_spec, eval_name_spec, range_diags, Memo};
use crate::graph::{lemma_n_unset_set, n_unset};
use crate::ids::ConstId;
use crate::body_lowering::expr_size;
use crate::items::ItemsView;
use crate::laws::int_width;
use crate::scopes::Binding;
use crate::tree::SynExpr;
use crate::checks::{literal_overflows, placeholders};
use crate::names::{spec_is_float_type, spec_is_int_type};
use crate::errors::ConstError;

verus! {

/// One turn of the 128-bit integers: 2^128.
pub open spec fn i128_turn() -> int {
    2 * (i128::MAX as int + 1)
}

/// The six comparisons of two integer constants give the boolean the
/// integers' order gives.
pub proof fn law_int_comparisons(a: i128, b: i128)
    ensures
        spec_apply_binary(BinOp::Eq, ConstValue::Int(a), ConstValue::Int(b)) == Ok::<ConstValue, ConstError>(
            ConstValue::Bool(a == b),
        ),
        spec_apply_binary(BinOp::Neq, ConstValue::Int(a), ConstValue::Int(b)) == Ok::<ConstValue, ConstError>(
            ConstValue::Bool(a != b),
        ),
        spec_apply_binary(BinOp::Lt, ConstValue::Int(a), ConstValue::Int(b)) == Ok::<ConstValue, ConstError>(
            ConstValue::Bool(a < b),
        ),
        spec_apply_binary(BinOp::Gt, ConstValue::Int(a), ConstValue::Int(b)) == Ok::<ConstValue, ConstError>(
            ConstValue::Bool(a > b),
        ),
        spec_apply_binary(BinOp::Leq, ConstValue::Int(a), ConstValue::Int(b)) == Ok::<ConstValue, ConstError>(
            ConstValue::Bool(a <= b),
        ),
        spec_apply_binary(BinOp::Geq, ConstValue::Int(a), ConstValue::Int(b)) == Ok::<ConstValue, ConstError>(
            ConstValue::Bool(a >= b),
        ),
{
}

/// Comparisons relate to one another: `a > b` is `b < a`, `a >= b` is
/// `b <= a`, `a <= b` is not `a > b`, and `!=` is not `==`.
pub proof fn law_int_comparisons_related(a: i128, b: i128)
    ensures
        spec_apply_binary(BinOp::Gt, ConstValue::Int(a), ConstValue::Int(b)) == spec_apply_binary(
            BinOp::Lt,
            ConstValue::Int(b),
            ConstValue::Int(a),
        ),
        spec_apply_binary(BinOp::Geq, ConstValue::Int(a), ConstValue::Int(b)) == spec_apply_binary(
            BinOp::Leq,
            ConstValue::Int(b),
            ConstValue::Int(a),
        ),
        spec_apply_binary(BinOp::Leq, ConstValue::Int(a), ConstValue::Int(b)) matches Ok(ConstValue::Bool(x))
            && spec_apply_binary(BinOp::Gt, ConstValue::Int(a), ConstValue::Int(b)) == Ok::<ConstValue, ConstError>(
            ConstValue::Bool(!x),
        ),
        spec_apply_binary(BinOp::Neq, ConstValue::Int(a), ConstValue::Int(b)) matches Ok(ConstValue::Bool(x))
            && spec_apply_binary(BinOp::Eq, ConstValue::Int(a), ConstValue::Int(b)) == Ok::<ConstValue, ConstError>(
            ConstValue::Bool(!x),
        ),
{
}

/// Addition, subtraction and multiplication of integer constants give the
/// exact result when it fits `i128`; addition and subtraction otherwise
/// wrap by one turn of 2^128. Addition and multiplication commute.
pub proof fn law_int_arithmetic(a: i128, b: i128)
    ensures
        i128::MIN <= a + b <= i128::MAX ==> spec_apply_binary(BinOp::Add, ConstValue::Int(a), ConstValue::Int(b))
            == Ok::<ConstValue, ConstError>(ConstValue::Int((a + b) as i128)),
        a + b > i128::MAX ==> spec_apply_binary(BinOp::Add, ConstValue::Int(a), ConstValue::Int(b)) == Ok::<
            ConstValue,
            ConstError,
        >(ConstValue::Int((a + b - i128_turn()) as i128)),
        a + b < i128::MIN ==> spec_apply_binary(BinOp::Add, ConstValue::Int(a), ConstValue::Int(b)) == Ok::<
            ConstValue,
            ConstError,
        >(ConstValue::Int((a + b + i128_turn()) as i128)),
        i128::MIN <= a - b <= i128::MAX ==> spec_apply_binary(BinOp::Sub, ConstValue::Int(a), ConstValue::Int(b))
            == Ok::<ConstValue, ConstError>(ConstValue::Int((a - b) as i128)),
        a - b > i128::MAX ==> spec_apply_binary(BinOp::Sub, ConstValue::Int(a), ConstValue::Int(b)) == Ok::<
            ConstValue,
            ConstError,
        >(ConstValue::Int((a - b - i128_turn()) as i128)),
        a - b < i128::MIN ==> spec_apply_binary(BinOp::Sub, ConstValue::Int(a), ConstValue::Int(b)) == Ok::<
            ConstValue,
            ConstError,
        >(ConstValue::Int((a - b + i128_turn()) as i128)),
        i128::MIN <= a * b <= i128::MAX ==> spec_apply_binary(BinOp::Mul, ConstValue::Int(a), ConstValue::Int(b))
            == Ok::<ConstValue, ConstError>(ConstValue::Int((a * b) as i128)),
        spec_apply_binary(BinOp::Add, ConstValue::Int(a), ConstValue::Int(b)) == spec_apply_binary(
            BinOp::Add,
            ConstValue::Int(b),
            ConstValue::Int(a),
        ),
        spec_apply_binary(BinOp::Mul, ConstValue::Int(a), ConstValue::Int(b)) == spec_apply_binary(
            BinOp::Mul,
            ConstValue::Int(b),
            ConstValue::Int(a),
        ),
{
    assert(a * b == b * a) by (nonlinear_arith);
    if i128::MIN <= a * b <= i128::MAX {
        lemma_crop_in_range(a * b);
    }
}

/// Cropping a value that fits `i128` leaves it unchanged.
proof fn lemma_crop_in_range(x: int)
    requires
        i128::MIN <= x <= i128::MAX,
    ensures
        vstd::wrapping::i128_specs::signed_crop(x) == x as i128,
{
    let r: int = i128_turn();
    assert(r == 0x1_0000_0000_0000_0000_0000_0000_0000_0000int);
    if x >= 0 {
        vstd::arithmetic::div_mod::lemma_small_mod(x as nat, r as nat);
    } else {
        assert((x + r) % r == x + r) by {
            vstd::arithmetic::div_mod::lemma_small_mod((x + r) as nat, r as nat);
        }
        vstd::arithmetic::div_mod::lemma_mod_add_multiples_vanish(x, r);
    }
}

/// Division and remainder of integer constants: by zero they are
/// rejected; otherwise, short of the one overflowing quotient, the
/// quotient `q` and remainder `m` rebuild the dividend (`q * b + m == a`),
/// the remainder is smaller than the divisor in magnitude and is zero or
/// has the sign of the dividend (division rounds toward zero).
pub proof fn law_int_division(a: i128, b: i128)
    ensures
        b == 0 ==> spec_apply_binary(BinOp::Div, ConstValue::Int(a), ConstValue::Int(b)) == Err::<
            ConstValue,
            ConstError,
        >(ConstError::ConstDivByZero),
        b == 0 ==> spec_apply_binary(BinOp::Rem, ConstValue::Int(a), ConstValue::Int(b)) == Err::<
            ConstValue,
            ConstError,
        >(ConstError::ConstDivByZero),
        b != 0 && !(a == i128::MIN && b == -1) ==> ({
            &&& spec_apply_binary(BinOp::Div, ConstValue::Int(a), ConstValue::Int(b)) matches Ok(ConstValue::Int(q))
            &&& spec_apply_binary(BinOp::Rem, ConstValue::Int(a), ConstValue::Int(b)) matches Ok(ConstValue::Int(m))
            &&& q * b + m == a
            &&& (if b > 0 { -b < m < b } else { b < m < -b })
            &&& (m == 0 || (m < 0) == (a < 0))
        }),
        a == i128::MIN && b == -1 ==> spec_apply_binary(BinOp::Div, ConstValue::Int(a), ConstValue::Int(b)) == Ok::<
            ConstValue,
            ConstError,
        >(ConstValue::Int(i128::MIN)) && spec_apply_binary(BinOp::Rem, ConstValue::Int(a), ConstValue::Int(b))
            == Ok::<ConstValue, ConstError>(ConstValue::Int(0)),
{
    if b != 0 && !(a == i128::MIN && b == -1) {
        crate::consts::lemma_quot_bounds(a as int, b as int);
        lemma_trunc_rebuild(a as int, b as int);
    }
}

/// Rounding toward zero: quotient times divisor plus remainder is the
/// dividend, and the remainder is zero or has the dividend's sign.
proof fn lemma_trunc_rebuild(x: int, d: int)
    requires
        d != 0,
    ensures
        trunc_quot(x, d) * d + trunc_mod(x, d) == x,
        trunc_mod(x, d) == 0 || (trunc_mod(x, d) < 0) == (x < 0),
{
    if x > 0 && d > 0 {
        vstd::arithmetic::div_mod::lemma_fundamental_div_mod(x, d);
        assert(x % d >= 0) by (nonlinear_arith)
            requires
                d > 0,
        ;
        assert((x / d) * d == d * (x / d)) by (nonlinear_arith);
    } else if x < 0 && d < 0 {
        vstd::arithmetic::div_mod::lemma_fundamental_div_mod(-x, -d);
        assert((-x) % (-d) >= 0) by (nonlinear_arith)
            requires
                -d > 0,
        ;
        assert(((-x) / (-d)) * d == -((-d) * ((-x) / (-d)))) by (nonlinear_arith);
    } else if x < 0 {
        vstd::arithmetic::div_mod::lemma_fundamental_div_mod(-x, d);
        assert((-x) % d >= 0) by (nonlinear_arith)
            requires
                d > 0,
        ;
        assert((-((-x) / d)) * d == -(d * ((-x) / d))) by (nonlinear_arith);
    } else if x > 0 {
        vstd::arithmetic::div_mod::lemma_fundamental_div_mod(x, -d);
        assert(x % (-d) >= 0) by (nonlinear_arith)
            requires
                -d > 0,
        ;
        assert((-(x / (-d))) * d == (-d) * (x / (-d))) by (nonlinear_arith);
    }
}

/// The bitwise operators of integer constants are those of their
/// two's-complement bits; each is commutative.
pub proof fn law_int_bitwise(a: i128, b: i128)
    ensures
        spec_apply_binary(BinOp::BitAnd, ConstValue::Int(a), ConstValue::Int(b)) == Ok::<ConstValue, ConstError>(
            ConstValue::Int(a & b),
        ),
        spec_apply_binary(BinOp::BitOr, ConstValue::Int(a), ConstValue::Int(b)) == Ok::<ConstValue, ConstError>(
            ConstValue::Int(a | b),
        ),
        spec_apply_binary(BinOp::BitXor, ConstValue::Int(a), ConstValue::Int(b)) == Ok::<ConstValue, ConstError>(
            ConstValue::Int(a ^ b),
        ),
        spec_apply_binary(BinOp::BitAnd, ConstValue::Int(a), ConstValue::Int(b)) == spec_apply_binary(
            BinOp::BitAnd,
            ConstValue::Int(b),
            ConstValue::Int(a),
        ),
        spec_apply_binary(BinOp::BitOr, ConstValue::Int(a), ConstValue::Int(b)) == spec_apply_binary(
            BinOp::BitOr,
            ConstValue::Int(b),
            ConstValue::Int(a),
        ),
        spec_apply_binary(BinOp::BitXor, ConstValue::Int(a), ConstValue::Int(b)) == spec_apply_binary(
            BinOp::BitXor,
            ConstValue::Int(b),
            ConstValue::Int(a),
        ),
{
    assert(a & b == b & a) by (bit_vector);
    assert(a | b == b | a) by (bit_vector);
    assert(a ^ b == b ^ a) by (bit_vector);
}

/// Booleans combine by logic and compare by equality; chars compare by
/// their code points; no other operator applies to them, and operands of
/// two different kinds never combine.
pub proof fn law_bool_char_operators(p: bool, q: bool, c: char, d: char, op: BinOp, a: i128)
    ensures
        spec_apply_binary(BinOp::And, ConstValue::Bool(p), ConstValue::Bool(q)) == Ok::<ConstValue, ConstError>(
            ConstValue::Bool(p && q),
        ),
        spec_apply_binary(BinOp::Or, ConstValue::Bool(p), ConstValue::Bool(q)) == Ok::<ConstValue, ConstError>(
            ConstValue::Bool(p || q),
        ),
        spec_apply_binary(BinOp::Eq, ConstValue::Bool(p), ConstValue::Bool(q)) == Ok::<ConstValue, ConstError>(
            ConstValue::Bool(p == q),
        ),
        spec_apply_binary(BinOp::Neq, ConstValue::Bool(p), ConstValue::Bool(q)) == Ok::<ConstValue, ConstError>(
            ConstValue::Bool(p != q),
        ),
        spec_apply_binary(BinOp::Eq, ConstValue::Char(c), ConstValue::Char(d)) == Ok::<ConstValue, ConstError>(
            ConstValue::Bool(c == d),
        ),
        spec_apply_binary(BinOp::Lt, ConstValue::Char(c), ConstValue::Char(d)) == Ok::<ConstValue, ConstError>(
            ConstValue::Bool((c as u32) < (d as u32)),
        ),
        spec_apply_binary(BinOp::Gt, ConstValue::Char(c), ConstValue::Char(d)) == Ok::<ConstValue, ConstError>(
            ConstValue::Bool((c as u32) > (d as u32)),
        ),
        spec_apply_binary(BinOp::Leq, ConstValue::Char(c), ConstValue::Char(d)) == Ok::<ConstValue, ConstError>(
            ConstValue::Bool((c as u32) <= (d as u32)),
        ),
        spec_apply_binary(BinOp::Geq, ConstValue::Char(c), ConstValue::Char(d)) == Ok::<ConstValue, ConstError>(
            ConstValue::Bool((c as u32) >= (d as u32)),
        ),
        (op is Add || op is Sub || op is Mul || op is Div || op is Rem || op is Lt || op is Gt || op is Leq
            || op is Geq) ==> spec_apply_binary(op, ConstValue::Bool(p), ConstValue::Bool(q)) == Err::<
            ConstValue,
            ConstError,
        >(ConstError::NotAConstExpr),
        (op is Add || op is And || op is Or) ==> spec_apply_binary(op, ConstValue::Char(c), ConstValue::Char(d))
            == Err::<ConstValue, ConstError>(ConstError::NotAConstExpr),
        spec_apply_binary(op, ConstValue::Int(a), ConstValue::Bool(p)) == Err::<ConstValue, ConstError>(
            ConstError::NotAConstExpr,
        ),
        spec_apply_binary(op, ConstValue::Char(c), ConstValue::Int(a)) == Err::<ConstValue, ConstError>(
            ConstError::NotAConstExpr,
        ),
{
}

/// The prefix operators: `-x` is the integer negation (and undoes itself),
/// `~x` is `-x - 1`, and `!` negates a boolean (and undoes itself).
pub proof fn law_unary_operators(x: i128, p: bool)
    ensures
        x != i128::MIN ==> spec_apply_unary(UnaryOp::Neg, ConstValue::Int(x)) == Ok::<ConstValue, ConstError>(
            ConstValue::Int((-x) as i128),
        ),
        x != i128::MIN ==> spec_apply_unary(UnaryOp::Neg, ConstValue::Int((-x) as i128)) == Ok::<
            ConstValue,
            ConstError,
        >(ConstValue::Int(x)),
        spec_apply_unary(UnaryOp::BitNot, ConstValue::Int(x)) == Ok::<ConstValue, ConstError>(
            ConstValue::Int((-x - 1) as i128),
        ),
        spec_apply_unary(UnaryOp::Not, ConstValue::Bool(p)) == Ok::<ConstValue, ConstError>(ConstValue::Bool(!p)),
        spec_apply_unary(UnaryOp::Not, ConstValue::Bool(!p)) == Ok::<ConstValue, ConstError>(ConstValue::Bool(p)),
        spec_apply_unary(UnaryOp::Not, ConstValue::Int(x)) == Err::<ConstValue, ConstError>(ConstError::NotAConstExpr),
        spec_apply_unary(UnaryOp::Neg, ConstValue::Bool(p)) == Err::<ConstValue, ConstError>(ConstError::NotAConstExpr),
{
    assert(!x == -x - 1) by (bit_vector);
}

/// The integer type names, told apart.
proof fn lemma_int_names()
    ensures
        "int8"@.len() == 4 && "int8"@[0] == 'i' && "int8"@[1] == 'n' && "int8"@[3] == '8',
        "int16"@.len() == 5 && "int16"@[0] == 'i' && "int16"@[1] == 'n' && "int16"@[3] == '1',
        "int32"@.len() == 5 && "int32"@[0] == 'i' && "int32"@[1] == 'n' && "int32"@[3] == '3',
        "int64"@.len() == 5 && "int64"@[0] == 'i' && "int64"@[1] == 'n' && "int64"@[3] == '6',
        "isize"@.len() == 5 && "isize"@[0] == 'i' && "isize"@[1] == 's' && "isize"@[3] == 'z',
        "uint8"@.len() == 5 && "uint8"@[0] == 'u' && "uint8"@[1] == 'i' && "uint8"@[3] == 't',
        "uint16"@.len() == 6 && "uint16"@[0] == 'u' && "uint16"@[1] == 'i' && "uint16"@[3] == 't',
        "uint32"@.len() == 6 && "uint32"@[0] == 'u' && "uint32"@[1] == 'i' && "uint32"@[3] == 't',
        "uint64"@.len() == 6 && "uint64"@[0] == 'u' && "uint64"@[1] == 'i' && "uint64"@[3] == 't',
        "usize"@.len() == 5 && "usize"@[0] == 'u' && "usize"@[1] == 's' && "usize"@[3] == 'z',
{
    reveal_strlit("int8");
    reveal_strlit("int16");
    reveal_strlit("int32");
    reveal_strlit("int64");
    reveal_strlit("isize");
    reveal_strlit("uint8");
    reveal_strlit("uint16");
    reveal_strlit("uint32");
    reveal_strlit("uint64");
    reveal_strlit("usize");
}

/// The range of an integer type is exactly the values of its width: it
/// holds 2^width values, from -2^(width-1) for a signed type and from 0 for
/// an unsigned one; truncating either bound to the type keeps it; and the
/// bounds a literal is checked against are the same bounds.
pub proof fn law_int_range_exact(n: Seq<char>)
    requires
        spec_is_int_type(n),
    ensures
        spec_int_range(n) is Some,
        ({
            let (lo, hi) = spec_int_range(n)->Some_0;
            &&& hi - lo + 1 == pow2(int_width(n))
            &&& (if n[0] == 'i' {
                lo == -(pow2((int_width(n) - 1) as nat) as int)
            } else {
                lo == 0
            })
            &&& spec_wrap_int(lo, n) == lo
            &&& spec_wrap_int(hi, n) == hi
            &&& spec_int_type_range(n) == Some(((-lo) as u128, hi as u128))
        }),
{
    lemma_int_names();
    lemma2_to64();
    assert(pow2(7) == 0x80);
    assert(pow2(15) == 0x8000);
    assert(pow2(31) == 0x8000_0000);
    vstd::arithmetic::power2::lemma_pow2_adds(31, 32);
    assert(pow2(63) == 0x8000_0000_0000_0000);
    assert(pow2(8) == 0x100 && pow2(16) == 0x10000 && pow2(32) == 0x1_0000_0000 && pow2(64)
        == 0x1_0000_0000_0000_0000);
}

/// A cast of an integer, char or bool constant to an integer type gives a
/// value within that type's range and congruent to the source value (a
/// char counting as its code point, a bool as 1 or 0) modulo 2^width; a
/// source value within the range is kept. A cast with no named target
/// keeps the value.
pub proof fn law_int_casts(v: ConstValue, n: Seq<char>)
    requires
        spec_is_int_type(n),
    ensures
        ({
            let src: int = match v {
                ConstValue::Int(x) => x as int,
                ConstValue::Char(c) => c as u32 as int,
                ConstValue::Bool(b) => if b {
                    1
                } else {
                    0
                },
            };
            let (lo, hi) = spec_int_range(n)->Some_0;
            &&& spec_apply_cast(v, Some(n)) matches Some(ConstValue::Int(r))
            &&& lo <= spec_apply_cast(v, Some(n))->Some_0->Int_0 <= hi
            &&& (spec_apply_cast(v, Some(n))->Some_0->Int_0 - src) % (pow2(int_width(n)) as int) == 0
            &&& (lo <= src <= hi ==> spec_apply_cast(v, Some(n))->Some_0->Int_0 == src)
        }),
        spec_apply_cast(v, None) == Some(v),
{
    lemma_int_names();
    let src: i128 = match v {
        ConstValue::Int(x) => x,
        ConstValue::Char(c) => c as u32 as i128,
        ConstValue::Bool(b) => if b {
            1
        } else {
            0
        },
    };
    assert(!spec_is_float_type(n)) by {
        reveal_strlit("float32");
        reveal_strlit("float64");
        assert("float32"@[0] == 'f' && "float64"@[0] == 'f');
    }
    crate::laws::law_wrap_in_range(src, n);
    crate::laws::law_wrap_congruent(src, n);
    law_int_range_exact(n);
    let (lo, hi) = spec_int_range(n)->Some_0;
    let r = spec_wrap_int(src, n);
    let m = pow2(int_width(n)) as int;
    assert(spec_apply_cast(v, Some(n)) == Some(ConstValue::Int(r)));
    if lo <= src <= hi {
        let x = r - src;
        assert(-m < x < m);
        assert(m > 0);
        assert(x == 0) by (nonlinear_arith)
            requires
                x % m == 0,
                -m < x < m,
                m > 0,
        ;
    }
}

/// The expression `e` names no constant: folding it reads nothing but its
/// own tokens.
pub open spec fn names_nothing(e: SynExpr) -> bool
    decreases e,
{
    match e {
        SynExpr::NameRef(_) => false,
        SynExpr::Paren(Some(b)) => names_nothing(*b),
        SynExpr::Prefix { operand: Some(b), .. } => names_nothing(*b),
        SynExpr::Binary { lhs, rhs, .. } => (match lhs {
            Some(b) => names_nothing(*b),
            None => true,
        }) && (match rhs {
            Some(b) => names_nothing(*b),
            None => true,
        }),
        SynExpr::Cast { operand: Some(b), .. } => names_nothing(*b),
        _ => true,
    }
}

/// Parentheses are transparent: evaluating `(e)` as a top-level constant
/// gives the same value, memo and diagnostics as evaluating `e`, and
/// folding `(e)` in a body gives what folding `e` gives.
pub proof fn law_parens_transparent(
    cs: Seq<(ConstId, Option<SynExpr>)>,
    ns: Seq<Seq<char>>,
    bm: Map<Seq<char>, u32>,
    e: SynExpr,
    vis: Seq<bool>,
    memo: Memo,
    ds: Seq<FoldDiag>,
    fr: Seq<Map<Seq<char>, Binding>>,
    lc: Seq<LocalConst>,
    v: ItemsView,
)
    ensures
        eval_expr_spec(cs, ns, bm, SynExpr::Paren(Some(Box::new(e))), vis, memo, ds) == eval_expr_spec(
            cs,
            ns,
            bm,
            e,
            vis,
            memo,
            ds,
        ),
        spec_fold(SynExpr::Paren(Some(Box::new(e))), fr, lc, v) == spec_fold(e, fr, lc, v),
{
    reveal_with_fuel(spec_fold, 2);
}

/// Top-level evaluation and folding in a body agree on an expression that
/// names no constant: the same result, the memo untouched, and the same
/// diagnostics appended.
pub proof fn law_eval_agrees_with_fold(
    cs: Seq<(ConstId, Option<SynExpr>)>,
    ns: Seq<Seq<char>>,
    bm: Map<Seq<char>, u32>,
    e: SynExpr,
    vis: Seq<bool>,
    memo: Memo,
    ds: Seq<FoldDiag>,
    fr: Seq<Map<Seq<char>, Binding>>,
    lc: Seq<LocalConst>,
    v: ItemsView,
)
    requires
        names_nothing(e),
    ensures
        eval_expr_spec(cs, ns, bm, e, vis, memo, ds) == (
            spec_fold(e, fr, lc, v).0,
            memo,
            ds + spec_fold(e, fr, lc, v).1,
        ),
    decreases e,
{
    reveal_with_fuel(spec_fold, 2);
    reveal_with_fuel(eval_expr_spec, 2);
    match e {
        SynExpr::Literal(_) => {
            assert(ds + seq![] =~= ds);
        },
        SynExpr::Paren(inner) => match inner {
            Some(b) => law_eval_agrees_with_fold(cs, ns, bm, *b, vis, memo, ds, fr, lc, v),
            None => {
                assert(ds + seq![] =~= ds);
            },
        },
        SynExpr::Prefix { op, operand } => {
            match operand {
                Some(b) => law_eval_agrees_with_fold(cs, ns, bm, *b, vis, memo, ds, fr, lc, v),
                None => {},
            }
            assert(ds + seq![] =~= ds);
            let d = match operand {
                Some(b) => spec_fold(*b, fr, lc, v).1,
                None => seq![],
            };
            if let Some(o) = op {
                if let Folded::Value(c) = crate::body_lowering::spec_fold_boxed(operand, fr, lc, v).0 {
                    if let Err(err) = spec_apply_unary(o, c) {
                        assert((ds + d).push(FoldDiag::Plain(err)) =~= ds + d.push(FoldDiag::Plain(err)));
                    }
                }
            }
        },
        SynExpr::Binary { op, lhs, rhs } => {
            assert(ds + seq![] =~= ds);
            let dl = crate::body_lowering::spec_fold_boxed(lhs, fr, lc, v).1;
            let dr = crate::body_lowering::spec_fold_boxed(rhs, fr, lc, v).1;
            match lhs {
                Some(b) => law_eval_agrees_with_fold(cs, ns, bm, *b, vis, memo, ds, fr, lc, v),
                None => {},
            }
            match rhs {
                Some(b) => law_eval_agrees_with_fold(cs, ns, bm, *b, vis, memo, ds + dl, fr, lc, v),
                None => {},
            }
            assert(ds + dl + dr =~= ds + (dl + dr));
            assert(ds + dl + seq![] =~= ds + dl);
            if let Some(o) = op {
                let l = crate::body_lowering::spec_fold_boxed(lhs, fr, lc, v).0;
                let r = crate::body_lowering::spec_fold_boxed(rhs, fr, lc, v).0;
                if let (Folded::Value(a), Folded::Value(b)) = (l, r) {
                    if let Err(err) = spec_apply_binary(o, a, b) {
                        assert((ds + dl + dr).push(FoldDiag::Plain(err)) =~= ds + (dl + dr).push(FoldDiag::Plain(err)));
                    }
                }
            }
        },
        SynExpr::Cast { operand, .. } => {
            match operand {
                Some(b) => law_eval_agrees_with_fold(cs, ns, bm, *b, vis, memo, ds, fr, lc, v),
                None => {
                    assert(ds + seq![] =~= ds);
                },
            }
        },
        SynExpr::NameRef(_) => {},
        _ => {
            assert(ds.push(FoldDiag::Plain(ConstError::NotAConstExpr)) =~= ds + seq![FoldDiag::Plain(ConstError::NotAConstExpr)]);
        },
    }
}

/// A name folds through the constant it names: a memoised constant gives
/// its memoised result and changes nothing; a name no listed constant with
/// an initializer has is reported, and fails.
pub proof fn law_eval_names(
    cs: Seq<(ConstId, Option<SynExpr>)>,
    ns: Seq<Seq<char>>,
    bm: Map<Seq<char>, u32>,
    n: String,
    vis: Seq<bool>,
    memo: Memo,
    ds: Seq<FoldDiag>,
)
    requires
        vis.len() == memo.len(),
    ensures
        bm.contains_key(n@) && (bm[n@] as int) < memo.len() && memo[bm[n@] as int] is Some ==> eval_expr_spec(
            cs,
            ns,
            bm,
            SynExpr::NameRef(n),
            vis,
            memo,
            ds,
        ) == (memo[bm[n@] as int]->Some_0, memo, ds),
        !bm.contains_key(n@) ==> eval_expr_spec(cs, ns, bm, SynExpr::NameRef(n), vis, memo, ds) == (
            Folded::Failed,
            memo,
            ds.push(FoldDiag::UnknownName(n@)),
        ),
{
    reveal_with_fuel(eval_expr_spec, 2);
}

/// Shifts of integer constants by a count below 128 are the bit shifts of
/// the two's-complement value (arithmetic to the right); a count of zero
/// leaves the value, and shifting a non-negative value right by one halves
/// it, rounding down.
pub proof fn law_int_shifts(a: i128, b: i128)
    ensures
        0 <= b < 128 ==> spec_apply_binary(BinOp::Shl, ConstValue::Int(a), ConstValue::Int(b)) == Ok::<
            ConstValue,
            ConstError,
        >(ConstValue::Int(a << (b as u32))),
        0 <= b < 128 ==> spec_apply_binary(BinOp::Shr, ConstValue::Int(a), ConstValue::Int(b)) == Ok::<
            ConstValue,
            ConstError,
        >(ConstValue::Int(a >> (b as u32))),
        spec_apply_binary(BinOp::Shl, ConstValue::Int(a), ConstValue::Int(0)) == Ok::<ConstValue, ConstError>(
            ConstValue::Int(a),
        ),
        spec_apply_binary(BinOp::Shr, ConstValue::Int(a), ConstValue::Int(0)) == Ok::<ConstValue, ConstError>(
            ConstValue::Int(a),
        ),
        a >= 0 ==> spec_apply_binary(BinOp::Shr, ConstValue::Int(a), ConstValue::Int(1)) == Ok::<
            ConstValue,
            ConstError,
        >(ConstValue::Int((a / 2) as i128)),
{
    if 0 <= b < 128 {
        assert((b as u32) % 128 == b as u32);
    }
    assert(a << 0u32 == a) by (bit_vector);
    assert(a >> 0u32 == a) by (bit_vector);
    if a >= 0 {
        assert(a >> 1u32 == a / 2) by (bit_vector)
            requires
                a >= 0,
        ;
    }
}

/// A cast to a float type leaves an integer uncomputed (floating point is
/// not folded) and a char or bool unchanged; a cast of a char or bool to a
/// name that is no integer type leaves it unchanged.
pub proof fn law_other_casts(c: char, p: bool, x: i128, t: Seq<char>)
    requires
        !spec_is_int_type(t),
    ensures
        spec_is_float_type(t) ==> spec_apply_cast(ConstValue::Int(x), Some(t)) is None,
        !spec_is_float_type(t) ==> spec_apply_cast(ConstValue::Int(x), Some(t)) == Some(ConstValue::Int(x)),
        spec_apply_cast(ConstValue::Char(c), Some(t)) == Some(ConstValue::Char(c)),
        spec_apply_cast(ConstValue::Bool(p), Some(t)) == Some(ConstValue::Bool(p)),
{
}

/// Memoised folding of a constant: a memoised result is returned with
/// nothing changed; a constant reached again while it is being folded is
/// a reported cycle, memoised as a failure; otherwise its initializer is
/// folded with the constant marked, and the result is memoised.
pub proof fn law_eval_name_memoised(
    cs: Seq<(ConstId, Option<SynExpr>)>,
    ns: Seq<Seq<char>>,
    bm: Map<Seq<char>, u32>,
    k: int,
    vis: Seq<bool>,
    memo: Memo,
    ds: Seq<FoldDiag>,
)
    requires
        0 <= k < vis.len(),
        vis.len() == memo.len(),
        memo.len() == cs.len(),
    ensures
        memo[k] is Some ==> eval_name_spec(cs, ns, bm, k, vis, memo, ds) == (memo[k]->Some_0, memo, ds),
        memo[k] is None && vis[k] ==> eval_name_spec(cs, ns, bm, k, vis, memo, ds) == (
            Folded::Failed,
            memo.update(k, Some(Folded::Failed)),
            ds.push(FoldDiag::Cycle(ns[k])),
        ),
        memo[k] is None && !vis[k] && cs[k].1 is Some ==> ({
            let r = eval_expr_spec(cs, ns, bm, cs[k].1->Some_0, vis.update(k, true), memo, ds);
            let x = eval_name_spec(cs, ns, bm, k, vis, memo, ds);
            &&& x.0 == r.0
            &&& x.1 == r.1.update(k, Some(r.0))
            &&& x.1[k] == Some(r.0)
            &&& x.2 == r.2
        }),
{
    if memo[k] is None && !vis[k] && cs[k].1 is Some {
        let r = eval_expr_spec(cs, ns, bm, cs[k].1->Some_0, vis.update(k, true), memo, ds);
        lemma_eval_keeps_len(cs, ns, bm, cs[k].1->Some_0, vis.update(k, true), memo, ds);
    }
}

proof fn lemma_eval_keeps_len(
    cs: Seq<(ConstId, Option<SynExpr>)>,
    ns: Seq<Seq<char>>,
    bm: Map<Seq<char>, u32>,
    e: SynExpr,
    vis: Seq<bool>,
    memo: Memo,
    ds: Seq<FoldDiag>,
)
    ensures
        eval_expr_spec(cs, ns, bm, e, vis, memo, ds).1.len() == memo.len(),
    decreases n_unset(vis), expr_size(e), 1nat,
{
    match e {
        SynExpr::Paren(Some(b)) => lemma_eval_keeps_len(cs, ns, bm, *b, vis, memo, ds),
        SynExpr::NameRef(n) => if bm.contains_key(n@) {
            lemma_name_keeps_len(cs, ns, bm, bm[n@] as int, vis, memo, ds);
        },
        SynExpr::Prefix { op: Some(_), operand: Some(b) } => lemma_eval_keeps_len(cs, ns, bm, *b, vis, memo, ds),
        SynExpr::Binary { op: Some(_), lhs, rhs } => {
            let l = match lhs {
                Some(b) => eval_expr_spec(cs, ns, bm, *b, vis, memo, ds),
                None => (Folded::Failed, memo, ds),
            };
            if let Some(b) = lhs {
                lemma_eval_keeps_len(cs, ns, bm, *b, vis, memo, ds);
            }
            if let Some(b) = rhs {
                lemma_eval_keeps_len(cs, ns, bm, *b, vis, l.1, l.2);
            }
        },
        SynExpr::Cast { operand: Some(b), .. } => lemma_eval_keeps_len(cs, ns, bm, *b, vis, memo, ds),
        _ => {},
    }
}

proof fn lemma_name_keeps_len(
    cs: Seq<(ConstId, Option<SynExpr>)>,
    ns: Seq<Seq<char>>,
    bm: Map<Seq<char>, u32>,
    k: int,
    vis: Seq<bool>,
    memo: Memo,
    ds: Seq<FoldDiag>,
)
    ensures
        eval_name_spec(cs, ns, bm, k, vis, memo, ds).1.len() == memo.len(),
    decreases n_unset(vis), 0nat, 0nat,
{
    if 0 <= k < vis.len() && vis.len() == memo.len() && memo[k] is None && !vis[k] && k < cs.len() && cs[k].1 is Some {
        lemma_n_unset_set(vis, k);
        lemma_eval_keeps_len(cs, ns, bm, cs[k].1->Some_0, vis.update(k, true), memo, ds);
    }
}

/// An integer literal overflows its type exactly when its value lies
/// outside the type's range: `N` when `N` exceeds the upper bound, `-N`
/// when `-N` is below the lower bound.
pub proof fn law_literal_overflow_is_range(v: u128, n: Seq<char>)
    requires
        spec_is_int_type(n),
    ensures
        ({
            let (lo, hi) = spec_int_range(n)->Some_0;
            &&& literal_overflows(v, n, false) == (v > hi)
            &&& literal_overflows(v, n, true) == (-(v as int) < lo)
        }),
{
    law_int_range_exact(n);
}

/// A format string without braces has no placeholders; `{}` at its start
/// adds one, an escaped brace `{{` or `}}` adds none, and any other first
/// char adds none.
pub proof fn law_placeholders(s: Seq<char>, c: char)
    ensures
        (forall|i: int| 0 <= i < s.len() ==> #[trigger] s[i] != '{') ==> placeholders(s) == 0,
        placeholders(seq!['{', '}'] + s) == 1 + placeholders(s),
        placeholders(seq!['{', '{'] + s) == placeholders(s),
        placeholders(seq!['}', '}'] + s) == placeholders(s),
        c != '{' && c != '}' ==> placeholders(seq![c] + s) == placeholders(s),
    decreases s.len(),
{
    assert((seq!['{', '}'] + s).skip(2) =~= s);
    assert((seq!['{', '{'] + s).skip(2) =~= s);
    assert((seq!['}', '}'] + s).skip(2) =~= s);
    assert((seq![c] + s).skip(1) =~= s);
    if forall|i: int| 0 <= i < s.len() ==> #[trigger] s[i] != '{' {
        if s.len() > 0 {
            let t = s.skip(1);
            assert forall|i: int| 0 <= i < t.len() implies #[trigger] t[i] != '{' by {
                assert(t[i] == s[i + 1]);
            }
            law_placeholders(t, c);
            assert(s[0] != '{');
            if s.len() >= 2 && s[0] == '}' && s[1] == '}' {
                let u = s.skip(2);
                assert forall|i: int| 0 <= i < u.len() implies #[trigger] u[i] != '{' by {
                    assert(u[i] == s[i + 2]);
                }
                law_placeholders(u, c);
            }
        }
    }
}

/// The range check of a constant reports exactly an integer value outside
/// the range of the integer type it is declared with, and only for a
/// constant with an initializer; a value inside the range, a value of
/// another kind, or no declared integer type gives nothing.
pub proof fn law_range_check(x: Folded, n: Seq<char>, anchored: bool, v: i128)
    ensures
        spec_is_int_type(n) && anchored ==> ({
            let (lo, hi) = spec_int_range(n)->Some_0;
            &&& (range_diags(Folded::Value(ConstValue::Int(v)), Some(n), true).len() > 0) == (v < lo || v > hi)
            &&& (v < lo || v > hi) ==> range_diags(Folded::Value(ConstValue::Int(v)), Some(n), true) == seq![
                FoldDiag::OutOfRange(v, n, lo, hi),
            ]
        }),
        !anchored ==> range_diags(x, Some(n), anchored).len() == 0,
        !(x is Value && x->Value_0 is Int) ==> range_diags(x, Some(n), anchored).len() == 0,
        range_diags(x, None, anchored).len() == 0,
{
    if spec_is_int_type(n) {
        law_int_range_exact(n);
    }
}

} // verus!
