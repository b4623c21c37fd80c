//! The bounded const-expression floor: folded scalar values, the operator
//! appliers, numeric casts between scalar kinds, integer type ranges and
//! integer-literal parsing.
//!
//! Float constants are not modelled here; folding over floats is done by
//! the caller.

use vstd::prelude::*;

use crate::errors::ConstError;
use crate::types::{KindView, TypeInterner, TypeKind, TypeRef};
use crate::names::{is_float_type, is_int_type, spec_is_float_type, spec_is_int_type};
use crate::text::{decimal_int, i128_to_string, str_chars, str_eq};

verus! {

/// A folded scalar constant value.
#[derive(Debug, Clone, Copy, PartialEq, Eq, Structural)]
pub enum ConstValue {
    Int(i128),
    Bool(bool),
    Char(char),
}

/// A binary operator of the expression language.
#[derive(Debug, Clone, Copy, PartialEq, Eq, Structural)]
pub enum BinOp {
    Add,
    Sub,
    Mul,
    Div,
    Rem,
    BitAnd,
    BitOr,
    BitXor,
    Shl,
    Shr,
    Eq,
    Neq,
    Lt,
    Gt,
    Leq,
    Geq,
    And,
    Or,
}

/// A prefix operator of the expression language.
#[derive(Debug, Clone, Copy, PartialEq, Eq, Structural)]
pub enum UnaryOp {
    Neg,
    BitNot,
    Not,
}

/// Division rounding toward zero, over the integers.
pub open spec fn trunc_quot(x: int, d: int) -> int {
    if x == 0 {
        0
    } else if x > 0 && d > 0 {
        x / d
    } else if x < 0 && d < 0 {
        (-x) / (-d)
    } else if x < 0 {
        -((-x) / d)
    } else {
        -(x / (-d))
    }
}

/// The remainder that goes with [`trunc_quot`]: it takes the sign of `x`.
pub open spec fn trunc_mod(x: int, d: int) -> int {
    if x == 0 {
        0
    } else if x > 0 && d > 0 {
        x % d
    } else if x < 0 && d < 0 {
        -((-x) % (-d))
    } else if x < 0 {
        -((-x) % d)
    } else {
        x % (-d)
    }
}

/// Rust's wrapping division of `a` by a nonzero `b`: rounds toward zero,
/// and `i128::MIN / -1` wraps to `i128::MIN`.
pub open spec fn trunc_div(a: i128, b: i128) -> i128 {
    if a == i128::MIN && b == -1 {
        i128::MIN
    } else {
        trunc_quot(a as int, b as int) as i128
    }
}

/// Rust's wrapping remainder of `a` by a nonzero `b`: takes the sign of
/// `a`, and `i128::MIN % -1` is 0.
pub open spec fn trunc_rem(a: i128, b: i128) -> i128 {
    if a == i128::MIN && b == -1 {
        0
    } else {
        trunc_mod(a as int, b as int) as i128
    }
}

pub(crate) proof fn lemma_quot_bounds(x: int, d: int)
    requires
        d != 0,
    ensures
        x >= 0 ==> 0 <= trunc_quot(x, d) <= x || (d < 0 && -x <= trunc_quot(x, d) <= 0),
        x < 0 ==> (d > 0 && x <= trunc_quot(x, d) <= 0) || (d < 0 && 0 <= trunc_quot(x, d) <= -x),
        d == -1 ==> trunc_quot(x, d) == -x,
        x < 0 && d < -1 ==> trunc_quot(x, d) < -x,
        d > 0 ==> -d < trunc_mod(x, d) < d,
        d < 0 ==> d < trunc_mod(x, d) < -d,
{
    if x > 0 && d > 0 {
        assert(0 <= x / d <= x) by (nonlinear_arith)
            requires
                x > 0,
                d > 0,
        ;
        assert(0 <= x % d < d) by (nonlinear_arith)
            requires
                d > 0,
        ;
    } else if x < 0 && d < 0 {
        assert(0 <= (-x) / (-d) <= -x) by (nonlinear_arith)
            requires
                -x > 0,
                -d > 0,
        ;
        assert(0 <= (-x) % (-d) < -d) by (nonlinear_arith)
            requires
                -d > 0,
        ;
        if d == -1 {
            assert((-x) / 1 == -x);
        } else {
            assert((-x) / (-d) < -x) by (nonlinear_arith)
                requires
                    -x > 0,
                    -d > 1,
            ;
        }
    } else if x < 0 {
        assert(0 <= (-x) / d <= -x) by (nonlinear_arith)
            requires
                -x > 0,
                d > 0,
        ;
        assert(0 <= (-x) % d < d) by (nonlinear_arith)
            requires
                d > 0,
        ;
    } else if x > 0 {
        assert(0 <= x / (-d) <= x) by (nonlinear_arith)
            requires
                x > 0,
                -d > 0,
        ;
        assert(0 <= x % (-d) < -d) by (nonlinear_arith)
            requires
                -d > 0,
        ;
        if d == -1 {
            assert(x / 1 == x);
        }
    }
}

/// The result of a binary operator on two integers.
pub open spec fn spec_apply_int(op: BinOp, a: i128, b: i128) -> Result<ConstValue, ConstError> {
    match op {
        BinOp::Add => Ok(ConstValue::Int(a.wrapping_add(b))),
        BinOp::Sub => Ok(ConstValue::Int(a.wrapping_sub(b))),
        BinOp::Mul => Ok(ConstValue::Int(a.wrapping_mul(b))),
        BinOp::Div => if b == 0 {
            Err(ConstError::ConstDivByZero)
        } else {
            Ok(ConstValue::Int(trunc_div(a, b)))
        },
        BinOp::Rem => if b == 0 {
            Err(ConstError::ConstDivByZero)
        } else {
            Ok(ConstValue::Int(trunc_rem(a, b)))
        },
        BinOp::BitAnd => Ok(ConstValue::Int(a & b)),
        BinOp::BitOr => Ok(ConstValue::Int(a | b)),
        BinOp::BitXor => Ok(ConstValue::Int(a ^ b)),
        BinOp::Shl => Ok(ConstValue::Int(a.wrapping_shl(b as u32))),
        BinOp::Shr => Ok(ConstValue::Int(a.wrapping_shr(b as u32))),
        BinOp::Eq => Ok(ConstValue::Bool(a == b)),
        BinOp::Neq => Ok(ConstValue::Bool(a != b)),
        BinOp::Lt => Ok(ConstValue::Bool(a < b)),
        BinOp::Gt => Ok(ConstValue::Bool(a > b)),
        BinOp::Leq => Ok(ConstValue::Bool(a <= b)),
        BinOp::Geq => Ok(ConstValue::Bool(a >= b)),
        BinOp::And | BinOp::Or => Err(ConstError::NotAConstExpr),
    }
}

/// Applies a binary operator to two integer operands: wrapping arithmetic,
/// division and remainder by zero rejected, comparisons to `bool`.
pub fn apply_int(op: BinOp, a: i128, b: i128) -> (r: Result<ConstValue, ConstError>)
    ensures
        r == spec_apply_int(op, a, b),
{
    match op {
        BinOp::Add => Ok(ConstValue::Int(a.wrapping_add(b))),
        BinOp::Sub => Ok(ConstValue::Int(a.wrapping_sub(b))),
        BinOp::Mul => Ok(ConstValue::Int(a.wrapping_mul(b))),
        BinOp::Div => {
            if b == 0 {
                return Err(ConstError::ConstDivByZero);
            }
            proof {
                lemma_quot_bounds(a as int, b as int);
            }
            match a.checked_div(b) {
                Some(q) => Ok(ConstValue::Int(q)),
                None => Ok(ConstValue::Int(i128::MIN)),
            }
        },
        BinOp::Rem => {
            if b == 0 {
                return Err(ConstError::ConstDivByZero);
            }
            proof {
                lemma_quot_bounds(a as int, b as int);
            }
            match a.checked_rem(b) {
                Some(q) => Ok(ConstValue::Int(q)),
                None => Ok(ConstValue::Int(0)),
            }
        },
        BinOp::BitAnd => Ok(ConstValue::Int(a & b)),
        BinOp::BitOr => Ok(ConstValue::Int(a | b)),
        BinOp::BitXor => Ok(ConstValue::Int(a ^ b)),
        BinOp::Shl => Ok(ConstValue::Int(a.wrapping_shl(b as u32))),
        BinOp::Shr => Ok(ConstValue::Int(a.wrapping_shr(b as u32))),
        BinOp::Eq => Ok(ConstValue::Bool(a == b)),
        BinOp::Neq => Ok(ConstValue::Bool(a != b)),
        BinOp::Lt => Ok(ConstValue::Bool(a < b)),
        BinOp::Gt => Ok(ConstValue::Bool(a > b)),
        BinOp::Leq => Ok(ConstValue::Bool(a <= b)),
        BinOp::Geq => Ok(ConstValue::Bool(a >= b)),
        BinOp::And | BinOp::Or => Err(ConstError::NotAConstExpr),
    }
}


/// The result of a prefix operator on a folded operand.
pub open spec fn spec_apply_unary(op: UnaryOp, v: ConstValue) -> Result<ConstValue, ConstError> {
    match (op, v) {
        (UnaryOp::Neg, ConstValue::Int(x)) => Ok(ConstValue::Int((-x) as i128)),
        (UnaryOp::BitNot, ConstValue::Int(x)) => Ok(ConstValue::Int(!x)),
        (UnaryOp::Not, ConstValue::Bool(b)) => Ok(ConstValue::Bool(!b)),
        _ => Err(ConstError::NotAConstExpr),
    }
}

/// Applies a prefix operator to a folded operand.
pub fn apply_unary(op: UnaryOp, v: ConstValue) -> (r: Result<ConstValue, ConstError>)
    requires
        !(op == UnaryOp::Neg && v == ConstValue::Int(i128::MIN)),
    ensures
        r == spec_apply_unary(op, v),
{
    match (op, v) {
        (UnaryOp::Neg, ConstValue::Int(x)) => Ok(ConstValue::Int(-x)),
        (UnaryOp::BitNot, ConstValue::Int(x)) => Ok(ConstValue::Int(!x)),
        (UnaryOp::Not, ConstValue::Bool(b)) => Ok(ConstValue::Bool(!b)),
        _ => Err(ConstError::NotAConstExpr),
    }
}

/// The result of a binary operator on two folded operands of one kind;
/// mixed kinds are not a constant expression.
pub open spec fn spec_apply_binary(op: BinOp, l: ConstValue, r: ConstValue) -> Result<
    ConstValue,
    ConstError,
> {
    match (l, r) {
        (ConstValue::Int(a), ConstValue::Int(b)) => spec_apply_int(op, a, b),
        (ConstValue::Bool(a), ConstValue::Bool(b)) => match op {
            BinOp::And => Ok(ConstValue::Bool(a && b)),
            BinOp::Or => Ok(ConstValue::Bool(a || b)),
            BinOp::Eq => Ok(ConstValue::Bool(a == b)),
            BinOp::Neq => Ok(ConstValue::Bool(a != b)),
            _ => Err(ConstError::NotAConstExpr),
        },
        (ConstValue::Char(a), ConstValue::Char(b)) => match op {
            BinOp::Eq => Ok(ConstValue::Bool(a == b)),
            BinOp::Neq => Ok(ConstValue::Bool(a != b)),
            BinOp::Lt => Ok(ConstValue::Bool((a as u32) < (b as u32))),
            BinOp::Gt => Ok(ConstValue::Bool((a as u32) > (b as u32))),
            BinOp::Leq => Ok(ConstValue::Bool((a as u32) <= (b as u32))),
            BinOp::Geq => Ok(ConstValue::Bool((a as u32) >= (b as u32))),
            _ => Err(ConstError::NotAConstExpr),
        },
        _ => Err(ConstError::NotAConstExpr),
    }
}

/// Applies a binary operator to two folded operands of matching kind.
pub fn apply_binary(op: BinOp, l: ConstValue, r: ConstValue) -> (res: Result<ConstValue, ConstError>)
    ensures
        res == spec_apply_binary(op, l, r),
{
    match (l, r) {
        (ConstValue::Int(a), ConstValue::Int(b)) => apply_int(op, a, b),
        (ConstValue::Bool(a), ConstValue::Bool(b)) => match op {
            BinOp::And => Ok(ConstValue::Bool(a && b)),
            BinOp::Or => Ok(ConstValue::Bool(a || b)),
            BinOp::Eq => Ok(ConstValue::Bool(a == b)),
            BinOp::Neq => Ok(ConstValue::Bool(a != b)),
            _ => Err(ConstError::NotAConstExpr),
        },
        (ConstValue::Char(a), ConstValue::Char(b)) => {
            let (x, y) = (a as u32, b as u32);
            match op {
                BinOp::Eq => Ok(ConstValue::Bool(a == b)),
                BinOp::Neq => Ok(ConstValue::Bool(a != b)),
                BinOp::Lt => Ok(ConstValue::Bool(x < y)),
                BinOp::Gt => Ok(ConstValue::Bool(x > y)),
                BinOp::Leq => Ok(ConstValue::Bool(x <= y)),
                BinOp::Geq => Ok(ConstValue::Bool(x >= y)),
                _ => Err(ConstError::NotAConstExpr),
            }
        },
        _ => Err(ConstError::NotAConstExpr),
    }
}

/// `v` truncated to the named integer type's width, as a C cast to that
/// type computes it (LP64 widths for `usize`/`isize`); unchanged for any
/// other name.
pub open spec fn spec_wrap_int(v: i128, n: Seq<char>) -> i128 {
    if n == "int8"@ {
        (v as i8) as i128
    } else if n == "int16"@ {
        (v as i16) as i128
    } else if n == "int32"@ {
        (v as i32) as i128
    } else if n == "int64"@ || n == "isize"@ {
        (v as i64) as i128
    } else if n == "uint8"@ {
        (v as u8) as i128
    } else if n == "uint16"@ {
        (v as u16) as i128
    } else if n == "uint32"@ {
        (v as u32) as i128
    } else if n == "uint64"@ || n == "usize"@ {
        (v as u64) as i128
    } else {
        v
    }
}

/// Truncates `v` to the named integer type's width.
pub fn wrap_int(v: i128, name: &str) -> (r: i128)
    ensures
        r == spec_wrap_int(v, name@),
{
    if str_eq(name, "int8") {
        v as i8 as i128
    } else if str_eq(name, "int16") {
        v as i16 as i128
    } else if str_eq(name, "int32") {
        v as i32 as i128
    } else if str_eq(name, "int64") || str_eq(name, "isize") {
        v as i64 as i128
    } else if str_eq(name, "uint8") {
        v as u8 as i128
    } else if str_eq(name, "uint16") {
        v as u16 as i128
    } else if str_eq(name, "uint32") {
        v as u32 as i128
    } else if str_eq(name, "uint64") || str_eq(name, "usize") {
        v as u64 as i128
    } else {
        v
    }
}

/// The inclusive value range of a named integer type (LP64 widths).
pub open spec fn spec_int_range(n: Seq<char>) -> Option<(i128, i128)> {
    if n == "int8"@ {
        Some((-0x80i128, 0x7f))
    } else if n == "int16"@ {
        Some((-0x8000i128, 0x7fff))
    } else if n == "int32"@ {
        Some((-0x8000_0000i128, 0x7fff_ffff))
    } else if n == "int64"@ || n == "isize"@ {
        Some((-0x8000_0000_0000_0000i128, 0x7fff_ffff_ffff_ffff))
    } else if n == "uint8"@ {
        Some((0, 0xff))
    } else if n == "uint16"@ {
        Some((0, 0xffff))
    } else if n == "uint32"@ {
        Some((0, 0xffff_ffff))
    } else if n == "uint64"@ || n == "usize"@ {
        Some((0, 0xffff_ffff_ffff_ffff))
    } else {
        None
    }
}

/// The inclusive `(min, max)` range of a named integer type, or `None` for
/// a name that is not an integer type.
pub fn int_range(name: &str) -> (r: Option<(i128, i128)>)
    ensures
        r == spec_int_range(name@),
{
    if str_eq(name, "int8") {
        Some((-0x80, 0x7f))
    } else if str_eq(name, "int16") {
        Some((-0x8000, 0x7fff))
    } else if str_eq(name, "int32") {
        Some((-0x8000_0000, 0x7fff_ffff))
    } else if str_eq(name, "int64") || str_eq(name, "isize") {
        Some((-0x8000_0000_0000_0000, 0x7fff_ffff_ffff_ffff))
    } else if str_eq(name, "uint8") {
        Some((0, 0xff))
    } else if str_eq(name, "uint16") {
        Some((0, 0xffff))
    } else if str_eq(name, "uint32") {
        Some((0, 0xffff_ffff))
    } else if str_eq(name, "uint64") || str_eq(name, "usize") {
        Some((0, 0xffff_ffff_ffff_ffff))
    } else {
        None
    }
}

/// The literal bounds of a named integer type as `(negative magnitude
/// bound, positive bound)`: a literal `N` fits when `N <= max`, a negated
/// literal `-N` when `N <= neg`.
pub open spec fn spec_int_type_range(n: Seq<char>) -> Option<(u128, u128)> {
    match spec_int_range(n) {
        Some((min, max)) => Some(((-min) as u128, max as u128)),
        None => None,
    }
}

/// The literal bounds `(negative magnitude bound, positive bound)` of a
/// named integer type, or `None` for a name that is not an integer type.
pub fn int_type_range(name: &str) -> (r: Option<(u128, u128)>)
    ensures
        r == spec_int_type_range(name@),
{
    match int_range(name) {
        Some((min, max)) => Some(((-min) as u128, max as u128)),
        None => None,
    }
}

/// The value of a numeric `as` cast, or `None` when an integer meets a
/// float target (that conversion is floating-point work). An integer target
/// truncates to its width; any other target keeps the value.
pub open spec fn spec_apply_cast(value: ConstValue, target: Option<Seq<char>>) -> Option<
    ConstValue,
> {
    match target {
        None => Some(value),
        Some(t) => match value {
            ConstValue::Int(v) => if spec_is_float_type(t) {
                None
            } else if spec_is_int_type(t) {
                Some(ConstValue::Int(spec_wrap_int(v, t)))
            } else {
                Some(value)
            },
            ConstValue::Char(c) => if spec_is_int_type(t) {
                Some(ConstValue::Int(spec_wrap_int(c as u32 as i128, t)))
            } else {
                Some(value)
            },
            ConstValue::Bool(b) => if spec_is_int_type(t) {
                Some(ConstValue::Int(spec_wrap_int(if b { 1 } else { 0 }, t)))
            } else {
                Some(value)
            },
        },
    }
}

/// Folds a numeric `as` cast between scalar kinds.
pub fn apply_cast(value: ConstValue, target: Option<&str>) -> (r: Option<ConstValue>)
    ensures
        r == spec_apply_cast(
            value,
            match target {
                Some(t) => Some(t@),
                None => None,
            },
        ),
{
    let t = match target {
        None => {
            return Some(value);
        },
        Some(t) => t,
    };
    match value {
        ConstValue::Int(v) => {
            if is_float_type(t) {
                None
            } else if is_int_type(t) {
                Some(ConstValue::Int(wrap_int(v, t)))
            } else {
                Some(value)
            }
        },
        ConstValue::Char(c) => {
            if is_int_type(t) {
                Some(ConstValue::Int(wrap_int(c as u32 as i128, t)))
            } else {
                Some(value)
            }
        },
        ConstValue::Bool(b) => {
            if is_int_type(t) {
                Some(ConstValue::Int(wrap_int(if b { 1 } else { 0 }, t)))
            } else {
                Some(value)
            }
        },
    }
}


/// The out-of-range diagnostic for a folded integer constant declared with
/// an integer type whose range does not hold it; `None` when the value is
/// not an integer, the type is not an integer type, or the value fits.
pub fn const_range_error(value: Option<ConstValue>, ty_name: Option<&str>) -> (e: Option<ConstError>)
    ensures
        match (value, ty_name) {
            (Some(ConstValue::Int(v)), Some(n)) => match spec_int_range(n@) {
                Some((min, max)) => if v < min || v > max {
                    e matches Some(
                        ConstError::ConstValueOutOfRange { value: ev, ty: et, min: emin, max: emax },
                    ) && ev@ == decimal_int(v as int) && et@ == n@ && emin@ == decimal_int(min as int)
                        && emax@ == decimal_int(max as int)
                } else {
                    e is None
                },
                None => e is None,
            },
            _ => e is None,
        },
{
    match (value, ty_name) {
        (Some(ConstValue::Int(v)), Some(n)) => match int_range(n) {
            Some((min, max)) => {
                if v < min || v > max {
                    Some(
                        ConstError::ConstValueOutOfRange {
                            value: i128_to_string(v),
                            ty: n.to_owned(),
                            min: i128_to_string(min),
                            max: i128_to_string(max),
                        },
                    )
                } else {
                    None
                }
            },
            None => None,
        },
        _ => None,
    }
}

/// The value of a digit in bases up to 36 (36 for a non-digit).
pub open spec fn digit_value(c: char) -> nat {
    let u = c as u32;
    if 0x30 <= u <= 0x39 {
        (u - 0x30) as nat
    } else if 0x61 <= u <= 0x7a {
        (u - 0x61 + 10) as nat
    } else if 0x41 <= u <= 0x5a {
        (u - 0x41 + 10) as nat
    } else {
        36
    }
}

/// The value of a digit string in base `radix`, or `None` when a char is
/// not a digit of that base.
pub open spec fn digits_value(ds: Seq<char>, radix: nat) -> Option<nat>
    decreases ds.len(),
{
    if ds.len() == 0 {
        Some(0)
    } else {
        match digits_value(ds.drop_last(), radix) {
            Some(v) => if digit_value(ds.last()) < radix {
                Some(v * radix + digit_value(ds.last()))
            } else {
                None
            },
            None => None,
        }
    }
}

/// `u128::from_str_radix`: an optional leading `+`, then at least one digit
/// of the base, with a value that fits `u128`.
pub open spec fn spec_from_str_radix(s: Seq<char>, radix: nat) -> Option<u128> {
    let ds = if s.len() > 0 && s[0] == '+' {
        s.drop_first()
    } else {
        s
    };
    if ds.len() == 0 {
        None
    } else {
        match digits_value(ds, radix) {
            Some(v) => if v <= u128::MAX {
                Some(v as u128)
            } else {
                None
            },
            None => None,
        }
    }
}

/// The value of an integer literal's text: `0x`/`0X` hex, `0b`/`0B`
/// binary, `0o`/`0O` octal, decimal otherwise; `None` on overflow of `u128`
/// or a malformed digit string.
pub open spec fn spec_parse_int_literal(t: Seq<char>) -> Option<u128> {
    if t.len() >= 2 && t[0] == '0' && (t[1] == 'x' || t[1] == 'X') {
        spec_from_str_radix(t.skip(2), 16)
    } else if t.len() >= 2 && t[0] == '0' && (t[1] == 'b' || t[1] == 'B') {
        spec_from_str_radix(t.skip(2), 2)
    } else if t.len() >= 2 && t[0] == '0' && (t[1] == 'o' || t[1] == 'O') {
        spec_from_str_radix(t.skip(2), 8)
    } else {
        spec_from_str_radix(t, 10)
    }
}

/// A digit string with a valid value is at least as large as the value of
/// any of its prefixes.
proof fn lemma_digits_prefix(ds: Seq<char>, radix: nat, k: int)
    requires
        0 <= k <= ds.len(),
        radix >= 1,
        digits_value(ds, radix) is Some,
    ensures
        digits_value(ds.take(k), radix) is Some,
        digits_value(ds.take(k), radix)->0 <= digits_value(ds, radix)->0,
    decreases ds.len(),
{
    if k == ds.len() {
        assert(ds.take(k) =~= ds);
    } else {
        lemma_digits_prefix(ds.drop_last(), radix, k);
        assert(ds.drop_last().take(k) =~= ds.take(k));
        let v = digits_value(ds.drop_last(), radix)->0;
        assert(v <= v * radix) by (nonlinear_arith)
            requires
                radix >= 1,
        ;
    }
}

/// Parses digits `cs[start..]` in base `radix` as `u128::from_str_radix`
/// does after its prefix handling.
fn parse_digits(cs: &Vec<char>, start: usize, radix: u32) -> (r: Option<u128>)
    requires
        start <= cs@.len(),
        2 <= radix <= 36,
    ensures
        r == spec_from_str_radix(cs@.skip(start as int), radix as nat),
{
    let ghost s = cs@.skip(start as int);
    let mut i = start;
    if i < cs.len() && cs[i] == '+' {
        i = i + 1;
    }
    let ghost ds = if s.len() > 0 && s[0] == '+' {
        s.drop_first()
    } else {
        s
    };
    assert(ds =~= cs@.skip(i as int));
    if i == cs.len() {
        return None;
    }
    let mut v: u128 = 0;
    let mut j = i;
    while j < cs.len()
        invariant
            i <= j <= cs@.len(),
            i < cs@.len(),
            ds =~= cs@.skip(i as int),
            s == cs@.skip(start as int),
            ds == (if s.len() > 0 && s[0] == '+' {
                s.drop_first()
            } else {
                s
            }),
            2 <= radix <= 36,
            digits_value(ds.take(j - i), radix as nat) == Some(v as nat),
        decreases cs@.len() - j,
    {
        let c = cs[j];
        let u = c as u32;
        let d: u32 = if 0x30 <= u && u <= 0x39 {
            u - 0x30
        } else if 0x61 <= u && u <= 0x7a {
            u - 0x61 + 10
        } else if 0x41 <= u && u <= 0x5a {
            u - 0x41 + 10
        } else {
            36
        };
        assert(ds.take(j - i + 1).drop_last() =~= ds.take(j - i));
        assert(ds.take(j - i + 1).last() == c);
        assert(digit_value(c) == d as nat);
        if d >= radix {
            assert(digits_value(ds.take(j - i + 1), radix as nat) is None);
            proof {
                if digits_value(ds, radix as nat) is Some {
                    lemma_digits_prefix(ds, radix as nat, j - i + 1);
                }
            }
            return None;
        }
        let next = match v.checked_mul(radix as u128) {
            Some(m) => m.checked_add(d as u128),
            None => None,
        };
        match next {
            Some(n) => {
                v = n;
            },
            None => {
                proof {
                    assert(v * radix + d > u128::MAX);
                    assert(digits_value(ds.take(j - i + 1), radix as nat) == Some(
                        (v * radix + d) as nat,
                    ));
                    if digits_value(ds, radix as nat) is Some {
                        lemma_digits_prefix(ds, radix as nat, j - i + 1);
                    }
                }
                return None;
            },
        }
        j = j + 1;
    }
    assert(ds.take(j - i) =~= ds);
    Some(v)
}

/// Parses an integer literal's text, honoring a base prefix.
pub fn parse_int_literal(text: &str) -> (r: Option<u128>)
    ensures
        r == spec_parse_int_literal(text@),
{
    let cs = str_chars(text);
    if cs.len() >= 2 && cs[0] == '0' {
        let p = cs[1];
        if p == 'x' || p == 'X' {
            return parse_digits(&cs, 2, 16);
        } else if p == 'b' || p == 'B' {
            return parse_digits(&cs, 2, 2);
        } else if p == 'o' || p == 'O' {
            return parse_digits(&cs, 2, 8);
        }
    }
    assert(cs@.skip(0) =~= cs@);
    parse_digits(&cs, 0, 10)
}

/// The length an array type's integer-literal length `text` gives: zero,
/// a value past `u64`, or an unparsable literal is an error.
pub open spec fn spec_literal_array_len(text: Seq<char>) -> Result<u64, ConstError> {
    match spec_parse_int_literal(text) {
        Some(v) => if v == 0 {
            Err(ConstError::ArrayLenZero)
        } else if v <= u64::MAX {
            Ok(v as u64)
        } else {
            Err(ConstError::ArrayLenTooLarge)
        },
        None => Err(ConstError::ArrayLenTooLarge),
    }
}

/// The length written as the integer literal `text`.
pub fn literal_array_len(text: &str) -> (r: Result<u64, ConstError>)
    ensures
        r == spec_literal_array_len(text@),
{
    match parse_int_literal(text) {
        Some(v) => {
            if v == 0 {
                Err(ConstError::ArrayLenZero)
            } else if v <= u64::MAX as u128 {
                Ok(v as u64)
            } else {
                Err(ConstError::ArrayLenTooLarge)
            }
        },
        None => Err(ConstError::ArrayLenTooLarge),
    }
}

/// The length a folded constant length expression gives: a non-negative
/// integer that fits `u64` and is not zero.
pub open spec fn spec_folded_array_len(value: ConstValue) -> Result<u64, ConstError> {
    match value {
        ConstValue::Int(v) => if v < 0 {
            Err(ConstError::ArrayLenNotInteger)
        } else if v > u64::MAX {
            Err(ConstError::ArrayLenTooLarge)
        } else if v == 0 {
            Err(ConstError::ArrayLenZero)
        } else {
            Ok(v as u64)
        },
        _ => Err(ConstError::ArrayLenNotInteger),
    }
}

/// The length given by a folded constant length expression.
pub fn folded_array_len(value: ConstValue) -> (r: Result<u64, ConstError>)
    ensures
        r == spec_folded_array_len(value),
{
    match value {
        ConstValue::Int(v) => {
            if v < 0 {
                Err(ConstError::ArrayLenNotInteger)
            } else if v > u64::MAX as i128 {
                Err(ConstError::ArrayLenTooLarge)
            } else if v == 0 {
                Err(ConstError::ArrayLenZero)
            } else {
                Ok(v as u64)
            }
        },
        _ => Err(ConstError::ArrayLenNotInteger),
    }
}

/// The integer-type name `ty` is declared with: a path naming an integer
/// type; `None` for any other type (the only case the range check of a
/// constant's value applies to).
pub fn int_type_name(ty: TypeRef, types: &TypeInterner) -> (r: Option<String>)
    requires
        types.wf(),
        (ty.0 as int) < types@.len(),
    ensures
        match types@[ty.0 as int] {
            KindView::Path(n) => if spec_int_range(n) is Some {
                r matches Some(s) && s@ == n
            } else {
                r is None
            },
            _ => r is None,
        },
{
    match types.lookup(ty) {
        TypeKind::Path(n) => {
            if int_range(n.as_str()).is_some() {
                Some(n.clone())
            } else {
                None
            }
        },
        _ => None,
    }
}

} // verus!
