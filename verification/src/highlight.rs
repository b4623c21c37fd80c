//! Classifying the name tokens of a function body's syntax tree for
//! semantic highlighting: field names are properties, struct-literal names
//! and annotated types are types, `let` and `const` names are variables,
//! `Enum.Variant` patterns give an enum and a member, and a bare pattern
//! name is a member when a variant is declared under it, else a variable.

use vstd::prelude::*;

use crate::items::{ScopeMaps, HIR};
use crate::legend::{COMMENT, ENUM, ENUM_MEMBER, KEYWORD, NUMBER, OPERATOR, PROPERTY, STRING, TYPE, VARIABLE};
use crate::semantic::{ident_type_in, lookup_ident, ClassifiedToken};
use crate::tree::{SynArm, SynBlock, SynExpr, SynField, SynPat, SynStmt, SynType, TokenSpan};

verus! {

/// The token at `sp`, classified as `ty`; nothing where the tree has no
/// token.
pub open spec fn span_tokens(sp: Option<TokenSpan>, ty: u32) -> Seq<ClassifiedToken> {
    match sp {
        Some(t) => seq![ClassifiedToken { start: t.start, end: t.end, token_type: ty }],
        None => seq![],
    }
}

/// The classified names of a type annotation, in source order.
pub open spec fn type_tokens(t: SynType) -> Seq<ClassifiedToken>
    decreases t,
{
    match t {
        SynType::Ident(_, sp) => span_tokens(sp, TYPE),
        SynType::Unit => seq![],
        SynType::Ref(i) => boxed_type_tokens(i),
        SynType::Ptr(i) => boxed_type_tokens(i),
        SynType::Array { elem, .. } => boxed_type_tokens(elem),
        SynType::Fn { params, ret } => types_tokens(params@) + boxed_type_tokens(ret),
    }
}

pub open spec fn boxed_type_tokens(t: Option<Box<SynType>>) -> Seq<ClassifiedToken>
    decreases t,
{
    match t {
        Some(x) => type_tokens(*x),
        None => seq![],
    }
}

pub open spec fn opt_type_tokens(t: Option<SynType>) -> Seq<ClassifiedToken>
    decreases t,
{
    match t {
        Some(x) => type_tokens(x),
        None => seq![],
    }
}

pub open spec fn types_tokens(ts: Seq<Option<SynType>>) -> Seq<ClassifiedToken>
    decreases ts,
{
    if ts.len() == 0 {
        seq![]
    } else {
        types_tokens(ts.drop_last()) + opt_type_tokens(ts.last())
    }
}

/// The classified names of an expression, in source order; `it` is the
/// item scope that tells a variant from a binding in a pattern.
pub open spec fn expr_tokens(e: SynExpr, it: ScopeMaps) -> Seq<ClassifiedToken>
    decreases e,
{
    match e {
        SynExpr::Field { base, name_span, .. } => span_tokens(name_span, PROPERTY) + boxed_tokens(base, it),
        SynExpr::StructLit { name_span, fields, .. } => span_tokens(name_span, TYPE) + fields_tokens(fields@, it),
        SynExpr::Call { callee, args } => boxed_tokens(callee, it) + exprs_tokens(args@, it),
        SynExpr::Match { scrut, arms } => boxed_tokens(scrut, it) + arms_tokens(arms@, it),
        SynExpr::If { cond, then_branch, else_branch } => boxed_tokens(cond, it) + opt_block_tokens(then_branch, it)
            + opt_block_tokens(else_branch, it),
        SynExpr::Loop(b) => opt_block_tokens(b, it),
        SynExpr::Assign { lhs, rhs, .. } => boxed_tokens(lhs, it) + boxed_tokens(rhs, it),
        SynExpr::Binary { lhs, rhs, .. } => boxed_tokens(lhs, it) + boxed_tokens(rhs, it),
        SynExpr::Prefix { operand, .. } => boxed_tokens(operand, it),
        SynExpr::Ref(o) => boxed_tokens(o, it),
        SynExpr::Deref(o) => boxed_tokens(o, it),
        SynExpr::Cast { operand, ty } => boxed_tokens(operand, it) + opt_type_tokens(ty),
        SynExpr::Index { base, index } => boxed_tokens(base, it) + boxed_tokens(index, it),
        SynExpr::ArrayLit(es) => exprs_tokens(es@, it),
        _ => seq![],
    }
}

pub open spec fn boxed_tokens(e: Option<Box<SynExpr>>, it: ScopeMaps) -> Seq<ClassifiedToken>
    decreases e,
{
    match e {
        Some(x) => expr_tokens(*x, it),
        None => seq![],
    }
}

pub open spec fn opt_tokens(e: Option<SynExpr>, it: ScopeMaps) -> Seq<ClassifiedToken>
    decreases e,
{
    match e {
        Some(x) => expr_tokens(x, it),
        None => seq![],
    }
}

pub open spec fn exprs_tokens(es: Seq<SynExpr>, it: ScopeMaps) -> Seq<ClassifiedToken>
    decreases es,
{
    if es.len() == 0 {
        seq![]
    } else {
        exprs_tokens(es.drop_last(), it) + expr_tokens(es.last(), it)
    }
}

/// Each field name of a struct literal is a property, followed by its
/// value's names.
pub open spec fn fields_tokens(fs: Seq<SynField>, it: ScopeMaps) -> Seq<ClassifiedToken>
    decreases fs,
{
    if fs.len() == 0 {
        seq![]
    } else {
        fields_tokens(fs.drop_last(), it) + span_tokens(fs.last().name_span, PROPERTY) + opt_tokens(
            fs.last().value,
            it,
        )
    }
}

/// A match arm: its pattern, then its body (the guard is not classified).
pub open spec fn arm_tokens(a: SynArm, it: ScopeMaps) -> Seq<ClassifiedToken>
    decreases a,
{
    pat_tokens(a.pat, it) + opt_tokens(a.body, it)
}

pub open spec fn arms_tokens(arms: Seq<SynArm>, it: ScopeMaps) -> Seq<ClassifiedToken>
    decreases arms,
{
    if arms.len() == 0 {
        seq![]
    } else {
        arms_tokens(arms.drop_last(), it) + arm_tokens(arms.last(), it)
    }
}

/// The names of a pattern: `Enum.Variant` gives an enum and a member; a
/// bare name is a member when `it` declares a variant under it, else a
/// variable.
pub open spec fn pat_tokens(p: Option<SynPat>, it: ScopeMaps) -> Seq<ClassifiedToken> {
    match p {
        Some(SynPat::Path { qualifier_span, name_span, .. }) => span_tokens(qualifier_span, ENUM) + span_tokens(
            name_span,
            ENUM_MEMBER,
        ),
        Some(SynPat::BareIdent(n, sp)) => span_tokens(
            sp,
            if it.variants.contains_key(n@) {
                ENUM_MEMBER
            } else {
                VARIABLE
            },
        ),
        _ => seq![],
    }
}

/// A statement: a `let` or `const` name is a variable, followed by its
/// annotation's and its value's names.
pub open spec fn stmt_tokens(st: SynStmt, it: ScopeMaps) -> Seq<ClassifiedToken>
    decreases st,
{
    match st {
        SynStmt::Let { name_span, ty, value, .. } => span_tokens(name_span, VARIABLE) + opt_type_tokens(ty) + opt_tokens(
            value,
            it,
        ),
        SynStmt::Destructure { value, .. } => opt_tokens(value, it),
        SynStmt::Const { name_span, ty, value, .. } => span_tokens(name_span, VARIABLE) + opt_type_tokens(ty)
            + opt_tokens(value, it),
        SynStmt::Expr(e) => opt_tokens(e, it),
    }
}

pub open spec fn stmts_tokens(ss: Seq<SynStmt>, it: ScopeMaps) -> Seq<ClassifiedToken>
    decreases ss,
{
    if ss.len() == 0 {
        seq![]
    } else {
        stmts_tokens(ss.drop_last(), it) + stmt_tokens(ss.last(), it)
    }
}

/// A block: its statements in order, then its tail.
pub open spec fn block_tokens(b: SynBlock, it: ScopeMaps) -> Seq<ClassifiedToken>
    decreases b,
{
    stmts_tokens(b.stmts@, it) + boxed_tokens(b.tail, it)
}

pub open spec fn opt_block_tokens(b: Option<SynBlock>, it: ScopeMaps) -> Seq<ClassifiedToken>
    decreases b,
{
    match b {
        Some(x) => block_tokens(x, it),
        None => seq![],
    }
}

/// Classifies the token at `sp`, where the tree has one.
fn push_span(sp: &Option<TokenSpan>, ty: u32, out: &mut Vec<ClassifiedToken>)
    ensures
        final(out)@ == old(out)@ + span_tokens(*sp, ty),
{
    if let Some(t) = sp {
        out.push(ClassifiedToken { start: t.start, end: t.end, token_type: ty });
    }
    assert(out@ =~= old(out)@ + span_tokens(*sp, ty));
}

/// Classifies the names of a type annotation.
pub fn classify_type_ref(t: &SynType, out: &mut Vec<ClassifiedToken>)
    ensures
        final(out)@ == old(out)@ + type_tokens(*t),
    decreases t, 2nat,
{
    match t {
        SynType::Ident(_, sp) => push_span(sp, TYPE, out),
        SynType::Unit => {
            assert(out@ =~= old(out)@ + type_tokens(*t));
        },
        SynType::Ref(i) => classify_boxed_type(i, out),
        SynType::Ptr(i) => classify_boxed_type(i, out),
        SynType::Array { elem, .. } => classify_boxed_type(elem, out),
        SynType::Fn { params, ret } => {
            let mut k: usize = 0;
            assert(params@.take(0) =~= Seq::<Option<SynType>>::empty());
            assert(out@ =~= old(out)@ + types_tokens(params@.take(0)));
            while k < params.len()
                invariant
                    k <= params@.len(),
                    out@ == old(out)@ + types_tokens(params@.take(k as int)),
                    (*t matches SynType::Fn { params: pp, .. } && pp == *params),
                decreases params@.len() - k,
            {
                proof {
                    vstd::std_specs::vec::axiom_vec_index_decreases(*params, k as int);
                }
                classify_opt_type(&params[k], out);
                proof {
                    assert(params@.take(k + 1).drop_last() =~= params@.take(k as int));
                    assert(params@.take(k + 1).last() == params@[k as int]);
                    assert(out@ =~= old(out)@ + types_tokens(params@.take(k + 1)));
                }
                k = k + 1;
            }
            assert(params@.take(params@.len() as int) =~= params@);
            classify_boxed_type(ret, out);
            assert(out@ =~= old(out)@ + type_tokens(*t));
        },
    }
}

fn classify_boxed_type(t: &Option<Box<SynType>>, out: &mut Vec<ClassifiedToken>)
    ensures
        final(out)@ == old(out)@ + boxed_type_tokens(*t),
    decreases t, 2nat,
{
    match t {
        Some(x) => classify_type_ref(x, out),
        None => {
            assert(out@ =~= old(out)@ + boxed_type_tokens(*t));
        },
    }
}

fn classify_opt_type(t: &Option<SynType>, out: &mut Vec<ClassifiedToken>)
    ensures
        final(out)@ == old(out)@ + opt_type_tokens(*t),
    decreases t, 2nat,
{
    match t {
        Some(x) => classify_type_ref(x, out),
        None => {
            assert(out@ =~= old(out)@ + opt_type_tokens(*t));
        },
    }
}

/// Classifies the names of an expression and of the blocks, statements,
/// arms, patterns and annotations inside it, in source order.
pub fn classify_expr(e: &SynExpr, hir: &HIR, out: &mut Vec<ClassifiedToken>)
    ensures
        final(out)@ == old(out)@ + expr_tokens(*e, hir.items@),
    decreases e, 3nat,
{
    let ghost it = hir.items@;
    match e {
        SynExpr::Field { base, name_span, .. } => {
            push_span(name_span, PROPERTY, out);
            classify_boxed(base, hir, out);
        },
        SynExpr::StructLit { name_span, fields, .. } => {
            push_span(name_span, TYPE, out);
            classify_fields(e, fields, hir, out);
        },
        SynExpr::Call { callee, args } => {
            classify_boxed(callee, hir, out);
            classify_exprs(e, args, hir, out);
        },
        SynExpr::Match { scrut, arms } => {
            classify_boxed(scrut, hir, out);
            classify_arms(e, arms, hir, out);
        },
        SynExpr::If { cond, then_branch, else_branch } => {
            classify_boxed(cond, hir, out);
            classify_opt_block(then_branch, hir, out);
            classify_opt_block(else_branch, hir, out);
        },
        SynExpr::Loop(b) => classify_opt_block(b, hir, out),
        SynExpr::Assign { lhs, rhs, .. } => {
            classify_boxed(lhs, hir, out);
            classify_boxed(rhs, hir, out);
        },
        SynExpr::Binary { lhs, rhs, .. } => {
            classify_boxed(lhs, hir, out);
            classify_boxed(rhs, hir, out);
        },
        SynExpr::Prefix { operand, .. } => classify_boxed(operand, hir, out),
        SynExpr::Ref(o) => classify_boxed(o, hir, out),
        SynExpr::Deref(o) => classify_boxed(o, hir, out),
        SynExpr::Cast { operand, ty } => {
            classify_boxed(operand, hir, out);
            classify_opt_type(ty, out);
        },
        SynExpr::Index { base, index } => {
            classify_boxed(base, hir, out);
            classify_boxed(index, hir, out);
        },
        SynExpr::ArrayLit(es) => classify_exprs(e, es, hir, out),
        _ => {},
    }
    assert(out@ =~= old(out)@ + expr_tokens(*e, it));
}

fn classify_boxed(e: &Option<Box<SynExpr>>, hir: &HIR, out: &mut Vec<ClassifiedToken>)
    ensures
        final(out)@ == old(out)@ + boxed_tokens(*e, hir.items@),
    decreases e, 3nat,
{
    match e {
        Some(x) => classify_expr(x, hir, out),
        None => {
            assert(out@ =~= old(out)@ + boxed_tokens(*e, hir.items@));
        },
    }
}

fn classify_opt(e: &Option<SynExpr>, hir: &HIR, out: &mut Vec<ClassifiedToken>)
    ensures
        final(out)@ == old(out)@ + opt_tokens(*e, hir.items@),
    decreases e, 3nat,
{
    match e {
        Some(x) => classify_expr(x, hir, out),
        None => {
            assert(out@ =~= old(out)@ + opt_tokens(*e, hir.items@));
        },
    }
}

/// The elements of a call's arguments or of an array literal `parent`.
fn classify_exprs(parent: &SynExpr, es: &Vec<SynExpr>, hir: &HIR, out: &mut Vec<ClassifiedToken>)
    requires
        (*parent matches SynExpr::Call { args, .. } && args == *es) || (*parent matches SynExpr::ArrayLit(xs) && xs
            == *es),
    ensures
        final(out)@ == old(out)@ + exprs_tokens(es@, hir.items@),
    decreases parent, 2nat,
{
    let ghost it = hir.items@;
    let mut k: usize = 0;
    assert(es@.take(0) =~= Seq::<SynExpr>::empty());
    assert(out@ =~= old(out)@ + exprs_tokens(es@.take(0), it));
    while k < es.len()
        invariant
            k <= es@.len(),
            it == hir.items@,
            out@ == old(out)@ + exprs_tokens(es@.take(k as int), it),
            (*parent matches SynExpr::Call { args, .. } && args == *es) || (*parent matches SynExpr::ArrayLit(xs) && xs
                == *es),
        decreases es@.len() - k,
    {
        proof {
            vstd::std_specs::vec::axiom_vec_index_decreases(*es, k as int);
        }
        classify_expr(&es[k], hir, out);
        proof {
            assert(es@.take(k + 1).drop_last() =~= es@.take(k as int));
            assert(es@.take(k + 1).last() == es@[k as int]);
            assert(out@ =~= old(out)@ + exprs_tokens(es@.take(k + 1), it));
        }
        k = k + 1;
    }
    assert(es@.take(es@.len() as int) =~= es@);
}

/// The fields of the struct literal `parent`: each name, then its value.
fn classify_fields(parent: &SynExpr, fs: &Vec<SynField>, hir: &HIR, out: &mut Vec<ClassifiedToken>)
    requires
        *parent matches SynExpr::StructLit { fields, .. } && fields == *fs,
    ensures
        final(out)@ == old(out)@ + fields_tokens(fs@, hir.items@),
    decreases parent, 2nat,
{
    let ghost it = hir.items@;
    let mut k: usize = 0;
    assert(fs@.take(0) =~= Seq::<SynField>::empty());
    assert(out@ =~= old(out)@ + fields_tokens(fs@.take(0), it));
    while k < fs.len()
        invariant
            k <= fs@.len(),
            it == hir.items@,
            out@ == old(out)@ + fields_tokens(fs@.take(k as int), it),
            *parent matches SynExpr::StructLit { fields, .. } && fields == *fs,
        decreases fs@.len() - k,
    {
        proof {
            vstd::std_specs::vec::axiom_vec_index_decreases(*fs, k as int);
        }
        let f = &fs[k];
        push_span(&f.name_span, PROPERTY, out);
        classify_opt(&f.value, hir, out);
        proof {
            assert(fs@.take(k + 1).drop_last() =~= fs@.take(k as int));
            assert(fs@.take(k + 1).last() == fs@[k as int]);
            assert(out@ =~= old(out)@ + fields_tokens(fs@.take(k + 1), it));
        }
        k = k + 1;
    }
    assert(fs@.take(fs@.len() as int) =~= fs@);
}

/// The arms of the match `parent`, in order.
fn classify_arms(parent: &SynExpr, arms: &Vec<SynArm>, hir: &HIR, out: &mut Vec<ClassifiedToken>)
    requires
        *parent matches SynExpr::Match { arms: xs, .. } && xs == *arms,
    ensures
        final(out)@ == old(out)@ + arms_tokens(arms@, hir.items@),
    decreases parent, 2nat,
{
    let ghost it = hir.items@;
    let mut k: usize = 0;
    assert(arms@.take(0) =~= Seq::<SynArm>::empty());
    assert(out@ =~= old(out)@ + arms_tokens(arms@.take(0), it));
    while k < arms.len()
        invariant
            k <= arms@.len(),
            it == hir.items@,
            out@ == old(out)@ + arms_tokens(arms@.take(k as int), it),
            *parent matches SynExpr::Match { arms: xs, .. } && xs == *arms,
        decreases arms@.len() - k,
    {
        proof {
            vstd::std_specs::vec::axiom_vec_index_decreases(*arms, k as int);
        }
        classify_match_arm(&arms[k], hir, out);
        proof {
            assert(arms@.take(k + 1).drop_last() =~= arms@.take(k as int));
            assert(arms@.take(k + 1).last() == arms@[k as int]);
            assert(out@ =~= old(out)@ + arms_tokens(arms@.take(k + 1), it));
        }
        k = k + 1;
    }
    assert(arms@.take(arms@.len() as int) =~= arms@);
}

/// Classifies a match arm: its pattern, then its body.
pub fn classify_match_arm(a: &SynArm, hir: &HIR, out: &mut Vec<ClassifiedToken>)
    ensures
        final(out)@ == old(out)@ + arm_tokens(*a, hir.items@),
    decreases a, 3nat,
{
    classify_pat(&a.pat, hir, out);
    classify_opt(&a.body, hir, out);
    assert(out@ =~= old(out)@ + arm_tokens(*a, hir.items@));
}

/// Classifies the names of a match pattern.
pub fn classify_pat(p: &Option<SynPat>, hir: &HIR, out: &mut Vec<ClassifiedToken>)
    ensures
        final(out)@ == old(out)@ + pat_tokens(*p, hir.items@),
{
    match p {
        Some(SynPat::Path { qualifier_span, name_span, .. }) => {
            push_span(qualifier_span, ENUM, out);
            push_span(name_span, ENUM_MEMBER, out);
            assert(out@ =~= old(out)@ + pat_tokens(*p, hir.items@));
        },
        Some(SynPat::BareIdent(n, sp)) => {
            let ty = if hir.items.variant(n.as_str()).is_some() {
                ENUM_MEMBER
            } else {
                VARIABLE
            };
            push_span(sp, ty, out);
        },
        _ => {
            assert(out@ =~= old(out)@ + pat_tokens(*p, hir.items@));
        },
    }
}

/// Classifies a statement: a `let` or `const` name, its annotation and its
/// value.
pub fn classify_stmt(st: &SynStmt, hir: &HIR, out: &mut Vec<ClassifiedToken>)
    ensures
        final(out)@ == old(out)@ + stmt_tokens(*st, hir.items@),
    decreases st, 3nat,
{
    match st {
        SynStmt::Let { name_span, ty, value, .. } => {
            push_span(name_span, VARIABLE, out);
            classify_opt_type(ty, out);
            classify_opt(value, hir, out);
        },
        SynStmt::Destructure { value, .. } => classify_opt(value, hir, out),
        SynStmt::Const { name_span, ty, value, .. } => {
            push_span(name_span, VARIABLE, out);
            classify_opt_type(ty, out);
            classify_opt(value, hir, out);
        },
        SynStmt::Expr(e) => classify_opt(e, hir, out),
    }
    assert(out@ =~= old(out)@ + stmt_tokens(*st, hir.items@));
}

/// Classifies a block: its statements in order, then its tail.
pub fn classify_block(b: &SynBlock, hir: &HIR, out: &mut Vec<ClassifiedToken>)
    ensures
        final(out)@ == old(out)@ + block_tokens(*b, hir.items@),
    decreases b, 3nat,
{
    let ghost it = hir.items@;
    let mut k: usize = 0;
    assert(b.stmts@.take(0) =~= Seq::<SynStmt>::empty());
    assert(out@ =~= old(out)@ + stmts_tokens(b.stmts@.take(0), it));
    while k < b.stmts.len()
        invariant
            k <= b.stmts@.len(),
            it == hir.items@,
            out@ == old(out)@ + stmts_tokens(b.stmts@.take(k as int), it),
        decreases b.stmts@.len() - k,
    {
        proof {
            vstd::std_specs::vec::axiom_vec_index_decreases(b.stmts, k as int);
        }
        classify_stmt(&b.stmts[k], hir, out);
        proof {
            assert(b.stmts@.take(k + 1).drop_last() =~= b.stmts@.take(k as int));
            assert(b.stmts@.take(k + 1).last() == b.stmts@[k as int]);
            assert(out@ =~= old(out)@ + stmts_tokens(b.stmts@.take(k + 1), it));
        }
        k = k + 1;
    }
    assert(b.stmts@.take(b.stmts@.len() as int) =~= b.stmts@);
    classify_boxed(&b.tail, hir, out);
    assert(out@ =~= old(out)@ + block_tokens(*b, it));
}

fn classify_opt_block(b: &Option<SynBlock>, hir: &HIR, out: &mut Vec<ClassifiedToken>)
    ensures
        final(out)@ == old(out)@ + opt_block_tokens(*b, hir.items@),
    decreases b, 3nat,
{
    match b {
        Some(x) => classify_block(x, hir, out),
        None => {
            assert(out@ =~= old(out)@ + opt_block_tokens(*b, hir.items@));
        },
    }
}

/// The token type of the identifier token at `start..end`: that of the
/// last classified name over exactly that range, else a variable.
pub fn ident_token_type(start: u32, end: u32, spans: &[ClassifiedToken]) -> (t: u32)
    ensures
        t == match ident_type_in(spans@, start, end) {
            Some(x) => x,
            None => VARIABLE,
        },
{
    match lookup_ident(start, end, spans) {
        Some(x) => x,
        None => VARIABLE,
    }
}

/// The kind of a lexed token, as far as highlighting tells kinds apart:
/// keywords, literals, comments and operators by name, identifiers, the
/// end of input, and every other token (punctuation).
#[derive(Debug, Clone, Copy, PartialEq, Eq, Structural)]
pub enum SyntaxKind {
    Let,
    Mut,
    Const,
    Structure,
    Enum,
    Union,
    Extern,
    Type,
    If,
    Else,
    Loop,
    Break,
    Continue,
    Return,
    Match,
    As,
    True,
    False,
    Underscore,
    Int,
    Float,
    String,
    Char,
    Lcomment,
    Bcomment,
    Dcomment,
    Assign,
    PlusEq,
    MinusEq,
    StarEq,
    SlashEq,
    PercentEq,
    AmpEq,
    PipeEq,
    CaretEq,
    ShlEq,
    ShrEq,
    Plus,
    Minus,
    Star,
    Slash,
    Percent,
    And,
    Or,
    Bang,
    Eq,
    Neq,
    Lt,
    Gt,
    Leq,
    Geq,
    Tilde,
    Caret,
    Shl,
    Shr,
    Arrow,
    Farrow,
    Dot,
    Ellipsis,
    Amp,
    Pipe,
    Ident,
    Eof,
    Other,
}

/// The token type a lexed token of kind `k` gets from its kind alone:
/// keywords, numbers, strings and chars, comments and operators; nothing
/// for identifiers (classified by the tree) or any other token.
pub open spec fn spec_token_type(k: SyntaxKind) -> Option<u32> {
    match k {
            SyntaxKind::Let
            | SyntaxKind::Mut
            | SyntaxKind::Const
            | SyntaxKind::Structure
            | SyntaxKind::Enum
            | SyntaxKind::Union
            | SyntaxKind::Extern
            | SyntaxKind::Type
            | SyntaxKind::If
            | SyntaxKind::Else
            | SyntaxKind::Loop
            | SyntaxKind::Break
            | SyntaxKind::Continue
            | SyntaxKind::Return
            | SyntaxKind::Match
            | SyntaxKind::As
            | SyntaxKind::True
            | SyntaxKind::False
            | SyntaxKind::Underscore => Some(KEYWORD),
            SyntaxKind::Int
            | SyntaxKind::Float => Some(NUMBER),
            SyntaxKind::String
            | SyntaxKind::Char => Some(STRING),
            SyntaxKind::Lcomment
            | SyntaxKind::Bcomment
            | SyntaxKind::Dcomment => Some(COMMENT),
            SyntaxKind::Assign
            | SyntaxKind::PlusEq
            | SyntaxKind::MinusEq
            | SyntaxKind::StarEq
            | SyntaxKind::SlashEq
            | SyntaxKind::PercentEq
            | SyntaxKind::AmpEq
            | SyntaxKind::PipeEq
            | SyntaxKind::CaretEq
            | SyntaxKind::ShlEq
            | SyntaxKind::ShrEq
            | SyntaxKind::Plus
            | SyntaxKind::Minus
            | SyntaxKind::Star
            | SyntaxKind::Slash
            | SyntaxKind::Percent
            | SyntaxKind::And
            | SyntaxKind::Or
            | SyntaxKind::Bang
            | SyntaxKind::Eq
            | SyntaxKind::Neq
            | SyntaxKind::Lt
            | SyntaxKind::Gt
            | SyntaxKind::Leq
            | SyntaxKind::Geq
            | SyntaxKind::Tilde
            | SyntaxKind::Caret
            | SyntaxKind::Shl
            | SyntaxKind::Shr
            | SyntaxKind::Arrow
            | SyntaxKind::Farrow
            | SyntaxKind::Dot
            | SyntaxKind::Ellipsis
            | SyntaxKind::Amp
            | SyntaxKind::Pipe => Some(OPERATOR),
            _ => None,
    }
}

/// The token type of a lexed token of kind `k` (see [`spec_token_type`]).
pub fn token_type_for_syntax_kind(k: SyntaxKind) -> (r: Option<u32>)
    ensures
        r == spec_token_type(k),
{
    match k {
        SyntaxKind::Let
        | SyntaxKind::Mut
        | SyntaxKind::Const
        | SyntaxKind::Structure
        | SyntaxKind::Enum
        | SyntaxKind::Union
        | SyntaxKind::Extern
        | SyntaxKind::Type
        | SyntaxKind::If
        | SyntaxKind::Else
        | SyntaxKind::Loop
        | SyntaxKind::Break
        | SyntaxKind::Continue
        | SyntaxKind::Return
        | SyntaxKind::Match
        | SyntaxKind::As
        | SyntaxKind::True
        | SyntaxKind::False
        | SyntaxKind::Underscore => Some(KEYWORD),
        SyntaxKind::Int
        | SyntaxKind::Float => Some(NUMBER),
        SyntaxKind::String
        | SyntaxKind::Char => Some(STRING),
        SyntaxKind::Lcomment
        | SyntaxKind::Bcomment
        | SyntaxKind::Dcomment => Some(COMMENT),
        SyntaxKind::Assign
        | SyntaxKind::PlusEq
        | SyntaxKind::MinusEq
        | SyntaxKind::StarEq
        | SyntaxKind::SlashEq
        | SyntaxKind::PercentEq
        | SyntaxKind::AmpEq
        | SyntaxKind::PipeEq
        | SyntaxKind::CaretEq
        | SyntaxKind::ShlEq
        | SyntaxKind::ShrEq
        | SyntaxKind::Plus
        | SyntaxKind::Minus
        | SyntaxKind::Star
        | SyntaxKind::Slash
        | SyntaxKind::Percent
        | SyntaxKind::And
        | SyntaxKind::Or
        | SyntaxKind::Bang
        | SyntaxKind::Eq
        | SyntaxKind::Neq
        | SyntaxKind::Lt
        | SyntaxKind::Gt
        | SyntaxKind::Leq
        | SyntaxKind::Geq
        | SyntaxKind::Tilde
        | SyntaxKind::Caret
        | SyntaxKind::Shl
        | SyntaxKind::Shr
        | SyntaxKind::Arrow
        | SyntaxKind::Farrow
        | SyntaxKind::Dot
        | SyntaxKind::Ellipsis
        | SyntaxKind::Amp
        | SyntaxKind::Pipe => Some(OPERATOR),
        _ => None,
    }
}

/// The classified tokens of a lexed token stream `toks` (kind, start, end):
/// the end of input is skipped; an identifier takes the type the classified
/// names `spans` give its range, else a variable; any other token takes the
/// type its kind gives, and is skipped when its kind gives none.
pub open spec fn lexed_tokens(toks: Seq<(SyntaxKind, u32, u32)>, spans: Seq<ClassifiedToken>) -> Seq<ClassifiedToken>
    decreases toks.len(),
{
    if toks.len() == 0 {
        seq![]
    } else {
        let (k, s, e) = toks.last();
        lexed_tokens(toks.drop_last(), spans) + match k {
            SyntaxKind::Eof => seq![],
            SyntaxKind::Ident => seq![
                ClassifiedToken {
                    start: s,
                    end: e,
                    token_type: match ident_type_in(spans, s, e) {
                        Some(x) => x,
                        None => VARIABLE,
                    },
                },
            ],
            _ => match spec_token_type(k) {
                Some(t) => seq![ClassifiedToken { start: s, end: e, token_type: t }],
                None => seq![],
            },
        }
    }
}

/// Classifies a lexed token stream against the classified names of the
/// tree (see [`lexed_tokens`]): the tokens semantic highlighting encodes.
pub fn classify_lexed(toks: &Vec<(SyntaxKind, u32, u32)>, spans: &[ClassifiedToken]) -> (out: Vec<ClassifiedToken>)
    ensures
        out@ == lexed_tokens(toks@, spans@),
{
    let mut out: Vec<ClassifiedToken> = Vec::new();
    let mut i: usize = 0;
    assert(toks@.take(0) =~= Seq::<(SyntaxKind, u32, u32)>::empty());
    while i < toks.len()
        invariant
            i <= toks@.len(),
            out@ == lexed_tokens(toks@.take(i as int), spans@),
        decreases toks@.len() - i,
    {
        let (k, s, e) = toks[i];
        let ghost prev = out@;
        match k {
            SyntaxKind::Eof => {},
            SyntaxKind::Ident => {
                out.push(ClassifiedToken { start: s, end: e, token_type: ident_token_type(s, e, spans) });
            },
            _ => {
                if let Some(t) = token_type_for_syntax_kind(k) {
                    out.push(ClassifiedToken { start: s, end: e, token_type: t });
                }
            },
        }
        proof {
            assert(toks@.take(i + 1).drop_last() =~= toks@.take(i as int));
            assert(toks@.take(i + 1).last() == toks@[i as int]);
            assert(out@ =~= lexed_tokens(toks@.take(i + 1), spans@));
        }
        i = i + 1;
    }
    assert(toks@.take(toks@.len() as int) =~= toks@);
    out
}

} // verus!
