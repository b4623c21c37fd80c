//! The syntax tree a function body is lowered from, as the parser leaves
//! it: expressions, statements, blocks, match arms, patterns and type
//! annotations. A part the parser could not recover is absent (`None`);
//! lowering reports nothing for it, since the parser already did. Name
//! tokens carry their byte range, for highlighting.

use vstd::prelude::*;

use crate::body::{AssignOp, LiteralKind};
use crate::consts::{BinOp, UnaryOp};
use crate::lowering::PatField;

verus! {

/// The byte range of a name token in the source text.
#[derive(Debug, Clone, Copy, PartialEq, Eq, Structural)]
pub struct TokenSpan {
    pub start: u32,
    pub end: u32,
}

/// A literal token: its kind and text, when the parser recovered them.
#[derive(Debug, Clone, PartialEq, Eq)]
pub struct SynLiteral {
    pub kind: Option<LiteralKind>,
    pub text: Option<String>,
}

/// An expression.
pub enum SynExpr {
    Literal(SynLiteral),
    NameRef(String),
    Call { callee: Option<Box<SynExpr>>, args: Vec<SynExpr> },
    ArrayLit(Vec<SynExpr>),
    ArrayRepeat { value: Option<Box<SynExpr>>, count: Option<Box<SynExpr>> },
    Index { base: Option<Box<SynExpr>>, index: Option<Box<SynExpr>> },
    StructLit { name: Option<String>, name_span: Option<TokenSpan>, fields: Vec<SynField> },
    Binary { op: Option<BinOp>, lhs: Option<Box<SynExpr>>, rhs: Option<Box<SynExpr>> },
    Prefix { op: Option<UnaryOp>, operand: Option<Box<SynExpr>> },
    Field { base: Option<Box<SynExpr>>, name: String, name_span: Option<TokenSpan> },
    Assign { op: AssignOp, lhs: Option<Box<SynExpr>>, rhs: Option<Box<SynExpr>> },
    If { cond: Option<Box<SynExpr>>, then_branch: Option<SynBlock>, else_branch: Option<SynBlock> },
    Loop(Option<SynBlock>),
    Break,
    Continue,
    Return(Option<Box<SynExpr>>),
    Ref(Option<Box<SynExpr>>),
    Paren(Option<Box<SynExpr>>),
    Match { scrut: Option<Box<SynExpr>>, arms: Vec<SynArm> },
    Deref(Option<Box<SynExpr>>),
    Cast { operand: Option<Box<SynExpr>>, ty: Option<SynType> },
}

/// A field initializer of a struct literal: `name: value`, the shorthand
/// `name` (no value), or a positional value (no name).
pub struct SynField {
    pub name: Option<String>,
    pub name_span: Option<TokenSpan>,
    pub value: Option<SynExpr>,
}

/// A block: its statements and its tail expression.
pub struct SynBlock {
    pub stmts: Vec<SynStmt>,
    pub tail: Option<Box<SynExpr>>,
}

/// A statement.
pub enum SynStmt {
    /// `let` / `mut` binding of one name, with an optional annotation.
    Let { name: String, name_span: Option<TokenSpan>, ty: Option<SynType>, mutable: bool, value: Option<SynExpr> },
    /// `let Ty { f, g: h } = value`.
    Destructure { ty: String, fields: Vec<PatField>, mutable: bool, value: Option<SynExpr> },
    /// A block-scope `const`.
    Const { name: String, name_span: Option<TokenSpan>, ty: Option<SynType>, value: Option<SynExpr> },
    /// An expression statement.
    Expr(Option<SynExpr>),
}

/// An arm of a `match`: pattern, guard (whose expression may be absent),
/// and body.
pub struct SynArm {
    pub pat: Option<SynPat>,
    pub guard: Option<Option<SynExpr>>,
    pub body: Option<SynExpr>,
}

/// A match-arm pattern.
pub enum SynPat {
    Wildcard,
    Literal(Option<SynLiteral>),
    /// `Enum.Variant`.
    Path {
        qualifier: String,
        qualifier_span: Option<TokenSpan>,
        name: String,
        name_span: Option<TokenSpan>,
    },
    /// A bare name: a variant when one is declared under it, else a binding.
    BareIdent(String, Option<TokenSpan>),
}

/// A type annotation.
pub enum SynType {
    /// A named type, with the span of its name token.
    Ident(Option<String>, Option<TokenSpan>),
    Unit,
    Ref(Option<Box<SynType>>),
    Ptr(Option<Box<SynType>>),
    Array { elem: Option<Box<SynType>>, len: Option<Box<SynExpr>> },
    Fn { params: Vec<Option<SynType>>, ret: Option<Box<SynType>> },
}

} // verus!
