//! The per-function body IR pieces that other passes read: statements,
//! match arms, scalar literals and block-scope constants.

use vstd::prelude::*;

use crate::consts::{parse_int_literal, spec_parse_int_literal, BinOp, ConstValue, UnaryOp};
use crate::errors::TypeError;
use crate::ids::{
    ArenaId, BlockId, ConstId, EnumId, ExprId, FnId, GlobalId, LocalConstId, LocalId, PatId, StmtId, StructId,
};
use crate::items::Global;
use crate::typed_arena::{ArenaMap, TypedArena};
use crate::literal::{decode_char_literal, decoded_char};
use crate::text::{str_chars, str_eq, string_push};
use crate::types::{kind_interned, KindView, TypeInterner, TypeKind, TypeRef};

verus! {

/// A statement of a function body.
#[derive(Debug, Clone, PartialEq, Eq)]
pub enum Stmt {
    /// `let` / `mut` binding: the pattern, its annotation, its initializer.
    Let { pat: PatId, ty: Option<TypeRef>, init: Option<ExprId>, mutable: bool },
    /// An expression statement.
    Expr(ExprId),
    /// A block-scope `const` declaration; its value is already folded into
    /// the body's local constants.
    Const(LocalConstId),
}

/// One arm of a `match`: the pattern, an optional guard, and the body.
#[derive(Debug, Clone, Copy, PartialEq, Eq)]
pub struct MatchArm {
    pub pat: PatId,
    pub guard: Option<ExprId>,
    pub body: ExprId,
}

/// A scalar or string literal as written; a float keeps its source text.
#[derive(Debug, Clone, PartialEq, Eq)]
pub enum Literal {
    Int(u128),
    Float(String),
    String(String),
    Bool(bool),
    Char(char),
}

/// A block-scope constant: its name, declared type, and folded value
/// (`None` when folding failed and was already diagnosed).
#[derive(Debug, Clone, PartialEq, Eq)]
pub struct LocalConst {
    pub name: String,
    pub ty: TypeRef,
    pub value: Option<ConstValue>,
}

/// The kind of a literal token.
#[derive(Debug, Clone, Copy, PartialEq, Eq, Structural)]
pub enum LiteralKind {
    Int,
    Float,
    String,
    Bool,
    Char,
}

/// `s` without a surrounding pair of `q` quotes; `s` itself when it does
/// not both start and end with one.
pub open spec fn strip_quotes(s: Seq<char>, q: char) -> Seq<char> {
    if s.len() >= 2 && s[0] == q && s[s.len() - 1] == q {
        s.subrange(1, s.len() - 1)
    } else {
        s
    }
}

/// The literal a token of kind `kind` and text `text` lowers to: an
/// unparsable integer, a missing kind or a missing token lowers to `0`.
pub open spec fn spec_lower_literal(kind: Option<LiteralKind>, text: Option<Seq<char>>) -> LiteralView {
    match text {
        None => LiteralView::Int(0),
        Some(t) => match kind {
            Some(LiteralKind::Int) => LiteralView::Int(
                match spec_parse_int_literal(t) {
                    Some(v) => v,
                    None => 0,
                },
            ),
            Some(LiteralKind::Float) => LiteralView::Float(t),
            Some(LiteralKind::String) => LiteralView::String(strip_quotes(t, '"')),
            Some(LiteralKind::Bool) => LiteralView::Bool(t == "true"@),
            Some(LiteralKind::Char) => LiteralView::Char(decoded_char(strip_quotes(t, '\''))),
            None => LiteralView::Int(0),
        },
    }
}

/// A [`Literal`] as a value.
pub enum LiteralView {
    Int(u128),
    Float(Seq<char>),
    String(Seq<char>),
    Bool(bool),
    Char(char),
}

impl View for Literal {
    type V = LiteralView;

    open spec fn view(&self) -> LiteralView {
        match self {
            Literal::Int(v) => LiteralView::Int(*v),
            Literal::Float(t) => LiteralView::Float(t@),
            Literal::String(t) => LiteralView::String(t@),
            Literal::Bool(b) => LiteralView::Bool(*b),
            Literal::Char(c) => LiteralView::Char(*c),
        }
    }
}

/// The text of `s` without a surrounding pair of `q` quotes.
fn unquote(s: &str, q: char) -> (r: String)
    ensures
        r@ == strip_quotes(s@, q),
{
    let cs = str_chars(s);
    let n = cs.len();
    if n >= 2 && cs[0] == q && cs[n - 1] == q {
        let mut r = String::new();
        let mut i: usize = 1;
        while i < n - 1
            invariant
                cs@ == s@,
                n == cs@.len(),
                n >= 2,
                1 <= i <= n - 1,
                r@ == cs@.subrange(1, i as int),
            decreases n - 1 - i,
        {
            string_push(&mut r, cs[i]);
            i = i + 1;
            assert(r@ =~= cs@.subrange(1, i as int));
        }
        r
    } else {
        s.to_owned()
    }
}

/// Lowers a literal token (its kind and text, when there is a token).
pub fn lower_literal(kind: Option<LiteralKind>, text: Option<&str>) -> (l: Literal)
    ensures
        l@ == spec_lower_literal(
            kind,
            match text {
                Some(t) => Some(t@),
                None => None,
            },
        ),
{
    let t = match text {
        Some(t) => t,
        None => return Literal::Int(0),
    };
    match kind {
        Some(LiteralKind::Int) => match parse_int_literal(t) {
            Some(v) => Literal::Int(v),
            None => Literal::Int(0),
        },
        Some(LiteralKind::Float) => Literal::Float(t.to_owned()),
        Some(LiteralKind::String) => Literal::String(unquote(t, '"')),
        Some(LiteralKind::Bool) => Literal::Bool(str_eq(t, "true")),
        Some(LiteralKind::Char) => {
            let inner = unquote(t, '\'');
            Literal::Char(decode_char_literal(inner.as_str()))
        },
        None => Literal::Int(0),
    }
}

/// The diagnostic for a char literal outside ASCII: `char` is one byte.
pub fn check_char_literal(lit: &Literal) -> (e: Option<TypeError>)
    ensures
        e == (match lit {
            Literal::Char(c) => if (*c as u32) >= 0x80 {
                Some(TypeError::CharLiteralNotAscii { ch: *c })
            } else {
                None
            },
            _ => None,
        }),
{
    match lit {
        Literal::Char(c) => {
            if (*c as u32) >= 0x80 {
                Some(TypeError::CharLiteralNotAscii { ch: *c })
            } else {
                None
            }
        },
        _ => None,
    }
}

/// One field binding of a struct pattern: the field projected and the
/// local it binds.
#[derive(Debug, Clone, PartialEq, Eq)]
pub struct StructPatBinding {
    pub field: String,
    pub local: LocalId,
}

/// A pattern of a `let` or a match arm.
#[derive(Debug, Clone, PartialEq, Eq)]
pub enum Pat {
    /// A binding of a local.
    Bind(LocalId),
    /// A variant of an enum.
    Variant { enum_id: EnumId, idx: u32 },
    /// An integer, char or bool literal, matched by equality.
    Literal(Literal),
    /// A struct destructure binding every field.
    Struct { ty: String, fields: Vec<StructPatBinding> },
    /// `_`.
    Wildcard,
    Missing,
}

/// What a name in value position resolved to.
#[derive(Debug, Clone, PartialEq, Eq)]
pub enum Resolution {
    Local(LocalId),
    Fn(FnId),
    Struct(StructId),
    Enum(EnumId),
    /// A top-level constant: a value with no address.
    Const(ConstId),
    /// A block-scope constant.
    LocalConst(LocalConstId),
    /// A top-level global: addressable static storage.
    Global(GlobalId),
    /// A variant of an enum, by the enum and the variant's position.
    Variant { enum_id: EnumId, idx: u32 },
    /// Nothing of that name; the name as written.
    Unresolved(String),
}

/// A compound-assignment operator (`=`, `+=`, ...).
#[derive(Debug, Clone, Copy, PartialEq, Eq, Structural)]
pub enum AssignOp {
    Assign,
    Add,
    Sub,
    Mul,
    Div,
    Rem,
    BitAnd,
    BitOr,
    BitXor,
    Shl,
    Shr,
}

/// One `name: value` field of a struct literal.
#[derive(Debug, Clone, PartialEq, Eq)]
pub struct StructLitField {
    pub name: String,
    pub value: ExprId,
}

/// A local binding of a body: its name, its declared type if any, whether
/// it is `mut`, and the pattern that binds it.
#[derive(Debug, Clone, PartialEq, Eq)]
pub struct Local {
    pub name: String,
    pub ty: Option<TypeRef>,
    pub mutable: bool,
    pub pat: PatId,
}

/// A block: its statements and optional tail expression.
#[derive(Debug, Clone, PartialEq, Eq)]
pub struct Block {
    pub stmts: Vec<StmtId>,
    pub tail: Option<ExprId>,
}

/// An expression of a body; children are arena indices.
#[derive(Debug, Clone, PartialEq, Eq)]
pub enum Expr {
    Missing,
    Literal(Literal),
    Path(Resolution),
    Binary { op: BinOp, lhs: ExprId, rhs: ExprId },
    Unary { op: UnaryOp, operand: ExprId },
    Call { callee: ExprId, args: Vec<ExprId> },
    ArrayLit(Vec<ExprId>),
    ArrayRepeat { value: ExprId, count: u64 },
    Index { base: ExprId, index: ExprId },
    StructLit { ty: TypeRef, fields: Vec<StructLitField> },
    Field { base: ExprId, name: String },
    Assign { op: AssignOp, lhs: ExprId, rhs: ExprId },
    If { cond: ExprId, then_branch: BlockId, else_branch: Option<BlockId> },
    Loop { body: BlockId },
    Break,
    Continue,
    Return(Option<ExprId>),
    Ref { operand: ExprId },
    Deref { operand: ExprId },
    Cast { operand: ExprId, ty: TypeRef },
    Match { scrut: ExprId, arms: Vec<MatchArm> },
    SizeOf(TypeRef),
    /// The `len` intrinsic over a place: a compile-time `usize` read from the
    /// operand's array type; the operand is never evaluated.
    Len(ExprId),
    Block(BlockId),
}

/// The guard (if any) and body of each arm, in order.
pub open spec fn arm_children(arms: Seq<MatchArm>) -> Seq<ExprId>
    decreases arms.len(),
{
    if arms.len() == 0 {
        seq![]
    } else {
        arm_children(arms.drop_last()) + match arms.last().guard {
            Some(g) => seq![g, arms.last().body],
            None => seq![arms.last().body],
        }
    }
}

/// The direct expression children of `e`, in evaluation order; what a
/// block holds is left to the block.
pub open spec fn spec_child_exprs(e: Expr) -> Seq<ExprId> {
    match e {
        Expr::Binary { lhs, rhs, .. } => seq![lhs, rhs],
        Expr::Assign { lhs, rhs, .. } => seq![lhs, rhs],
        Expr::Unary { operand, .. } => seq![operand],
        Expr::Ref { operand } => seq![operand],
        Expr::Deref { operand } => seq![operand],
        Expr::Len(operand) => seq![operand],
        Expr::Cast { operand, .. } => seq![operand],
        Expr::Return(v) => match v {
            Some(x) => seq![x],
            None => seq![],
        },
        Expr::Call { callee, args } => seq![callee] + args@,
        Expr::ArrayLit(elems) => elems@,
        Expr::ArrayRepeat { value, .. } => seq![value],
        Expr::Index { base, index } => seq![base, index],
        Expr::StructLit { fields, .. } => fields@.map_values(|f: StructLitField| f.value),
        Expr::Field { base, .. } => seq![base],
        Expr::If { cond, .. } => seq![cond],
        Expr::Match { scrut, arms } => seq![scrut] + arm_children(arms@),
        _ => seq![],
    }
}

fn push_all(out: &mut Vec<ExprId>, v: &Vec<ExprId>)
    ensures
        final(out)@ == old(out)@ + v@,
{
    let mut i: usize = 0;
    while i < v.len()
        invariant
            i <= v@.len(),
            out@ == old(out)@ + v@.take(i as int),
        decreases v@.len() - i,
    {
        out.push(v[i]);
        i = i + 1;
        assert(out@ =~= old(out)@ + v@.take(i as int));
    }
    assert(v@.take(v@.len() as int) =~= v@);
}

impl Expr {
    /// The direct expression children, in evaluation order (a block's
    /// contents are reached through its block).
    pub fn child_exprs(&self) -> (out: Vec<ExprId>)
        ensures
            out@ == spec_child_exprs(*self),
    {
        let mut out: Vec<ExprId> = Vec::new();
        match self {
            Expr::Binary { lhs, rhs, .. } | Expr::Assign { lhs, rhs, .. } => {
                out.push(*lhs);
                out.push(*rhs);
            },
            Expr::Unary { operand, .. } | Expr::Ref { operand } | Expr::Deref { operand } | Expr::Len(operand)
            | Expr::Cast { operand, .. } => {
                out.push(*operand);
            },
            Expr::Return(value) => {
                if let Some(v) = value {
                    out.push(*v);
                }
            },
            Expr::Call { callee, args } => {
                out.push(*callee);
                push_all(&mut out, args);
            },
            Expr::ArrayLit(elems) => {
                push_all(&mut out, elems);
            },
            Expr::ArrayRepeat { value, .. } => {
                out.push(*value);
            },
            Expr::Index { base, index } => {
                out.push(*base);
                out.push(*index);
            },
            Expr::StructLit { fields, .. } => {
                let mut i: usize = 0;
                while i < fields.len()
                    invariant
                        i <= fields@.len(),
                        out@ == fields@.take(i as int).map_values(|f: StructLitField| f.value),
                    decreases fields@.len() - i,
                {
                    out.push(fields[i].value);
                    i = i + 1;
                    assert(out@ =~= fields@.take(i as int).map_values(|f: StructLitField| f.value));
                }
                assert(fields@.take(fields@.len() as int) =~= fields@);
            },
            Expr::Field { base, .. } => {
                out.push(*base);
            },
            Expr::If { cond, .. } => {
                out.push(*cond);
            },
            Expr::Match { scrut, arms } => {
                out.push(*scrut);
                let mut i: usize = 0;
                while i < arms.len()
                    invariant
                        i <= arms@.len(),
                        out@ == seq![*scrut] + arm_children(arms@.take(i as int)),
                    decreases arms@.len() - i,
                {
                    let ghost before = out@;
                    let arm = arms[i];
                    if let Some(g) = arm.guard {
                        out.push(g);
                    }
                    out.push(arm.body);
                    proof {
                        let t = arms@.take(i + 1);
                        assert(t.drop_last() =~= arms@.take(i as int));
                        assert(t.last() == arm);
                        assert(out@ =~= seq![*scrut] + arm_children(t));
                    }
                    i = i + 1;
                }
                assert(arms@.take(arms@.len() as int) =~= arms@);
            },
            _ => {},
        }
        assert(out@ =~= spec_child_exprs(*self));
        out
    }

    /// Whether this expression names a place that can be written or
    /// addressed: a local, a field, an element, or a dereference.
    pub fn is_place_expr(&self) -> (b: bool)
        ensures
            b == (*self matches Expr::Path(Resolution::Local(_)) || *self is Field || *self is Index
                || *self is Deref),
    {
        match self {
            Expr::Path(Resolution::Local(_)) | Expr::Field { .. } | Expr::Index { .. } | Expr::Deref { .. } => true,
            _ => false,
        }
    }
}

/// Every field or index expression's base comes earlier in the arena (a
/// body is lowered children first).
pub open spec fn bases_first(exprs: Seq<Expr>) -> bool {
    forall|i: int|
        0 <= i < exprs.len() ==> match #[trigger] exprs[i] {
            Expr::Field { base, .. } => (base.0 as int) < i,
            Expr::Index { base, .. } => (base.0 as int) < i,
            _ => true,
        }
}

/// The immutable binding an assignment to `place` writes: the local or
/// global its field/index projections root in, when that binding is not
/// `mut` (`globals`: each global's name and mutability).
pub open spec fn spec_immutable_target(
    exprs: Seq<Expr>,
    locals: Seq<Local>,
    globals: Seq<(Seq<char>, bool)>,
    place: ExprId,
) -> Option<Seq<char>>
    decreases place.0,
{
    if (place.0 as int) >= exprs.len() {
        None
    } else {
        match exprs[place.0 as int] {
            Expr::Path(Resolution::Local(id)) => if (id.0 as int) < locals.len() && !locals[id.0 as int].mutable {
                Some(locals[id.0 as int].name@)
            } else {
                None
            },
            Expr::Path(Resolution::Global(g)) => if (g.0 as int) < globals.len() && !globals[g.0 as int].1 {
                Some(globals[g.0 as int].0)
            } else {
                None
            },
            Expr::Field { base, .. } => if base.0 < place.0 {
                spec_immutable_target(exprs, locals, globals, base)
            } else {
                None
            },
            Expr::Index { base, .. } => if base.0 < place.0 {
                spec_immutable_target(exprs, locals, globals, base)
            } else {
                None
            },
            _ => None,
        }
    }
}

/// The name of the immutable binding an assignment to `place` writes, if
/// any: a deref writes through a pointer and is not tracked.
pub fn immutable_assign_target(
    exprs: &TypedArena<Expr, ExprId>,
    locals: &TypedArena<Local, LocalId>,
    globals: &TypedArena<Global, GlobalId>,
    place: ExprId,
) -> (r: Option<String>)
    requires
        bases_first(exprs@),
        (place.0 as int) < exprs@.len(),
        forall|i: int|
            0 <= i < exprs@.len() ==> match #[trigger] exprs@[i] {
                Expr::Path(Resolution::Local(id)) => (id.0 as int) < locals@.len(),
                Expr::Path(Resolution::Global(g)) => (g.0 as int) < globals@.len(),
                _ => true,
            },
    ensures
        match spec_immutable_target(
            exprs@,
            locals@,
            globals@.map_values(|g: Global| (g.name@, g.mutable)),
            place,
        ) {
            Some(n) => r matches Some(s) && s@ == n,
            None => r is None,
        },
    decreases place.0,
{
    let ghost gs = globals@.map_values(|g: Global| (g.name@, g.mutable));
    let e = exprs.get(place);
    assert(*e == exprs@[place.0 as int]);
    match e {
        Expr::Path(Resolution::Local(id)) => {
            let local = locals.get(*id);
            if !local.mutable {
                Some(local.name.clone())
            } else {
                None
            }
        },
        Expr::Path(Resolution::Global(g)) => {
            let global = globals.get(*g);
            assert(gs[g.0 as int] == (global.name@, global.mutable));
            if !global.mutable {
                Some(global.name.clone())
            } else {
                None
            }
        },
        Expr::Field { base, .. } | Expr::Index { base, .. } => immutable_assign_target(exprs, locals, globals, *base),
        _ => None,
    }
}

/// A function body: its expressions, statements, patterns, locals, blocks
/// and block-scope constants by arena handle, its top-level statements and
/// tail, and the type recorded for each expression that has one.
pub struct Body {
    pub exprs: TypedArena<Expr, ExprId>,
    pub stmts: TypedArena<Stmt, StmtId>,
    pub pats: TypedArena<Pat, PatId>,
    pub locals: TypedArena<Local, LocalId>,
    pub block: Vec<StmtId>,
    pub tail: Option<ExprId>,
    pub blocks: TypedArena<Block, BlockId>,
    pub expr_types: ArenaMap<ExprId, TypeRef>,
    pub local_consts: TypedArena<LocalConst, LocalConstId>,
}

impl Default for Body {
    /// An empty body.
    fn default() -> (b: Body)
        ensures
            b.exprs@.len() == 0,
            b.stmts@.len() == 0,
            b.pats@.len() == 0,
            b.locals@.len() == 0,
            b.block@.len() == 0,
            b.tail is None,
            b.blocks@.len() == 0,
            b.expr_types@ == Map::<nat, TypeRef>::empty(),
            b.local_consts@.len() == 0,
    {
        Body {
            exprs: TypedArena::new(),
            stmts: TypedArena::new(),
            pats: TypedArena::new(),
            locals: TypedArena::new(),
            block: Vec::new(),
            tail: None,
            blocks: TypedArena::new(),
            expr_types: ArenaMap::new(),
            local_consts: TypedArena::new(),
        }
    }
}

impl Body {
    /// Allocates `expr` with its type recorded.
    pub fn alloc_expr_with_type(&mut self, expr: Expr, ty: TypeRef) -> (id: ExprId)
        requires
            old(self).exprs@.len() < u32::MAX,
        ensures
            id.0 == old(self).exprs@.len(),
            final(self).exprs@ == old(self).exprs@.push(expr),
            final(self).expr_types@ == old(self).expr_types@.insert(id.0 as nat, ty),
            final(self).stmts == old(self).stmts,
            final(self).pats == old(self).pats,
            final(self).locals == old(self).locals,
            final(self).block == old(self).block,
            final(self).tail == old(self).tail,
            final(self).blocks == old(self).blocks,
            final(self).local_consts == old(self).local_consts,
    {
        let id = self.exprs.allocate(expr);
        self.expr_types.insert(id, ty);
        id
    }

    /// The type recorded for the tail expression of block `id`, if it has a
    /// tail and the tail a type.
    pub fn block_tail_type(&self, id: BlockId) -> (r: Option<TypeRef>)
        requires
            (id.0 as int) < self.blocks@.len(),
        ensures
            match self.blocks@[id.0 as int].tail {
                Some(t) => if self.expr_types@.contains_key(t.0 as nat) {
                    r == Some(self.expr_types@[t.0 as nat])
                } else {
                    r is None
                },
                None => r is None,
            },
    {
        match self.blocks.get(id).tail {
            Some(t) => self.expr_types.get(t),
            None => None,
        }
    }
}

/// The name of a literal's default type.
pub open spec fn literal_default_type(lit: Literal) -> Seq<char> {
    match lit {
        Literal::Int(_) => "int32"@,
        Literal::Float(_) => "float64"@,
        Literal::String(_) => "string"@,
        Literal::Bool(_) => "bool"@,
        Literal::Char(_) => "char"@,
    }
}

/// The default type of a literal: `int32`, `float64`, `string`, `bool` or
/// `char`, interned.
pub fn literal_type(lit: &Literal, types: &mut TypeInterner) -> (t: TypeRef)
    requires
        old(types).wf(),
        old(types)@.len() < u32::MAX,
    ensures
        final(types).wf(),
        (final(types)@, t.0 as int) == kind_interned(old(types)@, KindView::Path(literal_default_type(*lit))),
{
    let name = match lit {
        Literal::Int(_) => "int32",
        Literal::Float(_) => "float64",
        Literal::String(_) => "string",
        Literal::Bool(_) => "bool",
        Literal::Char(_) => "char",
    };
    types.intern(TypeKind::Path(name.to_owned()))
}

} // verus!
