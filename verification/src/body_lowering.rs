//! Lowering a function body from its syntax tree into the body arenas:
//! every expression, statement, block and pattern becomes an arena entry
//! whose children were allocated before it, names resolve against the
//! lexical scopes and the item scope, and the judgments of the lowering
//! pass report their diagnostics on the way.

use vstd::prelude::*;

use crate::body::{
    bases_first, check_char_literal, lower_literal, spec_lower_literal, Block, Body, Expr, Literal, Local,
    LocalConst, MatchArm, Pat, Resolution, Stmt, StructLitField,
};
use crate::body::LiteralKind;
use crate::consts::{
    apply_binary, apply_cast, apply_unary, folded_array_len, literal_array_len, parse_int_literal,
    spec_apply_binary, spec_apply_cast, spec_apply_unary, spec_folded_array_len, spec_literal_array_len,
    spec_parse_int_literal, ConstValue, UnaryOp,
};
use crate::errors::{ConstError, HirError, ResolveError, TypeError};
use crate::ids::{BlockId, ConstId, ExprId, FnId, LocalConstId, LocalId, PatId, StmtId};
use crate::interner::name_table_get;
use crate::items::{items_wf, resolve, resolves_to, ItemsView, ScopeMaps, HIR};
use crate::lowering::{
    local_view, alloc_bind_pat, assign_to_const_error, bare_pat_variant, call_arity_error, len_intrinsic_error, lower_destructure,
    lower_let_binding, lower_local_const, path_pat, ref_operand_error, struct_lit_field_errors,
    struct_lit_name_error, value_use_error, variant_access,
};
use crate::checks::{check_println_args, unknown_names_list, unknown_names_of, unknown_type_names};
use crate::body::immutable_assign_target;
use crate::scopes::{spec_lookup, Binding, Scopes};
use crate::body::strip_quotes;
use crate::text::{str_chars, str_eq};
use crate::typed_arena::TypedArena;
use crate::tree::{SynArm, SynBlock, SynExpr, SynField, SynLiteral, SynPat, SynStmt, SynType};
use crate::types::{kind_interned, KindView, TypeInterner, TypeKind, TypeRef};

verus! {

/// What lowering one body works on: the body's arenas, the lexical scope
/// stack, and the diagnostics reported so far.
pub struct BodyCtx {
    pub body: Body,
    pub scopes: Scopes,
    pub diagnostics: Vec<HirError>,
}

/// The arenas of a body under construction, as values, with the number of
/// block-scope constants and interned types, the type table, and the
/// diagnostics reported so far.
pub struct Shape {
    pub exprs: Seq<Expr>,
    pub stmts: Seq<Stmt>,
    pub pats: Seq<Pat>,
    pub blocks: Seq<Block>,
    pub locals: Seq<(Seq<char>, Option<TypeRef>, bool, PatId)>,
    pub nconsts: nat,
    pub lconsts: Seq<Seq<char>>,
    pub ntypes: nat,
    pub kinds: Seq<KindView>,
    pub diags: Seq<HirError>,
}

impl BodyCtx {
    pub open spec fn shape(&self, types: TypeInterner) -> Shape {
        Shape {
            exprs: self.body.exprs@,
            stmts: self.body.stmts@,
            pats: self.body.pats@,
            blocks: self.body.blocks@,
            locals: self.body.locals@.map_values(|l: Local| local_view(l)),
            nconsts: self.body.local_consts@.len(),
            lconsts: self.body.local_consts@.map_values(|c: LocalConst| c.name@),
            ntypes: types@.len(),
            kinds: types@,
            diags: self.diagnostics@,
        }
    }
}

/// `a` is a prefix of `b`.
pub open spec fn prefix<T>(a: Seq<T>, b: Seq<T>) -> bool {
    a.len() <= b.len() && b.take(a.len() as int) == a
}

/// `b` holds everything `a` holds, in place, and possibly more.
pub open spec fn extends(a: Shape, b: Shape) -> bool {
    &&& prefix(a.exprs, b.exprs)
    &&& prefix(a.stmts, b.stmts)
    &&& prefix(a.pats, b.pats)
    &&& prefix(a.blocks, b.blocks)
    &&& prefix(a.locals, b.locals)
    &&& a.nconsts <= b.nconsts
    &&& prefix(a.lconsts, b.lconsts)
    &&& a.ntypes <= b.ntypes
    &&& prefix(a.kinds, b.kinds)
    &&& prefix(a.diags, b.diags)
}

/// Every arena, and the type table, can take `n` more entries.
pub open spec fn fits(s: Shape, n: nat) -> bool {
    &&& s.exprs.len() + n <= u32::MAX
    &&& s.stmts.len() + n <= u32::MAX
    &&& s.pats.len() + n <= u32::MAX
    &&& s.blocks.len() + n <= u32::MAX
    &&& s.locals.len() + n <= u32::MAX
    &&& s.nconsts + n <= u32::MAX
    &&& s.ntypes + n < u32::MAX
}

/// No arena, and not the type table, grew by more than `n` entries.
pub open spec fn within(a: Shape, b: Shape, n: nat) -> bool {
    &&& b.exprs.len() <= a.exprs.len() + n
    &&& b.stmts.len() <= a.stmts.len() + n
    &&& b.pats.len() <= a.pats.len() + n
    &&& b.blocks.len() <= a.blocks.len() + n
    &&& b.locals.len() <= a.locals.len() + n
    &&& b.nconsts <= a.nconsts + n
    &&& b.ntypes <= a.ntypes + n
}

/// A resolution points into the item arenas of `hir` and the locals and
/// block-scope constants of the body.
pub open spec fn res_ok(r: Resolution, hir: HIR, s: Shape) -> bool {
    match r {
        Resolution::Local(id) => (id.0 as int) < s.locals.len(),
        Resolution::LocalConst(id) => (id.0 as int) < s.nconsts,
        Resolution::Const(id) => (id.0 as int) < hir.consts@.len(),
        Resolution::Global(id) => (id.0 as int) < hir.globals@.len(),
        Resolution::Fn(id) => (id.0 as int) < hir.functions@.len(),
        Resolution::Struct(id) => (id.0 as int) < hir.structs@.len(),
        Resolution::Enum(id) => (id.0 as int) < hir.enums@.len(),
        Resolution::Variant { enum_id, .. } => (enum_id.0 as int) < hir.enums@.len(),
        Resolution::Unresolved(_) => true,
    }
}

/// The expression at position `i`: its child expressions come earlier, and
/// its blocks, patterns, types and resolutions point into their arenas.
pub open spec fn expr_ok(x: Expr, i: int, hir: HIR, s: Shape) -> bool {
    match x {
        Expr::Path(r) => res_ok(r, hir, s),
        Expr::Binary { lhs, rhs, .. } => (lhs.0 as int) < i && (rhs.0 as int) < i,
        Expr::Assign { lhs, rhs, .. } => (lhs.0 as int) < i && (rhs.0 as int) < i,
        Expr::Unary { operand, .. } => (operand.0 as int) < i,
        Expr::Ref { operand } => (operand.0 as int) < i,
        Expr::Deref { operand } => (operand.0 as int) < i,
        Expr::Len(operand) => (operand.0 as int) < i,
        Expr::Cast { operand, ty } => (operand.0 as int) < i && (ty.0 as int) < s.ntypes,
        Expr::Call { callee, args } => (callee.0 as int) < i && forall|k: int|
            0 <= k < args@.len() ==> ((#[trigger] args@[k]).0 as int) < i,
        Expr::ArrayLit(elems) => forall|k: int| 0 <= k < elems@.len() ==> ((#[trigger] elems@[k]).0 as int) < i,
        Expr::ArrayRepeat { value, .. } => (value.0 as int) < i,
        Expr::Index { base, index } => (base.0 as int) < i && (index.0 as int) < i,
        Expr::StructLit { ty, fields } => (ty.0 as int) < s.ntypes && forall|k: int|
            0 <= k < fields@.len() ==> ((#[trigger] fields@[k]).value.0 as int) < i,
        Expr::Field { base, .. } => (base.0 as int) < i,
        Expr::If { cond, then_branch, else_branch } => (cond.0 as int) < i && (then_branch.0 as int)
            < s.blocks.len() && match else_branch {
            Some(b) => (b.0 as int) < s.blocks.len(),
            None => true,
        },
        Expr::Loop { body } => (body.0 as int) < s.blocks.len(),
        Expr::Return(v) => match v {
            Some(x) => (x.0 as int) < i,
            None => true,
        },
        Expr::Match { scrut, arms } => (scrut.0 as int) < i && forall|k: int|
            0 <= k < arms@.len() ==> {
                let a = #[trigger] arms@[k];
                &&& (a.body.0 as int) < i
                &&& (a.pat.0 as int) < s.pats.len()
                &&& match a.guard {
                    Some(g) => (g.0 as int) < i,
                    None => true,
                }
            },
        Expr::SizeOf(ty) => (ty.0 as int) < s.ntypes,
        Expr::Block(b) => (b.0 as int) < s.blocks.len(),
        _ => true,
    }
}

/// A scope binding points into the locals or block-scope constants.
pub open spec fn binding_ok(b: Binding, s: Shape) -> bool {
    match b {
        Binding::Local(id) => (id.0 as int) < s.locals.len(),
        Binding::Const(id) => (id.0 as int) < s.nconsts,
    }
}

/// The lowering state is consistent: every expression is well placed and
/// every scope binding points into the body.
pub open spec fn ctx_wf(ctx: BodyCtx, hir: HIR, types: TypeInterner) -> bool {
    let s = ctx.shape(types);
    &&& forall|i: int| 0 <= i < s.exprs.len() ==> expr_ok(#[trigger] s.exprs[i], i, hir, s)
    &&& forall|f: int, n: Seq<char>|
        0 <= f < ctx.scopes@.len() && #[trigger] ctx.scopes@[f].contains_key(n) ==> binding_ok(
            ctx.scopes@[f][n],
            s,
        )
}

// ---------------------------------------------------------------------------
// What a lowered tree looks like.

/// The literal a token lowers to.
pub open spec fn literal_of(l: SynLiteral) -> crate::body::LiteralView {
    spec_lower_literal(
        l.kind,
        match l.text {
            Some(t) => Some(t@),
            None => None,
        },
    )
}

/// The expression at `id` is `Missing`.
pub open spec fn missing_at(s: Shape, id: ExprId) -> bool {
    (id.0 as int) < s.exprs.len() && s.exprs[id.0 as int] is Missing
}

/// Why a name may not stand where a value is read.
pub enum NameErr {
    EnumName,
    StructName,
    Unresolved,
}

/// What is wrong with the name `n` read as a value under the frames `fr`
/// and the item scope `it` (`callee`: as the callee of a call): an enum or
/// struct name is no value, and a name nothing declares is unresolved unless
/// it is an intrinsic called by name.
pub open spec fn name_error(fr: Seq<Map<Seq<char>, Binding>>, it: ScopeMaps, n: Seq<char>, callee: bool) -> Option<
    NameErr,
> {
    if spec_lookup(fr, n) is Some {
        None
    } else if it.consts.contains_key(n) || it.globals.contains_key(n) || it.functions.contains_key(n) {
        None
    } else if it.structs.contains_key(n) {
        Some(NameErr::StructName)
    } else if it.enums.contains_key(n) {
        Some(NameErr::EnumName)
    } else if it.variants.contains_key(n) {
        None
    } else if callee && crate::lowering::is_intrinsic_name(n) {
        None
    } else {
        Some(NameErr::Unresolved)
    }
}

/// `e` reports the name error `k` about `n`.
pub open spec fn is_name_err(e: HirError, k: NameErr, n: Seq<char>) -> bool {
    match k {
        NameErr::EnumName => e matches HirError::Resolve(ResolveError::EnumNameAsValue { name }) && name@ == n,
        NameErr::StructName => e matches HirError::Resolve(ResolveError::StructNameAsValue { name }) && name@ == n,
        NameErr::Unresolved => e matches HirError::Resolve(ResolveError::UnresolvedName { name }) && name@ == n,
    }
}

/// The diagnostics hold the name error `k` about `n`.
pub open spec fn name_reported(diags: Seq<HirError>, k: NameErr, n: Seq<char>) -> bool {
    exists|i: int| 0 <= i < diags.len() && is_name_err(#[trigger] diags[i], k, n)
}

/// The name `n` read as a value lowers to the path its resolution gives,
/// or, when it may not stand as a value, to `Missing` with its error
/// reported.
pub open spec fn name_lowered(
    n: Seq<char>,
    callee: bool,
    s: Shape,
    id: ExprId,
    fr: Seq<Map<Seq<char>, Binding>>,
    it: ScopeMaps,
) -> bool {
    &&& (id.0 as int) < s.exprs.len()
    &&& match name_error(fr, it, n, callee) {
        Some(k) => s.exprs[id.0 as int] is Missing && name_reported(s.diags, k, n),
        None => s.exprs[id.0 as int] matches Expr::Path(r) && resolves_to(fr, it, n, r),
    }
}

/// Nothing the frames or the item scope hold is named `n`.
pub open spec fn unbound(fr: Seq<Map<Seq<char>, Binding>>, it: ScopeMaps, n: Seq<char>) -> bool {
    &&& spec_lookup(fr, n) is None
    &&& !it.consts.contains_key(n)
    &&& !it.globals.contains_key(n)
    &&& !it.functions.contains_key(n)
    &&& !it.structs.contains_key(n)
    &&& !it.enums.contains_key(n)
    &&& !it.variants.contains_key(n)
}

/// A shorthand struct-literal field `n` lowers to the path its resolution
/// gives, or, when nothing is named `n`, to `Missing` with the unresolved
/// name reported.
pub open spec fn shorthand_lowered(
    n: Seq<char>,
    s: Shape,
    id: ExprId,
    fr: Seq<Map<Seq<char>, Binding>>,
    it: ScopeMaps,
) -> bool {
    &&& (id.0 as int) < s.exprs.len()
    &&& if unbound(fr, it, n) {
        s.exprs[id.0 as int] is Missing && name_reported(s.diags, NameErr::Unresolved, n)
    } else {
        s.exprs[id.0 as int] matches Expr::Path(r) && resolves_to(fr, it, n, r)
    }
}

/// A child slot: the lowered child, or `Missing` where the tree has none.
pub open spec fn boxed_lowered(e: Option<Box<SynExpr>>, s: Shape, id: ExprId, fr: Seq<Map<Seq<char>, Binding>>, h: HIR) -> bool
    decreases e,
{
    match e {
        Some(b) => lowered(*b, s, id, fr, h),
        None => missing_at(s, id),
    }
}

/// An optional child slot, unboxed.
pub open spec fn opt_lowered(e: Option<SynExpr>, s: Shape, id: ExprId, fr: Seq<Map<Seq<char>, Binding>>, h: HIR) -> bool
    decreases e,
{
    match e {
        Some(x) => lowered(x, s, id, fr, h),
        None => missing_at(s, id),
    }
}

/// The callee slot of a call: a bare name is read as a callee, where the
/// intrinsics may stand undeclared.
pub open spec fn callee_lowered(e: Option<Box<SynExpr>>, s: Shape, id: ExprId, fr: Seq<Map<Seq<char>, Binding>>, h: HIR) -> bool
    decreases e,
{
    match e {
        Some(b) => match *b {
            SynExpr::NameRef(n) => name_lowered(n@, true, s, id, fr, h.items@),
            other => lowered(other, s, id, fr, h),
        },
        None => missing_at(s, id),
    }
}

/// The callee of a call is the bare name `n`.
pub open spec fn callee_named(callee: Option<Box<SynExpr>>, n: Seq<char>) -> bool {
    callee matches Some(c) && *c matches SynExpr::NameRef(m) && m@ == n
}

/// The diagnostics hold `e`.
pub open spec fn reported(diags: Seq<HirError>, e: HirError) -> bool {
    exists|i: int| 0 <= i < diags.len() && diags[i] == e
}

/// A char literal outside ASCII is reported.
pub open spec fn literal_reported(lit: Literal, diags: Seq<HirError>) -> bool {
    match lit {
        Literal::Char(c) => (c as u32) >= 0x80 ==> reported(diags, HirError::Type(TypeError::CharLiteralNotAscii { ch: c })),
        _ => true,
    }
}

/// `e` reports `n` as a name that names no type.
pub open spec fn is_unknown_type_err(e: HirError, n: Seq<char>) -> bool {
    e matches HirError::Resolve(ResolveError::UnknownTypeName { name }) && name@ == n
}

/// The diagnostics report `n` as a name that names no type.
pub open spec fn type_name_reported(diags: Seq<HirError>, n: Seq<char>) -> bool {
    exists|i: int| 0 <= i < diags.len() && is_unknown_type_err(#[trigger] diags[i], n)
}

/// The type at `t` is in the type table, and each name in it that names
/// no type of `h` is reported.
pub open spec fn type_names_reported(s: Shape, t: TypeRef, h: HIR) -> bool {
    &&& (t.0 as int) < s.kinds.len()
    &&& forall|j: int|
        0 <= j < unknown_names_of(s.kinds, h.items@, t).len() ==> type_name_reported(
            s.diags,
            #[trigger] unknown_names_of(s.kinds, h.items@, t)[j],
        )
}

/// What is wrong with a `println` call whose lowered arguments are `args`:
/// no format string, or a string literal format whose placeholders do not
/// match the arguments after it.
pub open spec fn println_error_of(s: Shape, args: Seq<ExprId>) -> Option<TypeError> {
    if args.len() == 0 {
        Some(TypeError::PrintlnMissingFormat)
    } else {
        let fmt = if (args[0].0 as int) < s.exprs.len() {
            match s.exprs[args[0].0 as int] {
                Expr::Literal(Literal::String(t)) => Some(t@),
                _ => None,
            }
        } else {
            None
        };
        match crate::checks::spec_println_error(args.len(), fmt) {
            Some((p, a)) => Some(TypeError::PrintlnArityMismatch { placeholders: p as usize, args: a as usize }),
            None => None,
        }
    }
}

/// A call of the `println` intrinsic (the callee names nothing declared)
/// reports what is wrong with its arguments.
pub open spec fn println_reported(s: Shape, callee: Option<Box<SynExpr>>, c: ExprId, args: Seq<ExprId>) -> bool {
    (callee_named(callee, "println"@) && (c.0 as int) < s.exprs.len() && (s.exprs[c.0 as int] matches Expr::Path(
        Resolution::Unresolved(_),
    ))) ==> match println_error_of(s, args) {
        Some(e) => reported(s.diags, HirError::Type(e)),
        None => true,
    }
}

/// The call's callee is the bare name `n`, which nothing in the frames `fr`
/// or the item scope `it` declares: a call of the intrinsic `n`.
pub open spec fn intrinsic_call(callee: Option<Box<SynExpr>>, fr: Seq<Map<Seq<char>, Binding>>, it: ScopeMaps, n: Seq<char>) -> bool {
    callee_named(callee, n) && unbound(fr, it, n)
}

/// The type `sizeof` with the arguments `args` measures, interned at `t`:
/// the named type of its one bare-name argument; otherwise the error type,
/// with a wrong argument count or an argument that is no type name
/// reported.
pub open spec fn sizeof_lowered(args: Seq<SynExpr>, s: Shape, t: TypeRef) -> bool {
    &&& (t.0 as int) < s.kinds.len()
    &&& if args.len() != 1 {
        s.kinds[t.0 as int] == KindView::Error && reported(
            s.diags,
            HirError::Type(TypeError::SizeofArity { found: args.len() as usize }),
        )
    } else {
        match args[0] {
            SynExpr::NameRef(n) => s.kinds[t.0 as int] == KindView::Path(n@),
            _ => s.kinds[t.0 as int] == KindView::Error && reported(s.diags, HirError::Type(TypeError::SizeofNotAType)),
        }
    }
}

/// `e` reports that the function `f` was called with `found` arguments
/// against the parameters it declares.
pub open spec fn is_arity_err(e: HirError, f: crate::items::Function, found: nat) -> bool {
    e matches HirError::Type(TypeError::CallArityMismatch { name, expected, found: got, variadic }) && name@ == f.name@
        && expected == f.params@.len() && got == found && variadic == f.variadic
}

/// When the callee at `c` is the function `f` of `h`, a call with `found`
/// arguments that does not fit its parameters is reported.
pub open spec fn arity_reported(s: Shape, c: ExprId, found: nat, h: HIR) -> bool {
    (c.0 as int) < s.exprs.len() ==> match s.exprs[c.0 as int] {
        Expr::Path(Resolution::Fn(f)) => (f.0 as int) < h.functions@.len() ==> {
            let fd = h.functions@[f.0 as int];
            crate::lowering::arity_bad(fd.params@.len(), found, fd.variadic) ==> exists|i: int|
                0 <= i < s.diags.len() && is_arity_err(#[trigger] s.diags[i], fd, found)
        },
        _ => true,
    }
}

/// `e` reports an assignment to the constant `n`.
pub open spec fn is_assign_to_const(e: HirError, n: Seq<char>) -> bool {
    e matches HirError::Const(ConstError::AssignToConst { name }) && name@ == n
}

/// The diagnostics report an assignment to the constant `n`.
pub open spec fn assign_to_const_reported(diags: Seq<HirError>, n: Seq<char>) -> bool {
    exists|i: int| 0 <= i < diags.len() && is_assign_to_const(#[trigger] diags[i], n)
}

/// An assignment whose target at `l` is a constant (a top-level constant of
/// `h`, or a block-scope constant declared before it) is reported.
pub open spec fn assign_const_reported(s: Shape, l: ExprId, h: HIR) -> bool {
    (l.0 as int) < s.exprs.len() ==> match s.exprs[l.0 as int] {
        Expr::Path(Resolution::Const(c)) => (c.0 as int) < h.consts@.len() ==> assign_to_const_reported(
            s.diags,
            h.consts@[c.0 as int].name@,
        ),
        Expr::Path(Resolution::LocalConst(c)) => (c.0 as int) < s.lconsts.len() && assign_to_const_reported(
            s.diags,
            s.lconsts[c.0 as int],
        ),
        _ => true,
    }
}

/// `e` reports an address taken of a constant or of a value that is no
/// place.
pub open spec fn is_ref_error(e: HirError) -> bool {
    e matches HirError::Const(ConstError::RefOfConst { .. }) || e == HirError::Type(TypeError::RefOfNonPlace)
}

/// The diagnostics report an address taken of a constant or of a value
/// that is no place.
pub open spec fn ref_error_reported(diags: Seq<HirError>) -> bool {
    exists|i: int| 0 <= i < diags.len() && is_ref_error(#[trigger] diags[i])
}

/// `len` of the expression at `op`, which is not a place (a local, a
/// field, an element or a dereference), is reported.
pub open spec fn len_place_reported(s: Shape, op: ExprId) -> bool {
    let x = s.exprs[op.0 as int];
    !(x matches Expr::Path(Resolution::Local(_)) || x is Field || x is Index || x is Deref) ==> reported(
        s.diags,
        HirError::Type(TypeError::LenNotAPlace),
    )
}

/// A struct literal's fields include a positional one.
pub open spec fn has_positional(fs: Seq<SynField>) -> bool {
    exists|k: int| 0 <= k < fs.len() && (#[trigger] fs[k]).name is None
}

/// `e` is the field diagnostic `d` of a struct literal.
pub open spec fn is_lit_diag_err(e: HirError, d: crate::lowering::LitDiag) -> bool {
    e matches HirError::Type(t) && crate::lowering::is_lit_diag(t, d)
}

/// The field diagnostic `d` is reported.
pub open spec fn lit_diag_reported(diags: Seq<HirError>, d: crate::lowering::LitDiag) -> bool {
    exists|i: int| 0 <= i < diags.len() && is_lit_diag_err(#[trigger] diags[i], d)
}

/// Each of the field diagnostics `ds` is reported.
pub open spec fn lit_diags_reported(diags: Seq<HirError>, ds: Seq<crate::lowering::LitDiag>) -> bool {
    forall|k: int| 0 <= k < ds.len() ==> lit_diag_reported(diags, #[trigger] ds[k])
}

/// A struct literal whose name is no struct or union of `h` is reported.
pub open spec fn struct_name_reported(diags: Seq<HirError>, name: Option<String>, h: HIR) -> bool {
    match name {
        Some(n) => !(h.items@.structs.contains_key(n@) || h.items@.unions.contains_key(n@)) ==> exists|i: int|
            0 <= i < diags.len() && (#[trigger] diags[i] matches HirError::Resolve(
                ResolveError::UnknownStructLiteral { name: m },
            ) && m@ == n@),
        None => true,
    }
}

/// `id` is the lowering of `e` under the scope frames `fr` and the items
/// of `h`: an entry of the shape the tree node gives, whose children are
/// the lowerings of the node's children, with every name read as a value
/// resolved (or its error reported), and a call of a declared function
/// with the wrong number of arguments reported.
pub open spec fn lowered(e: SynExpr, s: Shape, id: ExprId, fr: Seq<Map<Seq<char>, Binding>>, h: HIR) -> bool
    decreases e,
{
    &&& (id.0 as int) < s.exprs.len()
    &&& {
        let x = s.exprs[id.0 as int];
        match e {
            SynExpr::Literal(l) => x matches Expr::Literal(lit) && lit@ == literal_of(l) && literal_reported(lit, s.diags),
            SynExpr::NameRef(n) => name_lowered(n@, false, s, id, fr, h.items@),
            SynExpr::Call { callee, args } => if intrinsic_call(callee, fr, h.items@, "sizeof"@) {
                x matches Expr::SizeOf(t) && sizeof_lowered(args@, s, t)
            } else if intrinsic_call(callee, fr, h.items@, "len"@) {
                if args.len() != 1 {
                    x is Missing && reported(s.diags, HirError::Type(TypeError::LenArity { found: args@.len() as usize }))
                } else {
                    x matches Expr::Len(op) && lowered(args[0], s, op, fr, h) && len_place_reported(s, op)
                }
            } else {
                x matches Expr::Call { callee: c, args: a } && callee_lowered(callee, s, c, fr, h) && a@.len()
                    == args.len() && arity_reported(s, c, args@.len(), h) && println_reported(s, callee, c, a@) && forall|k: int|
                    0 <= k < args.len() ==> lowered(args[k], s, #[trigger] a@[k], fr, h)
            },
            SynExpr::ArrayLit(es) => x matches Expr::ArrayLit(a) && a@.len() == es.len() && forall|k: int|
                0 <= k < es.len() ==> lowered(es[k], s, #[trigger] a@[k], fr, h),
            SynExpr::ArrayRepeat { value, .. } => x matches Expr::ArrayRepeat { value: v, .. } && boxed_lowered(
                value,
                s,
                v,
                fr,
                h,
            ),
            SynExpr::Index { base, index } => x matches Expr::Index { base: b, index: i } && boxed_lowered(
                base,
                s,
                b,
                fr,
                h,
            ) && boxed_lowered(index, s, i, fr, h),
            SynExpr::StructLit { name, fields, .. } => x matches Expr::StructLit { fields: fs, .. } && fields_lowered(
                fields@,
                s,
                fs@,
                fr,
                h,
            ) && struct_name_reported(s.diags, name, h) && match name {
                Some(n) => lit_diags_reported(
                    s.diags,
                    crate::lowering::struct_lit_diags(
                        h.items_view(),
                        n@,
                        fs@.map_values(|f: StructLitField| f.name@),
                        has_positional(fields@),
                    ),
                ),
                None => true,
            },
            SynExpr::Binary { op, lhs, rhs } => match op {
                Some(o) => x matches Expr::Binary { op: xo, lhs: l, rhs: r } && xo == o && boxed_lowered(
                    lhs,
                    s,
                    l,
                    fr,
                    h,
                ) && boxed_lowered(rhs, s, r, fr, h),
                None => x is Missing,
            },
            SynExpr::Prefix { op, operand } => match op {
                Some(o) => x matches Expr::Unary { op: xo, operand: v } && xo == o && boxed_lowered(operand, s, v, fr, h),
                None => x is Missing,
            },
            SynExpr::Field { base, name, .. } => match enum_base(base, h) {
                Some(bn) => variant_read(x, s, bn, name@, h),
                None => x matches Expr::Field { base: b, name: n } && n@ == name@ && boxed_lowered(base, s, b, fr, h),
            },
            SynExpr::Assign { op, lhs, rhs } => x matches Expr::Assign { op: xo, lhs: l, rhs: r } && xo == op
                && boxed_lowered(lhs, s, l, fr, h) && boxed_lowered(rhs, s, r, fr, h) && assign_const_reported(s, l, h),
            SynExpr::If { cond, then_branch, else_branch } => x matches Expr::If {
                cond: c,
                then_branch: t,
                else_branch: el,
            } && boxed_lowered(cond, s, c, fr, h) && opt_block_lowered(then_branch, s, t, fr, h) && match else_branch {
                Some(b) => el matches Some(eb) && block_lowered(b, s, eb, fr, h),
                None => el is None,
            },
            SynExpr::Loop(b) => x matches Expr::Loop { body } && opt_block_lowered(b, s, body, fr, h),
            SynExpr::Break => x is Break,
            SynExpr::Continue => x is Continue,
            SynExpr::Return(v) => x matches Expr::Return(r) && match v {
                Some(b) => r matches Some(rid) && lowered(*b, s, rid, fr, h),
                None => r is None,
            },
            SynExpr::Ref(op) => (x is Missing && ref_error_reported(s.diags)) || (x matches Expr::Ref { operand }
                && boxed_lowered(op, s, operand, fr, h) && crate::lowering::ref_place(s.exprs[operand.0 as int])),
            SynExpr::Paren(inner) => boxed_lowered(inner, s, id, fr, h),
            SynExpr::Match { scrut, arms } => x matches Expr::Match { scrut: sc, arms: a } && boxed_lowered(
                scrut,
                s,
                sc,
                fr,
                h,
            ) && a@.len() == arms.len() && forall|k: int|
                0 <= k < arms.len() ==> arm_lowered(arms[k], s, #[trigger] a@[k], fr, h),
            SynExpr::Deref(op) => x matches Expr::Deref { operand } && boxed_lowered(op, s, operand, fr, h),
            SynExpr::Cast { operand, .. } => x matches Expr::Cast { operand: o, ty: t } && boxed_lowered(
                operand,
                s,
                o,
                fr,
                h,
            ) && type_names_reported(s, t, h),
        }
    }
}

/// The lowered fields of a struct literal: the named ones, in order, each
/// with its value lowered (a shorthand field lowers as its name resolves);
/// positional fields are dropped.
pub open spec fn fields_lowered(fs: Seq<SynField>, s: Shape, out: Seq<StructLitField>, fr: Seq<Map<Seq<char>, Binding>>, h: HIR) -> bool
    decreases fs,
{
    if fs.len() == 0 {
        out.len() == 0
    } else {
        let f = fs.last();
        match f.name {
            None => fields_lowered(fs.drop_last(), s, out, fr, h),
            Some(n) => {
                &&& out.len() > 0
                &&& fields_lowered(fs.drop_last(), s, out.drop_last(), fr, h)
                &&& out.last().name@ == n@
                &&& match f.value {
                    Some(v) => lowered(v, s, out.last().value, fr, h),
                    None => shorthand_lowered(n@, s, out.last().value, fr, h.items@),
                }
            },
        }
    }
}

/// A block slot: the lowered block, or an empty block where the tree has
/// none.
pub open spec fn opt_block_lowered(b: Option<SynBlock>, s: Shape, id: BlockId, fr: Seq<Map<Seq<char>, Binding>>, h: HIR) -> bool
    decreases b,
{
    match b {
        Some(blk) => block_lowered(blk, s, id, fr, h),
        None => (id.0 as int) < s.blocks.len() && s.blocks[id.0 as int].stmts@.len() == 0
            && s.blocks[id.0 as int].tail is None,
    }
}

/// The frame `f` with each pattern field of `fs` bound, in order, to the
/// local of the matching binding of `bs` (paired from the end).
pub open spec fn bind_fields(
    f: Map<Seq<char>, Binding>,
    fs: Seq<crate::lowering::PatField>,
    bs: Seq<(Seq<char>, LocalId)>,
) -> Map<Seq<char>, Binding>
    decreases fs.len(),
{
    if fs.len() == 0 || bs.len() == 0 {
        f
    } else {
        bind_fields(f, fs.drop_last(), bs.drop_last()).insert(
            crate::lowering::binding_name(fs.last()),
            Binding::Local(bs.last().1),
        )
    }
}

/// The innermost frame after the statement `st`, lowered at `sid`: a `let`
/// binds its name to its local, a destructure each bound name to its local,
/// a `const` its name to its constant.
pub open spec fn stmt_frame(st: SynStmt, s: Shape, sid: StmtId, f: Map<Seq<char>, Binding>) -> Map<
    Seq<char>,
    Binding,
> {
    if (sid.0 as int) >= s.stmts.len() {
        f
    } else {
        match st {
            SynStmt::Let { name, .. } => match s.stmts[sid.0 as int] {
                Stmt::Let { pat, .. } => if (pat.0 as int) < s.pats.len() {
                    match s.pats[pat.0 as int] {
                        Pat::Bind(l) => f.insert(name@, Binding::Local(l)),
                        _ => f,
                    }
                } else {
                    f
                },
                _ => f,
            },
            SynStmt::Destructure { fields, .. } => match s.stmts[sid.0 as int] {
                Stmt::Let { pat, .. } => if (pat.0 as int) < s.pats.len() {
                    match s.pats[pat.0 as int] {
                        Pat::Struct { fields: bs, .. } => bind_fields(
                            f,
                            fields@,
                            bs@.map_values(|b: crate::body::StructPatBinding| (b.field@, b.local)),
                        ),
                        _ => f,
                    }
                } else {
                    f
                },
                _ => f,
            },
            SynStmt::Const { name, .. } => match s.stmts[sid.0 as int] {
                Stmt::Const(c) => f.insert(name@, Binding::Const(c)),
                _ => f,
            },
            SynStmt::Expr(_) => f,
        }
    }
}

/// The frame of a block after its first `k` statements, lowered at `ids`.
pub open spec fn block_frame(stmts: Seq<SynStmt>, s: Shape, ids: Seq<StmtId>, k: int) -> Map<Seq<char>, Binding>
    decreases k,
{
    if k <= 0 {
        Map::empty()
    } else {
        stmt_frame(stmts[k - 1], s, ids[k - 1], block_frame(stmts, s, ids, k - 1))
    }
}

/// `id` is the lowering of block `b` in a frame of its own: one statement
/// per statement of `b`, in order, each lowered under the frame the
/// statements before it left, and the lowered tail under the final frame.
pub open spec fn block_lowered(b: SynBlock, s: Shape, id: BlockId, fr: Seq<Map<Seq<char>, Binding>>, h: HIR) -> bool
    decreases b,
{
    &&& (id.0 as int) < s.blocks.len()
    &&& {
        let blk = s.blocks[id.0 as int];
        &&& blk.stmts@.len() == b.stmts.len()
        &&& forall|k: int|
            0 <= k < b.stmts.len() ==> stmt_lowered(
                b.stmts[k],
                s,
                #[trigger] blk.stmts@[k],
                fr.push(block_frame(b.stmts@, s, blk.stmts@, k)),
                h,
            )
        &&& match b.tail {
            Some(t) => blk.tail matches Some(tid) && lowered(
                *t,
                s,
                tid,
                fr.push(block_frame(b.stmts@, s, blk.stmts@, b.stmts.len() as int)),
                h,
            ),
            None => blk.tail is None,
        }
    }
}

/// `e` reports that `n` is bound a second time in one block.
pub open spec fn is_duplicate_local(e: HirError, n: Seq<char>) -> bool {
    e matches HirError::Resolve(ResolveError::DuplicateLocal { name }) && name@ == n
}

/// A name bound a second time in one block (under the frames `fr`) is
/// reported.
pub open spec fn rebind_reported(diags: Seq<HirError>, fr: Seq<Map<Seq<char>, Binding>>, n: Seq<char>) -> bool {
    fr.len() > 0 && fr.last().contains_key(n) ==> exists|i: int|
        0 <= i < diags.len() && is_duplicate_local(#[trigger] diags[i], n)
}

/// An initializer slot: the lowered initializer, or none.
pub open spec fn init_lowered(v: Option<SynExpr>, s: Shape, init: Option<ExprId>, fr: Seq<Map<Seq<char>, Binding>>, h: HIR) -> bool
    decreases v,
{
    match v {
        Some(e) => init matches Some(i) && lowered(e, s, i, fr, h),
        None => init is None,
    }
}

/// `id` is the lowering of statement `st` under the frames `fr`.
pub open spec fn stmt_lowered(st: SynStmt, s: Shape, id: StmtId, fr: Seq<Map<Seq<char>, Binding>>, h: HIR) -> bool
    decreases st,
{
    &&& (id.0 as int) < s.stmts.len()
    &&& {
        let x = s.stmts[id.0 as int];
        match st {
            SynStmt::Let { name, ty, mutable, value, .. } => x matches Stmt::Let { pat, init, mutable: m, ty: xt } && m
                == mutable && init_lowered(value, s, init, fr, h) && (pat.0 as int) < s.pats.len() && (s.pats[pat.0 as int] matches Pat::Bind(l)
                && (l.0 as int) < s.locals.len() && s.locals[l.0 as int] == (name@, xt, mutable, pat))
                && rebind_reported(s.diags, fr, name@) && match ty {
                Some(sy) => xt matches Some(t) && type_lowered(sy, s.kinds, t) && type_names_reported(s, t, h),
                None => xt is None && reported(s.diags, HirError::Type(TypeError::MissingTypeAnnotation { name })),
            },
            SynStmt::Destructure { ty, fields, mutable, value } => x matches Stmt::Let {
                pat,
                init,
                mutable: m,
                ty: None,
            } && m == mutable && init_lowered(value, s, init, fr, h) && (pat.0 as int) < s.pats.len() && (s.pats[pat.0 as int] matches Pat::Struct {
                ty: t,
                fields: bs,
            } && t@ == ty@ && bs@.len() == fields@.len()),
            SynStmt::Const { name, .. } => x matches Stmt::Const(c) && (c.0 as int) < s.nconsts && rebind_reported(
                s.diags,
                fr,
                name@,
            ),
            SynStmt::Expr(e) => x matches Stmt::Expr(v) && opt_lowered(e, s, v, fr, h),
        }
    }
}

/// `e` reports that the enum `en` has no variant `vn`.
pub open spec fn is_no_such_variant(e: HirError, en: Seq<char>, vn: Seq<char>) -> bool {
    e matches HirError::Resolve(ResolveError::NoSuchVariant { enum_name, variant }) && enum_name@ == en && variant@
        == vn
}

/// `e` reports that a pattern names `en`, which is no enum.
pub open spec fn is_unknown_enum(e: HirError, en: Seq<char>) -> bool {
    e matches HirError::Resolve(ResolveError::UnknownEnumInPattern { enum_name }) && enum_name@ == en
}

/// The diagnostics report that the enum `en` has no variant `vn`.
pub open spec fn no_such_variant_reported(diags: Seq<HirError>, en: Seq<char>, vn: Seq<char>) -> bool {
    exists|i: int| 0 <= i < diags.len() && is_no_such_variant(#[trigger] diags[i], en, vn)
}

/// The diagnostics report that a pattern names `en`, which is no enum.
pub open spec fn unknown_enum_reported(diags: Seq<HirError>, en: Seq<char>) -> bool {
    exists|i: int| 0 <= i < diags.len() && is_unknown_enum(#[trigger] diags[i], en)
}

/// The bare name a field access reads from, when it names an enum of `h`.
pub open spec fn enum_base(base: Option<Box<SynExpr>>, h: HIR) -> Option<Seq<char>> {
    match base {
        Some(b) => match *b {
            SynExpr::NameRef(n) => if h.items_view().scope.enums.contains_key(n@) {
                Some(n@)
            } else {
                None
            },
            _ => None,
        },
        None => None,
    }
}

/// `x` is what `en.vn` reads, `en` an enum of `h`: the variant it declares
/// under `vn`, or `Missing` with the missing variant reported.
pub open spec fn variant_read(x: Expr, s: Shape, en: Seq<char>, vn: Seq<char>, h: HIR) -> bool {
    let v = h.items_view();
    let eid = v.scope.enums[en];
    let vi = v.enums[eid as int].variant_index;
    if vi.contains_key(vn) {
        x == Expr::Path(Resolution::Variant { enum_id: crate::ids::EnumId(eid), idx: vi[vn] })
    } else {
        x is Missing && no_such_variant_reported(s.diags, en, vn)
    }
}

/// The pattern at `id` is what the arm pattern `p` lowers to under the
/// items of `h`: the same kind of pattern; `Enum.Variant` the variant the
/// enum declares under that name, or `Missing` with the unknown enum or
/// variant reported; a bare name the variant declared under it, or else a
/// binding; and `Missing` where the tree has no pattern.
pub open spec fn pat_lowered(p: Option<SynPat>, s: Shape, id: PatId, h: HIR) -> bool {
    &&& (id.0 as int) < s.pats.len()
    &&& {
        let x = s.pats[id.0 as int];
        match p {
            None => x is Missing,
            Some(SynPat::Wildcard) => x is Wildcard,
            Some(SynPat::Literal(None)) => x is Missing,
            Some(SynPat::Literal(Some(l))) => x matches Pat::Literal(lit) && lit@ == literal_of(l) && literal_reported(lit, s.diags),
            Some(SynPat::Path { qualifier, name, .. }) => {
                let v = h.items_view();
                if v.scope.enums.contains_key(qualifier@) {
                    let eid = v.scope.enums[qualifier@];
                    let vi = v.enums[eid as int].variant_index;
                    if vi.contains_key(name@) {
                        x == Pat::Variant { enum_id: crate::ids::EnumId(eid), idx: vi[name@] }
                    } else {
                        x is Missing && no_such_variant_reported(s.diags, qualifier@, name@)
                    }
                } else {
                    x is Missing && unknown_enum_reported(s.diags, qualifier@)
                }
            },
            Some(SynPat::BareIdent(n, _)) => if h.items@.variants.contains_key(n@) {
                x == Pat::Variant { enum_id: h.items@.variants[n@].0, idx: h.items@.variants[n@].1 }
            } else {
                x is Bind
            },
        }
    }
}

/// The frame `f` after the arm pattern `p`, lowered at `pid`: a bare name
/// that lowered to a binding binds the name to its local.
pub open spec fn pat_frame(p: Option<SynPat>, s: Shape, pid: PatId, f: Map<Seq<char>, Binding>) -> Map<
    Seq<char>,
    Binding,
> {
    match p {
        Some(SynPat::BareIdent(n, _)) => if (pid.0 as int) < s.pats.len() {
            match s.pats[pid.0 as int] {
                Pat::Bind(l) => f.insert(n@, Binding::Local(l)),
                _ => f,
            }
        } else {
            f
        },
        _ => f,
    }
}

/// `arm` is the lowering of the arm `a` under the frames `fr`: the guard
/// and body see a frame of their own holding the pattern's binding.
pub open spec fn arm_lowered(a: SynArm, s: Shape, arm: MatchArm, fr: Seq<Map<Seq<char>, Binding>>, h: HIR) -> bool
    decreases a,
{
    let inner = fr.push(pat_frame(a.pat, s, arm.pat, Map::empty()));
    &&& pat_lowered(a.pat, s, arm.pat, h)
    &&& match a.guard {
        Some(g) => arm.guard matches Some(gid) && opt_lowered(g, s, gid, inner, h),
        None => arm.guard is None,
    }
    &&& opt_lowered(a.body, s, arm.body, inner, h)
}

// ---------------------------------------------------------------------------
// A lowering stays a lowering as the arenas grow.

proof fn lemma_prefix_at<T>(a: Seq<T>, b: Seq<T>, i: int)
    requires
        prefix(a, b),
        0 <= i < a.len(),
    ensures
        b[i] == a[i],
{
    assert(b.take(a.len() as int)[i] == b[i]);
}

proof fn lemma_shape_at(a: Shape, b: Shape)
    requires
        extends(a, b),
    ensures
        forall|i: int| 0 <= i < a.exprs.len() ==> #[trigger] b.exprs[i] == a.exprs[i],
        forall|i: int| 0 <= i < a.stmts.len() ==> #[trigger] b.stmts[i] == a.stmts[i],
        forall|i: int| 0 <= i < a.pats.len() ==> #[trigger] b.pats[i] == a.pats[i],
        forall|i: int| 0 <= i < a.blocks.len() ==> #[trigger] b.blocks[i] == a.blocks[i],
        forall|i: int| 0 <= i < a.locals.len() ==> #[trigger] b.locals[i] == a.locals[i],
{
    assert forall|i: int| 0 <= i < a.locals.len() implies #[trigger] b.locals[i] == a.locals[i] by {
        lemma_prefix_at(a.locals, b.locals, i);
    }
    assert forall|i: int| 0 <= i < a.exprs.len() implies #[trigger] b.exprs[i] == a.exprs[i] by {
        lemma_prefix_at(a.exprs, b.exprs, i);
    }
    assert forall|i: int| 0 <= i < a.stmts.len() implies #[trigger] b.stmts[i] == a.stmts[i] by {
        lemma_prefix_at(a.stmts, b.stmts, i);
    }
    assert forall|i: int| 0 <= i < a.pats.len() implies #[trigger] b.pats[i] == a.pats[i] by {
        lemma_prefix_at(a.pats, b.pats, i);
    }
    assert forall|i: int| 0 <= i < a.blocks.len() implies #[trigger] b.blocks[i] == a.blocks[i] by {
        lemma_prefix_at(a.blocks, b.blocks, i);
    }
}

proof fn lemma_reported_grow(a: Seq<HirError>, b: Seq<HirError>, e: HirError)
    requires
        prefix(a, b),
        reported(a, e),
    ensures
        reported(b, e),
{
    let i = choose|i: int| 0 <= i < a.len() && a[i] == e;
    lemma_prefix_at(a, b, i);
}

proof fn lemma_name_reported_grow(a: Seq<HirError>, b: Seq<HirError>, k: NameErr, n: Seq<char>)
    requires
        prefix(a, b),
        name_reported(a, k, n),
    ensures
        name_reported(b, k, n),
{
    let i = choose|i: int| 0 <= i < a.len() && is_name_err(#[trigger] a[i], k, n);
    lemma_prefix_at(a, b, i);
    assert(is_name_err(b[i], k, n));
}

proof fn lemma_literal_reported_grow(lit: Literal, a: Seq<HirError>, b: Seq<HirError>)
    requires
        prefix(a, b),
        literal_reported(lit, a),
    ensures
        literal_reported(lit, b),
{
    if let Literal::Char(c) = lit {
        if (c as u32) >= 0x80 {
            lemma_reported_grow(a, b, HirError::Type(TypeError::CharLiteralNotAscii { ch: c }));
        }
    }
}

proof fn lemma_name_extends(n: Seq<char>, callee: bool, a: Shape, b: Shape, id: ExprId, fr: Seq<Map<Seq<char>, Binding>>, it: ScopeMaps)
    requires
        name_lowered(n, callee, a, id, fr, it),
        extends(a, b),
    ensures
        name_lowered(n, callee, b, id, fr, it),
{
    lemma_shape_at(a, b);
    if let Some(k) = name_error(fr, it, n, callee) {
        lemma_name_reported_grow(a.diags, b.diags, k, n);
    }
}

proof fn lemma_shorthand_extends(n: Seq<char>, a: Shape, b: Shape, id: ExprId, fr: Seq<Map<Seq<char>, Binding>>, it: ScopeMaps)
    requires
        shorthand_lowered(n, a, id, fr, it),
        extends(a, b),
    ensures
        shorthand_lowered(n, b, id, fr, it),
{
    lemma_shape_at(a, b);
    if unbound(fr, it, n) {
        lemma_name_reported_grow(a.diags, b.diags, NameErr::Unresolved, n);
    }
}

proof fn lemma_arity_grow(a: Shape, b: Shape, c: ExprId, found: nat, h: HIR)
    requires
        arity_reported(a, c, found, h),
        extends(a, b),
        (c.0 as int) < a.exprs.len(),
    ensures
        arity_reported(b, c, found, h),
{
    lemma_shape_at(a, b);
    if let Expr::Path(Resolution::Fn(f)) = a.exprs[c.0 as int] {
        if (f.0 as int) < h.functions@.len() {
            let fd = h.functions@[f.0 as int];
            if crate::lowering::arity_bad(fd.params@.len(), found, fd.variadic) {
                let i = choose|i: int| 0 <= i < a.diags.len() && is_arity_err(#[trigger] a.diags[i], fd, found);
                lemma_prefix_at(a.diags, b.diags, i);
                assert(is_arity_err(b.diags[i], fd, found));
            }
        }
    }
}

proof fn lemma_println_grow(a: Shape, b: Shape, callee: Option<Box<SynExpr>>, c: ExprId, args: Seq<ExprId>)
    requires
        println_reported(a, callee, c, args),
        extends(a, b),
        (c.0 as int) < a.exprs.len(),
        args.len() > 0 ==> (args[0].0 as int) < a.exprs.len(),
    ensures
        println_reported(b, callee, c, args),
{
    lemma_shape_at(a, b);
    assert(println_error_of(a, args) == println_error_of(b, args));
    if let Some(e) = println_error_of(a, args) {
        if callee_named(callee, "println"@) && a.exprs[c.0 as int] is Path {
            if let Expr::Path(Resolution::Unresolved(_)) = a.exprs[c.0 as int] {
                lemma_reported_grow(a.diags, b.diags, HirError::Type(e));
            }
        }
    }
}

proof fn lemma_boxed_below(e: Option<Box<SynExpr>>, s: Shape, id: ExprId, fr: Seq<Map<Seq<char>, Binding>>, h: HIR)
    requires
        boxed_lowered(e, s, id, fr, h),
    ensures
        (id.0 as int) < s.exprs.len(),
{
}

proof fn lemma_assign_const_grow(a: Shape, b: Shape, l: ExprId, h: HIR)
    requires
        assign_const_reported(a, l, h),
        extends(a, b),
        (l.0 as int) < a.exprs.len(),
    ensures
        assign_const_reported(b, l, h),
{
    lemma_shape_at(a, b);
    let n = match a.exprs[l.0 as int] {
        Expr::Path(Resolution::Const(c)) => if (c.0 as int) < h.consts@.len() {
            Some(h.consts@[c.0 as int].name@)
        } else {
            None
        },
        Expr::Path(Resolution::LocalConst(c)) => {
            lemma_prefix_at(a.lconsts, b.lconsts, c.0 as int);
            Some(a.lconsts[c.0 as int])
        },
        _ => None,
    };
    if let Some(n) = n {
        let i = choose|i: int| 0 <= i < a.diags.len() && is_assign_to_const(#[trigger] a.diags[i], n);
        lemma_prefix_at(a.diags, b.diags, i);
        assert(is_assign_to_const(b.diags[i], n));
    }
}

proof fn lemma_callee_below(e: Option<Box<SynExpr>>, s: Shape, id: ExprId, fr: Seq<Map<Seq<char>, Binding>>, h: HIR)
    requires
        callee_lowered(e, s, id, fr, h),
    ensures
        (id.0 as int) < s.exprs.len(),
{
    if let Some(x) = e {
        match *x {
            SynExpr::NameRef(_) => {},
            other => {},
        }
    }
}

proof fn lemma_unknown_names_stable(a: Seq<KindView>, b: Seq<KindView>, scope: ScopeMaps, t: TypeRef)
    requires
        prefix(a, b),
        (t.0 as int) < a.len(),
    ensures
        unknown_names_of(a, scope, t) == unknown_names_of(b, scope, t),
    decreases t.0 as int + 1, 0int,
{
    lemma_prefix_at(a, b, t.0 as int);
    match a[t.0 as int] {
        KindView::Ref(i) => if i.0 < t.0 {
            lemma_unknown_names_stable(a, b, scope, i);
        },
        KindView::Ptr(i) => if i.0 < t.0 {
            lemma_unknown_names_stable(a, b, scope, i);
        },
        KindView::Array { elem, .. } => if elem.0 < t.0 {
            lemma_unknown_names_stable(a, b, scope, elem);
        },
        KindView::Fn { params, ret, .. } => {
            lemma_unknown_list_stable(a, b, scope, params, t.0);
            if let Some(r) = ret {
                if r.0 < t.0 {
                    lemma_unknown_names_stable(a, b, scope, r);
                }
            }
        },
        _ => {},
    }
}

proof fn lemma_unknown_list_stable(a: Seq<KindView>, b: Seq<KindView>, scope: ScopeMaps, ps: Seq<TypeRef>, bound: u32)
    requires
        prefix(a, b),
        (bound as int) <= a.len(),
    ensures
        unknown_names_list(a, scope, ps, bound) == unknown_names_list(b, scope, ps, bound),
    decreases bound as int, ps.len() as int,
{
    if ps.len() > 0 {
        lemma_unknown_list_stable(a, b, scope, ps.drop_last(), bound);
        if ps.last().0 < bound {
            lemma_unknown_names_stable(a, b, scope, ps.last());
        }
    }
}

proof fn lemma_type_names_grow(a: Shape, b: Shape, t: TypeRef, h: HIR)
    requires
        type_names_reported(a, t, h),
        extends(a, b),
    ensures
        type_names_reported(b, t, h),
{
    lemma_unknown_names_stable(a.kinds, b.kinds, h.items@, t);
    let ns = unknown_names_of(a.kinds, h.items@, t);
    assert forall|j: int| 0 <= j < ns.len() implies type_name_reported(b.diags, #[trigger] ns[j]) by {
        let i = choose|i: int| 0 <= i < a.diags.len() && is_unknown_type_err(#[trigger] a.diags[i], ns[j]);
        lemma_prefix_at(a.diags, b.diags, i);
        assert(is_unknown_type_err(b.diags[i], ns[j]));
    }
}

pub proof fn lemma_callee_extends(e: Option<Box<SynExpr>>, a: Shape, b: Shape, id: ExprId, fr: Seq<Map<Seq<char>, Binding>>, h: HIR)
    requires
        callee_lowered(e, a, id, fr, h),
        extends(a, b),
    ensures
        callee_lowered(e, b, id, fr, h),
    decreases e,
{
    lemma_shape_at(a, b);
    if let Some(x) = e {
        match *x {
            SynExpr::NameRef(n) => lemma_name_extends(n@, true, a, b, id, fr, h.items@),
            other => lemma_lowered_extends(other, a, b, id, fr, h),
        }
    }
}

pub proof fn lemma_lowered_extends(e: SynExpr, a: Shape, b: Shape, id: ExprId, fr: Seq<Map<Seq<char>, Binding>>, h: HIR)
    requires
        lowered(e, a, id, fr, h),
        extends(a, b),
    ensures
        lowered(e, b, id, fr, h),
    decreases e,
{
    lemma_shape_at(a, b);
    match e {
        SynExpr::Literal(_) => {
            if let Expr::Literal(lit) = a.exprs[id.0 as int] {
                lemma_literal_reported_grow(lit, a.diags, b.diags);
            }
        },
        SynExpr::NameRef(n) => lemma_name_extends(n@, false, a, b, id, fr, h.items@),
        SynExpr::Break | SynExpr::Continue => {},
        SynExpr::Call { callee, args } => {
            let x = a.exprs[id.0 as int];
            if intrinsic_call(callee, fr, h.items@, "sizeof"@) {
                if let Expr::SizeOf(t) = x {
                    lemma_prefix_at(a.kinds, b.kinds, t.0 as int);
                    if args.len() != 1 {
                        lemma_reported_grow(a.diags, b.diags, HirError::Type(TypeError::SizeofArity { found: args.len() as usize }));
                    } else if !(args@[0] is NameRef) {
                        lemma_reported_grow(a.diags, b.diags, HirError::Type(TypeError::SizeofNotAType));
                    }
                }
            } else if intrinsic_call(callee, fr, h.items@, "len"@) {
                if args.len() != 1 {
                    lemma_reported_grow(a.diags, b.diags, HirError::Type(TypeError::LenArity { found: args@.len() as usize }));
                } else if let Expr::Len(op) = x {
                    assert(lowered(args[0], a, op, fr, h));
                    lemma_lowered_extends(args[0], a, b, op, fr, h);
                    assert(b.exprs[op.0 as int] == a.exprs[op.0 as int]);
                    if reported(a.diags, HirError::Type(TypeError::LenNotAPlace)) {
                        lemma_reported_grow(a.diags, b.diags, HirError::Type(TypeError::LenNotAPlace));
                    }
                }
            } else if let Expr::Call { callee: c, args: xa } = x {
                lemma_callee_extends(callee, a, b, c, fr, h);
                lemma_callee_below(callee, a, c, fr, h);
                lemma_arity_grow(a, b, c, args@.len(), h);
                if xa@.len() > 0 {
                    assert(lowered(args[0], a, xa@[0], fr, h));
                }
                lemma_println_grow(a, b, callee, c, xa@);
                assert forall|k: int| 0 <= k < args.len() implies lowered(args[k], b, #[trigger] xa@[k], fr, h) by {
                    lemma_lowered_extends(args[k], a, b, xa@[k], fr, h);
                }
            }
        },
        SynExpr::ArrayLit(es) => {
            if let Expr::ArrayLit(xa) = a.exprs[id.0 as int] {
                assert forall|k: int| 0 <= k < es.len() implies lowered(es[k], b, #[trigger] xa@[k], fr, h) by {
                    lemma_lowered_extends(es[k], a, b, xa@[k], fr, h);
                }
            }
        },
        SynExpr::ArrayRepeat { value, .. } => {
            if let Expr::ArrayRepeat { value: v, .. } = a.exprs[id.0 as int] {
                lemma_boxed_extends(value, a, b, v, fr, h);
            }
        },
        SynExpr::Index { base, index } => {
            if let Expr::Index { base: x, index: y } = a.exprs[id.0 as int] {
                lemma_boxed_extends(base, a, b, x, fr, h);
                lemma_boxed_extends(index, a, b, y, fr, h);
            }
        },
        SynExpr::StructLit { name, fields, .. } => {
            if let Expr::StructLit { fields: fs, .. } = a.exprs[id.0 as int] {
                lemma_fields_extends(fields@, a, b, fs@, fr, h);
                if let Some(n) = name {
                    let ds = crate::lowering::struct_lit_diags(
                        h.items_view(),
                        n@,
                        fs@.map_values(|f: StructLitField| f.name@),
                        has_positional(fields@),
                    );
                    if lit_diags_reported(a.diags, ds) {
                        assert forall|k: int| 0 <= k < ds.len() implies lit_diag_reported(b.diags, #[trigger] ds[k]) by {
                            assert(lit_diag_reported(a.diags, ds[k]));
                            let i = choose|i: int| 0 <= i < a.diags.len() && is_lit_diag_err(#[trigger] a.diags[i], ds[k]);
                            lemma_prefix_at(a.diags, b.diags, i);
                            assert(is_lit_diag_err(b.diags[i], ds[k]));
                        }
                    }
                }
            }
            if let Some(n) = name {
                if !(h.items@.structs.contains_key(n@) || h.items@.unions.contains_key(n@)) {
                    let i = choose|i: int|
                        0 <= i < a.diags.len() && (#[trigger] a.diags[i] matches HirError::Resolve(
                            ResolveError::UnknownStructLiteral { name: m },
                        ) && m@ == n@);
                    lemma_prefix_at(a.diags, b.diags, i);
                }
            }
        },
        SynExpr::Binary { op, lhs, rhs } => {
            if let Expr::Binary { lhs: x, rhs: y, .. } = a.exprs[id.0 as int] {
                if op is Some {
                    lemma_boxed_extends(lhs, a, b, x, fr, h);
                    lemma_boxed_extends(rhs, a, b, y, fr, h);
                }
            }
        },
        SynExpr::Prefix { op, operand } => {
            if let Expr::Unary { operand: x, .. } = a.exprs[id.0 as int] {
                if op is Some {
                    lemma_boxed_extends(operand, a, b, x, fr, h);
                }
            }
        },
        SynExpr::Field { base, name, .. } => match enum_base(base, h) {
            Some(bn) => {
                if no_such_variant_reported(a.diags, bn, name@) {
                    let i = choose|i: int| 0 <= i < a.diags.len() && is_no_such_variant(#[trigger] a.diags[i], bn, name@);
                    lemma_prefix_at(a.diags, b.diags, i);
                    assert(is_no_such_variant(b.diags[i], bn, name@));
                }
            },
            None => {
                if let Expr::Field { base: x, .. } = a.exprs[id.0 as int] {
                    lemma_boxed_extends(base, a, b, x, fr, h);
                }
            },
        },
        SynExpr::Assign { lhs, rhs, .. } => {
            if let Expr::Assign { lhs: x, rhs: y, .. } = a.exprs[id.0 as int] {
                lemma_boxed_extends(lhs, a, b, x, fr, h);
                lemma_boxed_extends(rhs, a, b, y, fr, h);
                lemma_boxed_below(lhs, a, x, fr, h);
                lemma_assign_const_grow(a, b, x, h);
            }
        },
        SynExpr::If { cond, then_branch, else_branch } => {
            if let Expr::If { cond: c, then_branch: t, else_branch: el } = a.exprs[id.0 as int] {
                lemma_boxed_extends(cond, a, b, c, fr, h);
                lemma_opt_block_extends(then_branch, a, b, t, fr, h);
                if let Some(blk) = else_branch {
                    if let Some(eb) = el {
                        lemma_block_extends(blk, a, b, eb, fr, h);
                    }
                }
            }
        },
        SynExpr::Loop(blk) => {
            if let Expr::Loop { body } = a.exprs[id.0 as int] {
                lemma_opt_block_extends(blk, a, b, body, fr, h);
            }
        },
        SynExpr::Return(v) => {
            if let Expr::Return(Some(r)) = a.exprs[id.0 as int] {
                if let Some(bx) = v {
                    lemma_lowered_extends(*bx, a, b, r, fr, h);
                }
            }
        },
        SynExpr::Ref(op) => {
            if let Expr::Ref { operand } = a.exprs[id.0 as int] {
                lemma_boxed_extends(op, a, b, operand, fr, h);
                if boxed_lowered(op, a, operand, fr, h) {
                    lemma_boxed_below(op, a, operand, fr, h);
                }
            }
            if a.exprs[id.0 as int] is Missing && ref_error_reported(a.diags) {
                let i = choose|i: int| 0 <= i < a.diags.len() && is_ref_error(#[trigger] a.diags[i]);
                lemma_prefix_at(a.diags, b.diags, i);
                assert(is_ref_error(b.diags[i]));
            }
        },
        SynExpr::Paren(inner) => {
            lemma_boxed_extends(inner, a, b, id, fr, h);
        },
        SynExpr::Match { scrut, arms } => {
            if let Expr::Match { scrut: sc, arms: xa } = a.exprs[id.0 as int] {
                lemma_boxed_extends(scrut, a, b, sc, fr, h);
                assert forall|k: int| 0 <= k < arms.len() implies arm_lowered(arms[k], b, #[trigger] xa@[k], fr, h) by {
                    lemma_arm_extends(arms[k], a, b, xa@[k], fr, h);
                }
            }
        },
        SynExpr::Deref(op) => {
            if let Expr::Deref { operand } = a.exprs[id.0 as int] {
                lemma_boxed_extends(op, a, b, operand, fr, h);
            }
        },
        SynExpr::Cast { operand, .. } => {
            if let Expr::Cast { operand: o, ty: t } = a.exprs[id.0 as int] {
                lemma_boxed_extends(operand, a, b, o, fr, h);
                lemma_type_names_grow(a, b, t, h);
            }
        },
    }
}

pub proof fn lemma_boxed_extends(e: Option<Box<SynExpr>>, a: Shape, b: Shape, id: ExprId, fr: Seq<Map<Seq<char>, Binding>>, h: HIR)
    requires
        boxed_lowered(e, a, id, fr, h),
        extends(a, b),
    ensures
        boxed_lowered(e, b, id, fr, h),
    decreases e,
{
    lemma_shape_at(a, b);
    if let Some(x) = e {
        lemma_lowered_extends(*x, a, b, id, fr, h);
    }
}

pub proof fn lemma_opt_extends(e: Option<SynExpr>, a: Shape, b: Shape, id: ExprId, fr: Seq<Map<Seq<char>, Binding>>, h: HIR)
    requires
        opt_lowered(e, a, id, fr, h),
        extends(a, b),
    ensures
        opt_lowered(e, b, id, fr, h),
    decreases e,
{
    lemma_shape_at(a, b);
    if let Some(x) = e {
        lemma_lowered_extends(x, a, b, id, fr, h);
    }
}

pub proof fn lemma_fields_extends(fs: Seq<SynField>, a: Shape, b: Shape, out: Seq<StructLitField>, fr: Seq<Map<Seq<char>, Binding>>, h: HIR)
    requires
        fields_lowered(fs, a, out, fr, h),
        extends(a, b),
    ensures
        fields_lowered(fs, b, out, fr, h),
    decreases fs,
{
    lemma_shape_at(a, b);
    if fs.len() > 0 {
        let f = fs.last();
        match f.name {
            None => lemma_fields_extends(fs.drop_last(), a, b, out, fr, h),
            Some(_) => {
                lemma_fields_extends(fs.drop_last(), a, b, out.drop_last(), fr, h);
                match f.value {
                    Some(v) => lemma_lowered_extends(v, a, b, out.last().value, fr, h),
                    None => lemma_shorthand_extends(f.name.unwrap()@, a, b, out.last().value, fr, h.items@),
                }
            },
        }
    }
}

pub proof fn lemma_opt_block_extends(blk: Option<SynBlock>, a: Shape, b: Shape, id: BlockId, fr: Seq<Map<Seq<char>, Binding>>, h: HIR)
    requires
        opt_block_lowered(blk, a, id, fr, h),
        extends(a, b),
    ensures
        opt_block_lowered(blk, b, id, fr, h),
    decreases blk,
{
    lemma_shape_at(a, b);
    if let Some(x) = blk {
        lemma_block_extends(x, a, b, id, fr, h);
    }
}

/// The statement at `id` is in the arena, and a `let` there binds a
/// pattern in the arena.
pub open spec fn stmt_placed(s: Shape, id: StmtId) -> bool {
    &&& (id.0 as int) < s.stmts.len()
    &&& match s.stmts[id.0 as int] {
        Stmt::Let { pat, .. } => (pat.0 as int) < s.pats.len(),
        _ => true,
    }
}

proof fn lemma_stmt_placed(st: SynStmt, s: Shape, id: StmtId, fr: Seq<Map<Seq<char>, Binding>>, h: HIR)
    requires
        stmt_lowered(st, s, id, fr, h),
    ensures
        stmt_placed(s, id),
{
}

proof fn lemma_stmt_frame_extends(st: SynStmt, a: Shape, b: Shape, sid: StmtId, f: Map<Seq<char>, Binding>)
    requires
        stmt_placed(a, sid),
        extends(a, b),
    ensures
        stmt_frame(st, a, sid, f) == stmt_frame(st, b, sid, f),
{
    lemma_shape_at(a, b);
    if let Stmt::Let { pat, .. } = a.stmts[sid.0 as int] {
        assert(b.pats[pat.0 as int] == a.pats[pat.0 as int]);
    }
}

proof fn lemma_block_frame_extends(stmts: Seq<SynStmt>, a: Shape, b: Shape, ids: Seq<StmtId>, k: int)
    requires
        extends(a, b),
        k <= ids.len(),
        forall|j: int| 0 <= j < k ==> stmt_placed(a, #[trigger] ids[j]),
    ensures
        block_frame(stmts, a, ids, k) == block_frame(stmts, b, ids, k),
    decreases k,
{
    if k > 0 {
        lemma_block_frame_extends(stmts, a, b, ids, k - 1);
        lemma_stmt_frame_extends(stmts[k - 1], a, b, ids[k - 1], block_frame(stmts, a, ids, k - 1));
    }
}

proof fn lemma_stmts_extend(
    stmts: Seq<SynStmt>,
    a: Shape,
    b: Shape,
    ids: Seq<StmtId>,
    fr: Seq<Map<Seq<char>, Binding>>,
    h: HIR,
)
    requires
        extends(a, b),
        ids.len() <= stmts.len(),
        forall|k: int|
            0 <= k < ids.len() ==> stmt_lowered(stmts[k], a, #[trigger] ids[k], fr.push(block_frame(stmts, a, ids, k)), h),
    ensures
        forall|k: int|
            0 <= k < ids.len() ==> stmt_lowered(stmts[k], b, #[trigger] ids[k], fr.push(block_frame(stmts, b, ids, k)), h),
        forall|k: int| 0 <= k <= ids.len() ==> #[trigger] block_frame(stmts, a, ids, k) == block_frame(stmts, b, ids, k),
{
    assert forall|j: int| 0 <= j < ids.len() implies stmt_placed(a, #[trigger] ids[j]) by {
        lemma_stmt_placed(stmts[j], a, ids[j], fr.push(block_frame(stmts, a, ids, j)), h);
    }
    assert forall|k: int| 0 <= k <= ids.len() implies #[trigger] block_frame(stmts, a, ids, k) == block_frame(stmts, b, ids, k) by {
        lemma_block_frame_extends(stmts, a, b, ids, k);
    }
    assert forall|k: int| 0 <= k < ids.len() implies stmt_lowered(
        stmts[k],
        b,
        #[trigger] ids[k],
        fr.push(block_frame(stmts, b, ids, k)),
        h,
    ) by {
        lemma_block_frame_extends(stmts, a, b, ids, k);
        lemma_stmt_extends(stmts[k], a, b, ids[k], fr.push(block_frame(stmts, a, ids, k)), h);
    }
}

proof fn lemma_block_frame_push(stmts: Seq<SynStmt>, s: Shape, ids: Seq<StmtId>, x: StmtId, k: int)
    requires
        0 <= k <= ids.len(),
    ensures
        block_frame(stmts, s, ids.push(x), k) == block_frame(stmts, s, ids, k),
    decreases k,
{
    if k > 0 {
        lemma_block_frame_push(stmts, s, ids, x, k - 1);
        assert(ids.push(x)[k - 1] == ids[k - 1]);
    }
}

/// One more statement of a block lowered: the statements before it stay
/// lowered, and the frame after it is the one the statement left.
proof fn lemma_block_step(
    stmts: Seq<SynStmt>,
    a: Shape,
    b: Shape,
    ids: Seq<StmtId>,
    sid: StmtId,
    fr: Seq<Map<Seq<char>, Binding>>,
    h: HIR,
)
    requires
        extends(a, b),
        ids.len() < stmts.len(),
        forall|k: int|
            0 <= k < ids.len() ==> stmt_lowered(stmts[k], a, #[trigger] ids[k], fr.push(block_frame(stmts, a, ids, k)), h),
        stmt_lowered(stmts[ids.len() as int], b, sid, fr.push(block_frame(stmts, a, ids, ids.len() as int)), h),
    ensures
        forall|k: int|
            0 <= k < ids.len() + 1 ==> stmt_lowered(
                stmts[k],
                b,
                #[trigger] ids.push(sid)[k],
                fr.push(block_frame(stmts, b, ids.push(sid), k)),
                h,
            ),
        block_frame(stmts, b, ids.push(sid), ids.len() + 1 as int) == stmt_frame(
            stmts[ids.len() as int],
            b,
            sid,
            block_frame(stmts, a, ids, ids.len() as int),
        ),
{
    lemma_stmts_extend(stmts, a, b, ids, fr, h);
    let n = ids.len() as int;
    assert forall|k: int| 0 <= k < n + 1 implies stmt_lowered(
        stmts[k],
        b,
        #[trigger] ids.push(sid)[k],
        fr.push(block_frame(stmts, b, ids.push(sid), k)),
        h,
    ) by {
        lemma_block_frame_push(stmts, b, ids, sid, k);
        assert(block_frame(stmts, a, ids, k) == block_frame(stmts, b, ids, k));
        if k < n {
            assert(ids.push(sid)[k] == ids[k]);
        }
    }
    lemma_block_frame_push(stmts, b, ids, sid, n);
    assert(block_frame(stmts, a, ids, n) == block_frame(stmts, b, ids, n));
    assert(ids.push(sid)[n] == sid);
}

pub proof fn lemma_block_extends(blk: SynBlock, a: Shape, b: Shape, id: BlockId, fr: Seq<Map<Seq<char>, Binding>>, h: HIR)
    requires
        block_lowered(blk, a, id, fr, h),
        extends(a, b),
    ensures
        block_lowered(blk, b, id, fr, h),
    decreases blk,
{
    lemma_shape_at(a, b);
    let xb = a.blocks[id.0 as int];
    let ids = xb.stmts@;
    assert forall|j: int| 0 <= j < blk.stmts.len() implies stmt_placed(a, #[trigger] ids[j]) by {
        lemma_stmt_placed(blk.stmts[j], a, ids[j], fr.push(block_frame(blk.stmts@, a, ids, j)), h);
    }
    assert forall|k: int| 0 <= k < blk.stmts.len() implies stmt_lowered(
        blk.stmts[k],
        b,
        #[trigger] ids[k],
        fr.push(block_frame(blk.stmts@, b, ids, k)),
        h,
    ) by {
        lemma_block_frame_extends(blk.stmts@, a, b, ids, k);
        lemma_stmt_extends(blk.stmts[k], a, b, ids[k], fr.push(block_frame(blk.stmts@, a, ids, k)), h);
    }
    lemma_block_frame_extends(blk.stmts@, a, b, ids, blk.stmts.len() as int);
    if let Some(t) = blk.tail {
        if let Some(tid) = xb.tail {
            lemma_lowered_extends(*t, a, b, tid, fr.push(block_frame(blk.stmts@, a, ids, blk.stmts.len() as int)), h);
        }
    }
}

pub proof fn lemma_init_extends(v: Option<SynExpr>, a: Shape, b: Shape, init: Option<ExprId>, fr: Seq<Map<Seq<char>, Binding>>, h: HIR)
    requires
        init_lowered(v, a, init, fr, h),
        extends(a, b),
    ensures
        init_lowered(v, b, init, fr, h),
    decreases v,
{
    if let Some(e) = v {
        if let Some(i) = init {
            lemma_lowered_extends(e, a, b, i, fr, h);
        }
    }
}

proof fn lemma_rebind_grow(a: Seq<HirError>, b: Seq<HirError>, fr: Seq<Map<Seq<char>, Binding>>, n: Seq<char>)
    requires
        rebind_reported(a, fr, n),
        prefix(a, b),
    ensures
        rebind_reported(b, fr, n),
{
    if fr.len() > 0 && fr.last().contains_key(n) {
        let i = choose|i: int| 0 <= i < a.len() && is_duplicate_local(#[trigger] a[i], n);
        lemma_prefix_at(a, b, i);
        assert(is_duplicate_local(b[i], n));
    }
}

pub proof fn lemma_stmt_extends(st: SynStmt, a: Shape, b: Shape, id: StmtId, fr: Seq<Map<Seq<char>, Binding>>, h: HIR)
    requires
        stmt_lowered(st, a, id, fr, h),
        extends(a, b),
    ensures
        stmt_lowered(st, b, id, fr, h),
    decreases st,
{
    lemma_shape_at(a, b);
    match st {
        SynStmt::Let { name, ty, value, .. } => {
            if let Stmt::Let { init, ty: xt, .. } = a.stmts[id.0 as int] {
                lemma_init_extends(value, a, b, init, fr, h);
                lemma_rebind_grow(a.diags, b.diags, fr, name@);
                match xt {
                    Some(t) => {
                        lemma_type_names_grow(a, b, t, h);
                        if let Some(sy) = ty {
                            lemma_type_lowered_extends(sy, a.kinds, b.kinds, t);
                        }
                    },
                    None => lemma_reported_grow(
                        a.diags,
                        b.diags,
                        HirError::Type(TypeError::MissingTypeAnnotation { name }),
                    ),
                }
            }
        },
        SynStmt::Destructure { value, .. } => {
            if let Stmt::Let { init, .. } = a.stmts[id.0 as int] {
                lemma_init_extends(value, a, b, init, fr, h);
            }
        },
        SynStmt::Const { name, .. } => lemma_rebind_grow(a.diags, b.diags, fr, name@),
        SynStmt::Expr(e) => {
            if let Stmt::Expr(v) = a.stmts[id.0 as int] {
                lemma_opt_extends(e, a, b, v, fr, h);
            }
        },
    }
}

proof fn lemma_pat_extends(p: Option<SynPat>, a: Shape, b: Shape, id: PatId, h: HIR)
    requires
        pat_lowered(p, a, id, h),
        extends(a, b),
    ensures
        pat_lowered(p, b, id, h),
        pat_frame(p, a, id, Map::empty()) == pat_frame(p, b, id, Map::empty()),
{
    lemma_shape_at(a, b);
    match p {
        Some(SynPat::Literal(Some(_))) => {
            if let Pat::Literal(lit) = a.pats[id.0 as int] {
                lemma_literal_reported_grow(lit, a.diags, b.diags);
            }
        },
        Some(SynPat::Path { qualifier, name, .. }) => {
            if a.pats[id.0 as int] is Missing {
                if no_such_variant_reported(a.diags, qualifier@, name@) {
                    let i = choose|i: int| 0 <= i < a.diags.len() && is_no_such_variant(#[trigger] a.diags[i], qualifier@, name@);
                    lemma_prefix_at(a.diags, b.diags, i);
                    assert(is_no_such_variant(b.diags[i], qualifier@, name@));
                }
                if unknown_enum_reported(a.diags, qualifier@) {
                    let i = choose|i: int| 0 <= i < a.diags.len() && is_unknown_enum(#[trigger] a.diags[i], qualifier@);
                    lemma_prefix_at(a.diags, b.diags, i);
                    assert(is_unknown_enum(b.diags[i], qualifier@));
                }
            }
        },
        _ => {},
    }
}

pub proof fn lemma_arm_extends(arm: SynArm, a: Shape, b: Shape, x: MatchArm, fr: Seq<Map<Seq<char>, Binding>>, h: HIR)
    requires
        arm_lowered(arm, a, x, fr, h),
        extends(a, b),
    ensures
        arm_lowered(arm, b, x, fr, h),
    decreases arm,
{
    lemma_shape_at(a, b);
    let inner = fr.push(pat_frame(arm.pat, a, x.pat, Map::empty()));
    lemma_pat_extends(arm.pat, a, b, x.pat, h);
    if let Some(g) = arm.guard {
        if let Some(gid) = x.guard {
            lemma_opt_extends(g, a, b, gid, inner, h);
        }
    }
    lemma_opt_extends(arm.body, a, b, x.body, inner, h);
}

// ---------------------------------------------------------------------------
// Sizes: a bound on how many entries lowering a tree adds to any one arena.

pub open spec fn boxed_size(e: Option<Box<SynExpr>>) -> nat
    decreases e,
{
    match e {
        Some(b) => expr_size(*b),
        None => 1,
    }
}

pub open spec fn opt_size(e: Option<SynExpr>) -> nat
    decreases e,
{
    match e {
        Some(x) => expr_size(x),
        None => 1,
    }
}

pub open spec fn exprs_size(es: Seq<SynExpr>) -> nat
    decreases es,
{
    if es.len() == 0 {
        0
    } else {
        exprs_size(es.drop_last()) + expr_size(es.last())
    }
}

pub open spec fn fields_size(fs: Seq<SynField>) -> nat
    decreases fs,
{
    if fs.len() == 0 {
        0
    } else {
        fields_size(fs.drop_last()) + 4 + opt_size(fs.last().value)
    }
}

pub open spec fn arms_size(arms: Seq<SynArm>) -> nat
    decreases arms,
{
    if arms.len() == 0 {
        0
    } else {
        arms_size(arms.drop_last()) + arm_size(arms.last())
    }
}

pub open spec fn arm_size(a: SynArm) -> nat
    decreases a,
{
    4 + match a.guard {
        Some(g) => opt_size(g),
        None => 0,
    } + opt_size(a.body)
}

pub open spec fn opt_block_size(b: Option<SynBlock>) -> nat
    decreases b,
{
    match b {
        Some(x) => block_size(x),
        None => 1,
    }
}

pub open spec fn block_size(b: SynBlock) -> nat
    decreases b,
{
    4 + stmts_size(b.stmts@) + boxed_size(b.tail)
}

pub open spec fn stmts_size(ss: Seq<SynStmt>) -> nat
    decreases ss,
{
    if ss.len() == 0 {
        0
    } else {
        stmts_size(ss.drop_last()) + stmt_size(ss.last())
    }
}

pub open spec fn stmt_size(st: SynStmt) -> nat
    decreases st,
{
    4 + match st {
        SynStmt::Let { ty, value, .. } => opt_type_size(ty) + opt_size(value),
        SynStmt::Destructure { fields, value, .. } => 2 * fields@.len() + opt_size(value),
        SynStmt::Const { ty, .. } => opt_type_size(ty),
        SynStmt::Expr(e) => opt_size(e),
    }
}

pub open spec fn opt_type_size(t: Option<SynType>) -> nat
    decreases t,
{
    match t {
        Some(x) => type_size(x),
        None => 1,
    }
}

pub open spec fn boxed_type_size(t: Option<Box<SynType>>) -> nat
    decreases t,
{
    match t {
        Some(x) => type_size(*x),
        None => 1,
    }
}

pub open spec fn types_size(ts: Seq<Option<SynType>>) -> nat
    decreases ts,
{
    if ts.len() == 0 {
        0
    } else {
        types_size(ts.drop_last()) + opt_type_size(ts.last())
    }
}

pub open spec fn type_size(t: SynType) -> nat
    decreases t,
{
    4 + match t {
        SynType::Ref(i) => boxed_type_size(i),
        SynType::Ptr(i) => boxed_type_size(i),
        SynType::Array { elem, .. } => boxed_type_size(elem),
        SynType::Fn { params, ret } => types_size(params@) + boxed_type_size(ret),
        _ => 0,
    }
}

pub open spec fn expr_size(e: SynExpr) -> nat
    decreases e,
{
    4 + match e {
        SynExpr::Call { callee, args } => boxed_size(callee) + exprs_size(args@),
        SynExpr::ArrayLit(es) => exprs_size(es@),
        SynExpr::ArrayRepeat { value, .. } => boxed_size(value),
        SynExpr::Index { base, index } => boxed_size(base) + boxed_size(index),
        SynExpr::StructLit { fields, .. } => fields_size(fields@),
        SynExpr::Binary { lhs, rhs, .. } => boxed_size(lhs) + boxed_size(rhs),
        SynExpr::Prefix { operand, .. } => boxed_size(operand),
        SynExpr::Field { base, .. } => boxed_size(base),
        SynExpr::Assign { lhs, rhs, .. } => boxed_size(lhs) + boxed_size(rhs),
        SynExpr::If { cond, then_branch, else_branch } => boxed_size(cond) + opt_block_size(then_branch)
            + opt_block_size(else_branch),
        SynExpr::Loop(b) => opt_block_size(b),
        SynExpr::Return(v) => boxed_size(v),
        SynExpr::Ref(o) => boxed_size(o),
        SynExpr::Paren(o) => boxed_size(o),
        SynExpr::Deref(o) => boxed_size(o),
        SynExpr::Match { scrut, arms } => boxed_size(scrut) + arms_size(arms@),
        SynExpr::Cast { operand, ty } => boxed_size(operand) + opt_type_size(ty),
        _ => 0,
    }
}

// ---------------------------------------------------------------------------
// One lowering step: what every lowering function keeps and how far it may
// grow the arenas.

/// From `(c0, t0)` to `(c1, t1)`: the arenas, the type table and the
/// diagnostics only grew, each arena by at most `n` entries.
pub open spec fn progress(c0: BodyCtx, t0: TypeInterner, c1: BodyCtx, t1: TypeInterner, n: nat) -> bool {
    &&& extends(c0.shape(t0), c1.shape(t1))
    &&& within(c0.shape(t0), c1.shape(t1), n)
    &&& prefix(c0.diagnostics@, c1.diagnostics@)
    &&& prefix(t0@, t1@)
}

/// A lowering step that keeps the state consistent, restores the scope
/// stack and grows each arena by at most `n` entries.
pub open spec fn stepped(c0: BodyCtx, t0: TypeInterner, c1: BodyCtx, t1: TypeInterner, hir: HIR, n: nat) -> bool {
    &&& t1.wf()
    &&& ctx_wf(c1, hir, t1)
    &&& progress(c0, t0, c1, t1, n)
    &&& c1.scopes@ == c0.scopes@
}

proof fn lemma_prefix_trans<T>(a: Seq<T>, b: Seq<T>, c: Seq<T>)
    requires
        prefix(a, b),
        prefix(b, c),
    ensures
        prefix(a, c),
{
    assert(c.take(a.len() as int) =~= c.take(b.len() as int).take(a.len() as int));
}

proof fn lemma_prefix_refl<T>(a: Seq<T>)
    ensures
        prefix(a, a),
{
    assert(a.take(a.len() as int) =~= a);
}

proof fn lemma_prefix_push<T>(a: Seq<T>, x: T)
    ensures
        prefix(a, a.push(x)),
{
    assert(a.push(x).take(a.len() as int) =~= a);
}

proof fn lemma_progress_trans(
    c0: BodyCtx,
    t0: TypeInterner,
    c1: BodyCtx,
    t1: TypeInterner,
    c2: BodyCtx,
    t2: TypeInterner,
    n1: nat,
    n2: nat,
)
    requires
        progress(c0, t0, c1, t1, n1),
        progress(c1, t1, c2, t2, n2),
    ensures
        progress(c0, t0, c2, t2, n1 + n2),
{
    let (s0, s1, s2) = (c0.shape(t0), c1.shape(t1), c2.shape(t2));
    lemma_prefix_trans(s0.exprs, s1.exprs, s2.exprs);
    lemma_prefix_trans(s0.stmts, s1.stmts, s2.stmts);
    lemma_prefix_trans(s0.pats, s1.pats, s2.pats);
    lemma_prefix_trans(s0.blocks, s1.blocks, s2.blocks);
    lemma_prefix_trans(s0.locals, s1.locals, s2.locals);
    lemma_prefix_trans(s0.lconsts, s1.lconsts, s2.lconsts);
    lemma_prefix_trans(c0.diagnostics@, c1.diagnostics@, c2.diagnostics@);
    lemma_prefix_trans(t0@, t1@, t2@);
}

proof fn lemma_progress_refl(c: BodyCtx, t: TypeInterner)
    ensures
        progress(c, t, c, t, 0),
{
    let s = c.shape(t);
    lemma_prefix_refl(s.exprs);
    lemma_prefix_refl(s.stmts);
    lemma_prefix_refl(s.pats);
    lemma_prefix_refl(s.blocks);
    lemma_prefix_refl(s.locals);
    lemma_prefix_refl(s.lconsts);
    lemma_prefix_refl(c.diagnostics@);
    lemma_prefix_refl(t@);
}

proof fn lemma_progress_weaken(c0: BodyCtx, t0: TypeInterner, c1: BodyCtx, t1: TypeInterner, n: nat, m: nat)
    requires
        progress(c0, t0, c1, t1, n),
        n <= m,
    ensures
        progress(c0, t0, c1, t1, m),
{
}

/// An expression that was well placed stays so as the arenas grow.
proof fn lemma_expr_ok_grow(x: Expr, i: int, hir: HIR, a: Shape, b: Shape)
    requires
        expr_ok(x, i, hir, a),
        a.locals.len() <= b.locals.len(),
        a.nconsts <= b.nconsts,
        a.blocks.len() <= b.blocks.len(),
        a.pats.len() <= b.pats.len(),
        a.ntypes <= b.ntypes,
    ensures
        expr_ok(x, i, hir, b),
{
}

/// The state stays consistent when the arenas grow without touching the
/// entries already there, the new expressions are well placed, and the scope
/// stack keeps its bindings.
proof fn lemma_wf_grow(c0: BodyCtx, t0: TypeInterner, c1: BodyCtx, t1: TypeInterner, hir: HIR)
    requires
        ctx_wf(c0, hir, t0),
        extends(c0.shape(t0), c1.shape(t1)),
        forall|i: int|
            c0.body.exprs@.len() <= i < c1.body.exprs@.len() ==> expr_ok(
                #[trigger] c1.body.exprs@[i],
                i,
                hir,
                c1.shape(t1),
            ),
        c1.scopes@ == c0.scopes@,
    ensures
        ctx_wf(c1, hir, t1),
{
    let (s0, s1) = (c0.shape(t0), c1.shape(t1));
    lemma_shape_at(s0, s1);
    assert forall|i: int| 0 <= i < s1.exprs.len() implies expr_ok(#[trigger] s1.exprs[i], i, hir, s1) by {
        if i < s0.exprs.len() {
            lemma_expr_ok_grow(s0.exprs[i], i, hir, s0, s1);
        }
    }
}

// ---------------------------------------------------------------------------
// Allocation.

/// Allocates `x` as the next expression.
fn new_expr(ctx: &mut BodyCtx, hir: &HIR, types: &TypeInterner, x: Expr) -> (id: ExprId)
    requires
        ctx_wf(*old(ctx), *hir, *types),
        old(ctx).body.exprs@.len() < u32::MAX,
        expr_ok(x, old(ctx).body.exprs@.len() as int, *hir, old(ctx).shape(*types)),
    ensures
        id.0 == old(ctx).body.exprs@.len(),
        final(ctx).body.exprs@ == old(ctx).body.exprs@.push(x),
        final(ctx).shape(*types).exprs[id.0 as int] == x,
        ctx_wf(*final(ctx), *hir, *types),
        progress(*old(ctx), *types, *final(ctx), *types, 1),
        final(ctx).scopes@ == old(ctx).scopes@,
        final(ctx).diagnostics@ == old(ctx).diagnostics@,
{
    let id = ctx.body.exprs.allocate(x);
    proof {
        lemma_prefix_push(old(ctx).body.exprs@, x);
        lemma_prefix_refl(ctx.body.stmts@);
        lemma_prefix_refl(ctx.body.pats@);
        lemma_prefix_refl(ctx.body.blocks@);
        lemma_prefix_refl(ctx.shape(*types).locals);
        lemma_prefix_refl(ctx.shape(*types).lconsts);
        lemma_prefix_refl(ctx.diagnostics@);
        lemma_prefix_refl(types@);
        lemma_wf_grow(*old(ctx), *types, *ctx, *types, *hir);
    }
    id
}

/// Allocates a `Missing` expression.
fn new_missing(ctx: &mut BodyCtx, hir: &HIR, types: &TypeInterner) -> (id: ExprId)
    requires
        ctx_wf(*old(ctx), *hir, *types),
        old(ctx).body.exprs@.len() < u32::MAX,
    ensures
        missing_at(final(ctx).shape(*types), id),
        ctx_wf(*final(ctx), *hir, *types),
        progress(*old(ctx), *types, *final(ctx), *types, 1),
        final(ctx).scopes@ == old(ctx).scopes@,
        final(ctx).diagnostics@ == old(ctx).diagnostics@,
{
    new_expr(ctx, hir, types, Expr::Missing)
}

/// Reports `e`.
fn report(ctx: &mut BodyCtx, hir: &HIR, types: &TypeInterner, e: HirError)
    requires
        ctx_wf(*old(ctx), *hir, *types),
    ensures
        final(ctx).body == old(ctx).body,
        final(ctx).scopes@ == old(ctx).scopes@,
        final(ctx).diagnostics@ == old(ctx).diagnostics@.push(e),
        ctx_wf(*final(ctx), *hir, *types),
        progress(*old(ctx), *types, *final(ctx), *types, 0),
{
    ctx.diagnostics.push(e);
    proof {
        lemma_progress_refl(*old(ctx), *types);
        lemma_prefix_push(old(ctx).diagnostics@, e);
    }
}

// ---------------------------------------------------------------------------
// Folding constant expressions inside a body.

/// The outcome of folding a constant expression: a scalar value; a value
/// that involves floating point, which this library does not compute; or
/// no value (the failure already reported, or nothing to report).
#[derive(Debug, Clone, Copy, PartialEq, Eq, Structural)]
pub enum Folded {
    Value(ConstValue),
    Float,
    Failed,
}

/// A diagnostic of constant folding, as a value.
pub enum FoldDiag {
    UnknownName(Seq<char>),
    Plain(ConstError),
    /// A constant whose value depends on itself.
    Cycle(Seq<char>),
    /// A value outside the range of the declared integer type: the value,
    /// the type, and the type's bounds.
    OutOfRange(i128, Seq<char>, i128, i128),
}

/// `e` is the diagnostic `d`.
pub open spec fn is_fold_diag(e: HirError, d: FoldDiag) -> bool {
    match d {
        FoldDiag::UnknownName(n) => e matches HirError::Const(ConstError::ConstUnknownName { name }) && name@ == n,
        FoldDiag::Plain(c) => e == HirError::Const(c),
        FoldDiag::Cycle(n) => e matches HirError::Const(ConstError::ConstCycle { name }) && name@ == n,
        FoldDiag::OutOfRange(v, t, lo, hi) => e matches HirError::Const(
            ConstError::ConstValueOutOfRange { value, ty, min, max },
        ) && value@ == crate::text::decimal_int(v as int) && ty@ == t && min@ == crate::text::decimal_int(lo as int)
            && max@ == crate::text::decimal_int(hi as int),
    }
}

/// `after` is `before` with the diagnostics `ds` appended.
pub open spec fn appends_fold(before: Seq<HirError>, after: Seq<HirError>, ds: Seq<FoldDiag>) -> bool {
    &&& after.len() == before.len() + ds.len()
    &&& after.take(before.len() as int) == before
    &&& forall|k: int| 0 <= k < ds.len() ==> is_fold_diag(#[trigger] after[before.len() + k], ds[k])
}

/// The value of the constant `name` as a body sees it: a block-scope
/// constant of the innermost frame binding the name; nothing when a local
/// binds it; else the folded value of the top-level constant of that name.
pub open spec fn scoped_const(
    frames: Seq<Map<Seq<char>, Binding>>,
    lconsts: Seq<LocalConst>,
    v: ItemsView,
    name: Seq<char>,
) -> Option<ConstValue> {
    match spec_lookup(frames, name) {
        Some(Binding::Const(id)) => if (id.0 as int) < lconsts.len() {
            lconsts[id.0 as int].value
        } else {
            None
        },
        Some(Binding::Local(_)) => None,
        None => if v.scope.consts.contains_key(name) {
            v.consts[v.scope.consts[name] as int].2
        } else {
            None
        },
    }
}

/// The constant a literal token folds to: an integer (its bits read as
/// `i128`), a `bool`, the first character of a char literal; a float
/// literal folds to a floating-point value; a string, a missing kind or a
/// missing token fold to nothing.
pub open spec fn fold_literal(l: SynLiteral) -> Folded {
    match (l.kind, l.text) {
        (Some(k), Some(t)) => match k {
            LiteralKind::Int => match spec_parse_int_literal(t@) {
                Some(v) => Folded::Value(ConstValue::Int(v as i128)),
                None => Folded::Failed,
            },
            LiteralKind::Float => Folded::Float,
            LiteralKind::Bool => Folded::Value(ConstValue::Bool(t@ == "true"@)),
            LiteralKind::Char => {
                let inner = strip_quotes(t@, '\'');
                if inner.len() > 0 {
                    Folded::Value(ConstValue::Char(inner[0]))
                } else {
                    Folded::Failed
                }
            },
            LiteralKind::String => Folded::Failed,
        },
        _ => Folded::Failed,
    }
}

/// The name a cast's target type gives the fold: a bare named type.
pub open spec fn cast_target(ty: Option<SynType>) -> Option<Seq<char>> {
    match ty {
        Some(SynType::Ident(Some(n), _)) => Some(n@),
        _ => None,
    }
}

/// Folding a child slot: nothing where the tree has no child.
pub open spec fn spec_fold_boxed(
    e: Option<Box<SynExpr>>,
    frames: Seq<Map<Seq<char>, Binding>>,
    lconsts: Seq<LocalConst>,
    v: ItemsView,
) -> (Folded, Seq<FoldDiag>)
    decreases e,
{
    match e {
        Some(b) => spec_fold(*b, frames, lconsts, v),
        None => (Folded::Failed, seq![]),
    }
}

/// Folding the constant expression `e` against the constants visible in
/// the body: literals, names of constants, prefix and binary operators and
/// casts over them; anything else is not a constant expression. Both
/// operands of a binary operator are folded (and their failures reported)
/// before the operator applies.
pub open spec fn spec_fold(
    e: SynExpr,
    frames: Seq<Map<Seq<char>, Binding>>,
    lconsts: Seq<LocalConst>,
    v: ItemsView,
) -> (Folded, Seq<FoldDiag>)
    decreases e,
{
    match e {
        SynExpr::Literal(l) => (fold_literal(l), seq![]),
        SynExpr::Paren(inner) => spec_fold_boxed(inner, frames, lconsts, v),
        SynExpr::NameRef(n) => match scoped_const(frames, lconsts, v, n@) {
            Some(c) => (Folded::Value(c), seq![]),
            None => (Folded::Failed, seq![FoldDiag::UnknownName(n@)]),
        },
        SynExpr::Prefix { op, operand } => match op {
            None => (Folded::Failed, seq![]),
            Some(o) => {
                let (x, d) = spec_fold_boxed(operand, frames, lconsts, v);
                match x {
                    Folded::Value(c) => match spec_apply_unary(o, c) {
                        Ok(r) => (Folded::Value(r), d),
                        Err(err) => (Folded::Failed, d.push(FoldDiag::Plain(err))),
                    },
                    _ => (x, d),
                }
            },
        },
        SynExpr::Binary { op, lhs, rhs } => match op {
            None => (Folded::Failed, seq![]),
            Some(o) => {
                let (l, dl) = spec_fold_boxed(lhs, frames, lconsts, v);
                let (r, dr) = spec_fold_boxed(rhs, frames, lconsts, v);
                let d = dl + dr;
                match (l, r) {
                    (Folded::Value(a), Folded::Value(b)) => match spec_apply_binary(o, a, b) {
                        Ok(c) => (Folded::Value(c), d),
                        Err(err) => (Folded::Failed, d.push(FoldDiag::Plain(err))),
                    },
                    (Folded::Failed, _) => (Folded::Failed, d),
                    (_, Folded::Failed) => (Folded::Failed, d),
                    _ => (Folded::Float, d),
                }
            },
        },
        SynExpr::Cast { operand, ty } => match operand {
            None => (Folded::Failed, seq![]),
            Some(b) => {
                let (x, d) = spec_fold(*b, frames, lconsts, v);
                match x {
                    Folded::Value(c) => match spec_apply_cast(c, cast_target(ty)) {
                        Some(r) => (Folded::Value(r), d),
                        None => (Folded::Float, d),
                    },
                    _ => (x, d),
                }
            },
        },
        _ => (Folded::Failed, seq![FoldDiag::Plain(ConstError::NotAConstExpr)]),
    }
}

/// The value of the constant `name` as the body sees it.
fn scoped_const_value(
    scopes: &Scopes,
    lconsts: &TypedArena<LocalConst, LocalConstId>,
    hir: &HIR,
    name: &str,
) -> (r: Option<ConstValue>)
    requires
        hir.wf(),
    ensures
        r == scoped_const(scopes@, lconsts@, hir.items_view(), name@),
{
    match scopes.lookup(name) {
        Some(Binding::Const(id)) => {
            if (id.0 as usize) < lconsts.len() {
                lconsts.get(id).value
            } else {
                None
            }
        },
        Some(Binding::Local(_)) => None,
        None => match name_table_get(&hir.items.consts, name) {
            Some(cid) => {
                proof {
                    assert(items_wf(hir.items_view()));
                    assert(hir.items_view().scope.consts.contains_key(name@));
                }
                hir.consts.get(ConstId(cid)).value
            },
            None => None,
        },
    }
}

/// The constant a literal token folds to.
pub(crate) fn fold_lit(l: &SynLiteral) -> (r: Folded)
    ensures
        r == fold_literal(*l),
{
    let k = match l.kind {
        Some(k) => k,
        None => return Folded::Failed,
    };
    let t = match &l.text {
        Some(t) => t,
        None => return Folded::Failed,
    };
    match k {
        LiteralKind::Int => match parse_int_literal(t.as_str()) {
            Some(v) => Folded::Value(ConstValue::Int(v as i128)),
            None => Folded::Failed,
        },
        LiteralKind::Float => Folded::Float,
        LiteralKind::Bool => Folded::Value(ConstValue::Bool(str_eq(t.as_str(), "true"))),
        LiteralKind::Char => {
            let cs = str_chars(t.as_str());
            let n = cs.len();
            proof {
                assert(cs@ == t@);
            }
            if n >= 2 && cs[0] == '\'' && cs[n - 1] == '\'' {
                if n > 2 {
                    assert(strip_quotes(t@, '\'')[0] == cs@[1]);
                    Folded::Value(ConstValue::Char(cs[1]))
                } else {
                    assert(strip_quotes(t@, '\'').len() == 0);
                    Folded::Failed
                }
            } else if n > 0 {
                Folded::Value(ConstValue::Char(cs[0]))
            } else {
                Folded::Failed
            }
        },
        LiteralKind::String => Folded::Failed,
    }
}

/// The name of a cast's target type, for the fold.
pub(crate) fn cast_target_name(ty: &Option<SynType>) -> (r: Option<&str>)
    ensures
        match r {
            Some(n) => cast_target(*ty) == Some(n@),
            None => cast_target(*ty) is None,
        },
{
    match ty {
        Some(SynType::Ident(Some(n), _)) => Some(n.as_str()),
        _ => None,
    }
}

pub(crate) proof fn lemma_appends_fold_empty(d: Seq<HirError>)
    ensures
        appends_fold(d, d, seq![]),
{
    assert(d.take(d.len() as int) =~= d);
}

pub(crate) proof fn lemma_appends_fold_push(before: Seq<HirError>, mid: Seq<HirError>, ds: Seq<FoldDiag>, e: HirError, d: FoldDiag)
    requires
        appends_fold(before, mid, ds),
        is_fold_diag(e, d),
    ensures
        appends_fold(before, mid.push(e), ds.push(d)),
{
    let after = mid.push(e);
    assert(after.take(before.len() as int) =~= mid.take(before.len() as int));
    assert forall|k: int| 0 <= k < ds.push(d).len() implies is_fold_diag(
        #[trigger] after[before.len() + k],
        ds.push(d)[k],
    ) by {
        if k < ds.len() {
            assert(after[before.len() + k] == mid[before.len() + k]);
        }
    }
}

pub(crate) proof fn lemma_appends_fold_trans(
    a: Seq<HirError>,
    b: Seq<HirError>,
    c: Seq<HirError>,
    d1: Seq<FoldDiag>,
    d2: Seq<FoldDiag>,
)
    requires
        appends_fold(a, b, d1),
        appends_fold(b, c, d2),
    ensures
        appends_fold(a, c, d1 + d2),
{
    assert(c.take(a.len() as int) =~= c.take(b.len() as int).take(a.len() as int));
    assert forall|k: int| 0 <= k < (d1 + d2).len() implies is_fold_diag(#[trigger] c[a.len() + k], (d1 + d2)[k]) by {
        if k < d1.len() {
            assert(c.take(b.len() as int)[a.len() + k] == c[a.len() + k]);
        } else {
            assert(c[b.len() + (k - d1.len())] == c[a.len() + k]);
        }
    }
}

/// Folds a child slot.
fn fold_boxed(
    e: &Option<Box<SynExpr>>,
    scopes: &Scopes,
    lconsts: &TypedArena<LocalConst, LocalConstId>,
    hir: &HIR,
    diags: &mut Vec<HirError>,
) -> (r: Folded)
    requires
        hir.wf(),
    ensures
        r == spec_fold_boxed(*e, scopes@, lconsts@, hir.items_view()).0,
        appends_fold(old(diags)@, final(diags)@, spec_fold_boxed(*e, scopes@, lconsts@, hir.items_view()).1),
    decreases e,
{
    match e {
        Some(b) => fold_const(b, scopes, lconsts, hir, diags),
        None => {
            proof {
                lemma_appends_fold_empty(diags@);
            }
            Folded::Failed
        },
    }
}

/// Folds the constant expression `e` against the constants visible in the
/// body, reporting what fails.
pub fn fold_const(
    e: &SynExpr,
    scopes: &Scopes,
    lconsts: &TypedArena<LocalConst, LocalConstId>,
    hir: &HIR,
    diags: &mut Vec<HirError>,
) -> (r: Folded)
    requires
        hir.wf(),
    ensures
        r == spec_fold(*e, scopes@, lconsts@, hir.items_view()).0,
        appends_fold(old(diags)@, final(diags)@, spec_fold(*e, scopes@, lconsts@, hir.items_view()).1),
    decreases e,
{
    let ghost v = hir.items_view();
    let ghost d0 = diags@;
    match e {
        SynExpr::Literal(l) => {
            proof {
                lemma_appends_fold_empty(diags@);
            }
            fold_lit(l)
        },
        SynExpr::Paren(inner) => fold_boxed(inner, scopes, lconsts, hir, diags),
        SynExpr::NameRef(n) => match scoped_const_value(scopes, lconsts, hir, n.as_str()) {
            Some(c) => {
                proof {
                    lemma_appends_fold_empty(diags@);
                }
                Folded::Value(c)
            },
            None => {
                diags.push(HirError::Const(ConstError::ConstUnknownName { name: n.clone() }));
                proof {
                    lemma_appends_fold_empty(d0);
                    lemma_appends_fold_push(d0, d0, seq![], diags@.last(), FoldDiag::UnknownName(n@));
                    assert(seq![FoldDiag::UnknownName(n@)] =~= Seq::<FoldDiag>::empty().push(FoldDiag::UnknownName(n@)));
                }
                Folded::Failed
            },
        },
        SynExpr::Prefix { op, operand } => match op {
            None => {
                proof {
                    lemma_appends_fold_empty(diags@);
                }
                Folded::Failed
            },
            Some(o) => {
                let x = fold_boxed(operand, scopes, lconsts, hir, diags);
                let ghost d1 = diags@;
                let ghost ds = spec_fold_boxed(*operand, scopes@, lconsts@, v).1;
                match x {
                    Folded::Value(c) => {
                        let res = if *o == UnaryOp::Neg && c == ConstValue::Int(i128::MIN) {
                            let m: i128 = i128::MIN;
                            assert(m == i128::MIN ==> ((-m) as i128) == m) by (bit_vector);
                            Ok(ConstValue::Int(i128::MIN))
                        } else {
                            apply_unary(*o, c)
                        };
                        assert(res == spec_apply_unary(*o, c));
                        match res {
                            Ok(r) => Folded::Value(r),
                            Err(err) => {
                                diags.push(HirError::Const(err));
                                proof {
                                    lemma_appends_fold_push(d0, d1, ds, diags@.last(), FoldDiag::Plain(err));
                                }
                                Folded::Failed
                            },
                        }
                    },
                    _ => x,
                }
            },
        },
        SynExpr::Binary { op, lhs, rhs } => match op {
            None => {
                proof {
                    lemma_appends_fold_empty(diags@);
                }
                Folded::Failed
            },
            Some(o) => {
                let l = fold_boxed(lhs, scopes, lconsts, hir, diags);
                let ghost d1 = diags@;
                let r = fold_boxed(rhs, scopes, lconsts, hir, diags);
                let ghost d2 = diags@;
                let ghost dl = spec_fold_boxed(*lhs, scopes@, lconsts@, v).1;
                let ghost dr = spec_fold_boxed(*rhs, scopes@, lconsts@, v).1;
                proof {
                    lemma_appends_fold_trans(d0, d1, d2, dl, dr);
                }
                match (l, r) {
                    (Folded::Value(a), Folded::Value(b)) => match apply_binary(*o, a, b) {
                        Ok(c) => Folded::Value(c),
                        Err(err) => {
                            diags.push(HirError::Const(err));
                            proof {
                                lemma_appends_fold_push(d0, d2, dl + dr, diags@.last(), FoldDiag::Plain(err));
                            }
                            Folded::Failed
                        },
                    },
                    (Folded::Failed, _) => Folded::Failed,
                    (_, Folded::Failed) => Folded::Failed,
                    _ => Folded::Float,
                }
            },
        },
        SynExpr::Cast { operand, ty } => match operand {
            None => {
                proof {
                    lemma_appends_fold_empty(diags@);
                }
                Folded::Failed
            },
            Some(b) => {
                let x = fold_const(b, scopes, lconsts, hir, diags);
                match x {
                    Folded::Value(c) => match apply_cast(c, cast_target_name(ty)) {
                        Some(r) => Folded::Value(r),
                        None => Folded::Float,
                    },
                    _ => x,
                }
            },
        },
        _ => {
            diags.push(HirError::Const(ConstError::NotAConstExpr));
            proof {
                lemma_appends_fold_empty(d0);
                lemma_appends_fold_push(d0, d0, seq![], diags@.last(), FoldDiag::Plain(ConstError::NotAConstExpr));
                assert(seq![FoldDiag::Plain(ConstError::NotAConstExpr)] =~= Seq::<FoldDiag>::empty().push(
                    FoldDiag::Plain(ConstError::NotAConstExpr),
                ));
            }
            Folded::Failed
        },
    }
}

/// The length an array type's length slot gives: an integer literal is read
/// directly; anything else is folded as a constant expression and must be a
/// positive integer that fits `u64`.
pub open spec fn spec_array_len(
    len: Option<Box<SynExpr>>,
    frames: Seq<Map<Seq<char>, Binding>>,
    lconsts: Seq<LocalConst>,
    v: ItemsView,
) -> (Option<u64>, Seq<FoldDiag>) {
    match len {
        None => (None, seq![]),
        Some(b) => if *b matches SynExpr::Literal(l) && l.kind == Some(LiteralKind::Int) {
            match *b {
                SynExpr::Literal(l) => match l.text {
                    None => (None, seq![]),
                    Some(t) => match spec_literal_array_len(t@) {
                        Ok(n) => (Some(n), seq![]),
                        Err(err) => (None, seq![FoldDiag::Plain(err)]),
                    },
                },
                _ => (None, seq![]),
            }
        } else {
            let (x, d) = spec_fold(*b, frames, lconsts, v);
            match x {
                Folded::Value(c) => match spec_folded_array_len(c) {
                    Ok(n) => (Some(n), d),
                    Err(err) => (None, d.push(FoldDiag::Plain(err))),
                },
                Folded::Float => (None, d.push(FoldDiag::Plain(ConstError::ArrayLenNotInteger))),
                Folded::Failed => (None, d),
            }
        },
    }
}

/// The length given by an array type's (or an array repeat's) length slot,
/// reporting what is wrong with it.
pub fn array_len(
    len: &Option<Box<SynExpr>>,
    scopes: &Scopes,
    lconsts: &TypedArena<LocalConst, LocalConstId>,
    hir: &HIR,
    diags: &mut Vec<HirError>,
) -> (r: Option<u64>)
    requires
        hir.wf(),
    ensures
        r == spec_array_len(*len, scopes@, lconsts@, hir.items_view()).0,
        appends_fold(old(diags)@, final(diags)@, spec_array_len(*len, scopes@, lconsts@, hir.items_view()).1),
{
    let ghost d0 = diags@;
    let b = match len {
        Some(b) => b,
        None => {
            proof {
                lemma_appends_fold_empty(d0);
            }
            return None;
        },
    };
    if let SynExpr::Literal(l) = &**b {
        if l.kind == Some(LiteralKind::Int) {
            match &l.text {
                None => {
                    proof {
                        lemma_appends_fold_empty(d0);
                    }
                    return None;
                },
                Some(t) => match literal_array_len(t.as_str()) {
                    Ok(n) => {
                        proof {
                            lemma_appends_fold_empty(d0);
                        }
                        return Some(n);
                    },
                    Err(err) => {
                        diags.push(HirError::Const(err));
                        proof {
                            lemma_appends_fold_empty(d0);
                            lemma_appends_fold_push(d0, d0, seq![], diags@.last(), FoldDiag::Plain(err));
                            assert(seq![FoldDiag::Plain(err)] =~= Seq::<FoldDiag>::empty().push(FoldDiag::Plain(err)));
                        }
                        return None;
                    },
                },
            }
        }
    }
    let x = fold_const(b, scopes, lconsts, hir, diags);
    let ghost d1 = diags@;
    let ghost ds = spec_fold(**b, scopes@, lconsts@, hir.items_view()).1;
    match x {
        Folded::Value(c) => match folded_array_len(c) {
            Ok(n) => Some(n),
            Err(err) => {
                diags.push(HirError::Const(err));
                proof {
                    lemma_appends_fold_push(d0, d1, ds, diags@.last(), FoldDiag::Plain(err));
                }
                None
            },
        },
        Folded::Float => {
            diags.push(HirError::Const(ConstError::ArrayLenNotInteger));
            proof {
                lemma_appends_fold_push(d0, d1, ds, diags@.last(), FoldDiag::Plain(ConstError::ArrayLenNotInteger));
            }
            None
        },
        Folded::Failed => None,
    }
}

// ---------------------------------------------------------------------------
// Type annotations.

/// A type slot: the lowered type, or the error type where the tree has
/// none.
pub open spec fn boxed_type_lowered(t: Option<Box<SynType>>, kinds: Seq<KindView>, id: TypeRef) -> bool
    decreases t,
{
    match t {
        Some(b) => type_lowered(*b, kinds, id),
        None => (id.0 as int) < kinds.len() && kinds[id.0 as int] == KindView::Error,
    }
}

/// An optional type slot, unboxed.
pub open spec fn opt_type_lowered(t: Option<SynType>, kinds: Seq<KindView>, id: TypeRef) -> bool
    decreases t,
{
    match t {
        Some(x) => type_lowered(x, kinds, id),
        None => (id.0 as int) < kinds.len() && kinds[id.0 as int] == KindView::Error,
    }
}

/// `id` is the lowering of the annotation `t`: `ptr` is the raw pointer,
/// any other name a path; references, pointers, arrays and function types
/// keep their shape over their lowered parts; an array whose length is not
/// a valid constant is the error type.
pub open spec fn type_lowered(t: SynType, kinds: Seq<KindView>, id: TypeRef) -> bool
    decreases t,
{
    &&& (id.0 as int) < kinds.len()
    &&& {
        let k = kinds[id.0 as int];
        match t {
            SynType::Ident(None, _) => k == KindView::Error,
            SynType::Ident(Some(n), _) => if n@ == "ptr"@ {
                k == KindView::RawPtr
            } else {
                k == KindView::Path(n@)
            },
            SynType::Unit => k == KindView::Unit,
            SynType::Ref(i) => k matches KindView::Ref(c) && boxed_type_lowered(i, kinds, c),
            SynType::Ptr(i) => k matches KindView::Ptr(c) && boxed_type_lowered(i, kinds, c),
            SynType::Array { elem, .. } => k == KindView::Error || (k matches KindView::Array { elem: c, .. }
                && boxed_type_lowered(elem, kinds, c)),
            SynType::Fn { params, ret } => k matches KindView::Fn { params: ps, ret: r, variadic } && !variadic
                && ps.len() == params.len() && (forall|j: int|
                0 <= j < params.len() ==> opt_type_lowered(params[j], kinds, #[trigger] ps[j])) && match ret {
                Some(b) => r matches Some(rr) && type_lowered(*b, kinds, rr),
                None => r is None,
            },
        }
    }
}

pub proof fn lemma_type_lowered_extends(t: SynType, a: Seq<KindView>, b: Seq<KindView>, id: TypeRef)
    requires
        type_lowered(t, a, id),
        prefix(a, b),
    ensures
        type_lowered(t, b, id),
    decreases t,
{
    lemma_prefix_at(a, b, id.0 as int);
    let k = a[id.0 as int];
    match t {
        SynType::Ref(i) => {
            if let KindView::Ref(c) = k {
                lemma_boxed_type_extends(i, a, b, c);
            }
        },
        SynType::Ptr(i) => {
            if let KindView::Ptr(c) = k {
                lemma_boxed_type_extends(i, a, b, c);
            }
        },
        SynType::Array { elem, .. } => {
            if let KindView::Array { elem: c, .. } = k {
                lemma_boxed_type_extends(elem, a, b, c);
            }
        },
        SynType::Fn { params, ret } => {
            if let KindView::Fn { params: ps, ret: r, .. } = k {
                assert forall|j: int| 0 <= j < params.len() implies opt_type_lowered(params[j], b, #[trigger] ps[j]) by {
                    lemma_opt_type_extends(params[j], a, b, ps[j]);
                }
                if let Some(bx) = ret {
                    if let Some(rr) = r {
                        lemma_type_lowered_extends(*bx, a, b, rr);
                    }
                }
            }
        },
        _ => {},
    }
}

pub proof fn lemma_boxed_type_extends(t: Option<Box<SynType>>, a: Seq<KindView>, b: Seq<KindView>, id: TypeRef)
    requires
        boxed_type_lowered(t, a, id),
        prefix(a, b),
    ensures
        boxed_type_lowered(t, b, id),
    decreases t,
{
    match t {
        Some(x) => lemma_type_lowered_extends(*x, a, b, id),
        None => lemma_prefix_at(a, b, id.0 as int),
    }
}

pub proof fn lemma_opt_type_extends(t: Option<SynType>, a: Seq<KindView>, b: Seq<KindView>, id: TypeRef)
    requires
        opt_type_lowered(t, a, id),
        prefix(a, b),
    ensures
        opt_type_lowered(t, b, id),
    decreases t,
{
    match t {
        Some(x) => lemma_type_lowered_extends(x, a, b, id),
        None => lemma_prefix_at(a, b, id.0 as int),
    }
}

/// Interns `kind`, keeping every entry in place.
fn intern_kind(types: &mut TypeInterner, kind: TypeKind) -> (t: TypeRef)
    requires
        old(types).wf(),
        old(types)@.len() < u32::MAX,
        crate::types::children_below(kind@, old(types)@.len() as int),
    ensures
        final(types).wf(),
        (t.0 as int) < final(types)@.len(),
        final(types)@[t.0 as int] == kind@,
        prefix(old(types)@, final(types)@),
        final(types)@.len() <= old(types)@.len() + 1,
{
    let ghost k = kind@;
    let t = types.intern(kind);
    proof {
        if old(types)@.contains(k) {
            lemma_prefix_refl(types@);
        } else {
            lemma_prefix_push(old(types)@, k);
        }
    }
    t
}

/// A step that only reported diagnostics and interned types keeps the
/// state consistent.
proof fn lemma_step_types_diags(c0: BodyCtx, t0: TypeInterner, c1: BodyCtx, t1: TypeInterner, hir: HIR, n: nat)
    requires
        ctx_wf(c0, hir, t0),
        t1.wf(),
        c1.body == c0.body,
        c1.scopes@ == c0.scopes@,
        prefix(c0.diagnostics@, c1.diagnostics@),
        prefix(t0@, t1@),
        t1@.len() <= t0@.len() + n,
    ensures
        stepped(c0, t0, c1, t1, hir, n),
{
    let (s0, s1) = (c0.shape(t0), c1.shape(t1));
    lemma_prefix_refl(s0.exprs);
    lemma_prefix_refl(s0.stmts);
    lemma_prefix_refl(s0.pats);
    lemma_prefix_refl(s0.blocks);
    lemma_prefix_refl(s0.locals);
    lemma_prefix_refl(s0.lconsts);
    lemma_wf_grow(c0, t0, c1, t1, hir);
}

proof fn lemma_stepped_trans(
    c0: BodyCtx,
    t0: TypeInterner,
    c1: BodyCtx,
    t1: TypeInterner,
    c2: BodyCtx,
    t2: TypeInterner,
    hir: HIR,
    n1: nat,
    n2: nat,
)
    requires
        stepped(c0, t0, c1, t1, hir, n1),
        stepped(c1, t1, c2, t2, hir, n2),
    ensures
        stepped(c0, t0, c2, t2, hir, n1 + n2),
{
    lemma_progress_trans(c0, t0, c1, t1, c2, t2, n1, n2);
}

proof fn lemma_stepped_refl(c: BodyCtx, t: TypeInterner, hir: HIR)
    requires
        t.wf(),
        ctx_wf(c, hir, t),
    ensures
        stepped(c, t, c, t, hir, 0),
{
    lemma_progress_refl(c, t);
}

/// Lowers a type slot.
fn lower_boxed_type(ctx: &mut BodyCtx, hir: &HIR, types: &mut TypeInterner, t: &Option<Box<SynType>>) -> (r: TypeRef)
    requires
        hir.wf(),
        old(types).wf(),
        ctx_wf(*old(ctx), *hir, *old(types)),
        fits(old(ctx).shape(*old(types)), boxed_type_size(*t)),
    ensures
        stepped(*old(ctx), *old(types), *final(ctx), *final(types), *hir, boxed_type_size(*t)),
        final(ctx).body == old(ctx).body,
        boxed_type_lowered(*t, final(types)@, r),
    decreases t,
{
    match t {
        Some(b) => lower_type(ctx, hir, types, b),
        None => {
            proof {
                lemma_stepped_refl(*ctx, *types, *hir);
            }
            types.error_type()
        },
    }
}

/// Lowers an optional type slot.
fn lower_opt_type(ctx: &mut BodyCtx, hir: &HIR, types: &mut TypeInterner, t: &Option<SynType>) -> (r: TypeRef)
    requires
        hir.wf(),
        old(types).wf(),
        ctx_wf(*old(ctx), *hir, *old(types)),
        fits(old(ctx).shape(*old(types)), opt_type_size(*t)),
    ensures
        stepped(*old(ctx), *old(types), *final(ctx), *final(types), *hir, opt_type_size(*t)),
        final(ctx).body == old(ctx).body,
        opt_type_lowered(*t, final(types)@, r),
    decreases t,
{
    match t {
        Some(b) => lower_type(ctx, hir, types, b),
        None => {
            proof {
                lemma_stepped_refl(*ctx, *types, *hir);
            }
            types.error_type()
        },
    }
}

/// Lowers a type annotation, interning each part and reporting an array
/// length that is not a valid constant.
pub fn lower_type(ctx: &mut BodyCtx, hir: &HIR, types: &mut TypeInterner, t: &SynType) -> (r: TypeRef)
    requires
        hir.wf(),
        old(types).wf(),
        ctx_wf(*old(ctx), *hir, *old(types)),
        fits(old(ctx).shape(*old(types)), type_size(*t)),
    ensures
        stepped(*old(ctx), *old(types), *final(ctx), *final(types), *hir, type_size(*t)),
        final(ctx).body == old(ctx).body,
        type_lowered(*t, final(types)@, r),
    decreases t,
{
    let ghost c0 = *ctx;
    let ghost t0 = *types;
    match t {
        SynType::Ident(None, _) => {
            proof {
                lemma_stepped_refl(*ctx, *types, *hir);
            }
            types.error_type()
        },
        SynType::Ident(Some(n), _) => {
            let r = if str_eq(n.as_str(), "ptr") {
                intern_kind(types, TypeKind::RawPtr)
            } else {
                intern_kind(types, TypeKind::Path(n.clone()))
            };
            proof {
                lemma_prefix_refl(c0.diagnostics@);
                lemma_step_types_diags(c0, t0, *ctx, *types, *hir, type_size(*t));
            }
            r
        },
        SynType::Unit => {
            proof {
                lemma_stepped_refl(*ctx, *types, *hir);
            }
            types.unit_ty()
        },
        SynType::Ref(i) => {
            let c = lower_boxed_type(ctx, hir, types, i);
            let ghost t1 = *types;
            let r = intern_kind(types, TypeKind::Ref(c));
            proof {
                lemma_boxed_type_extends(*i, t1@, types@, c);
                lemma_prefix_trans(t0@, t1@, types@);
                lemma_step_types_diags(c0, t0, *ctx, *types, *hir, type_size(*t));
            }
            r
        },
        SynType::Ptr(i) => {
            let c = lower_boxed_type(ctx, hir, types, i);
            let ghost t1 = *types;
            let r = intern_kind(types, TypeKind::Ptr(c));
            proof {
                lemma_boxed_type_extends(*i, t1@, types@, c);
                lemma_prefix_trans(t0@, t1@, types@);
                lemma_step_types_diags(c0, t0, *ctx, *types, *hir, type_size(*t));
            }
            r
        },
        SynType::Array { elem, len } => {
            let c = lower_boxed_type(ctx, hir, types, elem);
            let ghost c1 = *ctx;
            let ghost t1 = *types;
            let n = array_len(len, &ctx.scopes, &ctx.body.local_consts, hir, &mut ctx.diagnostics);
            proof {
                assert(prefix(c1.diagnostics@, ctx.diagnostics@));
            }
            let r = match n {
                None => {
                    proof {
                        lemma_prefix_refl(types@);
                    }
                    types.error_type()
                },
                Some(n) => intern_kind(types, TypeKind::Array { elem: c, len: n }),
            };
            proof {
                lemma_boxed_type_extends(*elem, t1@, types@, c);
                lemma_prefix_trans(t0@, t1@, types@);
                lemma_prefix_trans(c0.diagnostics@, c1.diagnostics@, ctx.diagnostics@);
                lemma_step_types_diags(c0, t0, *ctx, *types, *hir, type_size(*t));
            }
            r
        },
        SynType::Fn { params, ret } => {
            let mut ps: Vec<TypeRef> = Vec::new();
            let mut i: usize = 0;
            proof {
                assert(type_size(*t) == 4 + types_size(params@) + boxed_type_size(*ret));
                lemma_stepped_refl(*ctx, *types, *hir);
                assert(params@.take(0) =~= Seq::<Option<SynType>>::empty());
            }
            while i < params.len()
                invariant
                    hir.wf(),
                    i <= params@.len(),
                    ps@.len() == i,
                    ctx.body == c0.body,
                    stepped(c0, t0, *ctx, *types, *hir, types_size(params@.take(i as int))),
                    fits(c0.shape(t0), type_size(*t)),
                    type_size(*t) == 4 + types_size(params@) + boxed_type_size(*ret),
                    (*t matches SynType::Fn { params: pp, .. } && pp == *params),
                    types_size(params@.take(i as int)) <= types_size(params@),
                    forall|j: int| 0 <= j < i ==> opt_type_lowered(params@[j], types@, #[trigger] ps@[j]),
                decreases params@.len() - i,
            {
                let ghost c1 = *ctx;
                let ghost t1 = *types;
                proof {
                    lemma_types_size_take(params@, i as int);
                    vstd::std_specs::vec::axiom_vec_index_decreases(*params, i as int);
                }
                let p = lower_opt_type(ctx, hir, types, &params[i]);
                proof {
                    lemma_stepped_trans(c0, t0, c1, t1, *ctx, *types, *hir, types_size(params@.take(i as int)), opt_type_size(params@[i as int]));
                    assert(params@.take(i + 1).drop_last() =~= params@.take(i as int));
                    assert forall|j: int| 0 <= j < i implies opt_type_lowered(params@[j], types@, #[trigger] ps@[j]) by {
                        lemma_opt_type_extends(params@[j], t1@, types@, ps@[j]);
                    }
                }
                ps.push(p);
                i = i + 1;
            }
            proof {
                assert(params@.take(params@.len() as int) =~= params@);
            }
            let ghost c2 = *ctx;
            let ghost t2 = *types;
            let r = match ret {
                Some(b) => Some(lower_type(ctx, hir, types, b)),
                None => {
                    proof {
                        lemma_stepped_refl(*ctx, *types, *hir);
                    }
                    None
                },
            };
            let ghost t3 = *types;
            proof {
                lemma_stepped_trans(c0, t0, c2, t2, *ctx, *types, *hir, types_size(params@), boxed_type_size(*ret));
                assert forall|j: int| 0 <= j < params@.len() implies opt_type_lowered(params@[j], types@, #[trigger] ps@[j]) by {
                    lemma_opt_type_extends(params@[j], t2@, types@, ps@[j]);
                }
                assert(crate::types::children_below(KindView::Fn { params: ps@, ret: r, variadic: false }, types@.len() as int)) by {
                    assert(crate::types::all_below(ps@, types@.len() as int));
                }
            }
            let out = intern_kind(types, TypeKind::Fn { params: ps, ret: r, variadic: false });
            proof {
                assert forall|j: int| 0 <= j < params@.len() implies opt_type_lowered(params@[j], types@, #[trigger] ps@[j]) by {
                    lemma_opt_type_extends(params@[j], t3@, types@, ps@[j]);
                }
                if let Some(bx) = ret {
                    if let Some(rr) = r {
                        lemma_type_lowered_extends(**bx, t3@, types@, rr);
                    }
                }
                lemma_prefix_refl(ctx.diagnostics@);
                lemma_step_types_diags(*ctx, t3, *ctx, *types, *hir, 1);
                lemma_stepped_trans(c0, t0, *ctx, t3, *ctx, *types, *hir, types_size(params@) + boxed_type_size(*ret), 1);
            }
            out
        },
    }
}

proof fn lemma_types_size_take(ts: Seq<Option<SynType>>, i: int)
    requires
        0 <= i < ts.len(),
    ensures
        types_size(ts.take(i + 1)) == types_size(ts.take(i)) + opt_type_size(ts[i]),
        types_size(ts.take(i + 1)) <= types_size(ts),
    decreases ts.len() - i,
{
    assert(ts.take(i + 1).drop_last() =~= ts.take(i));
    assert(ts.take(i + 1).last() == ts[i]);
    if i + 1 < ts.len() {
        lemma_types_size_take(ts, i + 1);
    } else {
        assert(ts.take(i + 1) =~= ts);
    }
}

// ---------------------------------------------------------------------------
// Names and scopes.

/// What the state's consistency gives the judgments that read the arenas.
proof fn lemma_wf_facts(ctx: BodyCtx, hir: HIR, types: TypeInterner)
    requires
        ctx_wf(ctx, hir, types),
    ensures
        bases_first(ctx.body.exprs@),
        forall|i: int|
            0 <= i < ctx.body.exprs@.len() ==> match #[trigger] ctx.body.exprs@[i] {
                Expr::Path(Resolution::Local(id)) => (id.0 as int) < ctx.body.locals@.len(),
                Expr::Path(Resolution::Global(g)) => (g.0 as int) < hir.globals@.len(),
                Expr::Path(Resolution::Const(c)) => (c.0 as int) < hir.consts@.len(),
                Expr::Path(Resolution::LocalConst(c)) => (c.0 as int) < ctx.body.local_consts@.len(),
                Expr::Path(Resolution::Fn(f)) => (f.0 as int) < hir.functions@.len(),
                _ => true,
            },
{
    let s = ctx.shape(types);
    assert forall|i: int| 0 <= i < s.exprs.len() implies match #[trigger] s.exprs[i] {
        Expr::Field { base, .. } => (base.0 as int) < i,
        Expr::Index { base, .. } => (base.0 as int) < i,
        _ => true,
    } by {
        assert(expr_ok(s.exprs[i], i, hir, s));
    }
    assert forall|i: int| 0 <= i < s.exprs.len() implies match #[trigger] s.exprs[i] {
        Expr::Path(Resolution::Local(id)) => (id.0 as int) < s.locals.len(),
        Expr::Path(Resolution::Global(g)) => (g.0 as int) < hir.globals@.len(),
        Expr::Path(Resolution::Const(c)) => (c.0 as int) < hir.consts@.len(),
        Expr::Path(Resolution::LocalConst(c)) => (c.0 as int) < s.nconsts,
        Expr::Path(Resolution::Fn(f)) => (f.0 as int) < hir.functions@.len(),
        _ => true,
    } by {
        assert(expr_ok(s.exprs[i], i, hir, s));
    }
}

/// The binding a name looks up to is held by some frame.
proof fn lemma_lookup_held(frames: Seq<Map<Seq<char>, Binding>>, name: Seq<char>)
    ensures
        spec_lookup(frames, name) matches Some(b) ==> exists|f: int|
            0 <= f < frames.len() && #[trigger] frames[f].contains_key(name) && frames[f][name] == b,
    decreases frames.len(),
{
    if frames.len() > 0 && !frames.last().contains_key(name) {
        lemma_lookup_held(frames.drop_last(), name);
        if let Some(b) = spec_lookup(frames, name) {
            let f = choose|f: int|
                0 <= f < frames.drop_last().len() && #[trigger] frames.drop_last()[f].contains_key(name)
                    && frames.drop_last()[f][name] == b;
            assert(frames[f] == frames.drop_last()[f]);
        }
    } else if frames.len() > 0 {
        assert(frames[frames.len() - 1] == frames.last());
    }
}

/// A resolution of a name points into the arenas.
proof fn lemma_resolve_ok(ctx: BodyCtx, hir: HIR, types: TypeInterner, name: Seq<char>, r: Resolution)
    requires
        hir.wf(),
        ctx_wf(ctx, hir, types),
        resolves_to(ctx.scopes@, hir.items@, name, r),
    ensures
        res_ok(r, hir, ctx.shape(types)),
{
    lemma_lookup_held(ctx.scopes@, name);
    let v = hir.items_view();
    assert(items_wf(v));
    assert(v.scope == hir.items@);
}

/// The error of a name in value position follows its resolution.
proof fn lemma_name_error(fr: Seq<Map<Seq<char>, Binding>>, it: ScopeMaps, n: Seq<char>, callee: bool, r: Resolution)
    requires
        resolves_to(fr, it, n, r),
    ensures
        name_error(fr, it, n, callee) == match r {
            Resolution::Enum(_) => Some(NameErr::EnumName),
            Resolution::Struct(_) => Some(NameErr::StructName),
            Resolution::Unresolved(u) => if callee && crate::lowering::is_intrinsic_name(u@) {
                None
            } else {
                Some(NameErr::Unresolved)
            },
            _ => None,
        },
{
}

/// The lowered callee at `c` is a path to an unresolved name exactly when
/// the callee is a bare intrinsic name that nothing declares.
proof fn lemma_intrinsic_callee(callee: Option<Box<SynExpr>>, s: Shape, c: ExprId, fr: Seq<Map<Seq<char>, Binding>>, it: ScopeMaps)
    requires
        match callee {
            Some(b) => match *b {
                SynExpr::NameRef(n) => name_lowered(n@, true, s, c, fr, it),
                _ => true,
            },
            None => true,
        },
    ensures
        match callee {
            Some(b) => match *b {
                SynExpr::NameRef(n) => (s.exprs[c.0 as int] is Path && s.exprs[c.0 as int]->Path_0 is Unresolved) == (
                crate::lowering::is_intrinsic_name(n@) && unbound(fr, it, n@)),
                _ => true,
            },
            None => true,
        },
{
    if let Some(b) = callee {
        if let SynExpr::NameRef(m) = *b {
            let n = m@;
            if unbound(fr, it, n) {
                if crate::lowering::is_intrinsic_name(n) {
                    assert(name_error(fr, it, n, true) is None);
                } else {
                    assert(name_error(fr, it, n, true) == Some(NameErr::Unresolved));
                }
            } else {
                match name_error(fr, it, n, true) {
                    Some(_) => {},
                    None => {
                        if let Expr::Path(r) = s.exprs[c.0 as int] {
                            assert(resolves_to(fr, it, n, r));
                            assert(!(r is Unresolved));
                        }
                    },
                }
            }
        }
    }
}

/// Lowers a name in value position; `is_callee` when it is the callee of a
/// call, where the intrinsics may stand undeclared.
fn lower_name(ctx: &mut BodyCtx, hir: &HIR, types: &TypeInterner, name: &String, is_callee: bool) -> (id: ExprId)
    requires
        hir.wf(),
        types.wf(),
        ctx_wf(*old(ctx), *hir, *types),
        fits(old(ctx).shape(*types), 1),
    ensures
        stepped(*old(ctx), *types, *final(ctx), *types, *hir, 1),
        name_lowered(name@, is_callee, final(ctx).shape(*types), id, old(ctx).scopes@, hir.items@),
{
    let ghost c0 = *ctx;
    let res = resolve(&ctx.scopes, &hir.items, name.as_str());
    proof {
        lemma_name_error(ctx.scopes@, hir.items@, name@, is_callee, res);
    }
    match value_use_error(&res, name.as_str(), is_callee) {
        Some(err) => {
            report(ctx, hir, types, HirError::Resolve(err));
            let ghost c1 = *ctx;
            let id = new_missing(ctx, hir, types);
            proof {
                lemma_progress_trans(c0, *types, c1, *types, *ctx, *types, 0, 1);
                let k = name_error(c0.scopes@, hir.items@, name@, is_callee).unwrap();
                assert(ctx.diagnostics@[c0.diagnostics@.len() as int] == HirError::Resolve(err));
                assert(is_name_err(ctx.diagnostics@[c0.diagnostics@.len() as int], k, name@));
            }
            id
        },
        None => {
            proof {
                lemma_resolve_ok(*ctx, *hir, *types, name@, res);
            }
            new_expr(ctx, hir, types, Expr::Path(res))
        },
    }
}

/// Opens a new innermost scope frame.
fn open_scope(ctx: &mut BodyCtx, hir: &HIR, types: &TypeInterner)
    requires
        ctx_wf(*old(ctx), *hir, *types),
    ensures
        ctx_wf(*final(ctx), *hir, *types),
        final(ctx).body == old(ctx).body,
        final(ctx).diagnostics == old(ctx).diagnostics,
        final(ctx).scopes@.len() == old(ctx).scopes@.len() + 1,
        final(ctx).scopes@.drop_last() == old(ctx).scopes@,
        final(ctx).scopes@.last().dom().is_empty(),
{
    ctx.scopes.push();
    proof {
        assert(ctx.shape(*types) == old(ctx).shape(*types));
        let fs = ctx.scopes@;
        assert forall|f: int, n: Seq<char>|
            0 <= f < fs.len() && #[trigger] fs[f].contains_key(n) implies binding_ok(
            fs[f][n],
            ctx.shape(*types),
        ) by {
            if f < fs.len() - 1 {
                assert(fs[f] == old(ctx).scopes@[f]);
            } else {
                assert(fs[f] == fs.last());
            }
        }
    }
}

/// Closes the innermost scope frame.
fn close_scope(ctx: &mut BodyCtx, hir: &HIR, types: &TypeInterner)
    requires
        ctx_wf(*old(ctx), *hir, *types),
        old(ctx).scopes@.len() > 0,
    ensures
        ctx_wf(*final(ctx), *hir, *types),
        final(ctx).body == old(ctx).body,
        final(ctx).diagnostics == old(ctx).diagnostics,
        final(ctx).scopes@ == old(ctx).scopes@.drop_last(),
{
    ctx.scopes.pop();
    proof {
        assert(ctx.shape(*types) == old(ctx).shape(*types));
        let fs = ctx.scopes@;
        assert forall|f: int, n: Seq<char>|
            0 <= f < fs.len() && #[trigger] fs[f].contains_key(n) implies binding_ok(
            fs[f][n],
            ctx.shape(*types),
        ) by {
            assert(fs[f] == old(ctx).scopes@[f]);
        }
    }
}

// ---------------------------------------------------------------------------
// Expressions.

/// Lowering may start: the items and the type table are well formed, the
/// state is consistent, and every arena has room for `n` more entries.
pub open spec fn ready(ctx: BodyCtx, hir: HIR, types: TypeInterner, n: nat) -> bool {
    &&& hir.wf()
    &&& types.wf()
    &&& ctx_wf(ctx, hir, types)
    &&& fits(ctx.shape(types), n)
}

proof fn lemma_keep_lowered(e: SynExpr, c1: BodyCtx, t1: TypeInterner, c2: BodyCtx, t2: TypeInterner, hir: HIR, n: nat, id: ExprId, fr: Seq<Map<Seq<char>, Binding>>, h: HIR)
    requires
        lowered(e, c1.shape(t1), id, fr, h),
        stepped(c1, t1, c2, t2, hir, n),
    ensures
        lowered(e, c2.shape(t2), id, fr, h),
{
    lemma_lowered_extends(e, c1.shape(t1), c2.shape(t2), id, fr, h);
}

proof fn lemma_keep_boxed(e: Option<Box<SynExpr>>, c1: BodyCtx, t1: TypeInterner, c2: BodyCtx, t2: TypeInterner, hir: HIR, n: nat, id: ExprId, fr: Seq<Map<Seq<char>, Binding>>, h: HIR)
    requires
        boxed_lowered(e, c1.shape(t1), id, fr, h),
        stepped(c1, t1, c2, t2, hir, n),
    ensures
        boxed_lowered(e, c2.shape(t2), id, fr, h),
{
    lemma_boxed_extends(e, c1.shape(t1), c2.shape(t2), id, fr, h);
}

/// Lowers a literal token, reporting a char literal outside ASCII.
fn lower_literal_expr(ctx: &mut BodyCtx, hir: &HIR, types: &TypeInterner, l: &SynLiteral) -> (id: ExprId)
    requires
        ready(*old(ctx), *hir, *types, 1),
    ensures
        stepped(*old(ctx), *types, *final(ctx), *types, *hir, 1),
        (id.0 as int) < final(ctx).body.exprs@.len(),
        final(ctx).body.exprs@[id.0 as int] matches Expr::Literal(lit) && lit@ == literal_of(*l) && literal_reported(
            lit,
            final(ctx).diagnostics@,
        ),
{
    let ghost c0 = *ctx;
    let lit = lower_literal(
        l.kind,
        match &l.text {
            Some(t) => Some(t.as_str()),
            None => None,
        },
    );
    if let Some(err) = check_char_literal(&lit) {
        report(ctx, hir, types, HirError::Type(err));
        proof {
            assert(ctx.diagnostics@[ctx.diagnostics@.len() - 1] == HirError::Type(err));
            assert(reported(ctx.diagnostics@, HirError::Type(err)));
        }
    } else {
        proof {
            lemma_progress_refl(*ctx, *types);
        }
    }
    let ghost c1 = *ctx;
    let id = new_expr(ctx, hir, types, Expr::Literal(lit));
    proof {
        lemma_progress_trans(c0, *types, c1, *types, *ctx, *types, 0, 1);
    }
    id
}

/// Lowers a child slot: the child, or `Missing`.
fn lower_boxed(ctx: &mut BodyCtx, hir: &HIR, types: &mut TypeInterner, e: &Option<Box<SynExpr>>) -> (id: ExprId)
    requires
        ready(*old(ctx), *hir, *old(types), boxed_size(*e)),
    ensures
        stepped(*old(ctx), *old(types), *final(ctx), *final(types), *hir, boxed_size(*e)),
        boxed_lowered(*e, final(ctx).shape(*final(types)), id, old(ctx).scopes@, *hir),
    decreases e, 2nat,
{
    match e {
        Some(b) => lower_expr(ctx, hir, types, b),
        None => new_missing(ctx, hir, types),
    }
}

/// Lowers an optional child slot, unboxed.
fn lower_opt(ctx: &mut BodyCtx, hir: &HIR, types: &mut TypeInterner, e: &Option<SynExpr>) -> (id: ExprId)
    requires
        ready(*old(ctx), *hir, *old(types), opt_size(*e)),
    ensures
        stepped(*old(ctx), *old(types), *final(ctx), *final(types), *hir, opt_size(*e)),
        opt_lowered(*e, final(ctx).shape(*final(types)), id, old(ctx).scopes@, *hir),
    decreases e, 2nat,
{
    match e {
        Some(x) => lower_expr(ctx, hir, types, x),
        None => new_missing(ctx, hir, types),
    }
}

/// Lowers an expression of a function body into the body arenas, resolving
/// names, checking what lowering checks, and returning its handle.
pub fn lower_expr(ctx: &mut BodyCtx, hir: &HIR, types: &mut TypeInterner, e: &SynExpr) -> (id: ExprId)
    requires
        ready(*old(ctx), *hir, *old(types), expr_size(*e)),
    ensures
        stepped(*old(ctx), *old(types), *final(ctx), *final(types), *hir, expr_size(*e)),
        lowered(*e, final(ctx).shape(*final(types)), id, old(ctx).scopes@, *hir),
    decreases e, 2nat,
{
    match e {
        SynExpr::Literal(l) => lower_literal_expr(ctx, hir, types, l),
        SynExpr::NameRef(n) => lower_name(ctx, hir, types, n, false),
        SynExpr::Call { .. } => lower_call(ctx, hir, types, e),
        SynExpr::ArrayLit(_) => lower_array_lit(ctx, hir, types, e),
        SynExpr::ArrayRepeat { .. } => lower_array_repeat(ctx, hir, types, e),
        SynExpr::Index { .. } => lower_index(ctx, hir, types, e),
        SynExpr::StructLit { .. } => lower_struct_lit(ctx, hir, types, e),
        SynExpr::Binary { .. } => lower_binary(ctx, hir, types, e),
        SynExpr::Prefix { .. } => lower_prefix(ctx, hir, types, e),
        SynExpr::Field { .. } => lower_field(ctx, hir, types, e),
        SynExpr::Assign { .. } => lower_assign(ctx, hir, types, e),
        SynExpr::If { .. } => lower_if(ctx, hir, types, e),
        SynExpr::Loop(_) => lower_loop(ctx, hir, types, e),
        SynExpr::Break => new_expr(ctx, hir, types, Expr::Break),
        SynExpr::Continue => new_expr(ctx, hir, types, Expr::Continue),
        SynExpr::Return(_) => lower_return(ctx, hir, types, e),
        SynExpr::Ref(_) => lower_ref(ctx, hir, types, e),
        SynExpr::Paren(inner) => lower_boxed(ctx, hir, types, inner),
        SynExpr::Match { .. } => lower_match(ctx, hir, types, e),
        SynExpr::Deref(_) => lower_deref(ctx, hir, types, e),
        SynExpr::Cast { .. } => lower_cast(ctx, hir, types, e),
    }
}

/// `a op b`; an operator the parser could not read gives `Missing`.
fn lower_binary(ctx: &mut BodyCtx, hir: &HIR, types: &mut TypeInterner, e: &SynExpr) -> (id: ExprId)
    requires
        ready(*old(ctx), *hir, *old(types), expr_size(*e)),
        *e is Binary,
    ensures
        stepped(*old(ctx), *old(types), *final(ctx), *final(types), *hir, expr_size(*e)),
        lowered(*e, final(ctx).shape(*final(types)), id, old(ctx).scopes@, *hir),
    decreases e, 1nat,
{
    let ghost c0 = *ctx;
    let ghost t0 = *types;
    match e {
        SynExpr::Binary { op, lhs, rhs } => match op {
            None => new_missing(ctx, hir, types),
            Some(o) => {
                let l = lower_boxed(ctx, hir, types, lhs);
                let ghost c1 = *ctx;
                let ghost t1 = *types;
                let r = lower_boxed(ctx, hir, types, rhs);
                let ghost c2 = *ctx;
                let ghost t2 = *types;
                let id = new_expr(ctx, hir, types, Expr::Binary { op: *o, lhs: l, rhs: r });
                proof {
                    lemma_stepped_trans(c1, t1, c2, t2, *ctx, *types, *hir, boxed_size(*rhs), 1);
                    lemma_stepped_trans(c0, t0, c1, t1, *ctx, *types, *hir, boxed_size(*lhs), boxed_size(*rhs) + 1);
                    lemma_keep_boxed(*lhs, c1, t1, *ctx, *types, *hir, boxed_size(*rhs) + 1, l, old(ctx).scopes@, *hir);
                    lemma_keep_boxed(*rhs, c2, t2, *ctx, *types, *hir, 1, r, old(ctx).scopes@, *hir);
                }
                id
            },
        },
        _ => unreached(),
    }
}

/// A prefix operator; an operator the parser could not read gives
/// `Missing`.
fn lower_prefix(ctx: &mut BodyCtx, hir: &HIR, types: &mut TypeInterner, e: &SynExpr) -> (id: ExprId)
    requires
        ready(*old(ctx), *hir, *old(types), expr_size(*e)),
        *e is Prefix,
    ensures
        stepped(*old(ctx), *old(types), *final(ctx), *final(types), *hir, expr_size(*e)),
        lowered(*e, final(ctx).shape(*final(types)), id, old(ctx).scopes@, *hir),
    decreases e, 1nat,
{
    let ghost c0 = *ctx;
    let ghost t0 = *types;
    match e {
        SynExpr::Prefix { op, operand } => match op {
            None => new_missing(ctx, hir, types),
            Some(o) => {
                let v = lower_boxed(ctx, hir, types, operand);
                let ghost c1 = *ctx;
                let ghost t1 = *types;
                let id = new_expr(ctx, hir, types, Expr::Unary { op: *o, operand: v });
                proof {
                    lemma_stepped_trans(c0, t0, c1, t1, *ctx, *types, *hir, boxed_size(*operand), 1);
                    lemma_keep_boxed(*operand, c1, t1, *ctx, *types, *hir, 1, v, old(ctx).scopes@, *hir);
                }
                id
            },
        },
        _ => unreached(),
    }
}

/// `*p`.
fn lower_deref(ctx: &mut BodyCtx, hir: &HIR, types: &mut TypeInterner, e: &SynExpr) -> (id: ExprId)
    requires
        ready(*old(ctx), *hir, *old(types), expr_size(*e)),
        *e is Deref,
    ensures
        stepped(*old(ctx), *old(types), *final(ctx), *final(types), *hir, expr_size(*e)),
        lowered(*e, final(ctx).shape(*final(types)), id, old(ctx).scopes@, *hir),
    decreases e, 1nat,
{
    let ghost c0 = *ctx;
    let ghost t0 = *types;
    match e {
        SynExpr::Deref(op) => {
            let v = lower_boxed(ctx, hir, types, op);
            let ghost c1 = *ctx;
            let ghost t1 = *types;
            let id = new_expr(ctx, hir, types, Expr::Deref { operand: v });
            proof {
                lemma_stepped_trans(c0, t0, c1, t1, *ctx, *types, *hir, boxed_size(*op), 1);
                lemma_keep_boxed(*op, c1, t1, *ctx, *types, *hir, 1, v, old(ctx).scopes@, *hir);
            }
            id
        },
        _ => unreached(),
    }
}

/// `base[index]`.
fn lower_index(ctx: &mut BodyCtx, hir: &HIR, types: &mut TypeInterner, e: &SynExpr) -> (id: ExprId)
    requires
        ready(*old(ctx), *hir, *old(types), expr_size(*e)),
        *e is Index,
    ensures
        stepped(*old(ctx), *old(types), *final(ctx), *final(types), *hir, expr_size(*e)),
        lowered(*e, final(ctx).shape(*final(types)), id, old(ctx).scopes@, *hir),
    decreases e, 1nat,
{
    let ghost c0 = *ctx;
    let ghost t0 = *types;
    match e {
        SynExpr::Index { base, index } => {
            let b = lower_boxed(ctx, hir, types, base);
            let ghost c1 = *ctx;
            let ghost t1 = *types;
            let i = lower_boxed(ctx, hir, types, index);
            let ghost c2 = *ctx;
            let ghost t2 = *types;
            let id = new_expr(ctx, hir, types, Expr::Index { base: b, index: i });
            proof {
                lemma_stepped_trans(c1, t1, c2, t2, *ctx, *types, *hir, boxed_size(*index), 1);
                lemma_stepped_trans(c0, t0, c1, t1, *ctx, *types, *hir, boxed_size(*base), boxed_size(*index) + 1);
                lemma_keep_boxed(*base, c1, t1, *ctx, *types, *hir, boxed_size(*index) + 1, b, old(ctx).scopes@, *hir);
                lemma_keep_boxed(*index, c2, t2, *ctx, *types, *hir, 1, i, old(ctx).scopes@, *hir);
            }
            id
        },
        _ => unreached(),
    }
}

/// `return` with or without a value.
fn lower_return(ctx: &mut BodyCtx, hir: &HIR, types: &mut TypeInterner, e: &SynExpr) -> (id: ExprId)
    requires
        ready(*old(ctx), *hir, *old(types), expr_size(*e)),
        *e is Return,
    ensures
        stepped(*old(ctx), *old(types), *final(ctx), *final(types), *hir, expr_size(*e)),
        lowered(*e, final(ctx).shape(*final(types)), id, old(ctx).scopes@, *hir),
    decreases e, 1nat,
{
    let ghost c0 = *ctx;
    let ghost t0 = *types;
    match e {
        SynExpr::Return(v) => {
            let r = match v {
                Some(b) => Some(lower_expr(ctx, hir, types, b)),
                None => {
                    proof {
                        lemma_stepped_refl(*ctx, *types, *hir);
                    }
                    None
                },
            };
            let ghost c1 = *ctx;
            let ghost t1 = *types;
            let id = new_expr(ctx, hir, types, Expr::Return(r));
            proof {
                lemma_stepped_trans(c0, t0, c1, t1, *ctx, *types, *hir, boxed_size(*v), 1);
                if let Some(b) = v {
                    lemma_keep_lowered(**b, c1, t1, *ctx, *types, *hir, 1, r.unwrap(), old(ctx).scopes@, *hir);
                }
            }
            id
        },
        _ => unreached(),
    }
}

// ---------------------------------------------------------------------------
// More allocation.

/// The state stays consistent when the arenas grow without touching the
/// entries already there, the new expressions are well placed, and every
/// scope binding points into the grown arenas.
proof fn lemma_wf_rebind(c0: BodyCtx, t0: TypeInterner, c1: BodyCtx, t1: TypeInterner, hir: HIR)
    requires
        ctx_wf(c0, hir, t0),
        extends(c0.shape(t0), c1.shape(t1)),
        forall|i: int|
            c0.body.exprs@.len() <= i < c1.body.exprs@.len() ==> expr_ok(
                #[trigger] c1.body.exprs@[i],
                i,
                hir,
                c1.shape(t1),
            ),
        forall|f: int, n: Seq<char>|
            0 <= f < c1.scopes@.len() && #[trigger] c1.scopes@[f].contains_key(n) ==> binding_ok(
                c1.scopes@[f][n],
                c1.shape(t1),
            ),
    ensures
        ctx_wf(c1, hir, t1),
{
    let (s0, s1) = (c0.shape(t0), c1.shape(t1));
    lemma_shape_at(s0, s1);
    assert forall|i: int| 0 <= i < s1.exprs.len() implies expr_ok(#[trigger] s1.exprs[i], i, hir, s1) by {
        if i < s0.exprs.len() {
            lemma_expr_ok_grow(s0.exprs[i], i, hir, s0, s1);
        }
    }
}

/// Allocates the pattern `p`.
fn new_pat(ctx: &mut BodyCtx, hir: &HIR, types: &TypeInterner, p: Pat) -> (id: PatId)
    requires
        ctx_wf(*old(ctx), *hir, *types),
        old(ctx).body.pats@.len() < u32::MAX,
    ensures
        id.0 == old(ctx).body.pats@.len(),
        final(ctx).body.pats@ == old(ctx).body.pats@.push(p),
        final(ctx).body.exprs == old(ctx).body.exprs,
        final(ctx).body.locals == old(ctx).body.locals,
        ctx_wf(*final(ctx), *hir, *types),
        progress(*old(ctx), *types, *final(ctx), *types, 1),
        final(ctx).scopes@ == old(ctx).scopes@,
        final(ctx).diagnostics@ == old(ctx).diagnostics@,
{
    let id = ctx.body.pats.allocate(p);
    proof {
        lemma_prefix_push(old(ctx).body.pats@, p);
        lemma_prefix_refl(ctx.body.exprs@);
        lemma_prefix_refl(ctx.body.stmts@);
        lemma_prefix_refl(ctx.body.blocks@);
        lemma_prefix_refl(ctx.shape(*types).locals);
        lemma_prefix_refl(ctx.shape(*types).lconsts);
        lemma_prefix_refl(ctx.diagnostics@);
        lemma_prefix_refl(types@);
        lemma_wf_grow(*old(ctx), *types, *ctx, *types, *hir);
    }
    id
}

/// Allocates the statement `st`.
fn new_stmt(ctx: &mut BodyCtx, hir: &HIR, types: &TypeInterner, st: Stmt) -> (id: StmtId)
    requires
        ctx_wf(*old(ctx), *hir, *types),
        old(ctx).body.stmts@.len() < u32::MAX,
    ensures
        id.0 == old(ctx).body.stmts@.len(),
        final(ctx).body.stmts@ == old(ctx).body.stmts@.push(st),
        ctx_wf(*final(ctx), *hir, *types),
        progress(*old(ctx), *types, *final(ctx), *types, 1),
        final(ctx).scopes@ == old(ctx).scopes@,
        final(ctx).diagnostics@ == old(ctx).diagnostics@,
{
    let id = ctx.body.stmts.allocate(st);
    proof {
        lemma_prefix_push(old(ctx).body.stmts@, st);
        lemma_prefix_refl(ctx.body.exprs@);
        lemma_prefix_refl(ctx.body.pats@);
        lemma_prefix_refl(ctx.body.blocks@);
        lemma_prefix_refl(ctx.shape(*types).locals);
        lemma_prefix_refl(ctx.shape(*types).lconsts);
        lemma_prefix_refl(ctx.diagnostics@);
        lemma_prefix_refl(types@);
        lemma_wf_grow(*old(ctx), *types, *ctx, *types, *hir);
    }
    id
}

/// Allocates the block `blk`.
fn new_block(ctx: &mut BodyCtx, hir: &HIR, types: &TypeInterner, blk: Block) -> (id: BlockId)
    requires
        ctx_wf(*old(ctx), *hir, *types),
        old(ctx).body.blocks@.len() < u32::MAX,
    ensures
        id.0 == old(ctx).body.blocks@.len(),
        final(ctx).body.blocks@ == old(ctx).body.blocks@.push(blk),
        ctx_wf(*final(ctx), *hir, *types),
        progress(*old(ctx), *types, *final(ctx), *types, 1),
        final(ctx).scopes@ == old(ctx).scopes@,
        final(ctx).diagnostics@ == old(ctx).diagnostics@,
{
    let id = ctx.body.blocks.allocate(blk);
    proof {
        lemma_prefix_push(old(ctx).body.blocks@, blk);
        lemma_prefix_refl(ctx.body.exprs@);
        lemma_prefix_refl(ctx.body.pats@);
        lemma_prefix_refl(ctx.body.stmts@);
        lemma_prefix_refl(ctx.shape(*types).locals);
        lemma_prefix_refl(ctx.shape(*types).lconsts);
        lemma_prefix_refl(ctx.diagnostics@);
        lemma_prefix_refl(types@);
        lemma_wf_grow(*old(ctx), *types, *ctx, *types, *hir);
    }
    id
}

/// Reports every name in the type `ty` that is neither a primitive nor a
/// type the items declare.
fn check_type_names(ctx: &mut BodyCtx, hir: &HIR, types: &TypeInterner, ty: TypeRef)
    requires
        ctx_wf(*old(ctx), *hir, *types),
        types.wf(),
    ensures
        final(ctx).body == old(ctx).body,
        final(ctx).scopes@ == old(ctx).scopes@,
        final(ctx).diagnostics@.len() == old(ctx).diagnostics@.len() + unknown_names_of(types@, hir.items@, ty).len(),
        (ty.0 as int) < types@.len() ==> type_names_reported(final(ctx).shape(*types), ty, *hir),
        ctx_wf(*final(ctx), *hir, *types),
        progress(*old(ctx), *types, *final(ctx), *types, 0),
{
    let names = unknown_type_names(ty, types, hir);
    let ghost ns = unknown_names_of(types@, hir.items@, ty);
    let mut i: usize = 0;
    proof {
        lemma_progress_refl(*ctx, *types);
    }
    while i < names.len()
        invariant
            i <= names@.len(),
            names@.map_values(|s: String| s@) == ns,
            ns == unknown_names_of(types@, hir.items@, ty),
            ctx.body == old(ctx).body,
            ctx.scopes@ == old(ctx).scopes@,
            ctx.diagnostics@.len() == old(ctx).diagnostics@.len() + i,
            ctx_wf(*ctx, *hir, *types),
            progress(*old(ctx), *types, *ctx, *types, 0),
            forall|j: int| 0 <= j < i ==> type_name_reported(ctx.diagnostics@, #[trigger] ns[j]),
        decreases names@.len() - i,
    {
        let ghost c1 = *ctx;
        report(ctx, hir, types, HirError::Resolve(ResolveError::UnknownTypeName { name: names[i].clone() }));
        proof {
            lemma_progress_trans(*old(ctx), *types, c1, *types, *ctx, *types, 0, 0);
            assert(ns[i as int] == names@[i as int]@);
            assert(is_unknown_type_err(ctx.diagnostics@[c1.diagnostics@.len() as int], ns[i as int]));
            assert forall|j: int| 0 <= j < i + 1 implies type_name_reported(ctx.diagnostics@, #[trigger] ns[j]) by {
                if j < i {
                    let k = choose|k: int| 0 <= k < c1.diagnostics@.len() && is_unknown_type_err(#[trigger] c1.diagnostics@[k], ns[j]);
                    assert(ctx.diagnostics@[k] == c1.diagnostics@[k]);
                } else {
                    assert(is_unknown_type_err(ctx.diagnostics@[c1.diagnostics@.len() as int], ns[j]));
                }
            }
        }
        i = i + 1;
    }
}

proof fn lemma_exprs_size_take(es: Seq<SynExpr>, i: int)
    requires
        0 <= i < es.len(),
    ensures
        exprs_size(es.take(i + 1)) == exprs_size(es.take(i)) + expr_size(es[i]),
        exprs_size(es.take(i + 1)) <= exprs_size(es),
    decreases es.len() - i,
{
    assert(es.take(i + 1).drop_last() =~= es.take(i));
    assert(es.take(i + 1).last() == es[i]);
    if i + 1 < es.len() {
        lemma_exprs_size_take(es, i + 1);
    } else {
        assert(es.take(i + 1) =~= es);
    }
}

proof fn lemma_fields_size_take(fs: Seq<SynField>, i: int)
    requires
        0 <= i < fs.len(),
    ensures
        fields_size(fs.take(i + 1)) == fields_size(fs.take(i)) + 4 + opt_size(fs[i].value),
        fields_size(fs.take(i + 1)) <= fields_size(fs),
    decreases fs.len() - i,
{
    assert(fs.take(i + 1).drop_last() =~= fs.take(i));
    assert(fs.take(i + 1).last() == fs[i]);
    if i + 1 < fs.len() {
        lemma_fields_size_take(fs, i + 1);
    } else {
        assert(fs.take(i + 1) =~= fs);
    }
}

proof fn lemma_arms_size_take(arms: Seq<SynArm>, i: int)
    requires
        0 <= i < arms.len(),
    ensures
        arms_size(arms.take(i + 1)) == arms_size(arms.take(i)) + arm_size(arms[i]),
        arms_size(arms.take(i + 1)) <= arms_size(arms),
    decreases arms.len() - i,
{
    assert(arms.take(i + 1).drop_last() =~= arms.take(i));
    assert(arms.take(i + 1).last() == arms[i]);
    if i + 1 < arms.len() {
        lemma_arms_size_take(arms, i + 1);
    } else {
        assert(arms.take(i + 1) =~= arms);
    }
}

proof fn lemma_stmts_size_take(ss: Seq<SynStmt>, i: int)
    requires
        0 <= i < ss.len(),
    ensures
        stmts_size(ss.take(i + 1)) == stmts_size(ss.take(i)) + stmt_size(ss[i]),
        stmts_size(ss.take(i + 1)) <= stmts_size(ss),
    decreases ss.len() - i,
{
    assert(ss.take(i + 1).drop_last() =~= ss.take(i));
    assert(ss.take(i + 1).last() == ss[i]);
    if i + 1 < ss.len() {
        lemma_stmts_size_take(ss, i + 1);
    } else {
        assert(ss.take(i + 1) =~= ss);
    }
}

/// Lowers the expressions `es` in order.
fn lower_exprs(ctx: &mut BodyCtx, hir: &HIR, types: &mut TypeInterner, es: &Vec<SynExpr>) -> (ids: Vec<ExprId>)
    requires
        ready(*old(ctx), *hir, *old(types), exprs_size(es@)),
    ensures
        stepped(*old(ctx), *old(types), *final(ctx), *final(types), *hir, exprs_size(es@)),
        ids@.len() == es@.len(),
        forall|k: int| 0 <= k < es@.len() ==> lowered(es@[k], final(ctx).shape(*final(types)), #[trigger] ids@[k], old(ctx).scopes@, *hir),
    decreases es, 2nat,
{
    let ghost c0 = *ctx;
    let ghost t0 = *types;
    let mut ids: Vec<ExprId> = Vec::new();
    let mut i: usize = 0;
    proof {
        lemma_stepped_refl(*ctx, *types, *hir);
        assert(es@.take(0) =~= Seq::<SynExpr>::empty());
    }
    while i < es.len()
        invariant
            hir.wf(),
            i <= es@.len(),
            ids@.len() == i,
            fits(c0.shape(t0), exprs_size(es@)),
            stepped(c0, t0, *ctx, *types, *hir, exprs_size(es@.take(i as int))),
            exprs_size(es@.take(i as int)) <= exprs_size(es@),
            forall|k: int| 0 <= k < i ==> lowered(es@[k], ctx.shape(*types), #[trigger] ids@[k], old(ctx).scopes@, *hir),
            c0.scopes@ == old(ctx).scopes@,
        decreases es@.len() - i,
    {
        let ghost c1 = *ctx;
        let ghost t1 = *types;
        proof {
            lemma_exprs_size_take(es@, i as int);
            vstd::std_specs::vec::axiom_vec_index_decreases(*es, i as int);
        }
        let x = lower_expr(ctx, hir, types, &es[i]);
        proof {
            lemma_stepped_trans(c0, t0, c1, t1, *ctx, *types, *hir, exprs_size(es@.take(i as int)), expr_size(es@[i as int]));
            assert forall|k: int| 0 <= k < i implies lowered(es@[k], ctx.shape(*types), #[trigger] ids@[k], old(ctx).scopes@, *hir) by {
                lemma_keep_lowered(es@[k], c1, t1, *ctx, *types, *hir, expr_size(es@[i as int]), ids@[k], old(ctx).scopes@, *hir);
            }
        }
        ids.push(x);
        i = i + 1;
    }
    proof {
        assert(es@.take(es@.len() as int) =~= es@);
    }
    ids
}

/// `[a, b, c]`.
fn lower_array_lit(ctx: &mut BodyCtx, hir: &HIR, types: &mut TypeInterner, e: &SynExpr) -> (id: ExprId)
    requires
        ready(*old(ctx), *hir, *old(types), expr_size(*e)),
        *e is ArrayLit,
    ensures
        stepped(*old(ctx), *old(types), *final(ctx), *final(types), *hir, expr_size(*e)),
        lowered(*e, final(ctx).shape(*final(types)), id, old(ctx).scopes@, *hir),
    decreases e, 1nat,
{
    let ghost c0 = *ctx;
    let ghost t0 = *types;
    match e {
        SynExpr::ArrayLit(es) => {
            let ids = lower_exprs(ctx, hir, types, es);
            let ghost c1 = *ctx;
            let ghost t1 = *types;
            let id = new_expr(ctx, hir, types, Expr::ArrayLit(ids));
            proof {
                lemma_stepped_trans(c0, t0, c1, t1, *ctx, *types, *hir, exprs_size(es@), 1);
                assert forall|k: int| 0 <= k < es@.len() implies lowered(es[k], ctx.shape(*types), #[trigger] ids@[k], old(ctx).scopes@, *hir) by {
                    lemma_keep_lowered(es@[k], c1, t1, *ctx, *types, *hir, 1, ids@[k], old(ctx).scopes@, *hir);
                }
            }
            id
        },
        _ => unreached(),
    }
}

/// `[value; count]`: the count is a constant length.
fn lower_array_repeat(ctx: &mut BodyCtx, hir: &HIR, types: &mut TypeInterner, e: &SynExpr) -> (id: ExprId)
    requires
        ready(*old(ctx), *hir, *old(types), expr_size(*e)),
        *e is ArrayRepeat,
    ensures
        stepped(*old(ctx), *old(types), *final(ctx), *final(types), *hir, expr_size(*e)),
        lowered(*e, final(ctx).shape(*final(types)), id, old(ctx).scopes@, *hir),
    decreases e, 1nat,
{
    let ghost c0 = *ctx;
    let ghost t0 = *types;
    match e {
        SynExpr::ArrayRepeat { value, count } => {
            let v = lower_boxed(ctx, hir, types, value);
            let ghost c1 = *ctx;
            let ghost t1 = *types;
            let n = array_len(count, &ctx.scopes, &ctx.body.local_consts, hir, &mut ctx.diagnostics);
            let n = match n {
                Some(n) => n,
                None => 0,
            };
            let ghost c2 = *ctx;
            proof {
                lemma_prefix_refl(t1@);
                lemma_step_types_diags(c1, t1, c2, t1, *hir, 0);
            }
            let id = new_expr(ctx, hir, types, Expr::ArrayRepeat { value: v, count: n });
            proof {
                lemma_stepped_trans(c1, t1, c2, t1, *ctx, *types, *hir, 0, 1);
                lemma_stepped_trans(c0, t0, c1, t1, *ctx, *types, *hir, boxed_size(*value), 1);
                lemma_keep_boxed(*value, c1, t1, *ctx, *types, *hir, 1, v, old(ctx).scopes@, *hir);
            }
            id
        },
        _ => unreached(),
    }
}

/// `base.name`; a bare enum name as base makes it a variant path.
fn lower_field(ctx: &mut BodyCtx, hir: &HIR, types: &mut TypeInterner, e: &SynExpr) -> (id: ExprId)
    requires
        ready(*old(ctx), *hir, *old(types), expr_size(*e)),
        *e is Field,
    ensures
        stepped(*old(ctx), *old(types), *final(ctx), *final(types), *hir, expr_size(*e)),
        lowered(*e, final(ctx).shape(*final(types)), id, old(ctx).scopes@, *hir),
    decreases e, 1nat,
{
    let ghost c0 = *ctx;
    let ghost t0 = *types;
    match e {
        SynExpr::Field { base, name, .. } => {
            if let Some(b) = base {
                if let SynExpr::NameRef(bn) = &**b {
                    match variant_access(hir, bn.as_str(), name.as_str()) {
                        Some(Ok(res)) => {
                            proof {
                                assert(items_wf(hir.items_view()));
                            }
                            return new_expr(ctx, hir, types, Expr::Path(res));
                        },
                        Some(Err(err)) => {
                            report(ctx, hir, types, HirError::Resolve(err));
                            let ghost c1 = *ctx;
                            let id = new_missing(ctx, hir, types);
                            proof {
                                lemma_progress_trans(c0, t0, c1, t0, *ctx, *types, 0, 1);
                                assert(is_no_such_variant(ctx.diagnostics@[c0.diagnostics@.len() as int], bn@, name@));
                            }
                            return id;
                        },
                        None => {},
                    }
                }
            }
            let bid = lower_boxed(ctx, hir, types, base);
            let ghost c1 = *ctx;
            let ghost t1 = *types;
            let id = new_expr(ctx, hir, types, Expr::Field { base: bid, name: name.clone() });
            proof {
                lemma_stepped_trans(c0, t0, c1, t1, *ctx, *types, *hir, boxed_size(*base), 1);
                lemma_keep_boxed(*base, c1, t1, *ctx, *types, *hir, 1, bid, old(ctx).scopes@, *hir);
            }
            id
        },
        _ => unreached(),
    }
}

/// `lhs op= rhs`: a constant is not storage, and an immutable binding may
/// not be written.
fn lower_assign(ctx: &mut BodyCtx, hir: &HIR, types: &mut TypeInterner, e: &SynExpr) -> (id: ExprId)
    requires
        ready(*old(ctx), *hir, *old(types), expr_size(*e)),
        *e is Assign,
    ensures
        stepped(*old(ctx), *old(types), *final(ctx), *final(types), *hir, expr_size(*e)),
        lowered(*e, final(ctx).shape(*final(types)), id, old(ctx).scopes@, *hir),
    decreases e, 1nat,
{
    let ghost c0 = *ctx;
    let ghost t0 = *types;
    match e {
        SynExpr::Assign { op, lhs, rhs } => {
            let l = lower_boxed(ctx, hir, types, lhs);
            let ghost c1 = *ctx;
            let ghost t1 = *types;
            let r = lower_boxed(ctx, hir, types, rhs);
            let ghost c2 = *ctx;
            let ghost t2 = *types;
            proof {
                lemma_keep_boxed(*lhs, c1, t1, *ctx, *types, *hir, boxed_size(*rhs), l, old(ctx).scopes@, *hir);
                lemma_wf_facts(*ctx, *hir, *types);
            }
            if let Some(err) = assign_to_const_error(ctx.body.exprs.get(l), hir, &ctx.body.local_consts) {
                report(ctx, hir, types, HirError::Const(err));
                proof {
                    let e = ctx.diagnostics@[c2.diagnostics@.len() as int];
                    match c2.body.exprs@[l.0 as int] {
                        Expr::Path(Resolution::Const(c)) => assert(is_assign_to_const(e, hir.consts@[c.0 as int].name@)),
                        Expr::Path(Resolution::LocalConst(c)) => assert(is_assign_to_const(
                            e,
                            c2.shape(t2).lconsts[c.0 as int],
                        )),
                        _ => {},
                    }
                }
            } else {
                proof {
                    lemma_progress_refl(*ctx, *types);
                }
            }
            let ghost c3 = *ctx;
            proof {
                lemma_wf_facts(*ctx, *hir, *types);
            }
            if let Some(nm) = immutable_assign_target(&ctx.body.exprs, &ctx.body.locals, &hir.globals, l) {
                report(ctx, hir, types, HirError::Type(TypeError::AssignToImmutable { name: nm }));
            } else {
                proof {
                    lemma_progress_refl(*ctx, *types);
                }
            }
            let ghost c4 = *ctx;
            let id = new_expr(ctx, hir, types, Expr::Assign { op: *op, lhs: l, rhs: r });
            proof {
                lemma_progress_trans(c2, t2, c3, t2, c4, t2, 0, 0);
                lemma_progress_trans(c2, t2, c4, t2, *ctx, *types, 0, 1);
                lemma_stepped_trans(c1, t1, c2, t2, *ctx, *types, *hir, boxed_size(*rhs), 1);
                lemma_stepped_trans(c0, t0, c1, t1, *ctx, *types, *hir, boxed_size(*lhs), boxed_size(*rhs) + 1);
                lemma_keep_boxed(*lhs, c1, t1, *ctx, *types, *hir, boxed_size(*rhs) + 1, l, old(ctx).scopes@, *hir);
                lemma_keep_boxed(*rhs, c2, t2, *ctx, *types, *hir, 1, r, old(ctx).scopes@, *hir);
                lemma_boxed_below(*lhs, c2.shape(t2), l, old(ctx).scopes@, *hir);
                assert(assign_const_reported(c3.shape(t2), l, *hir));
                lemma_progress_trans(c3, t2, c4, t2, *ctx, *types, 0, 1);
                lemma_assign_const_grow(c3.shape(t2), ctx.shape(*types), l, *hir);
            }
            id
        },
        _ => unreached(),
    }
}

/// `&operand`: a constant has no address, and a non-place would take the
/// address of a temporary; either gives `Missing`.
fn lower_ref(ctx: &mut BodyCtx, hir: &HIR, types: &mut TypeInterner, e: &SynExpr) -> (id: ExprId)
    requires
        ready(*old(ctx), *hir, *old(types), expr_size(*e)),
        *e is Ref,
    ensures
        stepped(*old(ctx), *old(types), *final(ctx), *final(types), *hir, expr_size(*e)),
        lowered(*e, final(ctx).shape(*final(types)), id, old(ctx).scopes@, *hir),
    decreases e, 1nat,
{
    let ghost c0 = *ctx;
    let ghost t0 = *types;
    match e {
        SynExpr::Ref(op) => {
            let v = lower_boxed(ctx, hir, types, op);
            let ghost c1 = *ctx;
            let ghost t1 = *types;
            proof {
                lemma_wf_facts(*ctx, *hir, *types);
            }
            match ref_operand_error(ctx.body.exprs.get(v), hir, &ctx.body.local_consts) {
                Some(err) => {
                    report(ctx, hir, types, err);
                    let ghost c2 = *ctx;
                    let id = new_missing(ctx, hir, types);
                    proof {
                        lemma_progress_trans(c1, t1, c2, t1, *ctx, *types, 0, 1);
                        lemma_stepped_trans(c0, t0, c1, t1, *ctx, *types, *hir, boxed_size(*op), 1);
                        assert(is_ref_error(ctx.diagnostics@[c1.diagnostics@.len() as int]));
                    }
                    id
                },
                None => {
                    let id = new_expr(ctx, hir, types, Expr::Ref { operand: v });
                    proof {
                        lemma_stepped_trans(c0, t0, c1, t1, *ctx, *types, *hir, boxed_size(*op), 1);
                        lemma_keep_boxed(*op, c1, t1, *ctx, *types, *hir, 1, v, old(ctx).scopes@, *hir);
                        lemma_boxed_below(*op, c1.shape(t1), v, old(ctx).scopes@, *hir);
                        assert(ctx.body.exprs@[v.0 as int] == c1.body.exprs@[v.0 as int]);
                    }
                    id
                },
            }
        },
        _ => unreached(),
    }
}

/// `operand as ty`: the target's names must be declared types.
fn lower_cast(ctx: &mut BodyCtx, hir: &HIR, types: &mut TypeInterner, e: &SynExpr) -> (id: ExprId)
    requires
        ready(*old(ctx), *hir, *old(types), expr_size(*e)),
        *e is Cast,
    ensures
        stepped(*old(ctx), *old(types), *final(ctx), *final(types), *hir, expr_size(*e)),
        lowered(*e, final(ctx).shape(*final(types)), id, old(ctx).scopes@, *hir),
    decreases e, 1nat,
{
    let ghost c0 = *ctx;
    let ghost t0 = *types;
    match e {
        SynExpr::Cast { operand, ty } => {
            let o = lower_boxed(ctx, hir, types, operand);
            let ghost c1 = *ctx;
            let ghost t1 = *types;
            let t = lower_opt_type(ctx, hir, types, ty);
            let ghost c2 = *ctx;
            let ghost t2 = *types;
            check_type_names(ctx, hir, types, t);
            let ghost c3 = *ctx;
            let id = new_expr(ctx, hir, types, Expr::Cast { operand: o, ty: t });
            proof {
                lemma_progress_trans(c2, t2, c3, t2, *ctx, *types, 0, 1);
                lemma_stepped_trans(c1, t1, c2, t2, *ctx, *types, *hir, opt_type_size(*ty), 1);
                lemma_stepped_trans(c0, t0, c1, t1, *ctx, *types, *hir, boxed_size(*operand), opt_type_size(*ty) + 1);
                lemma_keep_boxed(*operand, c1, t1, *ctx, *types, *hir, opt_type_size(*ty) + 1, o, old(ctx).scopes@, *hir);
                lemma_type_names_grow(c3.shape(t2), ctx.shape(*types), t, *hir);
            }
            id
        },
        _ => unreached(),
    }
}

/// The type `sizeof` reads from its arguments: one bare type name.
fn sizeof_type(ctx: &mut BodyCtx, hir: &HIR, types: &mut TypeInterner, args: &Vec<SynExpr>) -> (t: TypeRef)
    requires
        hir.wf(),
        old(types).wf(),
        ctx_wf(*old(ctx), *hir, *old(types)),
        old(types)@.len() + 1 < u32::MAX,
    ensures
        stepped(*old(ctx), *old(types), *final(ctx), *final(types), *hir, 1),
        final(ctx).body == old(ctx).body,
        sizeof_lowered(args@, final(ctx).shape(*final(types)), t),
{
    let ghost c0 = *ctx;
    let ghost t0 = *types;
    if args.len() != 1 {
        report(ctx, hir, types, HirError::Type(TypeError::SizeofArity { found: args.len() }));
        proof {
            lemma_prefix_refl(t0@);
            lemma_step_types_diags(c0, t0, *ctx, *types, *hir, 1);
            assert(ctx.diagnostics@[c0.diagnostics@.len() as int] == HirError::Type(
                TypeError::SizeofArity { found: args.len() },
            ));
        }
        types.error_type()
    } else {
        match &args[0] {
            SynExpr::NameRef(n) => {
                let t = intern_kind(types, TypeKind::Path(n.clone()));
                proof {
                    lemma_prefix_refl(c0.diagnostics@);
                    lemma_step_types_diags(c0, t0, *ctx, *types, *hir, 1);
                }
                t
            },
            _ => {
                report(ctx, hir, types, HirError::Type(TypeError::SizeofNotAType));
                proof {
                    lemma_prefix_refl(t0@);
                    lemma_step_types_diags(c0, t0, *ctx, *types, *hir, 1);
                    assert(ctx.diagnostics@[c0.diagnostics@.len() as int] == HirError::Type(TypeError::SizeofNotAType));
                }
                types.error_type()
            },
        }
    }
}

/// A call; `sizeof`, `len` and `println` called by an undeclared name are
/// the intrinsics.
fn lower_call(ctx: &mut BodyCtx, hir: &HIR, types: &mut TypeInterner, e: &SynExpr) -> (id: ExprId)
    requires
        ready(*old(ctx), *hir, *old(types), expr_size(*e)),
        *e is Call,
    ensures
        stepped(*old(ctx), *old(types), *final(ctx), *final(types), *hir, expr_size(*e)),
        lowered(*e, final(ctx).shape(*final(types)), id, old(ctx).scopes@, *hir),
    decreases e, 1nat,
{
    let ghost c0 = *ctx;
    let ghost t0 = *types;
    match e {
        SynExpr::Call { callee, args } => {
            let c = match callee {
                Some(b) => match &**b {
                    SynExpr::NameRef(n) => lower_name(ctx, hir, types, n, true),
                    _ => lower_expr(ctx, hir, types, b),
                },
                None => new_missing(ctx, hir, types),
            };
            let ghost c1 = *ctx;
            let ghost t1 = *types;
            assert(callee_lowered(*callee, c1.shape(t1), c, old(ctx).scopes@, *hir));
            let mut intrinsic: Option<&String> = None;
            if let Some(b) = callee {
                if let SynExpr::NameRef(n) = &**b {
                    if let Expr::Path(Resolution::Unresolved(_)) = ctx.body.exprs.get(c) {
                        intrinsic = Some(n);
                    }
                }
            }
            let is_sizeof = match intrinsic {
                Some(n) => str_eq(n.as_str(), "sizeof"),
                None => false,
            };
            let is_len = match intrinsic {
                Some(n) => str_eq(n.as_str(), "len"),
                None => false,
            };
            let is_println = match intrinsic {
                Some(n) => str_eq(n.as_str(), "println"),
                None => false,
            };
            proof {
                lemma_intrinsic_callee(*callee, c1.shape(t1), c, old(ctx).scopes@, hir.items@);
                reveal_strlit("sizeof");
                reveal_strlit("len");
                reveal_strlit("println");
                assert(is_sizeof == intrinsic_call(*callee, old(ctx).scopes@, hir.items@, "sizeof"@));
                assert(is_len == intrinsic_call(*callee, old(ctx).scopes@, hir.items@, "len"@));
            }
            if is_sizeof {
                let t = sizeof_type(ctx, hir, types, args);
                let ghost c2 = *ctx;
                let ghost t2 = *types;
                let id = new_expr(ctx, hir, types, Expr::SizeOf(t));
                proof {
                    lemma_stepped_trans(c1, t1, c2, t2, *ctx, *types, *hir, 1, 1);
                    lemma_stepped_trans(c0, t0, c1, t1, *ctx, *types, *hir, boxed_size(*callee), 2);
                }
                return id;
            }
            let ids = lower_exprs(ctx, hir, types, args);
            let ghost c2 = *ctx;
            let ghost t2 = *types;
            proof {
                lemma_stepped_trans(c0, t0, c1, t1, c2, t2, *hir, boxed_size(*callee), exprs_size(args@));
                lemma_callee_extends(*callee, c1.shape(t1), c2.shape(t2), c, old(ctx).scopes@, *hir);
                lemma_wf_facts(*ctx, *hir, *types);
            }
            if is_len {
                let err = len_intrinsic_error(&ids, &ctx.body.exprs);
                if ids.len() != 1 {
                    report(ctx, hir, types, HirError::Type(err.unwrap()));
                    let ghost c3 = *ctx;
                    let id = new_missing(ctx, hir, types);
                    proof {
                        lemma_progress_trans(c2, t2, c3, t2, *ctx, *types, 0, 1);
                        lemma_stepped_trans(c0, t0, c2, t2, *ctx, *types, *hir, boxed_size(*callee) + exprs_size(args@), 1);
                        assert(ctx.diagnostics@[c2.diagnostics@.len() as int] == HirError::Type(
                            TypeError::LenArity { found: args@.len() as usize },
                        ));
                    }
                    return id;
                }
                if let Some(er) = err {
                    report(ctx, hir, types, HirError::Type(er));
                    proof {
                        assert(ctx.diagnostics@[c2.diagnostics@.len() as int] == HirError::Type(TypeError::LenNotAPlace));
                    }
                } else {
                    proof {
                        lemma_progress_refl(*ctx, *types);
                    }
                }
                let ghost c3 = *ctx;
                let id = new_expr(ctx, hir, types, Expr::Len(ids[0]));
                proof {
                    lemma_progress_trans(c2, t2, c3, t2, *ctx, *types, 0, 1);
                    lemma_stepped_trans(c0, t0, c2, t2, *ctx, *types, *hir, boxed_size(*callee) + exprs_size(args@), 1);
                    lemma_keep_lowered(args@[0], c2, t2, *ctx, *types, *hir, 1, ids@[0], old(ctx).scopes@, *hir);
                }
                return id;
            }
            if is_println {
                let fmt: Option<&str> = if ids.len() > 0 {
                    match ctx.body.exprs.get(ids[0]) {
                        Expr::Literal(Literal::String(s)) => Some(s.as_str()),
                        _ => None,
                    }
                } else {
                    None
                };
                proof {
                    if ids@.len() > 0 {
                        assert(c2.shape(t2).exprs[ids@[0].0 as int] == c2.body.exprs@[ids@[0].0 as int]);
                    }
                }
                if let Some(er) = check_println_args(ids.len(), fmt) {
                    report(ctx, hir, types, HirError::Type(er));
                    proof {
                        assert(println_error_of(c2.shape(t2), ids@) == Some(er));
                        assert(ctx.diagnostics@[c2.diagnostics@.len() as int] == HirError::Type(er));
                        assert(reported(ctx.diagnostics@, HirError::Type(er)));
                        assert(println_error_of(ctx.shape(*types), ids@) == Some(er));
                    }
                } else {
                    proof {
                        lemma_progress_refl(*ctx, *types);
                    }
                }
            } else {
                let fid = match ctx.body.exprs.get(c) {
                    Expr::Path(Resolution::Fn(f)) => Some(*f),
                    _ => None,
                };
                match fid {
                    Some(f) => {
                        if let Some(er) = call_arity_error(hir.functions.get(f), ids.len()) {
                            report(ctx, hir, types, HirError::Type(er));
                            proof {
                                let fd = hir.functions@[f.0 as int];
                                assert(is_arity_err(ctx.diagnostics@[c2.diagnostics@.len() as int], fd, args@.len()));
                            }
                        } else {
                            proof {
                                lemma_progress_refl(*ctx, *types);
                            }
                        }
                    },
                    None => {
                        proof {
                            lemma_progress_refl(*ctx, *types);
                        }
                    },
                }
            }
            let ghost c3 = *ctx;
            proof {
                lemma_shape_at(c2.shape(t2), c3.shape(t2));
                assert(is_println ==> println_reported(c3.shape(t2), *callee, c, ids@));
            }
            let id = new_expr(ctx, hir, types, Expr::Call { callee: c, args: ids });
            proof {
                lemma_progress_trans(c2, t2, c3, t2, *ctx, *types, 0, 1);
                lemma_stepped_trans(c0, t0, c2, t2, *ctx, *types, *hir, boxed_size(*callee) + exprs_size(args@), 1);
                lemma_callee_extends(*callee, c2.shape(t2), ctx.shape(*types), c, old(ctx).scopes@, *hir);
                lemma_shape_at(c2.shape(t2), ctx.shape(*types));
                assert(ctx.body.exprs@[c.0 as int] == c2.body.exprs@[c.0 as int]);
                if let Expr::Path(Resolution::Fn(f)) = c2.body.exprs@[c.0 as int] {
                    let fd = hir.functions@[f.0 as int];
                    if crate::lowering::arity_bad(fd.params@.len(), args@.len(), fd.variadic) {
                        let i = c2.diagnostics@.len() as int;
                        assert(is_arity_err(ctx.diagnostics@[i], fd, args@.len()));
                    }
                }
                assert(arity_reported(ctx.shape(*types), c, args@.len(), *hir));
                if is_println {
                    if args@.len() > 0 {
                        assert(lowered(args[0], c2.shape(t2), ids@[0], old(ctx).scopes@, *hir));
                    }
                    lemma_println_grow(c3.shape(t2), ctx.shape(*types), *callee, c, ids@);
                }
                assert(println_reported(ctx.shape(*types), *callee, c, ids@));
                assert forall|k: int| 0 <= k < args@.len() implies lowered(args[k], ctx.shape(*types), #[trigger] ids@[k], old(ctx).scopes@, *hir) by {
                    lemma_keep_lowered(args@[k], c2, t2, *ctx, *types, *hir, 1, ids@[k], old(ctx).scopes@, *hir);
                }
            }
            id
        },
        _ => unreached(),
    }
}

/// The fields of a struct literal: a positional field is reported and
/// dropped; a shorthand field is the path its name resolves to, or
/// `Missing` when it resolves to nothing. Also whether a positional field
/// was seen.
fn lower_fields(ctx: &mut BodyCtx, hir: &HIR, types: &mut TypeInterner, fields: &Vec<SynField>) -> (r: (
    Vec<StructLitField>,
    bool,
))
    requires
        ready(*old(ctx), *hir, *old(types), fields_size(fields@)),
    ensures
        stepped(*old(ctx), *old(types), *final(ctx), *final(types), *hir, fields_size(fields@)),
        fields_lowered(fields@, final(ctx).shape(*final(types)), r.0@, old(ctx).scopes@, *hir),
        r.1 == has_positional(fields@),
    decreases fields, 2nat,
{
    let ghost c0 = *ctx;
    let ghost t0 = *types;
    let mut out: Vec<StructLitField> = Vec::new();
    let mut saw_positional = false;
    let mut i: usize = 0;
    proof {
        lemma_stepped_refl(*ctx, *types, *hir);
        assert(fields@.take(0) =~= Seq::<SynField>::empty());
    }
    while i < fields.len()
        invariant
            hir.wf(),
            i <= fields@.len(),
            fits(c0.shape(t0), fields_size(fields@)),
            stepped(c0, t0, *ctx, *types, *hir, fields_size(fields@.take(i as int))),
            fields_size(fields@.take(i as int)) <= fields_size(fields@),
            fields_lowered(fields@.take(i as int), ctx.shape(*types), out@, old(ctx).scopes@, *hir),
            c0.scopes@ == old(ctx).scopes@,
            saw_positional == has_positional(fields@.take(i as int)),
        decreases fields@.len() - i,
    {
        let ghost c1 = *ctx;
        let ghost t1 = *types;
        proof {
            lemma_fields_size_take(fields@, i as int);
            vstd::std_specs::vec::axiom_vec_index_decreases(*fields, i as int);
            assert(fields@.take(i + 1).drop_last() =~= fields@.take(i as int));
            assert(fields@.take(i + 1).last() == fields@[i as int]);
        }
        let f = &fields[i];
        match &f.name {
            None => {
                report(ctx, hir, types, HirError::Type(TypeError::StructLitPositional));
                saw_positional = true;
                proof {
                    lemma_progress_weaken(c1, t1, *ctx, *types, 0, 4 + opt_size(f.value));
                    lemma_stepped_trans(c0, t0, c1, t1, *ctx, *types, *hir, fields_size(fields@.take(i as int)), 4 + opt_size(f.value));
                    lemma_fields_extends(fields@.take(i as int), c1.shape(t1), ctx.shape(*types), out@, old(ctx).scopes@, *hir);
                }
            },
            Some(fname) => {
                let value = match &f.value {
                    Some(v) => lower_expr(ctx, hir, types, v),
                    None => {
                        let res = resolve(&ctx.scopes, &hir.items, fname.as_str());
                        if let Resolution::Unresolved(_) = res {
                            report(ctx, hir, types, HirError::Resolve(ResolveError::UnresolvedName { name: fname.clone() }));
                            let ghost c2 = *ctx;
                            let id = new_missing(ctx, hir, types);
                            proof {
                                lemma_progress_trans(c1, t1, c2, t1, *ctx, *types, 0, 1);
                                let e = ctx.diagnostics@[c1.diagnostics@.len() as int];
                                assert(is_name_err(e, NameErr::Unresolved, fname@));
                                assert(shorthand_lowered(fname@, ctx.shape(*types), id, c1.scopes@, hir.items@));
                            }
                            id
                        } else {
                            proof {
                                lemma_resolve_ok(*ctx, *hir, *types, fname@, res);
                            }
                            let id = new_expr(ctx, hir, types, Expr::Path(res));
                            proof {
                                assert(shorthand_lowered(fname@, ctx.shape(*types), id, c1.scopes@, hir.items@));
                            }
                            id
                        }
                    },
                };
                let ghost prev = out@;
                out.push(StructLitField { name: fname.clone(), value });
                proof {
                    lemma_progress_weaken(c1, t1, *ctx, *types, opt_size(f.value), 4 + opt_size(f.value));
                    lemma_stepped_trans(c0, t0, c1, t1, *ctx, *types, *hir, fields_size(fields@.take(i as int)), 4 + opt_size(f.value));
                    lemma_fields_extends(fields@.take(i as int), c1.shape(t1), ctx.shape(*types), prev, old(ctx).scopes@, *hir);
                    assert(out@.drop_last() =~= prev);
                }
            },
        }
        proof {
            if has_positional(fields@.take(i + 1)) && !has_positional(fields@.take(i as int)) {
                let k = choose|k: int| 0 <= k < i + 1 && (#[trigger] fields@.take(i + 1)[k]).name is None;
                if k < i {
                    assert(fields@.take(i as int)[k] == fields@.take(i + 1)[k]);
                }
            }
            if f.name is None {
                assert(fields@.take(i + 1)[i as int] == *f);
            }
            if has_positional(fields@.take(i as int)) {
                let k = choose|k: int| 0 <= k < i && (#[trigger] fields@.take(i as int)[k]).name is None;
                assert(fields@.take(i + 1)[k] == fields@.take(i as int)[k]);
            }
        }
        i = i + 1;
    }
    proof {
        assert(fields@.take(fields@.len() as int) =~= fields@);
    }
    (out, saw_positional)
}

/// `Name { f: v, .. }`: the name must be a declared struct or union, and
/// its fields must match the declaration.
fn lower_struct_lit(ctx: &mut BodyCtx, hir: &HIR, types: &mut TypeInterner, e: &SynExpr) -> (id: ExprId)
    requires
        ready(*old(ctx), *hir, *old(types), expr_size(*e)),
        *e is StructLit,
    ensures
        stepped(*old(ctx), *old(types), *final(ctx), *final(types), *hir, expr_size(*e)),
        lowered(*e, final(ctx).shape(*final(types)), id, old(ctx).scopes@, *hir),
    decreases e, 1nat,
{
    let ghost c0 = *ctx;
    let ghost t0 = *types;
    match e {
        SynExpr::StructLit { name, fields, .. } => {
            if let Some(n) = name {
                if let Some(err) = struct_lit_name_error(&hir.items, n.as_str()) {
                    report(ctx, hir, types, HirError::Resolve(err));
                    proof {
                        assert(ctx.diagnostics@[c0.diagnostics@.len() as int] == HirError::Resolve(err));
                    }
                } else {
                    proof {
                        lemma_prefix_refl(ctx.diagnostics@);
                    }
                }
            } else {
                proof {
                    lemma_prefix_refl(ctx.diagnostics@);
                }
            }
            let ty = match name {
                Some(n) => intern_kind(types, TypeKind::Path(n.clone())),
                None => {
                    proof {
                        lemma_prefix_refl(types@);
                    }
                    types.error_type()
                },
            };
            let ghost c1 = *ctx;
            let ghost t1 = *types;
            proof {
                lemma_step_types_diags(c0, t0, c1, t1, *hir, 1);
            }
            let (out, saw_positional) = lower_fields(ctx, hir, types, fields);
            let ghost c2 = *ctx;
            let ghost t2 = *types;
            if let Some(n) = name {
                let mut errs = struct_lit_field_errors(hir, n.as_str(), &out, saw_positional);
                let ghost all = errs@;
                let ghost ds = crate::lowering::struct_lit_diags(
                    hir.items_view(),
                    n@,
                    out@.map_values(|f: StructLitField| f.name@),
                    saw_positional,
                );
                let ghost mut k: int = 0;
                proof {
                    lemma_progress_refl(*ctx, *types);
                    assert(errs@ =~= all.skip(0));
                }
                while errs.len() > 0
                    invariant
                        0 <= k <= all.len(),
                        errs@ == all.skip(k),
                        all.len() == ds.len(),
                        forall|j: int| 0 <= j < ds.len() ==> crate::lowering::is_lit_diag(#[trigger] all[j], ds[j]),
                        ctx.body == c2.body,
                        ctx.scopes@ == c2.scopes@,
                        ctx_wf(*ctx, *hir, *types),
                        types.wf(),
                        *types == t2,
                        progress(c2, t2, *ctx, *types, 0),
                        forall|j: int| 0 <= j < k ==> lit_diag_reported(ctx.diagnostics@, #[trigger] ds[j]),
                    decreases errs@.len(),
                {
                    let ghost c3 = *ctx;
                    let e = errs.remove(0);
                    report(ctx, hir, types, HirError::Type(e));
                    proof {
                        lemma_progress_trans(c2, t2, c3, t2, *ctx, *types, 0, 0);
                        assert(e == all[k]);
                        let last = c3.diagnostics@.len() as int;
                        assert(is_lit_diag_err(ctx.diagnostics@[last], ds[k]));
                        assert forall|j: int| 0 <= j < k + 1 implies lit_diag_reported(ctx.diagnostics@, #[trigger] ds[j]) by {
                            if j < k {
                                assert(lit_diag_reported(c3.diagnostics@, ds[j]));
                                let i = choose|i: int|
                                    0 <= i < c3.diagnostics@.len() && is_lit_diag_err(#[trigger] c3.diagnostics@[i], ds[j]);
                                assert(ctx.diagnostics@[i] == c3.diagnostics@[i]);
                            } else {
                                assert(is_lit_diag_err(ctx.diagnostics@[last], ds[j]));
                            }
                        }
                        k = k + 1;
                        assert(errs@ =~= all.skip(k));
                    }
                }
                proof {
                    assert(k == all.len()) by {
                        assert(all.skip(k).len() == 0);
                    }
                }
            } else {
                proof {
                    lemma_progress_refl(*ctx, *types);
                }
            }
            let ghost c3 = *ctx;
            proof {
                lemma_fields_extends(fields@, c2.shape(t2), ctx.shape(*types), out@, old(ctx).scopes@, *hir);
                assert forall|k: int| 0 <= k < out@.len() implies ((#[trigger] out@[k]).value.0 as int) < ctx.body.exprs@.len() by {
                    lemma_fields_values_below(fields@, ctx.shape(*types), out@, k, old(ctx).scopes@, *hir);
                }
            }
            let id = new_expr(ctx, hir, types, Expr::StructLit { ty, fields: out });
            proof {
                lemma_progress_trans(c2, t2, c3, t2, *ctx, *types, 0, 1);
                lemma_stepped_trans(c1, t1, c2, t2, *ctx, *types, *hir, fields_size(fields@), 1);
                lemma_stepped_trans(c0, t0, c1, t1, *ctx, *types, *hir, 1, fields_size(fields@) + 1);
                lemma_fields_extends(fields@, c3.shape(t2), ctx.shape(*types), out@, old(ctx).scopes@, *hir);
            }
            id
        },
        _ => unreached(),
    }
}

/// Every value handle of lowered struct-literal fields is in the arena.
proof fn lemma_fields_values_below(fs: Seq<SynField>, s: Shape, out: Seq<StructLitField>, k: int, fr: Seq<Map<Seq<char>, Binding>>, h: HIR)
    requires
        fields_lowered(fs, s, out, fr, h),
        0 <= k < out.len(),
    ensures
        (out[k].value.0 as int) < s.exprs.len(),
    decreases fs,
{
    if fs.len() > 0 {
        let f = fs.last();
        match f.name {
            None => lemma_fields_values_below(fs.drop_last(), s, out, k, fr, h),
            Some(_) => {
                if k < out.len() - 1 {
                    assert(out.drop_last()[k] == out[k]);
                    lemma_fields_values_below(fs.drop_last(), s, out.drop_last(), k, fr, h);
                } else {
                    assert(out[k] == out.last());
                    if let Some(v) = f.value {
                        assert(lowered(v, s, out.last().value, fr, h));
                    }
                }
            },
        }
    }
}

// ---------------------------------------------------------------------------
// Blocks, statements and match arms.

/// A step that changed only the innermost scope frame.
pub open spec fn frame_stepped(c0: BodyCtx, t0: TypeInterner, c1: BodyCtx, t1: TypeInterner, hir: HIR, n: nat) -> bool {
    &&& t1.wf()
    &&& ctx_wf(c1, hir, t1)
    &&& progress(c0, t0, c1, t1, n)
    &&& c1.scopes@.len() == c0.scopes@.len()
    &&& c1.scopes@.drop_last() == c0.scopes@.drop_last()
}

proof fn lemma_frame_trans(
    c0: BodyCtx,
    t0: TypeInterner,
    c1: BodyCtx,
    t1: TypeInterner,
    c2: BodyCtx,
    t2: TypeInterner,
    hir: HIR,
    n1: nat,
    n2: nat,
)
    requires
        frame_stepped(c0, t0, c1, t1, hir, n1),
        frame_stepped(c1, t1, c2, t2, hir, n2),
    ensures
        frame_stepped(c0, t0, c2, t2, hir, n1 + n2),
{
    lemma_progress_trans(c0, t0, c1, t1, c2, t2, n1, n2);
}

/// Lowers a block slot: the block, or an empty block.
fn lower_opt_block(ctx: &mut BodyCtx, hir: &HIR, types: &mut TypeInterner, b: &Option<SynBlock>) -> (id: BlockId)
    requires
        ready(*old(ctx), *hir, *old(types), opt_block_size(*b)),
    ensures
        stepped(*old(ctx), *old(types), *final(ctx), *final(types), *hir, opt_block_size(*b)),
        opt_block_lowered(*b, final(ctx).shape(*final(types)), id, old(ctx).scopes@, *hir),
    decreases b, 2nat,
{
    match b {
        Some(x) => lower_block(ctx, hir, types, x),
        None => new_block(ctx, hir, types, Block { stmts: Vec::new(), tail: None }),
    }
}

/// Lowers a block in a scope frame of its own: its statements in order,
/// then its tail.
#[verifier::rlimit(100)]
pub fn lower_block(ctx: &mut BodyCtx, hir: &HIR, types: &mut TypeInterner, b: &SynBlock) -> (id: BlockId)
    requires
        ready(*old(ctx), *hir, *old(types), block_size(*b)),
    ensures
        stepped(*old(ctx), *old(types), *final(ctx), *final(types), *hir, block_size(*b)),
        block_lowered(*b, final(ctx).shape(*final(types)), id, old(ctx).scopes@, *hir),
    decreases b, 2nat,
{
    let ghost c0 = *ctx;
    let ghost t0 = *types;
    open_scope(ctx, hir, types);
    let ghost c1 = *ctx;
    let mut stmts: Vec<StmtId> = Vec::new();
    proof {
        lemma_progress_refl(c0, t0);
        assert(ctx.shape(*types) == c0.shape(t0));
        lemma_prefix_refl(c0.diagnostics@);
        assert(frame_stepped(c1, t0, c1, t0, *hir, 0)) by {
            lemma_progress_refl(c1, t0);
        }
        assert(b.stmts@.take(0) =~= Seq::<SynStmt>::empty());
        assert(c1.scopes@.last() =~= Map::<Seq<char>, Binding>::empty());
        assert(ctx.scopes@ =~= c0.scopes@.push(block_frame(b.stmts@, ctx.shape(*types), stmts@, 0)));
    }
    let mut i: usize = 0;
    while i < b.stmts.len()
        invariant
            hir.wf(),
            i <= b.stmts@.len(),
            stmts@.len() == i,
            fits(c0.shape(t0), block_size(*b)),
            block_size(*b) == 4 + stmts_size(b.stmts@) + boxed_size(b.tail),
            c1.shape(t0) == c0.shape(t0),
            c1.scopes@.len() == c0.scopes@.len() + 1,
            c1.scopes@.drop_last() == c0.scopes@,
            c1.diagnostics@ == c0.diagnostics@,
            c0.scopes@ == old(ctx).scopes@,
            frame_stepped(c1, t0, *ctx, *types, *hir, stmts_size(b.stmts@.take(i as int))),
            stmts_size(b.stmts@.take(i as int)) <= stmts_size(b.stmts@),
            ctx.scopes@ == c0.scopes@.push(block_frame(b.stmts@, ctx.shape(*types), stmts@, i as int)),
            forall|k: int|
                0 <= k < i ==> stmt_lowered(
                    b.stmts@[k],
                    ctx.shape(*types),
                    #[trigger] stmts@[k],
                    c0.scopes@.push(block_frame(b.stmts@, ctx.shape(*types), stmts@, k)),
                    *hir,
                ),
        decreases b.stmts@.len() - i,
    {
        let ghost c2 = *ctx;
        let ghost t2 = *types;
        proof {
            lemma_stmts_size_take(b.stmts@, i as int);
            vstd::std_specs::vec::axiom_vec_index_decreases(b.stmts, i as int);
        }
        let sid = lower_stmt(ctx, hir, types, &b.stmts[i]);
        let ghost prev = stmts@;
        proof {
            lemma_frame_trans(c1, t0, c2, t2, *ctx, *types, *hir, stmts_size(b.stmts@.take(i as int)), stmt_size(b.stmts@[i as int]));
            lemma_block_step(b.stmts@, c2.shape(t2), ctx.shape(*types), prev, sid, c0.scopes@, *hir);
        }
        stmts.push(sid);
        proof {
            assert(stmts@ == prev.push(sid));
            assert(ctx.scopes@ =~= c0.scopes@.push(block_frame(b.stmts@, ctx.shape(*types), stmts@, i + 1)));
        }
        i = i + 1;
    }
    proof {
        assert(b.stmts@.take(b.stmts@.len() as int) =~= b.stmts@);
    }
    let ghost c3 = *ctx;
    let ghost t3 = *types;
    let tail = match &b.tail {
        Some(t) => Some(lower_expr(ctx, hir, types, t)),
        None => {
            proof {
                lemma_stepped_refl(*ctx, *types, *hir);
            }
            None
        },
    };
    let ghost c4 = *ctx;
    let ghost t4 = *types;
    proof {
        assert(frame_stepped(c3, t3, c4, t4, *hir, boxed_size(b.tail)));
        lemma_frame_trans(c1, t0, c3, t3, c4, t4, *hir, stmts_size(b.stmts@), boxed_size(b.tail));
    }
    close_scope(ctx, hir, types);
    let ghost c5 = *ctx;
    proof {
        assert(ctx.shape(*types) == c4.shape(t4));
        assert(ctx.scopes@ =~= c0.scopes@);
        lemma_prefix_refl(c4.diagnostics@);
        lemma_progress_refl(c4, t4);
        assert(progress(c4, t4, c5, t4, 0));
        lemma_progress_trans(c1, t0, c4, t4, c5, t4, stmts_size(b.stmts@) + boxed_size(b.tail), 0);
        assert(progress(c0, t0, c1, t0, 0));
        lemma_progress_trans(c0, t0, c1, t0, c5, t4, 0, stmts_size(b.stmts@) + boxed_size(b.tail));
    }
    let id = new_block(ctx, hir, types, Block { stmts, tail });
    proof {
        lemma_progress_trans(c0, t0, c5, t4, *ctx, *types, stmts_size(b.stmts@) + boxed_size(b.tail), 1);
        let s6 = ctx.shape(*types);
        let n = b.stmts@.len() as int;
        lemma_progress_trans(c3, t3, c4, t4, c5, t4, boxed_size(b.tail), 0);
        lemma_progress_trans(c3, t3, c5, t4, *ctx, *types, boxed_size(b.tail), 1);
        lemma_stmts_extend(b.stmts@, c3.shape(t3), s6, stmts@, c0.scopes@, *hir);
        assert(s6.blocks[id.0 as int].stmts@ == stmts@);
        if let Some(t) = &b.tail {
            lemma_lowered_extends(
                **t,
                c4.shape(t4),
                s6,
                tail.unwrap(),
                c0.scopes@.push(block_frame(b.stmts@, c3.shape(t3), stmts@, n)),
                *hir,
            );
            assert(block_frame(b.stmts@, c3.shape(t3), stmts@, n) == block_frame(b.stmts@, s6, stmts@, n));
        }
    }
    id
}

/// The frame a destructure leaves binds, beyond what the frame it started
/// from binds, only locals it allocated; it allocated one local and one
/// pattern per field, keeping those before in place.
proof fn lemma_destructure_shape(
    v: crate::items::ItemsView,
    ty: Seq<char>,
    fs: Seq<crate::lowering::PatField>,
    st0: crate::lowering::DestructureState,
    mutable: bool,
)
    ensures
        ({
            let st = crate::lowering::destructure_fold(v, ty, fs, st0, mutable);
            &&& st.locals.len() == st0.locals.len() + fs.len()
            &&& st.pats.len() == st0.pats.len() + fs.len()
            &&& prefix(st0.pats, st.pats)
            &&& prefix(st0.locals, st.locals)
            &&& st.bindings.len() == st0.bindings.len() + fs.len()
            &&& forall|n: Seq<char>| #[trigger] st.frame.contains_key(n) ==> (st0.frame.contains_key(n) && st.frame[n]
                == st0.frame[n]) || (st.frame[n] matches Binding::Local(l) && (l.0 as int) < st.locals.len())
        }),
    decreases fs.len(),
{
    if fs.len() == 0 {
        lemma_prefix_refl(st0.pats);
        lemma_prefix_refl(st0.locals);
    } else {
        lemma_destructure_shape(v, ty, fs.drop_last(), st0, mutable);
        let st = crate::lowering::destructure_fold(v, ty, fs.drop_last(), st0, mutable);
        let local_id = LocalId(st.locals.len() as u32);
        lemma_prefix_push(st.pats, Pat::Bind(local_id));
        lemma_prefix_trans(st0.pats, st.pats, st.pats.push(Pat::Bind(local_id)));
        let b = crate::lowering::binding_name(fs.last());
        let fty = crate::lowering::destructured_field_type(v, ty, fs.last().field@);
        let pat_id = PatId(st.pats.len() as u32);
        lemma_prefix_push(st.locals, (b, fty, mutable, pat_id));
        lemma_prefix_trans(st0.locals, st.locals, st.locals.push((b, fty, mutable, pat_id)));
    }
}

/// The frame a destructure leaves is the frame it started from with each
/// pattern field's name bound to the local made for it.
proof fn lemma_destructure_frame(
    v: crate::items::ItemsView,
    ty: Seq<char>,
    fs: Seq<crate::lowering::PatField>,
    st0: crate::lowering::DestructureState,
    mutable: bool,
)
    requires
        st0.bindings.len() == 0,
    ensures
        ({
            let st = crate::lowering::destructure_fold(v, ty, fs, st0, mutable);
            &&& st.bindings.len() == fs.len()
            &&& st.frame == bind_fields(st0.frame, fs, st.bindings)
        }),
    decreases fs.len(),
{
    if fs.len() > 0 {
        lemma_destructure_frame(v, ty, fs.drop_last(), st0, mutable);
        let st = crate::lowering::destructure_fold(v, ty, fs, st0, mutable);
        let prev = crate::lowering::destructure_fold(v, ty, fs.drop_last(), st0, mutable);
        assert(st.bindings.drop_last() =~= prev.bindings);
    }
}

/// Lowers a statement: bindings and constants join the innermost frame.
fn lower_stmt(ctx: &mut BodyCtx, hir: &HIR, types: &mut TypeInterner, st: &SynStmt) -> (id: StmtId)
    requires
        ready(*old(ctx), *hir, *old(types), stmt_size(*st)),
        old(ctx).scopes@.len() > 0,
    ensures
        frame_stepped(*old(ctx), *old(types), *final(ctx), *final(types), *hir, stmt_size(*st)),
        stmt_lowered(*st, final(ctx).shape(*final(types)), id, old(ctx).scopes@, *hir),
        final(ctx).scopes@ == old(ctx).scopes@.update(
            old(ctx).scopes@.len() - 1,
            stmt_frame(*st, final(ctx).shape(*final(types)), id, old(ctx).scopes@.last()),
        ),
    decreases st, 2nat,
{
    match st {
        SynStmt::Let { .. } => lower_let_stmt(ctx, hir, types, st),
        SynStmt::Destructure { .. } => lower_destructure_stmt(ctx, hir, types, st),
        SynStmt::Const { .. } => lower_const_stmt(ctx, hir, types, st),
        SynStmt::Expr(_) => lower_expr_stmt(ctx, hir, types, st),
    }
}

/// `let ty name = value;`: a binding without a type annotation, and a name
/// already bound in the block, are reported; the binding joins the innermost
/// frame either way.
#[verifier::rlimit(40)]
#[verifier::spinoff_prover]
fn lower_let_stmt(ctx: &mut BodyCtx, hir: &HIR, types: &mut TypeInterner, st: &SynStmt) -> (id: StmtId)
    requires
        ready(*old(ctx), *hir, *old(types), stmt_size(*st)),
        old(ctx).scopes@.len() > 0,
        *st is Let,
    ensures
        frame_stepped(*old(ctx), *old(types), *final(ctx), *final(types), *hir, stmt_size(*st)),
        stmt_lowered(*st, final(ctx).shape(*final(types)), id, old(ctx).scopes@, *hir),
        final(ctx).scopes@ == old(ctx).scopes@.update(
            old(ctx).scopes@.len() - 1,
            stmt_frame(*st, final(ctx).shape(*final(types)), id, old(ctx).scopes@.last()),
        ),
    decreases st, 1nat,
{
    let ghost c0 = *ctx;
    let ghost t0 = *types;
    match st {
        SynStmt::Let { name, ty, mutable, value, .. } => {
            let t = match ty {
                Some(x) => Some(lower_type(ctx, hir, types, x)),
                None => {
                    proof {
                        lemma_stepped_refl(*ctx, *types, *hir);
                    }
                    None
                },
            };
            let ghost c1 = *ctx;
            let ghost t1 = *types;
            if let Some(tt) = t {
                check_type_names(ctx, hir, types, tt);
            } else {
                report(ctx, hir, types, HirError::Type(TypeError::MissingTypeAnnotation { name: name.clone() }));
                proof {
                    assert(ctx.diagnostics@[c1.diagnostics@.len() as int] == HirError::Type(
                        TypeError::MissingTypeAnnotation { name: *name },
                    ));
                }
            }
            let ghost c2 = *ctx;
            let init = match value {
                Some(v) => Some(lower_expr(ctx, hir, types, v)),
                None => {
                    proof {
                        lemma_stepped_refl(*ctx, *types, *hir);
                    }
                    None
                },
            };
            let ghost c3 = *ctx;
            let ghost t3 = *types;
            proof {
                lemma_progress_trans(c1, t1, c2, t1, c3, t3, 0, opt_size(*value));
                lemma_progress_trans(c0, t0, c1, t1, c3, t3, opt_type_size(*ty), opt_size(*value));
                assert(progress(c2, t1, c3, t3, opt_size(*value)));
            }
            let (pat, local) = lower_let_binding(
                &mut ctx.scopes,
                &mut ctx.body.pats,
                &mut ctx.body.locals,
                &mut ctx.diagnostics,
                name.clone(),
                t,
                *mutable,
            );
            let ghost c4 = *ctx;
            proof {
                let (s3, s4) = (c3.shape(t3), c4.shape(t3));
                assert(c4.body.locals@.len() == c3.body.locals@.len() + 1) by {
                    assert(c4.body.locals@.map_values(|l: Local| crate::lowering::local_view(l)).len() == c4.body.locals@.len());
                    assert(c3.body.locals@.map_values(|l: Local| crate::lowering::local_view(l)).len() == c3.body.locals@.len());
                }
                lemma_prefix_push(c3.body.pats@, Pat::Bind(local));
                lemma_prefix_push(s3.locals, (name@, t, *mutable, pat));
                lemma_prefix_refl(s3.exprs);
                lemma_prefix_refl(s3.stmts);
                lemma_prefix_refl(s3.blocks);
                lemma_prefix_refl(s3.lconsts);
                lemma_prefix_refl(t3@);
                assert(prefix(c3.diagnostics@, c4.diagnostics@));
                assert forall|f: int, n: Seq<char>|
                    0 <= f < c4.scopes@.len() && #[trigger] c4.scopes@[f].contains_key(n) implies binding_ok(
                    c4.scopes@[f][n],
                    s4,
                ) by {
                    if f < c4.scopes@.len() - 1 {
                        assert(c4.scopes@[f] == c3.scopes@[f]);
                    } else if n != name@ {
                        assert(c3.scopes@.last().contains_key(n));
                    }
                }
                lemma_wf_rebind(c3, t3, c4, t3, *hir);
                assert(c4.scopes@.drop_last() =~= c3.scopes@.drop_last());
                if let Some(i) = init {
                    if let Some(vv) = value {
                        lemma_lowered_extends(*vv, s3, s4, i, old(ctx).scopes@, *hir);
                    }
                }
            }
            let id = new_stmt(ctx, hir, types, Stmt::Let { pat, ty: t, init, mutable: *mutable });
            proof {
                lemma_progress_trans(c3, t3, c4, t3, *ctx, *types, 2, 1);
                lemma_progress_trans(c0, t0, c3, t3, *ctx, *types, opt_type_size(*ty) + opt_size(*value), 3);
                lemma_shape_at(c4.shape(t3), ctx.shape(*types));
                assert(c4.body.pats@[pat.0 as int] is Bind);
                if let Some(i) = init {
                    if let Some(vv) = value {
                        lemma_lowered_extends(*vv, c4.shape(t3), ctx.shape(*types), i, old(ctx).scopes@, *hir);
                    }
                }
                assert(init_lowered(*value, ctx.shape(*types), init, old(ctx).scopes@, *hir));
                assert(ctx.body.pats@[pat.0 as int] == Pat::Bind(local));
                if c3.scopes@.last().contains_key(name@) {
                    let k = c3.diagnostics@.len() as int;
                    assert(crate::lowering::is_destructure_diag(
                        c4.diagnostics@[k + 0],
                        crate::lowering::DestructureDiag::DuplicateLocal(name@),
                    ));
                    assert(is_duplicate_local(ctx.diagnostics@[k], name@));
                }
                lemma_progress_trans(c2, t1, c3, t3, *ctx, *types, opt_size(*value), 3);
                match t {
                    Some(tt) => {
                        lemma_type_names_grow(c2.shape(t1), ctx.shape(*types), tt, *hir);
                        if let Some(sy) = ty {
                            lemma_type_lowered_extends(*sy, t1@, types@, tt);
                        }
                    },
                    None => lemma_reported_grow(
                        c2.diagnostics@,
                        ctx.diagnostics@,
                        HirError::Type(TypeError::MissingTypeAnnotation { name: *name }),
                    ),
                }
                let sf = ctx.shape(*types);
                assert(sf.locals[local.0 as int] == c4.shape(t3).locals[local.0 as int]);
                assert(c4.shape(t3).locals[local.0 as int] == (name@, t, *mutable, pat));
                assert(sf.pats[pat.0 as int] == Pat::Bind(local));
                assert(ctx.scopes@ =~= old(ctx).scopes@.update(
                    old(ctx).scopes@.len() - 1,
                    stmt_frame(*st, ctx.shape(*types), id, old(ctx).scopes@.last()),
                ));
            }
            id
        },
        _ => unreached(),
    }
}

/// `let Ty { f, g: h } = value;`.
#[verifier::rlimit(40)]
#[verifier::spinoff_prover]
fn lower_destructure_stmt(ctx: &mut BodyCtx, hir: &HIR, types: &mut TypeInterner, st: &SynStmt) -> (id: StmtId)
    requires
        ready(*old(ctx), *hir, *old(types), stmt_size(*st)),
        old(ctx).scopes@.len() > 0,
        *st is Destructure,
    ensures
        frame_stepped(*old(ctx), *old(types), *final(ctx), *final(types), *hir, stmt_size(*st)),
        stmt_lowered(*st, final(ctx).shape(*final(types)), id, old(ctx).scopes@, *hir),
        final(ctx).scopes@ == old(ctx).scopes@.update(
            old(ctx).scopes@.len() - 1,
            stmt_frame(*st, final(ctx).shape(*final(types)), id, old(ctx).scopes@.last()),
        ),
    decreases st, 1nat,
{
    let ghost c0 = *ctx;
    let ghost t0 = *types;
    match st {
        SynStmt::Destructure { ty, fields, mutable, value } => {
            let init = match value {
                Some(v) => Some(lower_expr(ctx, hir, types, v)),
                None => {
                    proof {
                        lemma_stepped_refl(*ctx, *types, *hir);
                    }
                    None
                },
            };
            let ghost c1 = *ctx;
            let ghost t1 = *types;
            let pat = lower_destructure(
                hir,
                &mut ctx.scopes,
                &mut ctx.body.pats,
                &mut ctx.body.locals,
                &mut ctx.diagnostics,
                ty.as_str(),
                fields,
                *mutable,
            );
            let ghost c2 = *ctx;
            proof {
                let v = hir.items_view();
                let st0 = crate::lowering::destructure_start(
                    v,
                    ty@,
                    c1.scopes@.last(),
                    c1.body.locals@.map_values(|l: Local| crate::lowering::local_view(l)),
                    c1.body.pats@,
                );
                lemma_destructure_shape(v, ty@, fields@, st0, *mutable);
                let (s1, s2) = (c1.shape(t1), c2.shape(t1));
                assert(c2.body.locals@.len() == c1.body.locals@.len() + fields@.len()) by {
                    assert(c2.body.locals@.map_values(|l: Local| crate::lowering::local_view(l)).len() == c2.body.locals@.len());
                    assert(c1.body.locals@.map_values(|l: Local| crate::lowering::local_view(l)).len() == c1.body.locals@.len());
                }
                lemma_prefix_refl(s1.exprs);
                lemma_prefix_refl(s1.stmts);
                lemma_prefix_refl(s1.blocks);
                lemma_prefix_refl(s1.lconsts);
                lemma_prefix_refl(t1@);
                assert forall|f: int, n: Seq<char>|
                    0 <= f < c2.scopes@.len() && #[trigger] c2.scopes@[f].contains_key(n) implies binding_ok(
                    c2.scopes@[f][n],
                    s2,
                ) by {
                    if f < c2.scopes@.len() - 1 {
                        assert(c2.scopes@[f] == c1.scopes@[f]);
                    } else {
                        assert(c2.scopes@[f] == c2.scopes@.last());
                        if st0.frame.contains_key(n) && c2.scopes@.last()[n] == st0.frame[n] {
                            assert(c1.scopes@[f] == c1.scopes@.last());
                        }
                    }
                }
                lemma_wf_rebind(c1, t1, c2, t1, *hir);
                assert(c2.scopes@.drop_last() =~= c1.scopes@.drop_last());
                if let Some(i) = init {
                    if let Some(vv) = value {
                        lemma_lowered_extends(*vv, s1, s2, i, old(ctx).scopes@, *hir);
                    }
                }
            }
            let pid = new_pat(ctx, hir, types, pat);
            let ghost c3 = *ctx;
            let id = new_stmt(ctx, hir, types, Stmt::Let { pat: pid, ty: None, init, mutable: *mutable });
            proof {
                lemma_progress_trans(c2, t1, c3, t1, *ctx, *types, 1, 1);
                lemma_progress_trans(c1, t1, c2, t1, *ctx, *types, fields@.len(), 2);
                lemma_progress_trans(c0, t0, c1, t1, *ctx, *types, opt_size(*value), fields@.len() + 2);
                lemma_shape_at(c3.shape(t1), ctx.shape(*types));
                assert(c3.body.pats@[pid.0 as int] == pat);
                if let Some(i) = init {
                    if let Some(vv) = value {
                        lemma_lowered_extends(*vv, c2.shape(t1), ctx.shape(*types), i, old(ctx).scopes@, *hir);
                    }
                }
                assert(init_lowered(*value, ctx.shape(*types), init, old(ctx).scopes@, *hir));
                let v = hir.items_view();
                let st0 = crate::lowering::destructure_start(
                    v,
                    ty@,
                    c1.scopes@.last(),
                    c1.body.locals@.map_values(|l: Local| crate::lowering::local_view(l)),
                    c1.body.pats@,
                );
                lemma_destructure_frame(v, ty@, fields@, st0, *mutable);
                assert(ctx.body.pats@[pid.0 as int] == pat);
                assert(ctx.scopes@ =~= old(ctx).scopes@.update(
                    old(ctx).scopes@.len() - 1,
                    stmt_frame(*st, ctx.shape(*types), id, old(ctx).scopes@.last()),
                ));
            }
            id
        },
        _ => unreached(),
    }
}

/// A block-scope `const`: its value is folded against the constants
/// visible at this point.
#[verifier::rlimit(40)]
#[verifier::spinoff_prover]
fn lower_const_stmt(ctx: &mut BodyCtx, hir: &HIR, types: &mut TypeInterner, st: &SynStmt) -> (id: StmtId)
    requires
        ready(*old(ctx), *hir, *old(types), stmt_size(*st)),
        old(ctx).scopes@.len() > 0,
        *st is Const,
    ensures
        frame_stepped(*old(ctx), *old(types), *final(ctx), *final(types), *hir, stmt_size(*st)),
        stmt_lowered(*st, final(ctx).shape(*final(types)), id, old(ctx).scopes@, *hir),
        final(ctx).scopes@ == old(ctx).scopes@.update(
            old(ctx).scopes@.len() - 1,
            stmt_frame(*st, final(ctx).shape(*final(types)), id, old(ctx).scopes@.last()),
        ),
    decreases st, 1nat,
{
    let ghost c0 = *ctx;
    let ghost t0 = *types;
    match st {
        SynStmt::Const { name, ty, value, .. } => {
            let t = lower_opt_type(ctx, hir, types, ty);
            let ghost c1 = *ctx;
            let ghost t1 = *types;
            let v = match value {
                Some(x) => match fold_const(x, &ctx.scopes, &ctx.body.local_consts, hir, &mut ctx.diagnostics) {
                    Folded::Value(c) => Some(c),
                    _ => None,
                },
                None => None,
            };
            let ghost c2 = *ctx;
            proof {
                lemma_prefix_refl(c1.diagnostics@);
                assert(prefix(c1.diagnostics@, c2.diagnostics@));
                lemma_prefix_refl(t1@);
                lemma_step_types_diags(c1, t1, c2, t1, *hir, 0);
            }
            check_type_names(ctx, hir, types, t);
            let ghost c3 = *ctx;
            let konst = LocalConst { name: name.clone(), ty: t, value: v };
            let lid = lower_local_const(&mut ctx.scopes, &mut ctx.body.local_consts, &mut ctx.diagnostics, konst);
            let ghost c4 = *ctx;
            proof {
                let (s3, s4) = (c3.shape(t1), c4.shape(t1));
                lemma_prefix_refl(s3.exprs);
                lemma_prefix_refl(s3.stmts);
                lemma_prefix_refl(s3.pats);
                lemma_prefix_refl(s3.blocks);
                assert(s4.lconsts =~= s3.lconsts.push(name@));
                lemma_prefix_push(s3.lconsts, name@);
                lemma_prefix_refl(t1@);
                assert(prefix(c3.diagnostics@, c4.diagnostics@));
                assert forall|f: int, n: Seq<char>|
                    0 <= f < c4.scopes@.len() && #[trigger] c4.scopes@[f].contains_key(n) implies binding_ok(
                    c4.scopes@[f][n],
                    s4,
                ) by {
                    if f < c4.scopes@.len() - 1 {
                        assert(c4.scopes@[f] == c3.scopes@[f]);
                    } else if n != name@ {
                        assert(c3.scopes@.last().contains_key(n));
                    }
                }
                lemma_wf_rebind(c3, t1, c4, t1, *hir);
                assert(c4.scopes@.drop_last() =~= c3.scopes@.drop_last());
            }
            let id = new_stmt(ctx, hir, types, Stmt::Const(lid));
            proof {
                lemma_progress_trans(c3, t1, c4, t1, *ctx, *types, 1, 1);
                lemma_progress_trans(c2, t1, c3, t1, *ctx, *types, 0, 2);
                lemma_progress_trans(c1, t1, c2, t1, *ctx, *types, 0, 2);
                lemma_progress_trans(c0, t0, c1, t1, *ctx, *types, opt_type_size(*ty), 2);
                if c3.scopes@.last().contains_key(name@) {
                    let k = c3.diagnostics@.len() as int;
                    assert(crate::lowering::is_destructure_diag(
                        c4.diagnostics@[k + 0],
                        crate::lowering::DestructureDiag::DuplicateLocal(name@),
                    ));
                    assert(is_duplicate_local(ctx.diagnostics@[k], name@));
                }
                assert(ctx.scopes@ =~= old(ctx).scopes@.update(
                    old(ctx).scopes@.len() - 1,
                    stmt_frame(*st, ctx.shape(*types), id, old(ctx).scopes@.last()),
                ));
            }
            id
        },
        _ => unreached(),
    }
}

/// An expression statement.
#[verifier::rlimit(40)]
#[verifier::spinoff_prover]
fn lower_expr_stmt(ctx: &mut BodyCtx, hir: &HIR, types: &mut TypeInterner, st: &SynStmt) -> (id: StmtId)
    requires
        ready(*old(ctx), *hir, *old(types), stmt_size(*st)),
        old(ctx).scopes@.len() > 0,
        *st is Expr,
    ensures
        frame_stepped(*old(ctx), *old(types), *final(ctx), *final(types), *hir, stmt_size(*st)),
        stmt_lowered(*st, final(ctx).shape(*final(types)), id, old(ctx).scopes@, *hir),
        final(ctx).scopes@ == old(ctx).scopes@.update(
            old(ctx).scopes@.len() - 1,
            stmt_frame(*st, final(ctx).shape(*final(types)), id, old(ctx).scopes@.last()),
        ),
    decreases st, 1nat,
{
    let ghost c0 = *ctx;
    let ghost t0 = *types;
    match st {
        SynStmt::Expr(x) => {
            let v = lower_opt(ctx, hir, types, x);
            let ghost c1 = *ctx;
            let ghost t1 = *types;
            let id = new_stmt(ctx, hir, types, Stmt::Expr(v));
            proof {
                lemma_progress_trans(c0, t0, c1, t1, *ctx, *types, opt_size(*x), 1);
                lemma_opt_extends(*x, c1.shape(t1), ctx.shape(*types), v, old(ctx).scopes@, *hir);
                assert(ctx.scopes@ =~= old(ctx).scopes@.update(
                    old(ctx).scopes@.len() - 1,
                    stmt_frame(*st, ctx.shape(*types), id, old(ctx).scopes@.last()),
                ));
            }
            id
        },
        _ => unreached(),
    }
}

/// `if cond { .. } else { .. }`.
fn lower_if(ctx: &mut BodyCtx, hir: &HIR, types: &mut TypeInterner, e: &SynExpr) -> (id: ExprId)
    requires
        ready(*old(ctx), *hir, *old(types), expr_size(*e)),
        *e is If,
    ensures
        stepped(*old(ctx), *old(types), *final(ctx), *final(types), *hir, expr_size(*e)),
        lowered(*e, final(ctx).shape(*final(types)), id, old(ctx).scopes@, *hir),
    decreases e, 1nat,
{
    let ghost c0 = *ctx;
    let ghost t0 = *types;
    match e {
        SynExpr::If { cond, then_branch, else_branch } => {
            let c = lower_boxed(ctx, hir, types, cond);
            let ghost c1 = *ctx;
            let ghost t1 = *types;
            let t = lower_opt_block(ctx, hir, types, then_branch);
            let ghost c2 = *ctx;
            let ghost t2 = *types;
            let el = match else_branch {
                Some(b) => Some(lower_block(ctx, hir, types, b)),
                None => {
                    proof {
                        lemma_stepped_refl(*ctx, *types, *hir);
                    }
                    None
                },
            };
            let ghost c3 = *ctx;
            let ghost t3 = *types;
            proof {
                lemma_stepped_trans(c1, t1, c2, t2, c3, t3, *hir, opt_block_size(*then_branch), opt_block_size(*else_branch));
                lemma_stepped_trans(c0, t0, c1, t1, c3, t3, *hir, boxed_size(*cond), opt_block_size(*then_branch) + opt_block_size(*else_branch));
                lemma_keep_boxed(*cond, c1, t1, c3, t3, *hir, opt_block_size(*then_branch) + opt_block_size(*else_branch), c, old(ctx).scopes@, *hir);
                lemma_opt_block_extends(*then_branch, c2.shape(t2), c3.shape(t3), t, old(ctx).scopes@, *hir);
            }
            let id = new_expr(ctx, hir, types, Expr::If { cond: c, then_branch: t, else_branch: el });
            proof {
                lemma_stepped_trans(c0, t0, c3, t3, *ctx, *types, *hir, boxed_size(*cond) + opt_block_size(*then_branch) + opt_block_size(*else_branch), 1);
                lemma_boxed_extends(*cond, c3.shape(t3), ctx.shape(*types), c, old(ctx).scopes@, *hir);
                lemma_opt_block_extends(*then_branch, c3.shape(t3), ctx.shape(*types), t, old(ctx).scopes@, *hir);
                if let Some(b) = else_branch {
                    lemma_block_extends(*b, c3.shape(t3), ctx.shape(*types), el.unwrap(), old(ctx).scopes@, *hir);
                }
            }
            id
        },
        _ => unreached(),
    }
}

/// `loop { .. }`.
fn lower_loop(ctx: &mut BodyCtx, hir: &HIR, types: &mut TypeInterner, e: &SynExpr) -> (id: ExprId)
    requires
        ready(*old(ctx), *hir, *old(types), expr_size(*e)),
        *e is Loop,
    ensures
        stepped(*old(ctx), *old(types), *final(ctx), *final(types), *hir, expr_size(*e)),
        lowered(*e, final(ctx).shape(*final(types)), id, old(ctx).scopes@, *hir),
    decreases e, 1nat,
{
    let ghost c0 = *ctx;
    let ghost t0 = *types;
    match e {
        SynExpr::Loop(b) => {
            let body = lower_opt_block(ctx, hir, types, b);
            let ghost c1 = *ctx;
            let ghost t1 = *types;
            let id = new_expr(ctx, hir, types, Expr::Loop { body });
            proof {
                lemma_stepped_trans(c0, t0, c1, t1, *ctx, *types, *hir, opt_block_size(*b), 1);
                lemma_opt_block_extends(*b, c1.shape(t1), ctx.shape(*types), body, old(ctx).scopes@, *hir);
            }
            id
        },
        _ => unreached(),
    }
}

/// Lowers a match-arm pattern; a bare name that names no variant binds a
/// local in the innermost frame.
fn lower_pat(ctx: &mut BodyCtx, hir: &HIR, types: &TypeInterner, p: &Option<SynPat>) -> (id: PatId)
    requires
        ready(*old(ctx), *hir, *types, 2),
        old(ctx).scopes@.len() > 0,
    ensures
        frame_stepped(*old(ctx), *types, *final(ctx), *types, *hir, 2),
        pat_lowered(*p, final(ctx).shape(*types), id, *hir),
        final(ctx).scopes@ == old(ctx).scopes@.update(
            old(ctx).scopes@.len() - 1,
            pat_frame(*p, final(ctx).shape(*types), id, old(ctx).scopes@.last()),
        ),
{
    let ghost c0 = *ctx;
    let id = match p {
        None => new_pat(ctx, hir, types, Pat::Missing),
        Some(SynPat::Wildcard) => new_pat(ctx, hir, types, Pat::Wildcard),
        Some(SynPat::Literal(None)) => new_pat(ctx, hir, types, Pat::Missing),
        Some(SynPat::Literal(Some(l))) => {
            let lit = lower_literal(
                l.kind,
                match &l.text {
                    Some(t) => Some(t.as_str()),
                    None => None,
                },
            );
            if let Some(err) = check_char_literal(&lit) {
                report(ctx, hir, types, HirError::Type(err));
                proof {
                    assert(ctx.diagnostics@[ctx.diagnostics@.len() - 1] == HirError::Type(err));
                    assert(reported(ctx.diagnostics@, HirError::Type(err)));
                }
            } else {
                proof {
                    lemma_progress_refl(*ctx, *types);
                }
            }
            let ghost c1 = *ctx;
            let id = new_pat(ctx, hir, types, Pat::Literal(lit));
            proof {
                lemma_progress_trans(c0, *types, c1, *types, *ctx, *types, 0, 1);
            }
            id
        },
        Some(SynPat::Path { qualifier, name, .. }) => match path_pat(hir, qualifier.as_str(), name.as_str()) {
            Ok(pat) => new_pat(ctx, hir, types, pat),
            Err(err) => {
                report(ctx, hir, types, HirError::Resolve(err));
                let ghost c1 = *ctx;
                let id = new_pat(ctx, hir, types, Pat::Missing);
                proof {
                    lemma_progress_trans(c0, *types, c1, *types, *ctx, *types, 0, 1);
                }
                id
            },
        },
        Some(SynPat::BareIdent(n, _)) => match bare_pat_variant(&hir.items, n.as_str()) {
            Some(pat) => new_pat(ctx, hir, types, pat),
            None => {
                let (pid, lid) = alloc_bind_pat(&mut ctx.body.pats, &mut ctx.body.locals, n.clone(), None, false);
                let ghost c1 = *ctx;
                proof {
                    assert(c1.body.locals@.len() == c0.body.locals@.len() + 1) by {
                        assert(c1.body.locals@.map_values(|l: Local| crate::lowering::local_view(l)).len() == c1.body.locals@.len());
                        assert(c0.body.locals@.map_values(|l: Local| crate::lowering::local_view(l)).len() == c0.body.locals@.len());
                    }
                }
                ctx.scopes.define(n.clone(), lid);
                proof {
                    let (s0, s1) = (c0.shape(*types), ctx.shape(*types));
                    lemma_prefix_push(c0.body.pats@, Pat::Bind(lid));
                    lemma_prefix_push(s0.locals, (n@, None::<TypeRef>, false, pid));
                    lemma_prefix_refl(s0.exprs);
                    lemma_prefix_refl(s0.stmts);
                    lemma_prefix_refl(s0.blocks);
            lemma_prefix_refl(s0.lconsts);
                    lemma_prefix_refl(s0.lconsts);
                    lemma_prefix_refl(types@);
                    lemma_prefix_refl(c0.diagnostics@);
                    assert forall|f: int, m: Seq<char>|
                        0 <= f < ctx.scopes@.len() && #[trigger] ctx.scopes@[f].contains_key(m) implies binding_ok(
                        ctx.scopes@[f][m],
                        s1,
                    ) by {
                        if f < ctx.scopes@.len() - 1 {
                            assert(ctx.scopes@[f] == c0.scopes@[f]);
                        } else if m != n@ {
                            assert(c0.scopes@.last().contains_key(m));
                        }
                    }
                    lemma_wf_rebind(c0, *types, *ctx, *types, *hir);
                    assert(ctx.scopes@.drop_last() =~= c0.scopes@.drop_last());
                }
                pid
            },
        },
    };
    proof {
        assert(ctx.scopes@ =~= old(ctx).scopes@.update(
            old(ctx).scopes@.len() - 1,
            pat_frame(*p, ctx.shape(*types), id, old(ctx).scopes@.last()),
        ));
    }
    id
}

/// Lowers a match arm in a scope frame of its own, so a binding the pattern
/// makes is visible only in its guard and body.
fn lower_arm(ctx: &mut BodyCtx, hir: &HIR, types: &mut TypeInterner, a: &SynArm) -> (arm: MatchArm)
    requires
        ready(*old(ctx), *hir, *old(types), arm_size(*a)),
    ensures
        stepped(*old(ctx), *old(types), *final(ctx), *final(types), *hir, arm_size(*a)),
        arm_lowered(*a, final(ctx).shape(*final(types)), arm, old(ctx).scopes@, *hir),
    decreases a, 2nat,
{
    let ghost c0 = *ctx;
    let ghost t0 = *types;
    open_scope(ctx, hir, types);
    let ghost c1 = *ctx;
    let pat = lower_pat(ctx, hir, types, &a.pat);
    let ghost c2 = *ctx;
    let guard = match &a.guard {
        Some(g) => Some(lower_opt(ctx, hir, types, g)),
        None => {
            proof {
                lemma_stepped_refl(*ctx, *types, *hir);
            }
            None
        },
    };
    let ghost c3 = *ctx;
    let ghost t3 = *types;
    let body = lower_opt(ctx, hir, types, &a.body);
    let ghost c4 = *ctx;
    let ghost t4 = *types;
    let ghost gsize: nat = match &a.guard {
        Some(g) => opt_size(*g),
        None => 0,
    };
    proof {
        lemma_stepped_trans(c2, t0, c3, t3, c4, t4, *hir, gsize, opt_size(a.body));
        lemma_frame_trans(c1, t0, c2, t0, c4, t4, *hir, 2, gsize + opt_size(a.body));
    }
    close_scope(ctx, hir, types);
    proof {
        assert(ctx.shape(*types) == c4.shape(t4));
        assert(ctx.scopes@ =~= c0.scopes@);
        assert(c1.shape(t0) == c0.shape(t0));
        lemma_prefix_refl(c0.diagnostics@);
        lemma_progress_refl(c0, t0);
        assert(progress(c0, t0, c1, t0, 0));
        lemma_prefix_refl(c4.diagnostics@);
        lemma_progress_refl(c4, t4);
        assert(progress(c4, t4, *ctx, *types, 0));
        lemma_progress_trans(c0, t0, c1, t0, c4, t4, 0, 2 + gsize + opt_size(a.body));
        lemma_progress_trans(c0, t0, c4, t4, *ctx, *types, 2 + gsize + opt_size(a.body), 0);
        lemma_shape_at(c2.shape(t0), ctx.shape(*types));
        lemma_pat_extends(a.pat, c2.shape(t0), ctx.shape(*types), pat, *hir);
        assert(c1.scopes@.last() =~= Map::<Seq<char>, Binding>::empty());
        assert(c2.scopes@ =~= c0.scopes@.push(pat_frame(a.pat, ctx.shape(*types), pat, Map::empty())));
        if let Some(g) = &a.guard {
            lemma_opt_extends(*g, c3.shape(t3), ctx.shape(*types), guard.unwrap(), c2.scopes@, *hir);
        }
        lemma_opt_extends(a.body, c4.shape(t4), ctx.shape(*types), body, c2.scopes@, *hir);
    }
    MatchArm { pat, guard, body }
}

/// Lowers the arms of a match in order.
fn lower_arms(ctx: &mut BodyCtx, hir: &HIR, types: &mut TypeInterner, arms: &Vec<SynArm>) -> (out: Vec<MatchArm>)
    requires
        ready(*old(ctx), *hir, *old(types), arms_size(arms@)),
    ensures
        stepped(*old(ctx), *old(types), *final(ctx), *final(types), *hir, arms_size(arms@)),
        out@.len() == arms@.len(),
        forall|k: int| 0 <= k < arms@.len() ==> arm_lowered(arms@[k], final(ctx).shape(*final(types)), #[trigger] out@[k], old(ctx).scopes@, *hir),
    decreases arms, 2nat,
{
    let ghost c0 = *ctx;
    let ghost t0 = *types;
    let mut out: Vec<MatchArm> = Vec::new();
    let mut i: usize = 0;
    proof {
        lemma_stepped_refl(*ctx, *types, *hir);
        assert(arms@.take(0) =~= Seq::<SynArm>::empty());
    }
    while i < arms.len()
        invariant
            hir.wf(),
            i <= arms@.len(),
            out@.len() == i,
            fits(c0.shape(t0), arms_size(arms@)),
            stepped(c0, t0, *ctx, *types, *hir, arms_size(arms@.take(i as int))),
            arms_size(arms@.take(i as int)) <= arms_size(arms@),
            forall|k: int| 0 <= k < i ==> arm_lowered(arms@[k], ctx.shape(*types), #[trigger] out@[k], old(ctx).scopes@, *hir),
            c0.scopes@ == old(ctx).scopes@,
        decreases arms@.len() - i,
    {
        let ghost c1 = *ctx;
        let ghost t1 = *types;
        proof {
            lemma_arms_size_take(arms@, i as int);
            vstd::std_specs::vec::axiom_vec_index_decreases(*arms, i as int);
        }
        let a = lower_arm(ctx, hir, types, &arms[i]);
        proof {
            lemma_stepped_trans(c0, t0, c1, t1, *ctx, *types, *hir, arms_size(arms@.take(i as int)), arm_size(arms@[i as int]));
            assert forall|k: int| 0 <= k < i implies arm_lowered(arms@[k], ctx.shape(*types), #[trigger] out@[k], old(ctx).scopes@, *hir) by {
                lemma_arm_extends(arms@[k], c1.shape(t1), ctx.shape(*types), out@[k], old(ctx).scopes@, *hir);
            }
        }
        out.push(a);
        i = i + 1;
    }
    proof {
        assert(arms@.take(arms@.len() as int) =~= arms@);
    }
    out
}

/// `match scrut { .. }`.
fn lower_match(ctx: &mut BodyCtx, hir: &HIR, types: &mut TypeInterner, e: &SynExpr) -> (id: ExprId)
    requires
        ready(*old(ctx), *hir, *old(types), expr_size(*e)),
        *e is Match,
    ensures
        stepped(*old(ctx), *old(types), *final(ctx), *final(types), *hir, expr_size(*e)),
        lowered(*e, final(ctx).shape(*final(types)), id, old(ctx).scopes@, *hir),
    decreases e, 1nat,
{
    let ghost c0 = *ctx;
    let ghost t0 = *types;
    match e {
        SynExpr::Match { scrut, arms } => {
            let sc = lower_boxed(ctx, hir, types, scrut);
            let ghost c1 = *ctx;
            let ghost t1 = *types;
            let out = lower_arms(ctx, hir, types, arms);
            let ghost c2 = *ctx;
            let ghost t2 = *types;
            proof {
                lemma_stepped_trans(c0, t0, c1, t1, c2, t2, *hir, boxed_size(*scrut), arms_size(arms@));
                lemma_keep_boxed(*scrut, c1, t1, c2, t2, *hir, arms_size(arms@), sc, old(ctx).scopes@, *hir);
                assert forall|k: int| 0 <= k < out@.len() implies {
                    let a = #[trigger] out@[k];
                    &&& (a.body.0 as int) < ctx.body.exprs@.len()
                    &&& (a.pat.0 as int) < ctx.body.pats@.len()
                    &&& match a.guard {
                        Some(g) => (g.0 as int) < ctx.body.exprs@.len(),
                        None => true,
                    }
                } by {
                    let a = out@[k];
                    let sa = arms@[k];
                    assert(arm_lowered(sa, ctx.shape(*types), a, old(ctx).scopes@, *hir));
                    if let Some(g) = sa.guard {
                        if let Some(gid) = a.guard {
                            lemma_opt_below(g, ctx.shape(*types), gid, old(ctx).scopes@.push(pat_frame(sa.pat, ctx.shape(*types), a.pat, Map::empty())), *hir);
                        }
                    }
                    lemma_opt_below(sa.body, ctx.shape(*types), a.body, old(ctx).scopes@.push(pat_frame(sa.pat, ctx.shape(*types), a.pat, Map::empty())), *hir);
                }
            }
            let id = new_expr(ctx, hir, types, Expr::Match { scrut: sc, arms: out });
            proof {
                lemma_stepped_trans(c0, t0, c2, t2, *ctx, *types, *hir, boxed_size(*scrut) + arms_size(arms@), 1);
                lemma_keep_boxed(*scrut, c2, t2, *ctx, *types, *hir, 1, sc, old(ctx).scopes@, *hir);
                assert forall|k: int| 0 <= k < arms@.len() implies arm_lowered(arms[k], ctx.shape(*types), #[trigger] out@[k], old(ctx).scopes@, *hir) by {
                    lemma_arm_extends(arms@[k], c2.shape(t2), ctx.shape(*types), out@[k], old(ctx).scopes@, *hir);
                }
            }
            id
        },
        _ => unreached(),
    }
}

/// A lowered slot's handle is in the arena.
proof fn lemma_opt_below(e: Option<SynExpr>, s: Shape, id: ExprId, fr: Seq<Map<Seq<char>, Binding>>, h: HIR)
    requires
        opt_lowered(e, s, id, fr, h),
    ensures
        (id.0 as int) < s.exprs.len(),
{
}

// ---------------------------------------------------------------------------
// A function body.

/// The declared type of the `k`-th parameter of the function at `f`, when
/// the signature has that many.
pub open spec fn param_type(hir: HIR, f: FnId, k: int) -> Option<TypeRef> {
    let ps = hir.functions@[f.0 as int].params@;
    if k < ps.len() {
        Some(ps[k].ty)
    } else {
        None
    }
}

/// The frame binding the parameters `ps`: the `k`-th to the `k`-th local,
/// a later parameter of the same name taking its place.
pub open spec fn params_frame(ps: Seq<String>) -> Map<Seq<char>, Binding>
    decreases ps.len(),
{
    if ps.len() == 0 {
        Map::empty()
    } else {
        params_frame(ps.drop_last()).insert(ps.last()@, Binding::Local(LocalId((ps.len() - 1) as u32)))
    }
}

/// Lowers the body of the function `f`, whose parameters are named `params`
/// in order: each parameter binds a mutable local, typed by the signature,
/// in a frame around the body block; the block's statements and tail become
/// the body's. A function without a body lowers to an empty body. Returns the
/// body and the diagnostics.
pub fn lower_fn_body(
    hir: &HIR,
    types: &mut TypeInterner,
    f: FnId,
    params: &Vec<String>,
    block: &Option<SynBlock>,
) -> (r: (Body, Vec<HirError>))
    requires
        hir.wf(),
        old(types).wf(),
        (f.0 as int) < hir.functions@.len(),
        old(types)@.len() + params@.len() + opt_block_size(*block) < u32::MAX,
    ensures
        final(types).wf(),
        prefix(old(types)@, final(types)@),
        match *block {
            None => r.0.exprs@.len() == 0 && r.0.locals@.len() == 0 && r.0.block@.len() == 0 && r.0.tail is None
                && r.1@.len() == 0,
            Some(b) => {
                let s = Shape {
                    exprs: r.0.exprs@,
                    stmts: r.0.stmts@,
                    pats: r.0.pats@,
                    blocks: r.0.blocks@,
                    locals: r.0.locals@.map_values(|l: Local| local_view(l)),
                    nconsts: r.0.local_consts@.len(),
                    lconsts: r.0.local_consts@.map_values(|c: LocalConst| c.name@),
                    ntypes: final(types)@.len(),
                    kinds: final(types)@,
                    diags: r.1@,
                };
                &&& exists|id: BlockId|
                    block_lowered(b, s, id, seq![Map::empty(), params_frame(params@)], *hir) && #[trigger] s.blocks[id.0 as int].stmts@ == r.0.block@
                        && s.blocks[id.0 as int].tail == r.0.tail
                &&& r.0.locals@.len() >= params@.len()
                &&& forall|k: int|
                    0 <= k < params@.len() ==> #[trigger] local_view(r.0.locals@[k]) == (
                        params@[k]@,
                        param_type(*hir, f, k),
                        true,
                        PatId(k as u32),
                    )
            },
        },
{
    let mut ctx = BodyCtx { body: Body::default(), scopes: Scopes::new(), diagnostics: Vec::new() };
    proof {
        assert(ctx.shape(*types).exprs.len() == 0);
        assert forall|g: int, n: Seq<char>|
            0 <= g < ctx.scopes@.len() && #[trigger] ctx.scopes@[g].contains_key(n) implies binding_ok(
            ctx.scopes@[g][n],
            ctx.shape(*types),
        ) by {
            assert(ctx.scopes@[g].dom().is_empty());
        }
        assert(ctx_wf(ctx, *hir, *types));
    }
    let b = match block {
        None => {
            proof {
                lemma_prefix_refl(types@);
            }
            return (ctx.body, ctx.diagnostics);
        },
        Some(b) => b,
    };
    open_scope(&mut ctx, hir, types);
    let func = hir.functions.get(f);
    let ghost t0 = *types;
    let mut i: usize = 0;
    proof {
        assert(ctx.shape(*types).locals =~= Seq::<(Seq<char>, Option<TypeRef>, bool, PatId)>::empty());
        assert(ctx.scopes@[0] =~= Map::<Seq<char>, Binding>::empty());
        assert(ctx.scopes@[1] =~= Map::<Seq<char>, Binding>::empty());
        assert(params@.take(0) =~= Seq::<String>::empty());
        assert(ctx.scopes@ =~= seq![Map::empty(), params_frame(params@.take(0))]);
    }
    while i < params.len()
        invariant
            hir.wf(),
            types.wf(),
            *types == t0,
            (f.0 as int) < hir.functions@.len(),
            *func == hir.functions@[f.0 as int],
            i <= params@.len(),
            t0@.len() + params@.len() + opt_block_size(*block) < u32::MAX,
            *block == Some(*b),
            ctx_wf(ctx, *hir, *types),
            ctx.scopes@ == seq![Map::empty(), params_frame(params@.take(i as int))],
            ctx.diagnostics@.len() == 0,
            ctx.body.exprs@.len() == 0,
            ctx.body.stmts@.len() == 0,
            ctx.body.blocks@.len() == 0,
            ctx.body.local_consts@.len() == 0,
            ctx.body.pats@.len() == i,
            ctx.shape(*types).locals.len() == i,
            forall|k: int|
                0 <= k < i ==> #[trigger] ctx.shape(*types).locals[k] == (
                    params@[k]@,
                    param_type(*hir, f, k),
                    true,
                    PatId(k as u32),
                ),
        decreases params@.len() - i,
    {
        let ty = if i < func.params.len() {
            Some(func.params[i].ty)
        } else {
            None
        };
        let ghost c0 = ctx;
        let (pid, lid) = alloc_bind_pat(&mut ctx.body.pats, &mut ctx.body.locals, params[i].clone(), ty, true);
        ctx.scopes.define(params[i].clone(), lid);
        proof {
            let (s0, s1) = (c0.shape(*types), ctx.shape(*types));
            lemma_prefix_push(c0.body.pats@, Pat::Bind(lid));
            lemma_prefix_push(s0.locals, (params@[i as int]@, ty, true, pid));
            lemma_prefix_refl(s0.exprs);
            lemma_prefix_refl(s0.stmts);
            lemma_prefix_refl(s0.blocks);
            lemma_prefix_refl(s0.lconsts);
            lemma_prefix_refl(c0.diagnostics@);
            lemma_prefix_refl(types@);
            assert forall|g: int, m: Seq<char>|
                0 <= g < ctx.scopes@.len() && #[trigger] ctx.scopes@[g].contains_key(m) implies binding_ok(
                ctx.scopes@[g][m],
                s1,
            ) by {
                if g < ctx.scopes@.len() - 1 {
                    assert(ctx.scopes@[g] == c0.scopes@[g]);
                } else if m != params@[i as int]@ {
                    assert(c0.scopes@.last().contains_key(m));
                }
            }
            lemma_wf_rebind(c0, *types, ctx, *types, *hir);
            assert forall|k: int| 0 <= k < i + 1 implies #[trigger] s1.locals[k] == (
                params@[k]@,
                param_type(*hir, f, k),
                true,
                PatId(k as u32),
            ) by {
                if k < i {
                    assert(s1.locals[k] == s0.locals[k]);
                }
            }
            assert(params@.take(i + 1).drop_last() =~= params@.take(i as int));
            assert(ctx.scopes@ =~= seq![Map::empty(), params_frame(params@.take(i + 1))]);
        }
        i = i + 1;
    }
    proof {
        assert(params@.take(params@.len() as int) =~= params@);
    }
    let ghost c1 = ctx;
    let bid = lower_block(&mut ctx, hir, types, b);
    let ghost c2 = ctx;
    let mut stmts: Vec<StmtId> = Vec::new();
    let src = &ctx.body.blocks.get(bid).stmts;
    let mut k: usize = 0;
    while k < src.len()
        invariant
            k <= src@.len(),
            stmts@ == src@.take(k as int),
        decreases src@.len() - k,
    {
        stmts.push(src[k]);
        k = k + 1;
        assert(stmts@ =~= src@.take(k as int));
    }
    proof {
        assert(src@.take(src@.len() as int) =~= src@);
    }
    let tail = ctx.body.blocks.get(bid).tail;
    ctx.body.block = stmts;
    ctx.body.tail = tail;
    proof {
        let s2 = c2.shape(*types);
        assert(ctx.shape(*types) == s2);
        lemma_shape_at(c1.shape(t0), s2);
        assert forall|j: int| 0 <= j < params@.len() implies #[trigger] local_view(ctx.body.locals@[j]) == (
            params@[j]@,
            param_type(*hir, f, j),
            true,
            PatId(j as u32),
        ) by {
            assert(s2.locals[j] == c1.shape(t0).locals[j]);
        }
        assert(block_lowered(*b, ctx.shape(*types), bid, c1.scopes@, *hir));
    }
    (ctx.body, ctx.diagnostics)
}

/// A name read right after a `let` that binds it reads that binding: in a
/// lowered block whose last statement is `let n ..` and whose tail is the
/// bare name `n`, the tail is the local the `let` bound, whatever outer
/// scopes or items are named `n`.
pub proof fn law_let_then_read(b: SynBlock, s: Shape, id: BlockId, fr: Seq<Map<Seq<char>, Binding>>, h: HIR)
    requires
        block_lowered(b, s, id, fr, h),
        b.stmts@.len() > 0,
        b.stmts@.last() matches SynStmt::Let { name, .. } && b.tail matches Some(t) && *t matches SynExpr::NameRef(m)
            && m@ == name@,
    ensures
        ({
            let blk = s.blocks[id.0 as int];
            let last = blk.stmts@[blk.stmts@.len() - 1];
            &&& blk.tail matches Some(tid)
            &&& s.stmts[last.0 as int] matches Stmt::Let { pat, .. }
            &&& s.pats[pat.0 as int] matches Pat::Bind(l)
            &&& s.exprs[tid.0 as int] == Expr::Path(Resolution::Local(l))
        }),
{
    let blk = s.blocks[id.0 as int];
    let n = b.stmts@.len() as int;
    let ids = blk.stmts@;
    let st = b.stmts@[n - 1];
    let f = block_frame(b.stmts@, s, ids, n - 1);
    assert(stmt_lowered(st, s, ids[n - 1], fr.push(f), h));
    assert(block_frame(b.stmts@, s, ids, n) == stmt_frame(st, s, ids[n - 1], f));
    if let SynStmt::Let { name, .. } = st {
        if let Stmt::Let { pat, .. } = s.stmts[ids[n - 1].0 as int] {
            if let Pat::Bind(l) = s.pats[pat.0 as int] {
                let frames = fr.push(block_frame(b.stmts@, s, ids, n));
                assert(frames.last() == f.insert(name@, Binding::Local(l)));
                assert(spec_lookup(frames, name@) == Some(Binding::Local(l)));
                assert(name_error(frames, h.items@, name@, false) is None);
                if let Some(t) = b.tail {
                    if let Some(tid) = blk.tail {
                        assert(lowered(*t, s, tid, frames, h));
                    }
                }
            }
        }
    }
}

} // verus!
