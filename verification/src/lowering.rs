//! The judgments body lowering makes on names and shapes, apart from the
//! syntax tree they are read from: whether a name may stand as a value,
//! call arity, struct-literal fields, what `&` and assignment may target,
//! the `len` intrinsic's operand, and how a pattern or `Enum.Variant` path
//! resolves.

use vstd::prelude::*;

use crate::body::{Expr, Local, LocalConst, Pat, Resolution, StructLitField, StructPatBinding};
use crate::name_set::{name_set, name_set_contains, name_set_insert, name_set_new, name_set_of, NameSet};
use crate::errors::{ConstError, HirError, PatternError, ResolveError, TypeError};
use crate::ids::{EnumId, ExprId, FieldId, LocalConstId, LocalId, PatId};
use crate::interner::{name_table, name_table_get};
use crate::items::{items_wf, Function, ItemScope, ItemsView, Param, HIR};
use crate::scopes::{Binding, Scopes};
use crate::types::{KindView, TypeKind, TypeRef};
use crate::text::str_eq;
use crate::typed_arena::TypedArena;

verus! {

broadcast use vstd::string::group_string_axioms;

/// The intrinsics a call may name without declaring them.
pub open spec fn is_intrinsic_name(n: Seq<char>) -> bool {
    n == "println"@ || n == "len"@ || n == "sizeof"@
}

/// The diagnostic for `name`, resolved to `res`, standing in value
/// position: an enum or struct name is not a value, an unresolved name is
/// an error unless it is the callee of a call to an intrinsic; locals,
/// constants, globals, functions and variants are values.
pub fn value_use_error(res: &Resolution, name: &str, is_callee: bool) -> (e: Option<ResolveError>)
    ensures
        match *res {
            Resolution::Enum(_) => e matches Some(ResolveError::EnumNameAsValue { name: n }) && n@ == name@,
            Resolution::Struct(_) => e matches Some(ResolveError::StructNameAsValue { name: n }) && n@ == name@,
            Resolution::Unresolved(u) => if is_callee && is_intrinsic_name(u@) {
                e is None
            } else {
                e matches Some(ResolveError::UnresolvedName { name: n }) && n@ == name@
            },
            _ => e is None,
        },
{
    match res {
        Resolution::Enum(_) => Some(ResolveError::EnumNameAsValue { name: name.to_owned() }),
        Resolution::Struct(_) => Some(ResolveError::StructNameAsValue { name: name.to_owned() }),
        Resolution::Unresolved(u) => {
            if is_callee && (str_eq(u.as_str(), "println") || str_eq(u.as_str(), "len") || str_eq(
                u.as_str(),
                "sizeof",
            )) {
                None
            } else {
                Some(ResolveError::UnresolvedName { name: name.to_owned() })
            }
        },
        _ => None,
    }
}

/// A call passes the wrong number of arguments: fewer than the named
/// parameters of a variadic function, or not exactly as many otherwise.
pub open spec fn arity_bad(expected: nat, found: nat, variadic: bool) -> bool {
    if variadic {
        found < expected
    } else {
        found != expected
    }
}

/// The diagnostic for a direct call of `f` with `found` arguments.
pub fn call_arity_error(f: &Function, found: usize) -> (e: Option<TypeError>)
    ensures
        arity_bad(f.params@.len(), found as nat, f.variadic) ==> (e matches Some(
            TypeError::CallArityMismatch { name, expected, found: got, variadic },
        ) && name@ == f.name@ && expected == f.params@.len() && got == found && variadic == f.variadic),
        !arity_bad(f.params@.len(), found as nat, f.variadic) ==> e is None,
{
    let expected = f.params.len();
    let bad = if f.variadic {
        found < expected
    } else {
        found != expected
    };
    if bad {
        Some(TypeError::CallArityMismatch { name: f.name.clone(), expected, found, variadic: f.variadic })
    } else {
        None
    }
}

/// The diagnostic for `len` called with `args`: one argument, which must
/// be a place (a local, field, element or dereference) since `len` never
/// evaluates it.
pub fn len_intrinsic_error(args: &Vec<ExprId>, exprs: &TypedArena<Expr, ExprId>) -> (e: Option<TypeError>)
    requires
        args@.len() == 1 ==> (args@[0].0 as int) < exprs@.len(),
    ensures
        args@.len() != 1 ==> e == Some(TypeError::LenArity { found: args@.len() as usize }),
        args@.len() == 1 ==> {
            let op = exprs@[args@[0].0 as int];
            let place = op matches Expr::Path(Resolution::Local(_)) || op is Field || op is Index || op is Deref;
            &&& place ==> e is None
            &&& !place ==> e == Some(TypeError::LenNotAPlace)
        },
{
    if args.len() != 1 {
        return Some(TypeError::LenArity { found: args.len() });
    }
    if exprs.get(args[0]).is_place_expr() {
        None
    } else {
        Some(TypeError::LenNotAPlace)
    }
}

/// The constant a path expression names, by name: a top-level constant of
/// `hir` or a block-scope constant of `local_consts`.
pub fn const_place_name(e: &Expr, hir: &HIR, local_consts: &TypedArena<LocalConst, LocalConstId>) -> (r: Option<
    String,
>)
    requires
        *e matches Expr::Path(Resolution::Const(c)) ==> (c.0 as int) < hir.consts@.len(),
        *e matches Expr::Path(Resolution::LocalConst(c)) ==> (c.0 as int) < local_consts@.len(),
    ensures
        match *e {
            Expr::Path(Resolution::Const(c)) => r matches Some(n) && n@ == hir.consts@[c.0 as int].name@,
            Expr::Path(Resolution::LocalConst(c)) => r matches Some(n) && n@ == local_consts@[c.0 as int].name@,
            _ => r is None,
        },
{
    match e {
        Expr::Path(Resolution::Const(c)) => Some(hir.consts.get(*c).name.clone()),
        Expr::Path(Resolution::LocalConst(c)) => Some(local_consts.get(*c).name.clone()),
        _ => None,
    }
}

/// What `&` may take the address of: a local, a global, a field, an
/// element, a dereference, or an operand already reported (missing or
/// unresolved).
pub open spec fn ref_place(e: Expr) -> bool {
    ||| e matches Expr::Path(Resolution::Local(_))
    ||| e matches Expr::Path(Resolution::Global(_))
    ||| e matches Expr::Path(Resolution::Unresolved(_))
    ||| e is Field
    ||| e is Index
    ||| e is Deref
    ||| e is Missing
}

/// The diagnostic for `&` applied to `operand`: a constant has no address,
/// and any other non-place would take the address of a temporary.
pub fn ref_operand_error(operand: &Expr, hir: &HIR, local_consts: &TypedArena<LocalConst, LocalConstId>) -> (r: Option<
    HirError,
>)
    requires
        *operand matches Expr::Path(Resolution::Const(c)) ==> (c.0 as int) < hir.consts@.len(),
        *operand matches Expr::Path(Resolution::LocalConst(c)) ==> (c.0 as int) < local_consts@.len(),
    ensures
        match *operand {
            Expr::Path(Resolution::Const(c)) => r matches Some(HirError::Const(ConstError::RefOfConst { name }))
                && name@ == hir.consts@[c.0 as int].name@,
            Expr::Path(Resolution::LocalConst(c)) => r matches Some(
                HirError::Const(ConstError::RefOfConst { name }),
            ) && name@ == local_consts@[c.0 as int].name@,
            _ => if ref_place(*operand) {
                r is None
            } else {
                r == Some(HirError::Type(TypeError::RefOfNonPlace))
            },
        },
{
    if let Some(name) = const_place_name(operand, hir, local_consts) {
        return Some(HirError::Const(ConstError::RefOfConst { name }));
    }
    match operand {
        Expr::Path(Resolution::Local(_)) | Expr::Path(Resolution::Global(_)) | Expr::Path(Resolution::Unresolved(_))
        | Expr::Field { .. } | Expr::Index { .. } | Expr::Deref { .. } | Expr::Missing => None,
        _ => Some(HirError::Type(TypeError::RefOfNonPlace)),
    }
}

/// The diagnostic for an assignment whose target `lhs` names a constant: a
/// constant is a value, not storage.
pub fn assign_to_const_error(lhs: &Expr, hir: &HIR, local_consts: &TypedArena<LocalConst, LocalConstId>) -> (r: Option<
    ConstError,
>)
    requires
        *lhs matches Expr::Path(Resolution::Const(c)) ==> (c.0 as int) < hir.consts@.len(),
        *lhs matches Expr::Path(Resolution::LocalConst(c)) ==> (c.0 as int) < local_consts@.len(),
    ensures
        match *lhs {
            Expr::Path(Resolution::Const(c)) => r matches Some(ConstError::AssignToConst { name }) && name@
                == hir.consts@[c.0 as int].name@,
            Expr::Path(Resolution::LocalConst(c)) => r matches Some(ConstError::AssignToConst { name }) && name@
                == local_consts@[c.0 as int].name@,
            _ => r is None,
        },
{
    match const_place_name(lhs, hir, local_consts) {
        Some(name) => Some(ConstError::AssignToConst { name }),
        None => None,
    }
}

/// The diagnostic for a struct literal naming `name`: it must name a
/// declared struct or union.
pub fn struct_lit_name_error(items: &ItemScope, name: &str) -> (e: Option<ResolveError>)
    ensures
        items@.structs.contains_key(name@) || items@.unions.contains_key(name@) ==> e is None,
        !(items@.structs.contains_key(name@) || items@.unions.contains_key(name@)) ==> (e matches Some(
            ResolveError::UnknownStructLiteral { name: n },
        ) && n@ == name@),
{
    if name_table_get(&items.structs, name).is_some() || name_table_get(&items.unions, name).is_some() {
        None
    } else {
        Some(ResolveError::UnknownStructLiteral { name: name.to_owned() })
    }
}

/// The names of `a` that `b` lacks, in order.
pub open spec fn names_not_in(a: Seq<Seq<char>>, b: Seq<Seq<char>>) -> Seq<Seq<char>>
    decreases a.len(),
{
    if a.len() == 0 {
        seq![]
    } else if b.contains(a.last()) {
        names_not_in(a.drop_last(), b)
    } else {
        names_not_in(a.drop_last(), b).push(a.last())
    }
}

/// The field names of the struct at `sid`, in declaration order.
pub open spec fn declared_field_names(v: ItemsView, sid: int) -> Seq<Seq<char>> {
    v.structs[sid].fields.map_values(|f: crate::ids::FieldId| v.fields[f.0 as int].0)
}

/// A diagnostic about a struct literal's fields, as values.
pub enum LitDiag {
    /// A union literal must set exactly one field: the union, the count.
    UnionFieldCount(Seq<char>, nat),
    Missing(Seq<char>, Seq<Seq<char>>),
    Unknown(Seq<char>, Seq<Seq<char>>),
}

/// `e` is the diagnostic `d`.
pub open spec fn is_lit_diag(e: TypeError, d: LitDiag) -> bool {
    match d {
        LitDiag::UnionFieldCount(n, k) => e matches TypeError::UnionLiteralFieldCount { name, found } && name@
            == n && found == k,
        LitDiag::Missing(n, fs) => e matches TypeError::StructLitMissingFields { name, fields } && name@ == n
            && fields@.map_values(|s: String| s@) == fs,
        LitDiag::Unknown(n, fs) => e matches TypeError::StructLitUnknownFields { name, fields } && name@ == n
            && fields@.map_values(|s: String| s@) == fs,
    }
}

/// The field diagnostics of a literal of `name` setting the fields `given`:
/// a union literal sets exactly one field; a struct literal (unless a
/// positional field was already reported) names every declared field and
/// no other.
pub open spec fn struct_lit_diags(v: ItemsView, name: Seq<char>, given: Seq<Seq<char>>, saw_positional: bool) -> Seq<
    LitDiag,
> {
    let union_part = if v.scope.unions.contains_key(name) && given.len() != 1 {
        seq![LitDiag::UnionFieldCount(name, given.len())]
    } else {
        seq![]
    };
    let struct_part = if !saw_positional && v.scope.structs.contains_key(name) {
        let declared = declared_field_names(v, v.scope.structs[name] as int);
        let missing = names_not_in(declared, given);
        let unknown = names_not_in(given, declared);
        (if missing.len() > 0 {
            seq![LitDiag::Missing(name, missing)]
        } else {
            seq![]
        }) + if unknown.len() > 0 {
            seq![LitDiag::Unknown(name, unknown)]
        } else {
            seq![]
        }
    } else {
        seq![]
    };
    union_part + struct_part
}

/// The names of `a` that the set `b` (the names of `bv`) lacks, in order.
fn names_outside(a: &Vec<String>, b: &NameSet, Ghost(bv): Ghost<Seq<Seq<char>>>) -> (out: Vec<String>)
    requires
        name_set(*b) == bv.to_set(),
    ensures
        out@.map_values(|s: String| s@) == names_not_in(a@.map_values(|s: String| s@), bv),
{
    let ghost av = a@.map_values(|s: String| s@);
    let mut out: Vec<String> = Vec::new();
    let mut i: usize = 0;
    proof {
        assert(av.take(0) =~= Seq::<Seq<char>>::empty());
    }
    while i < a.len()
        invariant
            i <= a@.len(),
            av == a@.map_values(|s: String| s@),
            name_set(*b) == bv.to_set(),
            out@.map_values(|s: String| s@) == names_not_in(av.take(i as int), bv),
        decreases a@.len() - i,
    {
        proof {
            assert(av.take(i + 1).drop_last() =~= av.take(i as int));
            assert(av.take(i + 1).last() == a@[i as int]@);
        }
        if !name_set_contains(b, a[i].as_str()) {
            out.push(a[i].clone());
            assert(out@.map_values(|s: String| s@) =~= names_not_in(av.take(i + 1), bv));
        }
        i = i + 1;
    }
    proof {
        assert(av.take(a@.len() as int) =~= av);
    }
    out
}

/// The field diagnostics of a literal of `name` setting `fields`.
pub fn struct_lit_field_errors(hir: &HIR, name: &str, fields: &Vec<StructLitField>, saw_positional: bool) -> (out: Vec<
    TypeError,
>)
    requires
        hir.wf(),
    ensures
        ({
            let ds = struct_lit_diags(
                hir.items_view(),
                name@,
                fields@.map_values(|f: StructLitField| f.name@),
                saw_positional,
            );
            &&& out@.len() == ds.len()
            &&& forall|k: int| 0 <= k < ds.len() ==> is_lit_diag(#[trigger] out@[k], ds[k])
        }),
{
    let ghost v = hir.items_view();
    let mut given: Vec<String> = Vec::new();
    let mut i: usize = 0;
    while i < fields.len()
        invariant
            i <= fields@.len(),
            given@.map_values(|s: String| s@) == fields@.take(i as int).map_values(|f: StructLitField| f.name@),
        decreases fields@.len() - i,
    {
        let n = fields[i].name.clone();
        assert(fields@.take(i + 1)[i as int] == fields@[i as int]);
        assert(fields@.take(i + 1).drop_last() =~= fields@.take(i as int));
        let ghost prev = given@;
        given.push(n);
        assert(n@ == fields@[i as int].name@);
        assert(given@ == prev.push(n));
        assert(given@.map_values(|s: String| s@) =~= prev.map_values(|s: String| s@).push(n@));
        assert(given@.map_values(|s: String| s@) =~= fields@.take(i + 1).map_values(
            |f: StructLitField| f.name@,
        ));
        i = i + 1;
    }
    assert(fields@.take(fields@.len() as int) =~= fields@);
    let ghost gv = given@.map_values(|s: String| s@);
    let mut out: Vec<TypeError> = Vec::new();
    if name_table_get(&hir.items.unions, name).is_some() && fields.len() != 1 {
        out.push(TypeError::UnionLiteralFieldCount { name: name.to_owned(), found: fields.len() });
    }
    let ghost union_len = out@.len();
    if !saw_positional {
        if let Some(sid) = name_table_get(&hir.items.structs, name) {
            proof {
                assert(v.scope.structs.contains_key(name@));
                assert(items_wf(v));
            }
            let st = hir.structs.get(crate::ids::StructId(sid));
            let ghost sv = v.structs[sid as int];
            assert(sv.fields == st.fields@);
            let mut declared: Vec<String> = Vec::new();
            let mut j: usize = 0;
            while j < st.fields.len()
                invariant
                    j <= st.fields@.len(),
                    v == hir.items_view(),
                    items_wf(v),
                    (sid as int) < v.structs.len(),
                    sv == v.structs[sid as int],
                    sv.fields == st.fields@,
                    declared@.map_values(|s: String| s@) == sv.fields.take(j as int).map_values(
                        |f: crate::ids::FieldId| v.fields[f.0 as int].0,
                    ),
                decreases st.fields@.len() - j,
            {
                let fid = st.fields[j];
                assert(sv.fields[j as int] == fid);
                assert((fid.0 as int) < v.fields.len());
                let f = hir.fields.get(fid);
                assert(v.fields[fid.0 as int] == (f.name@, f.ty));
                let nm = f.name.clone();
                assert(sv.fields.take(j + 1)[j as int] == fid);
                assert(sv.fields.take(j + 1).drop_last() =~= sv.fields.take(j as int));
                let ghost prev = declared@;
                declared.push(nm);
                assert(nm@ == v.fields[fid.0 as int].0);
                assert(declared@.map_values(|s: String| s@) =~= prev.map_values(|s: String| s@).push(nm@));
                assert(declared@.map_values(|s: String| s@) =~= sv.fields.take(j + 1).map_values(
                    |f: crate::ids::FieldId| v.fields[f.0 as int].0,
                ));
                j = j + 1;
            }
            assert(sv.fields.take(sv.fields.len() as int) =~= sv.fields);
            let ghost dv = declared@.map_values(|s: String| s@);
            let given_set = name_set_of(&given);
            let declared_set = name_set_of(&declared);
            let missing = names_outside(&declared, &given_set, Ghost(gv));
            let unknown = names_outside(&given, &declared_set, Ghost(dv));
            if missing.len() > 0 {
                out.push(TypeError::StructLitMissingFields { name: name.to_owned(), fields: missing });
            }
            if unknown.len() > 0 {
                out.push(TypeError::StructLitUnknownFields { name: name.to_owned(), fields: unknown });
            }
        }
    }
    proof {
        let ds = struct_lit_diags(v, name@, gv, saw_positional);
        assert(out@.len() == ds.len());
        assert forall|k: int| 0 <= k < ds.len() implies is_lit_diag(#[trigger] out@[k], ds[k]) by {}
    }
    out
}

/// The variant `vname` of the enum named `enum_name`: the enum's handle and
/// the variant's position, if the enum declares one of that name.
fn enum_variant(hir: &HIR, enum_name: &str, vname: &str) -> (r: Option<(EnumId, Option<u32>)>)
    requires
        hir.wf(),
    ensures
        ({
            let v = hir.items_view();
            if v.scope.enums.contains_key(enum_name@) {
                let id = v.scope.enums[enum_name@];
                let vi = v.enums[id as int].variant_index;
                r == Some(
                    (
                        EnumId(id),
                        if vi.contains_key(vname@) {
                            Some(vi[vname@])
                        } else {
                            None
                        },
                    ),
                )
            } else {
                r is None
            }
        }),
{
    let ghost v = hir.items_view();
    match name_table_get(&hir.items.enums, enum_name) {
        Some(id) => {
            proof {
                assert(v.scope.enums.contains_key(enum_name@));
                assert(items_wf(v));
            }
            let e = hir.enums.get(EnumId(id));
            assert(v.enums[id as int].variant_index == name_table(e.variant_index));
            Some((EnumId(id), name_table_get(&e.variant_index, vname)))
        },
        None => None,
    }
}

/// A qualified `Enum.Variant` match pattern, resolved by name: the enum must
/// be declared and declare the variant.
pub fn path_pat(hir: &HIR, qual: &str, vname: &str) -> (r: Result<Pat, ResolveError>)
    requires
        hir.wf(),
    ensures
        ({
            let v = hir.items_view();
            if v.scope.enums.contains_key(qual@) {
                let id = v.scope.enums[qual@];
                let vi = v.enums[id as int].variant_index;
                if vi.contains_key(vname@) {
                    r == Ok::<Pat, ResolveError>(Pat::Variant { enum_id: EnumId(id), idx: vi[vname@] })
                } else {
                    r matches Err(ResolveError::NoSuchVariant { enum_name, variant }) && enum_name@ == qual@
                        && variant@ == vname@
                }
            } else {
                r matches Err(ResolveError::UnknownEnumInPattern { enum_name }) && enum_name@ == qual@
            }
        }),
{
    match enum_variant(hir, qual, vname) {
        Some((enum_id, Some(idx))) => Ok(Pat::Variant { enum_id, idx }),
        Some((_, None)) => Err(ResolveError::NoSuchVariant { enum_name: qual.to_owned(), variant: vname.to_owned() }),
        None => Err(ResolveError::UnknownEnumInPattern { enum_name: qual.to_owned() }),
    }
}

/// A field access `base.name` whose base is a bare name of an enum is a
/// variant path: `Some` with the variant, or the diagnostic when the enum
/// has no such variant; `None` when `base` names no enum.
pub fn variant_access(hir: &HIR, base: &str, name: &str) -> (r: Option<Result<Resolution, ResolveError>>)
    requires
        hir.wf(),
    ensures
        ({
            let v = hir.items_view();
            if v.scope.enums.contains_key(base@) {
                let id = v.scope.enums[base@];
                let vi = v.enums[id as int].variant_index;
                if vi.contains_key(name@) {
                    r == Some(Ok::<Resolution, ResolveError>(Resolution::Variant { enum_id: EnumId(id), idx: vi[name@] }))
                } else {
                    r matches Some(Err(ResolveError::NoSuchVariant { enum_name, variant })) && enum_name@ == base@
                        && variant@ == name@
                }
            } else {
                r is None
            }
        }),
{
    match enum_variant(hir, base, name) {
        Some((enum_id, Some(idx))) => Some(Ok(Resolution::Variant { enum_id, idx })),
        Some((_, None)) => Some(
            Err(ResolveError::NoSuchVariant { enum_name: base.to_owned(), variant: name.to_owned() }),
        ),
        None => None,
    }
}

/// A bare name in a match pattern is a variant when some enum declares it
/// (the flat variant index); otherwise it binds a new local (`None`).
pub fn bare_pat_variant(items: &ItemScope, name: &str) -> (r: Option<Pat>)
    ensures
        items@.variants.contains_key(name@) ==> r == Some(
            Pat::Variant { enum_id: items@.variants[name@].0, idx: items@.variants[name@].1 },
        ),
        !items@.variants.contains_key(name@) ==> r is None,
{
    match items.variant(name) {
        Some((enum_id, idx)) => Some(Pat::Variant { enum_id, idx }),
        None => None,
    }
}

/// A field of a struct pattern: the field, and the name it binds when
/// renamed (`Point { x: px }`).
#[derive(Debug, Clone, PartialEq, Eq)]
pub struct PatField {
    pub field: String,
    pub binding: Option<String>,
}

/// The name a pattern field binds: its rename, or the field's own name.
pub open spec fn binding_name(f: PatField) -> Seq<char> {
    match f.binding {
        Some(b) => b@,
        None => f.field@,
    }
}

/// The type of field `field` of the struct named `ty`, when both exist (the
/// first field of that name).
pub open spec fn destructured_field_type(v: ItemsView, ty: Seq<char>, field: Seq<char>) -> Option<TypeRef> {
    if v.scope.structs.contains_key(ty) {
        let s = v.structs[v.scope.structs[ty] as int];
        if s.field_index.contains_key(field) {
            Some(v.fields[s.field_index[field] as int].1)
        } else {
            None
        }
    } else {
        None
    }
}

/// A diagnostic of a struct destructure, as values.
pub enum DestructureDiag {
    NotAStruct(Seq<char>),
    UnknownField(Seq<char>, Seq<char>),
    DuplicateField(Seq<char>),
    DuplicateLocal(Seq<char>),
    NonExhaustive(Seq<char>, Seq<Seq<char>>),
}

/// `e` is the diagnostic `d`.
pub open spec fn is_destructure_diag(e: HirError, d: DestructureDiag) -> bool {
    match d {
        DestructureDiag::NotAStruct(t) => e matches HirError::Pattern(PatternError::DestructureNotAStruct { ty })
            && ty@ == t,
        DestructureDiag::UnknownField(t, f) => e matches HirError::Pattern(
            PatternError::DestructureUnknownField { ty, field },
        ) && ty@ == t && field@ == f,
        DestructureDiag::DuplicateField(f) => e matches HirError::Pattern(
            PatternError::DestructureDuplicateField { field },
        ) && field@ == f,
        DestructureDiag::DuplicateLocal(n) => e matches HirError::Resolve(ResolveError::DuplicateLocal { name })
            && name@ == n,
        DestructureDiag::NonExhaustive(t, m) => e matches HirError::Pattern(
            PatternError::DestructureNonExhaustive { ty, missing },
        ) && ty@ == t && missing@.map_values(|s: String| s@) == m,
    }
}

/// `after` is `before` with the diagnostics `ds` appended.
pub open spec fn appends_destructure(before: Seq<HirError>, after: Seq<HirError>, ds: Seq<DestructureDiag>) -> bool {
    &&& after.len() == before.len() + ds.len()
    &&& after.take(before.len() as int) == before
    &&& forall|k: int| 0 <= k < ds.len() ==> is_destructure_diag(#[trigger] after[before.len() + k], ds[k])
}

/// A local as values.
pub open spec fn local_view(l: Local) -> (Seq<char>, Option<TypeRef>, bool, PatId) {
    (l.name@, l.ty, l.mutable, l.pat)
}

/// What a destructure has built so far: the innermost scope frame, the
/// diagnostics, the locals and patterns allocated, and the field bindings.
pub struct DestructureState {
    pub frame: Map<Seq<char>, Binding>,
    pub diags: Seq<DestructureDiag>,
    pub locals: Seq<(Seq<char>, Option<TypeRef>, bool, PatId)>,
    pub pats: Seq<Pat>,
    pub bindings: Seq<(Seq<char>, LocalId)>,
}

/// Binding the pattern fields `fs` of a destructure of `ty`, in order: each
/// field must exist in the struct and appear once, each bound name must be
/// new to the block; each field binds a fresh local (typed by the field) in
/// the innermost frame through a fresh binding pattern.
pub open spec fn destructure_fold(
    v: ItemsView,
    ty: Seq<char>,
    fs: Seq<PatField>,
    st0: DestructureState,
    mutable: bool,
) -> DestructureState
    decreases fs.len(),
{
    if fs.len() == 0 {
        st0
    } else {
        let st = destructure_fold(v, ty, fs.drop_last(), st0, mutable);
        let f = fs.last();
        let field = f.field@;
        let b = binding_name(f);
        let fty = destructured_field_type(v, ty, field);
        let d1 = if v.scope.structs.contains_key(ty) && fty is None {
            seq![DestructureDiag::UnknownField(ty, field)]
        } else {
            seq![]
        };
        let d2 = if fs.drop_last().map_values(|p: PatField| p.field@).contains(field) {
            seq![DestructureDiag::DuplicateField(field)]
        } else {
            seq![]
        };
        let d3 = if st.frame.contains_key(b) {
            seq![DestructureDiag::DuplicateLocal(b)]
        } else {
            seq![]
        };
        let pat_id = PatId(st.pats.len() as u32);
        let local_id = LocalId(st.locals.len() as u32);
        DestructureState {
            frame: st.frame.insert(b, Binding::Local(local_id)),
            diags: st.diags + d1 + d2 + d3,
            locals: st.locals.push((b, fty, mutable, pat_id)),
            pats: st.pats.push(Pat::Bind(local_id)),
            bindings: st.bindings.push((field, local_id)),
        }
    }
}

/// Where a destructure starts: the innermost frame, the locals and patterns
/// already allocated, and `DestructureNotAStruct` when `ty` names no struct.
pub open spec fn destructure_start(
    v: ItemsView,
    ty: Seq<char>,
    frame: Map<Seq<char>, Binding>,
    locals: Seq<(Seq<char>, Option<TypeRef>, bool, PatId)>,
    pats: Seq<Pat>,
) -> DestructureState {
    DestructureState {
        frame,
        diags: if v.scope.structs.contains_key(ty) {
            seq![]
        } else {
            seq![DestructureDiag::NotAStruct(ty)]
        },
        locals,
        pats,
        bindings: seq![],
    }
}

/// The declared fields of the struct named `ty` that the pattern fields `fs`
/// leave unbound.
pub open spec fn destructure_missing(v: ItemsView, ty: Seq<char>, fs: Seq<PatField>) -> Seq<Seq<char>> {
    if v.scope.structs.contains_key(ty) {
        names_not_in(declared_field_names(v, v.scope.structs[ty] as int), fs.map_values(|p: PatField| p.field@))
    } else {
        seq![]
    }
}

/// The declared field names of the struct at `sid`.
fn struct_field_names(hir: &HIR, sid: crate::ids::StructId) -> (out: Vec<String>)
    requires
        hir.wf(),
        (sid.0 as int) < hir.items_view().structs.len(),
    ensures
        out@.map_values(|s: String| s@) == declared_field_names(hir.items_view(), sid.0 as int),
{
    let ghost v = hir.items_view();
    let st = hir.structs.get(sid);
    let ghost sv = v.structs[sid.0 as int];
    assert(sv.fields == st.fields@);
    let mut declared: Vec<String> = Vec::new();
    let mut j: usize = 0;
    while j < st.fields.len()
        invariant
            j <= st.fields@.len(),
            v == hir.items_view(),
            items_wf(v),
            (sid.0 as int) < v.structs.len(),
            sv == v.structs[sid.0 as int],
            sv.fields == st.fields@,
            declared@.map_values(|s: String| s@) == sv.fields.take(j as int).map_values(
                |f: FieldId| v.fields[f.0 as int].0,
            ),
        decreases st.fields@.len() - j,
    {
        let fid = st.fields[j];
        assert(sv.fields[j as int] == fid);
        assert((fid.0 as int) < v.fields.len());
        let f = hir.fields.get(fid);
        assert(v.fields[fid.0 as int] == (f.name@, f.ty));
        let nm = f.name.clone();
        assert(sv.fields.take(j + 1)[j as int] == fid);
        assert(sv.fields.take(j + 1).drop_last() =~= sv.fields.take(j as int));
        let ghost prev = declared@;
        declared.push(nm);
        assert(declared@.map_values(|s: String| s@) =~= prev.map_values(|s: String| s@).push(nm@));
        assert(declared@.map_values(|s: String| s@) =~= sv.fields.take(j + 1).map_values(
            |f: FieldId| v.fields[f.0 as int].0,
        ));
        j = j + 1;
    }
    assert(sv.fields.take(sv.fields.len() as int) =~= sv.fields);
    declared
}

/// The type of field `field` of struct `sid`: the field its index names.
fn field_type(hir: &HIR, sid: crate::ids::StructId, field: &str) -> (r: Option<TypeRef>)
    requires
        hir.wf(),
        (sid.0 as int) < hir.items_view().structs.len(),
    ensures
        ({
            let s = hir.items_view().structs[sid.0 as int];
            if s.field_index.contains_key(field@) {
                r == Some(hir.items_view().fields[s.field_index[field@] as int].1)
            } else {
                r is None
            }
        }),
{
    let ghost v = hir.items_view();
    let st = hir.structs.get(sid);
    assert(v.structs[sid.0 as int].field_index == name_table(st.field_index));
    match name_table_get(&st.field_index, field) {
        Some(fid) => {
            assert((fid as int) < v.fields.len());
            let f = hir.fields.get(FieldId(fid));
            assert(v.fields[fid as int] == (f.name@, f.ty));
            Some(f.ty)
        },
        None => None,
    }
}

/// A struct destructure `let Ty { f, g: h } = ..`: binds one local per
/// pattern field in the innermost scope frame (through a binding pattern
/// each), reporting a type that names no struct, a field the struct lacks, a
/// field bound twice, a name already bound in the block, and the declared
/// fields left unbound; returns the struct pattern.
pub fn lower_destructure(
    hir: &HIR,
    scopes: &mut Scopes,
    pats: &mut TypedArena<Pat, PatId>,
    locals: &mut TypedArena<Local, LocalId>,
    diags: &mut Vec<HirError>,
    ty: &str,
    fields: &Vec<PatField>,
    mutable: bool,
) -> (pat: Pat)
    requires
        hir.wf(),
        old(scopes)@.len() > 0,
        old(pats)@.len() + fields@.len() < u32::MAX,
        old(locals)@.len() + fields@.len() < u32::MAX,
    ensures
        ({
            let v = hir.items_view();
            let st = destructure_fold(
                v,
                ty@,
                fields@,
                destructure_start(
                    v,
                    ty@,
                    old(scopes)@.last(),
                    old(locals)@.map_values(|l: Local| local_view(l)),
                    old(pats)@,
                ),
                mutable,
            );
            let missing = destructure_missing(v, ty@, fields@);
            &&& final(scopes)@ == old(scopes)@.update(old(scopes)@.len() - 1, st.frame)
            &&& final(locals)@.map_values(|l: Local| local_view(l)) == st.locals
            &&& final(pats)@ == st.pats
            &&& appends_destructure(
                old(diags)@,
                final(diags)@,
                st.diags + if missing.len() > 0 {
                    seq![DestructureDiag::NonExhaustive(ty@, missing)]
                } else {
                    seq![]
                },
            )
            &&& pat matches Pat::Struct { ty: t, fields: bs } && t@ == ty@ && bs@.map_values(
                |b: StructPatBinding| (b.field@, b.local),
            ) == st.bindings
        }),
{
    let ghost v = hir.items_view();
    let ghost d0 = diags@;
    let ghost st0 = destructure_start(
        v,
        ty@,
        scopes@.last(),
        locals@.map_values(|l: Local| local_view(l)),
        pats@,
    );
    let ghost top = (scopes@.len() - 1) as int;
    let ghost s0 = scopes@;
    let struct_id = hir.items.struct_id(ty);
    if struct_id.is_none() {
        diags.push(HirError::Pattern(PatternError::DestructureNotAStruct { ty: ty.to_owned() }));
    }
    proof {
        assert(diags@.take(d0.len() as int) =~= d0);
        assert(fields@.take(0) =~= Seq::<PatField>::empty());
        assert(s0.update(top, st0.frame) =~= s0);
        assert(items_wf(v));
    }
    let mut bindings: Vec<StructPatBinding> = Vec::new();
    let mut seen: NameSet = name_set_new(fields.len());
    let mut i: usize = 0;
    while i < fields.len()
        invariant
            i <= fields@.len(),
            v == hir.items_view(),
            hir.wf(),
            items_wf(v),
            top == s0.len() - 1,
            s0.len() > 0,
            s0 == old(scopes)@,
            st0 == destructure_start(
                v,
                ty@,
                s0.last(),
                old(locals)@.map_values(|l: Local| local_view(l)),
                old(pats)@,
            ),
            d0 == old(diags)@,
            struct_id == (if v.scope.structs.contains_key(ty@) {
                Some(crate::ids::StructId(v.scope.structs[ty@]))
            } else {
                None::<crate::ids::StructId>
            }),
            old(pats)@.len() + fields@.len() < u32::MAX,
            old(locals)@.len() + fields@.len() < u32::MAX,
            ({
                let st = destructure_fold(v, ty@, fields@.take(i as int), st0, mutable);
                &&& scopes@ == s0.update(top, st.frame)
                &&& locals@.map_values(|l: Local| local_view(l)) == st.locals
                &&& pats@ == st.pats
                &&& appends_destructure(d0, diags@, st.diags)
                &&& bindings@.map_values(|b: StructPatBinding| (b.field@, b.local)) == st.bindings
                &&& st.pats.len() == old(pats)@.len() + i
                &&& st.locals.len() == old(locals)@.len() + i
            }),
            name_set(seen) == fields@.take(i as int).map_values(|p: PatField| p.field@).to_set(),
        decreases fields@.len() - i,
    {
        let pf = &fields[i];
        let ghost t = fields@.take(i + 1);
        let ghost st = destructure_fold(v, ty@, fields@.take(i as int), st0, mutable);
        let ghost dbefore = diags@;
        proof {
            assert(t.drop_last() =~= fields@.take(i as int));
            assert(t.last() == *pf);
        }
        let binding = match &pf.binding {
            Some(b) => b.clone(),
            None => pf.field.clone(),
        };
        assert(binding@ == binding_name(*pf));
        let field_ty = match struct_id {
            Some(sid) => field_type(hir, sid, pf.field.as_str()),
            None => None,
        };
        assert(field_ty == destructured_field_type(v, ty@, pf.field@));
        if struct_id.is_some() && field_ty.is_none() {
            diags.push(
                HirError::Pattern(
                    PatternError::DestructureUnknownField { ty: ty.to_owned(), field: pf.field.clone() },
                ),
            );
        }
        let ghost d1len = diags@.len();
        let ghost seen_prev = name_set(seen);
        if !name_set_insert(&mut seen, pf.field.clone()) {
            diags.push(HirError::Pattern(PatternError::DestructureDuplicateField { field: pf.field.clone() }));
        }
        let ghost d2len = diags@.len();
        assert(scopes@.last() == st.frame);
        if scopes.declared_in_current(binding.as_str()) {
            diags.push(HirError::Resolve(ResolveError::DuplicateLocal { name: binding.clone() }));
        }
        let pat_id = pats.allocate(Pat::Missing);
        let local = Local { name: binding.clone(), ty: field_ty, mutable, pat: pat_id };
        let ghost lprev = locals@;
        let local_id = locals.allocate(local);
        pats.set(pat_id, Pat::Bind(local_id));
        scopes.define(binding, local_id);
        let fname = pf.field.clone();
        let ghost bprev = bindings@;
        bindings.push(StructPatBinding { field: fname, local: local_id });
        proof {
            let nst = destructure_fold(v, ty@, t, st0, mutable);
            assert(pats@ =~= nst.pats);
            assert(locals@.map_values(|l: Local| local_view(l)) =~= lprev.map_values(|l: Local| local_view(l)).push(
                local_view(local),
            ));
            assert(locals@.map_values(|l: Local| local_view(l)) =~= nst.locals);
            assert(bindings@.map_values(|b: StructPatBinding| (b.field@, b.local)) =~= nst.bindings);
            assert(scopes@ =~= s0.update(top, nst.frame));
            assert(t.map_values(|p: PatField| p.field@) =~= fields@.take(i as int).map_values(|p: PatField| p.field@).push(pf.field@));
            fields@.take(i as int).map_values(|p: PatField| p.field@).lemma_push_to_set_commute(pf.field@);
            assert(diags@.take(d0.len() as int) =~= d0) by {
                assert(diags@.take(dbefore.len() as int) =~= dbefore);
            }
            assert(diags@.len() == d0.len() + nst.diags.len());
            assert forall|k: int| 0 <= k < nst.diags.len() implies is_destructure_diag(
                #[trigger] diags@[d0.len() + k],
                nst.diags[k],
            ) by {
                if k < st.diags.len() {
                    assert(diags@.take(dbefore.len() as int)[d0.len() + k] == dbefore[d0.len() + k]);
                }
            }
        }
        i = i + 1;
    }
    proof {
        assert(fields@.take(fields@.len() as int) =~= fields@);
    }
    let ghost dmid = diags@;
    match struct_id {
        Some(sid) => {
            let declared = struct_field_names(hir, sid);
            let missing = names_outside(&declared, &seen, Ghost(fields@.map_values(|p: PatField| p.field@)));
            if missing.len() > 0 {
                diags.push(HirError::Pattern(PatternError::DestructureNonExhaustive { ty: ty.to_owned(), missing }));
            }
        },
        None => {},
    }
    proof {
        let st = destructure_fold(v, ty@, fields@, st0, mutable);
        let missing = destructure_missing(v, ty@, fields@);
        let extra = if missing.len() > 0 {
            seq![DestructureDiag::NonExhaustive(ty@, missing)]
        } else {
            seq![]
        };
        assert(diags@.take(d0.len() as int) =~= d0) by {
            assert(diags@.take(dmid.len() as int) =~= dmid);
        }
        assert forall|k: int| 0 <= k < (st.diags + extra).len() implies is_destructure_diag(
            #[trigger] diags@[d0.len() + k],
            (st.diags + extra)[k],
        ) by {
            if k < st.diags.len() {
                assert(diags@.take(dmid.len() as int)[d0.len() + k] == dmid[d0.len() + k]);
            }
        }
    }
    Pat::Struct { ty: ty.to_owned(), fields: bindings }
}

/// Allocates a local and the pattern binding it, each naming the other.
pub fn alloc_bind_pat(
    pats: &mut TypedArena<Pat, PatId>,
    locals: &mut TypedArena<Local, LocalId>,
    name: String,
    ty: Option<TypeRef>,
    mutable: bool,
) -> (r: (PatId, LocalId))
    requires
        old(pats)@.len() < u32::MAX,
        old(locals)@.len() < u32::MAX,
    ensures
        r.0.0 == old(pats)@.len(),
        r.1.0 == old(locals)@.len(),
        final(pats)@ == old(pats)@.push(Pat::Bind(r.1)),
        final(locals)@.map_values(|l: Local| local_view(l)) == old(locals)@.map_values(|l: Local| local_view(l)).push(
            (name@, ty, mutable, r.0),
        ),
{
    let pat_id = pats.allocate(Pat::Missing);
    let local = Local { name, ty, mutable, pat: pat_id };
    let ghost prev = locals@;
    let local_id = locals.allocate(local);
    pats.set(pat_id, Pat::Bind(local_id));
    assert(pats@ =~= old(pats)@.push(Pat::Bind(local_id)));
    assert(locals@.map_values(|l: Local| local_view(l)) =~= prev.map_values(|l: Local| local_view(l)).push(
        local_view(local),
    ));
    (pat_id, local_id)
}

/// A `let` binding of `name`: a name already bound in the same block is a
/// `DuplicateLocal` (shadowing needs a nested block); the binding is made
/// either way, in the innermost frame, through a fresh binding pattern.
pub fn lower_let_binding(
    scopes: &mut Scopes,
    pats: &mut TypedArena<Pat, PatId>,
    locals: &mut TypedArena<Local, LocalId>,
    diags: &mut Vec<HirError>,
    name: String,
    ty: Option<TypeRef>,
    mutable: bool,
) -> (r: (PatId, LocalId))
    requires
        old(scopes)@.len() > 0,
        old(pats)@.len() < u32::MAX,
        old(locals)@.len() < u32::MAX,
    ensures
        r.0.0 == old(pats)@.len(),
        r.1.0 == old(locals)@.len(),
        final(pats)@ == old(pats)@.push(Pat::Bind(r.1)),
        final(locals)@.map_values(|l: Local| local_view(l)) == old(locals)@.map_values(|l: Local| local_view(l)).push(
            (name@, ty, mutable, r.0),
        ),
        final(scopes)@ == old(scopes)@.update(
            old(scopes)@.len() - 1,
            old(scopes)@.last().insert(name@, Binding::Local(r.1)),
        ),
        appends_destructure(
            old(diags)@,
            final(diags)@,
            if old(scopes)@.last().contains_key(name@) {
                seq![DestructureDiag::DuplicateLocal(name@)]
            } else {
                seq![]
            },
        ),
{
    let ghost d0 = diags@;
    if scopes.declared_in_current(name.as_str()) {
        diags.push(HirError::Resolve(ResolveError::DuplicateLocal { name: name.clone() }));
    }
    assert(diags@.take(d0.len() as int) =~= d0);
    let ghost n = name@;
    let r = alloc_bind_pat(pats, locals, name.clone(), ty, mutable);
    scopes.define(name, r.1);
    r
}

/// A block-scope `const` named `name`: a name already bound in the same
/// block is a `DuplicateLocal`; the constant joins the body's constants and
/// the innermost frame either way.
pub fn lower_local_const(
    scopes: &mut Scopes,
    local_consts: &mut TypedArena<LocalConst, LocalConstId>,
    diags: &mut Vec<HirError>,
    konst: LocalConst,
) -> (id: LocalConstId)
    requires
        old(scopes)@.len() > 0,
        old(local_consts)@.len() < u32::MAX,
    ensures
        id.0 == old(local_consts)@.len(),
        final(local_consts)@ == old(local_consts)@.push(konst),
        final(scopes)@ == old(scopes)@.update(
            old(scopes)@.len() - 1,
            old(scopes)@.last().insert(konst.name@, Binding::Const(id)),
        ),
        appends_destructure(
            old(diags)@,
            final(diags)@,
            if old(scopes)@.last().contains_key(konst.name@) {
                seq![DestructureDiag::DuplicateLocal(konst.name@)]
            } else {
                seq![]
            },
        ),
{
    let ghost d0 = diags@;
    if scopes.declared_in_current(konst.name.as_str()) {
        diags.push(HirError::Resolve(ResolveError::DuplicateLocal { name: konst.name.clone() }));
    }
    assert(diags@.take(d0.len() as int) =~= d0);
    let name = konst.name.clone();
    let id = local_consts.allocate(konst);
    scopes.define_const(name, id);
    id
}

/// The type of the first of the fields `fids` named `field`.
pub open spec fn first_field_type(v: ItemsView, fids: Seq<FieldId>, field: Seq<char>) -> Option<TypeRef>
    decreases fids.len(),
{
    if fids.len() == 0 {
        None
    } else if v.fields[fids[0].0 as int].0 == field {
        Some(v.fields[fids[0].0 as int].1)
    } else {
        first_field_type(v, fids.skip(1), field)
    }
}

/// The type of field `field` of a value of type `ty`: a struct's field of
/// that name (its first), looking through references and pointers; the
/// error type `err` otherwise.
pub open spec fn spec_field_type(v: ItemsView, ty: TypeRef, field: Seq<char>, err: TypeRef) -> TypeRef
    decreases ty.0,
{
    if (ty.0 as int) >= v.types.len() {
        err
    } else {
        match v.types[ty.0 as int] {
            KindView::Path(n) => if v.scope.structs.contains_key(n) {
                match first_field_type(v, v.structs[v.scope.structs[n] as int].fields, field) {
                    Some(t) => t,
                    None => err,
                }
            } else {
                err
            },
            KindView::Ref(inner) => if inner.0 < ty.0 {
                spec_field_type(v, inner, field, err)
            } else {
                err
            },
            KindView::Ptr(inner) => if inner.0 < ty.0 {
                spec_field_type(v, inner, field, err)
            } else {
                err
            },
            _ => err,
        }
    }
}

/// The handle of the error type in a well-formed type table.
pub open spec fn error_ref(kinds: Seq<KindView>) -> TypeRef {
    TypeRef((choose|i: int| 0 <= i < kinds.len() && kinds[i] == KindView::Error) as u32)
}

proof fn lemma_error_unique(kinds: Seq<KindView>, e: TypeRef)
    requires
        crate::types::wf_kinds(kinds),
        (e.0 as int) < kinds.len(),
        kinds[e.0 as int] == KindView::Error,
    ensures
        e == error_ref(kinds),
{
    let i = choose|i: int| 0 <= i < kinds.len() && kinds[i] == KindView::Error;
    if i != e.0 as int {
        if i < e.0 as int {
            assert(kinds[i] != kinds[e.0 as int]);
        } else {
            assert(kinds[e.0 as int] != kinds[i]);
        }
    }
}

/// The type of field `field` of a value of type `struct_ty`, looking
/// through one reference or pointer at a time; the error type when the type
/// is no struct or the struct has no such field.
pub fn lookup_field_type(hir: &HIR, struct_ty: TypeRef, field: &str) -> (t: TypeRef)
    requires
        hir.wf(),
    ensures
        t == spec_field_type(hir.items_view(), struct_ty, field@, error_ref(hir.types@)),
    decreases struct_ty.0,
{
    let ghost v = hir.items_view();
    proof {
        hir.types.lemma_wf();
    }
    let err = hir.types.error_type();
    proof {
        lemma_error_unique(hir.types@, err);
    }
    if struct_ty.0 as usize >= hir.types.len() {
        return err;
    }
    proof {
        assert(crate::types::children_below(hir.types@[struct_ty.0 as int], struct_ty.0 as int));
    }
    match hir.types.lookup(struct_ty) {
        TypeKind::Path(name) => {
            match hir.items.struct_id(name.as_str()) {
                Some(sid) => {
                    proof {
                        assert(v.scope.structs.contains_key(name@));
                        assert(items_wf(v));
                        assert(v.types[struct_ty.0 as int] == KindView::Path(name@));
                    }
                    let st = hir.structs.get(sid);
                    let ghost fids = v.structs[sid.0 as int].fields;
                    assert(fids == st.fields@);
                    let mut j: usize = 0;
                    assert(fids.skip(0) =~= fids);
                    while j < st.fields.len()
                        invariant
                            j <= st.fields@.len(),
                            v == hir.items_view(),
                            items_wf(v),
                            (sid.0 as int) < v.structs.len(),
                            fids == v.structs[sid.0 as int].fields,
                            fids == st.fields@,
                            v.scope.structs.contains_key(name@),
                            v.scope.structs[name@] == sid.0,
                            (struct_ty.0 as int) < v.types.len(),
                            v.types[struct_ty.0 as int] == KindView::Path(name@),
                            first_field_type(v, fids, field@) == first_field_type(v, fids.skip(j as int), field@),
                        decreases st.fields@.len() - j,
                    {
                        let fid = st.fields[j];
                        assert(fids.skip(j as int)[0] == fid);
                        assert(fids.skip(j as int).skip(1) =~= fids.skip(j + 1));
                        assert((fid.0 as int) < v.fields.len());
                        let f = hir.fields.get(fid);
                        assert(v.fields[fid.0 as int] == (f.name@, f.ty));
                        if str_eq(f.name.as_str(), field) {
                            assert(first_field_type(v, fids.skip(j as int), field@) == Some(f.ty));
                            assert(v.scope.structs[name@] == sid.0);
                            return f.ty;
                        }
                        j = j + 1;
                    }
                    assert(fids.skip(j as int).len() == 0);
                    err
                },
                None => err,
            }
        },
        TypeKind::Ref(inner) => lookup_field_type(hir, *inner, field),
        TypeKind::Ptr(inner) => lookup_field_type(hir, *inner, field),
        _ => err,
    }
}

/// The frame binding the parameters `ps` to the locals `base`, `base + 1`,
/// ... (a later parameter of the same name wins).
pub open spec fn param_frame(ps: Seq<Param>, base: int) -> Map<Seq<char>, Binding>
    decreases ps.len(),
{
    if ps.len() == 0 {
        Map::empty()
    } else {
        param_frame(ps.drop_last(), base).insert(
            ps.last().name@,
            Binding::Local(LocalId((base + ps.len() - 1) as u32)),
        )
    }
}

/// Binds the parameters of `function` for its body: a new innermost frame
/// in which each parameter is a mutable local (there is no `mut` marker for
/// parameters) typed by the signature, bound through a binding pattern, in
/// order.
pub fn bind_params(
    scopes: &mut Scopes,
    pats: &mut TypedArena<Pat, PatId>,
    locals: &mut TypedArena<Local, LocalId>,
    function: &Function,
)
    requires
        old(pats)@.len() + function.params@.len() < u32::MAX,
        old(locals)@.len() + function.params@.len() < u32::MAX,
    ensures
        final(scopes)@ == old(scopes)@.push(param_frame(function.params@, old(locals)@.len() as int)),
        final(pats)@ == old(pats)@ + Seq::new(
            function.params@.len(),
            |k: int| Pat::Bind(LocalId((old(locals)@.len() + k) as u32)),
        ),
        final(locals)@.map_values(|l: Local| local_view(l)) == old(locals)@.map_values(|l: Local| local_view(l))
            + Seq::new(
            function.params@.len(),
            |k: int|
                (
                    function.params@[k].name@,
                    Some(function.params@[k].ty),
                    true,
                    PatId((old(pats)@.len() + k) as u32),
                ),
        ),
{
    let ghost ps = function.params@;
    let ghost pb = pats@.len() as int;
    let ghost lb = locals@.len() as int;
    let ghost p0 = pats@;
    let ghost l0 = locals@.map_values(|l: Local| local_view(l));
    let ghost s0 = scopes@;
    scopes.push();
    proof {
        assert(scopes@.last() =~= Map::<Seq<char>, Binding>::empty());
        assert(scopes@ =~= s0.push(Map::empty()));
        assert(ps.take(0) =~= Seq::<Param>::empty());
    }
    let mut i: usize = 0;
    while i < function.params.len()
        invariant
            i <= ps.len(),
            ps == function.params@,
            pb == old(pats)@.len(),
            lb == old(locals)@.len(),
            p0 == old(pats)@,
            l0 == old(locals)@.map_values(|l: Local| local_view(l)),
            s0 == old(scopes)@,
            pb + ps.len() < u32::MAX,
            lb + ps.len() < u32::MAX,
            scopes@ == s0.push(param_frame(ps.take(i as int), lb)),
            pats@ == p0 + Seq::new(i as nat, |k: int| Pat::Bind(LocalId((lb + k) as u32))),
            locals@.map_values(|l: Local| local_view(l)) == l0 + Seq::new(
                i as nat,
                |k: int| (ps[k].name@, Some(ps[k].ty), true, PatId((pb + k) as u32)),
            ),
        decreases ps.len() - i,
    {
        let p = &function.params[i];
        let ghost pprev = pats@;
        let ghost lprev = locals@.map_values(|l: Local| local_view(l));
        assert(lprev.len() == locals@.len());
        assert(locals@.len() == lb + i);
        assert(pats@.len() == pb + i);
        let (_pat, local) = alloc_bind_pat(pats, locals, p.name.clone(), Some(p.ty), true);
        assert(local == LocalId((lb + i) as u32));
        scopes.define(p.name.clone(), local);
        proof {
            let t = ps.take(i + 1);
            assert(t.drop_last() =~= ps.take(i as int));
            assert(t.last() == *p);
            assert(pats@ =~= p0 + Seq::new((i + 1) as nat, |k: int| Pat::Bind(LocalId((lb + k) as u32))));
            assert(locals@.map_values(|l: Local| local_view(l)) =~= l0 + Seq::new(
                (i + 1) as nat,
                |k: int| (ps[k].name@, Some(ps[k].ty), true, PatId((pb + k) as u32)),
            ));
            assert(scopes@ =~= s0.push(param_frame(t, lb)));
        }
        i = i + 1;
    }
    proof {
        assert(ps.take(ps.len() as int) =~= ps);
    }
}

} // verus!
