use eye::body::{Expr, Literal, LocalConst, Pat, Resolution, StructLitField};
use eye::errors::{ConstError, HirError, ResolveError, TypeError};
use eye::ids::{ConstId, EnumId, ExprId, FnId, GlobalId, LocalConstId, LocalId, StructId};
use eye::items::{collect_consts, collect_items, Field, Function, ItemDecl, Param, HIR};
use eye::lowering::{
    assign_to_const_error, bare_pat_variant, call_arity_error, const_place_name, len_intrinsic_error, path_pat,
    ref_operand_error, struct_lit_field_errors, struct_lit_name_error, value_use_error, variant_access,
};
use eye::typed_arena::TypedArena;
use eye::types::TypeRef;

const INT32: TypeRef = TypeRef(3);

fn sample_hir() -> HIR {
    let items = vec![
        ItemDecl::Const { name: "MAX".to_string(), ty: INT32 },
        ItemDecl::Struct {
            name: "Point".to_string(),
            fields: vec![
                Field { name: "x".to_string(), ty: INT32 },
                Field { name: "y".to_string(), ty: INT32 },
            ],
        },
        ItemDecl::Union { name: "Bits".to_string(), fields: vec![Field { name: "i".to_string(), ty: INT32 }] },
        ItemDecl::Enum { name: "Shape".to_string(), variants: vec!["Circle".to_string(), "Square".to_string()] },
    ];
    let mut hir = HIR::default();
    collect_consts(&mut hir, &items);
    collect_items(&mut hir, &items);
    assert!(hir.diagnostics.is_empty());
    hir
}

fn lit_fields(names: &[&str]) -> Vec<StructLitField> {
    names
        .iter()
        .enumerate()
        .map(|(i, n)| StructLitField { name: n.to_string(), value: ExprId(i as u32) })
        .collect()
}

#[test]
fn names_in_value_position_must_be_values() {
    assert_eq!(value_use_error(&Resolution::Local(LocalId(0)), "x", false), None);
    assert_eq!(value_use_error(&Resolution::Fn(FnId(0)), "f", false), None);
    assert_eq!(value_use_error(&Resolution::Const(ConstId(0)), "MAX", false), None);
    assert_eq!(
        value_use_error(&Resolution::Struct(StructId(0)), "Point", false),
        Some(ResolveError::StructNameAsValue { name: "Point".to_string() })
    );
    assert_eq!(
        value_use_error(&Resolution::Enum(EnumId(0)), "Shape", true),
        Some(ResolveError::EnumNameAsValue { name: "Shape".to_string() })
    );
    assert_eq!(value_use_error(&Resolution::Unresolved("println".to_string()), "println", true), None);
    assert_eq!(value_use_error(&Resolution::Unresolved("len".to_string()), "len", true), None);
    assert_eq!(
        value_use_error(&Resolution::Unresolved("len".to_string()), "len", false),
        Some(ResolveError::UnresolvedName { name: "len".to_string() })
    );
    assert_eq!(
        value_use_error(&Resolution::Unresolved("foo".to_string()), "foo", true),
        Some(ResolveError::UnresolvedName { name: "foo".to_string() })
    );
}

#[test]
fn calls_pass_as_many_arguments_as_parameters() {
    let f = Function {
        name: "add".to_string(),
        params: vec![Param { name: "a".to_string(), ty: INT32 }, Param { name: "b".to_string(), ty: INT32 }],
        ret: Some(INT32),
        body: None,
        is_extern: false,
        variadic: false,
        fn_type: None,
    };
    assert_eq!(call_arity_error(&f, 2), None);
    assert_eq!(
        call_arity_error(&f, 3),
        Some(TypeError::CallArityMismatch { name: "add".to_string(), expected: 2, found: 3, variadic: false })
    );
    let printf = Function { variadic: true, is_extern: true, name: "printf".to_string(), ..f.clone() };
    assert_eq!(call_arity_error(&printf, 5), None);
    assert_eq!(
        call_arity_error(&printf, 1),
        Some(TypeError::CallArityMismatch { name: "printf".to_string(), expected: 2, found: 1, variadic: true })
    );
}

#[test]
fn len_takes_one_place() {
    let mut exprs: TypedArena<Expr, ExprId> = TypedArena::new();
    let local = exprs.allocate(Expr::Path(Resolution::Local(LocalId(0))));
    let call = exprs.allocate(Expr::Call { callee: local, args: vec![] });
    assert_eq!(len_intrinsic_error(&vec![local], &exprs), None);
    assert_eq!(len_intrinsic_error(&vec![call], &exprs), Some(TypeError::LenNotAPlace));
    assert_eq!(len_intrinsic_error(&vec![], &exprs), Some(TypeError::LenArity { found: 0 }));
    assert_eq!(len_intrinsic_error(&vec![local, local], &exprs), Some(TypeError::LenArity { found: 2 }));
}

#[test]
fn constants_have_no_address_and_take_no_assignment() {
    let hir = sample_hir();
    let mut local_consts: TypedArena<LocalConst, LocalConstId> = TypedArena::new();
    local_consts.allocate(LocalConst { name: "N".to_string(), ty: INT32, value: None });
    let top = Expr::Path(Resolution::Const(ConstId(0)));
    let local = Expr::Path(Resolution::LocalConst(LocalConstId(0)));
    assert_eq!(const_place_name(&top, &hir, &local_consts), Some("MAX".to_string()));
    assert_eq!(
        ref_operand_error(&local, &hir, &local_consts),
        Some(HirError::Const(ConstError::RefOfConst { name: "N".to_string() }))
    );
    assert_eq!(
        assign_to_const_error(&top, &hir, &local_consts),
        Some(ConstError::AssignToConst { name: "MAX".to_string() })
    );
    let sum = Expr::Binary { op: eye::consts::BinOp::Add, lhs: ExprId(0), rhs: ExprId(1) };
    assert_eq!(ref_operand_error(&sum, &hir, &local_consts), Some(HirError::Type(TypeError::RefOfNonPlace)));
    assert_eq!(ref_operand_error(&Expr::Path(Resolution::Global(GlobalId(0))), &hir, &local_consts), None);
    assert_eq!(ref_operand_error(&Expr::Missing, &hir, &local_consts), None);
    assert_eq!(ref_operand_error(&Expr::Literal(Literal::Int(1)), &hir, &local_consts), Some(HirError::Type(TypeError::RefOfNonPlace)));
    assert_eq!(assign_to_const_error(&Expr::Path(Resolution::Local(LocalId(0))), &hir, &local_consts), None);
}

#[test]
fn struct_literals_name_every_declared_field_once() {
    let hir = sample_hir();
    assert_eq!(struct_lit_name_error(&hir.items, "Point"), None);
    assert_eq!(struct_lit_name_error(&hir.items, "Bits"), None);
    assert_eq!(
        struct_lit_name_error(&hir.items, "Nope"),
        Some(ResolveError::UnknownStructLiteral { name: "Nope".to_string() })
    );
    assert_eq!(struct_lit_field_errors(&hir, "Point", &lit_fields(&["x", "y"]), false), vec![]);
    assert_eq!(
        struct_lit_field_errors(&hir, "Point", &lit_fields(&["x", "z", "w"]), false),
        vec![
            TypeError::StructLitMissingFields { name: "Point".to_string(), fields: vec!["y".to_string()] },
            TypeError::StructLitUnknownFields {
                name: "Point".to_string(),
                fields: vec!["z".to_string(), "w".to_string()],
            },
        ]
    );
    assert_eq!(struct_lit_field_errors(&hir, "Point", &lit_fields(&["x"]), true), vec![]);
    assert_eq!(
        struct_lit_field_errors(&hir, "Bits", &lit_fields(&["i", "i"]), false),
        vec![TypeError::UnionLiteralFieldCount { name: "Bits".to_string(), found: 2 }]
    );
    assert_eq!(struct_lit_field_errors(&hir, "Bits", &lit_fields(&["i"]), false), vec![]);
}

#[test]
fn variant_paths_resolve_by_name() {
    let hir = sample_hir();
    assert_eq!(path_pat(&hir, "Shape", "Square"), Ok(Pat::Variant { enum_id: EnumId(0), idx: 1 }));
    assert_eq!(
        path_pat(&hir, "Shape", "Line"),
        Err(ResolveError::NoSuchVariant { enum_name: "Shape".to_string(), variant: "Line".to_string() })
    );
    assert_eq!(
        path_pat(&hir, "Color", "Red"),
        Err(ResolveError::UnknownEnumInPattern { enum_name: "Color".to_string() })
    );
    assert_eq!(
        variant_access(&hir, "Shape", "Circle"),
        Some(Ok(Resolution::Variant { enum_id: EnumId(0), idx: 0 }))
    );
    assert_eq!(
        variant_access(&hir, "Shape", "x"),
        Some(Err(ResolveError::NoSuchVariant { enum_name: "Shape".to_string(), variant: "x".to_string() }))
    );
    assert_eq!(variant_access(&hir, "p", "x"), None);
    assert_eq!(bare_pat_variant(&hir.items, "Circle"), Some(Pat::Variant { enum_id: EnumId(0), idx: 0 }));
    assert_eq!(bare_pat_variant(&hir.items, "other"), None);
}

use eye::body::{Local, StructPatBinding};
use eye::errors::PatternError;
use eye::ids::PatId;
use eye::lowering::{alloc_bind_pat, lower_destructure, lower_let_binding, lower_local_const, PatField};
use eye::scopes::{Binding, Scopes};

fn pf(field: &str, binding: Option<&str>) -> PatField {
    PatField { field: field.to_string(), binding: binding.map(|b| b.to_string()) }
}

#[test]
fn destructure_binds_every_field_once() {
    let hir = sample_hir();
    let mut scopes = Scopes::new();
    let mut pats: TypedArena<Pat, PatId> = TypedArena::new();
    let mut locals: TypedArena<Local, LocalId> = TypedArena::new();
    let mut diags = Vec::new();
    let pat = lower_destructure(
        &hir,
        &mut scopes,
        &mut pats,
        &mut locals,
        &mut diags,
        "Point",
        &vec![pf("x", None), pf("y", Some("py"))],
        false,
    );
    assert!(diags.is_empty(), "{diags:?}");
    assert_eq!(
        pat,
        Pat::Struct {
            ty: "Point".to_string(),
            fields: vec![
                StructPatBinding { field: "x".to_string(), local: LocalId(0) },
                StructPatBinding { field: "y".to_string(), local: LocalId(1) },
            ],
        }
    );
    assert_eq!(locals.get(LocalId(1)).name, "py");
    assert_eq!(locals.get(LocalId(1)).ty, Some(INT32));
    assert_eq!(pats.get(PatId(1)), &Pat::Bind(LocalId(1)));
    assert_eq!(scopes.lookup("py"), Some(Binding::Local(LocalId(1))));
}

#[test]
fn destructure_reports_each_field_problem() {
    let hir = sample_hir();
    let mut scopes = Scopes::new();
    scopes.define("taken".to_string(), LocalId(9));
    let mut pats: TypedArena<Pat, PatId> = TypedArena::new();
    let mut locals: TypedArena<Local, LocalId> = TypedArena::new();
    let mut diags = Vec::new();
    lower_destructure(
        &hir,
        &mut scopes,
        &mut pats,
        &mut locals,
        &mut diags,
        "Point",
        &vec![pf("z", None), pf("x", Some("taken")), pf("x", Some("a"))],
        true,
    );
    assert_eq!(
        diags,
        vec![
            HirError::Pattern(PatternError::DestructureUnknownField { ty: "Point".to_string(), field: "z".to_string() }),
            HirError::Resolve(ResolveError::DuplicateLocal { name: "taken".to_string() }),
            HirError::Pattern(PatternError::DestructureDuplicateField { field: "x".to_string() }),
            HirError::Pattern(PatternError::DestructureNonExhaustive {
                ty: "Point".to_string(),
                missing: vec!["y".to_string()],
            }),
        ]
    );
    assert_eq!(locals.len(), 3);
    assert!(locals.get(LocalId(2)).mutable);
    assert_eq!(locals.get(LocalId(0)).ty, None);
    let mut diags = Vec::new();
    lower_destructure(&hir, &mut scopes, &mut pats, &mut locals, &mut diags, "Bits", &vec![pf("i", None)], false);
    assert_eq!(diags, vec![HirError::Pattern(PatternError::DestructureNotAStruct { ty: "Bits".to_string() })]);
}

#[test]
fn a_name_is_declared_once_per_block() {
    let mut scopes = Scopes::new();
    let mut pats: TypedArena<Pat, PatId> = TypedArena::new();
    let mut locals: TypedArena<Local, LocalId> = TypedArena::new();
    let mut consts: TypedArena<LocalConst, LocalConstId> = TypedArena::new();
    let mut diags = Vec::new();
    let (p, l) = lower_let_binding(&mut scopes, &mut pats, &mut locals, &mut diags, "x".to_string(), None, true);
    assert_eq!((p, l), (PatId(0), LocalId(0)));
    assert!(diags.is_empty());
    lower_let_binding(&mut scopes, &mut pats, &mut locals, &mut diags, "x".to_string(), Some(INT32), false);
    assert_eq!(diags, vec![HirError::Resolve(ResolveError::DuplicateLocal { name: "x".to_string() })]);
    assert_eq!(scopes.lookup("x"), Some(Binding::Local(LocalId(1))));
    let id = lower_local_const(
        &mut scopes,
        &mut consts,
        &mut diags,
        LocalConst { name: "x".to_string(), ty: INT32, value: None },
    );
    assert_eq!(id, LocalConstId(0));
    assert_eq!(diags.len(), 2);
    assert_eq!(scopes.lookup("x"), Some(Binding::Const(LocalConstId(0))));
    scopes.push();
    lower_let_binding(&mut scopes, &mut pats, &mut locals, &mut diags, "x".to_string(), None, false);
    assert_eq!(diags.len(), 2);
    let (bp, bl) = alloc_bind_pat(&mut pats, &mut locals, "y".to_string(), None, false);
    assert_eq!(pats.get(bp), &Pat::Bind(bl));
    assert_eq!(locals.get(bl).pat, bp);
}

use eye::lowering::{bind_params, lookup_field_type};
use eye::types::TypeKind;

#[test]
fn field_types_look_through_references() {
    let mut hir = sample_hir();
    let point = hir.types.intern(TypeKind::Path("Point".to_string()));
    let r = hir.types.intern(TypeKind::Ref(point));
    let p = hir.types.intern(TypeKind::Ptr(r));
    let bits = hir.types.intern(TypeKind::Path("Bits".to_string()));
    let err = hir.types.error_type();
    assert_eq!(lookup_field_type(&hir, point, "y"), INT32);
    assert_eq!(lookup_field_type(&hir, p, "x"), INT32);
    assert_eq!(lookup_field_type(&hir, point, "z"), err);
    assert_eq!(lookup_field_type(&hir, bits, "i"), err);
    assert_eq!(lookup_field_type(&hir, INT32, "x"), err);
}

#[test]
fn parameters_are_mutable_locals_of_a_new_frame() {
    let f = Function {
        name: "f".to_string(),
        params: vec![Param { name: "a".to_string(), ty: INT32 }, Param { name: "b".to_string(), ty: TypeRef(5) }],
        ret: None,
        body: None,
        is_extern: false,
        variadic: false,
        fn_type: None,
    };
    let mut scopes = Scopes::new();
    scopes.define("a".to_string(), LocalId(7));
    let mut pats: TypedArena<Pat, PatId> = TypedArena::new();
    let mut locals: TypedArena<Local, LocalId> = TypedArena::new();
    bind_params(&mut scopes, &mut pats, &mut locals, &f);
    assert_eq!(scopes.lookup("a"), Some(Binding::Local(LocalId(0))));
    assert_eq!(scopes.lookup("b"), Some(Binding::Local(LocalId(1))));
    assert!(!scopes.declared_in_current("c"));
    assert!(locals.get(LocalId(1)).mutable);
    assert_eq!(locals.get(LocalId(1)).ty, Some(TypeRef(5)));
    assert_eq!(pats.get(PatId(0)), &Pat::Bind(LocalId(0)));
    scopes.pop();
    assert_eq!(scopes.lookup("a"), Some(Binding::Local(LocalId(7))));
}
