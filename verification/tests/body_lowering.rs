use eye::body::{Expr, LiteralKind, Pat, Resolution};
use eye::body_lowering::lower_fn_body;
use eye::errors::{HirError, ResolveError, TypeError};
use eye::ids::FnId;
use eye::items::{collect_consts, collect_globals, collect_items, ItemDecl, Param, HIR};
use eye::tree::{SynArm, SynBlock, SynExpr, SynLiteral, SynPat, SynStmt, SynType};
use eye::types::{TypeInterner, TypeRef};

fn hir_with(items: Vec<ItemDecl>) -> HIR {
    let mut hir = HIR::default();
    collect_consts(&mut hir, &items);
    collect_globals(&mut hir, &items);
    collect_items(&mut hir, &items);
    hir
}

fn items() -> Vec<ItemDecl> {
    vec![
        ItemDecl::Struct { name: "P".to_string(), fields: vec![] },
        ItemDecl::Enum { name: "E".to_string(), variants: vec!["A".to_string()] },
        ItemDecl::Fn { name: "main".to_string(), params: vec![], ret: None },
    ]
}

fn name(n: &str) -> SynExpr {
    SynExpr::NameRef(n.to_string())
}

fn lit(kind: LiteralKind, text: &str) -> SynLiteral {
    SynLiteral { kind: Some(kind), text: Some(text.to_string()) }
}

fn expr_stmt(e: SynExpr) -> SynStmt {
    SynStmt::Expr(Some(e))
}

fn let_int(n: &str) -> SynStmt {
    SynStmt::Let {
        name: n.to_string(),
        name_span: None,
        ty: Some(SynType::Ident(Some("int32".to_string()), None)),
        mutable: false,
        value: Some(SynExpr::Literal(lit(LiteralKind::Int, "0"))),
    }
}

fn lower(stmts: Vec<SynStmt>, tail: Option<SynExpr>) -> (eye::body::Body, Vec<HirError>) {
    let hir = hir_with(items());
    assert!(hir.diagnostics.is_empty(), "{:?}", hir.diagnostics);
    let mut types = TypeInterner::new();
    let block = SynBlock { stmts, tail: tail.map(Box::new) };
    lower_fn_body(&hir, &mut types, FnId(0), &vec![], &Some(block))
}

#[test]
fn names_resolve_or_are_reported() {
    let (body, diags) = lower(
        vec![let_int("x"), expr_stmt(name("x")), expr_stmt(name("y")), expr_stmt(name("E")), expr_stmt(name("P"))],
        Some(name("A")),
    );
    assert_eq!(
        diags,
        vec![
            HirError::Resolve(ResolveError::UnresolvedName { name: "y".to_string() }),
            HirError::Resolve(ResolveError::EnumNameAsValue { name: "E".to_string() }),
            HirError::Resolve(ResolveError::StructNameAsValue { name: "P".to_string() }),
        ]
    );
    let paths: Vec<&Resolution> = body
        .exprs
        .as_slice()
        .iter()
        .filter_map(|e| match e {
            Expr::Path(r) => Some(r),
            _ => None,
        })
        .collect();
    assert_eq!(paths.len(), 2);
    assert!(matches!(paths[0], Resolution::Local(_)));
    assert!(matches!(paths[1], Resolution::Variant { idx: 0, .. }));
    assert_eq!(body.exprs.as_slice().iter().filter(|e| matches!(e, Expr::Missing)).count(), 3);
}

#[test]
fn a_block_binding_is_gone_after_its_block() {
    let inner = SynBlock { stmts: vec![let_int("x")], tail: None };
    let (_, diags) = lower(
        vec![expr_stmt(SynExpr::Loop(Some(inner)))],
        Some(name("x")),
    );
    assert_eq!(diags, vec![HirError::Resolve(ResolveError::UnresolvedName { name: "x".to_string() })]);
}

#[test]
fn intrinsic_callee_is_no_unresolved_name() {
    let call = SynExpr::Call { callee: Some(Box::new(name("sizeof"))), args: vec![] };
    let (body, diags) = lower(vec![expr_stmt(call)], Some(name("println")));
    assert_eq!(diags.iter().filter(|d| matches!(d, HirError::Resolve(_))).count(), 1);
    assert_eq!(diags[diags.len() - 1], HirError::Resolve(ResolveError::UnresolvedName { name: "println".to_string() }));
    assert!(body.exprs.as_slice().iter().any(|e| matches!(e, Expr::SizeOf(_))));
}

#[test]
fn non_ascii_char_literals_are_reported_in_bodies_and_patterns() {
    let arms = vec![
        SynArm {
            pat: Some(SynPat::Literal(Some(lit(LiteralKind::Char, "'→'")))),
            guard: None,
            body: Some(name("x")),
        },
        SynArm { pat: Some(SynPat::BareIdent("z".to_string(), None)), guard: None, body: Some(name("z")) },
    ];
    let (body, diags) = lower(
        vec![
            let_int("x"),
            expr_stmt(SynExpr::Literal(lit(LiteralKind::Char, "'é'"))),
            expr_stmt(SynExpr::Literal(lit(LiteralKind::Char, "'x'"))),
            expr_stmt(SynExpr::Match { scrut: Some(Box::new(name("x"))), arms }),
        ],
        None,
    );
    assert_eq!(
        diags,
        vec![
            HirError::Type(TypeError::CharLiteralNotAscii { ch: 'é' }),
            HirError::Type(TypeError::CharLiteralNotAscii { ch: '→' }),
        ]
    );
    assert!(body.pats.as_slice().iter().any(|p| matches!(p, Pat::Bind(_))));
}

#[test]
fn a_body_without_errors_reports_nothing() {
    let (body, diags) = lower(vec![let_int("x")], Some(name("x")));
    assert!(diags.is_empty(), "{:?}", diags);
    assert!(body.tail.is_some());
}

#[test]
fn no_body_lowers_to_nothing() {
    let hir = hir_with(items());
    let mut types = TypeInterner::new();
    let (body, diags) = lower_fn_body(&hir, &mut types, FnId(0), &vec![], &None);
    assert!(diags.is_empty());
    assert!(body.tail.is_none());
    assert_eq!(body.exprs.len(), 0);
}

fn int_lit(v: &str) -> SynExpr {
    SynExpr::Literal(lit(LiteralKind::Int, v))
}

fn call(callee: &str, args: Vec<SynExpr>) -> SynExpr {
    SynExpr::Call { callee: Some(Box::new(name(callee))), args }
}

fn lower_with(items: Vec<ItemDecl>, stmts: Vec<SynStmt>) -> Vec<HirError> {
    let hir = hir_with(items);
    assert!(hir.diagnostics.is_empty(), "{:?}", hir.diagnostics);
    let mut types = TypeInterner::new();
    let block = SynBlock { stmts, tail: None };
    lower_fn_body(&hir, &mut types, FnId(0), &vec![], &Some(block)).1
}

#[test]
fn call_arity_is_reported_in_bodies() {
    let int32 = TypeRef(3);
    let p = |n: &str| Param { name: n.to_string(), ty: int32 };
    let items = vec![
        ItemDecl::Fn { name: "main".to_string(), params: vec![], ret: None },
        ItemDecl::Fn { name: "add".to_string(), params: vec![p("a"), p("b")], ret: Some(int32) },
        ItemDecl::ExternFn { name: "printf".to_string(), params: vec![p("fmt")], ret: Some(int32), variadic: true },
    ];
    let diags = lower_with(
        items,
        vec![
            expr_stmt(call("add", vec![int_lit("1"), int_lit("2"), int_lit("3")])),
            expr_stmt(call("add", vec![int_lit("1")])),
            expr_stmt(call("add", vec![int_lit("1"), int_lit("2")])),
            expr_stmt(call("printf", vec![SynExpr::Literal(lit(LiteralKind::String, "\"ok\""))])),
            expr_stmt(call("printf", vec![int_lit("1"), int_lit("2"), int_lit("3")])),
            expr_stmt(call("printf", vec![])),
        ],
    );
    let arity: Vec<(String, usize, usize, bool)> = diags
        .iter()
        .filter_map(|d| match d {
            HirError::Type(TypeError::CallArityMismatch { name, expected, found, variadic }) => {
                Some((name.clone(), *expected, *found, *variadic))
            },
            _ => None,
        })
        .collect();
    assert_eq!(
        arity,
        vec![
            ("add".to_string(), 2, 3, false),
            ("add".to_string(), 2, 1, false),
            ("printf".to_string(), 1, 0, true),
        ]
    );
}

#[test]
fn println_arguments_are_checked_in_bodies() {
    let fmt = |t: &str| SynExpr::Literal(lit(LiteralKind::String, t));
    let diags = lower_with(
        items(),
        vec![
            expr_stmt(call("println", vec![])),
            expr_stmt(call("println", vec![fmt("\"{}\""), int_lit("1"), int_lit("2")])),
            expr_stmt(call("println", vec![fmt("\"{} {}\""), int_lit("1"), int_lit("2")])),
        ],
    );
    assert_eq!(
        diags,
        vec![
            HirError::Type(TypeError::PrintlnMissingFormat),
            HirError::Type(TypeError::PrintlnArityMismatch { placeholders: 1, args: 2 }),
        ]
    );
}

#[test]
fn unknown_and_missing_annotations_are_reported_in_bodies() {
    let typed = |n: &str, t: Option<&str>, v: SynExpr| SynStmt::Let {
        name: n.to_string(),
        name_span: None,
        ty: t.map(|t| SynType::Ident(Some(t.to_string()), None)),
        mutable: false,
        value: Some(v),
    };
    let cast = SynExpr::Cast {
        operand: Some(Box::new(int_lit("0"))),
        ty: Some(SynType::Ident(Some("zap".to_string()), None)),
    };
    let diags = lower_with(
        items(),
        vec![typed("b", Some("blah"), int_lit("0")), typed("c", Some("int32"), cast), typed("d", None, int_lit("1"))],
    );
    assert_eq!(
        diags,
        vec![
            HirError::Resolve(ResolveError::UnknownTypeName { name: "blah".to_string() }),
            HirError::Resolve(ResolveError::UnknownTypeName { name: "zap".to_string() }),
            HirError::Type(TypeError::MissingTypeAnnotation { name: "d".to_string() }),
        ]
    );
}

#[test]
fn variant_paths_resolve_or_are_reported() {
    let path = |q: &str, n: &str| {
        Some(SynPat::Path { qualifier: q.to_string(), qualifier_span: None, name: n.to_string(), name_span: None })
    };
    let arm = |pat: Option<SynPat>| SynArm { pat, guard: None, body: Some(int_lit("0")) };
    let field = |b: &str, n: &str| SynExpr::Field { base: Some(Box::new(name(b))), name: n.to_string(), name_span: None };
    let m = SynExpr::Match {
        scrut: Some(Box::new(field("E", "A"))),
        arms: vec![
            arm(path("E", "A")),
            arm(path("E", "Z")),
            arm(path("F", "A")),
            arm(Some(SynPat::BareIdent("A".to_string(), None))),
        ],
    };
    let (body, diags) = lower(vec![expr_stmt(m), expr_stmt(field("E", "Q"))], None);
    assert_eq!(
        diags,
        vec![
            HirError::Resolve(ResolveError::NoSuchVariant { enum_name: "E".to_string(), variant: "Z".to_string() }),
            HirError::Resolve(ResolveError::UnknownEnumInPattern { enum_name: "F".to_string() }),
            HirError::Resolve(ResolveError::NoSuchVariant { enum_name: "E".to_string(), variant: "Q".to_string() }),
        ]
    );
    let variants = body.pats.as_slice().iter().filter(|p| matches!(p, Pat::Variant { idx: 0, .. })).count();
    assert_eq!(variants, 2);
    assert_eq!(body.pats.as_slice().iter().filter(|p| matches!(p, Pat::Missing)).count(), 2);
    assert!(body.exprs.as_slice().iter().any(|e| matches!(e, Expr::Path(Resolution::Variant { idx: 0, .. }))));
}

#[test]
fn a_let_shadows_an_item_of_the_same_name() {
    let mut its = items();
    its.push(ItemDecl::Fn { name: "x".to_string(), params: vec![], ret: None });
    let hir = hir_with(its);
    let mut types = TypeInterner::new();
    let block = SynBlock { stmts: vec![let_int("x")], tail: Some(Box::new(name("x"))) };
    let (body, diags) = lower_fn_body(&hir, &mut types, FnId(0), &vec![], &Some(block));
    assert!(diags.is_empty(), "{:?}", diags);
    let tail = body.tail.unwrap();
    assert!(matches!(body.exprs.get(tail), Expr::Path(Resolution::Local(_))));
}

#[test]
fn rebinding_in_a_block_and_unknown_struct_literals_are_reported() {
    let konst = SynStmt::Const { name: "x".to_string(), name_span: None, ty: None, value: Some(int_lit("1")) };
    let lit = SynExpr::StructLit { name: Some("Nope".to_string()), name_span: None, fields: vec![] };
    let (_, diags) = lower(vec![let_int("x"), let_int("x"), konst, expr_stmt(lit)], None);
    let dups = diags
        .iter()
        .filter(|d| matches!(d, HirError::Resolve(ResolveError::DuplicateLocal { name }) if name == "x"))
        .count();
    assert_eq!(dups, 2, "{:?}", diags);
    assert!(diags.contains(&HirError::Resolve(ResolveError::UnknownStructLiteral { name: "Nope".to_string() })));
}

#[test]
fn assigning_to_a_block_constant_is_reported() {
    let konst = SynStmt::Const { name: "K".to_string(), name_span: None, ty: None, value: Some(int_lit("1")) };
    let assign = SynExpr::Assign {
        op: eye::body::AssignOp::Assign,
        lhs: Some(Box::new(name("K"))),
        rhs: Some(Box::new(int_lit("2"))),
    };
    let (_, diags) = lower(vec![konst, expr_stmt(assign)], None);
    assert!(
        diags.contains(&HirError::Const(eye::errors::ConstError::AssignToConst { name: "K".to_string() })),
        "{:?}",
        diags
    );
}

#[test]
fn address_and_len_misuse_is_reported() {
    let konst = SynStmt::Const { name: "K".to_string(), name_span: None, ty: None, value: Some(int_lit("1")) };
    let refer = |e: SynExpr| expr_stmt(SynExpr::Ref(Some(Box::new(e))));
    let (body, diags) = lower(
        vec![
            let_int("x"),
            konst,
            refer(name("K")),
            refer(int_lit("1")),
            refer(name("x")),
            expr_stmt(call("len", vec![])),
            expr_stmt(call("len", vec![int_lit("3")])),
            expr_stmt(call("len", vec![name("x")])),
        ],
        None,
    );
    assert_eq!(
        diags,
        vec![
            HirError::Const(eye::errors::ConstError::RefOfConst { name: "K".to_string() }),
            HirError::Type(TypeError::RefOfNonPlace),
            HirError::Type(TypeError::LenArity { found: 0 }),
            HirError::Type(TypeError::LenNotAPlace),
        ]
    );
    assert_eq!(body.exprs.as_slice().iter().filter(|e| matches!(e, Expr::Ref { .. })).count(), 1);
    assert_eq!(body.exprs.as_slice().iter().filter(|e| matches!(e, Expr::Len(_))).count(), 2);
}

#[test]
fn struct_literal_fields_are_checked_in_bodies() {
    let int32 = TypeRef(3);
    let mut its = items();
    its.push(ItemDecl::Struct {
        name: "Point".to_string(),
        fields: vec![
            eye::items::Field { name: "x".to_string(), ty: int32 },
            eye::items::Field { name: "y".to_string(), ty: int32 },
        ],
    });
    let field = |n: &str| eye::tree::SynField { name: Some(n.to_string()), name_span: None, value: Some(int_lit("1")) };
    let lit = SynExpr::StructLit { name: Some("Point".to_string()), name_span: None, fields: vec![field("x"), field("z")] };
    let diags = lower_with(its, vec![expr_stmt(lit)]);
    assert_eq!(
        diags,
        vec![
            HirError::Type(TypeError::StructLitMissingFields { name: "Point".to_string(), fields: vec!["y".to_string()] }),
            HirError::Type(TypeError::StructLitUnknownFields { name: "Point".to_string(), fields: vec!["z".to_string()] }),
        ]
    );
}

#[test]
fn intrinsics_lower_to_their_own_forms_unless_shadowed() {
    let (body, diags) = lower(
        vec![
            let_int("x"),
            expr_stmt(call("len", vec![name("x")])),
            expr_stmt(call("sizeof", vec![name("int32")])),
            expr_stmt(call("sizeof", vec![int_lit("1")])),
        ],
        None,
    );
    assert_eq!(diags, vec![HirError::Type(TypeError::SizeofNotAType)]);
    assert_eq!(body.exprs.as_slice().iter().filter(|e| matches!(e, Expr::Len(_))).count(), 1);
    assert_eq!(body.exprs.as_slice().iter().filter(|e| matches!(e, Expr::SizeOf(_))).count(), 2);
    assert_eq!(body.exprs.as_slice().iter().filter(|e| matches!(e, Expr::Call { .. })).count(), 0);

    // A local named `len` is called like any other value.
    let (body, _) = lower(vec![let_int("len"), expr_stmt(call("len", vec![int_lit("1")]))], None);
    assert_eq!(body.exprs.as_slice().iter().filter(|e| matches!(e, Expr::Len(_))).count(), 0);
    assert_eq!(body.exprs.as_slice().iter().filter(|e| matches!(e, Expr::Call { .. })).count(), 1);
}

#[test]
fn an_annotated_let_keeps_its_type_on_the_local() {
    let (body, diags) = lower(vec![let_int("x")], None);
    assert!(diags.is_empty());
    let local = body.locals.get(eye::ids::LocalId(0));
    assert!(local.ty.is_some());
}
