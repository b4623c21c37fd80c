use eye::body::LiteralKind;
use eye::const_eval::{eval_consts, eval_globals};
use eye::consts::{BinOp, ConstValue};
use eye::errors::{ConstError, HirError};
use eye::ids::{ConstId, GlobalId};
use eye::items::{collect_consts, collect_globals, ItemDecl, HIR};
use eye::tree::{SynExpr, SynLiteral};
use eye::types::{TypeKind, TypeRef};

fn int_lit(v: &str) -> SynExpr {
    SynExpr::Literal(SynLiteral { kind: Some(LiteralKind::Int), text: Some(v.to_string()) })
}

fn name(n: &str) -> SynExpr {
    SynExpr::NameRef(n.to_string())
}

fn bin(op: BinOp, l: SynExpr, r: SynExpr) -> SynExpr {
    SynExpr::Binary { op: Some(op), lhs: Some(Box::new(l)), rhs: Some(Box::new(r)) }
}

/// Collects constants `(name, type)` and evaluates them with the given
/// initializers.
fn run(decls: Vec<(&str, &str, Option<SynExpr>)>) -> (HIR, Vec<(String, ConstValue)>) {
    let mut hir = HIR::default();
    let mut items = Vec::new();
    for (n, t, _) in &decls {
        let ty: TypeRef = hir.types.intern(TypeKind::Path(t.to_string()));
        items.push(ItemDecl::Const { name: n.to_string(), ty });
    }
    collect_consts(&mut hir, &items);
    let defs: Vec<(ConstId, Option<SynExpr>)> =
        decls.into_iter().enumerate().map(|(k, (_, _, e))| (ConstId(k as u32), e)).collect();
    let values = eval_consts(&mut hir, &defs);
    (hir, values)
}

fn value(hir: &HIR, k: u32) -> Option<ConstValue> {
    hir.consts.get(ConstId(k)).value
}

#[test]
fn constants_fold_through_forward_references() {
    let (hir, values) = run(vec![
        ("A", "int32", Some(bin(BinOp::Add, name("B"), int_lit("1")))),
        ("B", "int32", Some(bin(BinOp::Mul, int_lit("2"), int_lit("3")))),
    ]);
    assert!(hir.diagnostics.is_empty(), "{:?}", hir.diagnostics);
    assert_eq!(value(&hir, 0), Some(ConstValue::Int(7)));
    assert_eq!(value(&hir, 1), Some(ConstValue::Int(6)));
    assert_eq!(values, vec![("A".to_string(), ConstValue::Int(7)), ("B".to_string(), ConstValue::Int(6))]);
}

#[test]
fn a_definition_cycle_is_reported_once_and_poisons_its_members() {
    let (hir, values) = run(vec![("X", "int32", Some(name("Y"))), ("Y", "int32", Some(name("X"))), ("Z", "int32", Some(int_lit("5")))]);
    assert_eq!(hir.diagnostics, vec![HirError::Const(ConstError::ConstCycle { name: "X".to_string() })]);
    assert_eq!(value(&hir, 0), None);
    assert_eq!(value(&hir, 1), None);
    assert_eq!(value(&hir, 2), Some(ConstValue::Int(5)));
    assert_eq!(values, vec![("Z".to_string(), ConstValue::Int(5))]);
}

#[test]
fn unknown_names_and_division_by_zero_are_reported() {
    let (hir, _) = run(vec![
        ("P", "int32", Some(bin(BinOp::Add, name("Q"), int_lit("1")))),
        ("D", "int32", Some(bin(BinOp::Div, int_lit("1"), int_lit("0")))),
        ("N", "int32", Some(SynExpr::Break)),
    ]);
    assert_eq!(
        hir.diagnostics,
        vec![
            HirError::Const(ConstError::ConstUnknownName { name: "Q".to_string() }),
            HirError::Const(ConstError::ConstDivByZero),
            HirError::Const(ConstError::NotAConstExpr),
        ]
    );
    assert_eq!(value(&hir, 0), None);
    assert_eq!(value(&hir, 1), None);
}

#[test]
fn a_value_outside_the_declared_type_is_reported_and_kept() {
    let (hir, _) = run(vec![("E", "int8", Some(int_lit("300"))), ("F", "int8", Some(int_lit("100")))]);
    assert_eq!(
        hir.diagnostics,
        vec![HirError::Const(ConstError::ConstValueOutOfRange {
            value: "300".to_string(),
            ty: "int8".to_string(),
            min: "-128".to_string(),
            max: "127".to_string(),
        })]
    );
    assert_eq!(value(&hir, 0), Some(ConstValue::Int(300)));
    assert_eq!(value(&hir, 1), Some(ConstValue::Int(100)));
}

#[test]
fn a_repeated_name_reads_the_first_initializer() {
    let (hir, values) = run(vec![("A", "int32", Some(int_lit("1"))), ("A", "int32", Some(int_lit("2"))), ("B", "int32", Some(name("A")))]);
    assert_eq!(value(&hir, 0), Some(ConstValue::Int(1)));
    assert_eq!(value(&hir, 1), Some(ConstValue::Int(1)));
    assert_eq!(value(&hir, 2), Some(ConstValue::Int(1)));
    assert_eq!(values, vec![("A".to_string(), ConstValue::Int(1)), ("B".to_string(), ConstValue::Int(1))]);
}

#[test]
fn globals_fold_against_the_evaluated_constants() {
    let mut hir = HIR::default();
    let int32: TypeRef = hir.types.intern(TypeKind::Path("int32".to_string()));
    let int8: TypeRef = hir.types.intern(TypeKind::Path("int8".to_string()));
    let items = vec![
        ItemDecl::Const { name: "K".to_string(), ty: int32 },
        ItemDecl::Global { name: "g".to_string(), ty: int32, mutable: false },
        ItemDecl::Global { name: "h".to_string(), ty: int32, mutable: true },
        ItemDecl::Global { name: "x".to_string(), ty: int8, mutable: false },
    ];
    collect_consts(&mut hir, &items);
    collect_globals(&mut hir, &items);
    eval_consts(&mut hir, &vec![(ConstId(0), Some(int_lit("5")))]);
    eval_globals(
        &mut hir,
        &vec![
            (GlobalId(0), Some(bin(BinOp::Mul, name("K"), int_lit("2")))),
            (GlobalId(1), Some(name("W"))),
            (GlobalId(2), Some(int_lit("200"))),
        ],
    );
    assert_eq!(hir.globals.get(GlobalId(0)).value, Some(ConstValue::Int(10)));
    assert_eq!(hir.globals.get(GlobalId(1)).value, None);
    assert_eq!(hir.globals.get(GlobalId(2)).value, Some(ConstValue::Int(200)));
    assert_eq!(
        hir.diagnostics,
        vec![
            HirError::Const(ConstError::ConstUnknownName { name: "W".to_string() }),
            HirError::Const(ConstError::ConstValueOutOfRange {
                value: "200".to_string(),
                ty: "int8".to_string(),
                min: "-128".to_string(),
                max: "127".to_string(),
            }),
        ]
    );
}
