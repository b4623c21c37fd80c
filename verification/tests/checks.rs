use eye::checks::{check_int_literal_ranges, check_println_args, count_placeholders, flag_int_literals, int_literal_range_error, IntLiteral};
use eye::body::{Body, Expr, Literal};
use eye::consts::UnaryOp;
use eye::errors::TypeError;
use eye::ids::ExprId;
use eye::types::{TypeInterner, TypeKind};

fn println_placeholder_arity() {
    assert_eq!(
        check_println_args(2, Some("{} {}")),
        Some(TypeError::PrintlnArityMismatch { placeholders: 2, args: 1 })
    );
    assert_eq!(
        check_println_args(3, Some("{}")),
        Some(TypeError::PrintlnArityMismatch { placeholders: 1, args: 2 })
    );
    assert_eq!(check_println_args(0, None), Some(TypeError::PrintlnMissingFormat));
    for (n, fmt) in [(3, "{} {}"), (1, "plain"), (2, "{ {}")] {
        assert_eq!(check_println_args(n, Some(fmt)), None, "matched counts must be clean for {fmt:?}");
    }
}

#[test]
fn tests_println_placeholder_arity_is_checked() {
    println_placeholder_arity();
}

#[test]
fn format_println_placeholder_arity_is_checked() {
    println_placeholder_arity();
}

fn println_brace_escapes() {
    assert_eq!(check_println_args(1, Some("{{}}")), None);
    assert_eq!(check_println_args(2, Some("{{{}}}")), None);
    assert_eq!(
        check_println_args(2, Some("{{}}")),
        Some(TypeError::PrintlnArityMismatch { placeholders: 0, args: 1 })
    );
}

#[test]
fn tests_println_brace_escapes_are_not_placeholders() {
    println_brace_escapes();
}

#[test]
fn format_println_brace_escapes_are_not_placeholders() {
    println_brace_escapes();
}

#[test]
fn placeholder_counting() {
    assert_eq!(count_placeholders(""), 0);
    assert_eq!(count_placeholders("{}{}{}"), 3);
    assert_eq!(count_placeholders("}{}"), 1);
    assert_eq!(count_placeholders("{"), 0);
    assert_eq!(count_placeholders("}}{{"), 0);
    assert_eq!(count_placeholders("é{}"), 1);
}

#[test]
fn non_literal_format_is_not_counted() {
    assert_eq!(check_println_args(5, None), None);
}

#[test]
fn int_literal_ranges_by_type() {
    assert_eq!(int_literal_range_error(127, "int8", false), None);
    assert_eq!(int_literal_range_error(128, "int8", true), None);
    assert_eq!(
        int_literal_range_error(128, "int8", false),
        Some(TypeError::IntLiteralOutOfRange {
            value: "128".to_string(),
            ty: "int8".to_string(),
            min: "-128".to_string(),
            max: "127".to_string(),
        })
    );
    assert_eq!(
        int_literal_range_error(1, "uint8", true),
        Some(TypeError::IntLiteralOutOfRange {
            value: "-1".to_string(),
            ty: "uint8".to_string(),
            min: "0".to_string(),
            max: "255".to_string(),
        })
    );
    assert_eq!(int_literal_range_error(1 << 70, "float64", false), None);
}

#[test]
fn body_literal_scan_flags_each_overflow() {
    let mut types = TypeInterner::new();
    let int8 = types.intern(TypeKind::Path("int8".to_string()));
    let uint8 = types.uint8_ty();
    let unit = types.unit_ty();
    let lits = vec![
        IntLiteral { expr: ExprId(0), value: 200, ty: Some(int8) },
        IntLiteral { expr: ExprId(1), value: 128, ty: Some(int8) },
        IntLiteral { expr: ExprId(2), value: 5, ty: Some(uint8) },
        IntLiteral { expr: ExprId(3), value: 7, ty: None },
        IntLiteral { expr: ExprId(4), value: 300, ty: Some(unit) },
        IntLiteral { expr: ExprId(5), value: 256, ty: Some(uint8) },
    ];
    let negs = vec![ExprId(1), ExprId(2)];
    let out = flag_int_literals(&lits, &negs, &types);
    let flagged: Vec<u32> = out.iter().map(|(id, _)| id.0).collect();
    assert_eq!(flagged, vec![0, 2, 5]);
    assert!(matches!(&out[1].1, TypeError::IntLiteralOutOfRange { value, .. } if value == "-5"));
}

#[test]
fn every_typed_literal_of_a_body_is_range_checked() {
    let mut types = TypeInterner::new();
    let int8 = types.intern(TypeKind::Path("int8".to_string()));
    let uint8 = types.uint8_ty();
    let mut body = Body::default();
    let a = body.alloc_expr_with_type(Expr::Literal(Literal::Int(128)), int8);
    let b = body.alloc_expr_with_type(Expr::Literal(Literal::Int(128)), int8);
    body.alloc_expr_with_type(Expr::Unary { op: UnaryOp::Neg, operand: b }, int8);
    let c = body.alloc_expr_with_type(Expr::Literal(Literal::Int(300)), uint8);
    body.exprs.allocate(Expr::Literal(Literal::Int(1000)));
    let out = check_int_literal_ranges(&body, &types);
    let flagged: Vec<ExprId> = out.iter().map(|(id, _)| *id).collect();
    assert_eq!(flagged, vec![a, c]);
    assert_eq!(
        out[0].1,
        TypeError::IntLiteralOutOfRange {
            value: "128".to_string(),
            ty: "int8".to_string(),
            min: "-128".to_string(),
            max: "127".to_string(),
        }
    );
}
