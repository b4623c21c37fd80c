use eye::body::{check_char_literal, lower_literal, Literal, LiteralKind, MatchArm, Stmt};
use eye::errors::TypeError;
use eye::ids::{ExprId, LocalConstId, PatId};
use eye::typed_arena::TypedArena;

#[test]
fn literals_lower_from_their_text() {
    assert_eq!(lower_literal(Some(LiteralKind::Int), Some("0x10")), Literal::Int(16));
    assert_eq!(lower_literal(Some(LiteralKind::Int), Some("99999999999999999999999999999999999999999")), Literal::Int(0));
    assert_eq!(lower_literal(Some(LiteralKind::Float), Some("1.5")), Literal::Float("1.5".to_string()));
    assert_eq!(lower_literal(Some(LiteralKind::String), Some("\"hi\"")), Literal::String("hi".to_string()));
    assert_eq!(lower_literal(Some(LiteralKind::String), Some("\"")), Literal::String("\"".to_string()));
    assert_eq!(lower_literal(Some(LiteralKind::Bool), Some("true")), Literal::Bool(true));
    assert_eq!(lower_literal(Some(LiteralKind::Bool), Some("false")), Literal::Bool(false));
    assert_eq!(lower_literal(Some(LiteralKind::Char), Some("'\\n'")), Literal::Char('\n'));
    assert_eq!(lower_literal(Some(LiteralKind::Char), Some("'é'")), Literal::Char('é'));
    assert_eq!(lower_literal(None, Some("x")), Literal::Int(0));
    assert_eq!(lower_literal(Some(LiteralKind::Int), None), Literal::Int(0));
}

#[test]
fn non_ascii_char_literals_are_flagged() {
    assert_eq!(check_char_literal(&Literal::Char('a')), None);
    assert_eq!(check_char_literal(&Literal::Char('\u{7f}')), None);
    assert_eq!(check_char_literal(&Literal::Char('é')), Some(TypeError::CharLiteralNotAscii { ch: 'é' }));
    assert_eq!(check_char_literal(&Literal::Int(1000)), None);
}

#[test]
fn body_items_and_arena() {
    let mut stmts: TypedArena<Stmt, eye::ids::StmtId> = TypedArena::new();
    assert!(stmts.is_empty());
    let a = stmts.allocate(Stmt::Expr(ExprId(4)));
    let b = stmts.allocate(Stmt::Const(LocalConstId(0)));
    assert_eq!(stmts.len(), 2);
    assert_eq!(stmts.get(a), &Stmt::Expr(ExprId(4)));
    stmts.set(b, Stmt::Let { pat: PatId(1), ty: None, init: Some(ExprId(2)), mutable: true });
    assert_eq!(stmts.get(b), &Stmt::Let { pat: PatId(1), ty: None, init: Some(ExprId(2)), mutable: true });
    assert_eq!(stmts.as_slice().len(), 2);
    let arm = MatchArm { pat: PatId(0), guard: None, body: ExprId(1) };
    assert_eq!(arm.body, ExprId(1));
    let with_cap: TypedArena<MatchArm, eye::ids::ExprId> = TypedArena::with_capacity(8);
    assert_eq!(with_cap.len(), 0);
}

use eye::body::{AssignOp, Expr, Local, Resolution, StructLitField, immutable_assign_target};
use eye::items::Global;
use eye::types::TypeRef;
use eye::consts::{BinOp, UnaryOp};
use eye::ids::{BlockId, GlobalId, LocalId};

#[test]
fn child_exprs_follow_evaluation_order() {
    let bin = Expr::Binary { op: BinOp::Add, lhs: ExprId(3), rhs: ExprId(1) };
    assert_eq!(bin.child_exprs(), vec![ExprId(3), ExprId(1)]);
    let call = Expr::Call { callee: ExprId(0), args: vec![ExprId(2), ExprId(5)] };
    assert_eq!(call.child_exprs(), vec![ExprId(0), ExprId(2), ExprId(5)]);
    let lit = Expr::StructLit {
        ty: eye::types::TypeRef(0),
        fields: vec![
            StructLitField { name: "a".to_string(), value: ExprId(7) },
            StructLitField { name: "b".to_string(), value: ExprId(8) },
        ],
    };
    assert_eq!(lit.child_exprs(), vec![ExprId(7), ExprId(8)]);
    let m = Expr::Match {
        scrut: ExprId(9),
        arms: vec![
            MatchArm { pat: PatId(0), guard: Some(ExprId(10)), body: ExprId(11) },
            MatchArm { pat: PatId(1), guard: None, body: ExprId(12) },
        ],
    };
    assert_eq!(m.child_exprs(), vec![ExprId(9), ExprId(10), ExprId(11), ExprId(12)]);
    assert_eq!(Expr::Return(None).child_exprs(), vec![]);
    assert_eq!(Expr::Return(Some(ExprId(4))).child_exprs(), vec![ExprId(4)]);
    assert_eq!(Expr::Unary { op: UnaryOp::Neg, operand: ExprId(6) }.child_exprs(), vec![ExprId(6)]);
    assert_eq!(Expr::Block(BlockId(0)).child_exprs(), vec![]);
    assert_eq!(Expr::Loop { body: BlockId(1) }.child_exprs(), vec![]);
    assert_eq!(
        Expr::If { cond: ExprId(2), then_branch: BlockId(0), else_branch: Some(BlockId(1)) }.child_exprs(),
        vec![ExprId(2)]
    );
    assert_eq!(
        Expr::Assign { op: AssignOp::Add, lhs: ExprId(1), rhs: ExprId(0) }.child_exprs(),
        vec![ExprId(1), ExprId(0)]
    );
}

#[test]
fn place_expressions() {
    assert!(Expr::Path(Resolution::Local(LocalId(0))).is_place_expr());
    assert!(Expr::Field { base: ExprId(0), name: "x".to_string() }.is_place_expr());
    assert!(Expr::Index { base: ExprId(0), index: ExprId(1) }.is_place_expr());
    assert!(Expr::Deref { operand: ExprId(0) }.is_place_expr());
    assert!(!Expr::Path(Resolution::Global(GlobalId(0))).is_place_expr());
    assert!(!Expr::Call { callee: ExprId(0), args: vec![] }.is_place_expr());
    assert!(!Expr::Missing.is_place_expr());
}

#[test]
fn assignment_targets_root_in_their_binding() {
    let mut exprs: TypedArena<Expr, ExprId> = TypedArena::new();
    let fixed = exprs.allocate(Expr::Path(Resolution::Local(LocalId(0))));
    let field = exprs.allocate(Expr::Field { base: fixed, name: "f".to_string() });
    let idx = exprs.allocate(Expr::Literal(Literal::Int(0)));
    let elem = exprs.allocate(Expr::Index { base: field, index: idx });
    let var = exprs.allocate(Expr::Path(Resolution::Local(LocalId(1))));
    let var_field = exprs.allocate(Expr::Field { base: var, name: "f".to_string() });
    let g = exprs.allocate(Expr::Path(Resolution::Global(GlobalId(0))));
    let gm = exprs.allocate(Expr::Path(Resolution::Global(GlobalId(1))));
    let deref = exprs.allocate(Expr::Deref { operand: fixed });
    let mut locals: TypedArena<Local, LocalId> = TypedArena::new();
    locals.allocate(Local { name: "a".to_string(), ty: None, mutable: false, pat: PatId(0) });
    locals.allocate(Local { name: "b".to_string(), ty: None, mutable: true, pat: PatId(1) });
    let mut globals: TypedArena<Global, GlobalId> = TypedArena::new();
    globals.allocate(Global { name: "G".to_string(), ty: TypeRef(3), mutable: false, value: None });
    globals.allocate(Global { name: "H".to_string(), ty: TypeRef(3), mutable: true, value: None });
    assert_eq!(immutable_assign_target(&exprs, &locals, &globals, fixed), Some("a".to_string()));
    assert_eq!(immutable_assign_target(&exprs, &locals, &globals, elem), Some("a".to_string()));
    assert_eq!(immutable_assign_target(&exprs, &locals, &globals, var_field), None);
    assert_eq!(immutable_assign_target(&exprs, &locals, &globals, g), Some("G".to_string()));
    assert_eq!(immutable_assign_target(&exprs, &locals, &globals, gm), None);
    assert_eq!(immutable_assign_target(&exprs, &locals, &globals, deref), None);
    assert_eq!(immutable_assign_target(&exprs, &locals, &globals, idx), None);
}

use eye::body::literal_type;
use eye::types::TypeInterner;

#[test]
fn literals_default_to_their_primitive_types() {
    let mut t = TypeInterner::new();
    let int32 = t.int32_ty();
    assert_eq!(literal_type(&Literal::Int(5), &mut t), int32);
    let f = literal_type(&Literal::Float("1.0".to_string()), &mut t);
    assert_eq!(t.display(f), "float64");
    let s = literal_type(&Literal::String("x".to_string()), &mut t);
    assert_eq!(t.display(s), "string");
    let before = t.len();
    let b = literal_type(&Literal::Bool(true), &mut t);
    assert_eq!(t.display(b), "bool");
    let c = literal_type(&Literal::Char('c'), &mut t);
    assert_eq!(t.display(c), "char");
    assert_eq!(t.len(), before);
}
