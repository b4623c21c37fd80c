use eye::highlight::{classify_block, classify_expr, classify_lexed, classify_type_ref, token_type_for_syntax_kind, SyntaxKind};
use eye::items::{collect_consts, collect_globals, collect_items, ItemDecl, HIR};
use eye::legend;
use eye::semantic::{lookup_ident, ClassifiedToken};
use eye::tree::{SynArm, SynBlock, SynExpr, SynField, SynPat, SynStmt, SynType, TokenSpan};

fn hir() -> HIR {
    let items = vec![ItemDecl::Enum { name: "Shape".to_string(), variants: vec!["Circle".to_string()] }];
    let mut hir = HIR::default();
    collect_consts(&mut hir, &items);
    collect_globals(&mut hir, &items);
    collect_items(&mut hir, &items);
    hir
}

fn sp(start: u32, end: u32) -> Option<TokenSpan> {
    Some(TokenSpan { start, end })
}

fn tok(start: u32, end: u32, token_type: u32) -> ClassifiedToken {
    ClassifiedToken { start, end, token_type }
}

fn name(n: &str) -> Option<Box<SynExpr>> {
    Some(Box::new(SynExpr::NameRef(n.to_string())))
}

#[test]
fn field_and_struct_literal_names() {
    let h = hir();
    // p.x
    let field = SynExpr::Field { base: name("p"), name: "x".to_string(), name_span: sp(2, 3) };
    let mut out = Vec::new();
    classify_expr(&field, &h, &mut out);
    assert_eq!(out, vec![tok(2, 3, legend::PROPERTY)]);
    // Point { x: a, y }
    let lit = SynExpr::StructLit {
        name: Some("Point".to_string()),
        name_span: sp(0, 5),
        fields: vec![
            SynField { name: Some("x".to_string()), name_span: sp(8, 9), value: Some(SynExpr::Field {
                base: name("a"),
                name: "b".to_string(),
                name_span: sp(13, 14),
            }) },
            SynField { name: Some("y".to_string()), name_span: sp(16, 17), value: None },
        ],
    };
    let mut out = vec![tok(100, 101, legend::KEYWORD)];
    classify_expr(&lit, &h, &mut out);
    assert_eq!(
        out,
        vec![
            tok(100, 101, legend::KEYWORD),
            tok(0, 5, legend::TYPE),
            tok(8, 9, legend::PROPERTY),
            tok(13, 14, legend::PROPERTY),
            tok(16, 17, legend::PROPERTY),
        ]
    );
}

#[test]
fn pattern_names_tell_variants_from_bindings() {
    let h = hir();
    let arms = vec![
        SynArm {
            pat: Some(SynPat::Path {
                qualifier: "Shape".to_string(),
                qualifier_span: sp(10, 15),
                name: "Circle".to_string(),
                name_span: sp(16, 22),
            }),
            guard: None,
            body: None,
        },
        SynArm { pat: Some(SynPat::BareIdent("Circle".to_string(), sp(30, 36))), guard: None, body: None },
        SynArm {
            pat: Some(SynPat::BareIdent("y".to_string(), sp(40, 41))),
            guard: Some(Some(SynExpr::Field { base: name("y"), name: "g".to_string(), name_span: sp(45, 46) })),
            body: Some(SynExpr::Field { base: name("y"), name: "v".to_string(), name_span: sp(50, 51) }),
        },
    ];
    let m = SynExpr::Match { scrut: name("s"), arms };
    let mut out = Vec::new();
    classify_expr(&m, &h, &mut out);
    assert_eq!(
        out,
        vec![
            tok(10, 15, legend::ENUM),
            tok(16, 22, legend::ENUM_MEMBER),
            tok(30, 36, legend::ENUM_MEMBER),
            tok(40, 41, legend::VARIABLE),
            tok(50, 51, legend::PROPERTY),
        ]
    );
    assert_eq!(lookup_ident(30, 36, &out), Some(legend::ENUM_MEMBER));
    assert_eq!(lookup_ident(45, 46, &out), None);
}

#[test]
fn statements_types_and_casts() {
    let h = hir();
    let ty = SynType::Ptr(Some(Box::new(SynType::Ident(Some("int32".to_string()), sp(4, 9)))));
    let mut out = Vec::new();
    classify_type_ref(&ty, &mut out);
    assert_eq!(out, vec![tok(4, 9, legend::TYPE)]);

    let block = SynBlock {
        stmts: vec![
            SynStmt::Let {
                name: "a".to_string(),
                name_span: sp(0, 1),
                ty: Some(SynType::Ident(Some("int32".to_string()), sp(2, 7))),
                mutable: false,
                value: Some(SynExpr::Cast {
                    operand: name("b"),
                    ty: Some(SynType::Fn {
                        params: vec![Some(SynType::Ident(Some("u8".to_string()), sp(10, 12))), None],
                        ret: Some(Box::new(SynType::Ident(Some("bool".to_string()), sp(14, 18)))),
                    }),
                }),
            },
            SynStmt::Const { name: "K".to_string(), name_span: sp(20, 21), ty: None, value: None },
            SynStmt::Expr(Some(SynExpr::Paren(Some(Box::new(SynExpr::Field {
                base: name("q"),
                name: "w".to_string(),
                name_span: sp(25, 26),
            }))))),
        ],
        tail: Some(Box::new(SynExpr::If {
            cond: name("c"),
            then_branch: Some(SynBlock {
                stmts: vec![],
                tail: Some(Box::new(SynExpr::Field { base: name("r"), name: "t".to_string(), name_span: sp(30, 31) })),
            }),
            else_branch: None,
        })),
    };
    let mut out = Vec::new();
    classify_block(&block, &h, &mut out);
    assert_eq!(
        out,
        vec![
            tok(0, 1, legend::VARIABLE),
            tok(2, 7, legend::TYPE),
            tok(10, 12, legend::TYPE),
            tok(14, 18, legend::TYPE),
            tok(20, 21, legend::VARIABLE),
            tok(30, 31, legend::PROPERTY),
        ]
    );
}

#[test]
fn identifiers_without_a_classification_are_variables() {
    let spans = vec![tok(0, 3, legend::TYPE), tok(5, 6, legend::PROPERTY), tok(0, 3, legend::ENUM)];
    assert_eq!(eye::highlight::ident_token_type(0, 3, &spans), legend::ENUM);
    assert_eq!(eye::highlight::ident_token_type(5, 6, &spans), legend::PROPERTY);
    assert_eq!(eye::highlight::ident_token_type(7, 9, &spans), legend::VARIABLE);
}

#[test]
fn lexed_tokens_are_classified_by_kind_or_by_the_tree() {
    let spans = vec![tok(4, 5, legend::PROPERTY)];
    let toks = vec![
        (SyntaxKind::Let, 0, 3),
        (SyntaxKind::Ident, 4, 5),
        (SyntaxKind::Ident, 6, 7),
        (SyntaxKind::Assign, 8, 9),
        (SyntaxKind::Int, 10, 12),
        (SyntaxKind::Other, 12, 13),
        (SyntaxKind::Lcomment, 14, 20),
        (SyntaxKind::Eof, 20, 20),
    ];
    assert_eq!(
        classify_lexed(&toks, &spans),
        vec![
            tok(0, 3, legend::KEYWORD),
            tok(4, 5, legend::PROPERTY),
            tok(6, 7, legend::VARIABLE),
            tok(8, 9, legend::OPERATOR),
            tok(10, 12, legend::NUMBER),
            tok(14, 20, legend::COMMENT),
        ]
    );
    assert_eq!(token_type_for_syntax_kind(SyntaxKind::Char), Some(legend::STRING));
    assert_eq!(token_type_for_syntax_kind(SyntaxKind::Ident), None);
}
