use eye::hover::{render_fn, tightest_covering};
use eye::items::{Function, Param, HIR};
use eye::types::TypeKind;

#[test]
fn tightest_range_wins_and_first_breaks_ties() {
    let rs = vec![(0, 20), (5, 10), (6, 9), (6, 9), (30, 31)];
    assert_eq!(tightest_covering(&rs, 7), Some(2));
    assert_eq!(tightest_covering(&rs, 5), Some(1));
    assert_eq!(tightest_covering(&rs, 20), Some(0));
    assert_eq!(tightest_covering(&rs, 25), None);
    assert_eq!(tightest_covering(&rs, 31), Some(4));
    assert_eq!(tightest_covering(&Vec::new(), 0), None);
}

#[test]
fn function_signature_with_effect() {
    let mut hir = HIR::default();
    let i32t = hir.types.int32_ty();
    let u8t = hir.types.uint8_ty();
    let r = hir.types.intern(TypeKind::Ref(u8t));
    let foo = Function {
        name: "foo".to_string(),
        params: vec![Param { name: "a".to_string(), ty: i32t }, Param { name: "b".to_string(), ty: r }],
        ret: Some(i32t),
        body: None,
        is_extern: false,
        variadic: false,
        fn_type: None,
    };
    assert_eq!(render_fn(&hir, &foo, "io"), "io foo(int32 a, &uint8 b) -> int32");
    let main = Function { name: "main".to_string(), params: vec![], ret: None, ..foo.clone() };
    assert_eq!(render_fn(&hir, &main, "pure"), "pure main()");
}

#[test]
fn a_definition_hover_shows_the_first_function_of_its_name() {
    let mut hir = HIR::default();
    let items = vec![
        eye::items::ItemDecl::Fn { name: "g".to_string(), params: vec![], ret: None },
        eye::items::ItemDecl::Fn { name: "f".to_string(), params: vec![], ret: None },
        eye::items::ItemDecl::Fn { name: "f".to_string(), params: vec![], ret: None },
    ];
    eye::items::collect_items(&mut hir, &items);
    assert_eq!(eye::hover::first_fn_named(&hir, "f"), Some(eye::ids::FnId(1)));
    assert_eq!(eye::hover::first_fn_named(&hir, "h"), None);
}
