use eye::checks::unknown_type_names;
use eye::coerce::array_ref_decays_to;
use eye::errors::{HirError, ResolveError};
use eye::items::{collect_items, validate_type_names, ItemDecl, HIR};
use eye::types::{TypeInterner, TypeKind};

#[test]
fn array_references_decay_to_element_pointers_and_strings() {
    let mut t = TypeInterner::new();
    let i32t = t.int32_ty();
    let u8t = t.uint8_ty();
    let arr = t.intern(TypeKind::Array { elem: i32t, len: 4 });
    let bytes = t.intern(TypeKind::Array { elem: u8t, len: 6 });
    let r_arr = t.intern(TypeKind::Ref(arr));
    let r_bytes = t.intern(TypeKind::Ref(bytes));
    let p_i32 = t.intern(TypeKind::Ptr(i32t));
    let r_i32 = t.intern(TypeKind::Ref(i32t));
    let p_u8 = t.intern(TypeKind::Ptr(u8t));
    let string = t.intern(TypeKind::Path("string".to_string()));
    assert!(array_ref_decays_to(p_i32, r_arr, &t));
    assert!(array_ref_decays_to(r_i32, r_arr, &t));
    assert!(!array_ref_decays_to(p_u8, r_arr, &t));
    assert!(array_ref_decays_to(string, r_bytes, &t));
    assert!(!array_ref_decays_to(string, r_arr, &t));
    assert!(!array_ref_decays_to(p_i32, arr, &t));
    assert!(!array_ref_decays_to(i32t, r_arr, &t));
}

#[test]
fn unknown_type_names_walk_every_part() {
    let mut hir = HIR::default();
    collect_items(
        &mut hir,
        &vec![ItemDecl::Struct { name: "Point".to_string(), fields: vec![] }, ItemDecl::ExternType { name: "FILE".to_string() }],
    );
    let t = &mut hir.types;
    let i32t = t.int32_ty();
    let foo = t.intern(TypeKind::Path("Foo".to_string()));
    let bar = t.intern(TypeKind::Path("Bar".to_string()));
    let point = t.intern(TypeKind::Path("Point".to_string()));
    let file = t.intern(TypeKind::Path("FILE".to_string()));
    let r = t.intern(TypeKind::Ref(foo));
    let arr = t.intern(TypeKind::Array { elem: bar, len: 2 });
    let f = t.intern(TypeKind::Fn { params: vec![r, i32t, point], ret: Some(arr), variadic: false });
    let pf = t.intern(TypeKind::Ptr(file));
    assert_eq!(unknown_type_names(f, &hir.types, &hir), vec!["Foo".to_string(), "Bar".to_string()]);
    assert_eq!(unknown_type_names(i32t, &hir.types, &hir), Vec::<String>::new());
    assert_eq!(unknown_type_names(point, &hir.types, &hir), Vec::<String>::new());
    assert_eq!(unknown_type_names(pf, &hir.types, &hir), Vec::<String>::new());
    assert_eq!(unknown_type_names(r, &hir.types, &hir), vec!["Foo".to_string()]);
    validate_type_names(&mut hir, &vec![f, point, r]);
    assert_eq!(
        hir.diagnostics,
        vec![
            HirError::Resolve(ResolveError::UnknownTypeName { name: "Foo".to_string() }),
            HirError::Resolve(ResolveError::UnknownTypeName { name: "Bar".to_string() }),
            HirError::Resolve(ResolveError::UnknownTypeName { name: "Foo".to_string() }),
        ]
    );
}
