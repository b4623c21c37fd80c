use eye::types::{TypeInterner, TypeKind, TypeRef};

#[test]
fn builtins_are_interned() {
    let t = TypeInterner::new();
    assert_eq!(t.lookup(t.int32_ty()), &TypeKind::Path("int32".to_string()));
    assert_eq!(t.lookup(t.uint8_ty()), &TypeKind::Path("uint8".to_string()));
    assert_eq!(t.lookup(t.usize_ty()), &TypeKind::Path("usize".to_string()));
    assert_eq!(t.lookup(t.unit_ty()), &TypeKind::Unit);
    assert_eq!(t.lookup(t.never_ty()), &TypeKind::Never);
    assert_eq!(t.lookup(t.error_type()), &TypeKind::Error);
    assert!(t.error_type().is_error(&t));
    assert!(!t.int32_ty().is_error(&t));
}

#[test]
fn structurally_equal_kinds_share_a_handle() {
    let mut t = TypeInterner::new();
    let n = t.len();
    let i32a = t.intern(TypeKind::Path("int32".to_string()));
    assert_eq!(i32a, t.int32_ty());
    assert_eq!(t.len(), n);
    let p1 = t.intern(TypeKind::Ptr(i32a));
    let p2 = t.intern(TypeKind::Ptr(i32a));
    assert_eq!(p1, p2);
    assert_eq!(t.len(), n + 1);
    let f1 = t.intern(TypeKind::Fn { params: vec![i32a], ret: None, variadic: false });
    let f2 = t.intern(TypeKind::Fn { params: vec![i32a], ret: None, variadic: true });
    assert_ne!(f1, f2);
}

#[test]
fn shape_queries() {
    let mut t = TypeInterner::new();
    let i32t = t.int32_ty();
    let r = t.intern(TypeKind::Ref(i32t));
    let p = t.intern(TypeKind::Ptr(i32t));
    let a = t.intern(TypeKind::Array { elem: i32t, len: 4 });
    let f = t.intern(TypeKind::Fn { params: vec![i32t, r], ret: Some(p), variadic: false });
    assert_eq!(r.inner_ref_ptr(&t), Some(i32t));
    assert_eq!(p.inner_ref_ptr(&t), Some(i32t));
    assert_eq!(a.inner_ref_ptr(&t), None);
    assert_eq!(a.as_array(&t), Some((i32t, 4)));
    assert_eq!(i32t.as_array(&t), None);
    let (params, ret) = f.as_fn(&t).unwrap();
    assert_eq!(params, &[i32t, r]);
    assert_eq!(ret, Some(p));
    assert!(i32t.as_fn(&t).is_none());
}

#[test]
fn display_spells_types_as_written() {
    let mut t = TypeInterner::new();
    let i32t = t.int32_ty();
    let r = t.intern(TypeKind::Ref(i32t));
    let p = t.intern(TypeKind::Ptr(i32t));
    let a = t.intern(TypeKind::Array { elem: r, len: 4 });
    let raw = t.intern(TypeKind::RawPtr);
    let f = t.intern(TypeKind::Fn { params: vec![i32t, p], ret: Some(a), variadic: true });
    let g = t.intern(TypeKind::Fn { params: vec![], ret: None, variadic: true });
    assert_eq!(t.display(r), "&int32");
    assert_eq!(t.display(p), "int32*");
    assert_eq!(t.display(a), "[&int32; 4]");
    assert_eq!(t.display(raw), "ptr");
    assert_eq!(t.display(f), "(int32, int32*, ...) -> [&int32; 4]");
    assert_eq!(t.display(g), "(...)");
    assert_eq!(t.display(t.unit_ty()), "()");
    assert_eq!(t.display(t.never_ty()), "!");
    assert_eq!(t.display(t.error_type()), "<error>");
    let _ = TypeRef(0);
}
