use eye::body::Resolution;
use eye::errors::{HirError, ResolveError, TypeError};
use eye::ids::{ConstId, EnumId, FnId, GlobalId, LocalId, StructId};
use eye::items::{collect_consts, collect_globals, collect_items, resolve, Field, ItemDecl, ItemScope, Param, HIR};
use eye::scopes::Scopes;
use eye::types::TypeRef;

const INT32: TypeRef = TypeRef(3);

fn field(name: &str) -> Field {
    Field { name: name.to_string(), ty: INT32 }
}

fn param(name: &str) -> Param {
    Param { name: name.to_string(), ty: INT32 }
}

fn main_fn() -> ItemDecl {
    ItemDecl::Fn { name: "main".to_string(), params: vec![], ret: None }
}

fn collect_all(items: &Vec<ItemDecl>) -> HIR {
    let mut hir = HIR::default();
    collect_consts(&mut hir, items);
    collect_globals(&mut hir, items);
    collect_items(&mut hir, items);
    hir
}

#[test]
fn a_second_struct_of_one_name_is_a_duplicate() {
    let items = vec![
        ItemDecl::Struct { name: "Point".to_string(), fields: vec![field("x")] },
        ItemDecl::Struct { name: "Point".to_string(), fields: vec![field("y")] },
        main_fn(),
    ];
    let hir = collect_all(&items);
    assert_eq!(
        hir.diagnostics,
        vec![HirError::Resolve(ResolveError::DuplicateItem { name: "Point".to_string() })]
    );
    assert_eq!(hir.structs.len(), 2);
    assert_eq!(hir.items.struct_id("Point"), Some(StructId(1)));
    assert_eq!(hir.structs.get(StructId(0)).name, "Point");
    assert_eq!(hir.fields.len(), 2);
    let second = hir.structs.get(StructId(1));
    assert_eq!(second.fields, vec![eye::ids::FieldId(1)]);
    assert_eq!(hir.fields.get(eye::ids::FieldId(1)).name, "y");
}

#[test]
fn a_function_named_like_a_struct_collides() {
    let items = vec![
        ItemDecl::Struct { name: "Foo".to_string(), fields: vec![field("x")] },
        ItemDecl::Fn { name: "Foo".to_string(), params: vec![], ret: None },
    ];
    let hir = collect_all(&items);
    assert_eq!(hir.diagnostics, vec![HirError::Resolve(ResolveError::DuplicateItem { name: "Foo".to_string() })]);
    let items = vec![main_fn(), main_fn()];
    let hir = collect_all(&items);
    assert_eq!(hir.diagnostics, vec![HirError::Resolve(ResolveError::DuplicateItem { name: "main".to_string() })]);
    assert_eq!(hir.functions.len(), 2);
}

#[test]
fn constants_and_globals_share_a_namespace() {
    let items = vec![
        ItemDecl::Const { name: "X".to_string(), ty: INT32 },
        ItemDecl::Const { name: "X".to_string(), ty: INT32 },
        ItemDecl::Global { name: "X".to_string(), ty: INT32, mutable: true },
        ItemDecl::Global { name: "G".to_string(), ty: INT32, mutable: false },
    ];
    let mut hir = HIR::default();
    let consts = collect_consts(&mut hir, &items);
    assert_eq!(consts, vec![(ConstId(0), 0), (ConstId(1), 1)]);
    let globals = collect_globals(&mut hir, &items);
    assert_eq!(globals, vec![(GlobalId(0), 2), (GlobalId(1), 3)]);
    assert_eq!(
        hir.diagnostics,
        vec![
            HirError::Resolve(ResolveError::DuplicateItem { name: "X".to_string() }),
            HirError::Resolve(ResolveError::DuplicateItem { name: "X".to_string() }),
        ]
    );
    assert!(!hir.globals.get(GlobalId(1)).mutable);
    assert_eq!(hir.consts.get(ConstId(1)).value, None);
}

#[test]
fn names_emitted_into_c_must_not_be_c_keywords() {
    let items = vec![
        ItemDecl::Struct { name: "Syllable".to_string(), fields: vec![field("struct"), field("data")] },
        ItemDecl::Fn { name: "typedef".to_string(), params: vec![param("switch")], ret: None },
        main_fn(),
    ];
    let hir = collect_all(&items);
    assert_eq!(
        hir.diagnostics,
        vec![
            HirError::Resolve(ResolveError::NameIsCKeyword { name: "struct".to_string(), what: "field" }),
            HirError::Resolve(ResolveError::NameIsCKeyword { name: "typedef".to_string(), what: "function" }),
            HirError::Resolve(ResolveError::NameIsCKeyword { name: "switch".to_string(), what: "parameter" }),
        ]
    );
}

#[test]
fn reserved_names_need_an_extern_declaration() {
    let items = vec![
        ItemDecl::Fn { name: "printf".to_string(), params: vec![param("x")], ret: Some(INT32) },
        ItemDecl::Fn { name: "__eye_main".to_string(), params: vec![], ret: Some(INT32) },
        main_fn(),
    ];
    let hir = collect_all(&items);
    assert_eq!(
        hir.diagnostics,
        vec![
            HirError::Resolve(ResolveError::NameIsReserved { name: "printf".to_string(), what: "function" }),
            HirError::Resolve(ResolveError::NameIsReserved { name: "__eye_main".to_string(), what: "function" }),
        ]
    );
    let items = vec![
        ItemDecl::ExternFn { name: "printf".to_string(), params: vec![param("fmt")], ret: Some(INT32), variadic: true },
        main_fn(),
    ];
    let hir = collect_all(&items);
    assert!(hir.diagnostics.is_empty());
    let printf = hir.functions.get(FnId(0));
    assert!(printf.is_extern && printf.variadic);
    assert!(printf.fn_type.is_some());
}

#[test]
fn repeated_parameters_are_rejected_outside_extern_blocks() {
    let items = vec![
        ItemDecl::Fn { name: "f".to_string(), params: vec![param("x"), param("x")], ret: Some(INT32) },
        ItemDecl::ExternFn { name: "g".to_string(), params: vec![param("x"), param("x")], ret: None, variadic: false },
        ItemDecl::Fn { name: "main".to_string(), params: vec![param("argc")], ret: None },
    ];
    let mut hir = HIR::default();
    let defined = collect_items(&mut hir, &items);
    assert_eq!(defined, vec![(FnId(0), 0), (FnId(2), 2)]);
    assert_eq!(
        hir.diagnostics,
        vec![
            HirError::Resolve(ResolveError::DuplicateParam { name: "x".to_string(), function: "f".to_string() }),
            HirError::Type(TypeError::MainHasParams),
        ]
    );
}

#[test]
fn a_variant_name_belongs_to_one_enum() {
    let items = vec![
        ItemDecl::Enum { name: "Shape".to_string(), variants: vec!["Circle".to_string(), "Square".to_string()] },
        ItemDecl::Enum { name: "Other".to_string(), variants: vec!["Square".to_string(), "Line".to_string()] },
    ];
    let hir = collect_all(&items);
    assert_eq!(
        hir.diagnostics,
        vec![HirError::Resolve(ResolveError::DuplicateVariantDecl {
            variant: "Square".to_string(),
            enum_name: "Shape".to_string(),
        })]
    );
    let scopes = Scopes::new();
    assert_eq!(resolve(&scopes, &hir.items, "Square"), Resolution::Variant { enum_id: EnumId(0), idx: 1 });
    assert_eq!(resolve(&scopes, &hir.items, "Line"), Resolution::Variant { enum_id: EnumId(1), idx: 1 });
    assert_eq!(resolve(&scopes, &hir.items, "Other"), Resolution::Enum(EnumId(1)));
    assert_eq!(hir.enums.get(EnumId(1)).variants.len(), 2);
}

#[test]
fn an_opaque_type_needs_a_fresh_type_name() {
    let items = vec![
        ItemDecl::Struct { name: "FILE".to_string(), fields: vec![] },
        ItemDecl::ExternType { name: "FILE".to_string() },
    ];
    let hir = collect_all(&items);
    assert_eq!(hir.diagnostics, vec![HirError::Resolve(ResolveError::DuplicateItem { name: "FILE".to_string() })]);
    assert_eq!(hir.opaques.len(), 1);
}

#[test]
fn names_resolve_through_scopes_then_items() {
    let items = vec![
        ItemDecl::Const { name: "MAX".to_string(), ty: INT32 },
        ItemDecl::Global { name: "counter".to_string(), ty: INT32, mutable: true },
        ItemDecl::Struct { name: "Point".to_string(), fields: vec![field("x")] },
        main_fn(),
    ];
    let hir = collect_all(&items);
    let mut scopes = Scopes::new();
    scopes.define("x".to_string(), LocalId(4));
    scopes.define("MAX".to_string(), LocalId(5));
    assert_eq!(resolve(&scopes, &hir.items, "x"), Resolution::Local(LocalId(4)));
    assert_eq!(resolve(&scopes, &hir.items, "MAX"), Resolution::Local(LocalId(5)));
    assert_eq!(resolve(&scopes, &hir.items, "counter"), Resolution::Global(GlobalId(0)));
    assert_eq!(resolve(&scopes, &hir.items, "main"), Resolution::Fn(FnId(0)));
    assert_eq!(resolve(&scopes, &hir.items, "Point"), Resolution::Struct(StructId(0)));
    assert_eq!(resolve(&scopes, &hir.items, "nope"), Resolution::Unresolved("nope".to_string()));
    let empty = ItemScope::default();
    assert_eq!(resolve(&Scopes::new(), &empty, "MAX"), Resolution::Unresolved("MAX".to_string()));
    assert_eq!(resolve(&Scopes::new(), &hir.items, "MAX"), Resolution::Const(ConstId(0)));
}
