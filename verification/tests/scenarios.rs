//! Whole-program scenarios, each program given as its declarations and the
//! judgments its bodies call for, in source order.

use eye::body::{check_char_literal, lower_literal, Expr, Local, LocalConst, Literal, LiteralKind, Pat, Resolution, StructLitField};
use eye::checks::unknown_type_names;
use eye::consts::BinOp;
use eye::errors::{HirError, PatternError, ResolveError, TypeError};
use eye::ids::{ExprId, LocalConstId, LocalId, PatId};
use eye::items::{collect_consts, collect_globals, collect_items, resolve, validate_type_names, Field, ItemDecl, Param, HIR};
use eye::lowering::{
    call_arity_error, len_intrinsic_error, lower_destructure, lower_let_binding, lower_local_const, path_pat,
    ref_operand_error, struct_lit_field_errors, struct_lit_name_error, value_use_error, PatField,
};
use eye::scopes::Scopes;
use eye::typed_arena::TypedArena;
use eye::types::{TypeKind, TypeRef};

const INT32: TypeRef = TypeRef(3);

fn field(ty: TypeRef, name: &str) -> Field {
    Field { name: name.to_string(), ty }
}

fn param(ty: TypeRef, name: &str) -> Param {
    Param { name: name.to_string(), ty }
}

fn structure(name: &str, fields: Vec<Field>) -> ItemDecl {
    ItemDecl::Struct { name: name.to_string(), fields }
}

fn function(name: &str, params: Vec<Param>, ret: Option<TypeRef>) -> ItemDecl {
    ItemDecl::Fn { name: name.to_string(), params, ret }
}

fn main_fn() -> ItemDecl {
    function("main", vec![], None)
}

/// The three item passes over `items`, in their order.
fn collect(hir: &mut HIR, items: &Vec<ItemDecl>) {
    collect_consts(hir, items);
    collect_globals(hir, items);
    collect_items(hir, items);
}

fn collect_all(items: &Vec<ItemDecl>) -> HIR {
    let mut hir = HIR::default();
    collect(&mut hir, items);
    hir
}

/// A function body being lowered: its scopes (the function frame and the
/// block frame), arenas and diagnostics.
struct BodyState {
    scopes: Scopes,
    pats: TypedArena<Pat, PatId>,
    locals: TypedArena<Local, LocalId>,
    consts: TypedArena<LocalConst, LocalConstId>,
    diags: Vec<HirError>,
}

fn body() -> BodyState {
    let mut scopes = Scopes::new();
    scopes.push();
    scopes.push();
    BodyState {
        scopes,
        pats: TypedArena::new(),
        locals: TypedArena::new(),
        consts: TypedArena::new(),
        diags: Vec::new(),
    }
}

impl BodyState {
    fn let_(&mut self, name: &str, ty: Option<TypeRef>, mutable: bool) {
        lower_let_binding(
            &mut self.scopes,
            &mut self.pats,
            &mut self.locals,
            &mut self.diags,
            name.to_string(),
            ty,
            mutable,
        );
    }

    fn destructure(&mut self, hir: &HIR, ty: &str, fields: &[&str]) {
        let fields: Vec<PatField> =
            fields.iter().map(|f| PatField { field: f.to_string(), binding: None }).collect();
        lower_destructure(
            hir,
            &mut self.scopes,
            &mut self.pats,
            &mut self.locals,
            &mut self.diags,
            ty,
            &fields,
            false,
        );
    }
}

fn lit_fields(names: &[&str]) -> Vec<StructLitField> {
    names.iter().map(|n| StructLitField { name: n.to_string(), value: ExprId(0) }).collect()
}

/// The diagnostics of a struct literal naming `name` with `fields`.
fn struct_lit(hir: &HIR, name: &str, fields: &[&str]) -> Vec<HirError> {
    let mut out = Vec::new();
    if let Some(e) = struct_lit_name_error(&hir.items, name) {
        out.push(HirError::Resolve(e));
    }
    for e in struct_lit_field_errors(hir, name, &lit_fields(fields), false) {
        out.push(HirError::Type(e));
    }
    out
}

fn point_xy() -> ItemDecl {
    structure("Point", vec![field(INT32, "x"), field(INT32, "y")])
}

fn items_collected() {
    let hir = collect_all(&vec![point_xy(), main_fn()]);
    assert_eq!(hir.structs.len(), 1);
    assert_eq!(hir.functions.len(), 1);
    assert!(hir.items.struct_id("Point").is_some());
    assert!(hir.items.function("main").is_some());
    assert!(hir.diagnostics.is_empty());
    let mut b = body();
    b.let_("x", Some(INT32), false);
    b.let_("y", Some(INT32), false);
    assert!(struct_lit(&hir, "Point", &["x", "y"]).is_empty());
    b.let_("p", None, true);
    assert!(b.diags.is_empty());
}

#[test]
fn tests_items_collected() {
    items_collected();
}

#[test]
fn structs_items_collected() {
    items_collected();
}

fn duplicate_struct_emits_diagnostic() {
    let hir = collect_all(&vec![
        structure("Point", vec![field(INT32, "x")]),
        structure("Point", vec![field(INT32, "y")]),
        main_fn(),
    ]);
    assert_eq!(hir.diagnostics.len(), 1, "expected one diagnostic, got: {:?}", hir.diagnostics);
    assert!(
        matches!(&hir.diagnostics[0], HirError::Resolve(ResolveError::DuplicateItem { name }) if name == "Point"),
        "unexpected diagnostic: {:?}",
        hir.diagnostics[0]
    );
    assert_eq!(hir.structs.len(), 2);
}

#[test]
fn tests_duplicate_struct_emits_diagnostic() {
    duplicate_struct_emits_diagnostic();
}

#[test]
fn naming_duplicate_struct_emits_diagnostic() {
    duplicate_struct_emits_diagnostic();
}

fn duplicate_fn_emits_diagnostic() {
    let hir = collect_all(&vec![main_fn(), main_fn()]);
    assert_eq!(hir.diagnostics.len(), 1, "{:?}", hir.diagnostics);
    assert!(
        matches!(&hir.diagnostics[0], HirError::Resolve(ResolveError::DuplicateItem { name }) if name == "main"),
        "unexpected diagnostic: {:?}",
        hir.diagnostics[0]
    );
    assert_eq!(hir.functions.len(), 2);
}

#[test]
fn tests_duplicate_fn_emits_diagnostic() {
    duplicate_fn_emits_diagnostic();
}

#[test]
fn naming_duplicate_fn_emits_diagnostic() {
    duplicate_fn_emits_diagnostic();
}

fn fn_and_struct_with_same_name_collide() {
    let hir = collect_all(&vec![structure("Foo", vec![field(INT32, "x")]), function("Foo", vec![], None)]);
    assert_eq!(hir.diagnostics.len(), 1, "{:?}", hir.diagnostics);
    assert!(
        matches!(&hir.diagnostics[0], HirError::Resolve(ResolveError::DuplicateItem { name }) if name == "Foo"),
        "unexpected diagnostic: {:?}",
        hir.diagnostics[0]
    );
}

#[test]
fn tests_fn_and_struct_with_same_name_collide() {
    fn_and_struct_with_same_name_collide();
}

#[test]
fn naming_fn_and_struct_with_same_name_collide() {
    fn_and_struct_with_same_name_collide();
}

fn duplicate_const_name_is_rejected() {
    let hir = collect_all(&vec![
        ItemDecl::Const { name: "X".to_string(), ty: INT32 },
        ItemDecl::Const { name: "X".to_string(), ty: INT32 },
        main_fn(),
    ]);
    assert!(
        hir.diagnostics.iter().any(|d| matches!(d, HirError::Resolve(ResolveError::DuplicateItem { .. }))),
        "expected a duplicate-item diagnostic: {:?}",
        hir.diagnostics
    );
}

#[test]
fn tests_duplicate_const_name_is_rejected() {
    duplicate_const_name_is_rejected();
}

#[test]
fn naming_duplicate_const_name_is_rejected() {
    duplicate_const_name_is_rejected();
}

fn c_keyword_names_are_rejected() {
    let mut hir = HIR::default();
    let string = hir.types.intern(TypeKind::Path("string".to_string()));
    collect(
        &mut hir,
        &vec![
            structure("Syllable", vec![field(string, "struct"), field(INT32, "data")]),
            function("typedef", vec![param(INT32, "switch")], None),
            main_fn(),
        ],
    );
    let keyword_errors: Vec<String> = hir
        .diagnostics
        .iter()
        .filter_map(|d| match d {
            HirError::Resolve(ResolveError::NameIsCKeyword { name, .. }) => Some(name.clone()),
            _ => None,
        })
        .collect();
    assert_eq!(
        keyword_errors,
        ["struct", "typedef", "switch"],
        "expected exactly the keyword names rejected: {:?}",
        hir.diagnostics
    );
}

#[test]
fn tests_c_keyword_names_are_rejected() {
    c_keyword_names_are_rejected();
}

#[test]
fn naming_c_keyword_names_are_rejected() {
    c_keyword_names_are_rejected();
}

fn non_ascii_char_literals_are_rejected() {
    let lits = ["'é'", "'x'", "'\\n'", "'→'"];
    let rejected: Vec<char> = lits
        .iter()
        .filter_map(|text| match check_char_literal(&lower_literal(Some(LiteralKind::Char), Some(text))) {
            Some(TypeError::CharLiteralNotAscii { ch }) => Some(ch),
            _ => None,
        })
        .collect();
    assert_eq!(rejected, ['é', '→'], "expected exactly the non-ASCII char literals rejected");
}

#[test]
fn tests_non_ascii_char_literals_are_rejected() {
    non_ascii_char_literals_are_rejected();
}

#[test]
fn naming_non_ascii_char_literals_are_rejected() {
    non_ascii_char_literals_are_rejected();
}

fn reserved_names_are_rejected() {
    let hir = collect_all(&vec![
        function("printf", vec![param(INT32, "x")], Some(INT32)),
        function("__eye_main", vec![], Some(INT32)),
        main_fn(),
    ]);
    let reserved: Vec<String> = hir
        .diagnostics
        .iter()
        .filter_map(|d| match d {
            HirError::Resolve(ResolveError::NameIsReserved { name, .. }) => Some(name.clone()),
            _ => None,
        })
        .collect();
    assert_eq!(reserved, ["printf", "__eye_main"], "expected exactly the reserved names rejected: {:?}", hir.diagnostics);
    let mut hir = HIR::default();
    let string = hir.types.intern(TypeKind::Path("string".to_string()));
    collect(
        &mut hir,
        &vec![
            ItemDecl::ExternFn {
                name: "printf".to_string(),
                params: vec![param(string, "fmt")],
                ret: Some(INT32),
                variadic: true,
            },
            main_fn(),
        ],
    );
    assert!(
        !hir.diagnostics.iter().any(|d| matches!(d, HirError::Resolve(ResolveError::NameIsReserved { .. }))),
        "extern printf declares the libc symbol and must stay legal: {:?}",
        hir.diagnostics
    );
}

#[test]
fn tests_reserved_names_are_rejected() {
    reserved_names_are_rejected();
}

#[test]
fn naming_reserved_names_are_rejected() {
    reserved_names_are_rejected();
}

fn duplicate_param_names_are_rejected() {
    let hir = collect_all(&vec![function("f", vec![param(INT32, "x"), param(INT32, "x")], Some(INT32)), main_fn()]);
    assert!(
        hir.diagnostics.iter().any(|d| matches!(d, HirError::Resolve(ResolveError::DuplicateParam { .. }))),
        "expected a duplicate-parameter diagnostic: {:?}",
        hir.diagnostics
    );
    let hir = collect_all(&vec![
        ItemDecl::ExternFn {
            name: "g".to_string(),
            params: vec![param(INT32, "x"), param(INT32, "x")],
            ret: Some(INT32),
            variadic: false,
        },
        main_fn(),
    ]);
    assert!(
        !hir.diagnostics.iter().any(|d| matches!(d, HirError::Resolve(ResolveError::DuplicateParam { .. }))),
        "extern prototypes are types-only; duplicate names are not checked: {:?}",
        hir.diagnostics
    );
}

#[test]
fn tests_duplicate_param_names_are_rejected() {
    duplicate_param_names_are_rejected();
}

#[test]
fn naming_duplicate_param_names_are_rejected() {
    duplicate_param_names_are_rejected();
}

fn same_scope_redeclaration_is_rejected() {
    let mut lets = body();
    lets.let_("x", Some(INT32), false);
    lets.let_("x", Some(INT32), true);
    assert!(
        lets.diags.iter().any(|e| matches!(e, HirError::Resolve(ResolveError::DuplicateLocal { name }) if name == "x")),
        "same-scope let/mut redeclaration must be rejected; got: {:?}",
        lets.diags
    );
    let mut const_let = body();
    lower_local_const(
        &mut const_let.scopes,
        &mut const_let.consts,
        &mut const_let.diags,
        LocalConst { name: "K".to_string(), ty: INT32, value: None },
    );
    const_let.let_("K", Some(INT32), false);
    assert!(
        const_let.diags.iter().any(|e| matches!(e, HirError::Resolve(ResolveError::DuplicateLocal { name }) if name == "K")),
        "a let rebinding a same-scope const must be rejected; got: {:?}",
        const_let.diags
    );
    let mut nested = body();
    nested.let_("x", Some(INT32), false);
    nested.scopes.push();
    nested.let_("x", Some(INT32), false);
    nested.scopes.pop();
    assert!(
        !nested.diags.iter().any(|e| matches!(e, HirError::Resolve(ResolveError::DuplicateLocal { .. }))),
        "nested-scope shadowing must stay legal; got: {:?}",
        nested.diags
    );
}

#[test]
fn tests_same_scope_redeclaration_is_rejected() {
    same_scope_redeclaration_is_rejected();
}

#[test]
fn naming_same_scope_redeclaration_is_rejected() {
    same_scope_redeclaration_is_rejected();
}

/// The diagnostic for `name` used as a value (`is_callee`: as a call's
/// callee) in a body whose scopes are `scopes`.
fn use_of(hir: &HIR, scopes: &Scopes, name: &str, is_callee: bool) -> Option<ResolveError> {
    value_use_error(&resolve(scopes, &hir.items, name), name, is_callee)
}

fn non_value_name_uses_are_rejected() {
    let empty = collect_all(&vec![main_fn()]);
    let b = body();
    assert!(matches!(use_of(&empty, &b.scopes, "printf", true), Some(ResolveError::UnresolvedName { .. })), "undeclared call must be rejected");
    assert!(matches!(use_of(&empty, &b.scopes, "nope", false), Some(ResolveError::UnresolvedName { .. })), "bare undeclared value must be rejected");
    let p = collect_all(&vec![structure("P", vec![field(INT32, "x")]), main_fn()]);
    assert!(matches!(use_of(&p, &b.scopes, "x", false), Some(ResolveError::UnresolvedName { .. })), "undeclared shorthand field must be rejected");
    assert!(matches!(use_of(&p, &b.scopes, "P", false), Some(ResolveError::StructNameAsValue { .. })), "struct name in value position must be rejected");
    assert!(matches!(use_of(&empty, &b.scopes, "print", false), Some(ResolveError::UnresolvedName { .. })), "bare `print` value must be rejected");
    let f = collect_all(&vec![function("f", vec![], Some(INT32)), main_fn()]);
    assert_eq!(use_of(&f, &b.scopes, "println", true), None, "`println(...)` is valid");
    assert_eq!(use_of(&f, &b.scopes, "f", true), None, "a function call is valid");
    let e = collect_all(&vec![
        ItemDecl::Enum { name: "E".to_string(), variants: vec!["A".to_string(), "B".to_string()] },
        main_fn(),
    ]);
    assert!(e.diagnostics.is_empty());
    assert_eq!(use_of(&e, &b.scopes, "A", false), None, "an enum variant is a value, not an error");
}

#[test]
fn tests_non_value_name_uses_are_rejected() {
    non_value_name_uses_are_rejected();
}

#[test]
fn naming_non_value_name_uses_are_rejected() {
    non_value_name_uses_are_rejected();
}

fn unknown_struct_literal_rejected() {
    let hir = collect_all(&vec![main_fn()]);
    let diags = struct_lit(&hir, "Foo", &["x"]);
    assert!(
        diags.iter().any(|d| matches!(d, HirError::Resolve(ResolveError::UnknownStructLiteral { name }) if name == "Foo")),
        "expected an unknown-struct-literal diagnostic, got: {:?}",
        diags
    );
}

#[test]
fn tests_unknown_struct_literal_rejected() {
    unknown_struct_literal_rejected();
}

#[test]
fn naming_unknown_struct_literal_rejected() {
    unknown_struct_literal_rejected();
}

fn unknown_type_names_rejected() {
    let mut hir = HIR::default();
    let off = hir.types.intern(TypeKind::Path("off".to_string()));
    let late = hir.types.intern(TypeKind::Path("Late".to_string()));
    let wat = hir.types.intern(TypeKind::Path("wat".to_string()));
    let huh = hir.types.intern(TypeKind::Path("huh".to_string()));
    let gee = hir.types.intern(TypeKind::Path("gee".to_string()));
    let blah = hir.types.intern(TypeKind::Path("blah".to_string()));
    let zap = hir.types.intern(TypeKind::Path("zap".to_string()));
    let items = vec![
        structure("Arena", vec![field(off, "off"), field(late, "ok_forward_ref")]),
        function("f", vec![param(wat, "x")], Some(huh)),
        ItemDecl::Global { name: "g".to_string(), ty: gee, mutable: false },
        structure("Late", vec![field(INT32, "v")]),
        main_fn(),
    ];
    collect(&mut hir, &items);
    // the signature types, in the order the passes record them: globals
    // before the other items.
    validate_type_names(&mut hir, &vec![gee, off, late, wat, huh, INT32]);
    let mut unknown: Vec<String> = hir
        .diagnostics
        .iter()
        .filter_map(|d| match d {
            HirError::Resolve(ResolveError::UnknownTypeName { name }) => Some(name.clone()),
            _ => None,
        })
        .collect();
    // the body's `let` and cast types, checked as they are lowered.
    unknown.extend(unknown_type_names(blah, &hir.types, &hir));
    unknown.extend(unknown_type_names(INT32, &hir.types, &hir));
    unknown.extend(unknown_type_names(zap, &hir.types, &hir));
    assert_eq!(
        unknown,
        ["gee", "off", "wat", "huh", "blah", "zap"],
        "expected exactly the undeclared type names (and not `Late`): {:?}",
        hir.diagnostics
    );
}

#[test]
fn tests_unknown_type_names_rejected() {
    unknown_type_names_rejected();
}

#[test]
fn naming_unknown_type_names_rejected() {
    unknown_type_names_rejected();
}

fn struct_p() -> HIR {
    collect_all(&vec![structure("P", vec![field(INT32, "x"), field(INT32, "y")]), main_fn()])
}

fn destructure_binds_all_fields() {
    let hir = struct_p();
    let mut b = body();
    assert!(struct_lit(&hir, "P", &["x", "y"]).is_empty());
    b.let_("p", None, false);
    b.destructure(&hir, "P", &["x", "y"]);
    assert!(b.diags.is_empty(), "expected a clean destructure, got: {:?}", b.diags);
}

#[test]
fn tests_destructure_binds_all_fields() {
    destructure_binds_all_fields();
}

#[test]
fn matches_destructure_binds_all_fields() {
    destructure_binds_all_fields();
}

fn destructure_missing_field_is_non_exhaustive() {
    let hir = struct_p();
    let mut b = body();
    b.let_("p", None, false);
    b.destructure(&hir, "P", &["x"]);
    assert!(
        b.diags.iter().any(|e| matches!(
            e,
            HirError::Pattern(PatternError::DestructureNonExhaustive { ty, missing })
                if ty == "P" && missing.iter().any(|m| m == "y")
        )),
        "expected destructure non-exhaustive diag, got: {:?}",
        b.diags
    );
}

#[test]
fn tests_destructure_missing_field_is_non_exhaustive() {
    destructure_missing_field_is_non_exhaustive();
}

#[test]
fn matches_destructure_missing_field_is_non_exhaustive() {
    destructure_missing_field_is_non_exhaustive();
}

fn destructure_unknown_field_diagnosed() {
    let hir = struct_p();
    let mut b = body();
    b.let_("p", None, false);
    b.destructure(&hir, "P", &["x", "z"]);
    assert!(
        b.diags.iter().any(|e| matches!(
            e,
            HirError::Pattern(PatternError::DestructureUnknownField { ty, field }) if ty == "P" && field == "z"
        )),
        "expected unknown-field diagnostic naming `z`, got: {:?}",
        b.diags
    );
}

#[test]
fn tests_destructure_unknown_field_diagnosed() {
    destructure_unknown_field_diagnosed();
}

#[test]
fn matches_destructure_unknown_field_diagnosed() {
    destructure_unknown_field_diagnosed();
}

fn destructure_duplicate_field_diagnosed() {
    let hir = struct_p();
    let mut b = body();
    b.let_("p", None, false);
    b.destructure(&hir, "P", &["x", "x"]);
    assert!(
        b.diags.iter().any(|e| matches!(
            e,
            HirError::Pattern(PatternError::DestructureDuplicateField { field }) if field == "x"
        )),
        "expected duplicate-field diagnostic, got: {:?}",
        b.diags
    );
}

#[test]
fn tests_destructure_duplicate_field_diagnosed() {
    destructure_duplicate_field_diagnosed();
}

#[test]
fn matches_destructure_duplicate_field_diagnosed() {
    destructure_duplicate_field_diagnosed();
}

fn destructure_not_a_struct_diagnosed() {
    let hir = collect_all(&vec![main_fn()]);
    let mut b = body();
    b.let_("x", Some(INT32), false);
    b.destructure(&hir, "NotAStruct", &["x"]);
    assert!(
        b.diags.iter().any(|e| matches!(
            e,
            HirError::Pattern(PatternError::DestructureNotAStruct { ty }) if ty == "NotAStruct"
        )),
        "expected not-a-struct diagnostic, got: {:?}",
        b.diags
    );
}

#[test]
fn tests_destructure_not_a_struct_diagnosed() {
    destructure_not_a_struct_diagnosed();
}

#[test]
fn matches_destructure_not_a_struct_diagnosed() {
    destructure_not_a_struct_diagnosed();
}

fn match_qualified_unknown_variant_diagnosed() {
    let hir = collect_all(&vec![
        ItemDecl::Enum {
            name: "Shape".to_string(),
            variants: vec!["Circle".to_string(), "Rectangle".to_string(), "Triangle".to_string()],
        },
        main_fn(),
    ]);
    let b = body();
    assert_eq!(use_of(&hir, &b.scopes, "Circle", false), None);
    let arm = path_pat(&hir, "Shape", "Square");
    assert!(
        matches!(&arm, Err(ResolveError::NoSuchVariant { enum_name, variant }) if enum_name == "Shape" && variant == "Square"),
        "expected unknown-variant diag, got: {:?}",
        arm
    );
}

#[test]
fn tests_match_qualified_unknown_variant_diagnosed() {
    match_qualified_unknown_variant_diagnosed();
}

#[test]
fn matches_match_qualified_unknown_variant_diagnosed() {
    match_qualified_unknown_variant_diagnosed();
}

fn union_literal_must_set_exactly_one_field() {
    let mut hir = HIR::default();
    let int64 = hir.types.intern(TypeKind::Path("int64".to_string()));
    let float64 = hir.types.intern(TypeKind::Path("float64".to_string()));
    collect(
        &mut hir,
        &vec![
            ItemDecl::Union { name: "Bits".to_string(), fields: vec![field(int64, "i"), field(float64, "f")] },
            main_fn(),
        ],
    );
    let one = struct_lit(&hir, "Bits", &["i"]);
    assert!(one.is_empty(), "{:?}", one);
    let two = struct_lit(&hir, "Bits", &["i", "f"]);
    assert!(
        two.iter().any(|e| matches!(e, HirError::Type(TypeError::UnionLiteralFieldCount { .. }))),
        "expected a one-field diagnostic, got: {:?}",
        two
    );
}

#[test]
fn tests_union_literal_must_set_exactly_one_field() {
    union_literal_must_set_exactly_one_field();
}

#[test]
fn structs_union_literal_must_set_exactly_one_field() {
    union_literal_must_set_exactly_one_field();
}

fn incomplete_struct_literal_emits_diagnostic() {
    let hir = collect_all(&vec![
        structure("Point", vec![field(INT32, "x"), field(INT32, "y"), field(INT32, "z")]),
        main_fn(),
    ]);
    let diags = struct_lit(&hir, "Point", &["x", "y"]);
    assert!(
        diags.iter().any(|e| matches!(
            e,
            HirError::Type(TypeError::StructLitMissingFields { fields, .. }) if fields.iter().any(|f| f == "z")
        )),
        "expected a missing-field diagnostic naming `z`, got: {:?}",
        diags
    );
}

#[test]
fn tests_incomplete_struct_literal_emits_diagnostic() {
    incomplete_struct_literal_emits_diagnostic();
}

#[test]
fn structs_incomplete_struct_literal_emits_diagnostic() {
    incomplete_struct_literal_emits_diagnostic();
}

fn unknown_struct_field_emits_diagnostic() {
    let hir = collect_all(&vec![point_xy(), main_fn()]);
    let diags = struct_lit(&hir, "Point", &["x", "y", "w"]);
    assert!(
        diags.iter().any(|e| matches!(
            e,
            HirError::Type(TypeError::StructLitUnknownFields { fields, .. }) if fields.iter().any(|f| f == "w")
        )),
        "expected an unknown-field diagnostic naming `w`, got: {:?}",
        diags
    );
}

#[test]
fn tests_unknown_struct_field_emits_diagnostic() {
    unknown_struct_field_emits_diagnostic();
}

#[test]
fn structs_unknown_struct_field_emits_diagnostic() {
    unknown_struct_field_emits_diagnostic();
}

fn complete_struct_literal_has_no_diagnostic() {
    let hir = collect_all(&vec![point_xy(), main_fn()]);
    let diags = struct_lit(&hir, "Point", &["x", "y"]);
    assert!(hir.diagnostics.is_empty() && diags.is_empty(), "expected no diagnostics, got: {:?}", diags);
}

#[test]
fn tests_complete_struct_literal_has_no_diagnostic() {
    complete_struct_literal_has_no_diagnostic();
}

#[test]
fn structs_complete_struct_literal_has_no_diagnostic() {
    complete_struct_literal_has_no_diagnostic();
}

fn main_with_params_is_rejected() {
    let hir = collect_all(&vec![function("main", vec![param(INT32, "x")], None)]);
    assert!(
        hir.diagnostics.iter().any(|e| matches!(e, HirError::Type(TypeError::MainHasParams))),
        "a parameterized `main` must be rejected; got: {:?}",
        hir.diagnostics
    );
}

#[test]
fn tests_main_with_params_is_rejected() {
    main_with_params_is_rejected();
}

#[test]
fn functions_main_with_params_is_rejected() {
    main_with_params_is_rejected();
}

fn main_with_any_return_is_accepted() {
    for ret in ["", "int32", "bool", "float64"] {
        let mut hir = HIR::default();
        let ty = if ret.is_empty() { None } else { Some(hir.types.intern(TypeKind::Path(ret.to_string()))) };
        collect(&mut hir, &vec![function("main", vec![], ty)]);
        assert!(
            !hir.diagnostics.iter().any(|e| matches!(e, HirError::Type(TypeError::MainHasParams))),
            "any `main` return type must be accepted; got: {:?}",
            hir.diagnostics
        );
    }
}

#[test]
fn tests_main_with_any_return_is_accepted() {
    main_with_any_return_is_accepted();
}

#[test]
fn functions_main_with_any_return_is_accepted() {
    main_with_any_return_is_accepted();
}

fn add_fn() -> ItemDecl {
    function("add", vec![param(INT32, "a"), param(INT32, "b")], Some(INT32))
}

fn function_name_as_value_is_accepted() {
    let hir = collect_all(&vec![add_fn(), main_fn()]);
    let mut b = body();
    assert_eq!(use_of(&hir, &b.scopes, "add", false), None);
    b.let_("op", None, false);
    assert_eq!(use_of(&hir, &b.scopes, "op", true), None);
    assert!(hir.diagnostics.is_empty() && b.diags.is_empty(), "a function name as a value must succeed");
}

#[test]
fn tests_function_name_as_value_is_accepted() {
    function_name_as_value_is_accepted();
}

#[test]
fn functions_function_name_as_value_is_accepted() {
    function_name_as_value_is_accepted();
}

fn extern_variadic_and_opaque_type_collected() {
    let mut hir = HIR::default();
    let string = hir.types.intern(TypeKind::Path("string".to_string()));
    let file = hir.types.intern(TypeKind::Path("FILE".to_string()));
    let file_ptr = hir.types.intern(TypeKind::Ptr(file));
    collect(
        &mut hir,
        &vec![
            ItemDecl::ExternType { name: "FILE".to_string() },
            ItemDecl::ExternFn { name: "printf".to_string(), params: vec![param(string, "fmt")], ret: Some(INT32), variadic: true },
            ItemDecl::ExternFn { name: "fclose".to_string(), params: vec![param(file_ptr, "f")], ret: Some(INT32), variadic: false },
            main_fn(),
        ],
    );
    validate_type_names(&mut hir, &vec![string, INT32, file_ptr, INT32]);
    assert!(hir.diagnostics.is_empty(), "{:?}", hir.diagnostics);
    let printf = hir.items.function("printf").unwrap();
    assert!(hir.functions.get(printf).is_extern);
    assert!(hir.functions.get(printf).variadic);
    assert_eq!(hir.functions.get(printf).params.len(), 1);
    let fclose = hir.items.function("fclose").unwrap();
    assert!(!hir.functions.get(fclose).variadic);
    assert_eq!(hir.opaques.len(), 1);
    assert_eq!(hir.opaques.get(eye::ids::OpaqueId(0)).name, "FILE");
    let main = hir.items.function("main").unwrap();
    assert!(!hir.functions.get(main).variadic);
}

#[test]
fn tests_extern_variadic_and_opaque_type_collected() {
    extern_variadic_and_opaque_type_collected();
}

#[test]
fn functions_extern_variadic_and_opaque_type_collected() {
    extern_variadic_and_opaque_type_collected();
}

fn opaque_type_duplicate_name_is_rejected() {
    let hir = collect_all(&vec![
        structure("FILE", vec![field(INT32, "x")]),
        ItemDecl::ExternType { name: "FILE".to_string() },
        main_fn(),
    ]);
    assert!(
        hir.diagnostics.iter().any(|d| matches!(d, HirError::Resolve(ResolveError::DuplicateItem { name }) if name == "FILE")),
        "expected a duplicate-item diagnostic, got: {:?}",
        hir.diagnostics
    );
}

#[test]
fn tests_opaque_type_duplicate_name_is_rejected() {
    opaque_type_duplicate_name_is_rejected();
}

#[test]
fn functions_opaque_type_duplicate_name_is_rejected() {
    opaque_type_duplicate_name_is_rejected();
}

fn call_arity_is_checked() {
    let mut hir = HIR::default();
    let string = hir.types.intern(TypeKind::Path("string".to_string()));
    collect(
        &mut hir,
        &vec![
            ItemDecl::ExternFn { name: "printf".to_string(), params: vec![param(string, "fmt")], ret: Some(INT32), variadic: true },
            add_fn(),
            main_fn(),
        ],
    );
    let calls = [("add", 3), ("add", 1), ("add", 2), ("printf", 1), ("printf", 3), ("printf", 0)];
    let arity: Vec<(String, usize, usize, bool)> = calls
        .iter()
        .filter_map(|(callee, n)| {
            let f = hir.functions.get(hir.items.function(callee).unwrap());
            match call_arity_error(f, *n) {
                Some(TypeError::CallArityMismatch { name, expected, found, variadic }) => Some((name, expected, found, variadic)),
                _ => None,
            }
        })
        .collect();
    assert_eq!(
        arity,
        [
            ("add".to_owned(), 2, 3, false),
            ("add".to_owned(), 2, 1, false),
            ("printf".to_owned(), 1, 0, true),
        ]
    );
}

#[test]
fn tests_call_arity_is_checked() {
    call_arity_is_checked();
}

#[test]
fn functions_call_arity_is_checked() {
    call_arity_is_checked();
}

fn ref_of_non_place_is_rejected() {
    let hir = collect_all(&vec![main_fn()]);
    let consts: TypedArena<LocalConst, LocalConstId> = TypedArena::new();
    let sum = Expr::Binary { op: BinOp::Add, lhs: ExprId(0), rhs: ExprId(1) };
    assert_eq!(
        ref_operand_error(&sum, &hir, &consts),
        Some(HirError::Type(TypeError::RefOfNonPlace)),
        "`&(a + b)` must be rejected"
    );
    let a = Expr::Path(Resolution::Local(LocalId(0)));
    assert_eq!(ref_operand_error(&a, &hir, &consts), None, "`&a` must stay legal");
}

#[test]
fn tests_ref_of_non_place_is_rejected() {
    ref_of_non_place_is_rejected();
}

#[test]
fn pointers_ref_of_non_place_is_rejected() {
    ref_of_non_place_is_rejected();
}

fn len_of_computed_value_is_rejected() {
    let mut exprs: TypedArena<Expr, ExprId> = TypedArena::new();
    let mk = exprs.allocate(Expr::Path(Resolution::Fn(eye::ids::FnId(0))));
    let call = exprs.allocate(Expr::Call { callee: mk, args: vec![] });
    let one = exprs.allocate(Expr::Literal(Literal::Int(1)));
    let lit = exprs.allocate(Expr::ArrayLit(vec![one, one, one]));
    let call_form: Vec<TypeError> = len_intrinsic_error(&vec![call], &exprs).into_iter().collect();
    assert_eq!(call_form.len(), 1, "`len(f())` must be rejected (the call would be discarded); got: {:?}", call_form);
    let literal_form: Vec<TypeError> = len_intrinsic_error(&vec![lit], &exprs).into_iter().collect();
    assert_eq!(literal_form.len(), 1, "`len([..])` must be rejected (not a place); got: {:?}", literal_form);
}

#[test]
fn tests_len_of_computed_value_is_rejected() {
    len_of_computed_value_is_rejected();
}

#[test]
fn arrays_len_of_computed_value_is_rejected() {
    len_of_computed_value_is_rejected();
}

#[test]
fn duplicate_enum_emits_diagnostic() {
    let enum_decl = |vs: &[&str]| ItemDecl::Enum { name: "E".to_string(), variants: vs.iter().map(|v| v.to_string()).collect() };
    let hir = collect_all(&vec![enum_decl(&["A", "B"]), enum_decl(&["C", "D"]), main_fn()]);
    let dups: Vec<&HirError> = hir
        .diagnostics
        .iter()
        .filter(|d| matches!(d, HirError::Resolve(ResolveError::DuplicateItem { name }) if name == "E"))
        .collect();
    assert_eq!(dups.len(), 1, "{:?}", hir.diagnostics);
    assert_eq!(hir.diagnostics.len(), 1, "{:?}", hir.diagnostics);
    assert_eq!(hir.enums.len(), 2);
}
