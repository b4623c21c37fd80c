use eye::errors::ResolveError;
use eye::names::{c_keyword_error, is_c_keyword, is_float_type, is_int_type, is_primitive_type_name, reserved_file_scope_error};

#[test]
fn c_keywords_are_recognised() {
    for kw in ["struct", "typedef", "switch", "register", "int", "while", "volatile"] {
        assert!(is_c_keyword(kw), "{kw}");
    }
    for name in ["x", "Struct", "point", "main", "structure"] {
        assert!(!is_c_keyword(name), "{name}");
    }
}

#[test]
fn c_keyword_and_reserved_names_are_rejected() {
    assert_eq!(
        c_keyword_error("struct", "field"),
        Some(ResolveError::NameIsCKeyword { name: "struct".to_string(), what: "field" })
    );
    assert_eq!(
        c_keyword_error("__eye_main", "function"),
        Some(ResolveError::NameIsReserved { name: "__eye_main".to_string(), what: "function" })
    );
    assert_eq!(c_keyword_error("point", "parameter"), None);
    assert_eq!(
        reserved_file_scope_error("printf", "function"),
        Some(ResolveError::NameIsReserved { name: "printf".to_string(), what: "function" })
    );
    assert_eq!(reserved_file_scope_error("print", "function"), None);
}

#[test]
fn primitive_type_names() {
    assert!(is_int_type("int32"));
    assert!(is_int_type("usize"));
    assert!(!is_int_type("float32"));
    assert!(is_float_type("float64"));
    assert!(!is_float_type("int8"));
    assert!(is_primitive_type_name("string"));
    assert!(is_primitive_type_name("bool"));
    assert!(!is_primitive_type_name("Point"));
}
