use eye::errors::{
    join_ticked, plural, Class, Code, ConstError, EffectError, HirError, LexError, PatternError, ResolveError,
    TypeError,
};

#[test]
fn class_letters() {
    let letters: Vec<char> = [
        Class::Lex,
        Class::Syntax,
        Class::Resolve,
        Class::Type,
        Class::Pattern,
        Class::Const,
        Class::Effect,
        Class::Unsupported,
    ]
    .iter()
    .map(|c| c.letter())
    .collect();
    assert_eq!(letters, vec!['L', 'S', 'R', 'T', 'P', 'C', 'E', 'U']);
}

#[test]
fn lex_error_codes_and_messages() {
    assert_eq!(LexError::UnclosedString.code(), eye::errors::Code::new(eye::errors::Class::Lex, 1));
    assert_eq!(LexError::UnexpectedChar('$').code(), eye::errors::Code::new(eye::errors::Class::Lex, 8));
    assert_eq!(LexError::UnclosedBlockComment.message(), "unclosed block comment");
    assert_eq!(LexError::UnexpectedChar('$').message(), "unexpected character: '$'");
}

#[test]
fn hir_error_codes_follow_their_class() {
    let e = HirError::Resolve(ResolveError::DuplicateItem { name: "Point".to_string() });
    assert_eq!(e.code(), eye::errors::Code::new(eye::errors::Class::Resolve, 1));
    let e = HirError::Resolve(ResolveError::DuplicateLocal { name: "x".to_string() });
    assert_eq!(e.code(), eye::errors::Code::new(eye::errors::Class::Resolve, 15));
    let e = HirError::Type(TypeError::IndexOfNonIndexable { found: "int32".to_string() });
    assert_eq!(e.code(), eye::errors::Code::new(eye::errors::Class::Type, 46));
    let e = HirError::Type(TypeError::DerefOfPtr);
    assert_eq!(e.code(), eye::errors::Code::new(eye::errors::Class::Type, 28));
    let e = HirError::Pattern(PatternError::UnreachableAfterWildcard);
    assert_eq!(e.code(), eye::errors::Code::new(eye::errors::Class::Pattern, 1));
    let e = HirError::Const(ConstError::ConstTypeMismatch { ty: "int32".to_string(), found: "a bool".to_string() });
    assert_eq!(e.code(), eye::errors::Code::new(eye::errors::Class::Const, 14));
    let e = HirError::Effect(EffectError::UnknownEffect { name: "net".to_string() });
    assert_eq!(e.code(), eye::errors::Code::new(eye::errors::Class::Effect, 1));
}

#[test]
fn effect_mismatch_notes_carry_the_witness() {
    let e = HirError::Effect(EffectError::EffectMismatch {
        function: "f".to_string(),
        declared: "pure".to_string(),
        inferred: "io".to_string(),
        witness: Some("calls `println`".to_string()),
    });
    assert_eq!(e.notes(), vec!["calls `println`".to_string()]);
    let e = HirError::Type(TypeError::MainHasParams);
    assert!(e.notes().is_empty());
}

#[test]
fn plural_and_ticked_lists() {
    assert_eq!(plural(1), "");
    assert_eq!(plural(0), "s");
    assert_eq!(plural(2), "s");
    assert_eq!(join_ticked(&[]), "");
    assert_eq!(join_ticked(&["x".to_string()]), "`x`");
    assert_eq!(join_ticked(&["x".to_string(), "y".to_string(), "z".to_string()]), "`x`, `y`, `z`");
}

#[test]
fn resolve_messages() {
    let e = ResolveError::DuplicateVariantDecl { variant: "A".to_string(), enum_name: "E".to_string() };
    assert_eq!(e.message(), "variant `A` already declared in enum `E`");
    let e = ResolveError::NameIsCKeyword { name: "struct".to_string(), what: "field" };
    assert_eq!(
        e.message(),
        "`struct` cannot be used as a field name: it is a C keyword, and the C backend emits the name verbatim"
    );
    let e = ResolveError::NameIsReserved { name: "printf".to_string(), what: "function" };
    assert_eq!(e.message(), "`printf` cannot be used as a function name: it is reserved for the compiler's C output");
}

#[test]
fn type_messages() {
    let e = TypeError::ArrayInitLenMismatch { declared: 3, found: 2 };
    assert_eq!(
        e.message(),
        "array initializer length mismatch: declared length 3, initializer has 2 element(s)"
    );
    let e = TypeError::StructLitMissingFields { name: "P".to_string(), fields: vec!["z".to_string()] };
    assert_eq!(e.message(), "struct literal `P` is missing field: `z`");
    let e = TypeError::StructLitUnknownFields {
        name: "P".to_string(),
        fields: vec!["w".to_string(), "v".to_string()],
    };
    assert_eq!(e.message(), "struct literal `P` has unknown fields: `w`, `v`");
    let e = TypeError::CallArityMismatch { name: "add".to_string(), expected: 1, found: 2, variadic: false };
    assert_eq!(e.message(), "`add` takes 1 argument, but 2 were given");
    let e = TypeError::CallArityMismatch { name: "printf".to_string(), expected: 2, found: 1, variadic: true };
    assert_eq!(e.message(), "`printf` takes at least 2 arguments, but 1 was given");
    let e = TypeError::PrintlnArityMismatch { placeholders: 1, args: 2 };
    assert_eq!(e.message(), "`println` format string has 1 `{}` placeholder but 2 value arguments");
    let e = TypeError::CharLiteralNotAscii { ch: 'é' };
    assert_eq!(
        e.message(),
        "char literal `'é'` does not fit in one byte: `char` is a single byte; use a string literal for non-ASCII text"
    );
    let e = TypeError::StructLitPositional;
    assert_eq!(
        e.message(),
        "struct literal fields must be named (`Point { x: 1, y: 2 }`); positional initialization is not supported"
    );
    let e = TypeError::RecursiveValueType { name: "A".to_string() };
    assert_eq!(
        e.message(),
        "`A` contains itself by value (infinite size); break the cycle with a pointer (`A*`)"
    );
}

#[test]
fn pattern_const_and_effect_messages() {
    let e = PatternError::NonExhaustivePrimitive { ty: "int32".to_string(), missing: vec![] };
    assert_eq!(
        e.message(),
        "non-exhaustive match on `int32`: add a `_` arm (the domain is too large to enumerate)"
    );
    let e = PatternError::NonExhaustivePrimitive { ty: "bool".to_string(), missing: vec!["false".to_string()] };
    assert_eq!(e.message(), "non-exhaustive match on `bool`: missing `false`");
    let e = PatternError::DestructureNonExhaustive { ty: "P".to_string(), missing: vec!["y".to_string()] };
    assert_eq!(e.message(), "destructure of `P` is missing field: `y` (destructuring binds every field)");
    let e = ConstError::IndexOutOfBounds { index: 7, len: 3 };
    assert_eq!(e.message(), "array index 7 is out of bounds for `[_; 3]`");
    let e = ConstError::ConstCycle { name: "A".to_string() };
    assert_eq!(HirError::Const(e).message(), "constant `A` references itself");
    let e = EffectError::EffectMismatch {
        function: "f".to_string(),
        declared: "pure".to_string(),
        inferred: "io".to_string(),
        witness: None,
    };
    assert_eq!(e.message(), "`f` declares `pure` but its effect is `io`");
}

#[test]
fn codes_read_as_a_letter_and_three_digits() {
    assert_eq!(eye::errors::Code::new(eye::errors::Class::Type, 34).text(), "T034");
    assert_eq!(eye::errors::Code::new(eye::errors::Class::Resolve, 7).text(), "R007");
    assert_eq!(eye::errors::Code::new(eye::errors::Class::Lex, 123).text(), "L123");
    assert_eq!(eye::errors::Code::new(eye::errors::Class::Effect, 1000).text(), "E1000");
}

#[test]
fn notes_follow_the_message() {
    let e = eye::errors::HirError::Resolve(eye::errors::ResolveError::UnresolvedName { name: "x".to_string() });
    assert_eq!(e.full_message(), e.message());
    let m = eye::errors::HirError::Effect(eye::errors::EffectError::EffectMismatch {
        function: "f".to_string(),
        declared: "pure".to_string(),
        inferred: "io".to_string(),
        witness: Some("f calls g".to_string()),
    });
    assert_eq!(m.full_message(), format!("{}\nnote: f calls g", m.message()));
}
