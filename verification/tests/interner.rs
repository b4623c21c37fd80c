use eye::interner::{Interner, SourceFile, Symbol};
use eye::source::SourceText;

#[test]
fn interning_dedups_equal_strings() {
    let mut i = Interner::new();
    assert!(i.is_empty());
    let hi = i.intern("hi");
    let hi2 = i.intern("hi");
    let name = i.intern("name");
    let name2 = i.intern("name");
    assert_eq!(hi, hi2);
    assert_eq!(name, name2);
    assert_ne!(hi, name);
    assert_eq!(i.len(), 2);
}

#[test]
fn lookup_gives_back_the_string() {
    let mut i = Interner::new();
    let a = i.intern("alpha");
    let b = i.intern("beta");
    assert_eq!(a, Symbol(0));
    assert_eq!(b, Symbol(1));
    assert_eq!(i.lookup(a), "alpha");
    assert_eq!(i.lookup(b), "beta");
    assert_eq!(i.get("beta"), Some("beta".to_string()));
    assert_eq!(i.get("gamma"), None);
}

#[test]
fn source_file_bundles_text_and_names() {
    let mut names = Interner::new();
    names.intern("x");
    let f = SourceFile::new(SourceText::new("let x = 1;".to_string()), names);
    assert_eq!(f.text.as_str(), "let x = 1;");
    assert_eq!(f.interner.len(), 1);
    assert_eq!(f.get("x"), Some("x".to_string()));
    assert_eq!(f.get("y"), None);
}
