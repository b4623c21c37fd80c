use eye::ids::{LocalConstId, LocalId};
use eye::scopes::{Binding, Scopes};

#[test]
fn define_then_lookup() {
    let mut s = Scopes::new();
    assert_eq!(s.lookup("x"), None);
    s.define("x".to_string(), LocalId(3));
    assert_eq!(s.lookup("x"), Some(Binding::Local(LocalId(3))));
    s.define_const("K".to_string(), LocalConstId(0));
    assert_eq!(s.lookup("K"), Some(Binding::Const(LocalConstId(0))));
}

#[test]
fn inner_scope_shadows_and_pop_restores() {
    let mut s = Scopes::new();
    s.define("x".to_string(), LocalId(1));
    s.push();
    assert_eq!(s.lookup("x"), Some(Binding::Local(LocalId(1))));
    s.define("x".to_string(), LocalId(2));
    s.define("y".to_string(), LocalId(3));
    assert_eq!(s.lookup("x"), Some(Binding::Local(LocalId(2))));
    s.pop();
    assert_eq!(s.lookup("x"), Some(Binding::Local(LocalId(1))));
    assert_eq!(s.lookup("y"), None);
}

#[test]
fn redefining_in_the_same_frame_replaces() {
    let mut s = Scopes::new();
    s.define("x".to_string(), LocalId(1));
    s.define("x".to_string(), LocalId(9));
    assert_eq!(s.lookup("x"), Some(Binding::Local(LocalId(9))));
}

#[test]
fn default_scopes_are_empty() {
    let mut s = Scopes::default();
    assert_eq!(s.lookup("x"), None);
    s.pop();
    assert_eq!(s.lookup("x"), None);
}
