//! Implicit conversions applied while lowering: an array reference decaying
//! to an element pointer or a byte string.

use vstd::prelude::*;

use crate::text::str_eq;
use crate::types::{KindView, TypeInterner, TypeKind, TypeRef};

verus! {

/// Whether a value of type `found`, a `&[T; N]`, decays to `declared`:
/// `declared` is `&T` or `T*` for the same element type, or `string` when
/// `T` is `uint8`.
pub open spec fn spec_decays_to(kinds: Seq<KindView>, declared: TypeRef, found: TypeRef) -> bool {
    &&& (found.0 as int) < kinds.len()
    &&& kinds[found.0 as int] matches KindView::Ref(arr)
    &&& (arr.0 as int) < kinds.len()
    &&& kinds[arr.0 as int] matches KindView::Array { elem, .. }
    &&& (declared.0 as int) < kinds.len()
    &&& match kinds[declared.0 as int] {
        KindView::Path(n) => n == "string"@ && (elem.0 as int) < kinds.len() && kinds[elem.0 as int]
            == KindView::Path("uint8"@),
        KindView::Ref(t) => t == elem,
        KindView::Ptr(t) => t == elem,
        _ => false,
    }
}

/// Whether a `&[T; N]` value of type `found` decays to `declared`.
pub fn array_ref_decays_to(declared: TypeRef, found: TypeRef, types: &TypeInterner) -> (b: bool)
    requires
        types.wf(),
        (declared.0 as int) < types@.len(),
        (found.0 as int) < types@.len(),
    ensures
        b == spec_decays_to(types@, declared, found),
{
    proof {
        types.lemma_wf();
        assert(crate::types::children_below(types@[found.0 as int], found.0 as int));
    }
    let arr = match types.lookup(found) {
        TypeKind::Ref(a) => *a,
        _ => return false,
    };
    proof {
        assert(crate::types::children_below(types@[arr.0 as int], arr.0 as int));
    }
    let elem = match types.lookup(arr) {
        TypeKind::Array { elem, .. } => *elem,
        _ => return false,
    };
    match types.lookup(declared) {
        TypeKind::Path(n) => {
            if str_eq(n.as_str(), "string") {
                match types.lookup(elem) {
                    TypeKind::Path(e) => str_eq(e.as_str(), "uint8"),
                    _ => false,
                }
            } else {
                false
            }
        },
        TypeKind::Ref(t) => t.0 == elem.0,
        TypeKind::Ptr(t) => t.0 == elem.0,
        _ => false,
    }
}

} // verus!
