//! Sets of names (`FxHashSet<String>`), for the membership checks of
//! lowering.

use vstd::prelude::*;

use rustc_hash::{FxBuildHasher, FxHashSet};

verus! {

/// A set of names.
pub type NameSet = FxHashSet<String>;

/// The names a set holds, taken by their chars.
pub uninterp spec fn name_set(s: NameSet) -> Set<Seq<char>>;

/// An empty set with room for `capacity` names
/// (`FxHashSet::with_capacity_and_hasher`).
#[verifier::external_body]
pub(crate) fn name_set_new(capacity: usize) -> (s: NameSet)
    ensures
        name_set(s) == Set::<Seq<char>>::empty(),
{
    FxHashSet::with_capacity_and_hasher(capacity, FxBuildHasher)
}

/// Adds `n`, and tells whether no equal name was there before
/// (`HashSet::insert`).
#[verifier::external_body]
pub(crate) fn name_set_insert(s: &mut NameSet, n: String) -> (fresh: bool)
    ensures
        name_set(*final(s)) == name_set(*old(s)).insert(n@),
        fresh == !name_set(*old(s)).contains(n@),
{
    s.insert(n)
}

/// Whether the set holds a name equal to `n` (`HashSet::contains`).
#[verifier::external_body]
pub(crate) fn name_set_contains(s: &NameSet, n: &str) -> (r: bool)
    ensures
        r == name_set(*s).contains(n@),
{
    s.contains(n)
}

/// The set of the names in `names`.
pub(crate) fn name_set_of(names: &Vec<String>) -> (s: NameSet)
    ensures
        name_set(s) == names@.map_values(|x: String| x@).to_set(),
{
    let ghost v = names@.map_values(|x: String| x@);
    let mut s = name_set_new(names.len());
    let mut i: usize = 0;
    assert(v.take(0).to_set() =~= Set::<Seq<char>>::empty());
    while i < names.len()
        invariant
            i <= names@.len(),
            v == names@.map_values(|x: String| x@),
            name_set(s) == v.take(i as int).to_set(),
        decreases names@.len() - i,
    {
        let _ = name_set_insert(&mut s, names[i].clone());
        proof {
            assert(v.take(i + 1) =~= v.take(i as int).push(v[i as int]));
            v.take(i as int).lemma_push_to_set_commute(v[i as int]);
        }
        i = i + 1;
    }
    assert(v.take(names@.len() as int) =~= v);
    s
}

} // verus!
