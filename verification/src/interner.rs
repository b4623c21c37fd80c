//! The string interner: every distinct string is stored once and named by
//! a [`Symbol`], an index into the table.

use vstd::prelude::*;

use rustc_hash::{FxBuildHasher, FxHashMap};

use crate::source::SourceText;

verus! {

broadcast use vstd::string::group_string_axioms;

#[verifier::external_type_specification]
#[verifier::external_body]
pub struct ExFxBuildHasher(FxBuildHasher);

/// A map from strings to table indices.
pub type NameTable = FxHashMap<String, u32>;

/// The key/value pairs a name table (an `FxHashMap<String, u32>`) holds,
/// keys taken by their chars.
pub uninterp spec fn name_table(m: NameTable) -> Map<Seq<char>, u32>;

/// An empty name table with room for `capacity` entries
/// (`FxHashMap::with_capacity_and_hasher`).
#[verifier::external_body]
pub(crate) fn name_table_new(capacity: usize) -> (table: NameTable)
    ensures
        name_table(table).dom().is_empty(),
{
    FxHashMap::with_capacity_and_hasher(capacity, FxBuildHasher)
}

/// The value stored under the key equal to `s` (`HashMap::get`).
#[verifier::external_body]
pub(crate) fn name_table_get(m: &NameTable, s: &str) -> (r: Option<u32>)
    ensures
        name_table(*m).contains_key(s@) ==> r == Some(name_table(*m)[s@]),
        !name_table(*m).contains_key(s@) ==> r is None,
{
    m.get(s).copied()
}

/// Stores `v` under `k`, replacing any earlier value (`HashMap::insert`).
#[verifier::external_body]
pub(crate) fn name_table_insert(m: &mut NameTable, k: String, v: u32)
    ensures
        name_table(*final(m)) == name_table(*old(m)).insert(k@, v),
{
    m.insert(k, v);
}

/// An interned string handle: an index into an [`Interner`]'s table.
#[derive(Debug, Clone, Copy, PartialEq, Eq, Hash, Structural)]
pub struct Symbol(pub u32);

/// The canonical string table.
pub struct Interner {
    map: NameTable,
    vec: Vec<String>,
}

impl View for Interner {
    type V = Seq<Seq<char>>;

    /// The interned strings, in the order of their symbols.
    closed spec fn view(&self) -> Seq<Seq<char>> {
        self.vec@.map_values(|s: String| s@)
    }
}

/// The table after interning `s` into `v`, and the symbol `s` gets: the
/// position of an equal entry, or a new entry at the end.
pub open spec fn interned(v: Seq<Seq<char>>, s: Seq<char>) -> (Seq<Seq<char>>, int) {
    if v.contains(s) {
        (v, choose|i: int| 0 <= i < v.len() && v[i] == s)
    } else {
        (v.push(s), v.len() as int)
    }
}

/// No string occurs twice in `s`.
pub open spec fn distinct(s: Seq<Seq<char>>) -> bool {
    forall|i: int, j: int| 0 <= i < j < s.len() ==> s[i] != s[j]
}

impl Interner {
    #[verifier::type_invariant]
    spec fn inv(&self) -> bool {
        &&& self.vec@.len() <= u32::MAX
        &&& forall|k: Seq<char>|
            #[trigger] name_table(self.map).contains_key(k) ==> {
                &&& (name_table(self.map)[k] as int) < self.vec@.len()
                &&& self.vec@[name_table(self.map)[k] as int]@ == k
            }
        &&& forall|i: int|
            0 <= i < self.vec@.len() ==> {
                &&& name_table(self.map).contains_key(#[trigger] self.vec@[i]@)
                &&& name_table(self.map)[self.vec@[i]@] == i
            }
    }

    pub fn new() -> (t: Interner)
        ensures
            t@ == Seq::<Seq<char>>::empty(),
            distinct(t@),
    {
        let t = Interner { map: name_table_new(256), vec: Vec::new() };
        assert(t@ =~= Seq::<Seq<char>>::empty());
        t
    }

    /// Interns `s`: the symbol of an equal string already in the table, or
    /// a fresh symbol for a new entry at the end.
    pub fn intern(&mut self, s: &str) -> (sym: Symbol)
        requires
            old(self)@.len() < u32::MAX,
        ensures
            old(self)@.contains(s@) ==> final(self)@ == old(self)@ && old(self)@[sym.0 as int]
                == s@,
            !old(self)@.contains(s@) ==> final(self)@ == old(self)@.push(s@) && sym.0
                == old(self)@.len(),
            distinct(final(self)@),
            (final(self)@, sym.0 as int) == interned(old(self)@, s@),
    {
        proof {
            use_type_invariant(&*self);
            assert forall|i: int, j: int| 0 <= i < j < self@.len() implies self@[i] != self@[j] by {
                assert(self@[i] == self.vec@[i]@);
                assert(self@[j] == self.vec@[j]@);
            }
        }
        match name_table_get(&self.map, s) {
            Some(id) => {
                assert(self@[id as int] == self.vec@[id as int]@);
                proof {
                    let j = choose|j: int| 0 <= j < self@.len() && self@[j] == s@;
                    assert(self@.contains(s@));
                    if j != id as int {
                        assert(self@[j] == self@[id as int]);
                    }
                }
                Symbol(id)
            },
            None => {
                let ghost old_vec = self.vec@;
                proof {
                    if self@.contains(s@) {
                        let i = choose|i: int| 0 <= i < self@.len() && self@[i] == s@;
                        assert(self@[i] == self.vec@[i]@);
                    }
                }
                let id = self.vec.len() as u32;
                let owned = s.to_owned();
                let mut taken = Interner::new();
                std::mem::swap(self, &mut taken);
                let Interner { mut map, mut vec } = taken;
                name_table_insert(&mut map, owned.clone(), id);
                vec.push(owned);
                proof {
                    assert forall|i: int| 0 <= i < vec@.len() implies {
                        &&& name_table(map).contains_key(#[trigger] vec@[i]@)
                        &&& name_table(map)[vec@[i]@] == i
                    } by {
                        if i < old_vec.len() {
                            assert(vec@[i] == old_vec[i]);
                        }
                    }
                }
                *self = Interner { map, vec };
                assert(self@ =~= old(self)@.push(s@));
                Symbol(id)
            },
        }
    }

    /// The text behind `id`.
    pub fn lookup(&self, id: Symbol) -> (s: &str)
        requires
            (id.0 as int) < self@.len(),
        ensures
            s@ == self@[id.0 as int],
    {
        self.vec[id.0 as usize].as_str()
    }

    /// The stored copy of `s`, if it was interned.
    pub fn get(&self, s: &str) -> (r: Option<String>)
        ensures
            self@.contains(s@) ==> (r matches Some(t) && t@ == s@),
            !self@.contains(s@) ==> r is None,
    {
        proof {
            use_type_invariant(self);
        }
        match name_table_get(&self.map, s) {
            Some(id) => {
                assert(self@[id as int] == self.vec@[id as int]@);
                Some(self.vec[id as usize].clone())
            },
            None => {
                proof {
                    if self@.contains(s@) {
                        let i = choose|i: int| 0 <= i < self@.len() && self@[i] == s@;
                        assert(self@[i] == self.vec@[i]@);
                    }
                }
                None
            },
        }
    }

    /// The number of distinct strings interned.
    pub fn len(&self) -> (n: usize)
        ensures
            n == self@.len(),
    {
        self.vec.len()
    }

    pub fn is_empty(&self) -> (b: bool)
        ensures
            b == (self@.len() == 0),
    {
        self.vec.len() == 0
    }
}

/// A source file's text bundled with its string table.
pub struct SourceFile {
    pub text: SourceText,
    pub interner: Interner,
}

impl SourceFile {
    pub fn new(text: SourceText, interner: Interner) -> (f: SourceFile)
        ensures
            f.text@ == text@,
            f.interner@ == interner@,
    {
        SourceFile { text, interner }
    }

    /// The table's copy of `s`, if it holds `s`.
    pub fn get(&self, s: &str) -> (r: Option<String>)
        ensures
            self.interner@.contains(s@) ==> (r matches Some(t) && t@ == s@),
            !self.interner@.contains(s@) ==> r is None,
    {
        self.interner.get(s)
    }
}

} // verus!
