//! Interned type representations: a [`TypeRef`] is a handle into a
//! [`TypeInterner`] that stores each structurally distinct [`TypeKind`]
//! once.

use vstd::prelude::*;

use crate::text::{decimal, push_decimal, str_eq, string_push};

verus! {

broadcast use vstd::string::group_string_axioms;

/// A handle to an interned type: its position in the interner.
#[derive(Debug, Clone, Copy, PartialEq, Eq, Hash, Structural)]
pub struct TypeRef(pub u32);

/// The structural shape of a type; children are handles.
#[derive(Debug, Clone, PartialEq, Eq, Hash)]
pub enum TypeKind {
    /// A named type (`int32`, `Point`).
    Path(String),
    /// `&T`.
    Ref(TypeRef),
    /// `T*`.
    Ptr(TypeRef),
    /// `ptr`, the untyped raw pointer.
    RawPtr,
    /// `[T; N]`.
    Array { elem: TypeRef, len: u64 },
    /// `(A, B) -> R`, possibly variadic.
    Fn { params: Vec<TypeRef>, ret: Option<TypeRef>, variadic: bool },
    /// `()`.
    Unit,
    /// `!`, the type of a diverging expression.
    Never,
    /// The error sentinel.
    Error,
}

/// A [`TypeKind`] as a mathematical value.
pub enum KindView {
    Path(Seq<char>),
    Ref(TypeRef),
    Ptr(TypeRef),
    RawPtr,
    Array { elem: TypeRef, len: u64 },
    Fn { params: Seq<TypeRef>, ret: Option<TypeRef>, variadic: bool },
    Unit,
    Never,
    Error,
}

impl View for TypeKind {
    type V = KindView;

    open spec fn view(&self) -> KindView {
        match self {
            TypeKind::Path(n) => KindView::Path(n@),
            TypeKind::Ref(t) => KindView::Ref(*t),
            TypeKind::Ptr(t) => KindView::Ptr(*t),
            TypeKind::RawPtr => KindView::RawPtr,
            TypeKind::Array { elem, len } => KindView::Array { elem: *elem, len: *len },
            TypeKind::Fn { params, ret, variadic } => KindView::Fn {
                params: params@,
                ret: *ret,
                variadic: *variadic,
            },
            TypeKind::Unit => KindView::Unit,
            TypeKind::Never => KindView::Never,
            TypeKind::Error => KindView::Error,
        }
    }
}

/// Every handle in `ps` is below `bound`.
pub open spec fn all_below(ps: Seq<TypeRef>, bound: int) -> bool {
    forall|i: int| 0 <= i < ps.len() ==> ((#[trigger] ps[i]).0 as int) < bound
}

/// Every child handle of `k` is below `bound`.
pub open spec fn children_below(k: KindView, bound: int) -> bool {
    match k {
        KindView::Ref(t) => (t.0 as int) < bound,
        KindView::Ptr(t) => (t.0 as int) < bound,
        KindView::Array { elem, .. } => (elem.0 as int) < bound,
        KindView::Fn { params, ret, .. } => all_below(params, bound) && match ret {
            Some(r) => (r.0 as int) < bound,
            None => true,
        },
        _ => true,
    }
}

pub proof fn lemma_fn_children(params: Seq<TypeRef>, ret: Option<TypeRef>, variadic: bool, bound: int, j: int)
    requires
        children_below(KindView::Fn { params, ret, variadic }, bound),
        0 <= j < params.len(),
    ensures
        (params[j].0 as int) < bound,
{
    assert(all_below(params, bound));
}

/// Whether two kinds are structurally equal.
#[verifier::loop_isolation(false)]
pub fn kind_eq(a: &TypeKind, b: &TypeKind) -> (r: bool)
    ensures
        r == (a@ == b@),
{
    match (a, b) {
        (TypeKind::Path(x), TypeKind::Path(y)) => str_eq(x.as_str(), y.as_str()),
        (TypeKind::Ref(x), TypeKind::Ref(y)) => x.0 == y.0,
        (TypeKind::Ptr(x), TypeKind::Ptr(y)) => x.0 == y.0,
        (TypeKind::RawPtr, TypeKind::RawPtr) => true,
        (
            TypeKind::Array { elem: e1, len: l1 },
            TypeKind::Array { elem: e2, len: l2 },
        ) => e1.0 == e2.0 && *l1 == *l2,
        (
            TypeKind::Fn { params: p1, ret: r1, variadic: v1 },
            TypeKind::Fn { params: p2, ret: r2, variadic: v2 },
        ) => {
            if *v1 != *v2 {
                return false;
            }
            let same_ret = match (r1, r2) {
                (Some(x), Some(y)) => x.0 == y.0,
                (None, None) => true,
                _ => false,
            };
            if !same_ret {
                return false;
            }
            if p1.len() != p2.len() {
                return false;
            }
            let mut i: usize = 0;
            while i < p1.len()
                invariant
                    p1@.len() == p2@.len(),
                    i <= p1@.len(),
                    forall|j: int| 0 <= j < i ==> p1@[j] == p2@[j],
                decreases p1@.len() - i,
            {
                if p1[i].0 != p2[i].0 {
                    return false;
                }
                i = i + 1;
            }
            assert(p1@ =~= p2@);
            true
        },
        (TypeKind::Unit, TypeKind::Unit) => true,
        (TypeKind::Never, TypeKind::Never) => true,
        (TypeKind::Error, TypeKind::Error) => true,
        _ => false,
    }
}

/// The table after interning `k` into `v`, and the handle `k` gets: the
/// position of an equal entry, or a new entry at the end.
pub open spec fn kind_interned(v: Seq<KindView>, k: KindView) -> (Seq<KindView>, int) {
    if v.contains(k) {
        (v, choose|i: int| 0 <= i < v.len() && v[i] == k)
    } else {
        (v.push(k), v.len() as int)
    }
}

/// The type interner: a table of structurally distinct kinds, each child
/// handle pointing at an earlier entry.
pub struct TypeInterner {
    arena: Vec<TypeKind>,
    error_ty: TypeRef,
    int32_ty: TypeRef,
    uint8_ty: TypeRef,
    usize_ty: TypeRef,
    unit_ty: TypeRef,
    never_ty: TypeRef,
}

/// The kinds of `v`, as values.
pub open spec fn kinds_of(v: Seq<TypeKind>) -> Seq<KindView> {
    v.map_values(|k: TypeKind| k@)
}

/// A well-formed kind table: no kind occurs twice and every child handle
/// points at an earlier entry.
pub open spec fn wf_kinds(s: Seq<KindView>) -> bool {
    &&& forall|i: int, j: int| 0 <= i < j < s.len() ==> s[i] != s[j]
    &&& forall|i: int| 0 <= i < s.len() ==> children_below(#[trigger] s[i], i)
}

impl View for TypeInterner {
    type V = Seq<KindView>;

    closed spec fn view(&self) -> Seq<KindView> {
        kinds_of(self.arena@)
    }
}

impl TypeInterner {
    /// The table is well formed and the cached builtin handles name their
    /// builtin kinds.
    pub closed spec fn wf(&self) -> bool {
        &&& wf_kinds(kinds_of(self.arena@))
        &&& self.arena@.len() <= u32::MAX
        &&& self.handles_ok()
    }

    closed spec fn handles_ok(&self) -> bool {
        let s = kinds_of(self.arena@);
        &&& (self.error_ty.0 as int) < s.len() && s[self.error_ty.0 as int] == KindView::Error
        &&& (self.int32_ty.0 as int) < s.len() && s[self.int32_ty.0 as int] == KindView::Path(
            "int32"@,
        )
        &&& (self.uint8_ty.0 as int) < s.len() && s[self.uint8_ty.0 as int] == KindView::Path(
            "uint8"@,
        )
        &&& (self.usize_ty.0 as int) < s.len() && s[self.usize_ty.0 as int] == KindView::Path(
            "usize"@,
        )
        &&& (self.unit_ty.0 as int) < s.len() && s[self.unit_ty.0 as int] == KindView::Unit
        &&& (self.never_ty.0 as int) < s.len() && s[self.never_ty.0 as int] == KindView::Never
    }

    /// What a well-formed interner guarantees of its table.
    pub proof fn lemma_wf(&self)
        requires
            self.wf(),
        ensures
            wf_kinds(self@),
            self@.len() <= u32::MAX,
    {
    }

    /// The handle of the error sentinel.
    pub fn error_type(&self) -> (t: TypeRef)
        requires
            self.wf(),
        ensures
            (t.0 as int) < self@.len(),
            self@[t.0 as int] == KindView::Error,
    {
        self.error_ty
    }

    /// The handle of `int32`.
    pub fn int32_ty(&self) -> (t: TypeRef)
        requires
            self.wf(),
        ensures
            (t.0 as int) < self@.len(),
            self@[t.0 as int] == KindView::Path("int32"@),
    {
        self.int32_ty
    }

    /// The handle of `uint8`.
    pub fn uint8_ty(&self) -> (t: TypeRef)
        requires
            self.wf(),
        ensures
            (t.0 as int) < self@.len(),
            self@[t.0 as int] == KindView::Path("uint8"@),
    {
        self.uint8_ty
    }

    /// The handle of `usize`.
    pub fn usize_ty(&self) -> (t: TypeRef)
        requires
            self.wf(),
        ensures
            (t.0 as int) < self@.len(),
            self@[t.0 as int] == KindView::Path("usize"@),
    {
        self.usize_ty
    }

    /// The handle of `()`.
    pub fn unit_ty(&self) -> (t: TypeRef)
        requires
            self.wf(),
        ensures
            (t.0 as int) < self@.len(),
            self@[t.0 as int] == KindView::Unit,
    {
        self.unit_ty
    }

    /// The handle of `!`.
    pub fn never_ty(&self) -> (t: TypeRef)
        requires
            self.wf(),
        ensures
            (t.0 as int) < self@.len(),
            self@[t.0 as int] == KindView::Never,
    {
        self.never_ty
    }

    /// The kind behind a handle.
    pub fn lookup(&self, id: TypeRef) -> (k: &TypeKind)
        requires
            self.wf(),
            (id.0 as int) < self@.len(),
        ensures
            k@ == self@[id.0 as int],
    {
        &self.arena[id.0 as usize]
    }

    /// The number of interned kinds.
    pub fn len(&self) -> (n: usize)
        ensures
            n == self@.len(),
    {
        self.arena.len()
    }

    /// Interns `kind`: the handle of the equal kind already stored, or a
    /// fresh handle for a new entry at the end.
    pub fn intern(&mut self, kind: TypeKind) -> (t: TypeRef)
        requires
            old(self).wf(),
            old(self)@.len() < u32::MAX,
            children_below(kind@, old(self)@.len() as int),
        ensures
            final(self).wf(),
            old(self)@.contains(kind@) ==> final(self)@ == old(self)@ && (t.0 as int) < old(
                self,
            )@.len() && old(self)@[t.0 as int] == kind@,
            !old(self)@.contains(kind@) ==> final(self)@ == old(self)@.push(kind@) && t.0 == old(
                self,
            )@.len(),
            (final(self)@, t.0 as int) == kind_interned(old(self)@, kind@),
    {
        let ghost k = kind@;
        let i = intern_in(&mut self.arena, kind);
        proof {
            let v = old(self)@;
            if v.contains(k) {
                let j = choose|j: int| 0 <= j < v.len() && v[j] == k;
                if j != i as int {
                    assert(v[j] == v[i as int]);
                }
            }
        }
        TypeRef(i)
    }

    /// An interner holding, in this order, the error sentinel, every
    /// primitive type name, `ptr`, `()` and `!`.
    #[verifier::rlimit(40)]
    #[verifier::spinoff_prover]
    pub fn new() -> (t: TypeInterner)
        ensures
            t.wf(),
            t@ == builtin_kinds(),
    {
        let mut pending = builtin_kinds_reversed();
        let mut arena: Vec<TypeKind> = Vec::new();
        proof {
            lemma_builtin_kinds_distinct();
        }
        let ghost all = builtin_kinds();
        while pending.len() > 0
            invariant
                all == builtin_kinds(),
                wf_kinds(all),
                pending@.len() + arena@.len() == all.len(),
                kinds_of(arena@) == all.take(arena@.len() as int),
                forall|j: int|
                    0 <= j < pending@.len() ==> (#[trigger] pending@[j])@ == all[all.len() - 1 - j],
            decreases pending@.len(),
        {
            let k = pending.pop().unwrap();
            let ghost n = arena@.len() as int;
            assert(k@ == all[n]);
            proof {
                assert(all.take(n + 1) =~= all.take(n).push(all[n]));
                if kinds_of(arena@).contains(k@) {
                    let j = choose|j: int| 0 <= j < kinds_of(arena@).len() && kinds_of(arena@)[j] == k@;
                    assert(all.take(n)[j] == all[j]);
                }
                assert forall|i: int| 0 <= i < all.take(n + 1).len() implies children_below(#[trigger] all.take(n + 1)[i], i) by {
                    assert(all.take(n + 1)[i] == all[i]);
                }
                assert(wf_kinds(kinds_of(arena@)));
            }
            intern_in(&mut arena, k);
        }
        assert(all.take(all.len() as int) =~= all);
        let int32_ty = intern_in(&mut arena, TypeKind::Path("int32".to_owned()));
        let uint8_ty = intern_in(&mut arena, TypeKind::Path("uint8".to_owned()));
        let usize_ty = intern_in(&mut arena, TypeKind::Path("usize".to_owned()));
        proof {
            assert(all[3] == KindView::Path("int32"@));
            assert(all[5] == KindView::Path("uint8"@));
            assert(all[14] == KindView::Path("usize"@));
        }
        TypeInterner {
            arena,
            error_ty: TypeRef(0),
            int32_ty: TypeRef(int32_ty),
            uint8_ty: TypeRef(uint8_ty),
            usize_ty: TypeRef(usize_ty),
            unit_ty: TypeRef(18),
            never_ty: TypeRef(19),
        }
    }
}

/// The table a new interner holds: the error sentinel, the primitive type
/// names, `ptr`, `()` and `!`.
pub open spec fn builtin_kinds() -> Seq<KindView> {
    seq![
        KindView::Error,
        KindView::Path("int8"@),
        KindView::Path("int16"@),
        KindView::Path("int32"@),
        KindView::Path("int64"@),
        KindView::Path("uint8"@),
        KindView::Path("uint16"@),
        KindView::Path("uint32"@),
        KindView::Path("uint64"@),
        KindView::Path("float32"@),
        KindView::Path("float64"@),
        KindView::Path("bool"@),
        KindView::Path("char"@),
        KindView::Path("string"@),
        KindView::Path("usize"@),
        KindView::Path("isize"@),
        KindView::Path("void"@),
        KindView::RawPtr,
        KindView::Unit,
        KindView::Never,
    ]
}

#[verifier::rlimit(100)]
#[verifier::spinoff_prover]
proof fn lemma_builtin_kinds_distinct()
    ensures
        wf_kinds(builtin_kinds()),
{
    reveal_strlit("int8");
    reveal_strlit("int16");
    reveal_strlit("int32");
    reveal_strlit("int64");
    reveal_strlit("uint8");
    reveal_strlit("uint16");
    reveal_strlit("uint32");
    reveal_strlit("uint64");
    reveal_strlit("float32");
    reveal_strlit("float64");
    reveal_strlit("bool");
    reveal_strlit("char");
    reveal_strlit("string");
    reveal_strlit("usize");
    reveal_strlit("isize");
    reveal_strlit("void");
    let s = builtin_kinds();
    assert forall|i: int, j: int| 0 <= i < j < s.len() implies s[i] != s[j] by {
        if s[i] is Path && s[j] is Path {
            let a = s[i]->Path_0;
            let b = s[j]->Path_0;
            assert(a.len() != b.len() || a[0] != b[0] || a[1] != b[1] || a[4] != b[4] || a[a.len() - 1] != b[b.len() - 1]);
        }
    }
}

/// The builtin kinds, last first.
fn builtin_kinds_reversed() -> (v: Vec<TypeKind>)
    ensures
        v@.len() == builtin_kinds().len(),
        forall|j: int| 0 <= j < v@.len() ==> (#[trigger] v@[j])@ == builtin_kinds()[builtin_kinds().len() - 1 - j],
{
    let mut v: Vec<TypeKind> = Vec::new();
    v.push(TypeKind::Never);
    v.push(TypeKind::Unit);
    v.push(TypeKind::RawPtr);
    v.push(TypeKind::Path("void".to_owned()));
    v.push(TypeKind::Path("isize".to_owned()));
    v.push(TypeKind::Path("usize".to_owned()));
    v.push(TypeKind::Path("string".to_owned()));
    v.push(TypeKind::Path("char".to_owned()));
    v.push(TypeKind::Path("bool".to_owned()));
    v.push(TypeKind::Path("float64".to_owned()));
    v.push(TypeKind::Path("float32".to_owned()));
    v.push(TypeKind::Path("uint64".to_owned()));
    v.push(TypeKind::Path("uint32".to_owned()));
    v.push(TypeKind::Path("uint16".to_owned()));
    v.push(TypeKind::Path("uint8".to_owned()));
    v.push(TypeKind::Path("int64".to_owned()));
    v.push(TypeKind::Path("int32".to_owned()));
    v.push(TypeKind::Path("int16".to_owned()));
    v.push(TypeKind::Path("int8".to_owned()));
    v.push(TypeKind::Error);
    v
}

/// The position of `kind` in `arena`, if it is there.
fn find_in(arena: &Vec<TypeKind>, kind: &TypeKind) -> (r: Option<u32>)
    requires
        arena@.len() <= u32::MAX,
    ensures
        r matches Some(i) ==> (i as int) < arena@.len() && kinds_of(arena@)[i as int] == kind@,
        r is None ==> !kinds_of(arena@).contains(kind@),
{
    let mut i: usize = 0;
    while i < arena.len()
        invariant
            i <= arena@.len(),
            arena@.len() <= u32::MAX,
            forall|j: int| 0 <= j < i ==> kinds_of(arena@)[j] != kind@,
        decreases arena@.len() - i,
    {
        if kind_eq(&arena[i], kind) {
            return Some(i as u32);
        }
        i = i + 1;
    }
    None
}

/// Interns `kind` into a well-formed kind table.
fn intern_in(arena: &mut Vec<TypeKind>, kind: TypeKind) -> (i: u32)
    requires
        wf_kinds(kinds_of(old(arena)@)),
        old(arena)@.len() < u32::MAX,
        children_below(kind@, old(arena)@.len() as int),
    ensures
        wf_kinds(kinds_of(final(arena)@)),
        kinds_of(old(arena)@).contains(kind@) ==> kinds_of(final(arena)@) == kinds_of(old(arena)@)
            && (i as int) < old(arena)@.len() && kinds_of(old(arena)@)[i as int] == kind@,
        !kinds_of(old(arena)@).contains(kind@) ==> kinds_of(final(arena)@) == kinds_of(
            old(arena)@,
        ).push(kind@) && i == old(arena)@.len(),
        (i as int) < final(arena)@.len(),
        kinds_of(final(arena)@)[i as int] == kind@,
        kinds_of(final(arena)@).contains(kind@),
        final(arena)@.len() <= old(arena)@.len() + 1,
        kinds_of(final(arena)@).subrange(0, old(arena)@.len() as int) == kinds_of(old(arena)@),
        forall|k: KindView| kinds_of(old(arena)@).contains(k) ==> #[trigger] kinds_of(final(arena)@).contains(k),
        forall|j: int| 0 <= j < old(arena)@.len() ==> #[trigger] kinds_of(final(arena)@)[j] == kinds_of(old(arena)@)[j],
{
    match find_in(arena, &kind) {
        Some(i) => {
            assert(kinds_of(arena@).subrange(0, arena@.len() as int) =~= kinds_of(arena@));
            i
        },
        None => {
            let id = arena.len() as u32;
            let ghost before = arena@;
            let ghost ks = kind@;
            arena.push(kind);
            proof {
                assert(kinds_of(arena@) =~= kinds_of(before).push(ks));
                let s = kinds_of(arena@);
                assert forall|i: int| 0 <= i < s.len() implies children_below(#[trigger] s[i], i) by {
                    if i < before.len() {
                        assert(s[i] == kinds_of(before)[i]);
                    }
                }
                assert(s[id as int] == ks);
                assert(s.subrange(0, before.len() as int) =~= kinds_of(before));
                assert forall|k: KindView| kinds_of(before).contains(k) implies #[trigger] s.contains(k) by {
                    let j = choose|j: int| 0 <= j < kinds_of(before).len() && kinds_of(before)[j] == k;
                    assert(s[j] == kinds_of(before)[j]);
                }
            }
            id
        },
    }
}


impl TypeRef {
    /// The pointee of a reference or pointer type.
    pub fn inner_ref_ptr(self, interner: &TypeInterner) -> (r: Option<TypeRef>)
        requires
            interner.wf(),
            (self.0 as int) < interner@.len(),
        ensures
            r == (match interner@[self.0 as int] {
                KindView::Ref(t) | KindView::Ptr(t) => Some(t),
                _ => None,
            }),
    {
        match interner.lookup(self) {
            TypeKind::Ref(inner) | TypeKind::Ptr(inner) => Some(*inner),
            _ => None,
        }
    }

    /// The element type and length of an array type.
    pub fn as_array(self, interner: &TypeInterner) -> (r: Option<(TypeRef, u64)>)
        requires
            interner.wf(),
            (self.0 as int) < interner@.len(),
        ensures
            r == (match interner@[self.0 as int] {
                KindView::Array { elem, len } => Some((elem, len)),
                _ => None,
            }),
    {
        match interner.lookup(self) {
            TypeKind::Array { elem, len } => Some((*elem, *len)),
            _ => None,
        }
    }

    /// The parameter types and return type of a function-pointer type.
    pub fn as_fn(self, interner: &TypeInterner) -> (r: Option<(&[TypeRef], Option<TypeRef>)>)
        requires
            interner.wf(),
            (self.0 as int) < interner@.len(),
        ensures
            match interner@[self.0 as int] {
                KindView::Fn { params, ret, .. } => r matches Some((p, q)) && p@ == params && q
                    == ret,
                _ => r is None,
            },
    {
        match interner.lookup(self) {
            TypeKind::Fn { params, ret, .. } => Some((params.as_slice(), *ret)),
            _ => None,
        }
    }

    /// Whether this is the error sentinel.
    pub fn is_error(self, interner: &TypeInterner) -> (b: bool)
        requires
            interner.wf(),
            (self.0 as int) < interner@.len(),
        ensures
            b == (interner@[self.0 as int] == KindView::Error),
    {
        match interner.lookup(self) {
            TypeKind::Error => true,
            _ => false,
        }
    }
}


/// The source spelling of type `t` in kind table `kinds`.
pub open spec fn render(kinds: Seq<KindView>, t: TypeRef) -> Seq<char>
    decreases t.0 as int + 1, 0int,
{
    if (t.0 as int) >= kinds.len() {
        seq![]
    } else {
        match kinds[t.0 as int] {
            KindView::Path(n) => n,
            KindView::Ref(i) => seq!['&'] + if i.0 < t.0 {
                render(kinds, i)
            } else {
                seq![]
            },
            KindView::Ptr(i) => (if i.0 < t.0 {
                render(kinds, i)
            } else {
                seq![]
            }) + seq!['*'],
            KindView::RawPtr => seq!['p', 't', 'r'],
            KindView::Array { elem, len } => seq!['['] + (if elem.0 < t.0 {
                render(kinds, elem)
            } else {
                seq![]
            }) + seq![';', ' '] + decimal(len as nat) + seq![']'],
            KindView::Fn { params, ret, variadic } => seq!['('] + render_list(kinds, params, t.0)
                + (if variadic {
                (if params.len() > 0 {
                    seq![',', ' ']
                } else {
                    seq![]
                }) + seq!['.', '.', '.']
            } else {
                seq![]
            }) + seq![')'] + match ret {
                Some(r) => seq![' ', '-', '>', ' '] + if r.0 < t.0 {
                    render(kinds, r)
                } else {
                    seq![]
                },
                None => seq![],
            },
            KindView::Unit => seq!['(', ')'],
            KindView::Never => seq!['!'],
            KindView::Error => seq!['<', 'e', 'r', 'r', 'o', 'r', '>'],
        }
    }
}

/// The spellings of `ps` joined by `, ` (handles below `bound` only).
pub open spec fn render_list(kinds: Seq<KindView>, ps: Seq<TypeRef>, bound: u32) -> Seq<char>
    decreases bound as int, ps.len() as int,
{
    if ps.len() == 0 {
        seq![]
    } else {
        render_list(kinds, ps.drop_last(), bound) + (if ps.len() > 1 {
            seq![',', ' ']
        } else {
            seq![]
        }) + (if ps.last().0 < bound {
            render(kinds, ps.last())
        } else {
            seq![]
        })
    }
}

fn push_str_chars(out: &mut String, s: &str)
    ensures
        final(out)@ == old(out)@ + s@,
{
    out.append(s);
}

impl TypeInterner {
    /// Appends the spelling of `ty` to `out`.
    #[verifier::rlimit(100)]
    #[verifier::spinoff_prover]
    fn render_into(&self, out: &mut String, ty: TypeRef)
        requires
            self.wf(),
            (ty.0 as int) < self@.len(),
        ensures
            final(out)@ == old(out)@ + render(self@, ty),
        decreases ty.0,
    {
        proof {
            self.lemma_wf();
        }
        let ghost kinds = self@;
        assert(children_below(kinds[ty.0 as int], ty.0 as int));
        match self.lookup(ty) {
            TypeKind::Path(name) => {
                out.append(name.as_str());
            },
            TypeKind::Ref(inner) => {
                string_push(out, '&');
                self.render_into(out, *inner);
                assert(old(out)@.push('&') + render(kinds, *inner) =~= old(out)@ + (seq!['&']
                    + render(kinds, *inner)));
            },
            TypeKind::Ptr(inner) => {
                self.render_into(out, *inner);
                string_push(out, '*');
                assert((old(out)@ + render(kinds, *inner)).push('*') =~= old(out)@ + (render(
                    kinds,
                    *inner,
                ) + seq!['*']));
            },
            TypeKind::RawPtr => {
                string_push(out, 'p');
                string_push(out, 't');
                string_push(out, 'r');
                assert(old(out)@.push('p').push('t').push('r') =~= old(out)@ + seq!['p', 't', 'r']);
            },
            TypeKind::Array { elem, len } => {
                let ghost o = out@;
                string_push(out, '[');
                self.render_into(out, *elem);
                string_push(out, ';');
                string_push(out, ' ');
                push_decimal(out, *len as u128);
                string_push(out, ']');
                assert(out@ =~= o + (seq!['['] + render(kinds, *elem) + seq![';', ' '] + decimal(
                    *len as nat,
                ) + seq![']']));
            },
            TypeKind::Fn { params, ret, variadic } => {
                let ghost o = out@;
                string_push(out, '(');
                let mut i: usize = 0;
                while i < params.len()
                    invariant
                        self.wf(),
                        kinds == self@,
                        (ty.0 as int) < kinds.len(),
                        kinds[ty.0 as int] == (KindView::Fn {
                            params: params@,
                            ret: *ret,
                            variadic: *variadic,
                        }),
                        children_below(kinds[ty.0 as int], ty.0 as int),
                        i <= params@.len(),
                        out@ == o.push('(') + render_list(kinds, params@.take(i as int), ty.0),
                    decreases params@.len() - i,
                {
                    let p = params[i];
                    proof {
                        lemma_fn_children(params@, *ret, *variadic, ty.0 as int, i as int);
                    }
                    let ghost before = out@;
                    if i > 0 {
                        string_push(out, ',');
                        string_push(out, ' ');
                    }
                    self.render_into(out, p);
                    proof {
                        let t1 = params@.take(i + 1);
                        assert(t1.drop_last() =~= params@.take(i as int));
                        assert(t1.last() == p);
                        if i > 0 {
                            assert(out@ =~= before + seq![',', ' '] + render(kinds, p));
                        } else {
                            assert(out@ =~= before + render(kinds, p));
                        }
                    }
                    i = i + 1;
                }
                assert(params@.take(i as int) =~= params@);
                let ghost mid = out@;
                if *variadic {
                    if params.len() > 0 {
                        string_push(out, ',');
                        string_push(out, ' ');
                    }
                    string_push(out, '.');
                    string_push(out, '.');
                    string_push(out, '.');
                }
                string_push(out, ')');
                let ghost mid2 = out@;
                match ret {
                    Some(r) => {
                        string_push(out, ' ');
                        string_push(out, '-');
                        string_push(out, '>');
                        string_push(out, ' ');
                        self.render_into(out, *r);
                    },
                    None => {},
                }
                proof {
                    let vpart = if *variadic {
                        (if params@.len() > 0 {
                            seq![',', ' ']
                        } else {
                            seq![]
                        }) + seq!['.', '.', '.']
                    } else {
                        seq![]
                    };
                    assert(mid2 =~= mid + vpart + seq![')']);
                    let rpart = match *ret {
                        Some(r) => seq![' ', '-', '>', ' '] + render(kinds, r),
                        None => seq![],
                    };
                    assert(out@ =~= mid2 + rpart);
                    assert(out@ =~= o + (seq!['('] + render_list(kinds, params@, ty.0) + vpart
                        + seq![')'] + rpart));
                }
            },
            TypeKind::Unit => {
                string_push(out, '(');
                string_push(out, ')');
                assert(old(out)@.push('(').push(')') =~= old(out)@ + seq!['(', ')']);
            },
            TypeKind::Never => {
                string_push(out, '!');
                assert(old(out)@.push('!') =~= old(out)@ + seq!['!']);
            },
            TypeKind::Error => {
                push_str_chars(out, "<error>");
                proof {
                    reveal_strlit("<error>");
                }
                assert("<error>"@ =~= seq!['<', 'e', 'r', 'r', 'o', 'r', '>']);
            },
        }
    }

    /// The source spelling of `ty` (`&T`, `T*`, `[T; N]`, `(A, B) -> R`, ...).
    pub fn display(&self, ty: TypeRef) -> (s: String)
        requires
            self.wf(),
            (ty.0 as int) < self@.len(),
        ensures
            s@ == render(self@, ty),
    {
        let mut s = String::new();
        self.render_into(&mut s, ty);
        assert(Seq::<char>::empty() + render(self@, ty) =~= render(self@, ty));
        s
    }
}

} // verus!
