//! The type-declaration dependency graph: which type definitions must be
//! emitted before which (a value embedding is a hard edge, a pointer or
//! reference is not), a dependency order of the definitions, and the
//! value-dependency cycles (strongly connected components).

use vstd::prelude::*;

use crate::graph::{adj_view, edge, graph_ok, lemma_n_unset_set, n_unset, reach_matrix, reaches};
use crate::text::str_eq;
use crate::types::{children_below, lemma_fn_children, KindView, TypeInterner, TypeKind, TypeRef};

verus! {

broadcast use vstd::string::group_string_axioms;

/// A node of the graph: a struct or union by name, an array value wrapper,
/// or a function-pointer typedef.
#[derive(Debug, Clone, PartialEq, Eq, Hash)]
pub enum TypeNode {
    Nominal(String),
    Array { elem: TypeRef, len: u64 },
    Fn { params: Vec<TypeRef>, ret: Option<TypeRef>, variadic: bool },
}

/// A [`TypeNode`] as a mathematical value.
pub enum NodeView {
    Nominal(Seq<char>),
    Array { elem: TypeRef, len: u64 },
    Fn { params: Seq<TypeRef>, ret: Option<TypeRef>, variadic: bool },
}

impl View for TypeNode {
    type V = NodeView;

    open spec fn view(&self) -> NodeView {
        match self {
            TypeNode::Nominal(n) => NodeView::Nominal(n@),
            TypeNode::Array { elem, len } => NodeView::Array { elem: *elem, len: *len },
            TypeNode::Fn { params, ret, variadic } => NodeView::Fn {
                params: params@,
                ret: *ret,
                variadic: *variadic,
            },
        }
    }
}

/// The nodes of `v`, as values.
pub open spec fn nodes_of(v: Seq<TypeNode>) -> Seq<NodeView> {
    v.map_values(|n: TypeNode| n@)
}

/// Whether two nodes are equal.
#[verifier::loop_isolation(false)]
pub fn node_eq(a: &TypeNode, b: &TypeNode) -> (r: bool)
    ensures
        r == (a@ == b@),
{
    match (a, b) {
        (TypeNode::Nominal(x), TypeNode::Nominal(y)) => str_eq(x.as_str(), y.as_str()),
        (TypeNode::Array { elem: e1, len: l1 }, TypeNode::Array { elem: e2, len: l2 }) => e1.0
            == e2.0 && *l1 == *l2,
        (
            TypeNode::Fn { params: p1, ret: r1, variadic: v1 },
            TypeNode::Fn { params: p2, ret: r2, variadic: v2 },
        ) => {
            if *v1 != *v2 {
                return false;
            }
            let same_ret = match (r1, r2) {
                (Some(x), Some(y)) => x.0 == y.0,
                (None, None) => true,
                _ => false,
            };
            if !same_ret || p1.len() != p2.len() {
                return false;
            }
            let mut i: usize = 0;
            while i < p1.len()
                invariant
                    p1@.len() == p2@.len(),
                    i <= p1@.len(),
                    forall|j: int| 0 <= j < i ==> p1@[j] == p2@[j],
                decreases p1@.len() - i,
            {
                if p1[i].0 != p2[i].0 {
                    return false;
                }
                i = i + 1;
            }
            assert(p1@ =~= p2@);
            true
        },
        _ => false,
    }
}

/// A struct or union declaration: its name and its field types in order.
pub struct Nominal {
    pub name: String,
    pub field_types: Vec<TypeRef>,
}

/// What the graph is built from: the struct and union declarations in
/// declaration order, and every declared type of the program (field,
/// constant, global, parameter and return, local, `let`, cast, literal and
/// `sizeof` types) in walk order.
pub struct TypeDecls {
    pub structs: Vec<Nominal>,
    pub unions: Vec<Nominal>,
    pub declared: Vec<TypeRef>,
}

/// A nominal declaration as a value: its name and field types.
pub type NominalView = (Seq<char>, Seq<TypeRef>);

pub open spec fn nominals_of(v: Seq<Nominal>) -> Seq<NominalView> {
    v.map_values(|n: Nominal| (n.name@, n.field_types@))
}

/// Whether some declaration in `ds` is named `n`.
pub open spec fn declares(ds: Seq<NominalView>, n: Seq<char>) -> bool {
    exists|i: int| 0 <= i < ds.len() && (#[trigger] ds[i]).0 == n
}

/// The field types of the last declaration in `ds` named `n` (later
/// declarations of a name replace earlier ones).
pub open spec fn last_fields(ds: Seq<NominalView>, n: Seq<char>) -> Option<Seq<TypeRef>>
    decreases ds.len(),
{
    if ds.len() == 0 {
        None
    } else if ds.last().0 == n {
        Some(ds.last().1)
    } else {
        last_fields(ds.drop_last(), n)
    }
}

/// The declarations as values.
pub struct DeclsView {
    pub structs: Seq<NominalView>,
    pub unions: Seq<NominalView>,
    pub declared: Seq<TypeRef>,
}

impl View for TypeDecls {
    type V = DeclsView;

    open spec fn view(&self) -> DeclsView {
        DeclsView {
            structs: nominals_of(self.structs@),
            unions: nominals_of(self.unions@),
            declared: self.declared@,
        }
    }
}

/// `n` names a struct or union.
pub open spec fn is_nominal(d: DeclsView, n: Seq<char>) -> bool {
    declares(d.structs, n) || declares(d.unions, n)
}

/// The field types of the struct named `n`, else of the union named `n`.
pub open spec fn nominal_field_types(d: DeclsView, n: Seq<char>) -> Seq<TypeRef> {
    match last_fields(d.structs, n) {
        Some(f) => f,
        None => match last_fields(d.unions, n) {
            Some(f) => f,
            None => seq![],
        },
    }
}

/// The nodes whose definitions must precede a definition that embeds `t`
/// (`under`: `t` is reached through a pointer or reference), in pre-order.
pub open spec fn hard_deps_of(kinds: Seq<KindView>, d: DeclsView, t: TypeRef, under: bool) -> Seq<NodeView>
    decreases t.0 as int + 1, 0int,
{
    if (t.0 as int) >= kinds.len() {
        seq![]
    } else {
        match kinds[t.0 as int] {
            KindView::Ref(i) => if i.0 < t.0 {
                hard_deps_of(kinds, d, i, true)
            } else {
                seq![]
            },
            KindView::Ptr(i) => if i.0 < t.0 {
                hard_deps_of(kinds, d, i, true)
            } else {
                seq![]
            },
            KindView::Path(n) => if !under && is_nominal(d, n) {
                seq![NodeView::Nominal(n)]
            } else {
                seq![]
            },
            KindView::Array { elem, len } => (if !under {
                seq![NodeView::Array { elem, len }]
            } else {
                seq![]
            }) + if elem.0 < t.0 {
                hard_deps_of(kinds, d, elem, under)
            } else {
                seq![]
            },
            KindView::Fn { params, ret, variadic } => seq![NodeView::Fn { params, ret, variadic }]
                + hard_deps_list(kinds, d, params, under, t.0) + match ret {
                Some(r) => if r.0 < t.0 {
                    hard_deps_of(kinds, d, r, under)
                } else {
                    seq![]
                },
                None => seq![],
            },
            _ => seq![],
        }
    }
}

/// [`hard_deps_of`] of each handle of `ps` below `bound`, concatenated.
pub open spec fn hard_deps_list(
    kinds: Seq<KindView>,
    d: DeclsView,
    ps: Seq<TypeRef>,
    under: bool,
    bound: u32,
) -> Seq<NodeView>
    decreases bound as int, ps.len() as int,
{
    if ps.len() == 0 {
        seq![]
    } else {
        hard_deps_list(kinds, d, ps.drop_last(), under, bound) + if ps.last().0 < bound {
            hard_deps_of(kinds, d, ps.last(), under)
        } else {
            seq![]
        }
    }
}

/// The array wrappers and function-pointer typedefs inside `t`, innermost
/// first (post-order), repeats included.
pub open spec fn wrappers_of(kinds: Seq<KindView>, t: TypeRef) -> Seq<NodeView>
    decreases t.0 as int + 1, 0int,
{
    if (t.0 as int) >= kinds.len() {
        seq![]
    } else {
        match kinds[t.0 as int] {
            KindView::Ref(i) => if i.0 < t.0 {
                wrappers_of(kinds, i)
            } else {
                seq![]
            },
            KindView::Ptr(i) => if i.0 < t.0 {
                wrappers_of(kinds, i)
            } else {
                seq![]
            },
            KindView::Array { elem, len } => (if elem.0 < t.0 {
                wrappers_of(kinds, elem)
            } else {
                seq![]
            }).push(NodeView::Array { elem, len }),
            KindView::Fn { params, ret, variadic } => (wrappers_list(kinds, params, t.0) + match ret {
                Some(r) => if r.0 < t.0 {
                    wrappers_of(kinds, r)
                } else {
                    seq![]
                },
                None => seq![],
            }).push(NodeView::Fn { params, ret, variadic }),
            _ => seq![],
        }
    }
}

/// [`wrappers_of`] of each handle of `ps` below `bound`, concatenated.
pub open spec fn wrappers_list(kinds: Seq<KindView>, ps: Seq<TypeRef>, bound: u32) -> Seq<NodeView>
    decreases bound as int, ps.len() as int,
{
    if ps.len() == 0 {
        seq![]
    } else {
        wrappers_list(kinds, ps.drop_last(), bound) + if ps.last().0 < bound {
            wrappers_of(kinds, ps.last())
        } else {
            seq![]
        }
    }
}

/// [`wrappers_of`] of each handle of `ts`, concatenated.
pub open spec fn all_wrappers(kinds: Seq<KindView>, ts: Seq<TypeRef>) -> Seq<NodeView>
    decreases ts.len(),
{
    if ts.len() == 0 {
        seq![]
    } else {
        all_wrappers(kinds, ts.drop_last()) + wrappers_of(kinds, ts.last())
    }
}

/// `acc` followed by the items of `s` that are not already there, each
/// kept at its first occurrence.
pub open spec fn add_new(acc: Seq<NodeView>, s: Seq<NodeView>) -> Seq<NodeView>
    decreases s.len(),
{
    if s.len() == 0 {
        acc
    } else {
        push_new(add_new(acc, s.drop_last()), s.last())
    }
}

/// `acc` with `x` appended unless it already holds `x`.
pub open spec fn push_new(acc: Seq<NodeView>, x: NodeView) -> Seq<NodeView> {
    if acc.contains(x) {
        acc
    } else {
        acc.push(x)
    }
}

/// Adding the items of `a + b` is adding those of `a`, then those of `b`.
pub proof fn lemma_add_new_concat(acc: Seq<NodeView>, a: Seq<NodeView>, b: Seq<NodeView>)
    ensures
        add_new(acc, a + b) == add_new(add_new(acc, a), b),
    decreases b.len(),
{
    if b.len() == 0 {
        assert(a + b =~= a);
    } else {
        assert((a + b).drop_last() =~= a + b.drop_last());
        lemma_add_new_concat(acc, a, b.drop_last());
    }
}

/// Adding keeps what was there, holds each item once if `acc` did, and
/// holds exactly the items of `acc` and of `s`.
pub proof fn lemma_add_new_props(acc: Seq<NodeView>, s: Seq<NodeView>)
    ensures
        add_new(acc, s).len() >= acc.len(),
        add_new(acc, s).subrange(0, acc.len() as int) == acc,
        acc.no_duplicates() ==> add_new(acc, s).no_duplicates(),
        forall|x: NodeView| #[trigger] add_new(acc, s).contains(x) <==> (acc.contains(x) || s.contains(x)),
    decreases s.len(),
{
    if s.len() == 0 {
        assert(acc.subrange(0, acc.len() as int) =~= acc);
    } else {
        let p = add_new(acc, s.drop_last());
        lemma_add_new_props(acc, s.drop_last());
        let x = s.last();
        if !p.contains(x) {
            assert(p.push(x).subrange(0, acc.len() as int) =~= p.subrange(0, acc.len() as int));
            assert forall|y: NodeView| #[trigger] p.push(x).contains(y) <==> (p.contains(y) || y == x) by {
                if p.push(x).contains(y) {
                    let j = choose|j: int| 0 <= j < p.push(x).len() && p.push(x)[j] == y;
                    if j < p.len() {
                        assert(p[j] == y);
                    }
                }
                if p.contains(y) {
                    let j = choose|j: int| 0 <= j < p.len() && p[j] == y;
                    assert(p.push(x)[j] == y);
                }
                if y == x {
                    assert(p.push(x)[p.len() as int] == y);
                }
            }
        }
        assert forall|y: NodeView| #[trigger] s.contains(y) <==> (s.drop_last().contains(y) || y == x) by {
            if s.contains(y) {
                let j = choose|j: int| 0 <= j < s.len() && s[j] == y;
                if j < s.len() - 1 {
                    assert(s.drop_last()[j] == y);
                }
            }
            if s.drop_last().contains(y) {
                let j = choose|j: int| 0 <= j < s.drop_last().len() && s.drop_last()[j] == y;
                assert(s[j] == y);
            }
            if y == x {
                assert(s[s.len() - 1] == y);
            }
        }
    }
}

/// A copy of `n`.
pub fn node_copy(n: &TypeNode) -> (r: TypeNode)
    ensures
        r@ == n@,
{
    match n {
        TypeNode::Nominal(name) => TypeNode::Nominal(name.clone()),
        TypeNode::Array { elem, len } => TypeNode::Array { elem: *elem, len: *len },
        TypeNode::Fn { params, ret, variadic } => TypeNode::Fn {
            params: copy_refs(params),
            ret: *ret,
            variadic: *variadic,
        },
    }
}

/// A copy of a list of handles.
pub fn copy_refs(v: &Vec<TypeRef>) -> (r: Vec<TypeRef>)
    ensures
        r@ == v@,
{
    let mut r: Vec<TypeRef> = Vec::new();
    let mut i: usize = 0;
    while i < v.len()
        invariant
            i <= v@.len(),
            r@ == v@.subrange(0, i as int),
        decreases v@.len() - i,
    {
        r.push(v[i]);
        i = i + 1;
        assert(r@ =~= v@.subrange(0, i as int));
    }
    assert(v@.subrange(0, v@.len() as int) =~= v@);
    r
}

/// The position of `n` in `v`, if it occurs there (its first occurrence).
pub fn find_node(v: &Vec<TypeNode>, n: &TypeNode) -> (r: Option<usize>)
    ensures
        r matches Some(i) ==> (i as int) < v@.len() && nodes_of(v@)[i as int] == n@ && forall|j: int|
            0 <= j < i ==> nodes_of(v@)[j] != n@,
        r is None ==> !nodes_of(v@).contains(n@),
{
    let mut i: usize = 0;
    while i < v.len()
        invariant
            i <= v@.len(),
            forall|j: int| 0 <= j < i ==> nodes_of(v@)[j] != n@,
        decreases v@.len() - i,
    {
        if node_eq(&v[i], n) {
            return Some(i);
        }
        i = i + 1;
    }
    None
}

/// Appends `n` to `out` unless an equal node is already there.
fn push_new_node(out: &mut Vec<TypeNode>, n: TypeNode)
    ensures
        nodes_of(final(out)@) == push_new(nodes_of(old(out)@), n@),
{
    match find_node(out, &n) {
        Some(_) => {},
        None => {
            out.push(n);
            assert(nodes_of(out@) =~= nodes_of(old(out)@).push(n@));
        },
    }
}

/// Appends to `out` every array wrapper and function-pointer typedef inside
/// `t` that is not already there, innermost first.
#[verifier::spinoff_prover]
pub fn collect_wrapper_nodes(t: TypeRef, types: &TypeInterner, out: &mut Vec<TypeNode>)
    requires
        types.wf(),
    ensures
        nodes_of(final(out)@) == add_new(nodes_of(old(out)@), wrappers_of(types@, t)),
    decreases t.0,
{
    if t.0 as usize >= types.len() {
        return;
    }
    proof {
        types.lemma_wf();
        assert(children_below(types@[t.0 as int], t.0 as int));
    }
    let ghost kinds = types@;
    let ghost start = nodes_of(out@);
    match types.lookup(t) {
        TypeKind::Ref(i) => {
            collect_wrapper_nodes(*i, types, out);
        },
        TypeKind::Ptr(i) => {
            collect_wrapper_nodes(*i, types, out);
        },
        TypeKind::Array { elem, len } => {
            collect_wrapper_nodes(*elem, types, out);
            push_new_node(out, TypeNode::Array { elem: *elem, len: *len });
            proof {
                let w = wrappers_of(kinds, *elem);
                assert(w.push(NodeView::Array { elem: *elem, len: *len }).drop_last() =~= w);
            }
        },
        TypeKind::Fn { params, ret, variadic } => {
            let mut k: usize = 0;
            while k < params.len()
                invariant
                    types.wf(),
                    kinds == types@,
                    (t.0 as int) < kinds.len(),
                    kinds[t.0 as int] == (KindView::Fn { params: params@, ret: *ret, variadic: *variadic }),
                    children_below(kinds[t.0 as int], t.0 as int),
                    k <= params@.len(),
                    nodes_of(out@) == add_new(start, wrappers_list(kinds, params@.take(k as int), t.0)),
                decreases params@.len() - k,
            {
                proof {
                    lemma_fn_children(params@, *ret, *variadic, t.0 as int, k as int);
                }
                let ghost before = nodes_of(out@);
                collect_wrapper_nodes(params[k], types, out);
                proof {
                    let pk = params@.take(k as int + 1);
                    assert(pk.drop_last() =~= params@.take(k as int));
                    assert(pk.last() == params@[k as int]);
                    lemma_add_new_concat(
                        start,
                        wrappers_list(kinds, params@.take(k as int), t.0),
                        wrappers_of(kinds, params@[k as int]),
                    );
                }
                k = k + 1;
            }
            assert(params@.take(params@.len() as int) =~= params@);
            let ghost mid = nodes_of(out@);
            match ret {
                Some(r) => {
                    collect_wrapper_nodes(*r, types, out);
                },
                None => {},
            }
            proof {
                let tail = match *ret {
                    Some(r) => if r.0 < t.0 {
                        wrappers_of(kinds, r)
                    } else {
                        seq![]
                    },
                    None => seq![],
                };
                if ret.is_none() {
                    assert(add_new(mid, tail) =~= mid);
                }
                lemma_add_new_concat(start, wrappers_list(kinds, params@, t.0), tail);
            }
            push_new_node(out, TypeNode::Fn { params: copy_refs(params), ret: *ret, variadic: *variadic });
            proof {
                let tail = match *ret {
                    Some(r) => if r.0 < t.0 {
                        wrappers_of(kinds, r)
                    } else {
                        seq![]
                    },
                    None => seq![],
                };
                let w = wrappers_list(kinds, params@, t.0) + tail;
                assert(w.push(NodeView::Fn { params: params@, ret: *ret, variadic: *variadic }).drop_last() =~= w);
            }
        },
        _ => {},
    }
}

/// The field types of the last declaration in `ds` named `name`.
fn find_last_fields<'a>(ds: &'a Vec<Nominal>, name: &str) -> (r: Option<&'a Vec<TypeRef>>)
    ensures
        match r {
            Some(f) => last_fields(nominals_of(ds@), name@) == Some(f@),
            None => last_fields(nominals_of(ds@), name@) is None,
        },
        last_fields(nominals_of(ds@), name@) is None <==> !declares(nominals_of(ds@), name@),
{
    let ghost v = nominals_of(ds@);
    let mut found: Option<&'a Vec<TypeRef>> = None;
    let mut i: usize = 0;
    while i < ds.len()
        invariant
            v == nominals_of(ds@),
            i <= ds@.len(),
            match found {
                Some(f) => last_fields(v.take(i as int), name@) == Some(f@),
                None => last_fields(v.take(i as int), name@) is None,
            },
            last_fields(v.take(i as int), name@) is None <==> !declares(v.take(i as int), name@),
        decreases ds@.len() - i,
    {
        let d = &ds[i];
        proof {
            let t = v.take(i as int + 1);
            assert(t.drop_last() =~= v.take(i as int));
            assert(t.last() == (d.name@, d.field_types@));
            if declares(t, name@) {
                let j = choose|j: int| 0 <= j < t.len() && (#[trigger] t[j]).0 == name@;
                if j < i {
                    assert(v.take(i as int)[j] == t[j]);
                }
            }
            if declares(v.take(i as int), name@) {
                let j = choose|j: int| 0 <= j < i && (#[trigger] v.take(i as int)[j]).0 == name@;
                assert(t[j] == v.take(i as int)[j]);
            }
        }
        if str_eq(d.name.as_str(), name) {
            found = Some(&d.field_types);
        }
        i = i + 1;
    }
    assert(v.take(ds@.len() as int) =~= v);
    found
}

/// Whether `name` names a struct or union.
pub fn is_nominal_name(decls: &TypeDecls, name: &str) -> (r: bool)
    ensures
        r == is_nominal(decls@, name@),
{
    let a = find_last_fields(&decls.structs, name);
    let b = find_last_fields(&decls.unions, name);
    a.is_some() || b.is_some()
}

/// The field types of the struct named `name`, else of the union named
/// `name`, else none.
pub fn nominal_fields(decls: &TypeDecls, name: &str) -> (r: Vec<TypeRef>)
    ensures
        r@ == nominal_field_types(decls@, name@),
{
    match find_last_fields(&decls.structs, name) {
        Some(f) => copy_refs(f),
        None => match find_last_fields(&decls.unions, name) {
            Some(f) => copy_refs(f),
            None => Vec::new(),
        },
    }
}

/// Appends to `out` the nodes that a definition embedding `t` depends on
/// ([`hard_deps_of`]; `under`: `t` is reached through a pointer).
#[verifier::spinoff_prover]
fn walk_deps(decls: &TypeDecls, types: &TypeInterner, t: TypeRef, under: bool, out: &mut Vec<TypeNode>)
    requires
        types.wf(),
    ensures
        nodes_of(final(out)@) == nodes_of(old(out)@) + hard_deps_of(types@, decls@, t, under),
    decreases t.0,
{
    if t.0 as usize >= types.len() {
        assert(nodes_of(out@) =~= nodes_of(old(out)@) + seq![]);
        return;
    }
    proof {
        types.lemma_wf();
        assert(children_below(types@[t.0 as int], t.0 as int));
    }
    let ghost kinds = types@;
    let ghost start = nodes_of(out@);
    match types.lookup(t) {
        TypeKind::Ref(i) => {
            walk_deps(decls, types, *i, true, out);
        },
        TypeKind::Ptr(i) => {
            walk_deps(decls, types, *i, true, out);
        },
        TypeKind::Path(name) => {
            if !under && is_nominal_name(decls, name.as_str()) {
                out.push(TypeNode::Nominal(name.clone()));
                assert(nodes_of(out@) =~= start + seq![NodeView::Nominal(name@)]);
            } else {
                assert(nodes_of(out@) =~= start + seq![]);
            }
        },
        TypeKind::Array { elem, len } => {
            let ghost head: Seq<NodeView> = if !under {
                seq![NodeView::Array { elem: *elem, len: *len }]
            } else {
                seq![]
            };
            if !under {
                out.push(TypeNode::Array { elem: *elem, len: *len });
            }
            assert(nodes_of(out@) =~= start + head);
            walk_deps(decls, types, *elem, under, out);
            assert(start + head + hard_deps_of(kinds, decls@, *elem, under) =~= start + (head
                + hard_deps_of(kinds, decls@, *elem, under)));
        },
        TypeKind::Fn { params, ret, variadic } => {
            out.push(TypeNode::Fn { params: copy_refs(params), ret: *ret, variadic: *variadic });
            let ghost head = seq![NodeView::Fn { params: params@, ret: *ret, variadic: *variadic }];
            assert(nodes_of(out@) =~= start + head);
            let mut k: usize = 0;
            while k < params.len()
                invariant
                    types.wf(),
                    kinds == types@,
                    (t.0 as int) < kinds.len(),
                    kinds[t.0 as int] == (KindView::Fn { params: params@, ret: *ret, variadic: *variadic }),
                    children_below(kinds[t.0 as int], t.0 as int),
                    k <= params@.len(),
                    nodes_of(out@) == start + head + hard_deps_list(kinds, decls@, params@.take(k as int), under, t.0),
                decreases params@.len() - k,
            {
                proof {
                    lemma_fn_children(params@, *ret, *variadic, t.0 as int, k as int);
                }
                let ghost before = nodes_of(out@);
                walk_deps(decls, types, params[k], under, out);
                proof {
                    let pk = params@.take(k as int + 1);
                    assert(pk.drop_last() =~= params@.take(k as int));
                    assert(pk.last() == params@[k as int]);
                    assert(start + head + hard_deps_list(kinds, decls@, pk, under, t.0) =~= before
                        + hard_deps_of(kinds, decls@, params@[k as int], under));
                }
                k = k + 1;
            }
            assert(params@.take(params@.len() as int) =~= params@);
            let ghost mid = nodes_of(out@);
            match ret {
                Some(r) => {
                    walk_deps(decls, types, *r, under, out);
                },
                None => {},
            }
            proof {
                let tail = match *ret {
                    Some(r) => if r.0 < t.0 {
                        hard_deps_of(kinds, decls@, r, under)
                    } else {
                        seq![]
                    },
                    None => seq![],
                };
                assert(nodes_of(out@) =~= mid + tail);
                assert(start + (head + hard_deps_list(kinds, decls@, params@, under, t.0) + tail) =~= mid
                    + tail);
            }
        },
        _ => {
            assert(nodes_of(out@) =~= start + seq![]);
        },
    }
}

/// Appends to `out` the nodes whose definitions must precede a definition
/// that embeds `ty` by value.
pub fn hard_deps(decls: &TypeDecls, types: &TypeInterner, ty: TypeRef, out: &mut Vec<TypeNode>)
    requires
        types.wf(),
    ensures
        nodes_of(final(out)@) == nodes_of(old(out)@) + hard_deps_of(types@, decls@, ty, false),
{
    walk_deps(decls, types, ty, false, out);
}

/// Like [`hard_deps`], with `ty` taken as reached through a pointer.
fn soft_deps(decls: &TypeDecls, types: &TypeInterner, ty: TypeRef, out: &mut Vec<TypeNode>)
    requires
        types.wf(),
    ensures
        nodes_of(final(out)@) == nodes_of(old(out)@) + hard_deps_of(types@, decls@, ty, true),
{
    walk_deps(decls, types, ty, true, out);
}

/// [`hard_deps_of`] of each handle of `ts`, concatenated.
pub open spec fn deps_all(kinds: Seq<KindView>, d: DeclsView, ts: Seq<TypeRef>, under: bool) -> Seq<NodeView>
    decreases ts.len(),
{
    if ts.len() == 0 {
        seq![]
    } else {
        deps_all(kinds, d, ts.drop_last(), under) + hard_deps_of(kinds, d, ts.last(), under)
    }
}

/// The nodes a node's own definition depends on: a nominal's fields (each
/// embedded by value), an array wrapper's element (embedded by value), or a
/// function-pointer typedef's parameter and return types (each as if behind
/// a pointer: a forward declaration suffices).
pub open spec fn node_deps_of(kinds: Seq<KindView>, d: DeclsView, n: NodeView) -> Seq<NodeView> {
    match n {
        NodeView::Nominal(name) => deps_all(kinds, d, nominal_field_types(d, name), false),
        NodeView::Array { elem, .. } => hard_deps_of(kinds, d, elem, false),
        NodeView::Fn { params, ret, .. } => deps_all(kinds, d, params, true) + match ret {
            Some(r) => hard_deps_of(kinds, d, r, true),
            None => seq![],
        },
    }
}

/// Appends [`hard_deps_of`] (or, with `under`, the soft form) of each handle
/// of `ts` to `out`.
fn deps_of_list(decls: &TypeDecls, types: &TypeInterner, ts: &Vec<TypeRef>, under: bool, out: &mut Vec<TypeNode>)
    requires
        types.wf(),
    ensures
        nodes_of(final(out)@) == nodes_of(old(out)@) + deps_all(types@, decls@, ts@, under),
{
    let ghost start = nodes_of(out@);
    let mut k: usize = 0;
    while k < ts.len()
        invariant
            types.wf(),
            k <= ts@.len(),
            nodes_of(out@) == start + deps_all(types@, decls@, ts@.take(k as int), under),
        decreases ts@.len() - k,
    {
        let ghost before = nodes_of(out@);
        walk_deps(decls, types, ts[k], under, out);
        proof {
            let tk = ts@.take(k as int + 1);
            assert(tk.drop_last() =~= ts@.take(k as int));
            assert(start + deps_all(types@, decls@, tk, under) =~= before + hard_deps_of(
                types@,
                decls@,
                ts@[k as int],
                under,
            ));
        }
        k = k + 1;
    }
    assert(ts@.take(ts@.len() as int) =~= ts@);
}

/// Appends to `out` the nodes that `node`'s own definition depends on.
fn node_deps(decls: &TypeDecls, types: &TypeInterner, node: &TypeNode, out: &mut Vec<TypeNode>)
    requires
        types.wf(),
    ensures
        nodes_of(final(out)@) == nodes_of(old(out)@) + node_deps_of(types@, decls@, node@),
{
    match node {
        TypeNode::Nominal(name) => {
            let fields = nominal_fields(decls, name.as_str());
            deps_of_list(decls, types, &fields, false, out);
        },
        TypeNode::Array { elem, .. } => {
            hard_deps(decls, types, *elem, out);
        },
        TypeNode::Fn { params, ret, .. } => {
            let ghost start = nodes_of(out@);
            deps_of_list(decls, types, params, true, out);
            let ghost mid = nodes_of(out@);
            match ret {
                Some(r) => soft_deps(decls, types, *r, out),
                None => {},
            }
            proof {
                let tail = match *ret {
                    Some(r) => hard_deps_of(types@, decls@, r, true),
                    None => seq![],
                };
                assert(nodes_of(out@) =~= mid + tail);
                assert(start + (deps_all(types@, decls@, params@, true) + tail) =~= mid + tail);
            }
        },
    }
}

/// The nominal nodes of some declarations, in order.
pub open spec fn nominal_nodes(ds: Seq<NominalView>) -> Seq<NodeView> {
    ds.map_values(|x: NominalView| NodeView::Nominal(x.0))
}

/// Every node of the graph, each once, in a fixed order: structs and unions
/// in declaration order, then the array wrappers and function-pointer
/// typedefs of the declared types in walk order, innermost first.
pub open spec fn type_nodes(kinds: Seq<KindView>, d: DeclsView) -> Seq<NodeView> {
    add_new(add_new(seq![], nominal_nodes(d.structs + d.unions)), all_wrappers(kinds, d.declared))
}

/// Appends the wrappers of each handle of `ts` not already in `out`.
fn collect_wrappers_all(ts: &Vec<TypeRef>, types: &TypeInterner, out: &mut Vec<TypeNode>)
    requires
        types.wf(),
    ensures
        nodes_of(final(out)@) == add_new(nodes_of(old(out)@), all_wrappers(types@, ts@)),
{
    let ghost start = nodes_of(out@);
    let mut k: usize = 0;
    while k < ts.len()
        invariant
            types.wf(),
            k <= ts@.len(),
            nodes_of(out@) == add_new(start, all_wrappers(types@, ts@.take(k as int))),
        decreases ts@.len() - k,
    {
        collect_wrapper_nodes(ts[k], types, out);
        proof {
            let tk = ts@.take(k as int + 1);
            assert(tk.drop_last() =~= ts@.take(k as int));
            lemma_add_new_concat(start, all_wrappers(types@, ts@.take(k as int)), wrappers_of(types@, ts@[k as int]));
        }
        k = k + 1;
    }
    assert(ts@.take(ts@.len() as int) =~= ts@);
}

/// Appends the nominal node of each declaration not already in `out`.
fn collect_nominals(ds: &Vec<Nominal>, out: &mut Vec<TypeNode>)
    ensures
        nodes_of(final(out)@) == add_new(nodes_of(old(out)@), nominal_nodes(nominals_of(ds@))),
{
    let ghost start = nodes_of(out@);
    let ghost v = nominals_of(ds@);
    let mut k: usize = 0;
    while k < ds.len()
        invariant
            v == nominals_of(ds@),
            k <= ds@.len(),
            nodes_of(out@) == add_new(start, nominal_nodes(v.take(k as int))),
        decreases ds@.len() - k,
    {
        push_new_node(out, TypeNode::Nominal(ds[k].name.clone()));
        proof {
            let tk = v.take(k as int + 1);
            assert(nominal_nodes(tk).drop_last() =~= nominal_nodes(v.take(k as int)));
            assert(nominal_nodes(tk).last() == NodeView::Nominal(ds@[k as int].name@));
        }
        k = k + 1;
    }
    assert(v.take(ds@.len() as int) =~= v);
}

/// Every node of the graph, each once: structs and unions in declaration
/// order, then every distinct array wrapper and function-pointer typedef of
/// the declared types, innermost first.
pub fn collect_type_nodes(decls: &TypeDecls, types: &TypeInterner) -> (r: Vec<TypeNode>)
    requires
        types.wf(),
    ensures
        nodes_of(r@) == type_nodes(types@, decls@),
        nodes_of(r@).no_duplicates(),
{
    let mut nodes: Vec<TypeNode> = Vec::new();
    collect_nominals(&decls.structs, &mut nodes);
    collect_nominals(&decls.unions, &mut nodes);
    proof {
        let s = nominal_nodes(decls@.structs);
        let u = nominal_nodes(decls@.unions);
        assert(nominal_nodes(decls@.structs + decls@.unions) =~= s + u);
        assert(nodes_of(Seq::<TypeNode>::empty()) =~= Seq::<NodeView>::empty());
        lemma_add_new_concat(seq![], s, u);
    }
    let ghost base = nodes_of(nodes@);
    collect_wrappers_all(&decls.declared, types, &mut nodes);
    proof {
        lemma_add_new_props(seq![], nominal_nodes(decls@.structs + decls@.unions));
        lemma_add_new_props(base, all_wrappers(types@, decls@.declared));
    }
    nodes
}

/// Node `j`'s definition must precede node `i`'s: `i` depends on `j`.
pub open spec fn dep_edge(kinds: Seq<KindView>, d: DeclsView, nodes: Seq<NodeView>, i: int, j: int) -> bool {
    &&& 0 <= i < nodes.len()
    &&& 0 <= j < nodes.len()
    &&& node_deps_of(kinds, d, nodes[i]).contains(nodes[j])
}

/// `adj` is the dependency graph over `nodes`, each successor listed once
/// (`self_loops`: a node's dependency on itself is kept).
pub open spec fn is_dep_graph(
    adj: Seq<Seq<usize>>,
    kinds: Seq<KindView>,
    d: DeclsView,
    nodes: Seq<NodeView>,
    self_loops: bool,
) -> bool {
    &&& adj.len() == nodes.len()
    &&& graph_ok(adj)
    &&& forall|i: int| 0 <= i < adj.len() ==> (#[trigger] adj[i]).no_duplicates()
    &&& forall|i: int, j: int| #[trigger]
        edge(adj, i, j) <==> (dep_edge(kinds, d, nodes, i, j) && (self_loops || i != j))
}

/// Whether `v` holds `x`.
fn contains_index(v: &Vec<usize>, x: usize) -> (r: bool)
    ensures
        r == v@.contains(x),
{
    let mut i: usize = 0;
    while i < v.len()
        invariant
            i <= v@.len(),
            forall|j: int| 0 <= j < i ==> v@[j] != x,
        decreases v@.len() - i,
    {
        if v[i] == x {
            return true;
        }
        i = i + 1;
    }
    false
}

/// The dependency graph over `nodes`: for each node, the positions of the
/// nodes it depends on, each once, in the order first met.
#[verifier::spinoff_prover]
fn build_graph(decls: &TypeDecls, types: &TypeInterner, nodes: &Vec<TypeNode>, self_loops: bool) -> (adj: Vec<Vec<usize>>)
    requires
        types.wf(),
        nodes_of(nodes@).no_duplicates(),
    ensures
        is_dep_graph(adj_view(adj@), types@, decls@, nodes_of(nodes@), self_loops),
{
    let ghost ns = nodes_of(nodes@);
    let n = nodes.len();
    let mut adj: Vec<Vec<usize>> = Vec::new();
    let mut i: usize = 0;
    while i < n
        invariant
            types.wf(),
            ns == nodes_of(nodes@),
            ns.no_duplicates(),
            n == ns.len(),
            i <= n,
            adj@.len() == i,
            forall|x: int, k: int|
                0 <= x < i && 0 <= k < adj@[x]@.len() ==> ((#[trigger] adj@[x]@[k]) as int) < n,
            forall|x: int| 0 <= x < i ==> (#[trigger] adj@[x])@.no_duplicates(),
            forall|x: int, j: int|
                0 <= x < i && 0 <= j < n ==> (#[trigger] adj@[x]@.contains(j as usize) <==> (
                node_deps_of(types@, decls@, ns[x]).contains(ns[j]) && (self_loops || x != j))),
        decreases n - i,
    {
        let mut raw: Vec<TypeNode> = Vec::new();
        node_deps(decls, types, &nodes[i], &mut raw);
        assert(nodes_of(raw@) =~= node_deps_of(types@, decls@, ns[i as int]));
        let ghost rv = nodes_of(raw@);
        let mut row: Vec<usize> = Vec::new();
        let mut k: usize = 0;
        while k < raw.len()
            invariant
                ns == nodes_of(nodes@),
                ns.no_duplicates(),
                n == ns.len(),
                i < n,
                rv == nodes_of(raw@),
                k <= raw@.len(),
                row@.no_duplicates(),
                forall|q: int| 0 <= q < row@.len() ==> ((#[trigger] row@[q]) as int) < n,
                forall|j: int|
                    0 <= j < n ==> (#[trigger] row@.contains(j as usize) <==> (rv.take(k as int).contains(ns[j])
                        && (self_loops || i != j))),
            decreases raw@.len() - k,
        {
            let ghost before = row@;
            let found = find_node(nodes, &raw[k]);
            proof {
                let tk = rv.take(k as int + 1);
                assert forall|y: NodeView| #[trigger] tk.contains(y) <==> (rv.take(k as int).contains(y)
                    || y == rv[k as int]) by {
                    if tk.contains(y) {
                        let q = choose|q: int| 0 <= q < tk.len() && tk[q] == y;
                        if q < k {
                            assert(rv.take(k as int)[q] == y);
                        }
                    }
                    if rv.take(k as int).contains(y) {
                        let q = choose|q: int| 0 <= q < k && rv.take(k as int)[q] == y;
                        assert(tk[q] == y);
                    }
                    if y == rv[k as int] {
                        assert(tk[k as int] == y);
                    }
                }
            }
            match found {
                Some(j) => {
                    if (self_loops || j != i) && !contains_index(&row, j) {
                        row.push(j);
                        proof {
                            assert forall|q: int| 0 <= q < row@.len() implies ((#[trigger] row@[q]) as int) < n by {
                                if q < before.len() {
                                    assert(row@[q] == before[q]);
                                }
                            }
                            assert forall|a: int, b: int| 0 <= a < row@.len() && 0 <= b < row@.len() && a != b implies row@[a] != row@[b] by {
                                if a < before.len() && b < before.len() {
                                    assert(row@[a] == before[a] && row@[b] == before[b]);
                                } else if a < before.len() {
                                    assert(row@[a] == before[a]);
                                    assert(before.contains(before[a]));
                                } else if b < before.len() {
                                    assert(row@[b] == before[b]);
                                    assert(before.contains(before[b]));
                                }
                            }
                        }
                    }
                    proof {
                        assert forall|x: int| 0 <= x < n implies (#[trigger] row@.contains(x as usize) <==> (
                            rv.take(k as int + 1).contains(ns[x]) && (self_loops || i != x))) by {
                            if row@.contains(x as usize) && !before.contains(x as usize) {
                                let q = choose|q: int| 0 <= q < row@.len() && row@[q] == x as usize;
                                if q < before.len() {
                                    assert(row@[q] == before[q]);
                                }
                            }
                            if before.contains(x as usize) {
                                let q = choose|q: int| 0 <= q < before.len() && before[q] == x as usize;
                                assert(row@[q] == before[q]);
                            }
                            if ns[x] == rv[k as int] {
                                assert(ns[x] == ns[j as int]);
                                if x != j as int {
                                    assert(ns[x] != ns[j as int]);
                                }
                            }
                            if x == j as int && row@.len() > before.len() {
                                assert(row@[before.len() as int] == j);
                            }
                        }
                    }
                },
                None => {
                    proof {
                        assert forall|x: int| 0 <= x < n implies (#[trigger] row@.contains(x as usize) <==> (
                            rv.take(k as int + 1).contains(ns[x]) && (self_loops || i != x))) by {
                            if ns[x] == rv[k as int] {
                                assert(ns.contains(ns[x]));
                            }
                        }
                    }
                },
            }
            k = k + 1;
        }
        assert(rv.take(raw@.len() as int) =~= rv);
        let ghost adj0 = adj@;
        adj.push(row);
        proof {
            assert forall|x: int, q: int|
                0 <= x < i + 1 && 0 <= q < adj@[x]@.len() implies ((#[trigger] adj@[x]@[q]) as int) < n by {
                if x < i {
                    assert(adj@[x] == adj0[x]);
                }
            }
            assert forall|x: int| 0 <= x < i + 1 implies (#[trigger] adj@[x])@.no_duplicates() by {
                if x < i {
                    assert(adj@[x] == adj0[x]);
                }
            }
            assert forall|x: int, j: int|
                0 <= x < i + 1 && 0 <= j < n implies (#[trigger] adj@[x]@.contains(j as usize) <==> (
                node_deps_of(types@, decls@, ns[x]).contains(ns[j]) && (self_loops || x != j))) by {
                if x < i {
                    assert(adj@[x] == adj0[x]);
                }
            }
        }
        i = i + 1;
    }
    proof {
        let a = adj_view(adj@);
        assert forall|x: int, q: int| 0 <= x < a.len() && 0 <= q < a[x].len() implies ((#[trigger] a[x][q]) as int) < a.len() by {
            assert(a[x] == adj@[x]@);
            assert((adj@[x]@[q] as int) < n);
        }
        assert forall|x: int| 0 <= x < a.len() implies (#[trigger] a[x]).no_duplicates() by {
            assert(a[x] == adj@[x]@);
        }
        assert forall|x: int, j: int| #[trigger] edge(a, x, j) <==> (dep_edge(types@, decls@, ns, x, j) && (
        self_loops || x != j)) by {
            if 0 <= x < n && 0 <= j < n {
                assert(a[x] == adj@[x]@);
                assert(adj@[x]@.contains(j as usize) <==> (node_deps_of(types@, decls@, ns[x]).contains(ns[j])
                    && (self_loops || x != j)));
            }
        }
    }
    adj
}

/// Node `i` of `g` lies on a cycle: it reaches itself through one or more
/// edges (a dependency on itself, or a strongly connected component of more
/// than one node).
pub open spec fn on_cycle(g: Seq<Seq<usize>>, i: int) -> bool {
    reaches(g, i, i)
}

/// Nodes `i` and `j` lie on one cycle: each reaches the other through one
/// or more edges.
pub open spec fn same_cycle_at(g: Seq<Seq<usize>>, i: int, j: int) -> bool {
    reaches(g, i, j) && reaches(g, j, i)
}

/// The value-dependency cycles of the type-declaration graph: for each pair
/// of nodes, whether the first reaches the second.
pub struct SccInfo {
    nodes: Vec<TypeNode>,
    graph: Vec<Vec<usize>>,
    reach: Vec<Vec<bool>>,
}

impl SccInfo {
    /// The nodes of the graph, in node order.
    pub closed spec fn node_seq(&self) -> Seq<NodeView> {
        nodes_of(self.nodes@)
    }

    /// The graph: for each node, the positions of the nodes it depends on.
    pub closed spec fn deps(&self) -> Seq<Seq<usize>> {
        adj_view(self.graph@)
    }

    #[verifier::type_invariant]
    closed spec fn inv(&self) -> bool {
        &&& self.node_seq().no_duplicates()
        &&& self.graph@.len() == self.nodes@.len()
        &&& graph_ok(self.deps())
        &&& self.reach@.len() == self.nodes@.len()
        &&& forall|i: int| 0 <= i < self.reach@.len() ==> (#[trigger] self.reach@[i])@.len() == self.nodes@.len()
        &&& forall|i: int, j: int|
            0 <= i < self.nodes@.len() && 0 <= j < self.nodes@.len() ==> (self.reach@[i]@[j] <==> reaches(
                self.deps(),
                i,
                j,
            ))
    }

    /// Whether `node` lies on a value-dependency cycle.
    pub fn contains(&self, node: &TypeNode) -> (r: bool)
        ensures
            r == exists|i: int|
                0 <= i < self.node_seq().len() && self.node_seq()[i] == node@ && #[trigger] on_cycle(self.deps(), i),
    {
        proof {
            use_type_invariant(self);
        }
        match find_node(&self.nodes, node) {
            Some(i) => {
                let r = self.reach[i][i];
                proof {
                    assert(self.reach@[i as int]@[i as int] == r);
                    if r {
                        assert(on_cycle(self.deps(), i as int));
                    }
                    if !r {
                        assert forall|x: int|
                            0 <= x < self.node_seq().len() && self.node_seq()[x] == node@ implies !#[trigger] on_cycle(
                            self.deps(),
                            x,
                        ) by {
                            assert(self.node_seq()[x] == self.node_seq()[i as int]);
                        }
                    }
                }
                r
            },
            None => false,
        }
    }

    /// Whether any cycle exists.
    pub fn is_empty(&self) -> (r: bool)
        ensures
            r == forall|i: int| 0 <= i < self.node_seq().len() ==> !#[trigger] on_cycle(self.deps(), i),
    {
        proof {
            use_type_invariant(self);
        }
        let mut i: usize = 0;
        while i < self.nodes.len()
            invariant
                self.inv(),
                i <= self.nodes@.len(),
                forall|x: int| 0 <= x < i ==> !#[trigger] on_cycle(self.deps(), x),
            decreases self.nodes@.len() - i,
        {
            if self.reach[i][i] {
                assert(self.reach@[i as int]@[i as int]);
                assert(on_cycle(self.deps(), i as int));
                return false;
            }
            i = i + 1;
        }
        true
    }

    /// Whether two nodes lie on the same value-dependency cycle.
    pub fn same_cycle(&self, a: &TypeNode, b: &TypeNode) -> (r: bool)
        ensures
            r == exists|i: int, j: int|
                0 <= i < self.node_seq().len() && 0 <= j < self.node_seq().len() && self.node_seq()[i] == a@
                    && self.node_seq()[j] == b@ && #[trigger] same_cycle_at(self.deps(), i, j),
    {
        proof {
            use_type_invariant(self);
        }
        let ia = match find_node(&self.nodes, a) {
            Some(i) => i,
            None => return false,
        };
        let ib = match find_node(&self.nodes, b) {
            Some(i) => i,
            None => return false,
        };
        let r = self.reach[ia][ib] && self.reach[ib][ia];
        proof {
            assert(r == (self.reach@[ia as int]@[ib as int] && self.reach@[ib as int]@[ia as int]));
            if r {
                assert(same_cycle_at(self.deps(), ia as int, ib as int));
            }
            if !r {
                assert forall|i: int, j: int|
                    0 <= i < self.node_seq().len() && 0 <= j < self.node_seq().len() && self.node_seq()[i] == a@
                        && self.node_seq()[j] == b@ implies !#[trigger] same_cycle_at(self.deps(), i, j) by {
                    assert(self.node_seq()[i] == self.node_seq()[ia as int]);
                    assert(self.node_seq()[j] == self.node_seq()[ib as int]);
                }
            }
        }
        r
    }

    /// The nodes on a value-dependency cycle, in node order.
    pub fn cycle_members(&self) -> (r: Vec<TypeNode>)
        ensures
            nodes_of(r@) == cyclic_prefix(self.node_seq(), self.deps(), self.node_seq().len() as int),
    {
        proof {
            use_type_invariant(self);
        }
        let mut out: Vec<TypeNode> = Vec::new();
        let mut i: usize = 0;
        while i < self.nodes.len()
            invariant
                self.inv(),
                i <= self.nodes@.len(),
                nodes_of(out@) == cyclic_prefix(self.node_seq(), self.deps(), i as int),
            decreases self.nodes@.len() - i,
        {
            if self.reach[i][i] {
                out.push(node_copy(&self.nodes[i]));
                assert(nodes_of(out@) =~= cyclic_prefix(self.node_seq(), self.deps(), i as int).push(
                    self.node_seq()[i as int],
                ));
            }
            i = i + 1;
        }
        out
    }
}

/// The nodes among the first `k` of `nodes` that lie on a cycle of `g`, in
/// order.
pub open spec fn cyclic_prefix(nodes: Seq<NodeView>, g: Seq<Seq<usize>>, k: int) -> Seq<NodeView>
    decreases k,
{
    if k <= 0 {
        seq![]
    } else if on_cycle(g, k - 1) {
        cyclic_prefix(nodes, g, k - 1).push(nodes[k - 1])
    } else {
        cyclic_prefix(nodes, g, k - 1)
    }
}

/// Builds the type-declaration graph and finds its value-dependency cycles.
pub fn compute_scc(decls: &TypeDecls, types: &TypeInterner) -> (r: SccInfo)
    requires
        types.wf(),
    ensures
        r.node_seq() == type_nodes(types@, decls@),
        is_dep_graph(r.deps(), types@, decls@, r.node_seq(), true),
{
    let nodes = collect_type_nodes(decls, types);
    let graph = build_graph(decls, types, &nodes, true);
    let reach = reach_matrix(&graph);
    SccInfo { nodes, graph, reach }
}

/// The nodes on a value-dependency cycle, in node order.
pub fn cyclic_nodes(decls: &TypeDecls, types: &TypeInterner) -> (r: Vec<TypeNode>)
    requires
        types.wf(),
    ensures
        exists|g: Seq<Seq<usize>>|
            is_dep_graph(g, types@, decls@, type_nodes(types@, decls@), true) && nodes_of(r@) == cyclic_prefix(
                type_nodes(types@, decls@),
                g,
                type_nodes(types@, decls@).len() as int,
            ),
{
    let scc = compute_scc(decls, types);
    scc.cycle_members()
}

/// Whether two nodes lie on the same value-dependency cycle.
pub fn same_value_cycle(decls: &TypeDecls, types: &TypeInterner, a: &TypeNode, b: &TypeNode) -> (r: bool)
    requires
        types.wf(),
    ensures
        exists|g: Seq<Seq<usize>>|
            #[trigger] is_dep_graph(g, types@, decls@, type_nodes(types@, decls@), true) && r == exists|i: int, j: int|
                0 <= i < type_nodes(types@, decls@).len() && 0 <= j < type_nodes(types@, decls@).len()
                    && type_nodes(types@, decls@)[i] == a@ && type_nodes(types@, decls@)[j] == b@
                    && #[trigger] same_cycle_at(g, i, j),
{
    let scc = compute_scc(decls, types);
    scc.same_cycle(a, b)
}

/// Node `i` is not yet emitted and every node it depends on is.
pub open spec fn ready(g: Seq<Seq<usize>>, done: Seq<bool>, i: int) -> bool {
    &&& 0 <= i < g.len()
    &&& i < done.len()
    &&& !done[i]
    &&& forall|k: int| 0 <= k < g[i].len() ==> #[trigger] done[g[i][k] as int]
}

/// The smallest ready node at or after `from`.
pub open spec fn first_ready(g: Seq<Seq<usize>>, done: Seq<bool>, from: nat) -> Option<int>
    decreases g.len() - from,
{
    if from >= g.len() {
        None
    } else if ready(g, done, from as int) {
        Some(from as int)
    } else {
        first_ready(g, done, from + 1)
    }
}

/// The smallest ready node at or after `from` is ready, and none before it
/// is.
pub proof fn lemma_first_ready(g: Seq<Seq<usize>>, done: Seq<bool>, from: nat)
    ensures
        first_ready(g, done, from) matches Some(i) ==> from <= i && ready(g, done, i) && forall|j: int|
            from <= j < i ==> !#[trigger] ready(g, done, j),
        first_ready(g, done, from) is None ==> forall|j: int| from <= j ==> !#[trigger] ready(g, done, j),
    decreases g.len() - from,
{
    if from < g.len() && !ready(g, done, from as int) {
        lemma_first_ready(g, done, from + 1);
    }
}

/// The nodes emitted, in order, from the state `done` on: each step emits
/// the smallest ready node, until none is ready.
pub open spec fn kahn(g: Seq<Seq<usize>>, done: Seq<bool>) -> Seq<int>
    decreases n_unset(done),
{
    match first_ready(g, done, 0) {
        Some(i) => {
            proof {
                lemma_first_ready(g, done, 0);
                lemma_n_unset_set(done, i);
            }
            seq![i] + kahn(g, done.update(i, true))
        },
        None => seq![],
    }
}

/// The positions below `k` that `order` does not hold, ascending.
pub open spec fn leftovers(order: Seq<int>, k: int) -> Seq<int>
    decreases k,
{
    if k <= 0 {
        seq![]
    } else if order.contains(k - 1) {
        leftovers(order, k - 1)
    } else {
        leftovers(order, k - 1).push(k - 1)
    }
}

/// `n` flags, all unset.
pub open spec fn all_unset(n: nat) -> Seq<bool> {
    Seq::new(n, |i: int| false)
}

/// The emission order of the nodes of `g`: the dependency order found from
/// nothing emitted, then the nodes it leaves (those on or behind a cycle)
/// in node order.
pub open spec fn topo_positions(g: Seq<Seq<usize>>) -> Seq<int> {
    let order = kahn(g, all_unset(g.len()));
    order + leftovers(order, g.len() as int)
}

/// The nodes at `positions`.
pub open spec fn at_positions(nodes: Seq<NodeView>, positions: Seq<int>) -> Seq<NodeView> {
    positions.map_values(|p: int| nodes[p])
}

/// The smallest ready node, if any.
fn find_ready(g: &Vec<Vec<usize>>, done: &Vec<bool>) -> (r: Option<usize>)
    requires
        graph_ok(adj_view(g@)),
        done@.len() == g@.len(),
    ensures
        r matches Some(i) ==> first_ready(adj_view(g@), done@, 0) == Some(i as int),
        r is None ==> first_ready(adj_view(g@), done@, 0) is None,
{
    let ghost a = adj_view(g@);
    proof {
        lemma_first_ready(a, done@, 0);
    }
    let mut i: usize = 0;
    while i < g.len()
        invariant
            a == adj_view(g@),
            graph_ok(a),
            done@.len() == g@.len(),
            i <= g@.len(),
            first_ready(a, done@, 0) == first_ready(a, done@, i as nat),
        decreases g@.len() - i,
    {
        if !done[i] {
            let row = &g[i];
            assert(row@ == a[i as int]);
            let mut k: usize = 0;
            let mut ok = true;
            while k < row.len()
                invariant
                    a == adj_view(g@),
                    graph_ok(a),
                    done@.len() == g@.len(),
                    (i as int) < g@.len(),
                    row@ == a[i as int],
                    k <= row@.len(),
                    ok == forall|q: int| 0 <= q < k ==> #[trigger] done@[row@[q] as int],
                decreases row@.len() - k,
            {
                assert((row@[k as int] as int) < g@.len());
                if !done[row[k]] {
                    ok = false;
                }
                k = k + 1;
            }
            if ok {
                return Some(i);
            }
        }
        i = i + 1;
    }
    None
}

/// The definitions in dependency order: the emission order
/// [`topo_positions`] over the nodes of the program and the wrappers of
/// `extra`, each node after every node it embeds by value wherever the
/// dependencies allow; nodes left on or behind a cycle come last, in node
/// order.
#[verifier::spinoff_prover]
pub fn topo_order(decls: &TypeDecls, types: &TypeInterner, extra: &Vec<TypeRef>) -> (r: Vec<TypeNode>)
    requires
        types.wf(),
    ensures
        exists|g: Seq<Seq<usize>>|
            #[trigger] is_dep_graph(g, types@, decls@, add_new(type_nodes(types@, decls@), all_wrappers(types@, extra@)), false)
                && nodes_of(r@) == at_positions(
                add_new(type_nodes(types@, decls@), all_wrappers(types@, extra@)),
                topo_positions(g),
            ),
{
    let mut nodes = collect_type_nodes(decls, types);
    let ghost base = nodes_of(nodes@);
    collect_wrappers_all(extra, types, &mut nodes);
    proof {
        lemma_add_new_props(base, all_wrappers(types@, extra@));
    }
    let ghost ns = nodes_of(nodes@);
    let graph = build_graph(decls, types, &nodes, false);
    let ghost a = adj_view(graph@);
    let n = nodes.len();
    let mut done: Vec<bool> = Vec::new();
    let mut i: usize = 0;
    while i < n
        invariant
            i <= n,
            done@.len() == i,
            forall|q: int| 0 <= q < i ==> !done@[q],
        decreases n - i,
    {
        done.push(false);
        i = i + 1;
    }
    assert(done@ =~= all_unset(n as nat));
    let mut order: Vec<usize> = Vec::new();
    let ghost order_int: Seq<int> = seq![];
    loop
        invariant
            a == adj_view(graph@),
            is_dep_graph(a, types@, decls@, ns, false),
            n == a.len(),
            done@.len() == n,
            order_int + kahn(a, done@) == kahn(a, all_unset(n as nat)),
            order_int == order@.map_values(|p: usize| p as int),
            forall|q: int| 0 <= q < n ==> (done@[q] <==> order_int.contains(q)),
            forall|q: int| 0 <= q < order@.len() ==> (#[trigger] order@[q] as int) < n,
        ensures
            done@.len() == n,
            order_int == kahn(a, all_unset(n as nat)),
            order_int == order@.map_values(|p: usize| p as int),
            forall|q: int| 0 <= q < n ==> (done@[q] <==> order_int.contains(q)),
            forall|q: int| 0 <= q < order@.len() ==> (#[trigger] order@[q] as int) < n,
        decreases n_unset(done@),
    {
        match find_ready(&graph, &done) {
            Some(x) => {
                proof {
                    lemma_first_ready(a, done@, 0);
                    lemma_n_unset_set(done@, x as int);
                    assert(kahn(a, done@) == seq![x as int] + kahn(a, done@.update(x as int, true)));
                }
                let ghost d0 = done@;
                let ghost o0 = order_int;
                let ghost ord0 = order@;
                done.set(x, true);
                order.push(x);
                proof {
                    order_int = order_int.push(x as int);
                    assert(order_int =~= order@.map_values(|p: usize| p as int));
                    assert forall|q: int| 0 <= q < order@.len() implies (#[trigger] order@[q] as int) < n by {
                        if q < ord0.len() {
                            assert(order@[q] == ord0[q]);
                        }
                    }
                    assert(o0 + (seq![x as int] + kahn(a, done@)) =~= order_int + kahn(a, done@));
                    assert forall|q: int| 0 <= q < n implies (done@[q] <==> order_int.contains(q)) by {
                        if order_int.contains(q) && q != x as int {
                            let t = choose|t: int| 0 <= t < order_int.len() && order_int[t] == q;
                            assert(o0[t] == q);
                        }
                        if o0.contains(q) {
                            let t = choose|t: int| 0 <= t < o0.len() && o0[t] == q;
                            assert(order_int[t] == q);
                        }
                        if q == x as int {
                            assert(order_int[o0.len() as int] == q);
                        }
                    }
                }
            },
            None => {
                assert(kahn(a, done@) =~= seq![]);
                assert(order_int + seq![] =~= order_int);
                break;
            },
        }
    }
    let mut out: Vec<TypeNode> = Vec::new();
    let mut k: usize = 0;
    while k < order.len()
        invariant
            ns == nodes_of(nodes@),
            n == ns.len(),
            order_int == kahn(a, all_unset(n as nat)),
            order_int == order@.map_values(|p: usize| p as int),
            forall|q: int| 0 <= q < order@.len() ==> (#[trigger] order@[q] as int) < n,
            k <= order@.len(),
            nodes_of(out@) == at_positions(ns, order_int.take(k as int)),
        decreases order@.len() - k,
    {
        let ghost o = nodes_of(out@);
        let ghost p = order@[k as int] as int;
        out.push(node_copy(&nodes[order[k]]));
        assert(nodes_of(out@) =~= o.push(ns[p]));
        assert(order_int[k as int] == p);
        assert(order_int.take(k as int + 1) =~= order_int.take(k as int).push(p));
        assert(nodes_of(out@) =~= at_positions(ns, order_int.take(k as int + 1)));
        k = k + 1;
    }
    let mut j: usize = 0;
    while j < n
        invariant
            ns == nodes_of(nodes@),
            n == ns.len(),
            done@.len() == n,
            forall|q: int| 0 <= q < n ==> (done@[q] <==> order_int.contains(q)),
            j <= n,
            nodes_of(out@) == at_positions(ns, order_int + leftovers(order_int, j as int)),
        decreases n - j,
    {
        let ghost o = nodes_of(out@);
        if !done[j] {
            out.push(node_copy(&nodes[j]));
            assert(nodes_of(out@) =~= o.push(ns[j as int]));
            assert(order_int + leftovers(order_int, j as int + 1) =~= (order_int + leftovers(order_int, j as int)).push(j as int));
        } else {
            assert(order_int + leftovers(order_int, j as int + 1) =~= order_int + leftovers(order_int, j as int));
        }
        assert(nodes_of(out@) =~= at_positions(ns, order_int + leftovers(order_int, j as int + 1)));
        j = j + 1;
    }
    out
}

} // verus!
