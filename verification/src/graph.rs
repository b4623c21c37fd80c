//! Directed graphs over node indices, given as adjacency lists, and which
//! nodes reach which through one or more edges.

use vstd::prelude::*;

verus! {

/// The adjacency lists as values.
pub open spec fn adj_view(adj: Seq<Vec<usize>>) -> Seq<Seq<usize>> {
    adj.map_values(|v: Vec<usize>| v@)
}

/// Every successor listed is a node of the graph.
pub open spec fn graph_ok(adj: Seq<Seq<usize>>) -> bool {
    forall|i: int, k: int|
        0 <= i < adj.len() && 0 <= k < adj[i].len() ==> ((#[trigger] adj[i][k]) as int) < adj.len()
}

/// An edge from `i` to `j`.
pub open spec fn edge(adj: Seq<Seq<usize>>, i: int, j: int) -> bool {
    0 <= i < adj.len() && 0 <= j < adj.len() && adj[i].contains(j as usize)
}

/// Step `k` of `p` follows an edge.
pub open spec fn step_ok(adj: Seq<Seq<usize>>, p: Seq<int>, k: int) -> bool {
    edge(adj, p[k], p[k + 1])
}

/// `p` is a walk of one or more edges.
pub open spec fn is_walk(adj: Seq<Seq<usize>>, p: Seq<int>) -> bool {
    &&& p.len() >= 2
    &&& forall|k: int| 0 <= k < p.len() - 1 ==> #[trigger] step_ok(adj, p, k)
}

/// `b` is reached from `a` through one or more edges.
pub open spec fn reaches(adj: Seq<Seq<usize>>, a: int, b: int) -> bool {
    exists|p: Seq<int>| #[trigger] is_walk(adj, p) && p[0] == a && p.last() == b
}

/// An edge is a walk.
pub proof fn lemma_edge_reaches(adj: Seq<Seq<usize>>, a: int, b: int)
    requires
        edge(adj, a, b),
    ensures
        reaches(adj, a, b),
{
    let p = seq![a, b];
    assert(step_ok(adj, p, 0));
    assert(is_walk(adj, p));
}

/// A walk followed by an edge is a walk.
pub proof fn lemma_reaches_extend(adj: Seq<Seq<usize>>, a: int, b: int, c: int)
    requires
        reaches(adj, a, b),
        edge(adj, b, c),
    ensures
        reaches(adj, a, c),
{
    let p = choose|p: Seq<int>| #[trigger] is_walk(adj, p) && p[0] == a && p.last() == b;
    let q = p.push(c);
    assert forall|k: int| 0 <= k < q.len() - 1 implies #[trigger] step_ok(adj, q, k) by {
        if k < p.len() - 1 {
            assert(step_ok(adj, p, k));
        }
    }
    assert(is_walk(adj, q));
}

/// Reachability is transitive.
pub proof fn lemma_reaches_trans(adj: Seq<Seq<usize>>, a: int, b: int, c: int)
    requires
        reaches(adj, a, b),
        reaches(adj, b, c),
    ensures
        reaches(adj, a, c),
{
    let p = choose|p: Seq<int>| #[trigger] is_walk(adj, p) && p[0] == a && p.last() == b;
    let q = choose|q: Seq<int>| #[trigger] is_walk(adj, q) && q[0] == b && q.last() == c;
    let r = p + q.drop_first();
    assert forall|k: int| 0 <= k < r.len() - 1 implies #[trigger] step_ok(adj, r, k) by {
        if k < p.len() - 1 {
            assert(step_ok(adj, p, k));
        } else {
            let m = k - (p.len() - 1);
            assert(step_ok(adj, q, m));
            assert(r[k] == q[m]);
            assert(r[k + 1] == q[m + 1]);
        }
    }
    assert(is_walk(adj, r));
}

proof fn lemma_walk_prefix_in_set(adj: Seq<Seq<usize>>, set: Seq<bool>, p: Seq<int>, k: int)
    requires
        set.len() == adj.len(),
        is_walk(adj, p),
        forall|v: int| edge(adj, p[0], v) ==> #[trigger] set[v],
        forall|u: int, v: int| 0 <= u < set.len() && set[u] && #[trigger] edge(adj, u, v) ==> set[v],
        1 <= k < p.len(),
    ensures
        0 <= p[k] < set.len() && set[p[k]],
    decreases k,
{
    assert(step_ok(adj, p, k - 1));
    if k > 1 {
        lemma_walk_prefix_in_set(adj, set, p, k - 1);
    }
}

/// Whatever `a` reaches lies in a set that holds `a`'s successors and is
/// closed under edges.
pub proof fn lemma_closed_holds_reach(adj: Seq<Seq<usize>>, set: Seq<bool>, a: int, b: int)
    requires
        set.len() == adj.len(),
        forall|v: int| edge(adj, a, v) ==> #[trigger] set[v],
        forall|u: int, v: int| 0 <= u < set.len() && set[u] && #[trigger] edge(adj, u, v) ==> set[v],
        reaches(adj, a, b),
    ensures
        0 <= b < set.len() && set[b],
{
    let p = choose|p: Seq<int>| #[trigger] is_walk(adj, p) && p[0] == a && p.last() == b;
    lemma_walk_prefix_in_set(adj, set, p, p.len() - 1);
}

/// The number of `false` entries of `s`.
pub open spec fn n_unset(s: Seq<bool>) -> nat
    decreases s.len(),
{
    if s.len() == 0 {
        0
    } else {
        n_unset(s.drop_last()) + if s.last() {
            0nat
        } else {
            1nat
        }
    }
}

pub proof fn lemma_n_unset_set(s: Seq<bool>, i: int)
    requires
        0 <= i < s.len(),
        !s[i],
    ensures
        n_unset(s.update(i, true)) + 1 == n_unset(s),
    decreases s.len(),
{
    let t = s.update(i, true);
    if i == s.len() - 1 {
        assert(t.drop_last() =~= s.drop_last());
    } else {
        assert(t.drop_last() =~= s.drop_last().update(i, true));
        lemma_n_unset_set(s.drop_last(), i);
    }
}

/// The nodes that `s` reaches through one or more edges, as flags.
#[verifier::spinoff_prover]
pub fn reach_from(adj: &Vec<Vec<usize>>, s: usize) -> (r: Vec<bool>)
    requires
        graph_ok(adj_view(adj@)),
        (s as int) < adj@.len(),
    ensures
        r@.len() == adj@.len(),
        forall|t: int| 0 <= t < adj@.len() ==> (r@[t] <==> reaches(adj_view(adj@), s as int, t)),
{
    let ghost a = adj_view(adj@);
    let n = adj.len();
    let mut seen: Vec<bool> = Vec::new();
    let mut i: usize = 0;
    while i < n
        invariant
            i <= n,
            n == adj@.len(),
            seen@.len() == i,
            forall|t: int| 0 <= t < i ==> !seen@[t],
        decreases n - i,
    {
        seen.push(false);
        i = i + 1;
    }
    let mut work: Vec<usize> = Vec::new();
    let succ = &adj[s];
    assert(succ@ == a[s as int]);
    let mut k: usize = 0;
    while k < succ.len()
        invariant
            a == adj_view(adj@),
            graph_ok(a),
            n == adj@.len(),
            (s as int) < n,
            succ@ == a[s as int],
            k <= succ@.len(),
            seen@.len() == n,
            forall|t: int| 0 <= t < n && #[trigger] seen@[t] ==> reaches(a, s as int, t),
            forall|t: int| 0 <= t < n && #[trigger] seen@[t] ==> work@.contains(t as usize),
            forall|j: int| 0 <= j < work@.len() ==> (#[trigger] work@[j] as int) < n && seen@[work@[j] as int],
            forall|j: int| 0 <= j < k ==> seen@[#[trigger] succ@[j] as int],
        decreases succ@.len() - k,
    {
        let v = succ[k];
        assert((v as int) < n) by {
            assert(a[s as int][k as int] == v);
        }
        if !seen[v] {
            proof {
                assert(edge(a, s as int, v as int)) by {
                    assert(a[s as int][k as int] == v);
                }
                lemma_edge_reaches(a, s as int, v as int);
            }
            let ghost wb = work@;
            seen.set(v, true);
            work.push(v);
            proof {
                assert forall|t: int| 0 <= t < n && #[trigger] seen@[t] implies work@.contains(t as usize) by {
                    if t == v as int {
                        assert(work@[wb.len() as int] == v);
                    } else {
                        let j = choose|j: int| 0 <= j < wb.len() && wb[j] == t as usize;
                        assert(work@[j] == wb[j]);
                    }
                }
            }
        }
        k = k + 1;
    }
    assert forall|v: int| edge(a, s as int, v) implies #[trigger] seen@[v] by {
        let j = choose|j: int| 0 <= j < succ@.len() && succ@[j] == v as usize;
        assert(seen@[succ@[j] as int]);
    }
    while work.len() > 0
        invariant
            a == adj_view(adj@),
            graph_ok(a),
            n == adj@.len(),
            (s as int) < n,
            seen@.len() == n,
            forall|t: int| 0 <= t < n && #[trigger] seen@[t] ==> reaches(a, s as int, t),
            forall|j: int| 0 <= j < work@.len() ==> (#[trigger] work@[j] as int) < n && seen@[work@[j] as int],
            forall|v: int| edge(a, s as int, v) ==> #[trigger] seen@[v],
            forall|t: int, v: int|
                0 <= t < n && seen@[t] && !work@.contains(t as usize) && #[trigger] edge(a, t, v) ==> seen@[v],
        decreases 2 * n_unset(seen@) + work@.len(),
    {
        let ghost wb = work@;
        let u = work.pop().unwrap();
        let ghost m0 = 2 * n_unset(seen@) + work@.len();
        let ghost work0 = work@;
        assert(seen@[u as int]);
        proof {
            assert(wb =~= work0.push(u));
            assert forall|t: int, v: int|
                0 <= t < n && seen@[t] && !work0.contains(t as usize) && t != u && #[trigger] edge(a, t, v) implies seen@[v] by {
                if wb.contains(t as usize) {
                    let j = choose|j: int| 0 <= j < wb.len() && wb[j] == t as usize;
                    if j < work0.len() {
                        assert(work0[j] == wb[j]);
                    }
                }
            }
        }
        let succ = &adj[u];
        assert(succ@ == a[u as int]);
        let mut k: usize = 0;
        while k < succ.len()
            invariant
                a == adj_view(adj@),
                graph_ok(a),
                n == adj@.len(),
                (s as int) < n,
                (u as int) < n,
                succ@ == a[u as int],
                k <= succ@.len(),
                seen@.len() == n,
                seen@[u as int],
                2 * n_unset(seen@) + work@.len() <= m0,
                work@.len() >= work0.len(),
                work@.subrange(0, work0.len() as int) == work0,
                forall|t: int| 0 <= t < n && #[trigger] seen@[t] ==> reaches(a, s as int, t),
                forall|j: int| 0 <= j < work@.len() ==> (#[trigger] work@[j] as int) < n && seen@[work@[j] as int],
                forall|v: int| edge(a, s as int, v) ==> #[trigger] seen@[v],
                forall|t: int, v: int|
                    0 <= t < n && seen@[t] && !work@.contains(t as usize) && t != u && #[trigger] edge(a, t, v) ==> seen@[v],
                forall|j: int| 0 <= j < k ==> seen@[#[trigger] succ@[j] as int],
            decreases succ@.len() - k,
        {
            let v = succ[k];
            assert((v as int) < n) by {
                assert(a[u as int][k as int] == v);
            }
            if !seen[v] {
                proof {
                    assert(edge(a, u as int, v as int)) by {
                        assert(a[u as int][k as int] == v);
                    }
                    lemma_reaches_extend(a, s as int, u as int, v as int);
                    lemma_n_unset_set(seen@, v as int);
                }
                let ghost wb = work@;
                let ghost sb = seen@;
                seen.set(v, true);
                work.push(v);
                assert(work@.subrange(0, work0.len() as int) =~= wb.subrange(0, work0.len() as int));
                assert forall|t: int, x: int|
                    0 <= t < n && seen@[t] && !work@.contains(t as usize) && t != u && #[trigger] edge(a, t, x) implies seen@[x] by {
                    if t == v as int {
                        assert(work@[wb.len() as int] == v);
                    } else {
                        if wb.contains(t as usize) {
                            let j = choose|j: int| 0 <= j < wb.len() && wb[j] == t as usize;
                            assert(work@[j] == wb[j]);
                        }
                        assert(sb[t]);
                    }
                }
            }
            k = k + 1;
        }
        proof {
            assert forall|t: int, v: int|
                0 <= t < n && seen@[t] && !work@.contains(t as usize) && #[trigger] edge(a, t, v) implies seen@[v] by {
                if t == u {
                    let j = choose|j: int| 0 <= j < succ@.len() && succ@[j] == v as usize;
                    assert(seen@[succ@[j] as int]);
                }
            }
        }
    }
    proof {
        assert forall|t: int| 0 <= t < adj@.len() implies (seen@[t] <==> reaches(a, s as int, t)) by {
            if reaches(a, s as int, t) {
                lemma_closed_holds_reach(a, seen@, s as int, t);
            }
        }
    }
    seen
}

/// For every pair of nodes, whether the first reaches the second through
/// one or more edges.
pub fn reach_matrix(adj: &Vec<Vec<usize>>) -> (m: Vec<Vec<bool>>)
    requires
        graph_ok(adj_view(adj@)),
    ensures
        m@.len() == adj@.len(),
        forall|i: int| 0 <= i < m@.len() ==> (#[trigger] m@[i])@.len() == adj@.len(),
        forall|i: int, j: int|
            0 <= i < adj@.len() && 0 <= j < adj@.len() ==> (m@[i]@[j] <==> reaches(adj_view(adj@), i, j)),
{
    let mut m: Vec<Vec<bool>> = Vec::new();
    let mut i: usize = 0;
    while i < adj.len()
        invariant
            graph_ok(adj_view(adj@)),
            i <= adj@.len(),
            m@.len() == i,
            forall|x: int| 0 <= x < i ==> (#[trigger] m@[x])@.len() == adj@.len(),
            forall|x: int, j: int|
                0 <= x < i && 0 <= j < adj@.len() ==> (m@[x]@[j] <==> reaches(adj_view(adj@), x, j)),
        decreases adj@.len() - i,
    {
        let row = reach_from(adj, i);
        m.push(row);
        i = i + 1;
    }
    m
}

} // verus!
