//! Evaluating the top-level constants: each constant's initializer is
//! folded to a scalar, a reference to another constant folds that constant
//! first (once: results are memoised), and a constant reached again while
//! it is being folded is a definition cycle. A folded integer must fit the
//! integer type the constant is declared with.

use vstd::prelude::*;

use crate::body::LocalConst;
use crate::body_lowering::{
    appends_fold, cast_target, cast_target_name, expr_size, fold_const, fold_lit, fold_literal, is_fold_diag,
    lemma_appends_fold_empty, lemma_appends_fold_push, lemma_appends_fold_trans, spec_fold, spec_fold_boxed, FoldDiag, Folded,
};
use crate::ids::{GlobalId, LocalConstId};
use crate::scopes::Scopes;
use crate::typed_arena::TypedArena;
use crate::consts::{
    apply_binary, apply_cast, apply_unary, const_range_error, int_type_name, spec_apply_binary, spec_apply_cast,
    spec_apply_unary, spec_int_range, ConstValue, UnaryOp,
};
use crate::errors::{ConstError, HirError};
use crate::graph::{lemma_n_unset_set, n_unset};
use crate::ids::ConstId;
use crate::interner::{name_table, name_table_get, name_table_insert, name_table_new, NameTable};
use crate::items::{items_wf, Const, Global, ItemsView, HIR};
use crate::tree::SynExpr;
use crate::types::{KindView, TypeRef};

verus! {

/// The names of the listed constants, as the items record them.
pub open spec fn const_names(v: ItemsView, cs: Seq<(ConstId, Option<SynExpr>)>) -> Seq<Seq<char>> {
    cs.map_values(|c: (ConstId, Option<SynExpr>)| v.consts[c.0.0 as int].0)
}

/// Each name to the position of the first of the first `m` listed
/// constants that has that name and an initializer: the body a reference
/// to the name folds.
pub open spec fn body_map(cs: Seq<(ConstId, Option<SynExpr>)>, ns: Seq<Seq<char>>, m: int) -> Map<Seq<char>, u32>
    decreases m,
{
    if m <= 0 {
        Map::empty()
    } else {
        let b = body_map(cs, ns, m - 1);
        if cs[m - 1].1 is Some && !b.contains_key(ns[m - 1]) {
            b.insert(ns[m - 1], (m - 1) as u32)
        } else {
            b
        }
    }
}

/// Every position the map records is one of the `n` listed constants.
pub open spec fn bodies_below(bm: Map<Seq<char>, u32>, n: int) -> bool {
    forall|x: Seq<char>| #[trigger] bm.contains_key(x) ==> (bm[x] as int) < n
}

/// The evaluation state: what is memoised for each listed constant, and
/// the diagnostics so far.
pub type Memo = Seq<Option<Folded>>;

/// Folding the constant at position `k` while the constants marked in
/// `vis` are being folded: its memoised result; a cycle (reported, and
/// memoised as a failure) when it is itself being folded; else its
/// initializer folded with `k` marked, and the result memoised.
pub open spec fn eval_name_spec(
    cs: Seq<(ConstId, Option<SynExpr>)>,
    ns: Seq<Seq<char>>,
    bm: Map<Seq<char>, u32>,
    k: int,
    vis: Seq<bool>,
    memo: Memo,
    ds: Seq<FoldDiag>,
) -> (Folded, Memo, Seq<FoldDiag>)
    decreases n_unset(vis), 0nat, 0nat,
{
    if !(0 <= k < vis.len() && vis.len() == memo.len()) {
        (Folded::Failed, memo, ds)
    } else if memo[k] is Some {
        (memo[k]->Some_0, memo, ds)
    } else if vis[k] {
        (Folded::Failed, memo.update(k, Some(Folded::Failed)), ds.push(FoldDiag::Cycle(ns[k])))
    } else if k < cs.len() && cs[k].1 is Some {
        proof {
            lemma_n_unset_set(vis, k);
        }
        let r = eval_expr_spec(cs, ns, bm, cs[k].1->Some_0, vis.update(k, true), memo, ds);
        (r.0, r.1.update(k, Some(r.0)), r.2)
    } else {
        (Folded::Failed, memo, ds)
    }
}

/// Folding a constant expression: literals, names of constants (folded
/// through [`eval_name_spec`]; any other name is reported), prefix and
/// binary operators and casts; anything else is not a constant expression.
/// Both operands of a binary operator are folded before it applies.
pub open spec fn eval_expr_spec(
    cs: Seq<(ConstId, Option<SynExpr>)>,
    ns: Seq<Seq<char>>,
    bm: Map<Seq<char>, u32>,
    e: SynExpr,
    vis: Seq<bool>,
    memo: Memo,
    ds: Seq<FoldDiag>,
) -> (Folded, Memo, Seq<FoldDiag>)
    decreases n_unset(vis), expr_size(e), 1nat,
{
    match e {
        SynExpr::Literal(l) => (fold_literal(l), memo, ds),
        SynExpr::Paren(inner) => match inner {
            Some(b) => eval_expr_spec(cs, ns, bm, *b, vis, memo, ds),
            None => (Folded::Failed, memo, ds),
        },
        SynExpr::NameRef(n) => if bm.contains_key(n@) {
            eval_name_spec(cs, ns, bm, bm[n@] as int, vis, memo, ds)
        } else {
            (Folded::Failed, memo, ds.push(FoldDiag::UnknownName(n@)))
        },
        SynExpr::Prefix { op, operand } => match op {
            None => (Folded::Failed, memo, ds),
            Some(o) => {
                let r = match operand {
                    Some(b) => eval_expr_spec(cs, ns, bm, *b, vis, memo, ds),
                    None => (Folded::Failed, memo, ds),
                };
                match r.0 {
                    Folded::Value(c) => match spec_apply_unary(o, c) {
                        Ok(x) => (Folded::Value(x), r.1, r.2),
                        Err(err) => (Folded::Failed, r.1, r.2.push(FoldDiag::Plain(err))),
                    },
                    _ => r,
                }
            },
        },
        SynExpr::Binary { op, lhs, rhs } => match op {
            None => (Folded::Failed, memo, ds),
            Some(o) => {
                let l = match lhs {
                    Some(b) => eval_expr_spec(cs, ns, bm, *b, vis, memo, ds),
                    None => (Folded::Failed, memo, ds),
                };
                let r = match rhs {
                    Some(b) => eval_expr_spec(cs, ns, bm, *b, vis, l.1, l.2),
                    None => (Folded::Failed, l.1, l.2),
                };
                match (l.0, r.0) {
                    (Folded::Value(a), Folded::Value(b)) => match spec_apply_binary(o, a, b) {
                        Ok(c) => (Folded::Value(c), r.1, r.2),
                        Err(err) => (Folded::Failed, r.1, r.2.push(FoldDiag::Plain(err))),
                    },
                    (Folded::Failed, _) => (Folded::Failed, r.1, r.2),
                    (_, Folded::Failed) => (Folded::Failed, r.1, r.2),
                    _ => (Folded::Float, r.1, r.2),
                }
            },
        },
        SynExpr::Cast { operand, ty } => match operand {
            None => (Folded::Failed, memo, ds),
            Some(b) => {
                let r = eval_expr_spec(cs, ns, bm, *b, vis, memo, ds);
                match r.0 {
                    Folded::Value(c) => match spec_apply_cast(c, cast_target(ty)) {
                        Some(x) => (Folded::Value(x), r.1, r.2),
                        None => (Folded::Float, r.1, r.2),
                    },
                    _ => r,
                }
            },
        },
        _ => (Folded::Failed, memo, ds.push(FoldDiag::Plain(ConstError::NotAConstExpr))),
    }
}

/// The names of `names`, by their chars.
pub open spec fn names_view(names: Seq<String>) -> Seq<Seq<char>> {
    names.map_values(|x: String| x@)
}

/// What every folding step keeps: one memo slot and one mark per listed
/// constant, and body positions among them.
pub open spec fn eval_ready(
    cs: Seq<(ConstId, Option<SynExpr>)>,
    names: Seq<String>,
    bm: Map<Seq<char>, u32>,
    vis: Seq<bool>,
    memo: Memo,
) -> bool {
    &&& names.len() == cs.len()
    &&& vis.len() == cs.len()
    &&& memo.len() == cs.len()
    &&& bodies_below(bm, cs.len() as int)
}

/// Folds the constant at position `k` (see [`eval_name_spec`]).
fn eval_name(
    cs: &Vec<(ConstId, Option<SynExpr>)>,
    names: &Vec<String>,
    bodies: &NameTable,
    k: usize,
    vis: &mut Vec<bool>,
    memo: &mut Vec<Option<Folded>>,
    diags: &mut Vec<HirError>,
    Ghost(d0): Ghost<Seq<HirError>>,
    Ghost(ds): Ghost<Seq<FoldDiag>>,
) -> (r: Folded)
    requires
        eval_ready(cs@, names@, name_table(*bodies), old(vis)@, old(memo)@),
        (k as int) < cs@.len(),
        appends_fold(d0, old(diags)@, ds),
    ensures
        final(vis)@ == old(vis)@,
        ({
            let res = eval_name_spec(cs@, names_view(names@), name_table(*bodies), k as int, old(vis)@, old(memo)@, ds);
            &&& r == res.0
            &&& final(memo)@ == res.1
            &&& appends_fold(d0, final(diags)@, res.2)
        }),
        final(memo)@.len() == old(memo)@.len(),
    decreases n_unset(old(vis)@), 0nat, 0nat,
{
    let ghost ns = names_view(names@);
    if let Some(x) = memo[k] {
        return x;
    }
    if vis[k] {
        diags.push(HirError::Const(ConstError::ConstCycle { name: names[k].clone() }));
        memo.set(k, Some(Folded::Failed));
        proof {
            lemma_appends_fold_push(d0, old(diags)@, ds, diags@.last(), FoldDiag::Cycle(ns[k as int]));
        }
        return Folded::Failed;
    }
    match &cs[k].1 {
        Some(body) => {
            proof {
                lemma_n_unset_set(vis@, k as int);
            }
            vis.set(k, true);
            let x = eval_expr(cs, names, bodies, body, vis, memo, diags, Ghost(d0), Ghost(ds));
            vis.set(k, false);
            memo.set(k, Some(x));
            proof {
                assert(vis@ =~= old(vis)@);
            }
            x
        },
        None => Folded::Failed,
    }
}

/// Folds an optional operand.
fn eval_boxed(
    cs: &Vec<(ConstId, Option<SynExpr>)>,
    names: &Vec<String>,
    bodies: &NameTable,
    e: &Option<Box<SynExpr>>,
    vis: &mut Vec<bool>,
    memo: &mut Vec<Option<Folded>>,
    diags: &mut Vec<HirError>,
    Ghost(d0): Ghost<Seq<HirError>>,
    Ghost(ds): Ghost<Seq<FoldDiag>>,
) -> (r: Folded)
    requires
        eval_ready(cs@, names@, name_table(*bodies), old(vis)@, old(memo)@),
        appends_fold(d0, old(diags)@, ds),
    ensures
        final(vis)@ == old(vis)@,
        ({
            let res = eval_boxed_spec(cs@, names_view(names@), name_table(*bodies), *e, old(vis)@, old(memo)@, ds);
            &&& r == res.0
            &&& final(memo)@ == res.1
            &&& appends_fold(d0, final(diags)@, res.2)
        }),
        final(memo)@.len() == old(memo)@.len(),
    decreases n_unset(old(vis)@), boxed_size_of(*e), 2nat,
{
    match e {
        Some(b) => eval_expr(cs, names, bodies, b, vis, memo, diags, Ghost(d0), Ghost(ds)),
        None => Folded::Failed,
    }
}

/// Folding an optional operand: nothing where the tree has none.
pub open spec fn eval_boxed_spec(
    cs: Seq<(ConstId, Option<SynExpr>)>,
    ns: Seq<Seq<char>>,
    bm: Map<Seq<char>, u32>,
    e: Option<Box<SynExpr>>,
    vis: Seq<bool>,
    memo: Memo,
    ds: Seq<FoldDiag>,
) -> (Folded, Memo, Seq<FoldDiag>) {
    match e {
        Some(b) => eval_expr_spec(cs, ns, bm, *b, vis, memo, ds),
        None => (Folded::Failed, memo, ds),
    }
}

/// The size of an optional operand.
pub open spec fn boxed_size_of(e: Option<Box<SynExpr>>) -> nat {
    match e {
        Some(b) => expr_size(*b),
        None => 0,
    }
}

/// Folds a constant expression (see [`eval_expr_spec`]).
fn eval_expr(
    cs: &Vec<(ConstId, Option<SynExpr>)>,
    names: &Vec<String>,
    bodies: &NameTable,
    e: &SynExpr,
    vis: &mut Vec<bool>,
    memo: &mut Vec<Option<Folded>>,
    diags: &mut Vec<HirError>,
    Ghost(d0): Ghost<Seq<HirError>>,
    Ghost(ds): Ghost<Seq<FoldDiag>>,
) -> (r: Folded)
    requires
        eval_ready(cs@, names@, name_table(*bodies), old(vis)@, old(memo)@),
        appends_fold(d0, old(diags)@, ds),
    ensures
        final(vis)@ == old(vis)@,
        ({
            let res = eval_expr_spec(cs@, names_view(names@), name_table(*bodies), *e, old(vis)@, old(memo)@, ds);
            &&& r == res.0
            &&& final(memo)@ == res.1
            &&& appends_fold(d0, final(diags)@, res.2)
        }),
        final(memo)@.len() == old(memo)@.len(),
    decreases n_unset(old(vis)@), expr_size(*e), 1nat,
{
    let ghost bm = name_table(*bodies);
    let ghost ns = names_view(names@);
    match e {
        SynExpr::Literal(l) => fold_lit(l),
        SynExpr::Paren(inner) => eval_boxed(cs, names, bodies, inner, vis, memo, diags, Ghost(d0), Ghost(ds)),
        SynExpr::NameRef(n) => match name_table_get(bodies, n.as_str()) {
            Some(j) => eval_name(cs, names, bodies, j as usize, vis, memo, diags, Ghost(d0), Ghost(ds)),
            None => {
                diags.push(HirError::Const(ConstError::ConstUnknownName { name: n.clone() }));
                proof {
                    lemma_appends_fold_push(d0, old(diags)@, ds, diags@.last(), FoldDiag::UnknownName(n@));
                }
                Folded::Failed
            },
        },
        SynExpr::Prefix { op, operand } => match op {
            None => Folded::Failed,
            Some(o) => {
                let x = eval_boxed(cs, names, bodies, operand, vis, memo, diags, Ghost(d0), Ghost(ds));
                let ghost d1 = diags@;
                let ghost r1 = eval_boxed_spec(cs@, ns, bm, *operand, old(vis)@, old(memo)@, ds);
                match x {
                    Folded::Value(c) => {
                        let res = if *o == UnaryOp::Neg && c == ConstValue::Int(i128::MIN) {
                            let m: i128 = i128::MIN;
                            assert(m == i128::MIN ==> ((-m) as i128) == m) by (bit_vector);
                            Ok(ConstValue::Int(i128::MIN))
                        } else {
                            apply_unary(*o, c)
                        };
                        assert(res == spec_apply_unary(*o, c));
                        match res {
                            Ok(v) => Folded::Value(v),
                            Err(err) => {
                                diags.push(HirError::Const(err));
                                proof {
                                    lemma_appends_fold_push(d0, d1, r1.2, diags@.last(), FoldDiag::Plain(err));
                                }
                                Folded::Failed
                            },
                        }
                    },
                    _ => x,
                }
            },
        },
        SynExpr::Binary { op, lhs, rhs } => match op {
            None => Folded::Failed,
            Some(o) => {
                let ghost m0 = memo@;
                let l = eval_boxed(cs, names, bodies, lhs, vis, memo, diags, Ghost(d0), Ghost(ds));
                let ghost rl = eval_boxed_spec(cs@, ns, bm, *lhs, old(vis)@, m0, ds);
                let r = eval_boxed(cs, names, bodies, rhs, vis, memo, diags, Ghost(d0), Ghost(rl.2));
                let ghost rr = eval_boxed_spec(cs@, ns, bm, *rhs, old(vis)@, rl.1, rl.2);
                let ghost d2 = diags@;
                match (l, r) {
                    (Folded::Value(a), Folded::Value(b)) => match apply_binary(*o, a, b) {
                        Ok(c) => Folded::Value(c),
                        Err(err) => {
                            diags.push(HirError::Const(err));
                            proof {
                                lemma_appends_fold_push(d0, d2, rr.2, diags@.last(), FoldDiag::Plain(err));
                            }
                            Folded::Failed
                        },
                    },
                    (Folded::Failed, _) => Folded::Failed,
                    (_, Folded::Failed) => Folded::Failed,
                    _ => Folded::Float,
                }
            },
        },
        SynExpr::Cast { operand, ty } => match operand {
            None => Folded::Failed,
            Some(b) => {
                let x = eval_expr(cs, names, bodies, b, vis, memo, diags, Ghost(d0), Ghost(ds));
                match x {
                    Folded::Value(c) => match apply_cast(c, cast_target_name(ty)) {
                        Some(v) => Folded::Value(v),
                        None => Folded::Float,
                    },
                    _ => x,
                }
            },
        },
        _ => {
            diags.push(HirError::Const(ConstError::NotAConstExpr));
            proof {
                lemma_appends_fold_push(d0, old(diags)@, ds, diags@.last(), FoldDiag::Plain(ConstError::NotAConstExpr));
            }
            Folded::Failed
        },
    }
}

/// The integer type `t` names, when it names one.
pub open spec fn int_name_of(kinds: Seq<KindView>, t: TypeRef) -> Option<Seq<char>> {
    match kinds[t.0 as int] {
        KindView::Path(n) => if spec_int_range(n) is Some {
            Some(n)
        } else {
            None
        },
        _ => None,
    }
}

/// The range diagnostic of a constant with an initializer (`anchored`)
/// that folded to `x` and is declared with the integer type `tn`: an
/// integer outside the type's range is reported.
pub open spec fn range_diags(x: Folded, tn: Option<Seq<char>>, anchored: bool) -> Seq<FoldDiag> {
    match (x, tn) {
        (Folded::Value(ConstValue::Int(v)), Some(n)) => if anchored {
            match spec_int_range(n) {
                Some((lo, hi)) => if v < lo || v > hi {
                    seq![FoldDiag::OutOfRange(v, n, lo, hi)]
                } else {
                    seq![]
                },
                None => seq![],
            }
        } else {
            seq![]
        },
        _ => seq![],
    }
}

/// The value a constant that folded to `x` holds: only a scalar this
/// library computes; a floating-point value or a failure holds nothing.
pub open spec fn folded_value(x: Folded) -> Option<ConstValue> {
    match x {
        Folded::Value(c) => Some(c),
        _ => None,
    }
}

/// Evaluating the first `i` listed constants in order, each by its name,
/// starting from an empty memo with nothing being folded: the memo, the
/// diagnostics (each constant's folding diagnostics, then its range
/// diagnostic), and each constant's result.
pub open spec fn eval_prefix(v: ItemsView, cs: Seq<(ConstId, Option<SynExpr>)>, i: int) -> (Memo, Seq<FoldDiag>, Seq<Folded>)
    decreases i,
{
    let ns = const_names(v, cs);
    let bm = body_map(cs, ns, cs.len() as int);
    if i <= 0 {
        (Seq::new(cs.len(), |_k: int| None), seq![], seq![])
    } else {
        let p = eval_prefix(v, cs, i - 1);
        let k = i - 1;
        let r = if bm.contains_key(ns[k]) {
            eval_name_spec(cs, ns, bm, bm[ns[k]] as int, Seq::new(cs.len(), |_k: int| false), p.0, p.1)
        } else {
            (Folded::Failed, p.0, p.1)
        };
        let tn = int_name_of(v.types, v.consts[cs[k].0.0 as int].1);
        (r.1, r.2 + range_diags(r.0, tn, cs[k].1 is Some), p.2.push(r.0))
    }
}

/// The constants `vc` after the first `i` listed ones take the values
/// their results `rs` give.
pub open spec fn with_values(
    vc: Seq<(Seq<char>, TypeRef, Option<ConstValue>)>,
    cs: Seq<(ConstId, Option<SynExpr>)>,
    rs: Seq<Folded>,
    i: int,
) -> Seq<(Seq<char>, TypeRef, Option<ConstValue>)>
    decreases i,
{
    if i <= 0 {
        vc
    } else {
        let w = with_values(vc, cs, rs, i - 1);
        let id = cs[i - 1].0.0 as int;
        w.update(id, (w[id].0, w[id].1, folded_value(rs[i - 1])))
    }
}

/// The memoised constants that folded to a scalar, by name, in list order.
pub open spec fn finished(ns: Seq<Seq<char>>, memo: Memo, n: int) -> Seq<(Seq<char>, ConstValue)>
    decreases n,
{
    if n <= 0 {
        seq![]
    } else {
        finished(ns, memo, n - 1) + match memo[n - 1] {
            Some(Folded::Value(c)) => seq![(ns[n - 1], c)],
            _ => seq![],
        }
    }
}

proof fn lemma_body_map_below(cs: Seq<(ConstId, Option<SynExpr>)>, ns: Seq<Seq<char>>, m: int)
    requires
        0 <= m,
    ensures
        bodies_below(body_map(cs, ns, m), m),
    decreases m,
{
    if m > 0 {
        lemma_body_map_below(cs, ns, m - 1);
    }
}

/// Evaluates the listed top-level constants, in order: each constant's
/// value becomes what its name folds to (a reference to another constant
/// folds that one first, once; a constant reached again while it is being
/// folded is a cycle); an integer that does not fit the declared integer
/// type is reported. The diagnostics are appended to the items'. Returns
/// the constants that folded to a scalar, by name.
pub fn eval_consts(hir: &mut HIR, consts: &Vec<(ConstId, Option<SynExpr>)>) -> (values: Vec<(String, ConstValue)>)
    requires
        old(hir).wf(),
        consts@.len() < u32::MAX,
        forall|k: int|
            0 <= k < consts@.len() ==> ((#[trigger] consts@[k]).0.0 as int) < old(hir).consts@.len() && (old(
                hir,
            ).consts@[consts@[k].0.0 as int].ty.0 as int) < old(hir).types@.len(),
    ensures
        final(hir).wf(),
        ({
            let v = old(hir).items_view();
            let p = eval_prefix(v, consts@, consts@.len() as int);
            &&& final(hir).items_view() == (ItemsView { consts: with_values(v.consts, consts@, p.2, consts@.len() as int), ..v })
            &&& appends_fold(old(hir).diagnostics@, final(hir).diagnostics@, p.1)
            &&& values@.map_values(|x: (String, ConstValue)| (x.0@, x.1)) == finished(const_names(v, consts@), p.0, consts@.len() as int)
        }),
{
    let ghost v = hir.items_view();
    let ghost cs = consts@;
    let n = consts.len();
    let mut names: Vec<String> = Vec::new();
    let mut i: usize = 0;
    while i < n
        invariant
            i <= n,
            n == cs.len(),
            cs == consts@,
            v == hir.items_view(),
            forall|k: int|
                0 <= k < cs.len() ==> ((#[trigger] cs[k]).0.0 as int) < hir.consts@.len(),
            names_view(names@) == const_names(v, cs).take(i as int),
        decreases n - i,
    {
        let c = hir.consts.get(consts[i].0);
        let ghost prev = names@;
        names.push(c.name.clone());
        proof {
            assert(names_view(names@) =~= names_view(prev).push(c.name@));
            assert(const_names(v, cs).take(i + 1) =~= const_names(v, cs).take(i as int).push(c.name@));
        }
        i = i + 1;
    }
    let ghost ns = const_names(v, cs);
    proof {
        assert(ns.take(n as int) =~= ns);
    }
    let mut bodies = name_table_new(n);
    i = 0;
    while i < n
        invariant
            i <= n,
            n == cs.len(),
            cs == consts@,
            names_view(names@) == ns,
            ns.len() == n,
            name_table(bodies) == body_map(cs, ns, i as int),
        decreases n - i,
    {
        assert(names@[i as int]@ == ns[i as int]);
        if consts[i].1.is_some() && name_table_get(&bodies, names[i].as_str()).is_none() {
            name_table_insert(&mut bodies, names[i].clone(), i as u32);
        }
        i = i + 1;
    }
    let ghost bm = body_map(cs, ns, n as int);
    proof {
        lemma_body_map_below(cs, ns, n as int);
    }
    let mut vis: Vec<bool> = Vec::new();
    let mut memo: Vec<Option<Folded>> = Vec::new();
    i = 0;
    while i < n
        invariant
            i <= n,
            vis@ == Seq::new(i as nat, |_k: int| false),
            memo@ == Seq::new(i as nat, |_k: int| None::<Folded>),
        decreases n - i,
    {
        vis.push(false);
        memo.push(None);
        proof {
            assert(vis@ =~= Seq::new((i + 1) as nat, |_k: int| false));
            assert(memo@ =~= Seq::new((i + 1) as nat, |_k: int| None::<Folded>));
        }
        i = i + 1;
    }
    let ghost d0 = hir.diagnostics@;
    let ghost no_marks = Seq::new(n as nat, |_k: int| false);
    proof {
        assert(memo@ =~= eval_prefix(v, cs, 0).0);
        lemma_appends_fold_empty(d0);
        assert(with_values(v.consts, cs, eval_prefix(v, cs, 0).2, 0) == v.consts);
        assert(hir.items_view() =~= (ItemsView { consts: with_values(v.consts, cs, eval_prefix(v, cs, 0).2, 0), ..v }));
    }
    i = 0;
    while i < n
        invariant
            i <= n,
            n == cs.len(),
            cs == consts@,
            names_view(names@) == ns,
            ns == const_names(v, cs),
            names@.len() == n,
            name_table(bodies) == bm,
            bm == body_map(cs, ns, n as int),
            bodies_below(bm, n as int),
            vis@ == no_marks,
            no_marks == Seq::new(n as nat, |_k: int| false),
            memo@ == eval_prefix(v, cs, i as int).0,
            memo@.len() == n,
            eval_prefix(v, cs, i as int).2.len() == i,
            appends_fold(d0, hir.diagnostics@, eval_prefix(v, cs, i as int).1),
            hir.items_view() == (ItemsView { consts: with_values(v.consts, cs, eval_prefix(v, cs, i as int).2, i as int), ..v }),
            hir.wf(),
            v.consts.len() == hir.consts@.len(),
            forall|k: int|
                0 <= k < cs.len() ==> ((#[trigger] cs[k]).0.0 as int) < v.consts.len() && (v.consts[cs[k].0.0 as int].1.0 as int) < v.types.len(),
            v.types == hir.types@,
            items_wf(v),
        decreases n - i,
    {
        let ghost p = eval_prefix(v, cs, i as int);
        let ghost k = i as int;
        assert(names@[k]@ == ns[k]);
        let x = match name_table_get(&bodies, names[i].as_str()) {
            Some(j) => eval_name(consts, &names, &bodies, j as usize, &mut vis, &mut memo, &mut hir.diagnostics, Ghost(d0), Ghost(p.1)),
            None => Folded::Failed,
        };
        let ghost r = if bm.contains_key(ns[k]) {
            eval_name_spec(cs, ns, bm, bm[ns[k]] as int, no_marks, p.0, p.1)
        } else {
            (Folded::Failed, p.0, p.1)
        };
        let id = consts[i].0;
        let cur = hir.consts.get(id);
        let ghost wv = with_values(v.consts, cs, p.2, i as int);
        proof {
            lemma_with_values_keeps(v.consts, cs, p.2, i as int);
        }
        assert(wv[id.0 as int] == (cur.name@, cur.ty, cur.value));
        assert(cur.ty == v.consts[id.0 as int].1);
        let ty = cur.ty;
        let name = cur.name.clone();
        let value = match x {
            Folded::Value(c) => Some(c),
            _ => None,
        };
        let ghost d1 = hir.diagnostics@;
        let ghost tn = int_name_of(v.types, v.consts[cs[k].0.0 as int].1);
        if consts[i].1.is_some() {
            let tname = int_type_name(ty, &hir.types);
            let tref = match &tname {
                Some(t) => Some(t.as_str()),
                None => None,
            };
            if let Some(err) = const_range_error(value, tref) {
                hir.diagnostics.push(HirError::Const(err));
                proof {
                    let (v2, t2) = (value->Some_0->Int_0, tref->Some_0@);
                    let (lo, hi) = spec_int_range(t2)->Some_0;
                    assert(range_diags(x, tn, true) == seq![FoldDiag::OutOfRange(v2, t2, lo, hi)]);
                    lemma_appends_fold_push(d0, d1, r.2, hir.diagnostics@.last(), FoldDiag::OutOfRange(v2, t2, lo, hi));
                }
            } else {
                proof {
                    assert(range_diags(x, tn, true) =~= seq![]);
                    assert(r.2 + range_diags(x, tn, true) =~= r.2);
                }
            }
        } else {
            proof {
                assert(r.2 + range_diags(x, tn, false) =~= r.2);
            }
        }
        hir.consts.set(id, Const { name, ty, value });
        proof {
            let p1 = eval_prefix(v, cs, i + 1);
            assert(p1.2 =~= p.2.push(x));
            assert(with_values(v.consts, cs, p.2.push(x), i as int) == wv) by {
                lemma_with_values_prefix(v.consts, cs, p.2, x, i as int);
            }
            assert(hir.items_view() =~= (ItemsView { consts: with_values(v.consts, cs, p1.2, i + 1), ..v }));
            lemma_with_values_keeps(v.consts, cs, p1.2, i + 1);
            assert(hir.items_view().consts.len() == v.consts.len());
            assert(items_wf(hir.items_view()));
        }
        i = i + 1;
    }
    let ghost pf = eval_prefix(v, cs, n as int);
    let mut out: Vec<(String, ConstValue)> = Vec::new();
    i = 0;
    while i < n
        invariant
            i <= n,
            memo@ == pf.0,
            memo@.len() == n,
            names_view(names@) == ns,
            names@.len() == n,
            out@.map_values(|x: (String, ConstValue)| (x.0@, x.1)) == finished(ns, pf.0, i as int),
        decreases n - i,
    {
        let ghost prev = out@;
        if let Some(Folded::Value(c)) = memo[i] {
            out.push((names[i].clone(), c));
            proof {
                assert(names@[i as int]@ == ns[i as int]);
                assert(out@.map_values(|x: (String, ConstValue)| (x.0@, x.1)) =~= prev.map_values(
                    |x: (String, ConstValue)| (x.0@, x.1),
                ).push((ns[i as int], c)));
            }
        }
        assert(out@.map_values(|x: (String, ConstValue)| (x.0@, x.1)) =~= finished(ns, pf.0, i + 1));
        i = i + 1;
    }
    out
}

proof fn lemma_with_values_keeps(
    vc: Seq<(Seq<char>, TypeRef, Option<ConstValue>)>,
    cs: Seq<(ConstId, Option<SynExpr>)>,
    rs: Seq<Folded>,
    i: int,
)
    requires
        0 <= i <= cs.len(),
        i <= rs.len(),
        forall|k: int| 0 <= k < cs.len() ==> ((#[trigger] cs[k]).0.0 as int) < vc.len(),
    ensures
        with_values(vc, cs, rs, i).len() == vc.len(),
        forall|j: int|
            0 <= j < vc.len() ==> (#[trigger] with_values(vc, cs, rs, i)[j]).0 == vc[j].0 && with_values(vc, cs, rs, i)[j].1
                == vc[j].1,
    decreases i,
{
    if i > 0 {
        lemma_with_values_keeps(vc, cs, rs, i - 1);
    }
}

proof fn lemma_with_values_prefix(
    vc: Seq<(Seq<char>, TypeRef, Option<ConstValue>)>,
    cs: Seq<(ConstId, Option<SynExpr>)>,
    rs: Seq<Folded>,
    x: Folded,
    i: int,
)
    requires
        0 <= i <= rs.len(),
    ensures
        with_values(vc, cs, rs.push(x), i) == with_values(vc, cs, rs, i),
    decreases i,
{
    if i > 0 {
        lemma_with_values_prefix(vc, cs, rs, x, i - 1);
        assert(rs.push(x)[i - 1] == rs[i - 1]);
    }
}

/// Folding reads only the constants of the items and their names.
proof fn lemma_fold_view(e: SynExpr, v1: ItemsView, v2: ItemsView)
    requires
        v1.consts == v2.consts,
        v1.scope == v2.scope,
    ensures
        spec_fold(e, seq![], seq![], v1) == spec_fold(e, seq![], seq![], v2),
    decreases e,
{
    match e {
        SynExpr::Paren(inner) => lemma_fold_boxed_view(inner, v1, v2),
        SynExpr::Prefix { operand, .. } => lemma_fold_boxed_view(operand, v1, v2),
        SynExpr::Binary { lhs, rhs, .. } => {
            lemma_fold_boxed_view(lhs, v1, v2);
            lemma_fold_boxed_view(rhs, v1, v2);
        },
        SynExpr::Cast { operand: Some(b), .. } => lemma_fold_view(*b, v1, v2),
        _ => {},
    }
}

proof fn lemma_fold_boxed_view(e: Option<Box<SynExpr>>, v1: ItemsView, v2: ItemsView)
    requires
        v1.consts == v2.consts,
        v1.scope == v2.scope,
    ensures
        spec_fold_boxed(e, seq![], seq![], v1) == spec_fold_boxed(e, seq![], seq![], v2),
    decreases e,
{
    if let Some(b) = e {
        lemma_fold_view(*b, v1, v2);
    }
}

/// Folding the initializers of the first `i` listed globals against the
/// constants of `v`: the diagnostics (each global's folding diagnostics,
/// then its range diagnostic) and each global's result.
pub open spec fn global_prefix(v: ItemsView, gs: Seq<(GlobalId, Option<SynExpr>)>, i: int) -> (Seq<FoldDiag>, Seq<Folded>)
    decreases i,
{
    if i <= 0 {
        (seq![], seq![])
    } else {
        let p = global_prefix(v, gs, i - 1);
        let k = i - 1;
        let r = match gs[k].1 {
            Some(e) => spec_fold(e, seq![], seq![], v),
            None => (Folded::Failed, seq![]),
        };
        let tn = int_name_of(v.types, v.globals[gs[k].0.0 as int].1);
        (p.0 + r.1 + range_diags(r.0, tn, gs[k].1 is Some), p.1.push(r.0))
    }
}

/// The globals `vg` after the first `i` listed ones take the values their
/// results `rs` give.
pub open spec fn with_global_values(
    vg: Seq<(Seq<char>, TypeRef, bool, Option<ConstValue>)>,
    gs: Seq<(GlobalId, Option<SynExpr>)>,
    rs: Seq<Folded>,
    i: int,
) -> Seq<(Seq<char>, TypeRef, bool, Option<ConstValue>)>
    decreases i,
{
    if i <= 0 {
        vg
    } else {
        let w = with_global_values(vg, gs, rs, i - 1);
        let id = gs[i - 1].0.0 as int;
        w.update(id, (w[id].0, w[id].1, w[id].2, folded_value(rs[i - 1])))
    }
}

proof fn lemma_global_values_keeps(
    vg: Seq<(Seq<char>, TypeRef, bool, Option<ConstValue>)>,
    gs: Seq<(GlobalId, Option<SynExpr>)>,
    rs: Seq<Folded>,
    i: int,
)
    requires
        0 <= i <= gs.len(),
        i <= rs.len(),
        forall|k: int| 0 <= k < gs.len() ==> ((#[trigger] gs[k]).0.0 as int) < vg.len(),
    ensures
        with_global_values(vg, gs, rs, i).len() == vg.len(),
        forall|j: int|
            0 <= j < vg.len() ==> (#[trigger] with_global_values(vg, gs, rs, i)[j]).0 == vg[j].0 && with_global_values(
                vg,
                gs,
                rs,
                i,
            )[j].1 == vg[j].1 && with_global_values(vg, gs, rs, i)[j].2 == vg[j].2,
    decreases i,
{
    if i > 0 {
        lemma_global_values_keeps(vg, gs, rs, i - 1);
    }
}

proof fn lemma_global_values_prefix(
    vg: Seq<(Seq<char>, TypeRef, bool, Option<ConstValue>)>,
    gs: Seq<(GlobalId, Option<SynExpr>)>,
    rs: Seq<Folded>,
    x: Folded,
    i: int,
)
    requires
        0 <= i <= rs.len(),
    ensures
        with_global_values(vg, gs, rs.push(x), i) == with_global_values(vg, gs, rs, i),
    decreases i,
{
    if i > 0 {
        lemma_global_values_prefix(vg, gs, rs, x, i - 1);
        assert(rs.push(x)[i - 1] == rs[i - 1]);
    }
}

/// Folds the initializers of the listed globals against the evaluated
/// top-level constants, in order: each global's value becomes its folded
/// initializer, and an integer that does not fit the declared integer type
/// is reported. The diagnostics are appended to the items'.
pub fn eval_globals(hir: &mut HIR, globals: &Vec<(GlobalId, Option<SynExpr>)>)
    requires
        old(hir).wf(),
        forall|k: int|
            0 <= k < globals@.len() ==> ((#[trigger] globals@[k]).0.0 as int) < old(hir).globals@.len() && (old(
                hir,
            ).globals@[globals@[k].0.0 as int].ty.0 as int) < old(hir).types@.len(),
    ensures
        final(hir).wf(),
        ({
            let v = old(hir).items_view();
            let p = global_prefix(v, globals@, globals@.len() as int);
            &&& final(hir).items_view() == (ItemsView {
                globals: with_global_values(v.globals, globals@, p.1, globals@.len() as int),
                ..v
            })
            &&& appends_fold(old(hir).diagnostics@, final(hir).diagnostics@, p.0)
        }),
{
    let ghost v = hir.items_view();
    let ghost gs = globals@;
    let n = globals.len();
    let scopes = Scopes::default();
    let lconsts: TypedArena<LocalConst, LocalConstId> = TypedArena::new();
    let mut diags: Vec<HirError> = Vec::new();
    let mut i: usize = 0;
    proof {
        lemma_appends_fold_empty(diags@);
        assert(scopes@ =~= seq![]);
        assert(lconsts@ =~= seq![]);
        assert(hir.items_view() =~= (ItemsView {
            globals: with_global_values(v.globals, gs, global_prefix(v, gs, 0).1, 0),
            ..v
        }));
    }
    while i < n
        invariant
            i <= n,
            n == gs.len(),
            gs == globals@,
            scopes@ == Seq::<Map<Seq<char>, crate::scopes::Binding>>::empty(),
            lconsts@ == Seq::<LocalConst>::empty(),
            global_prefix(v, gs, i as int).1.len() == i,
            appends_fold(seq![], diags@, global_prefix(v, gs, i as int).0),
            hir.items_view() == (ItemsView {
                globals: with_global_values(v.globals, gs, global_prefix(v, gs, i as int).1, i as int),
                ..v
            }),
            hir.diagnostics@ == old(hir).diagnostics@,
            v.globals.len() == hir.globals@.len(),
            hir.wf(),
            items_wf(v),
            v == old(hir).items_view(),
            forall|k: int|
                0 <= k < gs.len() ==> ((#[trigger] gs[k]).0.0 as int) < v.globals.len() && (v.globals[gs[k].0.0 as int].1.0 as int)
                    < v.types.len(),
            v.types == hir.types@,
        decreases n - i,
    {
        let ghost p = global_prefix(v, gs, i as int);
        let ghost k = i as int;
        let ghost d1 = diags@;
        let x = match &globals[i].1 {
            Some(e) => {
                proof {
                    lemma_fold_view(*e, hir.items_view(), v);
                    lemma_appends_fold_empty(d1);
                }
                let r = fold_const(e, &scopes, &lconsts, hir, &mut diags);
                proof {
                    lemma_appends_fold_trans(seq![], d1, diags@, p.0, spec_fold(*e, seq![], seq![], v).1);
                }
                r
            },
            None => {
                proof {
                    assert(p.0 + seq![] =~= p.0);
                }
                Folded::Failed
            },
        };
        let ghost r = match gs[k].1 {
            Some(e) => spec_fold(e, seq![], seq![], v),
            None => (Folded::Failed, seq![]),
        };
        let ghost d2 = diags@;
        assert(appends_fold(seq![], d2, p.0 + r.1));
        let id = globals[i].0;
        let cur = hir.globals.get(id);
        let ghost wv = with_global_values(v.globals, gs, p.1, i as int);
        proof {
            lemma_global_values_keeps(v.globals, gs, p.1, i as int);
        }
        assert(wv[id.0 as int] == (cur.name@, cur.ty, cur.mutable, cur.value));
        let ty = cur.ty;
        let name = cur.name.clone();
        let mutable = cur.mutable;
        let value = match x {
            Folded::Value(c) => Some(c),
            _ => None,
        };
        let ghost tn = int_name_of(v.types, v.globals[gs[k].0.0 as int].1);
        if globals[i].1.is_some() {
            let tname = int_type_name(ty, &hir.types);
            let tref = match &tname {
                Some(t) => Some(t.as_str()),
                None => None,
            };
            if let Some(err) = const_range_error(value, tref) {
                diags.push(HirError::Const(err));
                proof {
                    let (v2, t2) = (value->Some_0->Int_0, tref->Some_0@);
                    let (lo, hi) = spec_int_range(t2)->Some_0;
                    assert(range_diags(x, tn, true) == seq![FoldDiag::OutOfRange(v2, t2, lo, hi)]);
                    lemma_appends_fold_push(seq![], d2, p.0 + r.1, diags@.last(), FoldDiag::OutOfRange(v2, t2, lo, hi));
                }
            } else {
                proof {
                    assert(p.0 + r.1 + range_diags(x, tn, true) =~= p.0 + r.1);
                }
            }
        } else {
            proof {
                assert(p.0 + r.1 + range_diags(x, tn, false) =~= p.0 + r.1);
            }
        }
        hir.globals.set(id, Global { name, ty, mutable, value });
        proof {
            let p1 = global_prefix(v, gs, i + 1);
            assert(p1.1 =~= p.1.push(x));
            lemma_global_values_prefix(v.globals, gs, p.1, x, i as int);
            assert(hir.items_view() =~= (ItemsView { globals: with_global_values(v.globals, gs, p1.1, i + 1), ..v }));
            lemma_global_values_keeps(v.globals, gs, p1.1, i + 1);
            assert(hir.items_view().globals.len() == v.globals.len());
            assert(items_wf(hir.items_view()));
        }
        i = i + 1;
    }
    let ghost dl = diags@;
    let ghost p = global_prefix(v, gs, n as int);
    hir.diagnostics.append(&mut diags);
    proof {
        lemma_appends_fold_shift(old(hir).diagnostics@, dl, p.0);
    }
}

/// Diagnostics appended to nothing stay appended after any prefix.
proof fn lemma_appends_fold_shift(a: Seq<HirError>, l: Seq<HirError>, ds: Seq<FoldDiag>)
    requires
        appends_fold(seq![], l, ds),
    ensures
        appends_fold(a, a + l, ds),
{
    assert((a + l).take(a.len() as int) =~= a);
    assert forall|k: int| 0 <= k < ds.len() implies is_fold_diag(#[trigger] (a + l)[a.len() + k], ds[k]) by {
        assert((a + l)[a.len() + k] == l[k]);
        assert(l[0 + k] == l[k]);
    }
}

} // verus!
