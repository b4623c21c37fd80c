//! Lowering-time checks that need no full type information: the `println`
//! placeholder arity, integer literals against their integer type's range,
//! and struct/union value recursion.

use vstd::prelude::*;

use crate::consts::{int_type_range, spec_int_type_range};
use crate::body::{Body, Expr, Literal};
use crate::consts::UnaryOp;
use crate::errors::TypeError;
use crate::ids::ExprId;
use crate::items::{declares_type, ScopeMaps, HIR};
use crate::typegraph::{compute_scc, is_dep_graph, on_cycle, same_cycle_at, type_nodes, NodeView, TypeDecls, TypeNode};
use crate::types::{children_below, lemma_fn_children, KindView, TypeInterner, TypeKind, TypeRef};
use crate::names::{is_primitive_type_name, spec_is_primitive_type_name};
use crate::text::{decimal, push_decimal, str_chars, str_eq};

verus! {

broadcast use vstd::string::group_string_axioms;

/// The number of `{}` placeholders in a format string: `{{` and `}}` are
/// escaped braces, `{}` is a placeholder, and a lone brace prints as is.
pub open spec fn placeholders(s: Seq<char>) -> nat
    decreases s.len(),
{
    if s.len() == 0 {
        0
    } else if s.len() >= 2 && s[0] == '{' && s[1] == '{' {
        placeholders(s.skip(2))
    } else if s.len() >= 2 && s[0] == '{' && s[1] == '}' {
        1 + placeholders(s.skip(2))
    } else if s.len() >= 2 && s[0] == '}' && s[1] == '}' {
        placeholders(s.skip(2))
    } else {
        placeholders(s.skip(1))
    }
}

proof fn lemma_placeholders_bound(s: Seq<char>)
    ensures
        placeholders(s) <= s.len(),
    decreases s.len(),
{
    if s.len() >= 2 {
        lemma_placeholders_bound(s.skip(2));
    }
    if s.len() >= 1 {
        lemma_placeholders_bound(s.skip(1));
    }
}

/// Counts the `{}` placeholders of a format string.
pub fn count_placeholders(s: &str) -> (n: usize)
    ensures
        n == placeholders(s@),
{
    let cs = str_chars(s);
    let ghost v = cs@;
    let mut n: usize = 0;
    let mut i: usize = 0;
    proof {
        assert(v.skip(0) =~= v);
        lemma_placeholders_bound(v);
    }
    while i < cs.len()
        invariant
            v == cs@,
            placeholders(v) <= v.len(),
            i <= v.len(),
            n + placeholders(v.skip(i as int)) == placeholders(v),
        decreases v.len() - i,
    {
        let ghost rest = v.skip(i as int);
        proof {
            lemma_placeholders_bound(rest);
            assert(rest.skip(1) =~= v.skip(i + 1));
            if i + 2 <= v.len() {
                assert(rest.skip(2) =~= v.skip(i + 2));
            }
        }
        let c = cs[i];
        if i + 1 < cs.len() && c == '{' && cs[i + 1] == '{' {
            i = i + 2;
        } else if i + 1 < cs.len() && c == '{' && cs[i + 1] == '}' {
            n = n + 1;
            i = i + 2;
        } else if i + 1 < cs.len() && c == '}' && cs[i + 1] == '}' {
            i = i + 2;
        } else {
            i = i + 1;
        }
    }
    proof {
        assert(v.skip(i as int).len() == 0);
    }
    n
}

/// The `println` arity diagnostic: a call with no arguments lacks its
/// format string; when the format string is a literal (`fmt`), its
/// placeholder count must equal the number of values after it.
pub open spec fn spec_println_error(n_args: nat, fmt: Option<Seq<char>>) -> Option<(nat, nat)> {
    match fmt {
        Some(s) => if n_args >= 1 && placeholders(s) != n_args - 1 {
            Some((placeholders(s), (n_args - 1) as nat))
        } else {
            None
        },
        None => None,
    }
}

/// Checks a `println` call with `n_args` arguments whose first argument,
/// when it is a string literal, reads `fmt`.
pub fn check_println_args(n_args: usize, fmt: Option<&str>) -> (e: Option<TypeError>)
    ensures
        n_args == 0 ==> e == Some(TypeError::PrintlnMissingFormat),
        n_args > 0 ==> match spec_println_error(
            n_args as nat,
            match fmt {
                Some(s) => Some(s@),
                None => None,
            },
        ) {
            Some((p, a)) => e == Some(TypeError::PrintlnArityMismatch { placeholders: p as usize, args: a as usize }),
            None => e is None,
        },
{
    if n_args == 0 {
        return Some(TypeError::PrintlnMissingFormat);
    }
    match fmt {
        Some(s) => {
            let placeholders = count_placeholders(s);
            if placeholders != n_args - 1 {
                Some(TypeError::PrintlnArityMismatch { placeholders, args: n_args - 1 })
            } else {
                None
            }
        },
        None => None,
    }
}

/// The decimal spelling of `v`, with a `-` in front when `neg`.
pub open spec fn signed_decimal(v: nat, neg: bool) -> Seq<char> {
    if neg {
        seq!['-'] + decimal(v)
    } else {
        decimal(v)
    }
}

/// Whether an integer literal of magnitude `v` (negated when `negated`)
/// overflows the integer type named `ty`: its range is `-neg_mag..=max`.
pub open spec fn literal_overflows(v: u128, ty: Seq<char>, negated: bool) -> bool {
    match spec_int_type_range(ty) {
        Some((neg_mag, max)) => v > if negated {
            neg_mag
        } else {
            max
        },
        None => false,
    }
}

/// `e` is the out-of-range diagnostic for an integer literal of magnitude
/// `v` typed `ty` (negated when `negated`): it spells the literal, the type,
/// and the type's bounds.
pub open spec fn is_range_error(e: TypeError, v: u128, ty: Seq<char>, negated: bool) -> bool {
    match e {
        TypeError::IntLiteralOutOfRange { value, ty: t, min, max } => {
            let (neg_mag, mx) = spec_int_type_range(ty)->0;
            &&& value@ == signed_decimal(v as nat, negated)
            &&& t@ == ty
            &&& min@ == signed_decimal(neg_mag as nat, neg_mag != 0)
            &&& max@ == decimal(mx as nat)
        },
        _ => false,
    }
}

/// The out-of-range diagnostic for an integer literal of magnitude `v`
/// typed as the integer type named `ty` (`negated`: it is the operand of a
/// unary minus); `None` when `ty` is no integer type or the value fits.
pub fn int_literal_range_error(v: u128, ty: &str, negated: bool) -> (e: Option<TypeError>)
    ensures
        e is Some <==> literal_overflows(v, ty@, negated),
        e matches Some(err) ==> is_range_error(err, v, ty@, negated),
{
    let (neg_mag, max) = match int_type_range(ty) {
        Some(r) => r,
        None => return None,
    };
    let limit = if negated {
        neg_mag
    } else {
        max
    };
    if v <= limit {
        return None;
    }
    let mut value = String::new();
    if negated {
        value.append("-");
    }
    push_decimal(&mut value, v);
    let mut min = String::new();
    if neg_mag == 0 {
        min.append("0");
    } else {
        min.append("-");
        push_decimal(&mut min, neg_mag);
    }
    let mut mx = String::new();
    push_decimal(&mut mx, max);
    let t = ty.to_owned();
    proof {
        reveal_strlit("-");
        reveal_strlit("0");
        assert(value@ =~= signed_decimal(v as nat, negated));
        assert(min@ =~= signed_decimal(neg_mag as nat, neg_mag != 0)) by {
            if neg_mag == 0 {
                assert(decimal(0) =~= seq!['0']);
            }
        }
        assert(mx@ =~= decimal(max as nat));
    }
    Some(TypeError::IntLiteralOutOfRange { value, ty: t, min, max: mx })
}

/// An integer literal of a body: its expression, magnitude, and the type
/// inferred for it, if any.
#[derive(Debug, Clone, Copy, PartialEq, Eq)]
pub struct IntLiteral {
    pub expr: ExprId,
    pub value: u128,
    pub ty: Option<TypeRef>,
}

/// The integer-type name the literal `l` was typed with: the name of its
/// path type, if its type is one.
pub open spec fn literal_type_name(kinds: Seq<KindView>, l: IntLiteral) -> Option<Seq<char>> {
    match l.ty {
        Some(t) => if (t.0 as int) < kinds.len() {
            match kinds[t.0 as int] {
                KindView::Path(n) => Some(n),
                _ => None,
            }
        } else {
            None
        },
        None => None,
    }
}

/// The literal overflows its type (negated when its expression is the
/// operand of a unary minus).
pub open spec fn literal_flagged(kinds: Seq<KindView>, l: IntLiteral, negs: Seq<ExprId>) -> bool {
    match literal_type_name(kinds, l) {
        Some(n) => literal_overflows(l.value, n, negs.contains(l.expr)),
        None => false,
    }
}

/// The literals among `lits` that overflow their types, in order.
pub open spec fn flagged_literals(kinds: Seq<KindView>, lits: Seq<IntLiteral>, negs: Seq<ExprId>) -> Seq<
    IntLiteral,
>
    decreases lits.len(),
{
    if lits.len() == 0 {
        seq![]
    } else if literal_flagged(kinds, lits.last(), negs) {
        flagged_literals(kinds, lits.drop_last(), negs).push(lits.last())
    } else {
        flagged_literals(kinds, lits.drop_last(), negs)
    }
}

/// Whether `v` holds `x`.
fn contains_expr(v: &Vec<ExprId>, x: ExprId) -> (r: bool)
    ensures
        r == v@.contains(x),
{
    let mut i: usize = 0;
    while i < v.len()
        invariant
            i <= v@.len(),
            forall|j: int| 0 <= j < i ==> v@[j] != x,
        decreases v@.len() - i,
    {
        if v[i].0 == x.0 {
            return true;
        }
        i = i + 1;
    }
    false
}

/// Checks the integer literals `lits` against the range of the integer
/// type each was typed with (`neg_operands`: the operands of unary minus),
/// in order: one diagnostic per literal that does not fit.
#[verifier::spinoff_prover]
pub fn flag_int_literals(lits: &Vec<IntLiteral>, neg_operands: &Vec<ExprId>, types: &TypeInterner) -> (out: Vec<(ExprId, TypeError)>)
    requires
        types.wf(),
    ensures
        out@.len() == flagged_literals(types@, lits@, neg_operands@).len(),
        forall|k: int|
            0 <= k < out@.len() ==> {
                let l = #[trigger] flagged_literals(types@, lits@, neg_operands@)[k];
                &&& out@[k].0 == l.expr
                &&& is_range_error(
                    out@[k].1,
                    l.value,
                    literal_type_name(types@, l)->0,
                    neg_operands@.contains(l.expr),
                )
            },
{
    let ghost kinds = types@;
    let mut out: Vec<(ExprId, TypeError)> = Vec::new();
    let mut i: usize = 0;
    while i < lits.len()
        invariant
            types.wf(),
            kinds == types@,
            i <= lits@.len(),
            out@.len() == flagged_literals(kinds, lits@.take(i as int), neg_operands@).len(),
            forall|k: int|
                0 <= k < out@.len() ==> {
                    let l = #[trigger] flagged_literals(kinds, lits@.take(i as int), neg_operands@)[k];
                    &&& out@[k].0 == l.expr
                    &&& is_range_error(out@[k].1, l.value, literal_type_name(kinds, l)->0, neg_operands@.contains(l.expr))
                },
        decreases lits@.len() - i,
    {
        let l = lits[i];
        let ghost prev = flagged_literals(kinds, lits@.take(i as int), neg_operands@);
        proof {
            assert(lits@.take(i + 1).drop_last() =~= lits@.take(i as int));
            assert(lits@.take(i + 1).last() == l);
        }
        let ghost out0 = out@;
        if let Some(t) = l.ty {
            if (t.0 as usize) < types.len() {
                if let TypeKind::Path(name) = types.lookup(t) {
                    let negated = contains_expr(neg_operands, l.expr);
                    if let Some(e) = int_literal_range_error(l.value, name.as_str(), negated) {
                        out.push((l.expr, e));
                        proof {
                            let cur = flagged_literals(kinds, lits@.take(i + 1), neg_operands@);
                            assert(cur == prev.push(l));
                            assert forall|k: int| 0 <= k < out@.len() implies {
                                let m = #[trigger] cur[k];
                                &&& out@[k].0 == m.expr
                                &&& is_range_error(out@[k].1, m.value, literal_type_name(kinds, m)->0, neg_operands@.contains(m.expr))
                            } by {
                                if k < out0.len() {
                                    assert(out@[k] == out0[k]);
                                    assert(cur[k] == prev[k]);
                                }
                            }
                        }
                    }
                }
            }
        }
        i = i + 1;
    }
    assert(lits@.take(lits@.len() as int) =~= lits@);
    out
}

/// The integer literals of `exprs`, in arena order, each with the type
/// recorded for it in `tys`, if any.
pub open spec fn body_int_literals(exprs: Seq<Expr>, tys: Map<nat, TypeRef>) -> Seq<IntLiteral>
    decreases exprs.len(),
{
    if exprs.len() == 0 {
        seq![]
    } else {
        let prev = body_int_literals(exprs.drop_last(), tys);
        let i = (exprs.len() - 1) as nat;
        match exprs.last() {
            Expr::Literal(Literal::Int(v)) => prev.push(
                IntLiteral {
                    expr: ExprId(i as u32),
                    value: v,
                    ty: if tys.contains_key(i) {
                        Some(tys[i])
                    } else {
                        None
                    },
                },
            ),
            _ => prev,
        }
    }
}

/// The operands of the unary minuses of `exprs`, in arena order.
pub open spec fn neg_operands_of(exprs: Seq<Expr>) -> Seq<ExprId>
    decreases exprs.len(),
{
    if exprs.len() == 0 {
        seq![]
    } else {
        let prev = neg_operands_of(exprs.drop_last());
        match exprs.last() {
            Expr::Unary { op: UnaryOp::Neg, operand } => prev.push(operand),
            _ => prev,
        }
    }
}

/// Checks every integer literal of `body` against the range of the integer
/// type recorded for it (the negative bound when it is the operand of a
/// unary minus), in arena order: one diagnostic per literal that does not
/// fit; a literal with no recorded integer type is not checked.
pub fn check_int_literal_ranges(body: &Body, types: &TypeInterner) -> (out: Vec<(ExprId, TypeError)>)
    requires
        types.wf(),
        body.exprs@.len() <= u32::MAX,
    ensures
        ({
            let lits = body_int_literals(body.exprs@, body.expr_types@);
            let negs = neg_operands_of(body.exprs@);
            &&& out@.len() == flagged_literals(types@, lits, negs).len()
            &&& forall|k: int|
                0 <= k < out@.len() ==> {
                    let l = #[trigger] flagged_literals(types@, lits, negs)[k];
                    &&& out@[k].0 == l.expr
                    &&& is_range_error(out@[k].1, l.value, literal_type_name(types@, l)->0, negs.contains(l.expr))
                }
        }),
{
    let exprs = body.exprs.as_slice();
    let ghost tys = body.expr_types@;
    let mut lits: Vec<IntLiteral> = Vec::new();
    let mut negs: Vec<ExprId> = Vec::new();
    let mut i: usize = 0;
    while i < exprs.len()
        invariant
            i <= exprs@.len(),
            exprs@ == body.exprs@,
            tys == body.expr_types@,
            exprs@.len() <= u32::MAX,
            lits@ == body_int_literals(exprs@.take(i as int), tys),
            negs@ == neg_operands_of(exprs@.take(i as int)),
        decreases exprs@.len() - i,
    {
        proof {
            assert(exprs@.take(i + 1).drop_last() =~= exprs@.take(i as int));
            assert(exprs@.take(i + 1).last() == exprs@[i as int]);
        }
        match &exprs[i] {
            Expr::Literal(Literal::Int(v)) => {
                let id = ExprId(i as u32);
                let ty = body.expr_types.get(id);
                lits.push(IntLiteral { expr: id, value: *v, ty });
            },
            Expr::Unary { op: UnaryOp::Neg, operand } => {
                negs.push(*operand);
            },
            _ => {},
        }
        i = i + 1;
    }
    proof {
        assert(exprs@.take(exprs@.len() as int) =~= exprs@);
    }
    flag_int_literals(&lits, &negs, types)
}

/// A struct or union declaration as named in the source: the span of its
/// name and the name.
pub struct DeclName {
    pub start: u32,
    pub end: u32,
    pub name: String,
}

/// A declaration name as a value.
pub open spec fn decl_name_view(d: DeclName) -> (u32, u32, Seq<char>) {
    (d.start, d.end, d.name@)
}

/// The nominal named `n` lies on a cycle of `g` over `nodes`.
pub open spec fn nominal_on_cycle(nodes: Seq<NodeView>, g: Seq<Seq<usize>>, n: Seq<char>) -> bool {
    exists|i: int| 0 <= i < nodes.len() && nodes[i] == NodeView::Nominal(n) && #[trigger] on_cycle(g, i)
}

/// The nominals named `a` and `b` lie on one cycle of `g` over `nodes`.
pub open spec fn nominals_same_cycle(nodes: Seq<NodeView>, g: Seq<Seq<usize>>, a: Seq<char>, b: Seq<char>) -> bool {
    exists|i: int, j: int|
        0 <= i < nodes.len() && 0 <= j < nodes.len() && nodes[i] == NodeView::Nominal(a) && nodes[j]
            == NodeView::Nominal(b) && #[trigger] same_cycle_at(g, i, j)
}

/// The first `k` declarations, keeping those on a value cycle whose cycle
/// has no earlier kept member: one per cycle, its first-declared member.
pub open spec fn cycle_reps(nodes: Seq<NodeView>, g: Seq<Seq<usize>>, ds: Seq<(u32, u32, Seq<char>)>, k: int) -> Seq<
    (u32, u32, Seq<char>),
>
    decreases k,
{
    if k <= 0 {
        seq![]
    } else {
        let prev = cycle_reps(nodes, g, ds, k - 1);
        let d = ds[k - 1];
        if nominal_on_cycle(nodes, g, d.2) && forall|r: int|
            0 <= r < prev.len() ==> !#[trigger] nominals_same_cycle(nodes, g, prev[r].2, d.2) {
            prev.push(d)
        } else {
            prev
        }
    }
}

/// The value-recursion check: one `RecursiveValueType` diagnostic per
/// value-dependency cycle, on the first-declared struct or union of the
/// cycle (`names`: the struct and union declarations in source order).
#[verifier::spinoff_prover]
pub fn check_value_recursion(decls: &TypeDecls, types: &TypeInterner, names: &Vec<DeclName>) -> (out: Vec<(u32, u32, TypeError)>)
    requires
        types.wf(),
    ensures
        exists|g: Seq<Seq<usize>>|
            #[trigger] is_dep_graph(g, types@, decls@, type_nodes(types@, decls@), true) && {
                let reps = cycle_reps(
                    type_nodes(types@, decls@),
                    g,
                    names@.map_values(|d: DeclName| decl_name_view(d)),
                    names@.len() as int,
                );
                &&& out@.len() == reps.len()
                &&& forall|k: int|
                    0 <= k < out@.len() ==> {
                        &&& out@[k].0 == reps[k].0
                        &&& out@[k].1 == reps[k].1
                        &&& (#[trigger] out@[k]).2 matches TypeError::RecursiveValueType { name } && name@
                            == reps[k].2
                    }
            },
{
    let scc = compute_scc(decls, types);
    let ghost nodes = scc.node_seq();
    let ghost g = scc.deps();
    let ghost ds = names@.map_values(|d: DeclName| decl_name_view(d));
    let mut out: Vec<(u32, u32, TypeError)> = Vec::new();
    let mut reps: Vec<TypeNode> = Vec::new();
    let mut i: usize = 0;
    while i < names.len()
        invariant
            nodes == scc.node_seq(),
            g == scc.deps(),
            ds == names@.map_values(|d: DeclName| decl_name_view(d)),
            i <= names@.len(),
            out@.len() == cycle_reps(nodes, g, ds, i as int).len(),
            reps@.len() == out@.len(),
            forall|k: int|
                0 <= k < out@.len() ==> {
                    let r = cycle_reps(nodes, g, ds, i as int)[k];
                    &&& out@[k].0 == r.0
                    &&& out@[k].1 == r.1
                    &&& (#[trigger] out@[k]).2 matches TypeError::RecursiveValueType { name } && name@ == r.2
                    &&& reps@[k]@ == NodeView::Nominal(r.2)
                },
        decreases names@.len() - i,
    {
        let d = &names[i];
        let ghost prev = cycle_reps(nodes, g, ds, i as int);
        assert(ds[i as int] == (d.start, d.end, d.name@));
        let node = TypeNode::Nominal(d.name.clone());
        assert(node@ == NodeView::Nominal(d.name@));
        let mut keep = scc.contains(&node);
        proof {
            assert(keep == nominal_on_cycle(nodes, g, d.name@));
        }
        proof {
            assert forall|k: int| 0 <= k < reps@.len() implies (#[trigger] reps@[k])@ == NodeView::Nominal(prev[k].2) by {
                assert(out@[k].0 == prev[k].0);
            }
        }
        let mut j: usize = 0;
        while keep && j < reps.len()
            invariant
                nodes == scc.node_seq(),
                g == scc.deps(),
                prev == cycle_reps(nodes, g, ds, i as int),
                node@ == NodeView::Nominal(d.name@),
                reps@.len() == prev.len(),
                forall|k: int| 0 <= k < reps@.len() ==> (#[trigger] reps@[k])@ == NodeView::Nominal(prev[k].2),
                j <= reps@.len(),
                keep ==> nominal_on_cycle(nodes, g, d.name@) && forall|r: int|
                    0 <= r < j ==> !#[trigger] nominals_same_cycle(nodes, g, prev[r].2, d.name@),
                !keep ==> !(nominal_on_cycle(nodes, g, d.name@) && forall|r: int|
                    0 <= r < prev.len() ==> !#[trigger] nominals_same_cycle(nodes, g, prev[r].2, d.name@)),
            decreases reps@.len() - j,
        {
            let same = scc.same_cycle(&reps[j], &node);
            proof {
                let a = prev[j as int].2;
                assert(reps@[j as int]@ == NodeView::Nominal(a));
                assert(node@ == NodeView::Nominal(d.name@));
                if same {
                    let (x, y) = choose|x: int, y: int|
                        0 <= x < nodes.len() && 0 <= y < nodes.len() && nodes[x] == reps@[j as int]@ && nodes[y]
                            == node@ && #[trigger] same_cycle_at(g, x, y);
                    assert(same_cycle_at(g, x, y));
                    assert(nominals_same_cycle(nodes, g, a, d.name@));
                } else {
                    if nominals_same_cycle(nodes, g, a, d.name@) {
                        let (x, y) = choose|x: int, y: int|
                            0 <= x < nodes.len() && 0 <= y < nodes.len() && nodes[x] == NodeView::Nominal(a)
                                && nodes[y] == NodeView::Nominal(d.name@) && #[trigger] same_cycle_at(g, x, y);
                        assert(same_cycle_at(g, x, y));
                    }
                }
                assert(same == nominals_same_cycle(nodes, g, a, d.name@));
            }
            if same {
                keep = false;
            }
            j = j + 1;
        }
        let ghost out0 = out@;
        let ghost reps0 = reps@;
        if keep {
            out.push((d.start, d.end, TypeError::RecursiveValueType { name: d.name.clone() }));
            reps.push(node);
        }
        proof {
            let cur = cycle_reps(nodes, g, ds, i + 1);
            if keep {
                assert(cur == prev.push(ds[i as int]));
                assert forall|k: int| 0 <= k < out@.len() implies {
                    let r = cur[k];
                    &&& out@[k].0 == r.0
                    &&& out@[k].1 == r.1
                    &&& (#[trigger] out@[k]).2 matches TypeError::RecursiveValueType { name } && name@ == r.2
                    &&& reps@[k]@ == NodeView::Nominal(r.2)
                } by {
                    if k < out0.len() {
                        assert(out@[k] == out0[k]);
                        assert(reps@[k] == reps0[k]);
                        assert(cur[k] == prev[k]);
                    }
                }
            } else {
                assert(cur == prev);
            }
        }
        i = i + 1;
    }
    out
}

/// The names of `t` (walked in pre-order: a type before its parts) that
/// name no type: neither a primitive nor a struct, union, enum or opaque
/// type that `scope` declares.
pub open spec fn unknown_names_of(kinds: Seq<KindView>, scope: ScopeMaps, t: TypeRef) -> Seq<Seq<char>>
    decreases t.0 as int + 1, 0int,
{
    if (t.0 as int) >= kinds.len() {
        seq![]
    } else {
        match kinds[t.0 as int] {
            KindView::Path(n) => if spec_is_primitive_type_name(n) || declares_type(scope, n) {
                seq![]
            } else {
                seq![n]
            },
            KindView::Ref(i) => if i.0 < t.0 {
                unknown_names_of(kinds, scope, i)
            } else {
                seq![]
            },
            KindView::Ptr(i) => if i.0 < t.0 {
                unknown_names_of(kinds, scope, i)
            } else {
                seq![]
            },
            KindView::Array { elem, .. } => if elem.0 < t.0 {
                unknown_names_of(kinds, scope, elem)
            } else {
                seq![]
            },
            KindView::Fn { params, ret, .. } => unknown_names_list(kinds, scope, params, t.0) + match ret {
                Some(r) => if r.0 < t.0 {
                    unknown_names_of(kinds, scope, r)
                } else {
                    seq![]
                },
                None => seq![],
            },
            _ => seq![],
        }
    }
}

/// [`unknown_names_of`] of each handle of `ps` below `bound`, concatenated.
pub open spec fn unknown_names_list(kinds: Seq<KindView>, scope: ScopeMaps, ps: Seq<TypeRef>, bound: u32) -> Seq<
    Seq<char>,
>
    decreases bound as int, ps.len() as int,
{
    if ps.len() == 0 {
        seq![]
    } else {
        unknown_names_list(kinds, scope, ps.drop_last(), bound) + if ps.last().0 < bound {
            unknown_names_of(kinds, scope, ps.last())
        } else {
            seq![]
        }
    }
}

#[verifier::spinoff_prover]
fn unknown_names_into(t: TypeRef, types: &TypeInterner, hir: &HIR, out: &mut Vec<String>)
    requires
        types.wf(),
    ensures
        final(out)@.map_values(|s: String| s@) == old(out)@.map_values(|s: String| s@) + unknown_names_of(
            types@,
            hir.items@,
            t,
        ),
    decreases t.0,
{
    let ghost kn = hir.items@;
    let ghost kinds = types@;
    let ghost start = out@.map_values(|s: String| s@);
    if t.0 as usize >= types.len() {
        assert(out@.map_values(|s: String| s@) =~= start + seq![]);
        return;
    }
    proof {
        types.lemma_wf();
        assert(children_below(types@[t.0 as int], t.0 as int));
    }
    match types.lookup(t) {
        TypeKind::Path(n) => {
            if !is_primitive_type_name(n.as_str()) && !hir.items.declares_type(n.as_str()) {
                out.push(n.clone());
                assert(out@.map_values(|s: String| s@) =~= start + seq![n@]);
            } else {
                assert(out@.map_values(|s: String| s@) =~= start + seq![]);
            }
        },
        TypeKind::Ref(i) => unknown_names_into(*i, types, hir, out),
        TypeKind::Ptr(i) => unknown_names_into(*i, types, hir, out),
        TypeKind::Array { elem, .. } => unknown_names_into(*elem, types, hir, out),
        TypeKind::Fn { params, ret, variadic } => {
            let mut k: usize = 0;
            while k < params.len()
                invariant
                    types.wf(),
                    kinds == types@,
                    kn == hir.items@,
                    (t.0 as int) < kinds.len(),
                    kinds[t.0 as int] == (KindView::Fn { params: params@, ret: *ret, variadic: *variadic }),
                    children_below(kinds[t.0 as int], t.0 as int),
                    k <= params@.len(),
                    out@.map_values(|s: String| s@) == start + unknown_names_list(kinds, kn, params@.take(k as int), t.0),
                decreases params@.len() - k,
            {
                proof {
                    lemma_fn_children(params@, *ret, *variadic, t.0 as int, k as int);
                }
                let ghost before = out@.map_values(|s: String| s@);
                unknown_names_into(params[k], types, hir, out);
                proof {
                    let pk = params@.take(k as int + 1);
                    assert(pk.drop_last() =~= params@.take(k as int));
                    assert(pk.last() == params@[k as int]);
                    assert(start + unknown_names_list(kinds, kn, pk, t.0) =~= before + unknown_names_of(
                        kinds,
                        kn,
                        params@[k as int],
                    ));
                }
                k = k + 1;
            }
            assert(params@.take(params@.len() as int) =~= params@);
            let ghost mid = out@.map_values(|s: String| s@);
            match ret {
                Some(r) => unknown_names_into(*r, types, hir, out),
                None => {},
            }
            proof {
                let tail = match *ret {
                    Some(r) => if r.0 < t.0 {
                        unknown_names_of(kinds, kn, r)
                    } else {
                        seq![]
                    },
                    None => seq![],
                };
                assert(out@.map_values(|s: String| s@) =~= mid + tail);
                assert(start + (unknown_names_list(kinds, kn, params@, t.0) + tail) =~= mid + tail);
            }
        },
        _ => {
            assert(out@.map_values(|s: String| s@) =~= start + seq![]);
        },
    }
}

/// The names in `ty` (a type before its parts) that name no declared type:
/// neither a primitive nor a struct, union, enum or opaque type `hir`
/// declares.
pub fn unknown_type_names(ty: TypeRef, types: &TypeInterner, hir: &HIR) -> (r: Vec<String>)
    requires
        types.wf(),
    ensures
        r@.map_values(|s: String| s@) == unknown_names_of(types@, hir.items@, ty),
{
    let mut out: Vec<String> = Vec::new();
    unknown_names_into(ty, types, hir, &mut out);
    assert(Seq::<Seq<char>>::empty() + unknown_names_of(types@, hir.items@, ty)
        =~= unknown_names_of(types@, hir.items@, ty));
    assert(out@.map_values(|s: String| s@) =~= unknown_names_of(types@, hir.items@, ty));
    out
}

} // verus!
