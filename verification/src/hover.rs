//! What hovering shows: the tightest body element under the cursor, and a
//! function's signature with its effect.

use vstd::prelude::*;

use crate::ids::FnId;
use crate::items::{Function, Param, HIR};
use crate::text::str_eq;
use crate::types::{render, KindView, TypeInterner, TypeRef};

verus! {

broadcast use vstd::string::group_string_axioms;

/// A source range `start..end` covers `offset`, ends included.
pub open spec fn covers(r: (u32, u32), offset: u32) -> bool {
    r.0 <= offset <= r.1
}

/// The length of a source range.
pub open spec fn range_len(r: (u32, u32)) -> int {
    r.1 - r.0
}

/// `i` is the element to show among `rs` (the first `k` considered): it
/// covers `offset`, no covering range is shorter, and every covering range
/// before it is longer.
pub open spec fn tightest_at(rs: Seq<(u32, u32)>, offset: u32, k: int, i: int) -> bool {
    &&& 0 <= i < k
    &&& covers(rs[i], offset)
    &&& forall|j: int| 0 <= j < k && covers(#[trigger] rs[j], offset) ==> range_len(rs[i]) <= range_len(rs[j])
    &&& forall|j: int| 0 <= j < i && covers(#[trigger] rs[j], offset) ==> range_len(rs[i]) < range_len(rs[j])
}

/// Among candidate ranges in order, the first of the shortest ones that
/// cover `offset`; `None` when none covers it.
pub fn tightest_covering(rs: &Vec<(u32, u32)>, offset: u32) -> (r: Option<usize>)
    requires
        forall|j: int| 0 <= j < rs@.len() ==> (#[trigger] rs@[j]).0 <= rs@[j].1,
    ensures
        r is None <==> forall|j: int| 0 <= j < rs@.len() ==> !covers(#[trigger] rs@[j], offset),
        r matches Some(i) ==> tightest_at(rs@, offset, rs@.len() as int, i as int),
{
    let mut best: Option<usize> = None;
    let mut k: usize = 0;
    while k < rs.len()
        invariant
            k <= rs@.len(),
            forall|j: int| 0 <= j < rs@.len() ==> (#[trigger] rs@[j]).0 <= rs@[j].1,
            best is None <==> forall|j: int| 0 <= j < k ==> !covers(#[trigger] rs@[j], offset),
            best matches Some(i) ==> tightest_at(rs@, offset, k as int, i as int),
        decreases rs@.len() - k,
    {
        let (s, e) = rs[k];
        if s <= offset && offset <= e {
            let better = match best {
                None => true,
                Some(b) => {
                    let (bs, be) = rs[b];
                    e - s < be - bs
                },
            };
            if better {
                best = Some(k);
            }
        }
        k = k + 1;
    }
    best
}

/// `ty name` for each parameter, joined with `, `.
pub open spec fn param_list(kinds: Seq<KindView>, ps: Seq<(TypeRef, Seq<char>)>) -> Seq<char>
    decreases ps.len(),
{
    if ps.len() == 0 {
        seq![]
    } else {
        param_list(kinds, ps.drop_last()) + (if ps.len() > 1 {
            seq![',', ' ']
        } else {
            seq![]
        }) + render(kinds, ps.last().0) + seq![' '] + ps.last().1
    }
}

/// A function's signature prefixed with its effect, in the language's
/// own syntax: `io foo(int32 a, &uint8 b) -> int32`.
pub open spec fn signature(
    kinds: Seq<KindView>,
    effect: Seq<char>,
    name: Seq<char>,
    params: Seq<(TypeRef, Seq<char>)>,
    ret: Option<TypeRef>,
) -> Seq<char> {
    effect + seq![' '] + name + seq!['('] + param_list(kinds, params) + seq![')'] + match ret {
        Some(r) => seq![' ', '-', '>', ' '] + render(kinds, r),
        None => seq![],
    }
}

/// The parameters of `f` as (type, name) values.
pub open spec fn params_of(f: Function) -> Seq<(TypeRef, Seq<char>)> {
    f.params@.map_values(|p: Param| (p.ty, p.name@))
}

/// Renders a function's signature prefixed with its effect.
pub fn render_fn(hir: &HIR, function: &Function, effect: &str) -> (s: String)
    requires
        hir.types.wf(),
        forall|j: int| 0 <= j < function.params@.len() ==> ((#[trigger] function.params@[j]).ty.0 as int) < hir.types@.len(),
        function.ret matches Some(r) ==> (r.0 as int) < hir.types@.len(),
    ensures
        s@ == signature(hir.types@, effect@, function.name@, params_of(*function), function.ret),
{
    let types = &hir.types;
    let params = &function.params;
    let name = function.name.as_str();
    let ret = function.ret;
    let ghost ps = params_of(*function);
    let mut out = effect.to_owned();
    out.append(" ");
    out.append(name);
    out.append("(");
    let ghost head = out@;
    proof {
        reveal_strlit(" ");
        reveal_strlit("(");
        assert(head =~= effect@ + seq![' '] + name@ + seq!['(']);
    }
    let mut i: usize = 0;
    while i < params.len()
        invariant
            types.wf(),
            ps == params@.map_values(|p: Param| (p.ty, p.name@)),
            forall|j: int| 0 <= j < params@.len() ==> ((#[trigger] params@[j]).ty.0 as int) < types@.len(),
            i <= params@.len(),
            out@ == head + param_list(types@, ps.take(i as int)),
        decreases params@.len() - i,
    {
        let ghost before = out@;
        if i > 0 {
            out.append(", ");
        }
        let ty = params[i].ty;
        let shown = types.display(ty);
        out.append(shown.as_str());
        out.append(" ");
        out.append(params[i].name.as_str());
        proof {
            reveal_strlit(", ");
            reveal_strlit(" ");
            let t1 = ps.take(i + 1);
            assert(t1.drop_last() =~= ps.take(i as int));
            assert(t1.last() == ps[i as int]);
            if i > 0 {
                assert(out@ =~= before + seq![',', ' '] + render(types@, ty) + seq![' '] + params@[i as int].name@);
            } else {
                assert(out@ =~= before + render(types@, ty) + seq![' '] + params@[i as int].name@);
            }
            assert(out@ =~= head + param_list(types@, t1));
        }
        i = i + 1;
    }
    assert(ps.take(i as int) =~= ps);
    out.append(")");
    let ghost mid = out@;
    match ret {
        Some(r) => {
            out.append(" -> ");
            let shown = types.display(r);
            out.append(shown.as_str());
        },
        None => {},
    }
    proof {
        reveal_strlit(")");
        reveal_strlit(" -> ");
        let rpart = match ret {
            Some(r) => seq![' ', '-', '>', ' '] + render(types@, r),
            None => seq![],
        };
        assert(out@ =~= mid + rpart);
        assert(out@ =~= signature(types@, effect@, name@, ps, ret));
    }
    out
}

/// The first function of the arena named `name`: the one a hover over a
/// definition's name shows.
pub fn first_fn_named(hir: &HIR, name: &str) -> (r: Option<FnId>)
    requires
        hir.functions@.len() <= u32::MAX,
    ensures
        match r {
            Some(id) => (id.0 as int) < hir.functions@.len() && hir.functions@[id.0 as int].name@ == name@
                && forall|j: int| 0 <= j < id.0 ==> #[trigger] hir.functions@[j].name@ != name@,
            None => forall|j: int| 0 <= j < hir.functions@.len() ==> #[trigger] hir.functions@[j].name@ != name@,
        },
{
    let fs = hir.functions.as_slice();
    let mut i: usize = 0;
    while i < fs.len()
        invariant
            i <= fs@.len(),
            fs@ == hir.functions@,
            fs@.len() <= u32::MAX,
            forall|j: int| 0 <= j < i ==> #[trigger] hir.functions@[j].name@ != name@,
        decreases fs@.len() - i,
    {
        if str_eq(fs[i].name.as_str(), name) {
            return Some(FnId(i as u32));
        }
        i = i + 1;
    }
    None
}

} // verus!
