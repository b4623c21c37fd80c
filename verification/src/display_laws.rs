//! What highlighting and type rendering mean for the reader: which tokens
//! are highlighted and as what, that classification keeps every token's
//! place, and how a function type is spelled.

use vstd::prelude::*;

use crate::highlight::{
    arm_tokens, arms_tokens, block_tokens, boxed_tokens, boxed_type_tokens, expr_tokens, exprs_tokens, fields_tokens,
    lexed_tokens, opt_block_tokens, opt_tokens, opt_type_tokens, pat_tokens, span_tokens, spec_token_type, stmt_tokens,
    stmts_tokens, type_tokens, types_tokens, SyntaxKind,
};
use crate::items::ScopeMaps;
use crate::tree::{SynArm, SynBlock, SynExpr, SynField, SynPat, SynStmt, SynType, TokenSpan};
use crate::legend::{COMMENT, ENUM, ENUM_MEMBER, KEYWORD, NUMBER, OPERATOR, PROPERTY, STRING, TYPE, VARIABLE};
use crate::semantic::ClassifiedToken;
use crate::text::decimal;
use crate::types::{render, render_list, KindView, TypeRef};

verus! {

/// Literal tokens are highlighted as literals: string and char literals as
/// strings, integer and float literals as numbers.
pub proof fn law_literal_tokens_highlighted()
    ensures
        spec_token_type(SyntaxKind::String) == Some(STRING),
        spec_token_type(SyntaxKind::Char) == Some(STRING),
        spec_token_type(SyntaxKind::Int) == Some(NUMBER),
        spec_token_type(SyntaxKind::Float) == Some(NUMBER),
{
}

/// Every token kind but identifiers (classified by the tree), the end of
/// input and plain punctuation gets a token type from its kind alone:
/// keywords as keywords, comments as comments, operators as operators,
/// literals as strings or numbers.
pub proof fn law_token_kinds_highlighted(k: SyntaxKind)
    ensures
        (spec_token_type(k) is Some) == !(k is Ident || k is Eof || k is Other),
        (k is Let || k is Mut || k is Const || k is Structure || k is Enum || k is Union || k is Extern || k is Type || k is If || k is Else || k is Loop || k is Break || k is Continue || k is Return || k is Match || k is As || k is True || k is False || k is Underscore) ==> spec_token_type(k) == Some(KEYWORD),
        (k is Lcomment || k is Bcomment || k is Dcomment) ==> spec_token_type(k) == Some(COMMENT),
        (k is Assign || k is PlusEq || k is MinusEq || k is StarEq || k is SlashEq || k is PercentEq || k is AmpEq || k is PipeEq || k is CaretEq || k is ShlEq || k is ShrEq || k is Plus || k is Minus || k is Star || k is Slash || k is Percent || k is And || k is Or || k is Bang || k is Eq || k is Neq || k is Lt || k is Gt || k is Leq || k is Geq || k is Tilde || k is Caret || k is Shl || k is Shr || k is Arrow || k is Farrow || k is Dot || k is Ellipsis || k is Amp || k is Pipe) ==> spec_token_type(k) == Some(OPERATOR),
        (k is String || k is Char) ==> spec_token_type(k) == Some(STRING),
        (k is Int || k is Float) ==> spec_token_type(k) == Some(NUMBER),
{
}

/// The number of tokens of `toks` that classification keeps: all but the
/// end of input and plain punctuation.
pub open spec fn kept_count(toks: Seq<(SyntaxKind, u32, u32)>) -> nat
    decreases toks.len(),
{
    if toks.len() == 0 {
        0
    } else {
        kept_count(toks.drop_last()) + if toks.last().0 is Eof || toks.last().0 is Other {
            0nat
        } else {
            1nat
        }
    }
}

/// Classification keeps every identifier, keyword, literal, comment and
/// operator token, once each, at its own range and in order: one
/// classified token per kept token, and, when every token is kept, the
/// `i`-th classified token covers the range of the `i`-th lexed token.
pub proof fn law_lexed_tokens_keep_places(toks: Seq<(SyntaxKind, u32, u32)>, spans: Seq<ClassifiedToken>)
    ensures
        lexed_tokens(toks, spans).len() == kept_count(toks),
        (forall|i: int| 0 <= i < toks.len() ==> !(#[trigger] toks[i].0 is Eof || toks[i].0 is Other)) ==> forall|i: int|
            0 <= i < toks.len() ==> (#[trigger] lexed_tokens(toks, spans)[i]).start == toks[i].1 && lexed_tokens(
                toks,
                spans,
            )[i].end == toks[i].2,
    decreases toks.len(),
{
    if toks.len() > 0 {
        let pre = toks.drop_last();
        law_lexed_tokens_keep_places(pre, spans);
        law_token_kinds_highlighted(toks.last().0);
        if forall|i: int| 0 <= i < toks.len() ==> !(#[trigger] toks[i].0 is Eof || toks[i].0 is Other) {
            assert forall|i: int| 0 <= i < pre.len() implies !(#[trigger] pre[i].0 is Eof || pre[i].0 is Other) by {
                assert(pre[i] == toks[i]);
            }
            assert(kept_count(pre) == pre.len()) by {
                lemma_all_kept(pre);
            }
            assert forall|i: int| 0 <= i < toks.len() implies (#[trigger] lexed_tokens(toks, spans)[i]).start
                == toks[i].1 && lexed_tokens(toks, spans)[i].end == toks[i].2 by {
                if i < pre.len() {
                    assert(pre[i] == toks[i]);
                }
            }
        }
    }
}

proof fn lemma_all_kept(toks: Seq<(SyntaxKind, u32, u32)>)
    requires
        forall|i: int| 0 <= i < toks.len() ==> !(#[trigger] toks[i].0 is Eof || toks[i].0 is Other),
    ensures
        kept_count(toks) == toks.len(),
    decreases toks.len(),
{
    if toks.len() > 0 {
        let pre = toks.drop_last();
        assert forall|i: int| 0 <= i < pre.len() implies !(#[trigger] pre[i].0 is Eof || pre[i].0 is Other) by {
            assert(pre[i] == toks[i]);
        }
        lemma_all_kept(pre);
        assert(toks.last() == toks[toks.len() - 1]);
    }
}

/// The spelling of the return part of a function type at `t`: ` -> ` and
/// the return type, or nothing.
pub open spec fn ret_spelling(kinds: Seq<KindView>, ret: Option<TypeRef>, t: TypeRef) -> Seq<char> {
    match ret {
        Some(r) => seq![' ', '-', '>', ' '] + if r.0 < t.0 {
            render(kinds, r)
        } else {
            seq![]
        },
        None => seq![],
    }
}

/// A function type is spelled as its parameters in parentheses and its
/// return part; the `...` marker of a variadic type stands last in the
/// parentheses (after `, ` when there are parameters) and appears only
/// when the type is variadic.
pub proof fn law_fn_type_spelling(kinds: Seq<KindView>, t: TypeRef)
    requires
        (t.0 as int) < kinds.len(),
        kinds[t.0 as int] is Fn,
    ensures
        ({
            let params = kinds[t.0 as int]->Fn_params;
            let ret = kinds[t.0 as int]->Fn_ret;
            let variadic = kinds[t.0 as int]->Fn_variadic;
            let inner = render_list(kinds, params, t.0);
            &&& !variadic ==> render(kinds, t) == seq!['('] + inner + seq![')'] + ret_spelling(kinds, ret, t)
            &&& variadic && params.len() == 0 ==> render(kinds, t) == seq!['(', '.', '.', '.', ')'] + ret_spelling(
                kinds,
                ret,
                t,
            )
            &&& variadic && params.len() > 0 ==> render(kinds, t) == seq!['('] + inner + seq![
                ',',
                ' ',
                '.',
                '.',
                '.',
                ')',
            ] + ret_spelling(kinds, ret, t)
        }),
{
    let params = kinds[t.0 as int]->Fn_params;
    let variadic = kinds[t.0 as int]->Fn_variadic;
    let inner = render_list(kinds, params, t.0);
    if !variadic {
        assert(seq!['('] + inner + seq![] + seq![')'] =~= seq!['('] + inner + seq![')']);
    } else if params.len() == 0 {
        assert(inner =~= seq![]);
        assert(seq!['('] + inner + (seq![] + seq!['.', '.', '.']) + seq![')'] =~= seq!['(', '.', '.', '.', ')']);
    } else {
        assert(seq!['('] + inner + (seq![',', ' '] + seq!['.', '.', '.']) + seq![')'] =~= seq!['('] + inner + seq![
            ',',
            ' ',
            '.',
            '.',
            '.',
            ')',
        ]);
    }
}

/// The spelling of the other type kinds: a named type is its name; `&T`
/// and `T*` put the marker before and after the pointee; an array is
/// `[T; N]` with its length in decimal; the unit, never and raw pointer
/// types and the error type have fixed spellings.
pub proof fn law_type_spelling(kinds: Seq<KindView>, t: TypeRef)
    requires
        (t.0 as int) < kinds.len(),
    ensures
        match kinds[t.0 as int] {
            KindView::Path(n) => render(kinds, t) == n,
            KindView::Ref(i) => i.0 < t.0 ==> render(kinds, t) == seq!['&'] + render(kinds, i),
            KindView::Ptr(i) => i.0 < t.0 ==> render(kinds, t) == render(kinds, i) + seq!['*'],
            KindView::Array { elem, len } => elem.0 < t.0 ==> render(kinds, t) == seq!['['] + render(kinds, elem)
                + seq![';', ' '] + decimal(len as nat) + seq![']'],
            KindView::Unit => render(kinds, t) == seq!['(', ')'],
            KindView::Never => render(kinds, t) == seq!['!'],
            KindView::RawPtr => render(kinds, t) == seq!['p', 't', 'r'],
            KindView::Error => render(kinds, t) == seq!['<', 'e', 'r', 'r', 'o', 'r', '>'],
            KindView::Fn { .. } => true,
        },
{
}

/// A parameter list is spelled as its parameters joined by `, `: nothing
/// for none, and one more parameter adds `, ` (unless it is the first) and
/// its spelling.
pub proof fn law_param_list_spelling(kinds: Seq<KindView>, ps: Seq<TypeRef>, p: TypeRef, bound: u32)
    requires
        p.0 < bound,
    ensures
        render_list(kinds, seq![], bound) == Seq::<char>::empty(),
        render_list(kinds, ps.push(p), bound) == render_list(kinds, ps, bound) + (if ps.len() > 0 {
            seq![',', ' ']
        } else {
            seq![]
        }) + render(kinds, p),
{
    assert(ps.push(p).drop_last() =~= ps);
}

/// Every token of `toks` is classified as a name: a type, an enum, an enum
/// member, a property or a variable.
pub open spec fn name_typed(toks: Seq<ClassifiedToken>) -> bool {
    forall|i: int|
        0 <= i < toks.len() ==> {
            let ty = (#[trigger] toks[i]).token_type;
            ty == TYPE || ty == ENUM || ty == ENUM_MEMBER || ty == PROPERTY || ty == VARIABLE
        }
}

proof fn lemma_name_typed_join(a: Seq<ClassifiedToken>, b: Seq<ClassifiedToken>)
    requires
        name_typed(a),
        name_typed(b),
    ensures
        name_typed(a + b),
{
    assert forall|i: int| 0 <= i < (a + b).len() implies {
        let ty = (#[trigger] (a + b)[i]).token_type;
        ty == TYPE || ty == ENUM || ty == ENUM_MEMBER || ty == PROPERTY || ty == VARIABLE
    } by {
        if i < a.len() {
            assert((a + b)[i] == a[i]);
        } else {
            assert((a + b)[i] == b[i - a.len()]);
        }
    }
}

proof fn lemma_span_typed(sp: Option<TokenSpan>, ty: u32)
    requires
        ty == TYPE || ty == ENUM || ty == ENUM_MEMBER || ty == PROPERTY || ty == VARIABLE,
    ensures
        name_typed(span_tokens(sp, ty)),
{
}

proof fn lemma_type_typed(t: SynType)
    ensures
        name_typed(type_tokens(t)),
    decreases t,
{
    match t {
        SynType::Ident(_, sp) => lemma_span_typed(sp, TYPE),
        SynType::Unit => {},
        SynType::Ref(i) => lemma_boxed_type_typed(i),
        SynType::Ptr(i) => lemma_boxed_type_typed(i),
        SynType::Array { elem, .. } => lemma_boxed_type_typed(elem),
        SynType::Fn { params, ret } => {
            lemma_types_typed(params@);
            lemma_boxed_type_typed(ret);
            lemma_name_typed_join(types_tokens(params@), boxed_type_tokens(ret));
        },
    }
}

proof fn lemma_boxed_type_typed(t: Option<Box<SynType>>)
    ensures
        name_typed(boxed_type_tokens(t)),
    decreases t,
{
    if let Some(x) = t {
        lemma_type_typed(*x);
    }
}

proof fn lemma_opt_type_typed(t: Option<SynType>)
    ensures
        name_typed(opt_type_tokens(t)),
    decreases t,
{
    if let Some(x) = t {
        lemma_type_typed(x);
    }
}

proof fn lemma_types_typed(ts: Seq<Option<SynType>>)
    ensures
        name_typed(types_tokens(ts)),
    decreases ts,
{
    if ts.len() > 0 {
        lemma_types_typed(ts.drop_last());
        lemma_opt_type_typed(ts.last());
        lemma_name_typed_join(types_tokens(ts.drop_last()), opt_type_tokens(ts.last()));
    }
}

proof fn lemma_pat_typed(p: Option<SynPat>, it: ScopeMaps)
    ensures
        name_typed(pat_tokens(p, it)),
{
    match p {
        Some(SynPat::Path { qualifier_span, name_span, .. }) => {
            lemma_span_typed(qualifier_span, ENUM);
            lemma_span_typed(name_span, ENUM_MEMBER);
            lemma_name_typed_join(span_tokens(qualifier_span, ENUM), span_tokens(name_span, ENUM_MEMBER));
        },
        Some(SynPat::BareIdent(n, sp)) => {
            lemma_span_typed(sp, if it.variants.contains_key(n@) { ENUM_MEMBER } else { VARIABLE });
        },
        _ => {},
    }
}

proof fn lemma_expr_typed(e: SynExpr, it: ScopeMaps)
    ensures
        name_typed(expr_tokens(e, it)),
    decreases e,
{
    match e {
        SynExpr::Field { base, name_span, .. } => {
            lemma_span_typed(name_span, PROPERTY);
            lemma_boxed_typed(base, it);
            lemma_name_typed_join(span_tokens(name_span, PROPERTY), boxed_tokens(base, it));
        },
        SynExpr::StructLit { name_span, fields, .. } => {
            lemma_span_typed(name_span, TYPE);
            lemma_fields_typed(fields@, it);
            lemma_name_typed_join(span_tokens(name_span, TYPE), fields_tokens(fields@, it));
        },
        SynExpr::Call { callee, args } => {
            lemma_boxed_typed(callee, it);
            lemma_exprs_typed(args@, it);
            lemma_name_typed_join(boxed_tokens(callee, it), exprs_tokens(args@, it));
        },
        SynExpr::Match { scrut, arms } => {
            lemma_boxed_typed(scrut, it);
            lemma_arms_typed(arms@, it);
            lemma_name_typed_join(boxed_tokens(scrut, it), arms_tokens(arms@, it));
        },
        SynExpr::If { cond, then_branch, else_branch } => {
            lemma_boxed_typed(cond, it);
            lemma_opt_block_typed(then_branch, it);
            lemma_opt_block_typed(else_branch, it);
            lemma_name_typed_join(boxed_tokens(cond, it), opt_block_tokens(then_branch, it));
            lemma_name_typed_join(
                boxed_tokens(cond, it) + opt_block_tokens(then_branch, it),
                opt_block_tokens(else_branch, it),
            );
        },
        SynExpr::Loop(b) => lemma_opt_block_typed(b, it),
        SynExpr::Assign { lhs, rhs, .. } => {
            lemma_boxed_typed(lhs, it);
            lemma_boxed_typed(rhs, it);
            lemma_name_typed_join(boxed_tokens(lhs, it), boxed_tokens(rhs, it));
        },
        SynExpr::Binary { lhs, rhs, .. } => {
            lemma_boxed_typed(lhs, it);
            lemma_boxed_typed(rhs, it);
            lemma_name_typed_join(boxed_tokens(lhs, it), boxed_tokens(rhs, it));
        },
        SynExpr::Prefix { operand, .. } => lemma_boxed_typed(operand, it),
        SynExpr::Ref(o) => lemma_boxed_typed(o, it),
        SynExpr::Deref(o) => lemma_boxed_typed(o, it),
        SynExpr::Cast { operand, ty } => {
            lemma_boxed_typed(operand, it);
            lemma_opt_type_typed(ty);
            lemma_name_typed_join(boxed_tokens(operand, it), opt_type_tokens(ty));
        },
        SynExpr::Index { base, index } => {
            lemma_boxed_typed(base, it);
            lemma_boxed_typed(index, it);
            lemma_name_typed_join(boxed_tokens(base, it), boxed_tokens(index, it));
        },
        SynExpr::ArrayLit(es) => lemma_exprs_typed(es@, it),
        _ => {},
    }
}

proof fn lemma_boxed_typed(e: Option<Box<SynExpr>>, it: ScopeMaps)
    ensures
        name_typed(boxed_tokens(e, it)),
    decreases e,
{
    if let Some(x) = e {
        lemma_expr_typed(*x, it);
    }
}

proof fn lemma_opt_typed(e: Option<SynExpr>, it: ScopeMaps)
    ensures
        name_typed(opt_tokens(e, it)),
    decreases e,
{
    if let Some(x) = e {
        lemma_expr_typed(x, it);
    }
}

proof fn lemma_exprs_typed(es: Seq<SynExpr>, it: ScopeMaps)
    ensures
        name_typed(exprs_tokens(es, it)),
    decreases es,
{
    if es.len() > 0 {
        lemma_exprs_typed(es.drop_last(), it);
        lemma_expr_typed(es.last(), it);
        lemma_name_typed_join(exprs_tokens(es.drop_last(), it), expr_tokens(es.last(), it));
    }
}

proof fn lemma_fields_typed(fs: Seq<SynField>, it: ScopeMaps)
    ensures
        name_typed(fields_tokens(fs, it)),
    decreases fs,
{
    if fs.len() > 0 {
        lemma_fields_typed(fs.drop_last(), it);
        lemma_span_typed(fs.last().name_span, PROPERTY);
        lemma_opt_typed(fs.last().value, it);
        lemma_name_typed_join(fields_tokens(fs.drop_last(), it), span_tokens(fs.last().name_span, PROPERTY));
        lemma_name_typed_join(
            fields_tokens(fs.drop_last(), it) + span_tokens(fs.last().name_span, PROPERTY),
            opt_tokens(fs.last().value, it),
        );
    }
}

proof fn lemma_arm_typed(a: SynArm, it: ScopeMaps)
    ensures
        name_typed(arm_tokens(a, it)),
    decreases a,
{
    lemma_pat_typed(a.pat, it);
    lemma_opt_typed(a.body, it);
    lemma_name_typed_join(pat_tokens(a.pat, it), opt_tokens(a.body, it));
}

proof fn lemma_arms_typed(arms: Seq<SynArm>, it: ScopeMaps)
    ensures
        name_typed(arms_tokens(arms, it)),
    decreases arms,
{
    if arms.len() > 0 {
        lemma_arms_typed(arms.drop_last(), it);
        lemma_arm_typed(arms.last(), it);
        lemma_name_typed_join(arms_tokens(arms.drop_last(), it), arm_tokens(arms.last(), it));
    }
}

proof fn lemma_stmt_typed(st: SynStmt, it: ScopeMaps)
    ensures
        name_typed(stmt_tokens(st, it)),
    decreases st,
{
    match st {
        SynStmt::Let { name_span, ty, value, .. } => {
            lemma_span_typed(name_span, VARIABLE);
            lemma_opt_type_typed(ty);
            lemma_opt_typed(value, it);
            lemma_name_typed_join(span_tokens(name_span, VARIABLE), opt_type_tokens(ty));
            lemma_name_typed_join(span_tokens(name_span, VARIABLE) + opt_type_tokens(ty), opt_tokens(value, it));
        },
        SynStmt::Destructure { value, .. } => lemma_opt_typed(value, it),
        SynStmt::Const { name_span, ty, value, .. } => {
            lemma_span_typed(name_span, VARIABLE);
            lemma_opt_type_typed(ty);
            lemma_opt_typed(value, it);
            lemma_name_typed_join(span_tokens(name_span, VARIABLE), opt_type_tokens(ty));
            lemma_name_typed_join(span_tokens(name_span, VARIABLE) + opt_type_tokens(ty), opt_tokens(value, it));
        },
        SynStmt::Expr(x) => lemma_opt_typed(x, it),
    }
}

proof fn lemma_stmts_typed(ss: Seq<SynStmt>, it: ScopeMaps)
    ensures
        name_typed(stmts_tokens(ss, it)),
    decreases ss,
{
    if ss.len() > 0 {
        lemma_stmts_typed(ss.drop_last(), it);
        lemma_stmt_typed(ss.last(), it);
        lemma_name_typed_join(stmts_tokens(ss.drop_last(), it), stmt_tokens(ss.last(), it));
    }
}

proof fn lemma_block_typed(b: SynBlock, it: ScopeMaps)
    ensures
        name_typed(block_tokens(b, it)),
    decreases b,
{
    lemma_stmts_typed(b.stmts@, it);
    lemma_boxed_typed(b.tail, it);
    lemma_name_typed_join(stmts_tokens(b.stmts@, it), boxed_tokens(b.tail, it));
}

proof fn lemma_opt_block_typed(b: Option<SynBlock>, it: ScopeMaps)
    ensures
        name_typed(opt_block_tokens(b, it)),
    decreases b,
{
    if let Some(x) = b {
        lemma_block_typed(x, it);
    }
}

/// The tree classifies names only: every token the classification of a
/// block or an expression gives is a type, an enum, an enum member, a
/// property or a variable, never a keyword, literal, comment or operator.
pub proof fn law_tree_tokens_are_names(b: SynBlock, e: SynExpr, it: ScopeMaps)
    ensures
        name_typed(block_tokens(b, it)),
        name_typed(expr_tokens(e, it)),
{
    lemma_block_typed(b, it);
    lemma_expr_typed(e, it);
}

/// How each construct classifies its names: a field access gives its
/// field name as a property before the names of its base; a struct
/// literal its name as a type, then each field name as a property followed
/// by its value's names; `let` and `const` their name as a variable, then
/// the annotation's and the value's names; a named type its name as a
/// type; `Enum.Variant` an enum and a member; a bare pattern name a member
/// exactly when a variant is declared under it, else a variable; a block
/// its statements in order, then its tail.
pub proof fn law_tree_tokens_by_construct(
    base: Option<Box<SynExpr>>,
    name: String,
    sp: TokenSpan,
    q: TokenSpan,
    fields: Vec<SynField>,
    f: SynField,
    fs: Seq<SynField>,
    ty: Option<SynType>,
    value: Option<SynExpr>,
    mutable: bool,
    b: SynBlock,
    st: SynStmt,
    ss: Seq<SynStmt>,
    it: ScopeMaps,
)
    ensures
        expr_tokens(SynExpr::Field { base, name, name_span: Some(sp) }, it) == seq![
            ClassifiedToken { start: sp.start, end: sp.end, token_type: PROPERTY },
        ] + boxed_tokens(base, it),
        expr_tokens(SynExpr::StructLit { name: Some(name), name_span: Some(sp), fields }, it) == seq![
            ClassifiedToken { start: sp.start, end: sp.end, token_type: TYPE },
        ] + fields_tokens(fields@, it),
        fields_tokens(fs.push(f), it) == fields_tokens(fs, it) + span_tokens(f.name_span, PROPERTY) + opt_tokens(
            f.value,
            it,
        ),
        stmt_tokens(SynStmt::Let { name, name_span: Some(sp), ty, mutable, value }, it) == seq![
            ClassifiedToken { start: sp.start, end: sp.end, token_type: VARIABLE },
        ] + opt_type_tokens(ty) + opt_tokens(value, it),
        type_tokens(SynType::Ident(Some(name), Some(sp))) == seq![
            ClassifiedToken { start: sp.start, end: sp.end, token_type: TYPE },
        ],
        pat_tokens(
            Some(SynPat::Path { qualifier: name, qualifier_span: Some(q), name: name, name_span: Some(sp) }),
            it,
        ) == seq![
            ClassifiedToken { start: q.start, end: q.end, token_type: ENUM },
            ClassifiedToken { start: sp.start, end: sp.end, token_type: ENUM_MEMBER },
        ],
        pat_tokens(Some(SynPat::BareIdent(name, Some(sp))), it) == seq![
            ClassifiedToken {
                start: sp.start,
                end: sp.end,
                token_type: if it.variants.contains_key(name@) {
                    ENUM_MEMBER
                } else {
                    VARIABLE
                },
            },
        ],
        block_tokens(b, it) == stmts_tokens(b.stmts@, it) + boxed_tokens(b.tail, it),
        stmts_tokens(ss.push(st), it) == stmts_tokens(ss, it) + stmt_tokens(st, it),
{
    assert(fs.push(f).drop_last() =~= fs);
    assert(ss.push(st).drop_last() =~= ss);
    assert(seq![ClassifiedToken { start: q.start, end: q.end, token_type: ENUM }] + seq![
        ClassifiedToken { start: sp.start, end: sp.end, token_type: ENUM_MEMBER },
    ] =~= seq![
        ClassifiedToken { start: q.start, end: q.end, token_type: ENUM },
        ClassifiedToken { start: sp.start, end: sp.end, token_type: ENUM_MEMBER },
    ]);
}

} // verus!
