//! Lowers `foreach` — the module-item, `on`-block-statement and
//! `fn`-body-statement forms — into `repeat` / `loop`. `foreach` is pure
//! sugar with the same meaning as the hand-written loop: the range form
//! becomes a loop over the same range, and the elements form becomes a
//! loop over the indices of the array it reads, with the element variable
//! replaced by `arr[idx]` (or, in a function body, bound to it by a `let`).
//! The one thing `foreach` itself decides is whether an elements-form
//! source names an array or memory at all — `array_like_len` returning
//! `None`.

use vstd::prelude::*;

use super::{
    Arm, Conn, ConstDecl, EnumDecl, EnumVariant, Expr, ExprKind, FieldInit, FnParam, FnStmt, ForEach,
    ForEachSource, Ident, Inst, LValue, LocalLet, ModuleItem, NamedArg, OnBlock, Pattern, PayloadField, Repeat,
    SeqStmt, SyncLoop, Type,
};
use crate::span::Span;
use crate::text::{cat, owned};
use super::rename::{
    all_renamed, arm_scope, arms_renamed, copied, copy_enum_decl, copy_exact, copy_ident, copy_idents, copy_qual, copy_ty,
    enum_copied, inits_renamed, qual_copied, renamed, type_copied,
};

verus! {

/// Whether a match arm's pattern binds `name` (which then shadows an outer
/// `name` inside the arm's value).
pub open spec fn arm_binds(arm: Arm, name: Seq<char>) -> bool {
    exists|p: int| 0 <= p < arm.patterns@.len() && #[trigger] pattern_binds(arm.patterns@[p], name)
}

/// Whether a pattern binds `name`.
pub open spec fn pattern_binds(p: Pattern, name: Seq<char>) -> bool {
    match p {
        Pattern::Variant { bindings, .. } => exists|b: int| 0 <= b < bindings@.len() && #[trigger] bindings@[b].name@ == name,
        _ => false,
    }
}

/// Whether `e` reads the name `name` (an identifier read not shadowed by
/// a match-arm binding).
pub open spec fn reads(e: Expr, name: Seq<char>) -> bool
    decreases e,
{
    match e.kind {
        ExprKind::Ident(n) => n@ == name,
        ExprKind::Int { .. } | ExprKind::Bool(_) => false,
        ExprKind::Field { base, .. } => reads(*base, name),
        ExprKind::Unary { expr, .. } => reads(*expr, name),
        ExprKind::Binary { lhs, rhs, .. } => reads(*lhs, name) || reads(*rhs, name),
        ExprKind::IfExpr { cond, then, els } => reads(*cond, name) || reads(*then, name) || reads(*els, name),
        ExprKind::Match { scrutinee, arms } => reads(*scrutinee, name) || reads_arms(arms@, name),
        ExprKind::Concat(parts) | ExprKind::ArrayLit(parts) => reads_all(parts@, name),
        ExprKind::Replicate { count, parts } => reads(*count, name) || reads_all(parts@, name),
        ExprKind::Index { base, index } => reads(*base, name) || reads(*index, name),
        ExprKind::Slice { base, hi, lo } => reads(*base, name) || reads(*hi, name) || reads(*lo, name),
        ExprKind::Call { args, .. } | ExprKind::FnCall { args, .. } | ExprKind::EnumConstruct { args, .. } =>
            reads_all(args@, name),
        ExprKind::BundleLit(inits) => reads_inits(inits@, name),
    }
}

/// Whether some expression of a list reads `name`.
pub open spec fn reads_all(s: Seq<Expr>, name: Seq<char>) -> bool
    decreases s,
{
    if s.len() == 0 {
        false
    } else {
        reads(s.last(), name) || reads_all(s.drop_last(), name)
    }
}

/// Whether some arm's value reads `name` where its pattern does not bind it.
pub open spec fn reads_arms(s: Seq<Arm>, name: Seq<char>) -> bool
    decreases s,
{
    if s.len() == 0 {
        false
    } else {
        (!arm_binds(s.last(), name) && reads(s.last().value, name)) || reads_arms(s.drop_last(), name)
    }
}

/// Whether some field initializer of a list reads `name`.
pub open spec fn reads_inits(s: Seq<FieldInit>, name: Seq<char>) -> bool
    decreases s,
{
    if s.len() == 0 {
        false
    } else {
        reads(s.last().value, name) || reads_inits(s.drop_last(), name)
    }
}

/// `r` is `e` with every read of `target` (if any) replaced by `repl`:
/// every other name `e` reads, `r` still reads, and `r` reads nothing
/// else but what `repl` reads — so it no longer reads the target unless
/// `repl` does. With no target, `r` reads exactly what `e` reads.
pub open spec fn substituted(e: Expr, r: Expr, target: Option<Seq<char>>, repl: Expr) -> bool {
    &&& forall|x: Seq<char>| target != Some(x) && #[trigger] reads(e, x) ==> reads(r, x)
    &&& forall|x: Seq<char>| #[trigger] reads(r, x) ==>
            (target != Some(x) && reads(e, x)) || (target is Some && reads(repl, x))
}

/// A Vec of expressions substituted element by element.
pub open spec fn all_substituted(es: Seq<Expr>, rs: Seq<Expr>, target: Option<Seq<char>>, repl: Expr) -> bool {
    &&& rs.len() == es.len()
    &&& forall|j: int| 0 <= j < es.len() ==> #[trigger] substituted(es[j], rs[j], target, repl)
}

/// Arms substituted one by one, each with its own target (none where the
/// arm's pattern binds it), patterns unchanged.
pub open spec fn arms_substituted(arms: Seq<Arm>, rs: Seq<Arm>, target: Option<Seq<char>>, repl: Expr) -> bool {
    &&& rs.len() == arms.len()
    &&& forall|j: int, x: Seq<char>| 0 <= j < arms.len() ==> #[trigger] arm_binds(rs[j], x) == arm_binds(arms[j], x)
    &&& forall|j: int| 0 <= j < arms.len() ==> #[trigger] substituted(arms[j].value, rs[j].value, arm_target(arms[j], target), repl)
}

/// Field initializers substituted one by one.
pub open spec fn inits_substituted(fs: Seq<FieldInit>, rs: Seq<FieldInit>, target: Option<Seq<char>>, repl: Expr) -> bool {
    &&& rs.len() == fs.len()
    &&& forall|j: int| 0 <= j < fs.len() ==> #[trigger] substituted(fs[j].value, rs[j].value, target, repl)
}

/// Substituting element by element substitutes in the whole list.
proof fn lemma_all_substituted(es: Seq<Expr>, rs: Seq<Expr>, t: Option<Seq<char>>, repl: Expr)
    requires
        all_substituted(es, rs, t, repl),
    ensures
        forall|x: Seq<char>| t != Some(x) && #[trigger] reads_all(es, x) ==> reads_all(rs, x),
        forall|x: Seq<char>| #[trigger] reads_all(rs, x) ==> (t != Some(x) && reads_all(es, x)) || (t is Some && reads(repl, x)),
    decreases es.len(),
{
    if es.len() > 0 {
        let n = es.len() - 1;
        assert(all_substituted(es.drop_last(), rs.drop_last(), t, repl)) by {
            assert forall|j: int| 0 <= j < es.drop_last().len() implies #[trigger] substituted(es.drop_last()[j], rs.drop_last()[j], t, repl) by {
                assert(substituted(es[j], rs[j], t, repl));
            }
        }
        lemma_all_substituted(es.drop_last(), rs.drop_last(), t, repl);
        assert(substituted(es[n], rs[n], t, repl));
        assert(es.last() == es[n]);
        assert(rs.last() == rs[n]);
        assert forall|x: Seq<char>| t != Some(x) && #[trigger] reads_all(es, x) implies reads_all(rs, x) by {
            if reads(es[n], x) {
                assert(reads(rs[n], x));
            } else {
                assert(reads_all(es.drop_last(), x));
            }
        }
        assert forall|x: Seq<char>| #[trigger] reads_all(rs, x) implies (t != Some(x) && reads_all(es, x)) || (t is Some && reads(repl, x)) by {
            if reads(rs[n], x) {
            } else {
                assert(reads_all(rs.drop_last(), x));
            }
        }
    }
}

/// Substituting arm by arm substitutes in the whole arm list.
proof fn lemma_arms_substituted(arms: Seq<Arm>, rs: Seq<Arm>, t: Option<Seq<char>>, repl: Expr)
    requires
        arms_substituted(arms, rs, t, repl),
    ensures
        forall|x: Seq<char>| t != Some(x) && #[trigger] reads_arms(arms, x) ==> reads_arms(rs, x),
        forall|x: Seq<char>| #[trigger] reads_arms(rs, x) ==> (t != Some(x) && reads_arms(arms, x)) || (t is Some && reads(repl, x)),
    decreases arms.len(),
{
    if arms.len() > 0 {
        let n = arms.len() - 1;
        assert(arms_substituted(arms.drop_last(), rs.drop_last(), t, repl)) by {
            assert forall|j: int, x: Seq<char>| 0 <= j < arms.drop_last().len() implies
                #[trigger] arm_binds(rs.drop_last()[j], x) == arm_binds(arms.drop_last()[j], x) by {
                assert(arm_binds(rs[j], x) == arm_binds(arms[j], x));
            }
            assert forall|j: int| 0 <= j < arms.drop_last().len() implies
                #[trigger] substituted(arms.drop_last()[j].value, rs.drop_last()[j].value, arm_target(arms.drop_last()[j], t), repl) by {
                assert(substituted(arms[j].value, rs[j].value, arm_target(arms[j], t), repl));
            }
        }
        lemma_arms_substituted(arms.drop_last(), rs.drop_last(), t, repl);
        assert(substituted(arms[n].value, rs[n].value, arm_target(arms[n], t), repl));
        assert(arms.last() == arms[n]);
        assert(rs.last() == rs[n]);
        assert forall|x: Seq<char>| t != Some(x) && #[trigger] reads_arms(arms, x) implies reads_arms(rs, x) by {
            assert(arm_binds(rs[n], x) == arm_binds(arms[n], x));
            if let Some(tt) = t {
                assert(arm_binds(rs[n], tt) == arm_binds(arms[n], tt));
            }
            if !arm_binds(arms[n], x) && reads(arms[n].value, x) {
                assert(reads(rs[n].value, x));
            } else {
                assert(reads_arms(arms.drop_last(), x));
            }
        }
        assert forall|x: Seq<char>| #[trigger] reads_arms(rs, x) implies (t != Some(x) && reads_arms(arms, x)) || (t is Some && reads(repl, x)) by {
            assert(arm_binds(rs[n], x) == arm_binds(arms[n], x));
            if let Some(tt) = t {
                assert(arm_binds(rs[n], tt) == arm_binds(arms[n], tt));
            }
            if !arm_binds(rs[n], x) && reads(rs[n].value, x) {
            } else {
                assert(reads_arms(rs.drop_last(), x));
            }
        }
    }
}

/// Substituting initializer by initializer substitutes in the whole list.
proof fn lemma_inits_substituted(fs: Seq<FieldInit>, rs: Seq<FieldInit>, t: Option<Seq<char>>, repl: Expr)
    requires
        inits_substituted(fs, rs, t, repl),
    ensures
        forall|x: Seq<char>| t != Some(x) && #[trigger] reads_inits(fs, x) ==> reads_inits(rs, x),
        forall|x: Seq<char>| #[trigger] reads_inits(rs, x) ==> (t != Some(x) && reads_inits(fs, x)) || (t is Some && reads(repl, x)),
    decreases fs.len(),
{
    if fs.len() > 0 {
        let n = fs.len() - 1;
        assert(inits_substituted(fs.drop_last(), rs.drop_last(), t, repl)) by {
            assert forall|j: int| 0 <= j < fs.drop_last().len() implies #[trigger] substituted(fs.drop_last()[j].value, rs.drop_last()[j].value, t, repl) by {
                assert(substituted(fs[j].value, rs[j].value, t, repl));
            }
        }
        lemma_inits_substituted(fs.drop_last(), rs.drop_last(), t, repl);
        assert(substituted(fs[n].value, rs[n].value, t, repl));
        assert(fs.last() == fs[n]);
        assert(rs.last() == rs[n]);
        assert forall|x: Seq<char>| t != Some(x) && #[trigger] reads_inits(fs, x) implies reads_inits(rs, x) by {
            if reads(fs[n].value, x) {
                assert(reads(rs[n].value, x));
            } else {
                assert(reads_inits(fs.drop_last(), x));
            }
        }
        assert forall|x: Seq<char>| #[trigger] reads_inits(rs, x) implies (t != Some(x) && reads_inits(fs, x)) || (t is Some && reads(repl, x)) by {
            if reads(rs[n].value, x) {
            } else {
                assert(reads_inits(rs.drop_last(), x));
            }
        }
    }
}


/// `r` is `e`, node for node and span for span, except that each read of
/// `target` (not shadowed by a match arm's binding) is a copy of `repl`.
pub open spec fn subst_rel(e: Expr, r: Expr, t: Option<Seq<char>>, repl: Expr) -> bool
    decreases e,
{
    match e.kind {
        ExprKind::Ident(n) => if t == Some(n@) {
            copied(repl, r)
        } else {
            r.span == e.span && (r.kind matches ExprKind::Ident(k) && k@ == n@)
        },
        ExprKind::Int { .. } | ExprKind::Bool(_) => r.span == e.span && r.kind == e.kind,
        ExprKind::Field { base, field } => r.span == e.span
            && (r.kind matches ExprKind::Field { base: b, field: g } && g == field && subst_rel(*base, *b, t, repl)),
        ExprKind::Unary { op, expr } => r.span == e.span
            && (r.kind matches ExprKind::Unary { op: o, expr: x } && o == op && subst_rel(*expr, *x, t, repl)),
        ExprKind::Binary { op, lhs, rhs } => r.span == e.span
            && (r.kind matches ExprKind::Binary { op: o, lhs: l, rhs: h } && o == op && subst_rel(*lhs, *l, t, repl)
            && subst_rel(*rhs, *h, t, repl)),
        ExprKind::IfExpr { cond, then, els } => r.span == e.span
            && (r.kind matches ExprKind::IfExpr { cond: c, then: x, els: f } && subst_rel(*cond, *c, t, repl)
            && subst_rel(*then, *x, t, repl) && subst_rel(*els, *f, t, repl)),
        ExprKind::Match { scrutinee, arms } => r.span == e.span
            && (r.kind matches ExprKind::Match { scrutinee: sc, arms: a } && subst_rel(*scrutinee, *sc, t, repl)
            && arms_subst_rel(arms@, a@, t, repl)),
        ExprKind::Concat(parts) => r.span == e.span && (r.kind matches ExprKind::Concat(q)
            && all_subst_rel(parts@, q@, t, repl)),
        ExprKind::ArrayLit(parts) => r.span == e.span && (r.kind matches ExprKind::ArrayLit(q)
            && all_subst_rel(parts@, q@, t, repl)),
        ExprKind::Replicate { count, parts } => r.span == e.span
            && (r.kind matches ExprKind::Replicate { count: c, parts: q } && subst_rel(*count, *c, t, repl)
            && all_subst_rel(parts@, q@, t, repl)),
        ExprKind::Index { base, index } => r.span == e.span
            && (r.kind matches ExprKind::Index { base: b, index: i } && subst_rel(*base, *b, t, repl)
            && subst_rel(*index, *i, t, repl)),
        ExprKind::Slice { base, hi, lo } => r.span == e.span
            && (r.kind matches ExprKind::Slice { base: b, hi: h, lo: l } && subst_rel(*base, *b, t, repl)
            && subst_rel(*hi, *h, t, repl) && subst_rel(*lo, *l, t, repl)),
        ExprKind::Call { func, args } => r.span == e.span
            && (r.kind matches ExprKind::Call { func: g, args: q } && g == func && all_subst_rel(args@, q@, t, repl)),
        ExprKind::FnCall { name, args } => r.span == e.span
            && (r.kind matches ExprKind::FnCall { name: g, args: q } && g == name && all_subst_rel(args@, q@, t, repl)),
        ExprKind::EnumConstruct { enum_name, variant, args } => r.span == e.span
            && (r.kind matches ExprKind::EnumConstruct { enum_name: g, variant: v, args: q } && g == enum_name
                && v == variant && all_subst_rel(args@, q@, t, repl)),
        ExprKind::BundleLit(fields) => r.span == e.span && (r.kind matches ExprKind::BundleLit(q)
            && inits_subst_rel(fields@, q@, t, repl)),
    }
}

/// Lists substituted element by element.
pub open spec fn all_subst_rel(es: Seq<Expr>, rs: Seq<Expr>, t: Option<Seq<char>>, repl: Expr) -> bool
    decreases es,
{
    &&& rs.len() == es.len()
    &&& es.len() > 0 ==> subst_rel(es.last(), rs.last(), t, repl) && all_subst_rel(es.drop_last(), rs.drop_last(), t, repl)
}

/// Arms substituted one by one, each in its own scope, bindings kept.
pub open spec fn arms_subst_rel(arms: Seq<Arm>, rs: Seq<Arm>, t: Option<Seq<char>>, repl: Expr) -> bool
    decreases arms,
{
    &&& rs.len() == arms.len()
    &&& arms.len() > 0 ==> {
        &&& forall|x: Seq<char>| #[trigger] arm_binds(rs.last(), x) == arm_binds(arms.last(), x)
        &&& subst_rel(arms.last().value, rs.last().value, arm_target(arms.last(), t), repl)
        &&& arms_subst_rel(arms.drop_last(), rs.drop_last(), t, repl)
    }
}

/// Field initializers substituted one by one, names and spans kept.
pub open spec fn inits_subst_rel(fs: Seq<FieldInit>, rs: Seq<FieldInit>, t: Option<Seq<char>>, repl: Expr) -> bool
    decreases fs,
{
    &&& rs.len() == fs.len()
    &&& fs.len() > 0 ==> {
        &&& rs.last().name == fs.last().name
        &&& rs.last().span == fs.last().span
        &&& subst_rel(fs.last().value, rs.last().value, t, repl)
        &&& inits_subst_rel(fs.drop_last(), rs.drop_last(), t, repl)
    }
}

/// The target as text, if any.
pub open spec fn target_view(target: Option<&String>) -> Option<Seq<char>> {
    match target {
        Some(t) => Some(t@),
        None => None,
    }
}

/// Substitute into each expression of a list.
#[verifier::loop_isolation(false)]
fn subst_exprs(es: &Vec<Expr>, target: Option<&String>, repl: &Expr) -> (r: Vec<Expr>)
    ensures
        all_substituted(es@, r@, target_view(target), *repl),
        all_subst_rel(es@, r@, target_view(target), *repl),
    decreases es, 1nat,
{
    let mut out: Vec<Expr> = Vec::new();
    let mut i: usize = 0;
    while i < es.len()
        invariant
            i <= es@.len(),
            all_substituted(es@.subrange(0, i as int), out@, target_view(target), *repl),
            all_subst_rel(es@.subrange(0, i as int), out@, target_view(target), *repl),
        decreases es@.len() - i,
    {
        let s = subst_expr_in(&es[i], target, repl);
        proof {
            assert(es@.subrange(0, i + 1) =~= es@.subrange(0, i as int).push(es@[i as int]));
            assert(es@.subrange(0, i + 1).drop_last() =~= es@.subrange(0, i as int));
        }
        let ghost pre_out = out@;
        out.push(s);
        proof {
            assert(out@.drop_last() =~= pre_out);
        }
        proof {
            let ghost pre = es@.subrange(0, i + 1);
            assert forall|j: int| 0 <= j < pre.len() implies #[trigger] substituted(pre[j], out@[j], target_view(target), *repl) by {
                if j < i {
                    assert(pre[j] == es@.subrange(0, i as int)[j]);
                }
            }
        }
        i += 1;
    }
    proof {
        assert(es@.subrange(0, es@.len() as int) =~= es@);
    }
    out
}

/// The replacement nothing is substituted with (a copy has no target).
pub open spec fn no_repl() -> Expr {
    Expr { kind: ExprKind::Bool(false), span: Span { start: 0, end: 0 } }
}

/// A node-for-node copy reads exactly what the original reads.
pub proof fn lemma_copied_reads(e: Expr, r: Expr)
    requires
        copied(e, r),
    ensures
        forall|x: Seq<char>| #[trigger] reads(r, x) == reads(e, x),
    decreases e,
{
    match e.kind {
        ExprKind::Ident(_) | ExprKind::Int { .. } | ExprKind::Bool(_) => {},
        ExprKind::Field { base, .. } => {
            let b = *r.kind->Field_base;
            lemma_copied_reads(*base, b);
            assert forall|x: Seq<char>| #[trigger] reads(r, x) == reads(e, x) by {
                assert(reads(b, x) == reads(*base, x));
            }
        },
        ExprKind::Unary { expr, .. } => {
            let b = *r.kind->Unary_expr;
            lemma_copied_reads(*expr, b);
            assert forall|x: Seq<char>| #[trigger] reads(r, x) == reads(e, x) by {
                assert(reads(b, x) == reads(*expr, x));
            }
        },
        ExprKind::Binary { lhs, rhs, .. } => {
            let (l, h) = (*r.kind->Binary_lhs, *r.kind->Binary_rhs);
            lemma_copied_reads(*lhs, l);
            lemma_copied_reads(*rhs, h);
            assert forall|x: Seq<char>| #[trigger] reads(r, x) == reads(e, x) by {
                assert(reads(l, x) == reads(*lhs, x));
                assert(reads(h, x) == reads(*rhs, x));
            }
        },
        ExprKind::IfExpr { cond, then, els } => {
            let (c, t, f) = (*r.kind->IfExpr_cond, *r.kind->IfExpr_then, *r.kind->IfExpr_els);
            lemma_copied_reads(*cond, c);
            lemma_copied_reads(*then, t);
            lemma_copied_reads(*els, f);
            assert forall|x: Seq<char>| #[trigger] reads(r, x) == reads(e, x) by {
                assert(reads(c, x) == reads(*cond, x));
                assert(reads(t, x) == reads(*then, x));
                assert(reads(f, x) == reads(*els, x));
            }
        },
        ExprKind::Match { scrutinee, arms } => {
            let (sc, ra) = (*r.kind->Match_scrutinee, r.kind->Match_arms@);
            lemma_copied_reads(*scrutinee, sc);
            lemma_arms_copied_reads(arms@, ra);
            assert forall|x: Seq<char>| #[trigger] reads(r, x) == reads(e, x) by {
                assert(reads(sc, x) == reads(*scrutinee, x));
                assert(reads_arms(ra, x) == reads_arms(arms@, x));
            }
        },
        ExprKind::Concat(parts) => {
            let q = r.kind->Concat_0@;
            lemma_all_copied_reads(parts@, q);
            assert forall|x: Seq<char>| #[trigger] reads(r, x) == reads(e, x) by {
                assert(reads_all(q, x) == reads_all(parts@, x));
            }
        },
        ExprKind::ArrayLit(parts) => {
            let q = r.kind->ArrayLit_0@;
            lemma_all_copied_reads(parts@, q);
            assert forall|x: Seq<char>| #[trigger] reads(r, x) == reads(e, x) by {
                assert(reads_all(q, x) == reads_all(parts@, x));
            }
        },
        ExprKind::Replicate { count, parts } => {
            let (c, q) = (*r.kind->Replicate_count, r.kind->Replicate_parts@);
            lemma_copied_reads(*count, c);
            lemma_all_copied_reads(parts@, q);
            assert forall|x: Seq<char>| #[trigger] reads(r, x) == reads(e, x) by {
                assert(reads(c, x) == reads(*count, x));
                assert(reads_all(q, x) == reads_all(parts@, x));
            }
        },
        ExprKind::Index { base, index } => {
            let (b, i) = (*r.kind->Index_base, *r.kind->Index_index);
            lemma_copied_reads(*base, b);
            lemma_copied_reads(*index, i);
            assert forall|x: Seq<char>| #[trigger] reads(r, x) == reads(e, x) by {
                assert(reads(b, x) == reads(*base, x));
                assert(reads(i, x) == reads(*index, x));
            }
        },
        ExprKind::Slice { base, hi, lo } => {
            let (b, h, l) = (*r.kind->Slice_base, *r.kind->Slice_hi, *r.kind->Slice_lo);
            lemma_copied_reads(*base, b);
            lemma_copied_reads(*hi, h);
            lemma_copied_reads(*lo, l);
            assert forall|x: Seq<char>| #[trigger] reads(r, x) == reads(e, x) by {
                assert(reads(b, x) == reads(*base, x));
                assert(reads(h, x) == reads(*hi, x));
                assert(reads(l, x) == reads(*lo, x));
            }
        },
        ExprKind::Call { args, .. } => {
            let q = r.kind->Call_args@;
            lemma_all_copied_reads(args@, q);
            assert forall|x: Seq<char>| #[trigger] reads(r, x) == reads(e, x) by {
                assert(reads_all(q, x) == reads_all(args@, x));
            }
        },
        ExprKind::FnCall { args, .. } => {
            let q = r.kind->FnCall_args@;
            lemma_all_copied_reads(args@, q);
            assert forall|x: Seq<char>| #[trigger] reads(r, x) == reads(e, x) by {
                assert(reads_all(q, x) == reads_all(args@, x));
            }
        },
        ExprKind::EnumConstruct { args, .. } => {
            let q = r.kind->EnumConstruct_args@;
            lemma_all_copied_reads(args@, q);
            assert forall|x: Seq<char>| #[trigger] reads(r, x) == reads(e, x) by {
                assert(reads_all(q, x) == reads_all(args@, x));
            }
        },
        ExprKind::BundleLit(fields) => {
            let q = r.kind->BundleLit_0@;
            lemma_inits_copied_reads(fields@, q);
            assert forall|x: Seq<char>| #[trigger] reads(r, x) == reads(e, x) by {
                assert(reads_inits(q, x) == reads_inits(fields@, x));
            }
        },
    }
}

/// Copied lists read what the originals read.
proof fn lemma_all_copied_reads(es: Seq<Expr>, rs: Seq<Expr>)
    requires
        all_renamed(es, rs, (None, None)),
    ensures
        forall|x: Seq<char>| #[trigger] reads_all(rs, x) == reads_all(es, x),
    decreases es,
{
    if es.len() > 0 {
        assert(renamed(es.last(), rs.last(), (None, None)));
        assert(copied(es.last(), rs.last()));
        lemma_copied_reads(es.last(), rs.last());
        lemma_all_copied_reads(es.drop_last(), rs.drop_last());
        assert forall|x: Seq<char>| #[trigger] reads_all(rs, x) == reads_all(es, x) by {
            assert(reads(rs.last(), x) == reads(es.last(), x));
            assert(reads_all(rs.drop_last(), x) == reads_all(es.drop_last(), x));
        }
    }
}

/// Copied arms read what the originals read.
proof fn lemma_arms_copied_reads(arms: Seq<Arm>, rs: Seq<Arm>)
    requires
        arms_renamed(arms, rs, (None, None)),
    ensures
        forall|x: Seq<char>| #[trigger] reads_arms(rs, x) == reads_arms(arms, x),
    decreases arms,
{
    if arms.len() > 0 {
        assert(arm_scope((None, None), arms.last()) == (None::<(Seq<char>, Seq<char>)>, None::<(Seq<char>, Seq<char>)>));
        lemma_copied_reads(arms.last().value, rs.last().value);
        lemma_arms_copied_reads(arms.drop_last(), rs.drop_last());
        assert forall|x: Seq<char>| #[trigger] reads_arms(rs, x) == reads_arms(arms, x) by {
            assert(reads(rs.last().value, x) == reads(arms.last().value, x));
            assert(arm_binds(rs.last(), x) == arm_binds(arms.last(), x));
            assert(reads_arms(rs.drop_last(), x) == reads_arms(arms.drop_last(), x));
        }
    }
}

/// Copied initializers read what the originals read.
proof fn lemma_inits_copied_reads(fs: Seq<FieldInit>, rs: Seq<FieldInit>)
    requires
        inits_renamed(fs, rs, (None, None)),
    ensures
        forall|x: Seq<char>| #[trigger] reads_inits(rs, x) == reads_inits(fs, x),
    decreases fs,
{
    if fs.len() > 0 {
        lemma_copied_reads(fs.last().value, rs.last().value);
        lemma_inits_copied_reads(fs.drop_last(), rs.drop_last());
        assert forall|x: Seq<char>| #[trigger] reads_inits(rs, x) == reads_inits(fs, x) by {
            assert(reads(rs.last().value, x) == reads(fs.last().value, x));
            assert(reads_inits(rs.drop_last(), x) == reads_inits(fs.drop_last(), x));
        }
    }
}

/// A deep copy of an expression, node for node, reading exactly what it
/// reads.
pub fn copy_expr(e: &Expr) -> (r: Expr)
    ensures
        copied(*e, r),
        substituted(*e, r, None, no_repl()),
        forall|x: Seq<char>| #[trigger] reads(r, x) == reads(*e, x),
{
    let r = copy_exact(e);
    proof {
        lemma_copied_reads(*e, r);
    }
    r
}

/// `e` with every read of `target` replaced by `replacement`; a match
/// arm whose pattern binds `target` is left alone.
pub fn subst_expr(e: &Expr, target: &str, replacement: &Expr) -> (r: Expr)
    ensures
        substituted(*e, r, Some(target@), *replacement),
        subst_rel(*e, r, Some(target@), *replacement),
{
    let t = String::from_str(target);
    subst_expr_in(e, Some(&t), replacement)
}

/// Substitution through one child.
proof fn lemma_sub1(e: Expr, r: Expr, a: Expr, b: Expr, t: Option<Seq<char>>, repl: Expr)
    requires
        forall|x: Seq<char>| #[trigger] reads(e, x) == reads(a, x),
        forall|x: Seq<char>| #[trigger] reads(r, x) == reads(b, x),
        substituted(a, b, t, repl),
    ensures
        substituted(e, r, t, repl),
{
    assert forall|x: Seq<char>| t != Some(x) && #[trigger] reads(e, x) implies reads(r, x) by {
        assert(reads(a, x));
    }
    assert forall|x: Seq<char>| #[trigger] reads(r, x) implies (t != Some(x) && reads(e, x)) || (t is Some && reads(repl, x)) by {
        assert(reads(b, x));
    }
}

/// Substitution through two children.
proof fn lemma_sub2(e: Expr, r: Expr, a1: Expr, b1: Expr, a2: Expr, b2: Expr, t: Option<Seq<char>>, repl: Expr)
    requires
        forall|x: Seq<char>| #[trigger] reads(e, x) == (reads(a1, x) || reads(a2, x)),
        forall|x: Seq<char>| #[trigger] reads(r, x) == (reads(b1, x) || reads(b2, x)),
        substituted(a1, b1, t, repl),
        substituted(a2, b2, t, repl),
    ensures
        substituted(e, r, t, repl),
{
    assert forall|x: Seq<char>| t != Some(x) && #[trigger] reads(e, x) implies reads(r, x) by {
        if reads(a1, x) { assert(reads(b1, x)); } else { assert(reads(b2, x)); }
    }
    assert forall|x: Seq<char>| #[trigger] reads(r, x) implies (t != Some(x) && reads(e, x)) || (t is Some && reads(repl, x)) by {
        if reads(b1, x) { assert(reads(b1, x)); } else { assert(reads(b2, x)); }
    }
}

/// Substitution through three children.
proof fn lemma_sub3(e: Expr, r: Expr, a1: Expr, b1: Expr, a2: Expr, b2: Expr, a3: Expr, b3: Expr, t: Option<Seq<char>>, repl: Expr)
    requires
        forall|x: Seq<char>| #[trigger] reads(e, x) == (reads(a1, x) || reads(a2, x) || reads(a3, x)),
        forall|x: Seq<char>| #[trigger] reads(r, x) == (reads(b1, x) || reads(b2, x) || reads(b3, x)),
        substituted(a1, b1, t, repl),
        substituted(a2, b2, t, repl),
        substituted(a3, b3, t, repl),
    ensures
        substituted(e, r, t, repl),
{
    assert forall|x: Seq<char>| t != Some(x) && #[trigger] reads(e, x) implies reads(r, x) by {
        if reads(a1, x) { assert(reads(b1, x)); } else if reads(a2, x) { assert(reads(b2, x)); } else { assert(reads(b3, x)); }
    }
    assert forall|x: Seq<char>| #[trigger] reads(r, x) implies (t != Some(x) && reads(e, x)) || (t is Some && reads(repl, x)) by {
        if reads(b1, x) { assert(reads(b1, x)); } else if reads(b2, x) { assert(reads(b2, x)); } else { assert(reads(b3, x)); }
    }
}

/// Substitution through a list of children (and possibly one more).
proof fn lemma_sub_list(e: Expr, r: Expr, a: Option<(Expr, Expr)>, es: Seq<Expr>, rs: Seq<Expr>, t: Option<Seq<char>>, repl: Expr)
    requires
        forall|x: Seq<char>| #[trigger] reads(e, x) == ((a matches Some(p) && reads(p.0, x)) || reads_all(es, x)),
        forall|x: Seq<char>| #[trigger] reads(r, x) == ((a matches Some(p) && reads(p.1, x)) || reads_all(rs, x)),
        a matches Some(p) ==> substituted(p.0, p.1, t, repl),
        all_substituted(es, rs, t, repl),
    ensures
        substituted(e, r, t, repl),
{
    lemma_all_substituted(es, rs, t, repl);
    assert forall|x: Seq<char>| t != Some(x) && #[trigger] reads(e, x) implies reads(r, x) by {
        if reads_all(es, x) { assert(reads_all(rs, x)); } else { assert(reads(a->Some_0.0, x)); }
    }
    assert forall|x: Seq<char>| #[trigger] reads(r, x) implies (t != Some(x) && reads(e, x)) || (t is Some && reads(repl, x)) by {
        if reads_all(rs, x) { assert(reads_all(rs, x)); } else { assert(reads(a->Some_0.1, x)); }
    }
}

/// Replace every read of `target` in `e` with `repl` (`None`: a plain
/// copy). A match arm whose pattern binds `target` is left alone — there
/// the name means the binding.
#[verifier::loop_isolation(false)]
fn subst_expr_in(e: &Expr, target: Option<&String>, repl: &Expr) -> (r: Expr)
    ensures
        substituted(*e, r, target_view(target), *repl),
        subst_rel(*e, r, target_view(target), *repl),
    decreases e, 0nat,
{
    let ghost tv = target_view(target);
    match &e.kind {
        ExprKind::Ident(name) => {
            if let Some(t) = target {
                if *name == *t {
                    return copy_expr(repl);
                }
            }
            Expr { kind: ExprKind::Ident(name.clone()), span: e.span }
        }
        ExprKind::Int { value, raw } => Expr { kind: ExprKind::Int { value: *value, raw: raw.clone() }, span: e.span },
        ExprKind::Bool(b) => Expr { kind: ExprKind::Bool(*b), span: e.span },
        ExprKind::Field { base, field } => {
            let sub = subst_expr_in(base, target, repl);
            let r = Expr { kind: ExprKind::Field { base: Box::new(sub), field: copy_ident(field) }, span: e.span };
            proof { lemma_sub1(*e, r, **base, sub, tv, *repl); }
            r
        }
        ExprKind::Unary { op, expr } => {
            let sub = subst_expr_in(expr, target, repl);
            let r = Expr { kind: ExprKind::Unary { op: *op, expr: Box::new(sub) }, span: e.span };
            proof { lemma_sub1(*e, r, **expr, sub, tv, *repl); }
            r
        }
        ExprKind::Binary { op, lhs, rhs } => {
            let l = subst_expr_in(lhs, target, repl);
            let h = subst_expr_in(rhs, target, repl);
            let r = Expr { kind: ExprKind::Binary { op: *op, lhs: Box::new(l), rhs: Box::new(h) }, span: e.span };
            proof { lemma_sub2(*e, r, **lhs, l, **rhs, h, tv, *repl); }
            r
        }
        ExprKind::IfExpr { cond, then, els } => {
            let c = subst_expr_in(cond, target, repl);
            let t = subst_expr_in(then, target, repl);
            let f = subst_expr_in(els, target, repl);
            let r = Expr { kind: ExprKind::IfExpr { cond: Box::new(c), then: Box::new(t), els: Box::new(f) }, span: e.span };
            proof { lemma_sub3(*e, r, **cond, c, **then, t, **els, f, tv, *repl); }
            r
        }
        ExprKind::Index { base, index } => {
            let b = subst_expr_in(base, target, repl);
            let i = subst_expr_in(index, target, repl);
            let r = Expr { kind: ExprKind::Index { base: Box::new(b), index: Box::new(i) }, span: e.span };
            proof { lemma_sub2(*e, r, **base, b, **index, i, tv, *repl); }
            r
        }
        ExprKind::Slice { base, hi, lo } => {
            let b = subst_expr_in(base, target, repl);
            let h = subst_expr_in(hi, target, repl);
            let l = subst_expr_in(lo, target, repl);
            let r = Expr { kind: ExprKind::Slice { base: Box::new(b), hi: Box::new(h), lo: Box::new(l) }, span: e.span };
            proof { lemma_sub3(*e, r, **base, b, **hi, h, **lo, l, tv, *repl); }
            r
        }
        ExprKind::Concat(parts) => {
            let ps = subst_exprs(parts, target, repl);
            let ghost pv = ps@;
            let r = Expr { kind: ExprKind::Concat(ps), span: e.span };
            proof { lemma_sub_list(*e, r, None, parts@, pv, tv, *repl); }
            r
        }
        ExprKind::ArrayLit(parts) => {
            let ps = subst_exprs(parts, target, repl);
            let ghost pv = ps@;
            let r = Expr { kind: ExprKind::ArrayLit(ps), span: e.span };
            proof { lemma_sub_list(*e, r, None, parts@, pv, tv, *repl); }
            r
        }
        ExprKind::Replicate { count, parts } => {
            let c = subst_expr_in(count, target, repl);
            let ps = subst_exprs(parts, target, repl);
            let ghost pv = ps@;
            let ghost cv = c;
            let r = Expr { kind: ExprKind::Replicate { count: Box::new(c), parts: ps }, span: e.span };
            proof { lemma_sub_list(*e, r, Some((**count, cv)), parts@, pv, tv, *repl); }
            r
        }
        ExprKind::Call { func, args } => {
            let ps = subst_exprs(args, target, repl);
            let ghost pv = ps@;
            let r = Expr { kind: ExprKind::Call { func: *func, args: ps }, span: e.span };
            proof { lemma_sub_list(*e, r, None, args@, pv, tv, *repl); }
            r
        }
        ExprKind::FnCall { name, args } => {
            let ps = subst_exprs(args, target, repl);
            let ghost pv = ps@;
            let r = Expr { kind: ExprKind::FnCall { name: copy_ident(name), args: ps }, span: e.span };
            proof { lemma_sub_list(*e, r, None, args@, pv, tv, *repl); }
            r
        }
        ExprKind::EnumConstruct { enum_name, variant, args } => {
            let ps = subst_exprs(args, target, repl);
            let ghost pv = ps@;
            let r = Expr {
                kind: ExprKind::EnumConstruct { enum_name: copy_ident(enum_name), variant: copy_ident(variant), args: ps },
                span: e.span,
            };
            proof { lemma_sub_list(*e, r, None, args@, pv, tv, *repl); }
            r
        }
        ExprKind::Match { scrutinee, arms } => {
            let s = subst_expr_in(scrutinee, target, repl);
            let mut out: Vec<Arm> = Vec::new();
            let mut i: usize = 0;
            while i < arms.len()
                invariant
                    i <= arms@.len(),
                    tv == target_view(target),
                    arms_substituted(arms@.subrange(0, i as int), out@, tv, *repl),
                    arms_subst_rel(arms@.subrange(0, i as int), out@, tv, *repl),
                decreases arms@.len() - i,
            {
                let arm = &arms[i];
                let shadowed = match target {
                    Some(t) => arm_binds_exec(arm, t),
                    None => false,
                };
                let value = if shadowed {
                    subst_expr_in(&arm.value, None, repl)
                } else {
                    subst_expr_in(&arm.value, target, repl)
                };
                let ghost pre = out@;
                let patterns = copy_patterns(&arm.patterns);
                let new_arm = Arm { patterns, value };
                proof { lemma_same_bindings(new_arm, *arm); }
                out.push(new_arm);
                proof {
                    let ghost a = arms@.subrange(0, i + 1);
                    assert(a =~= arms@.subrange(0, i as int).push(arms@[i as int]));
                    assert(a.drop_last() =~= arms@.subrange(0, i as int));
                    assert(out@.drop_last() =~= pre);
                    assert(arm_target(*arm, tv) == (if shadowed { None } else { tv }));
                    assert forall|j: int, x: Seq<char>| 0 <= j < a.len() implies #[trigger] arm_binds(out@[j], x) == arm_binds(a[j], x) by {
                        if j < i {
                            assert(out@[j] == pre[j]);
                            assert(a[j] == arms@.subrange(0, i as int)[j]);
                        }
                    }
                    assert forall|j: int| 0 <= j < a.len() implies
                        #[trigger] substituted(a[j].value, out@[j].value, arm_target(a[j], tv), *repl) by {
                        if j < i {
                            assert(out@[j] == pre[j]);
                            assert(a[j] == arms@.subrange(0, i as int)[j]);
                        }
                    }
                }
                i += 1;
            }
            proof {
                assert(arms@.subrange(0, arms@.len() as int) =~= arms@);
                lemma_arms_substituted(arms@, out@, tv, *repl);
            }
            let ghost ov = out@;
            let ghost sv = s;
            let r = Expr { kind: ExprKind::Match { scrutinee: Box::new(s), arms: out }, span: e.span };
            proof {
                assert forall|x: Seq<char>| tv != Some(x) && #[trigger] reads(*e, x) implies reads(r, x) by {
                    if reads_arms(arms@, x) { assert(reads_arms(ov, x)); } else { assert(reads(**scrutinee, x)); assert(reads(sv, x)); }
                }
                assert forall|x: Seq<char>| #[trigger] reads(r, x) implies (tv != Some(x) && reads(*e, x)) || (tv is Some && reads(*repl, x)) by {
                    if reads_arms(ov, x) { assert(reads_arms(ov, x)); } else { assert(reads(sv, x)); }
                }
            }
            r
        }
        ExprKind::BundleLit(fields) => {
            let mut out: Vec<FieldInit> = Vec::new();
            let mut i: usize = 0;
            while i < fields.len()
                invariant
                    i <= fields@.len(),
                    tv == target_view(target),
                    inits_substituted(fields@.subrange(0, i as int), out@, tv, *repl),
                    inits_subst_rel(fields@.subrange(0, i as int), out@, tv, *repl),
                decreases fields@.len() - i,
            {
                let f = &fields[i];
                let v = subst_expr_in(&f.value, target, repl);
                let ghost pre = out@;
                out.push(FieldInit { name: copy_ident(&f.name), value: v, span: f.span });
                proof {
                    let ghost a = fields@.subrange(0, i + 1);
                    assert(a =~= fields@.subrange(0, i as int).push(fields@[i as int]));
                    assert(a.drop_last() =~= fields@.subrange(0, i as int));
                    assert(out@.drop_last() =~= pre);
                    assert forall|j: int| 0 <= j < a.len() implies #[trigger] substituted(a[j].value, out@[j].value, tv, *repl) by {
                        if j < i {
                            assert(out@[j] == pre[j]);
                            assert(a[j] == fields@.subrange(0, i as int)[j]);
                        }
                    }
                }
                i += 1;
            }
            proof {
                assert(fields@.subrange(0, fields@.len() as int) =~= fields@);
                lemma_inits_substituted(fields@, out@, tv, *repl);
            }
            let ghost ov = out@;
            let r = Expr { kind: ExprKind::BundleLit(out), span: e.span };
            proof {
                assert forall|x: Seq<char>| tv != Some(x) && #[trigger] reads(*e, x) implies reads(r, x) by {
                    if reads_inits(fields@, x) { assert(reads_inits(ov, x)); }
                }
                assert forall|x: Seq<char>| #[trigger] reads(r, x) implies (tv != Some(x) && reads(*e, x)) || (tv is Some && reads(*repl, x)) by {
                    if reads_inits(ov, x) { assert(reads_inits(ov, x)); }
                }
            }
            r
        }
    }
}

/// The target inside an arm: none when the arm's pattern binds it.
pub open spec fn arm_target(arm: Arm, tv: Option<Seq<char>>) -> Option<Seq<char>> {
    if tv is Some && arm_binds(arm, tv->Some_0) { None } else { tv }
}

/// Arms whose patterns bind the same names, position by position, bind
/// the same names.
pub(crate) proof fn lemma_same_bindings(a: Arm, b: Arm)
    requires
        a.patterns@.len() == b.patterns@.len(),
        forall|k: int, x: Seq<char>| 0 <= k < a.patterns@.len() ==> #[trigger] pattern_binds(a.patterns@[k], x) == pattern_binds(b.patterns@[k], x),
    ensures
        forall|x: Seq<char>| #[trigger] arm_binds(a, x) == arm_binds(b, x),
{
    assert forall|x: Seq<char>| #[trigger] arm_binds(a, x) == arm_binds(b, x) by {
        if arm_binds(a, x) {
            let p = choose|p: int| 0 <= p < a.patterns@.len() && #[trigger] pattern_binds(a.patterns@[p], x);
            assert(pattern_binds(b.patterns@[p], x));
        }
        if arm_binds(b, x) {
            let p = choose|p: int| 0 <= p < b.patterns@.len() && #[trigger] pattern_binds(b.patterns@[p], x);
            assert(pattern_binds(a.patterns@[p], x));
        }
    }
}

/// A copy of a pattern list, binding the same names position by position.
pub(crate) fn copy_patterns(ps: &Vec<Pattern>) -> (r: Vec<Pattern>)
    ensures
        r@.len() == ps@.len(),
        forall|k: int, x: Seq<char>| 0 <= k < ps@.len() ==> #[trigger] pattern_binds(r@[k], x) == pattern_binds(ps@[k], x),
{
    let mut out: Vec<Pattern> = Vec::new();
    let mut k: usize = 0;
    while k < ps.len()
        invariant
            k <= ps@.len(),
            out@.len() == k,
            forall|q: int, x: Seq<char>| 0 <= q < k ==> #[trigger] pattern_binds(out@[q], x) == pattern_binds(ps@[q], x),
        decreases ps@.len() - k,
    {
        let c = copy_pattern(&ps[k]);
        out.push(c);
        k += 1;
    }
    out
}

/// Two variant patterns whose binding lists hold the same names position
/// by position bind the same names.
proof fn lemma_same_variant_bindings(r: Pattern, p: Pattern)
    requires
        r is Variant,
        p is Variant,
        r->bindings@.len() == p->bindings@.len(),
        forall|q: int| 0 <= q < r->bindings@.len() ==> #[trigger] r->bindings@[q].name@ == p->bindings@[q].name@,
    ensures
        forall|x: Seq<char>| #[trigger] pattern_binds(r, x) == pattern_binds(p, x),
{
    assert forall|x: Seq<char>| #[trigger] pattern_binds(r, x) == pattern_binds(p, x) by {
        if pattern_binds(r, x) {
            let i = choose|i: int| 0 <= i < r->bindings@.len() && #[trigger] r->bindings@[i].name@ == x;
            assert(p->bindings@[i].name@ == x);
        }
        if pattern_binds(p, x) {
            let i = choose|i: int| 0 <= i < p->bindings@.len() && #[trigger] p->bindings@[i].name@ == x;
            assert(r->bindings@[i].name@ == x);
        }
    }
}

/// A copy of a pattern, binding the same names.
fn copy_pattern(p: &Pattern) -> (r: Pattern)
    ensures
        forall|x: Seq<char>| #[trigger] pattern_binds(r, x) == pattern_binds(*p, x),
{
    match p {
        Pattern::Int { value, raw } => Pattern::Int { value: *value, raw: raw.clone() },
        Pattern::IntMask { value, mask, width, raw } => Pattern::IntMask { value: *value, mask: *mask, width: *width, raw: raw.clone() },
        Pattern::Bool(b) => Pattern::Bool(*b),
        Pattern::Wildcard => Pattern::Wildcard,
        Pattern::Variant { enum_name, variant, bindings } => {
            let mut bs: Vec<Ident> = Vec::new();
            let mut k: usize = 0;
            while k < bindings.len()
                invariant
                    k <= bindings@.len(),
                    bs@.len() == k,
                    forall|q: int| 0 <= q < k ==> #[trigger] bs@[q].name@ == bindings@[q].name@,
                decreases bindings@.len() - k,
            {
                bs.push(Ident { name: bindings[k].name.clone(), span: bindings[k].span });
                k += 1;
            }
            let ghost bv = bs@;
            let r = Pattern::Variant { enum_name: enum_name.clone(), variant: variant.clone(), bindings: bs };
            proof {
                lemma_same_variant_bindings(r, *p);
            }
            r
        }
    }
}

/// Whether an arm's pattern binds `name`.
#[verifier::loop_isolation(false)]
pub(crate) fn arm_binds_exec(arm: &Arm, name: &String) -> (r: bool)
    ensures
        r == arm_binds(*arm, name@),
{
    let mut p: usize = 0;
    while p < arm.patterns.len()
        invariant
            p <= arm.patterns@.len(),
            forall|q: int| 0 <= q < p ==> !#[trigger] pattern_binds(arm.patterns@[q], name@),
        decreases arm.patterns@.len() - p,
    {
        let pat = &arm.patterns[p];
        assert(*pat == arm.patterns@[p as int]);
        if let Pattern::Variant { bindings, .. } = pat {
            let mut b: usize = 0;
            while b < bindings.len()
                invariant
                    b <= bindings@.len(),
                    forall|c: int| 0 <= c < b ==> #[trigger] bindings@[c].name@ != name@,
                decreases bindings@.len() - b,
            {
                if bindings[b].name == *name {
                    assert(bindings@[b as int].name@ == name@);
                    assert(pattern_binds(arm.patterns@[p as int], name@));
                    return true;
                }
                b += 1;
            }
        }
        p += 1;
    }
    false
}

/// `e` is `arr[idx]`: the element of `arr` at the index variable.
pub open spec fn is_element_read(e: Expr, arr: Seq<char>, idx: Seq<char>) -> bool {
    match e.kind {
        ExprKind::Index { base, index } => base.kind is Ident && base.kind->Ident_0@ == arr
            && index.kind is Ident && index.kind->Ident_0@ == idx,
        _ => false,
    }
}

/// The replacement a plain copy is made with.
fn no_repl_exec() -> (r: Expr)
    ensures
        r == no_repl(),
{
    Expr { kind: ExprKind::Bool(false), span: Span { start: 0, end: 0 } }
}

/// `arr[idx]` at `span`.
fn index_expr(base: &String, index: &String, span: Span) -> (r: Expr)
    ensures
        forall|x: Seq<char>| #[trigger] reads(r, x) == (x == base@ || x == index@),
        is_element_read(r, base@, index@),
{
    reveal_with_fuel(reads, 2);
    Expr {
        kind: ExprKind::Index {
            base: Box::new(Expr { kind: ExprKind::Ident(base.clone()), span }),
            index: Box::new(Expr { kind: ExprKind::Ident(index.clone()), span }),
        },
        span,
    }
}


} // verus!

verus! {

/// The target inside a nested scope that binds `v`: none when `v` is the
/// target itself.
pub open spec fn inner(t: Option<Seq<char>>, v: Seq<char>) -> Option<Seq<char>> {
    if t == Some(v) { None } else { t }
}

/// An optional expression substituted.
pub open spec fn opt_subst_rel(a: Option<Expr>, b: Option<Expr>, t: Option<Seq<char>>, repl: Expr) -> bool {
    match a {
        None => b is None,
        Some(x) => b is Some && subst_rel(x, b->Some_0, t, repl),
    }
}

/// Parameter bindings substituted one by one, names kept.
pub open spec fn args_subst_rel(args: Seq<NamedArg>, rs: Seq<NamedArg>, t: Option<Seq<char>>, repl: Expr) -> bool
    decreases args,
{
    &&& rs.len() == args.len()
    &&& args.len() > 0 ==> {
        &&& rs.last().name == args.last().name
        &&& subst_rel(args.last().value, rs.last().value, t, repl)
        &&& args_subst_rel(args.drop_last(), rs.drop_last(), t, repl)
    }
}

/// Port connections substituted one by one, ports kept.
pub open spec fn conns_subst_rel(cs: Seq<Conn>, rs: Seq<Conn>, t: Option<Seq<char>>, repl: Expr) -> bool
    decreases cs,
{
    &&& rs.len() == cs.len()
    &&& cs.len() > 0 ==> {
        &&& rs.last().port == cs.last().port
        &&& subst_rel(cs.last().signal, rs.last().signal, t, repl)
        &&& conns_subst_rel(cs.drop_last(), rs.drop_last(), t, repl)
    }
}

/// A `foreach` source substituted (an array name is kept as it is).
pub open spec fn source_subst_rel(s: ForEachSource, r: ForEachSource, t: Option<Seq<char>>, repl: Expr) -> bool {
    match s {
        ForEachSource::Range { lo, hi } => r matches ForEachSource::Range { lo: l, hi: h } && subst_rel(lo, l, t, repl)
            && subst_rel(hi, h, t, repl),
        ForEachSource::Elements(a) => r == ForEachSource::Elements(a),
    }
}

/// An assignment target with every read of `t` in its index
/// expressions replaced by `repl`; the assigned signal kept.
pub open spec fn lvalue_subst_rel(l: LValue, r: LValue, t: Option<Seq<char>>, repl: Expr) -> bool {
    &&& r.base == l.base
    &&& r.span == l.span
    &&& match l.index {
        None => r.index is None,
        Some(ix) => r.index is Some && subst_rel(ix.0, r.index->Some_0.0, t, repl) && match ix.1 {
            None => r.index->Some_0.1 is None,
            Some(lo) => r.index->Some_0.1 is Some && subst_rel(lo, r.index->Some_0.1->Some_0, t, repl),
        },
    }
}

/// `r` is the statement `s` with every read of `t` replaced by `repl`,
/// index expressions of assignment targets included; assigned signals
/// and names kept, and inside a nested `loop` /
/// `foreach` over `t` itself, nothing replaced.
pub open spec fn stmt_subst_rel(s: SeqStmt, r: SeqStmt, t: Option<Seq<char>>, repl: Expr) -> bool
    decreases s,
{
    match s {
        SeqStmt::Assign { lhs, rhs } => r matches SeqStmt::Assign { lhs: l, rhs: h }
            && lvalue_subst_rel(lhs, l, t, repl) && subst_rel(rhs, h, t, repl),
        SeqStmt::If { cond, then, els } => r matches SeqStmt::If { cond: c, then: x, els: f }
            && subst_rel(cond, c, t, repl) && stmts_subst_rel(then@, x@, t, repl) && match els {
                None => f is None,
                Some(b) => f is Some && stmts_subst_rel(b@, f->Some_0@, t, repl),
            },
        SeqStmt::Default { name, val, span } => r matches SeqStmt::Default { name: n, val: v, span: sp }
            && n == name && subst_rel(val, v, t, repl) && sp == span,
        SeqStmt::Loop { var, lo, hi, body, span } => r matches SeqStmt::Loop { var: v, lo: l, hi: h, body: b, span: sp }
            && v == var && subst_rel(lo, l, t, repl) && subst_rel(hi, h, t, repl)
            && stmts_subst_rel(body@, b@, inner(t, var.name@), repl) && sp == span,
        SeqStmt::ForEach { var, source, body, span } =>
            r matches SeqStmt::ForEach { var: v, source: src, body: b, span: sp } && v == var
                && source_subst_rel(source, src, t, repl) && stmts_subst_rel(body@, b@, inner(t, var.name@), repl)
                && sp == span,
        SeqStmt::Error(_) => r == s,
    }
}

/// Statement lists substituted one by one.
pub open spec fn stmts_subst_rel(ss: Seq<SeqStmt>, rs: Seq<SeqStmt>, t: Option<Seq<char>>, repl: Expr) -> bool
    decreases ss,
{
    &&& rs.len() == ss.len()
    &&& ss.len() > 0 ==> stmt_subst_rel(ss.last(), rs.last(), t, repl)
        && stmts_subst_rel(ss.drop_last(), rs.drop_last(), t, repl)
}

/// The target inside a sync loop's body: none when the loop's variable or
/// accumulator is the target.
pub open spec fn sync_body_target(t: Option<Seq<char>>, sl: SyncLoop) -> Option<Seq<char>> {
    inner(inner(t, sl.var.name@), sl.result_name.name@)
}

/// `b` is the module item `a` with every read of `t` replaced by `repl`,
/// index expressions of assignment targets included: declarations,
/// types, names and assigned signals kept; inside a
/// nested `repeat` / `foreach` over `t`, or a sync loop whose variable or
/// accumulator is `t`, nothing replaced.
pub open spec fn item_subst_rel(a: ModuleItem, b: ModuleItem, t: Option<Seq<char>>, repl: Expr) -> bool
    decreases a,
{
    match a {
        ModuleItem::Port { dir, name, ty } => b matches ModuleItem::Port { dir: d, name: n, ty: y } && d == dir
            && n == name && type_copied(ty, y),
        ModuleItem::Clock(_) | ModuleItem::Reset { .. } | ModuleItem::Error(_) => b == a,
        ModuleItem::Wire { name, ty, init } => b matches ModuleItem::Wire { name: n, ty: y, init: i } && n == name
            && type_copied(ty, y) && subst_rel(init, i, t, repl),
        ModuleItem::Reg { name, ty, reset } => b matches ModuleItem::Reg { name: n, ty: y, reset: i } && n == name
            && type_copied(ty, y) && subst_rel(reset, i, t, repl),
        ModuleItem::Mem { name, ty, depth, init } => b matches ModuleItem::Mem { name: n, ty: y, depth: d, init: i }
            && n == name && type_copied(ty, y) && subst_rel(depth, d, t, repl) && subst_rel(init, i, t, repl),
        ModuleItem::Const(c) => b matches ModuleItem::Const(c2) && c2.name == c.name && c2.ty == c.ty
            && subst_rel(c.value, c2.value, t, repl),
        ModuleItem::Enum(e) => b matches ModuleItem::Enum(e2) && enum_copied(e, e2),
        ModuleItem::Inst(i) => b matches ModuleItem::Inst(j) && j.name == i.name && opt_subst_rel(i.index, j.index, t, repl)
            && qual_copied(i.module, j.module) && args_subst_rel(i.args@, j.args@, t, repl)
            && conns_subst_rel(i.conns@, j.conns@, t, repl) && j.span == i.span,
        ModuleItem::On(on) => b matches ModuleItem::On(o) && o.clock == on.clock && o.edge == on.edge
            && stmts_subst_rel(on.body@, o.body@, t, repl) && o.span == on.span,
        ModuleItem::Drive { lhs, rhs } => b matches ModuleItem::Drive { lhs: l, rhs: h }
            && lvalue_subst_rel(lhs, l, t, repl) && subst_rel(rhs, h, t, repl),
        ModuleItem::Repeat(r) => b matches ModuleItem::Repeat(r2) && r2.var == r.var && subst_rel(r.lo, r2.lo, t, repl)
            && subst_rel(r.hi, r2.hi, t, repl) && items_subst_rel(r.items@, r2.items@, inner(t, r.var.name@), repl)
            && r2.span == r.span,
        ModuleItem::ForEach(f) => b matches ModuleItem::ForEach(f2) && f2.var == f.var
            && source_subst_rel(f.source, f2.source, t, repl)
            && items_subst_rel(f.items@, f2.items@, inner(t, f.var.name@), repl) && f2.span == f.span,
        ModuleItem::SyncLoop(sl) => b matches ModuleItem::SyncLoop(s2) && s2.name == sl.name && s2.clock == sl.clock
            && s2.edge == sl.edge && s2.var == sl.var && subst_rel(sl.lo, s2.lo, t, repl)
            && subst_rel(sl.hi, s2.hi, t, repl) && s2.result_name == sl.result_name
            && type_copied(sl.result_ty, s2.result_ty) && subst_rel(sl.result_init, s2.result_init, t, repl)
            && stmts_subst_rel(sl.body@, s2.body@, sync_body_target(t, *sl), repl) && s2.span == sl.span,
        ModuleItem::ConstIf { cond, then, els, span } => b matches ModuleItem::ConstIf { cond: c, then: x, els: e, span: sp }
            && subst_rel(cond, c, t, repl) && items_subst_rel(then@, x@, t, repl) && sp == span && match els {
                None => e is None,
                Some(y) => e is Some && items_subst_rel(y@, e->Some_0@, t, repl),
            },
        ModuleItem::BundleDestructure { bindings, expr, span } =>
            b matches ModuleItem::BundleDestructure { bindings: bs, expr: x, span: sp } && bs@ == bindings@
                && subst_rel(expr, x, t, repl) && sp == span,
    }
}

/// Module items substituted one by one.
pub open spec fn items_subst_rel(items: Seq<ModuleItem>, rs: Seq<ModuleItem>, t: Option<Seq<char>>, repl: Expr) -> bool
    decreases items,
{
    &&& rs.len() == items.len()
    &&& items.len() > 0 ==> item_subst_rel(items.last(), rs.last(), t, repl)
        && items_subst_rel(items.drop_last(), rs.drop_last(), t, repl)
}

/// Named arguments with their values substituted.
fn subst_named_args(args: &Vec<NamedArg>, target: Option<&String>, repl: &Expr) -> (r: Vec<NamedArg>)
    ensures
        args_subst_rel(args@, r@, target_view(target), *repl),
{
    let mut out: Vec<NamedArg> = Vec::new();
    let mut i: usize = 0;
    while i < args.len()
        invariant
            i <= args@.len(),
            args_subst_rel(args@.subrange(0, i as int), out@, target_view(target), *repl),
        decreases args@.len() - i,
    {
        let ghost pre = out@;
        out.push(NamedArg { name: copy_ident(&args[i].name), value: subst_expr_in(&args[i].value, target, repl) });
        proof {
            assert(args@.subrange(0, i + 1).drop_last() =~= args@.subrange(0, i as int));
            assert(out@.drop_last() =~= pre);
        }
        i += 1;
    }
    proof {
        assert(args@.subrange(0, args@.len() as int) =~= args@);
    }
    out
}

/// Port connections with their signals substituted.
fn subst_conns(cs: &Vec<Conn>, target: Option<&String>, repl: &Expr) -> (r: Vec<Conn>)
    ensures
        conns_subst_rel(cs@, r@, target_view(target), *repl),
{
    let mut out: Vec<Conn> = Vec::new();
    let mut i: usize = 0;
    while i < cs.len()
        invariant
            i <= cs@.len(),
            conns_subst_rel(cs@.subrange(0, i as int), out@, target_view(target), *repl),
        decreases cs@.len() - i,
    {
        let ghost pre = out@;
        out.push(Conn { port: copy_ident(&cs[i].port), signal: subst_expr_in(&cs[i].signal, target, repl) });
        proof {
            assert(cs@.subrange(0, i + 1).drop_last() =~= cs@.subrange(0, i as int));
            assert(out@.drop_last() =~= pre);
        }
        i += 1;
    }
    proof {
        assert(cs@.subrange(0, cs@.len() as int) =~= cs@);
    }
    out
}

/// A `foreach` source, substituted in the enclosing scope.
fn subst_source(source: &ForEachSource, target: Option<&String>, repl: &Expr) -> (r: ForEachSource)
    ensures
        source_subst_rel(*source, r, target_view(target), *repl),
{
    match source {
        ForEachSource::Range { lo, hi } => ForEachSource::Range {
            lo: subst_expr_in(lo, target, repl),
            hi: subst_expr_in(hi, target, repl),
        },
        ForEachSource::Elements(id) => ForEachSource::Elements(copy_ident(id)),
    }
}

/// The target inside a nested scope that binds `var`: none when `var`
/// is the target itself.
fn inner_target<'t>(target: Option<&'t String>, var: &String) -> (r: Option<&'t String>)
    ensures
        target_view(r) == inner(target_view(target), var@),
{
    match target {
        Some(t) => {
            if *t == *var {
                None
            } else {
                Some(t)
            }
        }
        None => None,
    }
}

/// An assignment target with every read of `target` in its index
/// expressions replaced.
fn subst_lvalue(l: &LValue, target: Option<&String>, repl: &Expr) -> (r: LValue)
    ensures
        lvalue_subst_rel(*l, r, target_view(target), *repl),
{
    let index = match &l.index {
        None => None,
        Some((i, s)) => {
            let lo = match s {
                None => None,
                Some(x) => Some(subst_expr_in(x, target, repl)),
            };
            Some((subst_expr_in(i, target, repl), lo))
        }
    };
    LValue { base: copy_ident(&l.base), index, span: l.span }
}

/// One `on`-block statement with every read of `target` replaced
/// (`None`: copied). A nested loop whose variable is the target keeps its
/// body as it is.
fn subst_seq_stmt(s: &SeqStmt, target: Option<&String>, repl: &Expr) -> (r: SeqStmt)
    ensures
        stmt_subst_rel(*s, r, target_view(target), *repl),
    decreases s, 0nat,
{
    match s {
        SeqStmt::Assign { lhs, rhs } => SeqStmt::Assign {
            lhs: subst_lvalue(lhs, target, repl),
            rhs: subst_expr_in(rhs, target, repl),
        },
        SeqStmt::If { cond, then, els } => SeqStmt::If {
            cond: subst_expr_in(cond, target, repl),
            then: subst_seq_stmts(then, target, repl),
            els: match els {
                Some(es) => Some(subst_seq_stmts(es, target, repl)),
                None => None,
            },
        },
        SeqStmt::Default { name, val, span } => SeqStmt::Default {
            name: copy_ident(name),
            val: subst_expr_in(val, target, repl),
            span: *span,
        },
        SeqStmt::Loop { var, lo, hi, body, span } => SeqStmt::Loop {
            var: copy_ident(var),
            lo: subst_expr_in(lo, target, repl),
            hi: subst_expr_in(hi, target, repl),
            body: subst_seq_stmts(body, inner_target(target, &var.name), repl),
            span: *span,
        },
        SeqStmt::ForEach { var, source, body, span } => SeqStmt::ForEach {
            var: copy_ident(var),
            source: subst_source(source, target, repl),
            body: subst_seq_stmts(body, inner_target(target, &var.name), repl),
            span: *span,
        },
        SeqStmt::Error(sp) => SeqStmt::Error(*sp),
    }
}

/// `on`-block statements with every read of `target` replaced.
fn subst_seq_stmts(stmts: &Vec<SeqStmt>, target: Option<&String>, repl: &Expr) -> (r: Vec<SeqStmt>)
    ensures
        stmts_subst_rel(stmts@, r@, target_view(target), *repl),
    decreases stmts, 1nat,
{
    let mut out: Vec<SeqStmt> = Vec::new();
    let mut i: usize = 0;
    while i < stmts.len()
        invariant
            i <= stmts@.len(),
            stmts_subst_rel(stmts@.subrange(0, i as int), out@, target_view(target), *repl),
        decreases stmts@.len() - i,
    {
        let x = subst_seq_stmt(&stmts[i], target, repl);
        let ghost pre = out@;
        out.push(x);
        proof {
            assert(stmts@.subrange(0, i + 1).drop_last() =~= stmts@.subrange(0, i as int));
            assert(out@.drop_last() =~= pre);
        }
        i += 1;
    }
    proof {
        assert(stmts@.subrange(0, stmts@.len() as int) =~= stmts@);
    }
    out
}

/// A statement slice with every read of `target` replaced.
fn subst_seq_slice(stmts: &[SeqStmt], target: Option<&String>, repl: &Expr) -> (r: Vec<SeqStmt>)
    ensures
        stmts_subst_rel(stmts@, r@, target_view(target), *repl),
{
    let mut out: Vec<SeqStmt> = Vec::new();
    let mut i: usize = 0;
    while i < stmts.len()
        invariant
            i <= stmts@.len(),
            stmts_subst_rel(stmts@.subrange(0, i as int), out@, target_view(target), *repl),
        decreases stmts@.len() - i,
    {
        let x = subst_seq_stmt(&stmts[i], target, repl);
        let ghost pre = out@;
        out.push(x);
        proof {
            assert(stmts@.subrange(0, i + 1).drop_last() =~= stmts@.subrange(0, i as int));
            assert(out@.drop_last() =~= pre);
        }
        i += 1;
    }
    proof {
        assert(stmts@.subrange(0, stmts@.len() as int) =~= stmts@);
    }
    out
}

/// One module item with every read of `target` replaced (`None`:
/// copied). A nested `repeat` / `foreach` whose variable is the target —
/// or a sync loop whose variable or accumulator is — keeps its body.
fn subst_module_item(it: &ModuleItem, target: Option<&String>, repl: &Expr) -> (r: ModuleItem)
    ensures
        item_subst_rel(*it, r, target_view(target), *repl),
    decreases it, 0nat,
{
    match it {
        ModuleItem::Port { dir, name, ty } => ModuleItem::Port { dir: *dir, name: copy_ident(name), ty: copy_ty(ty) },
        ModuleItem::Clock(id) => ModuleItem::Clock(copy_ident(id)),
        ModuleItem::Reset { name, is_async } => ModuleItem::Reset { name: copy_ident(name), is_async: *is_async },
        ModuleItem::Error(sp) => ModuleItem::Error(*sp),
        ModuleItem::Wire { name, ty, init } => ModuleItem::Wire {
            name: copy_ident(name),
            ty: copy_ty(ty),
            init: subst_expr_in(init, target, repl),
        },
        ModuleItem::Reg { name, ty, reset } => ModuleItem::Reg {
            name: copy_ident(name),
            ty: copy_ty(ty),
            reset: subst_expr_in(reset, target, repl),
        },
        ModuleItem::Mem { name, ty, depth, init } => ModuleItem::Mem {
            name: copy_ident(name),
            ty: copy_ty(ty),
            depth: subst_expr_in(depth, target, repl),
            init: subst_expr_in(init, target, repl),
        },
        ModuleItem::Const(c) => ModuleItem::Const(ConstDecl {
            name: copy_ident(&c.name),
            ty: c.ty,
            value: subst_expr_in(&c.value, target, repl),
        }),
        ModuleItem::Enum(e) => ModuleItem::Enum(copy_enum_decl(e)),
        ModuleItem::Inst(inst) => {
            let index = match &inst.index {
                Some(e) => Some(subst_expr_in(e, target, repl)),
                None => None,
            };
            ModuleItem::Inst(Inst {
                name: copy_ident(&inst.name),
                index,
                module: copy_qual(&inst.module),
                args: subst_named_args(&inst.args, target, repl),
                conns: subst_conns(&inst.conns, target, repl),
                span: inst.span,
            })
        }
        ModuleItem::On(on) => ModuleItem::On(OnBlock {
            clock: copy_ident(&on.clock),
            edge: on.edge,
            body: subst_seq_stmts(&on.body, target, repl),
            span: on.span,
        }),
        ModuleItem::Drive { lhs, rhs } => ModuleItem::Drive {
            lhs: subst_lvalue(lhs, target, repl),
            rhs: subst_expr_in(rhs, target, repl),
        },
        ModuleItem::Repeat(r) => ModuleItem::Repeat(Repeat {
            var: copy_ident(&r.var),
            lo: subst_expr_in(&r.lo, target, repl),
            hi: subst_expr_in(&r.hi, target, repl),
            items: subst_module_items(&r.items, inner_target(target, &r.var.name), repl),
            span: r.span,
        }),
        ModuleItem::ForEach(f) => ModuleItem::ForEach(ForEach {
            var: copy_ident(&f.var),
            source: subst_source(&f.source, target, repl),
            items: subst_module_items(&f.items, inner_target(target, &f.var.name), repl),
            span: f.span,
        }),
        ModuleItem::SyncLoop(sl) => {
            let body_target = inner_target(inner_target(target, &sl.var.name), &sl.result_name.name);
            ModuleItem::SyncLoop(Box::new(SyncLoop {
                name: copy_ident(&sl.name),
                clock: copy_ident(&sl.clock),
                edge: sl.edge,
                var: copy_ident(&sl.var),
                lo: subst_expr_in(&sl.lo, target, repl),
                hi: subst_expr_in(&sl.hi, target, repl),
                result_name: copy_ident(&sl.result_name),
                result_ty: copy_ty(&sl.result_ty),
                result_init: subst_expr_in(&sl.result_init, target, repl),
                body: subst_seq_stmts(&sl.body, body_target, repl),
                span: sl.span,
            }))
        }
        ModuleItem::ConstIf { cond, then, els, span } => ModuleItem::ConstIf {
            cond: subst_expr_in(cond, target, repl),
            then: subst_module_items(then, target, repl),
            els: match els {
                Some(es) => Some(subst_module_items(es, target, repl)),
                None => None,
            },
            span: *span,
        },
        ModuleItem::BundleDestructure { bindings, expr, span } => ModuleItem::BundleDestructure {
            bindings: copy_idents(bindings),
            expr: subst_expr_in(expr, target, repl),
            span: *span,
        },
    }
}

/// Module items with every read of `target` replaced.
fn subst_module_items(items: &Vec<ModuleItem>, target: Option<&String>, repl: &Expr) -> (r: Vec<ModuleItem>)
    ensures
        items_subst_rel(items@, r@, target_view(target), *repl),
    decreases items, 1nat,
{
    let mut out: Vec<ModuleItem> = Vec::new();
    let mut i: usize = 0;
    while i < items.len()
        invariant
            i <= items@.len(),
            items_subst_rel(items@.subrange(0, i as int), out@, target_view(target), *repl),
        decreases items@.len() - i,
    {
        let x = subst_module_item(&items[i], target, repl);
        let ghost pre = out@;
        out.push(x);
        proof {
            assert(items@.subrange(0, i + 1).drop_last() =~= items@.subrange(0, i as int));
            assert(out@.drop_last() =~= pre);
        }
        i += 1;
    }
    proof {
        assert(items@.subrange(0, items@.len() as int) =~= items@);
    }
    out
}

/// `r` is a copy of the function-body statement `s`.
pub open spec fn fn_stmt_copied(s: FnStmt, r: FnStmt) -> bool
    decreases s,
{
    match s {
        FnStmt::Let(l) => r matches FnStmt::Let(l2) && l2.name == l.name && copied(l.value, l2.value) && l2.span == l.span
            && l2.inferred_width == l.inferred_width,
        FnStmt::If { cond, then, els } => r matches FnStmt::If { cond: c, then: t, els: f } && copied(cond, c)
            && fn_stmts_copied(then@, t@) && match els {
                None => f is None,
                Some(b) => f is Some && fn_stmts_copied(b@, f->Some_0@),
            },
        FnStmt::Return(e) => r matches FnStmt::Return(e2) && copied(e, e2),
        FnStmt::Loop { var, lo, hi, body, span } => r matches FnStmt::Loop { var: v, lo: l, hi: h, body: b, span: sp }
            && v == var && copied(lo, l) && copied(hi, h) && fn_stmts_copied(body@, b@) && sp == span,
        FnStmt::ForEach { var, source, body, span } =>
            r matches FnStmt::ForEach { var: v, source: src, body: b, span: sp } && v == var
                && source_subst_rel(source, src, None, no_repl()) && fn_stmts_copied(body@, b@) && sp == span,
        FnStmt::Error(_) => r == s,
    }
}

/// Function-body statement lists copied one by one.
pub open spec fn fn_stmts_copied(ss: Seq<FnStmt>, rs: Seq<FnStmt>) -> bool
    decreases ss,
{
    &&& rs.len() == ss.len()
    &&& ss.len() > 0 ==> fn_stmt_copied(ss.last(), rs.last()) && fn_stmts_copied(ss.drop_last(), rs.drop_last())
}

/// A copy of one function-body statement.
fn copy_fn_stmt(s: &FnStmt) -> (r: FnStmt)
    ensures
        fn_stmt_copied(*s, r),
    decreases s, 0nat,
{
    match s {
        FnStmt::Let(l) => FnStmt::Let(LocalLet {
            name: copy_ident(&l.name),
            value: copy_expr(&l.value),
            span: l.span,
            inferred_width: l.inferred_width,
        }),
        FnStmt::If { cond, then, els } => FnStmt::If {
            cond: copy_expr(cond),
            then: copy_fn_stmts(then),
            els: match els {
                Some(es) => Some(copy_fn_stmts(es)),
                None => None,
            },
        },
        FnStmt::Return(e) => FnStmt::Return(copy_expr(e)),
        FnStmt::Loop { var, lo, hi, body, span } => FnStmt::Loop {
            var: copy_ident(var),
            lo: copy_expr(lo),
            hi: copy_expr(hi),
            body: copy_fn_stmts(body),
            span: *span,
        },
        FnStmt::ForEach { var, source, body, span } => FnStmt::ForEach {
            var: copy_ident(var),
            source: subst_source(source, None, &no_repl_exec()),
            body: copy_fn_stmts(body),
            span: *span,
        },
        FnStmt::Error(sp) => FnStmt::Error(*sp),
    }
}

/// A copy of a list of function-body statements.
pub fn copy_fn_stmts(stmts: &Vec<FnStmt>) -> (r: Vec<FnStmt>)
    ensures
        fn_stmts_copied(stmts@, r@),
    decreases stmts, 1nat,
{
    let mut out: Vec<FnStmt> = Vec::new();
    let mut i: usize = 0;
    while i < stmts.len()
        invariant
            i <= stmts@.len(),
            fn_stmts_copied(stmts@.subrange(0, i as int), out@),
        decreases stmts@.len() - i,
    {
        let x = copy_fn_stmt(&stmts[i]);
        let ghost pre = out@;
        out.push(x);
        proof {
            assert(stmts@.subrange(0, i + 1).drop_last() =~= stmts@.subrange(0, i as int));
            assert(out@.drop_last() =~= pre);
        }
        i += 1;
    }
    proof {
        assert(stmts@.subrange(0, stmts@.len() as int) =~= stmts@);
    }
    out
}

/// `first` followed by a copy of each statement of `stmts`.
fn copy_fn_slice_after(first: Option<FnStmt>, stmts: &[FnStmt]) -> (r: Vec<FnStmt>)
    ensures
        match first {
            Some(f) => r@.len() == stmts@.len() + 1 && r@[0] == f && fn_stmts_copied(stmts@, r@.drop_first()),
            None => fn_stmts_copied(stmts@, r@),
        },
{
    let mut out: Vec<FnStmt> = Vec::new();
    let k: usize = match first {
        Some(f) => {
            out.push(f);
            1
        }
        None => 0,
    };
    let ghost head = out@;
    let mut i: usize = 0;
    while i < stmts.len()
        invariant
            i <= stmts@.len(),
            out@.len() == k + i,
            k == head.len(),
            out@.subrange(0, k as int) == head,
            fn_stmts_copied(stmts@.subrange(0, i as int), out@.subrange(k as int, out@.len() as int)),
        decreases stmts@.len() - i,
    {
        let x = copy_fn_stmt(&stmts[i]);
        let ghost pre = out@;
        out.push(x);
        proof {
            assert(stmts@.subrange(0, i + 1).drop_last() =~= stmts@.subrange(0, i as int));
            assert(out@.subrange(k as int, out@.len() as int).drop_last() =~= pre.subrange(k as int, pre.len() as int));
            assert(out@.subrange(0, k as int) =~= pre.subrange(0, k as int));
        }
        i += 1;
    }
    proof {
        assert(stmts@.subrange(0, stmts@.len() as int) =~= stmts@);
        if k == 1 {
            assert(out@.drop_first() =~= out@.subrange(1, out@.len() as int));
            assert(out@[0] == out@.subrange(0, 1)[0]);
        } else {
            assert(out@ =~= out@.subrange(0, out@.len() as int));
        }
    }
    out
}

} // verus!

verus! {

/// The length expression of `item` if it declares `name` as an array-typed
/// port, wire or reg (its array length) or as a memory (its depth).
pub open spec fn array_len_of(item: ModuleItem, name: Seq<char>) -> Option<Expr> {
    match item {
        ModuleItem::Port { name: n, ty, .. } | ModuleItem::Wire { name: n, ty, .. } | ModuleItem::Reg { name: n, ty, .. } =>
            if n.name@ == name && ty is Array { Some(*ty->Array_len) } else { None },
        ModuleItem::Mem { name: n, depth, .. } => if n.name@ == name { Some(depth) } else { None },
        _ => None,
    }
}

/// The length expression of the first item of `items` declaring `name`
/// array-like.
pub open spec fn first_array_len(items: Seq<ModuleItem>, name: Seq<char>) -> Option<Expr>
    decreases items.len(),
{
    if items.len() == 0 {
        None
    } else if array_len_of(items[0], name) is Some {
        array_len_of(items[0], name)
    } else {
        first_array_len(items.drop_first(), name)
    }
}

/// The element type of `item` if it declares `name` array-like: an array
/// type's element, or a memory's cell type.
pub open spec fn array_elem_of(item: ModuleItem, name: Seq<char>) -> Option<Type> {
    match item {
        ModuleItem::Port { name: n, ty, .. } | ModuleItem::Wire { name: n, ty, .. } | ModuleItem::Reg { name: n, ty, .. } =>
            if n.name@ == name && ty is Array { Some(*ty->Array_elem) } else { None },
        ModuleItem::Mem { name: n, ty, .. } => if n.name@ == name { Some(ty) } else { None },
        _ => None,
    }
}

/// The element type of the first item of `items` declaring `name`
/// array-like.
pub open spec fn first_array_elem(items: Seq<ModuleItem>, name: Seq<char>) -> Option<Type>
    decreases items.len(),
{
    if items.len() == 0 {
        None
    } else if array_len_of(items[0], name) is Some {
        array_elem_of(items[0], name)
    } else {
        first_array_elem(items.drop_first(), name)
    }
}

/// The array a `foreach` reads is the first sibling that declares it
/// array-like: when no item before `items[j]` declares `name` as an array
/// or memory, and `items[j]` is a port, wire or register of type
/// `elem[len]` named `name`, the loop bound is `len` and the element type
/// `elem`; when `items[j]` is a memory named `name`, they are its depth and
/// cell type.
pub proof fn lemma_first_array_decl(items: Seq<ModuleItem>, name: Seq<char>, j: int)
    requires
        0 <= j < items.len(),
        forall|i: int| 0 <= i < j ==> array_len_of(#[trigger] items[i], name) is None,
    ensures
        items[j] matches ModuleItem::Reg { name: n, ty: Type::Array { elem, len }, .. } ==> (n.name@ == name
            ==> first_array_len(items, name) == Some(*len) && first_array_elem(items, name) == Some(*elem)),
        items[j] matches ModuleItem::Wire { name: n, ty: Type::Array { elem, len }, .. } ==> (n.name@ == name
            ==> first_array_len(items, name) == Some(*len) && first_array_elem(items, name) == Some(*elem)),
        items[j] matches ModuleItem::Port { name: n, ty: Type::Array { elem, len }, .. } ==> (n.name@ == name
            ==> first_array_len(items, name) == Some(*len) && first_array_elem(items, name) == Some(*elem)),
        items[j] matches ModuleItem::Mem { name: n, ty, depth, .. } ==> (n.name@ == name
            ==> first_array_len(items, name) == Some(depth) && first_array_elem(items, name) == Some(ty)),
    decreases j,
{
    if j > 0 {
        assert(array_len_of(items[0], name) is None);
        let rest = items.drop_first();
        assert forall|i: int| 0 <= i < j - 1 implies array_len_of(#[trigger] rest[i], name) is None by {
            assert(rest[i] == items[i + 1]);
        }
        assert(rest[j - 1] == items[j]);
        lemma_first_array_decl(rest, name, j - 1);
    }
}

/// The length expression of the first array-typed parameter named `name`.
pub open spec fn first_param_len(params: Seq<FnParam>, name: Seq<char>) -> Option<Expr>
    decreases params.len(),
{
    if params.len() == 0 {
        None
    } else if params[0].name.name@ == name && params[0].ty is Array {
        Some(*params[0].ty->Array_len)
    } else {
        first_param_len(params.drop_first(), name)
    }
}

/// The name of the index variable an elements-form `foreach` over `v`
/// loops with.
pub open spec fn foreach_index_name(v: Seq<char>) -> Seq<char> {
    "__foreach_"@ + v + "_idx"@
}

/// Whether `r` is a single `repeat`.
pub open spec fn lowers_to_repeat(r: Option<Vec<ModuleItem>>) -> bool {
    r matches Some(v) && v@.len() == 1 && v@[0] is Repeat
}

/// The single `repeat` of a lowering.
pub open spec fn repeat_of(r: Option<Vec<ModuleItem>>) -> Repeat {
    r->Some_0@[0]->Repeat_0
}

/// Whether `r` is a single `on`-block `loop`.
pub open spec fn lowers_to_seq_loop(r: Option<Vec<SeqStmt>>) -> bool {
    r matches Some(v) && v@.len() == 1 && v@[0] is Loop
}

/// The single `loop` of a statement lowering.
pub open spec fn seq_loop_of(r: Option<Vec<SeqStmt>>) -> SeqStmt {
    r->Some_0@[0]
}

/// Whether `r` is a single function-body `loop`.
pub open spec fn lowers_to_fn_loop(r: Option<Vec<FnStmt>>) -> bool {
    r matches Some(v) && v@.len() == 1 && v@[0] is Loop
}

/// The single `loop` of a function-body lowering.
pub open spec fn fn_loop_of(r: Option<Vec<FnStmt>>) -> FnStmt {
    r->Some_0@[0]
}

/// Whether `e` is the integer literal 0.
pub open spec fn is_zero_literal(e: Expr) -> bool {
    e.kind matches ExprKind::Int { value, .. } && value == 0
}

/// Whether two expressions read the same names.
pub open spec fn same_reads(a: Expr, b: Expr) -> bool {
    forall|x: Seq<char>| #[trigger] reads(a, x) == reads(b, x)
}

/// The element type and length of `name` if it is declared among `items`
/// as an array-typed port, wire or reg, or as a memory; `None` otherwise.
pub fn array_like_len(name: &str, items: &[ModuleItem]) -> (r: Option<(Type, Expr)>)
    ensures
        match r {
            Some((_, len)) => first_array_len(items@, name@) matches Some(l) && same_reads(len, l) && copied(l, len),
            None => first_array_len(items@, name@) is None,
        },
        r matches Some((ty, _)) ==> first_array_elem(items@, name@) matches Some(t) && crate::ast::rename::type_copied(t, ty),
{
    let mut k: usize = 0;
    assert(items@.subrange(0, items@.len() as int) =~= items@);
    while k < items.len()
        invariant
            k <= items@.len(),
            first_array_len(items@, name@) == first_array_len(items@.subrange(k as int, items@.len() as int), name@),
            first_array_elem(items@, name@) == first_array_elem(items@.subrange(k as int, items@.len() as int), name@),
        decreases items@.len() - k,
    {
        let ghost rest = items@.subrange(k as int, items@.len() as int);
        proof {
            assert(rest[0] == items@[k as int]);
            assert(rest.drop_first() =~= items@.subrange(k + 1, items@.len() as int));
        }
        match &items[k] {
            ModuleItem::Port { name: n, ty: Type::Array { elem, len }, .. }
            | ModuleItem::Wire { name: n, ty: Type::Array { elem, len }, .. }
            | ModuleItem::Reg { name: n, ty: Type::Array { elem, len }, .. } => {
                if crate::text::str_eq(n.name.as_str(), name) {
                    return Some((copy_ty(elem), copy_expr(len)));
                }
            }
            ModuleItem::Mem { name: n, ty, depth, .. } => {
                if crate::text::str_eq(n.name.as_str(), name) {
                    return Some((copy_ty(ty), copy_expr(depth)));
                }
            }
            _ => {}
        }
        k += 1;
    }
    proof {
        assert(items@.subrange(items@.len() as int, items@.len() as int).len() == 0);
    }
    None
}

/// The element type and length of the function's own array-typed
/// parameter `name`; `None` when there is none.
pub fn array_like_len_fn(name: &str, params: &[FnParam]) -> (r: Option<(Type, Expr)>)
    ensures
        match r {
            Some((_, len)) => first_param_len(params@, name@) matches Some(l) && same_reads(len, l) && copied(l, len),
            None => first_param_len(params@, name@) is None,
        },
{
    let mut k: usize = 0;
    assert(params@.subrange(0, params@.len() as int) =~= params@);
    while k < params.len()
        invariant
            k <= params@.len(),
            first_param_len(params@, name@) == first_param_len(params@.subrange(k as int, params@.len() as int), name@),
        decreases params@.len() - k,
    {
        let ghost rest = params@.subrange(k as int, params@.len() as int);
        proof {
            assert(rest[0] == params@[k as int]);
            assert(rest.drop_first() =~= params@.subrange(k + 1, params@.len() as int));
        }
        if let Type::Array { elem, len } = &params[k].ty {
            if crate::text::str_eq(params[k].name.name.as_str(), name) {
                return Some((copy_ty(elem), copy_expr(len)));
            }
        }
        k += 1;
    }
    proof {
        assert(params@.subrange(params@.len() as int, params@.len() as int).len() == 0);
    }
    None
}

/// The literal `0` at `span`.
fn zero(span: Span) -> (r: Expr)
    ensures
        is_zero_literal(r),
        r.span == span,
        forall|x: Seq<char>| !#[trigger] reads(r, x),
{
    Expr { kind: ExprKind::Int { value: 0, raw: owned("0") }, span }
}

/// The index variable of an elements-form `foreach` over `var`.
fn index_name(var: &Ident) -> (r: String)
    ensures
        r@ == foreach_index_name(var.name@),
{
    let r = cat(&["__foreach_", var.name.as_str(), "_idx"]);
    proof {
        reveal_with_fuel(crate::text::concat_views, 4);
        assert(r@ =~= foreach_index_name(var.name@));
    }
    r
}

/// Module-item `foreach`, as the `repeat` it means: over the range, or
/// over `0..len` of the array it reads with the element variable replaced
/// by `arr[idx]` throughout the body. `None` when an elements-form
/// source is not an array or memory among `sibling_items`.
pub fn lower_foreach_item(fe: &ForEach, sibling_items: &[ModuleItem]) -> (r: Option<Vec<ModuleItem>>)
    ensures
        match fe.source {
            ForEachSource::Range { lo, hi } => lowers_to_repeat(r) && {
                let rep = repeat_of(r);
                &&& rep.var == fe.var
                &&& copied(lo, rep.lo)
                &&& copied(hi, rep.hi)
                &&& items_subst_rel(fe.items@, rep.items@, None, no_repl())
            },
            ForEachSource::Elements(arr) => match first_array_len(sibling_items@, arr.name@) {
                None => r is None,
                Some(len) => lowers_to_repeat(r) && {
                    let rep = repeat_of(r);
                    &&& rep.var.name@ == foreach_index_name(fe.var.name@)
                    &&& is_zero_literal(rep.lo)
                    &&& copied(len, rep.hi)
                    &&& exists|repl: Expr| #![auto] is_element_read(repl, arr.name@, foreach_index_name(fe.var.name@))
                        && items_subst_rel(fe.items@, rep.items@, Some(fe.var.name@), repl)
                },
            },
        },
{
    match &fe.source {
        ForEachSource::Range { lo, hi } => {
            let rep = Repeat {
                var: copy_ident(&fe.var),
                lo: copy_expr(lo),
                hi: copy_expr(hi),
                items: subst_module_items(&fe.items, None, &no_repl_exec()),
                span: fe.span,
            };
            let mut out: Vec<ModuleItem> = Vec::new();
            out.push(ModuleItem::Repeat(rep));
            Some(out)
        }
        ForEachSource::Elements(arr) => {
            let len = match array_like_len(arr.name.as_str(), sibling_items) {
                Some((_, len)) => len,
                None => return None,
            };
            let idx_name = index_name(&fe.var);
            let replacement = index_expr(&arr.name, &idx_name, fe.span);
            let items = subst_module_items(&fe.items, Some(&fe.var.name), &replacement);
            let ghost repl = replacement;
            let rep = Repeat { var: Ident { name: idx_name, span: fe.span }, lo: zero(fe.span), hi: len, items, span: fe.span };
            let mut out: Vec<ModuleItem> = Vec::new();
            out.push(ModuleItem::Repeat(rep));
            proof {
                assert(is_element_read(repl, arr.name@, foreach_index_name(fe.var.name@)));
            }
            Some(out)
        }
    }
}

/// Statement-level `foreach` in an `on` block, as the `loop` it means; the
/// elements form replaces the element variable by `arr[idx]` throughout
/// the body. `None` when an elements-form source is not an array or
/// memory among `module_items`.
pub fn lower_foreach_seq(
    var: &Ident,
    source: &ForEachSource,
    body: &[SeqStmt],
    span: Span,
    module_items: &[ModuleItem],
) -> (r: Option<Vec<SeqStmt>>)
    ensures
        match *source {
            ForEachSource::Range { lo, hi } => lowers_to_seq_loop(r) && {
                let s = seq_loop_of(r);
                &&& s->Loop_var == *var
                &&& copied(lo, s->Loop_lo)
                &&& copied(hi, s->Loop_hi)
                &&& stmts_subst_rel(body@, s->Loop_body@, None, no_repl())
            },
            ForEachSource::Elements(arr) => match first_array_len(module_items@, arr.name@) {
                None => r is None,
                Some(len) => lowers_to_seq_loop(r) && {
                    let s = seq_loop_of(r);
                    &&& s->Loop_var.name@ == foreach_index_name(var.name@)
                    &&& is_zero_literal(s->Loop_lo)
                    &&& copied(len, s->Loop_hi)
                    &&& exists|repl: Expr| #![auto] is_element_read(repl, arr.name@, foreach_index_name(var.name@))
                        && stmts_subst_rel(body@, s->Loop_body@, Some(var.name@), repl)
                },
            },
        },
{
    match source {
        ForEachSource::Range { lo, hi } => {
            let mut out: Vec<SeqStmt> = Vec::new();
            out.push(SeqStmt::Loop {
                var: copy_ident(var),
                lo: copy_expr(lo),
                hi: copy_expr(hi),
                body: subst_seq_slice(body, None, &no_repl_exec()),
                span,
            });
            Some(out)
        }
        ForEachSource::Elements(arr) => {
            let len = match array_like_len(arr.name.as_str(), module_items) {
                Some((_, len)) => len,
                None => return None,
            };
            let idx_name = index_name(var);
            let replacement = index_expr(&arr.name, &idx_name, span);
            let substituted = subst_seq_slice(body, Some(&var.name), &replacement);
            let ghost repl = replacement;
            let mut out: Vec<SeqStmt> = Vec::new();
            out.push(SeqStmt::Loop { var: Ident { name: idx_name, span }, lo: zero(span), hi: len, body: substituted, span });
            proof {
                assert(is_element_read(repl, arr.name@, foreach_index_name(var.name@)));
            }
            Some(out)
        }
    }
}

/// Statement-level `foreach` in a function body, as the `loop` it means;
/// the elements form binds the element variable with a `let var =
/// arr[idx]` at the top of the body. `None` when an elements-form source
/// is not one of the function's array-typed parameters.
pub fn lower_foreach_fn(
    var: &Ident,
    source: &ForEachSource,
    body: &[FnStmt],
    span: Span,
    params: &[FnParam],
) -> (r: Option<Vec<FnStmt>>)
    ensures
        match *source {
            ForEachSource::Range { lo, hi } => lowers_to_fn_loop(r) && {
                let s = fn_loop_of(r);
                &&& s->Loop_var == *var
                &&& copied(lo, s->Loop_lo)
                &&& copied(hi, s->Loop_hi)
                &&& fn_stmts_copied(body@, s->Loop_body@)
            },
            ForEachSource::Elements(arr) => match first_param_len(params@, arr.name@) {
                None => r is None,
                Some(len) => lowers_to_fn_loop(r) && {
                    let s = fn_loop_of(r);
                    &&& s->Loop_var.name@ == foreach_index_name(var.name@)
                    &&& is_zero_literal(s->Loop_lo)
                    &&& copied(len, s->Loop_hi)
                    &&& s->Loop_body@.len() == body@.len() + 1
                    &&& s->Loop_body@[0] matches FnStmt::Let(l) && l.name == *var
                        && is_element_read(l.value, arr.name@, foreach_index_name(var.name@))
                    &&& fn_stmts_copied(body@, s->Loop_body@.drop_first())
                },
            },
        },
{
    match source {
        ForEachSource::Range { lo, hi } => {
            let mut out: Vec<FnStmt> = Vec::new();
            out.push(FnStmt::Loop {
                var: copy_ident(var),
                lo: copy_expr(lo),
                hi: copy_expr(hi),
                body: copy_fn_slice_after(None, body),
                span,
            });
            Some(out)
        }
        ForEachSource::Elements(arr) => {
            let len = match array_like_len_fn(arr.name.as_str(), params) {
                Some((_, len)) => len,
                None => return None,
            };
            let idx_name = index_name(var);
            let binding = FnStmt::Let(LocalLet {
                name: copy_ident(var),
                value: index_expr(&arr.name, &idx_name, span),
                span,
                inferred_width: None,
            });
            let new_body = copy_fn_slice_after(Some(binding), body);
            let mut out: Vec<FnStmt> = Vec::new();
            out.push(FnStmt::Loop { var: Ident { name: idx_name, span }, lo: zero(span), hi: len, body: new_body, span });
            Some(out)
        }
    }
}

} // verus!
