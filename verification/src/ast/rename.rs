//! Renaming and copying the AST: a relation saying exactly what a
//! renamed (or copied) node is, and the functions that build one.

use vstd::prelude::*;

use super::foreach_lower::{arm_binds, arm_binds_exec, copy_patterns, lemma_same_bindings};
use super::{
    Arm, Conn, ConstDecl, EnumDecl, EnumVariant, Expr, ExprKind, FieldInit, ForEach, ForEachSource, Ident, Inst,
    LValue, ModuleItem, NamedArg, OnBlock, PayloadField, QualIdent, Repeat, SeqStmt, SyncLoop, Type,
};

verus! {

/// The names a sync loop's body reads under other names: at most two
/// `from -> to` pairs; where both rename the same name, `second` wins.
pub struct Renames {
    /// The loop variable and the counter register it becomes.
    pub first: Option<(String, String)>,
    /// The accumulator and the register it becomes.
    pub second: Option<(String, String)>,
}

/// One `from -> to` pair as text.
pub open spec fn slot_view(s: Option<(String, String)>) -> Option<(Seq<char>, Seq<char>)> {
    match s {
        Some(p) => Some((p.0@, p.1@)),
        None => None,
    }
}

impl View for Renames {
    type V = (Option<(Seq<char>, Seq<char>)>, Option<(Seq<char>, Seq<char>)>);

    open spec fn view(&self) -> Self::V {
        (slot_view(self.first), slot_view(self.second))
    }
}

/// Whether a pair renames `x`.
pub open spec fn slot_hits(s: Option<(Seq<char>, Seq<char>)>, x: Seq<char>) -> bool {
    match s {
        Some(p) => p.0 == x,
        None => false,
    }
}

/// The name a pair renames to.
pub open spec fn slot_to(s: Option<(Seq<char>, Seq<char>)>) -> Seq<char> {
    match s {
        Some(p) => p.1,
        None => Seq::empty(),
    }
}

/// The name `x` is read as under `m`.
pub open spec fn apply(m: (Option<(Seq<char>, Seq<char>)>, Option<(Seq<char>, Seq<char>)>), x: Seq<char>) -> Seq<char> {
    if slot_hits(m.1, x) {
        slot_to(m.1)
    } else if slot_hits(m.0, x) {
        slot_to(m.0)
    } else {
        x
    }
}

/// `m` inside a scope that binds `k` afresh: `k` is no longer renamed.
pub open spec fn unbind(
    m: (Option<(Seq<char>, Seq<char>)>, Option<(Seq<char>, Seq<char>)>),
    k: Seq<char>,
) -> (Option<(Seq<char>, Seq<char>)>, Option<(Seq<char>, Seq<char>)>) {
    (if slot_hits(m.0, k) { None } else { m.0 }, if slot_hits(m.1, k) { None } else { m.1 })
}

/// Whether an arm's pattern binds the name a pair renames.
pub open spec fn arm_hides(arm: Arm, s: Option<(Seq<char>, Seq<char>)>) -> bool {
    match s {
        Some(p) => arm_binds(arm, p.0),
        None => false,
    }
}

/// `m` inside a match arm: names the arm's pattern binds are no longer
/// renamed.
pub open spec fn arm_scope(
    m: (Option<(Seq<char>, Seq<char>)>, Option<(Seq<char>, Seq<char>)>),
    arm: Arm,
) -> (Option<(Seq<char>, Seq<char>)>, Option<(Seq<char>, Seq<char>)>) {
    (if arm_hides(arm, m.0) { None } else { m.0 }, if arm_hides(arm, m.1) { None } else { m.1 })
}

/// `r` is `e`, node for node and span for span, with every identifier
/// read renamed by `m` (a match arm's own bindings shadowing it).
pub open spec fn renamed(e: Expr, r: Expr, m: (Option<(Seq<char>, Seq<char>)>, Option<(Seq<char>, Seq<char>)>)) -> bool
    decreases e,
{
    &&& r.span == e.span
    &&& match e.kind {
        ExprKind::Ident(n) => r.kind matches ExprKind::Ident(k) && k@ == apply(m, n@),
        ExprKind::Int { .. } | ExprKind::Bool(_) => r.kind == e.kind,
        ExprKind::Field { base, field } =>
            r.kind matches ExprKind::Field { base: b, field: g } && g == field && renamed(*base, *b, m),
        ExprKind::Unary { op, expr } =>
            r.kind matches ExprKind::Unary { op: o, expr: x } && o == op && renamed(*expr, *x, m),
        ExprKind::Binary { op, lhs, rhs } =>
            r.kind matches ExprKind::Binary { op: o, lhs: l, rhs: h } && o == op && renamed(*lhs, *l, m)
                && renamed(*rhs, *h, m),
        ExprKind::IfExpr { cond, then, els } =>
            r.kind matches ExprKind::IfExpr { cond: c, then: t, els: f } && renamed(*cond, *c, m)
                && renamed(*then, *t, m) && renamed(*els, *f, m),
        ExprKind::Match { scrutinee, arms } =>
            r.kind matches ExprKind::Match { scrutinee: s, arms: a } && renamed(*scrutinee, *s, m)
                && arms_renamed(arms@, a@, m),
        ExprKind::Concat(parts) => r.kind matches ExprKind::Concat(q) && all_renamed(parts@, q@, m),
        ExprKind::ArrayLit(parts) => r.kind matches ExprKind::ArrayLit(q) && all_renamed(parts@, q@, m),
        ExprKind::Replicate { count, parts } =>
            r.kind matches ExprKind::Replicate { count: c, parts: q } && renamed(*count, *c, m)
                && all_renamed(parts@, q@, m),
        ExprKind::Index { base, index } =>
            r.kind matches ExprKind::Index { base: b, index: i } && renamed(*base, *b, m) && renamed(*index, *i, m),
        ExprKind::Slice { base, hi, lo } =>
            r.kind matches ExprKind::Slice { base: b, hi: h, lo: l } && renamed(*base, *b, m)
                && renamed(*hi, *h, m) && renamed(*lo, *l, m),
        ExprKind::Call { func, args } =>
            r.kind matches ExprKind::Call { func: g, args: q } && g == func && all_renamed(args@, q@, m),
        ExprKind::FnCall { name, args } =>
            r.kind matches ExprKind::FnCall { name: g, args: q } && g == name && all_renamed(args@, q@, m),
        ExprKind::EnumConstruct { enum_name, variant, args } =>
            r.kind matches ExprKind::EnumConstruct { enum_name: g, variant: v, args: q } && g == enum_name
                && v == variant && all_renamed(args@, q@, m),
        ExprKind::BundleLit(fields) => r.kind matches ExprKind::BundleLit(q) && inits_renamed(fields@, q@, m),
    }
}

/// Lists renamed element by element.
pub open spec fn all_renamed(es: Seq<Expr>, rs: Seq<Expr>, m: (Option<(Seq<char>, Seq<char>)>, Option<(Seq<char>, Seq<char>)>)) -> bool
    decreases es,
{
    &&& rs.len() == es.len()
    &&& es.len() > 0 ==> renamed(es.last(), rs.last(), m) && all_renamed(es.drop_last(), rs.drop_last(), m)
}

/// Arms renamed one by one: same bindings, each value renamed in the
/// arm's own scope.
pub open spec fn arms_renamed(arms: Seq<Arm>, rs: Seq<Arm>, m: (Option<(Seq<char>, Seq<char>)>, Option<(Seq<char>, Seq<char>)>)) -> bool
    decreases arms,
{
    &&& rs.len() == arms.len()
    &&& arms.len() > 0 ==> {
        &&& rs.last().patterns@.len() == arms.last().patterns@.len()
        &&& forall|x: Seq<char>| #[trigger] arm_binds(rs.last(), x) == arm_binds(arms.last(), x)
        &&& renamed(arms.last().value, rs.last().value, arm_scope(m, arms.last()))
        &&& arms_renamed(arms.drop_last(), rs.drop_last(), m)
    }
}

/// Field initializers renamed one by one, names and spans kept.
pub open spec fn inits_renamed(fs: Seq<FieldInit>, rs: Seq<FieldInit>, m: (Option<(Seq<char>, Seq<char>)>, Option<(Seq<char>, Seq<char>)>)) -> bool
    decreases fs,
{
    &&& rs.len() == fs.len()
    &&& fs.len() > 0 ==> {
        &&& rs.last().name == fs.last().name
        &&& rs.last().span == fs.last().span
        &&& renamed(fs.last().value, rs.last().value, m)
        &&& inits_renamed(fs.drop_last(), rs.drop_last(), m)
    }
}

/// The name `x` is read as under `m`.
pub(crate) fn lookup(m: &Renames, x: &String) -> (r: String)
    ensures
        r@ == apply(m@, x@),
{
    if let Some(p) = &m.second {
        if p.0 == *x {
            return p.1.clone();
        }
    }
    if let Some(p) = &m.first {
        if p.0 == *x {
            return p.1.clone();
        }
    }
    x.clone()
}

/// A copy of a renaming slot.
fn copy_slot(s: &Option<(String, String)>) -> (r: Option<(String, String)>)
    ensures
        r == *s,
{
    match s {
        Some(p) => Some((p.0.clone(), p.1.clone())),
        None => None,
    }
}

/// `m` with `k` bound afresh.
pub(crate) fn unbind_exec(m: &Renames, k: &String) -> (r: Renames)
    ensures
        r@ == unbind(m@, k@),
{
    let first = match &m.first {
        Some(p) => if p.0 == *k { None } else { copy_slot(&m.first) },
        None => None,
    };
    let second = match &m.second {
        Some(p) => if p.0 == *k { None } else { copy_slot(&m.second) },
        None => None,
    };
    Renames { first, second }
}

/// `m` inside `arm`.
fn arm_scope_exec(m: &Renames, arm: &Arm) -> (r: Renames)
    ensures
        r@ == arm_scope(m@, *arm),
{
    let first = match &m.first {
        Some(p) => if arm_binds_exec(arm, &p.0) { None } else { copy_slot(&m.first) },
        None => None,
    };
    let second = match &m.second {
        Some(p) => if arm_binds_exec(arm, &p.0) { None } else { copy_slot(&m.second) },
        None => None,
    };
    Renames { first, second }
}

/// A copy of an identifier.
pub(crate) fn copy_ident(i: &Ident) -> (r: Ident)
    ensures
        r == *i,
{
    Ident { name: i.name.clone(), span: i.span }
}

/// Each expression of a list, renamed.
#[verifier::loop_isolation(false)]
pub(crate) fn rename_exprs(es: &Vec<Expr>, m: &Renames) -> (r: Vec<Expr>)
    ensures
        all_renamed(es@, r@, m@),
    decreases es, 1nat,
{
    let mut out: Vec<Expr> = Vec::new();
    let mut i: usize = 0;
    while i < es.len()
        invariant
            i <= es@.len(),
            all_renamed(es@.subrange(0, i as int), out@, m@),
        decreases es@.len() - i,
    {
        let x = rename_expr(&es[i], m);
        let ghost pre = out@;
        out.push(x);
        proof {
            assert(es@.subrange(0, i + 1).drop_last() =~= es@.subrange(0, i as int));
            assert(out@.drop_last() =~= pre);
        }
        i += 1;
    }
    proof {
        assert(es@.subrange(0, es@.len() as int) =~= es@);
    }
    out
}

/// `e` with every identifier read renamed by `m`.
pub(crate) fn rename_expr(e: &Expr, m: &Renames) -> (r: Expr)
    ensures
        renamed(*e, r, m@),
    decreases e, 0nat,
{
    let kind = match &e.kind {
        ExprKind::Ident(n) => ExprKind::Ident(lookup(m, n)),
        ExprKind::Int { value, raw } => ExprKind::Int { value: *value, raw: raw.clone() },
        ExprKind::Bool(b) => ExprKind::Bool(*b),
        ExprKind::Field { base, field } => ExprKind::Field {
            base: Box::new(rename_expr(base, m)),
            field: copy_ident(field),
        },
        ExprKind::Unary { op, expr } => ExprKind::Unary { op: *op, expr: Box::new(rename_expr(expr, m)) },
        ExprKind::Binary { op, lhs, rhs } => ExprKind::Binary {
            op: *op,
            lhs: Box::new(rename_expr(lhs, m)),
            rhs: Box::new(rename_expr(rhs, m)),
        },
        ExprKind::IfExpr { cond, then, els } => ExprKind::IfExpr {
            cond: Box::new(rename_expr(cond, m)),
            then: Box::new(rename_expr(then, m)),
            els: Box::new(rename_expr(els, m)),
        },
        ExprKind::Match { scrutinee, arms } => {
            let s = rename_expr(scrutinee, m);
            let a = rename_arms(arms, m);
            ExprKind::Match { scrutinee: Box::new(s), arms: a }
        }
        ExprKind::Concat(parts) => ExprKind::Concat(rename_exprs(parts, m)),
        ExprKind::ArrayLit(parts) => ExprKind::ArrayLit(rename_exprs(parts, m)),
        ExprKind::Replicate { count, parts } => ExprKind::Replicate {
            count: Box::new(rename_expr(count, m)),
            parts: rename_exprs(parts, m),
        },
        ExprKind::Index { base, index } => ExprKind::Index {
            base: Box::new(rename_expr(base, m)),
            index: Box::new(rename_expr(index, m)),
        },
        ExprKind::Slice { base, hi, lo } => ExprKind::Slice {
            base: Box::new(rename_expr(base, m)),
            hi: Box::new(rename_expr(hi, m)),
            lo: Box::new(rename_expr(lo, m)),
        },
        ExprKind::Call { func, args } => ExprKind::Call { func: *func, args: rename_exprs(args, m) },
        ExprKind::FnCall { name, args } => ExprKind::FnCall { name: copy_ident(name), args: rename_exprs(args, m) },
        ExprKind::EnumConstruct { enum_name, variant, args } => ExprKind::EnumConstruct {
            enum_name: copy_ident(enum_name),
            variant: copy_ident(variant),
            args: rename_exprs(args, m),
        },
        ExprKind::BundleLit(fields) => ExprKind::BundleLit(rename_inits(fields, m)),
    };
    Expr { kind, span: e.span }
}

/// Each arm renamed in its own scope.
#[verifier::loop_isolation(false)]
fn rename_arms(arms: &Vec<Arm>, m: &Renames) -> (r: Vec<Arm>)
    ensures
        arms_renamed(arms@, r@, m@),
    decreases arms, 1nat,
{
    let mut out: Vec<Arm> = Vec::new();
    let mut i: usize = 0;
    while i < arms.len()
        invariant
            i <= arms@.len(),
            arms_renamed(arms@.subrange(0, i as int), out@, m@),
        decreases arms@.len() - i,
    {
        let arm = &arms[i];
        let inner = arm_scope_exec(m, arm);
        let value = rename_expr(&arm.value, &inner);
        let patterns = copy_patterns(&arm.patterns);
        let new_arm = Arm { patterns, value };
        proof {
            lemma_same_bindings(new_arm, *arm);
        }
        let ghost pre = out@;
        out.push(new_arm);
        proof {
            assert(arms@.subrange(0, i + 1).drop_last() =~= arms@.subrange(0, i as int));
            assert(out@.drop_last() =~= pre);
        }
        i += 1;
    }
    proof {
        assert(arms@.subrange(0, arms@.len() as int) =~= arms@);
    }
    out
}

/// Each field initializer renamed.
#[verifier::loop_isolation(false)]
fn rename_inits(fields: &Vec<FieldInit>, m: &Renames) -> (r: Vec<FieldInit>)
    ensures
        inits_renamed(fields@, r@, m@),
    decreases fields, 1nat,
{
    let mut out: Vec<FieldInit> = Vec::new();
    let mut i: usize = 0;
    while i < fields.len()
        invariant
            i <= fields@.len(),
            inits_renamed(fields@.subrange(0, i as int), out@, m@),
        decreases fields@.len() - i,
    {
        let f = &fields[i];
        let v = rename_expr(&f.value, m);
        let ghost pre = out@;
        out.push(FieldInit { name: copy_ident(&f.name), value: v, span: f.span });
        proof {
            assert(fields@.subrange(0, i + 1).drop_last() =~= fields@.subrange(0, i as int));
            assert(out@.drop_last() =~= pre);
        }
        i += 1;
    }
    proof {
        assert(fields@.subrange(0, fields@.len() as int) =~= fields@);
    }
    out
}

/// An assignment target renamed: its base by `m`, its index expressions
/// renamed.
pub open spec fn lvalue_renamed(l: LValue, r: LValue, m: (Option<(Seq<char>, Seq<char>)>, Option<(Seq<char>, Seq<char>)>)) -> bool {
    &&& r.base.name@ == apply(m, l.base.name@)
    &&& r.base.span == l.base.span
    &&& r.span == l.span
    &&& match l.index {
        None => r.index is None,
        Some(ix) => r.index is Some && renamed(ix.0, r.index->Some_0.0, m) && match ix.1 {
            None => r.index->Some_0.1 is None,
            Some(lo) => r.index->Some_0.1 is Some && renamed(lo, r.index->Some_0.1->Some_0, m),
        },
    }
}

/// A `foreach` source renamed.
pub open spec fn source_renamed(s: ForEachSource, r: ForEachSource, m: (Option<(Seq<char>, Seq<char>)>, Option<(Seq<char>, Seq<char>)>)) -> bool {
    match s {
        ForEachSource::Range { lo, hi } => r matches ForEachSource::Range { lo: l, hi: h } && renamed(lo, l, m)
            && renamed(hi, h, m),
        ForEachSource::Elements(a) => r matches ForEachSource::Elements(b) && b.name@ == apply(m, a.name@)
            && b.span == a.span,
    }
}

/// `r` is the statement `s` with every name renamed by `m`: reads, the
/// registers it assigns, and inside a nested `loop`/`foreach` all but its
/// own variable.
pub open spec fn stmt_renamed(s: SeqStmt, r: SeqStmt, m: (Option<(Seq<char>, Seq<char>)>, Option<(Seq<char>, Seq<char>)>)) -> bool
    decreases s,
{
    match s {
        SeqStmt::Assign { lhs, rhs } => r matches SeqStmt::Assign { lhs: l, rhs: h } && lvalue_renamed(lhs, l, m)
            && renamed(rhs, h, m),
        SeqStmt::If { cond, then, els } => r matches SeqStmt::If { cond: c, then: t, els: f } && renamed(cond, c, m)
            && stmts_renamed(then@, t@, m) && match els {
                None => f is None,
                Some(b) => f is Some && stmts_renamed(b@, f->Some_0@, m),
            },
        SeqStmt::Default { name, val, span } => r matches SeqStmt::Default { name: n, val: v, span: sp }
            && n.name@ == apply(m, name.name@) && n.span == name.span && renamed(val, v, m) && sp == span,
        SeqStmt::Loop { var, lo, hi, body, span } => r matches SeqStmt::Loop { var: v, lo: l, hi: h, body: b, span: sp }
            && v == var && renamed(lo, l, m) && renamed(hi, h, m) && stmts_renamed(body@, b@, unbind(m, var.name@))
            && sp == span,
        SeqStmt::ForEach { var, source, body, span } =>
            r matches SeqStmt::ForEach { var: v, source: src, body: b, span: sp } && v == var
                && source_renamed(source, src, m) && stmts_renamed(body@, b@, unbind(m, var.name@)) && sp == span,
        SeqStmt::Error(sp) => r == s,
    }
}

/// Statement lists renamed one by one.
pub open spec fn stmts_renamed(ss: Seq<SeqStmt>, rs: Seq<SeqStmt>, m: (Option<(Seq<char>, Seq<char>)>, Option<(Seq<char>, Seq<char>)>)) -> bool
    decreases ss,
{
    &&& rs.len() == ss.len()
    &&& ss.len() > 0 ==> stmt_renamed(ss.last(), rs.last(), m) && stmts_renamed(ss.drop_last(), rs.drop_last(), m)
}

/// An assignment target, renamed.
pub(crate) fn rename_lvalue(l: &LValue, m: &Renames) -> (r: LValue)
    ensures
        lvalue_renamed(*l, r, m@),
{
    let index = match &l.index {
        None => None,
        Some((i, s)) => {
            let lo = match s {
                None => None,
                Some(x) => Some(rename_expr(x, m)),
            };
            Some((rename_expr(i, m), lo))
        }
    };
    LValue { base: Ident { name: lookup(m, &l.base.name), span: l.base.span }, index, span: l.span }
}

/// A `foreach` source, renamed.
fn rename_source(s: &ForEachSource, m: &Renames) -> (r: ForEachSource)
    ensures
        source_renamed(*s, r, m@),
{
    match s {
        ForEachSource::Range { lo, hi } => ForEachSource::Range { lo: rename_expr(lo, m), hi: rename_expr(hi, m) },
        ForEachSource::Elements(a) => ForEachSource::Elements(Ident { name: lookup(m, &a.name), span: a.span }),
    }
}

/// A statement, renamed.
fn rename_seq_stmt(s: &SeqStmt, m: &Renames) -> (r: SeqStmt)
    ensures
        stmt_renamed(*s, r, m@),
    decreases s, 0nat,
{
    match s {
        SeqStmt::Assign { lhs, rhs } => SeqStmt::Assign { lhs: rename_lvalue(lhs, m), rhs: rename_expr(rhs, m) },
        SeqStmt::If { cond, then, els } => {
            let c = rename_expr(cond, m);
            let t = rename_seq_stmts(then, m);
            let f = match els {
                None => None,
                Some(b) => Some(rename_seq_stmts(b, m)),
            };
            SeqStmt::If { cond: c, then: t, els: f }
        }
        SeqStmt::Default { name, val, span } => SeqStmt::Default {
            name: Ident { name: lookup(m, &name.name), span: name.span },
            val: rename_expr(val, m),
            span: *span,
        },
        SeqStmt::Loop { var, lo, hi, body, span } => {
            let inner = unbind_exec(m, &var.name);
            SeqStmt::Loop {
                var: copy_ident(var),
                lo: rename_expr(lo, m),
                hi: rename_expr(hi, m),
                body: rename_seq_stmts(body, &inner),
                span: *span,
            }
        }
        SeqStmt::ForEach { var, source, body, span } => {
            let inner = unbind_exec(m, &var.name);
            SeqStmt::ForEach {
                var: copy_ident(var),
                source: rename_source(source, m),
                body: rename_seq_stmts(body, &inner),
                span: *span,
            }
        }
        SeqStmt::Error(sp) => SeqStmt::Error(*sp),
    }
}

/// Each statement of a list, renamed.
#[verifier::loop_isolation(false)]
pub(crate) fn rename_seq_stmts(ss: &Vec<SeqStmt>, m: &Renames) -> (r: Vec<SeqStmt>)
    ensures
        stmts_renamed(ss@, r@, m@),
    decreases ss, 1nat,
{
    let mut out: Vec<SeqStmt> = Vec::new();
    let mut i: usize = 0;
    while i < ss.len()
        invariant
            i <= ss@.len(),
            stmts_renamed(ss@.subrange(0, i as int), out@, m@),
        decreases ss@.len() - i,
    {
        let x = rename_seq_stmt(&ss[i], m);
        let ghost pre = out@;
        out.push(x);
        proof {
            assert(ss@.subrange(0, i + 1).drop_last() =~= ss@.subrange(0, i as int));
            assert(out@.drop_last() =~= pre);
        }
        i += 1;
    }
    proof {
        assert(ss@.subrange(0, ss@.len() as int) =~= ss@);
    }
    out
}

/// `r` is a node-for-node copy of `e`.
pub open spec fn copied(e: Expr, r: Expr) -> bool {
    renamed(e, r, (None, None))
}

/// `r` is a copy of the reference `q`.
pub open spec fn qual_copied(q: QualIdent, r: QualIdent) -> bool {
    &&& r.path@ == q.path@
    &&& r.name == q.name
    &&& r.span == q.span
    &&& r.resolved_file == q.resolved_file
}

/// `rs` copies the parameter bindings `args`.
pub open spec fn args_copied(args: Seq<NamedArg>, rs: Seq<NamedArg>) -> bool
    decreases args,
{
    &&& rs.len() == args.len()
    &&& args.len() > 0 ==> {
        &&& rs.last().name == args.last().name
        &&& copied(args.last().value, rs.last().value)
        &&& args_copied(args.drop_last(), rs.drop_last())
    }
}

/// `r` is a copy of the type `t`.
pub open spec fn type_copied(t: Type, r: Type) -> bool
    decreases t,
{
    match t {
        Type::Bit => r is Bit,
        Type::Bits(w) => r matches Type::Bits(x) && copied(*w, *x),
        Type::Signed(w) => r matches Type::Signed(x) && copied(*w, *x),
        Type::Named(q) => r matches Type::Named(q2) && qual_copied(q, q2),
        Type::Bundle { name, args } => r matches Type::Bundle { name: n2, args: a2 } && qual_copied(name, n2)
            && args_copied(args@, a2@),
        Type::Array { elem, len } => r matches Type::Array { elem: e2, len: l2 } && type_copied(*elem, *e2)
            && copied(*len, *l2),
    }
}

/// A copy of an expression.
pub(crate) fn copy_exact(e: &Expr) -> (r: Expr)
    ensures
        copied(*e, r),
{
    let none = Renames { first: None, second: None };
    rename_expr(e, &none)
}

/// A copy of a reference.
pub(crate) fn copy_qual(q: &QualIdent) -> (r: QualIdent)
    ensures
        qual_copied(*q, r),
{
    let mut path: Vec<Ident> = Vec::new();
    let mut i: usize = 0;
    while i < q.path.len()
        invariant
            i <= q.path@.len(),
            path@ == q.path@.subrange(0, i as int),
        decreases q.path@.len() - i,
    {
        path.push(copy_ident(&q.path[i]));
        proof {
            assert(path@ =~= q.path@.subrange(0, i + 1));
        }
        i += 1;
    }
    proof {
        assert(q.path@.subrange(0, q.path@.len() as int) =~= q.path@);
    }
    QualIdent { path, name: copy_ident(&q.name), span: q.span, resolved_file: q.resolved_file }
}

/// A copy of parameter bindings.
pub(crate) fn copy_args(args: &Vec<NamedArg>) -> (r: Vec<NamedArg>)
    ensures
        args_copied(args@, r@),
{
    let mut out: Vec<NamedArg> = Vec::new();
    let mut i: usize = 0;
    while i < args.len()
        invariant
            i <= args@.len(),
            args_copied(args@.subrange(0, i as int), out@),
        decreases args@.len() - i,
    {
        let ghost pre = out@;
        out.push(NamedArg { name: copy_ident(&args[i].name), value: copy_exact(&args[i].value) });
        proof {
            assert(args@.subrange(0, i + 1).drop_last() =~= args@.subrange(0, i as int));
            assert(out@.drop_last() =~= pre);
        }
        i += 1;
    }
    proof {
        assert(args@.subrange(0, args@.len() as int) =~= args@);
    }
    out
}

/// A copy of a type.
pub(crate) fn copy_ty(t: &Type) -> (r: Type)
    ensures
        type_copied(*t, r),
    decreases t,
{
    match t {
        Type::Bit => Type::Bit,
        Type::Bits(w) => Type::Bits(Box::new(copy_exact(w))),
        Type::Signed(w) => Type::Signed(Box::new(copy_exact(w))),
        Type::Named(q) => Type::Named(copy_qual(q)),
        Type::Bundle { name, args } => Type::Bundle { name: copy_qual(name), args: copy_args(args) },
        Type::Array { elem, len } => Type::Array { elem: Box::new(copy_ty(elem)), len: Box::new(copy_exact(len)) },
    }
}

/// An optional expression copied.
pub open spec fn opt_copied(a: Option<Expr>, b: Option<Expr>) -> bool {
    match a {
        None => b is None,
        Some(x) => b is Some && copied(x, b->Some_0),
    }
}

/// Port connections copied one by one.
pub open spec fn conns_copied(cs: Seq<Conn>, rs: Seq<Conn>) -> bool
    decreases cs,
{
    &&& rs.len() == cs.len()
    &&& cs.len() > 0 ==> {
        &&& rs.last().port == cs.last().port
        &&& copied(cs.last().signal, rs.last().signal)
        &&& conns_copied(cs.drop_last(), rs.drop_last())
    }
}

/// Payload fields copied one by one.
pub open spec fn fields_copied(fs: Seq<PayloadField>, rs: Seq<PayloadField>) -> bool
    decreases fs,
{
    &&& rs.len() == fs.len()
    &&& fs.len() > 0 ==> {
        &&& rs.last().name == fs.last().name
        &&& rs.last().span == fs.last().span
        &&& type_copied(fs.last().ty, rs.last().ty)
        &&& fields_copied(fs.drop_last(), rs.drop_last())
    }
}

/// Enum variants copied one by one.
pub open spec fn variants_copied(vs: Seq<EnumVariant>, rs: Seq<EnumVariant>) -> bool
    decreases vs,
{
    &&& rs.len() == vs.len()
    &&& vs.len() > 0 ==> {
        &&& rs.last().name == vs.last().name
        &&& rs.last().span == vs.last().span
        &&& fields_copied(vs.last().fields@, rs.last().fields@)
        &&& variants_copied(vs.drop_last(), rs.drop_last())
    }
}

/// An enum declaration copied.
pub open spec fn enum_copied(e: EnumDecl, r: EnumDecl) -> bool {
    &&& r.name == e.name
    &&& r.span == e.span
    &&& r.inferred_total_width == e.inferred_total_width
    &&& variants_copied(e.variants@, r.variants@)
}

/// A sync loop declaration copied.
pub open spec fn sync_loop_copied(a: SyncLoop, b: SyncLoop) -> bool {
    &&& b.name == a.name && b.clock == a.clock && b.edge == a.edge && b.var == a.var
    &&& copied(a.lo, b.lo) && copied(a.hi, b.hi)
    &&& b.result_name == a.result_name && type_copied(a.result_ty, b.result_ty) && copied(a.result_init, b.result_init)
    &&& stmts_renamed(a.body@, b.body@, (None, None))
    &&& b.span == a.span
}

/// `b` is a node-for-node copy of the module item `a`.
pub open spec fn item_copied(a: ModuleItem, b: ModuleItem) -> bool
    decreases a,
{
    match a {
        ModuleItem::Port { dir, name, ty } => b matches ModuleItem::Port { dir: d, name: n, ty: t } && d == dir
            && n == name && type_copied(ty, t),
        ModuleItem::Clock(_) | ModuleItem::Reset { .. } | ModuleItem::Error(_) => b == a,
        ModuleItem::Wire { name, ty, init } => b matches ModuleItem::Wire { name: n, ty: t, init: i } && n == name
            && type_copied(ty, t) && copied(init, i),
        ModuleItem::Reg { name, ty, reset } => b matches ModuleItem::Reg { name: n, ty: t, reset: i } && n == name
            && type_copied(ty, t) && copied(reset, i),
        ModuleItem::Mem { name, ty, depth, init } => b matches ModuleItem::Mem { name: n, ty: t, depth: d, init: i }
            && n == name && type_copied(ty, t) && copied(depth, d) && copied(init, i),
        ModuleItem::Const(c) => b matches ModuleItem::Const(c2) && c2.name == c.name && c2.ty == c.ty
            && copied(c.value, c2.value),
        ModuleItem::Enum(e) => b matches ModuleItem::Enum(e2) && enum_copied(e, e2),
        ModuleItem::Inst(i) => b matches ModuleItem::Inst(j) && j.name == i.name && opt_copied(i.index, j.index)
            && qual_copied(i.module, j.module) && args_copied(i.args@, j.args@) && conns_copied(i.conns@, j.conns@)
            && j.span == i.span,
        ModuleItem::On(on) => b matches ModuleItem::On(o) && o.clock == on.clock && o.edge == on.edge
            && stmts_renamed(on.body@, o.body@, (None, None)) && o.span == on.span,
        ModuleItem::Drive { lhs, rhs } => b matches ModuleItem::Drive { lhs: l, rhs: r }
            && lvalue_renamed(lhs, l, (None, None)) && copied(rhs, r),
        ModuleItem::Repeat(r) => b matches ModuleItem::Repeat(r2) && r2.var == r.var && copied(r.lo, r2.lo)
            && copied(r.hi, r2.hi) && items_copied(r.items@, r2.items@) && r2.span == r.span,
        ModuleItem::ForEach(f) => b matches ModuleItem::ForEach(f2) && f2.var == f.var
            && source_renamed(f.source, f2.source, (None, None)) && items_copied(f.items@, f2.items@)
            && f2.span == f.span,
        ModuleItem::SyncLoop(sl) => b matches ModuleItem::SyncLoop(s2) && sync_loop_copied(*sl, *s2),
        ModuleItem::ConstIf { cond, then, els, span } => b matches ModuleItem::ConstIf { cond: c, then: t, els: e, span: s }
            && copied(cond, c) && items_copied(then@, t@) && s == span && match els {
                None => e is None,
                Some(x) => e is Some && items_copied(x@, e->Some_0@),
            },
        ModuleItem::BundleDestructure { bindings, expr, span } =>
            b matches ModuleItem::BundleDestructure { bindings: bs, expr: x, span: s } && bs@ == bindings@
                && copied(expr, x) && s == span,
    }
}

/// Module items copied one by one.
pub open spec fn items_copied(items: Seq<ModuleItem>, rs: Seq<ModuleItem>) -> bool
    decreases items,
{
    &&& rs.len() == items.len()
    &&& items.len() > 0 ==> item_copied(items.last(), rs.last()) && items_copied(items.drop_last(), rs.drop_last())
}

/// A copy of a list of identifiers.
pub(crate) fn copy_idents(v: &Vec<Ident>) -> (r: Vec<Ident>)
    ensures
        r@ == v@,
{
    let mut out: Vec<Ident> = Vec::new();
    let mut i: usize = 0;
    while i < v.len()
        invariant
            i <= v@.len(),
            out@ == v@.subrange(0, i as int),
        decreases v@.len() - i,
    {
        out.push(copy_ident(&v[i]));
        proof {
            assert(out@ =~= v@.subrange(0, i + 1));
        }
        i += 1;
    }
    proof {
        assert(v@.subrange(0, v@.len() as int) =~= v@);
    }
    out
}

/// A copy of port connections.
fn copy_conns(cs: &Vec<Conn>) -> (r: Vec<Conn>)
    ensures
        conns_copied(cs@, r@),
{
    let mut out: Vec<Conn> = Vec::new();
    let mut i: usize = 0;
    while i < cs.len()
        invariant
            i <= cs@.len(),
            conns_copied(cs@.subrange(0, i as int), out@),
        decreases cs@.len() - i,
    {
        let ghost pre = out@;
        out.push(Conn { port: copy_ident(&cs[i].port), signal: copy_exact(&cs[i].signal) });
        proof {
            assert(cs@.subrange(0, i + 1).drop_last() =~= cs@.subrange(0, i as int));
            assert(out@.drop_last() =~= pre);
        }
        i += 1;
    }
    proof {
        assert(cs@.subrange(0, cs@.len() as int) =~= cs@);
    }
    out
}

/// A copy of payload fields.
fn copy_fields(fs: &Vec<PayloadField>) -> (r: Vec<PayloadField>)
    ensures
        fields_copied(fs@, r@),
{
    let mut out: Vec<PayloadField> = Vec::new();
    let mut i: usize = 0;
    while i < fs.len()
        invariant
            i <= fs@.len(),
            fields_copied(fs@.subrange(0, i as int), out@),
        decreases fs@.len() - i,
    {
        let ghost pre = out@;
        out.push(PayloadField { name: copy_ident(&fs[i].name), ty: copy_ty(&fs[i].ty), span: fs[i].span });
        proof {
            assert(fs@.subrange(0, i + 1).drop_last() =~= fs@.subrange(0, i as int));
            assert(out@.drop_last() =~= pre);
        }
        i += 1;
    }
    proof {
        assert(fs@.subrange(0, fs@.len() as int) =~= fs@);
    }
    out
}

/// A copy of an enum declaration.
pub(crate) fn copy_enum_decl(e: &EnumDecl) -> (r: EnumDecl)
    ensures
        enum_copied(*e, r),
{
    let mut out: Vec<EnumVariant> = Vec::new();
    let mut i: usize = 0;
    while i < e.variants.len()
        invariant
            i <= e.variants@.len(),
            variants_copied(e.variants@.subrange(0, i as int), out@),
        decreases e.variants@.len() - i,
    {
        let v = &e.variants[i];
        let ghost pre = out@;
        out.push(EnumVariant { name: copy_ident(&v.name), fields: copy_fields(&v.fields), span: v.span });
        proof {
            assert(e.variants@.subrange(0, i + 1).drop_last() =~= e.variants@.subrange(0, i as int));
            assert(out@.drop_last() =~= pre);
        }
        i += 1;
    }
    proof {
        assert(e.variants@.subrange(0, e.variants@.len() as int) =~= e.variants@);
    }
    EnumDecl { name: copy_ident(&e.name), variants: out, span: e.span, inferred_total_width: e.inferred_total_width }
}

/// A copy of a module item.
pub(crate) fn copy_item(a: &ModuleItem) -> (r: ModuleItem)
    ensures
        item_copied(*a, r),
    decreases a, 0nat,
{
    let none = Renames { first: None, second: None };
    match a {
        ModuleItem::Port { dir, name, ty } => ModuleItem::Port { dir: *dir, name: copy_ident(name), ty: copy_ty(ty) },
        ModuleItem::Clock(i) => ModuleItem::Clock(copy_ident(i)),
        ModuleItem::Reset { name, is_async } => ModuleItem::Reset { name: copy_ident(name), is_async: *is_async },
        ModuleItem::Error(sp) => ModuleItem::Error(*sp),
        ModuleItem::Wire { name, ty, init } => ModuleItem::Wire {
            name: copy_ident(name),
            ty: copy_ty(ty),
            init: copy_exact(init),
        },
        ModuleItem::Reg { name, ty, reset } => ModuleItem::Reg {
            name: copy_ident(name),
            ty: copy_ty(ty),
            reset: copy_exact(reset),
        },
        ModuleItem::Mem { name, ty, depth, init } => ModuleItem::Mem {
            name: copy_ident(name),
            ty: copy_ty(ty),
            depth: copy_exact(depth),
            init: copy_exact(init),
        },
        ModuleItem::Const(c) => ModuleItem::Const(ConstDecl { name: copy_ident(&c.name), ty: c.ty, value: copy_exact(&c.value) }),
        ModuleItem::Enum(e) => ModuleItem::Enum(copy_enum_decl(e)),
        ModuleItem::Inst(i) => {
            let index = match &i.index {
                Some(x) => Some(copy_exact(x)),
                None => None,
            };
            ModuleItem::Inst(Inst {
                name: copy_ident(&i.name),
                index,
                module: copy_qual(&i.module),
                args: copy_args(&i.args),
                conns: copy_conns(&i.conns),
                span: i.span,
            })
        }
        ModuleItem::On(on) => ModuleItem::On(OnBlock {
            clock: copy_ident(&on.clock),
            edge: on.edge,
            body: rename_seq_stmts(&on.body, &none),
            span: on.span,
        }),
        ModuleItem::Drive { lhs, rhs } => ModuleItem::Drive { lhs: rename_lvalue(lhs, &none), rhs: copy_exact(rhs) },
        ModuleItem::Repeat(r) => ModuleItem::Repeat(Repeat {
            var: copy_ident(&r.var),
            lo: copy_exact(&r.lo),
            hi: copy_exact(&r.hi),
            items: copy_items(&r.items),
            span: r.span,
        }),
        ModuleItem::ForEach(f) => ModuleItem::ForEach(ForEach {
            var: copy_ident(&f.var),
            source: rename_source(&f.source, &none),
            items: copy_items(&f.items),
            span: f.span,
        }),
        ModuleItem::SyncLoop(sl) => ModuleItem::SyncLoop(Box::new(SyncLoop {
            name: copy_ident(&sl.name),
            clock: copy_ident(&sl.clock),
            edge: sl.edge,
            var: copy_ident(&sl.var),
            lo: copy_exact(&sl.lo),
            hi: copy_exact(&sl.hi),
            result_name: copy_ident(&sl.result_name),
            result_ty: copy_ty(&sl.result_ty),
            result_init: copy_exact(&sl.result_init),
            body: rename_seq_stmts(&sl.body, &none),
            span: sl.span,
        })),
        ModuleItem::ConstIf { cond, then, els, span } => ModuleItem::ConstIf {
            cond: copy_exact(cond),
            then: copy_items(then),
            els: match els {
                Some(x) => Some(copy_items(x)),
                None => None,
            },
            span: *span,
        },
        ModuleItem::BundleDestructure { bindings, expr, span } => ModuleItem::BundleDestructure {
            bindings: copy_idents(bindings),
            expr: copy_exact(expr),
            span: *span,
        },
    }
}

/// A copy of a list of module items.
pub(crate) fn copy_items(items: &Vec<ModuleItem>) -> (r: Vec<ModuleItem>)
    ensures
        items_copied(items@, r@),
    decreases items, 1nat,
{
    let mut out: Vec<ModuleItem> = Vec::new();
    let mut i: usize = 0;
    while i < items.len()
        invariant
            i <= items@.len(),
            items_copied(items@.subrange(0, i as int), out@),
        decreases items@.len() - i,
    {
        let x = copy_item(&items[i]);
        let ghost pre = out@;
        out.push(x);
        proof {
            assert(items@.subrange(0, i + 1).drop_last() =~= items@.subrange(0, i as int));
            assert(out@.drop_last() =~= pre);
        }
        i += 1;
    }
    proof {
        assert(items@.subrange(0, items@.len() as int) =~= items@);
    }
    out
}

/// A copy of a statement.
pub(crate) fn rename_seq_stmt_copy(s: &SeqStmt) -> (r: SeqStmt)
    ensures
        stmt_renamed(*s, r, (None, None)),
{
    let none = Renames { first: None, second: None };
    rename_seq_stmt(s, &none)
}

} // verus!
