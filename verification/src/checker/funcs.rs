//! Functions: no recursion (E0805) and no code after an unconditional
//! `return` in the same block (E0812).
//!
//! `fn` bodies are combinational and inlined at every call site, so a
//! call cycle would need infinite unrolling. The call graph over the
//! project's functions is searched depth first; every function reached
//! again while still on the search path is part of a cycle.

use vstd::prelude::*;

use crate::ast::{Arm, Expr, ExprKind, FieldInit, File, FnStmt, ForEachSource, FuncDecl, TopItem};
use crate::diag::Diag;
use crate::span::Span;
use crate::text::{cat, owned};

use super::Checker;
use super::lemma_grew_trans;
use super::symbols::{before, func_at, func_decl_at, func_name_at, registered_at};

verus! {

/// Byte-wise lexicographic order: `x` sorts strictly before `y`.
pub open spec fn bytes_less(x: Seq<u8>, y: Seq<u8>) -> bool
    decreases x.len(),
{
    if x.len() == 0 {
        y.len() > 0
    } else if y.len() == 0 {
        false
    } else if x[0] != y[0] {
        x[0] < y[0]
    } else {
        bytes_less(x.drop_first(), y.drop_first())
    }
}

/// What a name sorts by: its UTF-8 bytes, as `String`'s own order does.
pub open spec fn name_key(s: String) -> Seq<u8> {
    vstd::utf8::encode_utf8(s@)
}

/// No sequence sorts before itself, and of two sequences at most one sorts
/// before the other.
proof fn lemma_bytes_less_asym(x: Seq<u8>, y: Seq<u8>)
    ensures
        !(bytes_less(x, y) && bytes_less(y, x)),
    decreases x.len(),
{
    if x.len() > 0 && y.len() > 0 && x[0] == y[0] {
        lemma_bytes_less_asym(x.drop_first(), y.drop_first());
    }
}

/// The order is transitive.
proof fn lemma_bytes_less_trans(x: Seq<u8>, y: Seq<u8>, z: Seq<u8>)
    requires
        bytes_less(x, y),
        bytes_less(y, z),
    ensures
        bytes_less(x, z),
    decreases x.len(),
{
    if x.len() > 0 && y.len() > 0 && z.len() > 0 && x[0] == y[0] && y[0] == z[0] {
        lemma_bytes_less_trans(x.drop_first(), y.drop_first(), z.drop_first());
    }
}

/// Any two different sequences are ordered one way or the other.
proof fn lemma_bytes_less_total(x: Seq<u8>, y: Seq<u8>)
    ensures
        x == y || bytes_less(x, y) || bytes_less(y, x),
    decreases x.len(),
{
    if x.len() == 0 && y.len() == 0 {
        assert(x =~= y);
    } else if x.len() > 0 && y.len() > 0 && x[0] == y[0] {
        lemma_bytes_less_total(x.drop_first(), y.drop_first());
        if x.drop_first() == y.drop_first() {
            assert(x =~= seq![x[0]] + x.drop_first());
            assert(y =~= seq![y[0]] + y.drop_first());
        }
    }
}

/// "Not after" is transitive: `a <= b <= c` gives `a <= c`.
proof fn lemma_not_after_trans(a: Seq<u8>, b: Seq<u8>, c: Seq<u8>)
    requires
        !bytes_less(b, a),
        !bytes_less(c, b),
    ensures
        !bytes_less(c, a),
{
    lemma_bytes_less_total(a, b);
    lemma_bytes_less_total(b, c);
    if bytes_less(c, a) {
        if a != b && b != c {
            lemma_bytes_less_trans(a, b, c);
            lemma_bytes_less_asym(a, c);
        } else if a == b {
            lemma_bytes_less_total(b, c);
        }
    }
}

/// Whether `a` sorts strictly before `b`, comparing their bytes.
pub fn name_less(a: &String, b: &String) -> (r: bool)
    ensures
        r == bytes_less(name_key(*a), name_key(*b)),
{
    let x = a.as_str().as_bytes();
    let y = b.as_str().as_bytes();
    proof {
        assert(x@.subrange(0, x@.len() as int) =~= x@);
        assert(y@.subrange(0, y@.len() as int) =~= y@);
    }
    let mut i: usize = 0;
    while i < x.len() && i < y.len()
        invariant
            i <= x@.len(),
            i <= y@.len(),
            x@ == name_key(*a),
            y@ == name_key(*b),
            bytes_less(x@.subrange(i as int, x@.len() as int), y@.subrange(i as int, y@.len() as int))
                == bytes_less(x@, y@),
        decreases x@.len() - i,
    {
        proof {
            assert(x@.subrange(i as int, x@.len() as int).drop_first() =~= x@.subrange(i + 1, x@.len() as int));
            assert(y@.subrange(i as int, y@.len() as int).drop_first() =~= y@.subrange(i + 1, y@.len() as int));
        }
        if x[i] < y[i] {
            return true;
        }
        if x[i] > y[i] {
            return false;
        }
        i += 1;
    }
    x.len() < y.len()
}

/// Whether `out` already holds `name`.
fn holds_name(out: &Vec<String>, name: &String) -> (r: bool)
    ensures
        r == exists|k: int| 0 <= k < out@.len() && #[trigger] out@[k]@ == name@,
{
    let mut k: usize = 0;
    while k < out.len()
        invariant
            k <= out@.len(),
            forall|j: int| 0 <= j < k ==> #[trigger] out@[j]@ != name@,
        decreases out@.len() - k,
    {
        if out[k] == *name {
            return true;
        }
        k += 1;
    }
    false
}

/// The user-function names called in `e`, in walk order (repeats kept).
pub open spec fn calls_in(e: Expr) -> Seq<Seq<char>>
    decreases e,
{
    match e.kind {
        ExprKind::FnCall { name, args } => seq![name.name@] + calls_in_all(args@),
        ExprKind::Unary { expr, .. } => calls_in(*expr),
        ExprKind::Binary { lhs, rhs, .. } => calls_in(*lhs) + calls_in(*rhs),
        ExprKind::IfExpr { cond, then, els } => calls_in(*cond) + calls_in(*then) + calls_in(*els),
        ExprKind::Match { scrutinee, arms } => calls_in(*scrutinee) + calls_in_arms(arms@),
        ExprKind::Concat(parts) => calls_in_all(parts@),
        ExprKind::Replicate { count, parts } => calls_in(*count) + calls_in_all(parts@),
        ExprKind::Index { base, index } => calls_in(*base) + calls_in(*index),
        ExprKind::Slice { base, hi, lo } => calls_in(*base) + calls_in(*hi) + calls_in(*lo),
        ExprKind::Call { args, .. } | ExprKind::EnumConstruct { args, .. } | ExprKind::ArrayLit(args) =>
            calls_in_all(args@),
        ExprKind::Field { base, .. } => calls_in(*base),
        ExprKind::BundleLit(inits) => calls_in_inits(inits@),
        ExprKind::Int { .. } | ExprKind::Bool(_) | ExprKind::Ident(_) => Seq::empty(),
    }
}

/// The names called in a list of expressions, in order.
pub open spec fn calls_in_all(es: Seq<Expr>) -> Seq<Seq<char>>
    decreases es,
{
    if es.len() == 0 { Seq::empty() } else { calls_in_all(es.drop_last()) + calls_in(es.last()) }
}

/// The names called in match arms' values, in order.
pub open spec fn calls_in_arms(arms: Seq<Arm>) -> Seq<Seq<char>>
    decreases arms,
{
    if arms.len() == 0 { Seq::empty() } else { calls_in_arms(arms.drop_last()) + calls_in(arms.last().value) }
}

/// The names called in field initializers, in order.
pub open spec fn calls_in_inits(fs: Seq<FieldInit>) -> Seq<Seq<char>>
    decreases fs,
{
    if fs.len() == 0 { Seq::empty() } else { calls_in_inits(fs.drop_last()) + calls_in(fs.last().value) }
}

/// The names called in a function-body statement: a `let` value, an `if`
/// condition and both branches, a `return` value, a loop's bounds and
/// body, a ranged `foreach`'s bounds and body.
pub open spec fn calls_in_stmt(st: FnStmt) -> Seq<Seq<char>>
    decreases st,
{
    match st {
        FnStmt::Let(local) => calls_in(local.value),
        FnStmt::If { cond, then, els } => calls_in(cond) + calls_in_stmts(then@) + match els {
            Some(b) => calls_in_stmts(b@),
            None => Seq::empty(),
        },
        FnStmt::Return(e) => calls_in(e),
        FnStmt::Loop { lo, hi, body, .. } => calls_in(lo) + calls_in(hi) + calls_in_stmts(body@),
        FnStmt::ForEach { source, body, .. } => calls_in_source(source) + calls_in_stmts(body@),
        FnStmt::Error(_) => Seq::empty(),
    }
}

/// The names called in a `foreach` source: a range's bounds.
pub open spec fn calls_in_source(src: ForEachSource) -> Seq<Seq<char>> {
    match src {
        ForEachSource::Range { lo, hi } => calls_in(lo) + calls_in(hi),
        ForEachSource::Elements(_) => Seq::empty(),
    }
}

/// The names called in a statement list, in order.
pub open spec fn calls_in_stmts(ss: Seq<FnStmt>) -> Seq<Seq<char>>
    decreases ss,
{
    if ss.len() == 0 { Seq::empty() } else { calls_in_stmts(ss.drop_last()) + calls_in_stmt(ss.last()) }
}

/// The names a function body calls: its statements, then its tail.
pub open spec fn calls_of(d: FuncDecl) -> Seq<Seq<char>> {
    calls_in_stmts(d.stmts@) + calls_in(d.tail)
}

/// `acc` extended by each name of `xs` that it does not hold yet, in order.
pub open spec fn add_new(acc: Seq<Seq<char>>, xs: Seq<Seq<char>>) -> Seq<Seq<char>>
    decreases xs.len(),
{
    if xs.len() == 0 {
        acc
    } else {
        let a = add_new(acc, xs.drop_last());
        if a.contains(xs.last()) { a } else { a.push(xs.last()) }
    }
}

/// Adding two runs of names one after the other adds their concatenation.
proof fn lemma_add_new_concat(acc: Seq<Seq<char>>, xs: Seq<Seq<char>>, ys: Seq<Seq<char>>)
    ensures
        add_new(acc, xs + ys) == add_new(add_new(acc, xs), ys),
    decreases ys.len(),
{
    if ys.len() == 0 {
        assert(xs + ys =~= xs);
    } else {
        assert((xs + ys).drop_last() =~= xs + ys.drop_last());
        assert((xs + ys).last() == ys.last());
        lemma_add_new_concat(acc, xs, ys.drop_last());
    }
}

/// A name `add_new` holds came from `acc` or from `xs`.
proof fn lemma_add_new_holds(acc: Seq<Seq<char>>, xs: Seq<Seq<char>>, x: Seq<char>)
    ensures
        add_new(acc, xs).contains(x) <==> acc.contains(x) || xs.contains(x),
        acc.no_duplicates() ==> add_new(acc, xs).no_duplicates(),
        acc.is_prefix_of(add_new(acc, xs)),
    decreases xs.len(),
{
    if xs.len() > 0 {
        lemma_add_new_holds(acc, xs.drop_last(), x);
        lemma_add_new_holds(acc, xs.drop_last(), xs.last());
        let a = add_new(acc, xs.drop_last());
        assert(xs =~= xs.drop_last().push(xs.last()));
        if xs.drop_last().contains(x) {
            let k = choose|k: int| 0 <= k < xs.drop_last().len() && xs.drop_last()[k] == x;
            assert(xs[k] == x);
        }
        if xs.contains(x) && !xs.drop_last().contains(x) {
            let k = choose|k: int| 0 <= k < xs.len() && xs[k] == x;
            if k < xs.len() - 1 {
                assert(xs.drop_last()[k] == x);
            }
        }
        if !a.contains(xs.last()) {
            assert(a.push(xs.last())[a.len() as int] == xs.last());
            if a.contains(x) {
                let k = choose|k: int| 0 <= k < a.len() && a[k] == x;
                assert(a.push(xs.last())[k] == x);
            }
            if a.push(xs.last()).contains(x) && x != xs.last() {
                let k = choose|k: int| 0 <= k < a.len() + 1 && a.push(xs.last())[k] == x;
                assert(a[k] == x);
            }
        }
    }
}

/// What a list of names says, as text.
pub open spec fn texts(v: Seq<String>) -> Seq<Seq<char>> {
    v.map_values(|s: String| s@)
}

/// Append `name` to `out` unless it is there already.
fn add_name(out: &mut Vec<String>, name: &String)
    ensures
        texts(final(out)@) == add_new(texts(old(out)@), seq![name@]),
{
    let ghost before = texts(out@);
    proof {
        let one = seq![name@];
        assert(one.drop_last() =~= Seq::<Seq<char>>::empty());
        assert(one.last() == name@);
        assert(add_new(before, one.drop_last()) == before);
    }
    if !holds_name(out, name) {
        proof {
            assert forall|k: int| 0 <= k < before.len() implies before[k] != name@ by {
                assert(before[k] == out@[k]@);
            }
            assert(!before.contains(name@));
        }
        out.push(name.clone());
        proof {
            assert(texts(out@) =~= before.push(name@));
        }
    } else {
        proof {
            let k = choose|k: int| 0 <= k < out@.len() && #[trigger] out@[k]@ == name@;
            assert(before[k] == name@);
            assert(before.contains(name@));
        }
    }
}

/// Push every distinct user-function name called anywhere in `e`: the
/// names `out` did not hold yet, in the order they are first met.
pub fn collect_calls(e: &Expr, out: &mut Vec<String>)
    ensures
        texts(final(out)@) == add_new(texts(old(out)@), calls_in(*e)),
    decreases e, 0nat,
{
    let ghost acc = texts(out@);
    match &e.kind {
        ExprKind::FnCall { name, args } => {
            add_name(out, &name.name);
            collect_calls_all(args, out);
            proof { lemma_add_new_concat(acc, seq![name.name@], calls_in_all(args@)); }
        }
        ExprKind::Unary { expr, .. } => collect_calls(expr, out),
        ExprKind::Binary { lhs, rhs, .. } => {
            collect_calls(lhs, out);
            collect_calls(rhs, out);
            proof { lemma_add_new_concat(acc, calls_in(**lhs), calls_in(**rhs)); }
        }
        ExprKind::IfExpr { cond, then, els } => {
            collect_calls(cond, out);
            collect_calls(then, out);
            collect_calls(els, out);
            proof {
                lemma_add_new_concat(acc, calls_in(**cond), calls_in(**then));
                lemma_add_new_concat(acc, calls_in(**cond) + calls_in(**then), calls_in(**els));
            }
        }
        ExprKind::Match { scrutinee, arms } => {
            collect_calls(scrutinee, out);
            collect_calls_arms(arms, out);
            proof { lemma_add_new_concat(acc, calls_in(**scrutinee), calls_in_arms(arms@)); }
        }
        ExprKind::Concat(parts) => collect_calls_all(parts, out),
        ExprKind::Replicate { count, parts } => {
            collect_calls(count, out);
            collect_calls_all(parts, out);
            proof { lemma_add_new_concat(acc, calls_in(**count), calls_in_all(parts@)); }
        }
        ExprKind::Index { base, index } => {
            collect_calls(base, out);
            collect_calls(index, out);
            proof { lemma_add_new_concat(acc, calls_in(**base), calls_in(**index)); }
        }
        ExprKind::Slice { base, hi, lo } => {
            collect_calls(base, out);
            collect_calls(hi, out);
            collect_calls(lo, out);
            proof {
                lemma_add_new_concat(acc, calls_in(**base), calls_in(**hi));
                lemma_add_new_concat(acc, calls_in(**base) + calls_in(**hi), calls_in(**lo));
            }
        }
        ExprKind::Call { args, .. } | ExprKind::EnumConstruct { args, .. } | ExprKind::ArrayLit(args) =>
            collect_calls_all(args, out),
        ExprKind::Field { base, .. } => collect_calls(base, out),
        ExprKind::BundleLit(inits) => collect_calls_inits(inits, out),
        ExprKind::Int { .. } | ExprKind::Bool(_) | ExprKind::Ident(_) => {}
    }
}

/// [`collect_calls`] over each expression of a list, in order.
fn collect_calls_all(es: &Vec<Expr>, out: &mut Vec<String>)
    ensures
        texts(final(out)@) == add_new(texts(old(out)@), calls_in_all(es@)),
    decreases es, 1nat,
{
    let ghost acc = texts(out@);
    let mut i: usize = 0;
    proof { assert(es@.subrange(0, 0) =~= Seq::<Expr>::empty()); }
    while i < es.len()
        invariant
            i <= es@.len(),
            texts(out@) == add_new(acc, calls_in_all(es@.subrange(0, i as int))),
        decreases es@.len() - i,
    {
        collect_calls(&es[i], out);
        proof {
            assert(es@.subrange(0, i + 1).drop_last() =~= es@.subrange(0, i as int));
            lemma_add_new_concat(acc, calls_in_all(es@.subrange(0, i as int)), calls_in(es@[i as int]));
        }
        i += 1;
    }
    proof { assert(es@.subrange(0, es@.len() as int) =~= es@); }
}

/// [`collect_calls`] over each arm's value, in order.
fn collect_calls_arms(arms: &Vec<Arm>, out: &mut Vec<String>)
    ensures
        texts(final(out)@) == add_new(texts(old(out)@), calls_in_arms(arms@)),
    decreases arms, 1nat,
{
    let ghost acc = texts(out@);
    let mut i: usize = 0;
    proof { assert(arms@.subrange(0, 0) =~= Seq::<Arm>::empty()); }
    while i < arms.len()
        invariant
            i <= arms@.len(),
            texts(out@) == add_new(acc, calls_in_arms(arms@.subrange(0, i as int))),
        decreases arms@.len() - i,
    {
        collect_calls(&arms[i].value, out);
        proof {
            assert(arms@.subrange(0, i + 1).drop_last() =~= arms@.subrange(0, i as int));
            lemma_add_new_concat(acc, calls_in_arms(arms@.subrange(0, i as int)), calls_in(arms@[i as int].value));
        }
        i += 1;
    }
    proof { assert(arms@.subrange(0, arms@.len() as int) =~= arms@); }
}

/// [`collect_calls`] over each field initializer's value, in order.
fn collect_calls_inits(fs: &Vec<FieldInit>, out: &mut Vec<String>)
    ensures
        texts(final(out)@) == add_new(texts(old(out)@), calls_in_inits(fs@)),
    decreases fs, 1nat,
{
    let ghost acc = texts(out@);
    let mut i: usize = 0;
    proof { assert(fs@.subrange(0, 0) =~= Seq::<FieldInit>::empty()); }
    while i < fs.len()
        invariant
            i <= fs@.len(),
            texts(out@) == add_new(acc, calls_in_inits(fs@.subrange(0, i as int))),
        decreases fs@.len() - i,
    {
        collect_calls(&fs[i].value, out);
        proof {
            assert(fs@.subrange(0, i + 1).drop_last() =~= fs@.subrange(0, i as int));
            lemma_add_new_concat(acc, calls_in_inits(fs@.subrange(0, i as int)), calls_in(fs@[i as int].value));
        }
        i += 1;
    }
    proof { assert(fs@.subrange(0, fs@.len() as int) =~= fs@); }
}

/// Push every user-function name called in a statement list.
fn collect_fn_stmt_calls(stmts: &Vec<FnStmt>, out: &mut Vec<String>)
    ensures
        texts(final(out)@) == add_new(texts(old(out)@), calls_in_stmts(stmts@)),
    decreases stmts,
{
    let ghost acc = texts(out@);
    let mut i: usize = 0;
    proof { assert(stmts@.subrange(0, 0) =~= Seq::<FnStmt>::empty()); }
    while i < stmts.len()
        invariant
            i <= stmts@.len(),
            texts(out@) == add_new(acc, calls_in_stmts(stmts@.subrange(0, i as int))),
        decreases stmts@.len() - i,
    {
        let ghost mid = texts(out@);
        match &stmts[i] {
            FnStmt::Let(local) => collect_calls(&local.value, out),
            FnStmt::If { cond, then, els } => {
                collect_calls(cond, out);
                collect_fn_stmt_calls(then, out);
                proof { lemma_add_new_concat(mid, calls_in(*cond), calls_in_stmts(then@)); }
                if let Some(els) = els {
                    collect_fn_stmt_calls(els, out);
                    proof { lemma_add_new_concat(mid, calls_in(*cond) + calls_in_stmts(then@), calls_in_stmts(els@)); }
                } else {
                    proof { assert(calls_in(*cond) + calls_in_stmts(then@) + Seq::<Seq<char>>::empty() =~= calls_in(*cond) + calls_in_stmts(then@)); }
                }
            }
            FnStmt::Return(expr) => collect_calls(expr, out),
            FnStmt::Loop { lo, hi, body, .. } => {
                collect_calls(lo, out);
                collect_calls(hi, out);
                collect_fn_stmt_calls(body, out);
                proof {
                    lemma_add_new_concat(mid, calls_in(*lo), calls_in(*hi));
                    lemma_add_new_concat(mid, calls_in(*lo) + calls_in(*hi), calls_in_stmts(body@));
                }
            }
            FnStmt::ForEach { source, body, .. } => {
                if let ForEachSource::Range { lo, hi } = source {
                    collect_calls(lo, out);
                    collect_calls(hi, out);
                    proof { lemma_add_new_concat(mid, calls_in(*lo), calls_in(*hi)); }
                }
                let ghost mid2 = texts(out@);
                collect_fn_stmt_calls(body, out);
                proof {
                    let src = calls_in_source(*source);
                    if src.len() == 0 {
                        assert(mid2 == add_new(mid, src));
                    }
                    lemma_add_new_concat(mid, src, calls_in_stmts(body@));
                }
            }
            FnStmt::Error(_) => {}
        }
        proof {
            assert(stmts@.subrange(0, i + 1).drop_last() =~= stmts@.subrange(0, i as int));
            lemma_add_new_concat(acc, calls_in_stmts(stmts@.subrange(0, i as int)), calls_in_stmt(stmts@[i as int]));
        }
        i += 1;
    }
    proof { assert(stmts@.subrange(0, stmts@.len() as int) =~= stmts@); }
}

/// The distinct user functions a declaration calls directly, in the
/// order first met.
fn direct_callees(decl: &FuncDecl) -> (r: Vec<String>)
    ensures
        texts(r@) == add_new(Seq::empty(), calls_of(*decl)),
{
    let mut out: Vec<String> = Vec::new();
    proof { assert(texts(out@) =~= Seq::<Seq<char>>::empty()); }
    collect_fn_stmt_calls(&decl.stmts, &mut out);
    collect_calls(&decl.tail, &mut out);
    proof { lemma_add_new_concat(Seq::empty(), calls_in_stmts(decl.stmts@), calls_in(decl.tail)); }
    out
}

/// The span a statement is reported at: a `let`'s, an `if`'s condition,
/// a `return`'s value, a loop's own.
pub open spec fn stmt_span(st: FnStmt) -> Span {
    match st {
        FnStmt::Let(l) => l.span,
        FnStmt::If { cond, .. } => cond.span,
        FnStmt::Return(e) => e.span,
        FnStmt::Loop { span, .. } => span,
        FnStmt::ForEach { span, .. } => span,
        FnStmt::Error(s) => s,
    }
}

/// The span E0812 points at: the first unreachable statement's own.
fn next_stmt_span(stmt: &FnStmt) -> (r: Span)
    ensures
        r == stmt_span(*stmt),
{
    match stmt {
        FnStmt::Let(l) => l.span,
        FnStmt::If { cond, .. } => cond.span,
        FnStmt::Return(e) => e.span,
        FnStmt::Loop { span, .. } => *span,
        FnStmt::ForEach { span, .. } => *span,
        FnStmt::Error(s) => *s,
    }
}

/// Where dead code starts in the statements of `ss` from position `i`
/// on, in order: the nested blocks of each statement before the first
/// `return` are searched first; that `return`, when a statement follows
/// it in the same list, marks the following statement, and ends the
/// search of the list.
pub open spec fn dead_from(ss: Seq<FnStmt>, i: int) -> Seq<Span>
    decreases ss, ss.len() - i,
{
    if i < 0 || i >= ss.len() {
        Seq::empty()
    } else {
        match ss[i] {
            FnStmt::Return(_) => if i + 1 < ss.len() { seq![stmt_span(ss[i + 1])] } else { Seq::empty() },
            FnStmt::If { then, els, .. } => dead_from(then@, 0) + match els {
                Some(b) => dead_from(b@, 0),
                None => Seq::empty(),
            } + dead_from(ss, i + 1),
            FnStmt::Loop { body, .. } => dead_from(body@, 0) + dead_from(ss, i + 1),
            FnStmt::ForEach { body, .. } => dead_from(body@, 0) + dead_from(ss, i + 1),
            _ => dead_from(ss, i + 1),
        }
    }
}

/// Where dead code starts in a function body.
pub open spec fn dead_code(d: FuncDecl) -> Seq<Span> {
    dead_from(d.stmts@, 0)
}

/// Entries `from..` of `ds` are E0812s in file `file`, one at each span
/// of `spans`, in order, and nothing else.
pub open spec fn dead_reported(ds: Seq<Diag>, from: int, spans: Seq<Span>, file: usize) -> bool {
    &&& ds.len() == from + spans.len()
    &&& forall|j: int| 0 <= j < spans.len() ==> (#[trigger] ds[from + j]).code == Some("E0812")
        && ds[from + j].span == spans[j] && ds[from + j].file == Some(file)
}

/// Two runs of reports one after the other report the concatenation.
proof fn lemma_dead_reported_concat(ds1: Seq<Diag>, ds2: Seq<Diag>, from: int, x: Seq<Span>, y: Seq<Span>, file: usize)
    requires
        0 <= from,
        dead_reported(ds1, from, x, file),
        dead_reported(ds2, ds1.len() as int, y, file),
        super::prefix_of(ds1, ds2),
    ensures
        dead_reported(ds2, from, x + y, file),
{
    assert forall|j: int| 0 <= j < (x + y).len() implies (#[trigger] ds2[from + j]).code == Some("E0812")
        && ds2[from + j].span == (x + y)[j] && ds2[from + j].file == Some(file) by {
        if j < x.len() {
            assert(ds2[from + j] == ds1[from + j]);
        } else {
            assert(ds2[ds1.len() + (j - x.len())] == ds2[from + j]);
        }
    }
}

/// Indices `0..names.len()` ordered by name: each index once, and no
/// index after one whose name sorts later.
pub(crate) fn sorted_by_name(names: &Vec<String>) -> (r: Vec<usize>)
    ensures
        r@.len() == names@.len(),
        forall|k: int| 0 <= k < r@.len() ==> #[trigger] r@[k] < names@.len(),
        forall|x: usize| x < names@.len() ==> #[trigger] r@.contains(x),
        r@.no_duplicates(),
        forall|p: int, q: int| 0 <= p < q < r@.len()
            ==> !bytes_less(name_key(names@[r@[q] as int]), name_key(names@[r@[p] as int])),
{
    let mut order: Vec<usize> = Vec::new();
    let mut i: usize = 0;
    while i < names.len()
        invariant
            i <= names@.len(),
            order@.len() == i,
            forall|k: int| 0 <= k < order@.len() ==> #[trigger] order@[k] < i,
            forall|x: usize| x < i ==> #[trigger] order@.contains(x),
            order@.no_duplicates(),
            forall|p: int, q: int| 0 <= p < q < order@.len()
                ==> !bytes_less(name_key(names@[order@[q] as int]), name_key(names@[order@[p] as int])),
        decreases names@.len() - i,
    {
        let ghost key = name_key(names@[i as int]);
        let mut pos: usize = order.len();
        while pos > 0 && name_less(&names[i], &names[order[pos - 1]])
            invariant
                i < names@.len(),
                pos <= order@.len(),
                key == name_key(names@[i as int]),
                forall|k: int| 0 <= k < order@.len() ==> #[trigger] order@[k] < i,
                forall|q: int| pos <= q < order@.len() ==> bytes_less(key, #[trigger] name_key(names@[order@[q] as int])),
            decreases pos,
        {
            pos -= 1;
        }
        let ghost old_order = order@;
        order.insert(pos, i);
        proof {
            old_order.insert_ensures(pos as int, i);
            assert forall|x: usize| x < i + 1 implies #[trigger] order@.contains(x) by {
                if x == i {
                    assert(order@[pos as int] == i);
                } else {
                    assert(old_order.contains(x));
                    let k = choose|k: int| 0 <= k < old_order.len() && old_order[k] == x;
                    if k < pos {
                        assert(order@[k] == x);
                    } else {
                        assert(order@[k + 1] == x);
                    }
                }
            }
            assert forall|p: int, q: int| 0 <= p < q < order@.len() implies order@[p] != order@[q] by {
                if p != pos && q != pos {
                    let pp = if p < pos { p } else { p - 1 };
                    let qq = if q < pos { q } else { q - 1 };
                    assert(order@[p] == old_order[pp]);
                    assert(order@[q] == old_order[qq]);
                }
            }
            assert forall|p: int, q: int| 0 <= p < q < order@.len()
                implies !bytes_less(name_key(names@[order@[q] as int]), name_key(names@[order@[p] as int])) by {
                let pp = if p < pos { p } else { p - 1 };
                let qq = if q < pos { q } else { q - 1 };
                if p == pos {
                    assert(order@[q] == old_order[qq]);
                    lemma_bytes_less_asym(key, name_key(names@[old_order[qq] as int]));
                } else if q == pos {
                    assert(order@[p] == old_order[pp]);
                    let last = name_key(names@[old_order[pos - 1] as int]);
                    if pp < pos - 1 {
                        lemma_not_after_trans(name_key(names@[old_order[pp] as int]), last, key);
                    }
                } else {
                    assert(order@[p] == old_order[pp]);
                    assert(order@[q] == old_order[qq]);
                }
            }
        }
        i += 1;
    }
    order
}

/// In the index call graph `g`, node `a` calls node `b`.
pub open spec fn edge(g: Seq<Vec<usize>>, a: int, b: usize) -> bool {
    0 <= a < g.len() && g[a]@.contains(b)
}

/// Step `i` of `p` follows an edge.
pub open spec fn linked(g: Seq<Vec<usize>>, p: Seq<usize>, i: int) -> bool {
    edge(g, p[i] as int, p[i + 1])
}

/// `p` is a nonempty walk along edges of `g`.
pub open spec fn is_walk(g: Seq<Vec<usize>>, p: Seq<usize>) -> bool {
    p.len() > 0 && forall|i: int| 0 <= i < p.len() - 1 ==> #[trigger] linked(g, p, i)
}

/// Node `v` lies on a cycle of `g`: a walk from `v` leads back to it.
pub open spec fn on_cycle(g: Seq<Vec<usize>>, v: usize) -> bool {
    exists|p: Seq<usize>| #[trigger] is_walk(g, p) && p[0] == v && edge(g, p.last() as int, v)
}

/// Every edge of `g` ends at a node of `g`.
pub open spec fn graph_wf(g: Seq<Vec<usize>>) -> bool {
    forall|a: int, b: int| 0 <= a < g.len() && 0 <= b < g[a]@.len() ==> #[trigger] g[a]@[b] < g.len()
}

/// A walk of at least one step leads from `v` to `a`.
pub open spec fn reaches_from(g: Seq<Vec<usize>>, v: usize, a: usize) -> bool {
    exists|q: Seq<usize>| #[trigger] is_walk(g, q) && q.len() >= 2 && q[0] == v && q.last() == a
}

/// How many entries of `s` are set.
pub open spec fn count_true(s: Seq<bool>) -> nat
    decreases s.len(),
{
    if s.len() == 0 {
        0
    } else {
        count_true(s.drop_last()) + if s.last() { 1nat } else { 0nat }
    }
}

/// Setting a clear entry counts one more.
proof fn lemma_count_set(s: Seq<bool>, i: int)
    requires
        0 <= i < s.len(),
        !s[i],
    ensures
        count_true(s.update(i, true)) == count_true(s) + 1,
    decreases s.len(),
{
    let t = s.update(i, true);
    if i == s.len() - 1 {
        assert(t.drop_last() =~= s.drop_last());
    } else {
        lemma_count_set(s.drop_last(), i);
        assert(t.drop_last() =~= s.drop_last().update(i, true));
    }
}

/// At most every entry is set.
proof fn lemma_count_le(s: Seq<bool>)
    ensures
        count_true(s) <= s.len(),
    decreases s.len(),
{
    if s.len() > 0 {
        lemma_count_le(s.drop_last());
    }
}

/// One edge out of `v` is a walk of one step.
proof fn lemma_reach_first(g: Seq<Vec<usize>>, v: usize, b: usize)
    requires
        edge(g, v as int, b),
    ensures
        reaches_from(g, v, b),
{
    let q = seq![v, b];
    assert(linked(g, q, 0));
    assert(is_walk(g, q));
}

/// A walk to `a` followed by the edge `a -> b` reaches `b`.
proof fn lemma_reach_step(g: Seq<Vec<usize>>, v: usize, a: usize, b: usize)
    requires
        reaches_from(g, v, a),
        edge(g, a as int, b),
    ensures
        reaches_from(g, v, b),
{
    let q = choose|q: Seq<usize>| #[trigger] is_walk(g, q) && q.len() >= 2 && q[0] == v && q.last() == a;
    let q2 = q.push(b);
    assert forall|i: int| 0 <= i < q2.len() - 1 implies #[trigger] linked(g, q2, i) by {
        if i < q.len() - 1 {
            assert(linked(g, q, i));
            assert(q2[i] == q[i] && q2[i + 1] == q[i + 1]);
        } else {
            assert(q2[i] == a && q2[i + 1] == b);
        }
    }
    assert(is_walk(g, q2));
    assert(q2.last() == b && q2[0] == v);
}

/// Whether the set `inr` is closed under the edges of `g`.
pub open spec fn edge_closed(g: Seq<Vec<usize>>, inr: Seq<bool>) -> bool {
    forall|a: int, k: int| 0 <= a < g.len() && inr[a] && 0 <= k < g[a]@.len() ==> #[trigger] inr[g[a]@[k] as int]
}

/// In an edge-closed set holding the walk's second node, every later
/// node of the walk is in the set.
proof fn lemma_closed_walk(g: Seq<Vec<usize>>, inr: Seq<bool>, p: Seq<usize>, j: int)
    requires
        is_walk(g, p),
        1 <= j < p.len(),
        inr[p[1] as int],
        edge_closed(g, inr),
    ensures
        inr[p[j] as int],
    decreases j,
{
    if j > 1 {
        lemma_closed_walk(g, inr, p, j - 1);
        assert(linked(g, p, j - 1));
        let a = p[j - 1] as int;
        let k = choose|k: int| 0 <= k < g[a]@.len() && g[a]@[k] == p[j];
        assert(inr[g[a]@[k] as int]);
    }
}

/// An edge-closed set of nodes reachable from `v` that holds `v`'s
/// successors holds `v` exactly when `v` lies on a cycle.
proof fn lemma_on_cycle_closed(g: Seq<Vec<usize>>, inr: Seq<bool>, v: usize)
    requires
        inr.len() == g.len(),
        v < g.len(),
        forall|k: int| 0 <= k < g[v as int]@.len() ==> #[trigger] inr[g[v as int]@[k] as int],
        edge_closed(g, inr),
        forall|a: int| 0 <= a < g.len() && #[trigger] inr[a] ==> reaches_from(g, v, a as usize),
    ensures
        inr[v as int] == on_cycle(g, v),
{
    if on_cycle(g, v) {
        let p = choose|p: Seq<usize>| #[trigger] is_walk(g, p) && p[0] == v && edge(g, p.last() as int, v);
        let l = p.last() as int;
        let k = choose|k: int| 0 <= k < g[l]@.len() && g[l]@[k] == v;
        if p.len() == 1 {
            assert(inr[g[v as int]@[k] as int]);
        } else {
            assert(linked(g, p, 0));
            let k1 = choose|k1: int| 0 <= k1 < g[v as int]@.len() && g[v as int]@[k1] == p[1];
            assert(inr[g[v as int]@[k1] as int]);
            lemma_closed_walk(g, inr, p, p.len() - 1);
            assert(inr[g[l]@[k] as int]);
        }
    }
    if inr[v as int] {
        let q = choose|q: Seq<usize>| #[trigger] is_walk(g, q) && q.len() >= 2 && q[0] == v && q.last() == v;
        let p = q.drop_last();
        assert forall|i: int| 0 <= i < p.len() - 1 implies #[trigger] linked(g, p, i) by {
            assert(linked(g, q, i));
        }
        assert(is_walk(g, p));
        assert(linked(g, q, q.len() - 2));
        assert(p.last() == q[q.len() - 2]);
    }
}

/// Whether node `v` of `g` lies on a cycle: the nodes reachable from
/// `v`'s successors are gathered until no edge leads out of them, and
/// `v` is among them exactly when a walk from `v` returns to it.
fn node_on_cycle(g: &Vec<Vec<usize>>, v: usize) -> (b: bool)
    requires
        graph_wf(g@),
        v < g@.len(),
    ensures
        b == on_cycle(g@, v),
{
    let n = g.len();
    let mut inr: Vec<bool> = Vec::new();
    let mut k: usize = 0;
    while k < n
        invariant
            k <= n,
            inr@.len() == k,
            forall|x: int| 0 <= x < k ==> !#[trigger] inr@[x],
        decreases n - k,
    {
        inr.push(false);
        k += 1;
    }
    let mut e: usize = 0;
    while e < g[v].len()
        invariant
            n == g@.len(),
            graph_wf(g@),
            v < n,
            inr@.len() == n,
            e <= g@[v as int]@.len(),
            forall|x: int| 0 <= x < n && #[trigger] inr@[x] ==> reaches_from(g@, v, x as usize),
            forall|j: int| 0 <= j < e ==> #[trigger] inr@[g@[v as int]@[j] as int],
        decreases g@[v as int]@.len() - e,
    {
        let b = g[v][e];
        proof {
            assert(g@[v as int]@.contains(b));
            lemma_reach_first(g@, v, b);
        }
        inr.set(b, true);
        e += 1;
    }
    let mut changed = true;
    proof {
        lemma_count_le(inr@);
    }
    while changed
        invariant
            n == g@.len(),
            graph_wf(g@),
            v < n,
            inr@.len() == n,
            count_true(inr@) <= n,
            forall|x: int| 0 <= x < n && #[trigger] inr@[x] ==> reaches_from(g@, v, x as usize),
            forall|j: int| 0 <= j < g@[v as int]@.len() ==> #[trigger] inr@[g@[v as int]@[j] as int],
            !changed ==> edge_closed(g@, inr@),
        decreases 2 * (n - count_true(inr@)) + if changed { 1int } else { 0int },
    {
        let ghost c0 = count_true(inr@);
        let ghost snap = inr@;
        changed = false;
        let mut a: usize = 0;
        while a < n
            invariant
                n == g@.len(),
                graph_wf(g@),
                v < n,
                inr@.len() == n,
                a <= n,
                count_true(inr@) <= n,
                forall|x: int| 0 <= x < n && #[trigger] inr@[x] ==> reaches_from(g@, v, x as usize),
                forall|j: int| 0 <= j < g@[v as int]@.len() ==> #[trigger] inr@[g@[v as int]@[j] as int],
                c0 == count_true(snap),
                changed ==> count_true(inr@) >= c0 + 1,
                !changed ==> inr@ == snap,
                !changed ==> forall|a2: int, k2: int| 0 <= a2 < a && inr@[a2] && 0 <= k2 < g@[a2]@.len()
                    ==> #[trigger] inr@[g@[a2]@[k2] as int],
            decreases n - a,
        {
            if inr[a] {
                let mut e2: usize = 0;
                while e2 < g[a].len()
                    invariant
                        n == g@.len(),
                        graph_wf(g@),
                        v < n,
                        a < n,
                        inr@.len() == n,
                        inr@[a as int],
                        e2 <= g@[a as int]@.len(),
                        count_true(inr@) <= n,
                        forall|x: int| 0 <= x < n && #[trigger] inr@[x] ==> reaches_from(g@, v, x as usize),
                        forall|j: int| 0 <= j < g@[v as int]@.len() ==> #[trigger] inr@[g@[v as int]@[j] as int],
                        c0 == count_true(snap),
                        changed ==> count_true(inr@) >= c0 + 1,
                        !changed ==> inr@ == snap,
                        !changed ==> forall|a2: int, k2: int| 0 <= a2 < a && inr@[a2] && 0 <= k2 < g@[a2]@.len()
                            ==> #[trigger] inr@[g@[a2]@[k2] as int],
                        !changed ==> forall|k2: int| 0 <= k2 < e2 ==> #[trigger] inr@[g@[a as int]@[k2] as int],
                    decreases g@[a as int]@.len() - e2,
                {
                    let b = g[a][e2];
                    if !inr[b] {
                        proof {
                            assert(g@[a as int]@.contains(b));
                            lemma_reach_step(g@, v, a, b);
                            lemma_count_set(inr@, b as int);
                            lemma_count_le(inr@.update(b as int, true));
                        }
                        inr.set(b, true);
                        changed = true;
                    }
                    e2 += 1;
                }
            }
            proof {
                if !changed {
                    assert forall|a2: int, k2: int| 0 <= a2 < a + 1 && inr@[a2] && 0 <= k2 < g@[a2]@.len()
                        implies #[trigger] inr@[g@[a2]@[k2] as int] by {
                        if a2 == a as int {
                            assert(inr@[g@[a as int]@[k2] as int]);
                        }
                    }
                }
            }
            a += 1;
        }
    }
    proof {
        lemma_on_cycle_closed(g@, inr@, v);
    }
    inr[v]
}

/// The index of the entry of `names` that spells `name`, if any.
fn find_name(names: &Vec<String>, name: &String) -> (r: Option<usize>)
    ensures
        r matches Some(t) ==> t < names@.len() && names@[t as int]@ == name@,
        r is None ==> forall|t: int| 0 <= t < names@.len() ==> #[trigger] names@[t]@ != name@,
{
    let mut t: usize = 0;
    while t < names.len()
        invariant
            t <= names@.len(),
            forall|t2: int| 0 <= t2 < t ==> #[trigger] names@[t2]@ != name@,
        decreases names@.len() - t,
    {
        if names[t] == *name {
            return Some(t);
        }
        t += 1;
    }
    None
}


/// Report E0812 for the first `return` in `stmts` that has statements
/// after it, then recurse into nested blocks before it.
fn check_unreachable_after_return(stmts: &Vec<FnStmt>, file: usize, ck: &mut Checker)
    requires
        old(ck).inv(),
        file < old(ck).files@.len(),
    ensures
        final(ck).grew_from(&*old(ck)),
        final(ck).file_consts == old(ck).file_consts,
        dead_reported(final(ck).diags@, old(ck).diags@.len() as int, dead_from(stmts@, 0), file),
    decreases stmts,
{
    let ghost start = *ck;
    let ghost mut done: Seq<Span> = Seq::empty();
    let mut i: usize = 0;
    while i < stmts.len()
        invariant
            start == *old(ck),
            ck.grew_from(&start),
            ck.file_consts == start.file_consts,
            file < ck.files@.len(),
            i <= stmts@.len(),
            dead_from(stmts@, 0) == done + dead_from(stmts@, i as int),
            dead_reported(ck.diags@, start.diags@.len() as int, done, file),
        decreases stmts@.len() - i,
    {
        let ghost before = *ck;
        match &stmts[i] {
            FnStmt::Return(_) => {
                if i + 1 < stmts.len() {
                    let span = next_stmt_span(&stmts[i + 1]);
                    ck.err(
                        file,
                        span,
                        "E0812",
                        owned("unreachable code after `return`"),
                        owned(
                            "a `return` immediately ends the function on this path — remove the statement(s) after it, or move `return` later if it was meant to be conditional",
                        ),
                    );
                    proof {
                        let last = seq![span];
                        assert(dead_reported(ck.diags@, before.diags@.len() as int, last, file)) by {
                            assert(ck.diags@[before.diags@.len() as int] == ck.diags@.last());
                        }
                        lemma_dead_reported_concat(before.diags@, ck.diags@, start.diags@.len() as int, done, last, file);
                        assert(dead_from(stmts@, i as int) == last);
                        lemma_grew_trans(&start, &before, &*ck);
                    }
                } else {
                    proof {
                        assert(dead_from(stmts@, i as int) =~= Seq::<Span>::empty());
                        assert(done + Seq::<Span>::empty() =~= done);
                    }
                }
                return;
            }
            FnStmt::If { then, els, .. } => {
                check_unreachable_after_return(then, file, ck);
                let ghost mid = *ck;
                proof {
                    lemma_dead_reported_concat(before.diags@, ck.diags@, start.diags@.len() as int, done, dead_from(then@, 0), file);
                    lemma_grew_trans(&start, &before, &*ck);
                    done = done + dead_from(then@, 0);
                }
                if let Some(els) = els {
                    check_unreachable_after_return(els, file, ck);
                    proof {
                        lemma_dead_reported_concat(mid.diags@, ck.diags@, start.diags@.len() as int, done, dead_from(els@, 0), file);
                        lemma_grew_trans(&start, &mid, &*ck);
                        done = done + dead_from(els@, 0);
                        assert(dead_from(stmts@, i as int) =~= dead_from(then@, 0) + dead_from(els@, 0) + dead_from(stmts@, i + 1));
                    }
                } else {
                    proof {
                        assert(dead_from(stmts@, i as int) =~= dead_from(then@, 0) + Seq::<Span>::empty() + dead_from(stmts@, i + 1));
                    }
                }
            }
            FnStmt::Loop { body, .. } => {
                check_unreachable_after_return(body, file, ck);
                proof {
                    lemma_dead_reported_concat(before.diags@, ck.diags@, start.diags@.len() as int, done, dead_from(body@, 0), file);
                    lemma_grew_trans(&start, &before, &*ck);
                    done = done + dead_from(body@, 0);
                }
            }
            FnStmt::ForEach { body, .. } => {
                check_unreachable_after_return(body, file, ck);
                proof {
                    lemma_dead_reported_concat(before.diags@, ck.diags@, start.diags@.len() as int, done, dead_from(body@, 0), file);
                    lemma_grew_trans(&start, &before, &*ck);
                    done = done + dead_from(body@, 0);
                }
            }
            FnStmt::Let(_) | FnStmt::Error(_) => {}
        }
        proof {
            assert(dead_from(stmts@, 0) =~= done + dead_from(stmts@, i + 1));
        }
        i += 1;
    }
    proof {
        assert(done + dead_from(stmts@, i as int) =~= done);
    }
}

/// `a` calls `b`: both are registered functions (positions `(file,
/// item)`), and the first one's body calls the second one's name.
pub open spec fn calls_at(files: Seq<File>, a: (int, int), b: (int, int)) -> bool {
    &&& registered_at(files, a.0, a.1)
    &&& registered_at(files, b.0, b.1)
    &&& calls_of(func_decl_at(files, a.0, a.1)).contains(func_name_at(files, b.0, b.1))
}

/// Step `i` of `w` is a call.
pub open spec fn call_linked(files: Seq<File>, w: Seq<(int, int)>, i: int) -> bool {
    calls_at(files, w[i], w[i + 1])
}

/// `w` is a nonempty chain of calls.
pub open spec fn call_walk(files: Seq<File>, w: Seq<(int, int)>) -> bool {
    w.len() > 0 && forall|i: int| 0 <= i < w.len() - 1 ==> #[trigger] call_linked(files, w, i)
}

/// The function at `(f, i)` is part of a recursive cycle, direct or
/// mutual: a chain of calls from it leads back to it.
pub open spec fn on_call_cycle(files: Seq<File>, f: int, i: int) -> bool {
    exists|w: Seq<(int, int)>| #[trigger] call_walk(files, w) && w[0] == (f, i) && calls_at(files, w.last(), (f, i))
}

/// Some function of the project is part of a recursive cycle.
pub open spec fn has_recursion(files: Seq<File>) -> bool {
    exists|f: int, i: int| #[trigger] on_call_cycle(files, f, i)
}

/// Among the diagnostics from position `from` on, one is an E0805 at the
/// name of the function at `(f, i)`, in its file.
pub open spec fn cycle_flagged(ds: Seq<Diag>, from: int, files: Seq<File>, f: int, i: int) -> bool {
    exists|k: int| from <= k < ds.len() && #[trigger] ds[k].code == Some("E0805") && ds[k].file == Some(f as usize)
        && ds[k].span == func_decl_at(files, f, i).name.span
}

/// `d` is an E0805 at the name of a function that is part of a recursive
/// cycle.
pub open spec fn reports_cycle(files: Seq<File>, d: Diag) -> bool {
    &&& d.code == Some("E0805")
    &&& exists|f: int, i: int| #[trigger] on_call_cycle(files, f, i) && d.file == Some(f as usize)
        && d.span == func_decl_at(files, f, i).name.span
}

/// The index graph over the registered functions listed in `pos` is the
/// project's call graph.
pub open spec fn graph_matches(files: Seq<File>, pos: Seq<(usize, usize)>, g: Seq<Vec<usize>>) -> bool {
    &&& g.len() == pos.len()
    &&& g.len() <= usize::MAX
    &&& forall|k: int| 0 <= k < pos.len() ==> #[trigger] registered_at(files, pos[k].0 as int, pos[k].1 as int)
    &&& forall|f: int, i: int| #[trigger] registered_at(files, f, i)
        ==> exists|k: int| 0 <= k < pos.len() && pos_at(pos, k) == (f, i)
    &&& forall|a: int, t: int| 0 <= a < g.len() && 0 <= t < g.len()
        ==> (g[a]@.contains(t as usize) <==> #[trigger] calls_at(files, pos_at(pos, a), pos_at(pos, t)))
}

/// Entry `k` of `pos`, as an integer position.
pub open spec fn pos_at(pos: Seq<(usize, usize)>, k: int) -> (int, int) {
    (pos[k].0 as int, pos[k].1 as int)
}

/// Two registered functions at different positions have different names.
proof fn lemma_registered_names_differ(files: Seq<File>, f1: int, i1: int, f2: int, i2: int)
    requires
        registered_at(files, f1, i1),
        registered_at(files, f2, i2),
        (f1, i1) != (f2, i2),
    ensures
        func_name_at(files, f1, i1) != func_name_at(files, f2, i2),
{
    if before(f1, i1, f2, i2) {
        assert(func_at(files, f1, i1));
    } else {
        assert(before(f2, i2, f1, i1));
        assert(func_at(files, f2, i2));
    }
}

/// A cycle through index `v` is a recursive cycle through its function.
proof fn lemma_cycle_to_calls(files: Seq<File>, pos: Seq<(usize, usize)>, g: Seq<Vec<usize>>, v: usize)
    requires
        graph_matches(files, pos, g),
        graph_wf(g),
        v < g.len(),
        on_cycle(g, v),
    ensures
        on_call_cycle(files, pos[v as int].0 as int, pos[v as int].1 as int),
{
    let p = choose|p: Seq<usize>| #[trigger] is_walk(g, p) && p[0] == v && edge(g, p.last() as int, v);
    assert forall|j: int| 0 <= j < p.len() implies #[trigger] p[j] < g.len() by {
        if j > 0 {
            assert(linked(g, p, j - 1));
            let u = p[j - 1] as int;
            assert(g[u]@.contains(p[j]));
            let k = choose|k: int| 0 <= k < g[u]@.len() && #[trigger] g[u]@[k] == p[j];
            assert(g[u]@[k] < g.len());
        }
    }
    let w = p.map_values(|x: usize| pos_at(pos, x as int));
    assert forall|i: int| 0 <= i < w.len() - 1 implies #[trigger] call_linked(files, w, i) by {
        assert(linked(g, p, i));
        assert(p[i] < g.len() && p[i + 1] < g.len());
        assert(calls_at(files, pos_at(pos, p[i] as int), pos_at(pos, p[i + 1] as int)));
    }
    assert(p.last() < g.len()) by {
        assert(p[p.len() - 1] < g.len());
    }
    assert(calls_at(files, pos_at(pos, p.last() as int), pos_at(pos, v as int)));
    assert(w.last() == pos_at(pos, p.last() as int));
    assert(call_walk(files, w) && w[0] == pos_at(pos, v as int));
}

/// A recursive cycle through a function is a cycle of the index graph.
proof fn lemma_calls_to_cycle(files: Seq<File>, pos: Seq<(usize, usize)>, g: Seq<Vec<usize>>, f: int, i: int)
    requires
        graph_matches(files, pos, g),
        on_call_cycle(files, f, i),
    ensures
        exists|v: int| 0 <= v < g.len() && #[trigger] on_cycle(g, v as usize),
        exists|v: int| 0 <= v < g.len() && pos_at(pos, v) == (f, i) && #[trigger] on_cycle(g, v as usize),
{
    let w = choose|w: Seq<(int, int)>| #[trigger] call_walk(files, w) && w[0] == (f, i) && calls_at(files, w.last(), (f, i));
    assert forall|j: int| 0 <= j < w.len() implies #[trigger] registered_at(files, w[j].0, w[j].1) by {
        if j < w.len() - 1 {
            assert(call_linked(files, w, j));
        } else {
            assert(w[j] == w.last());
        }
    }
    let idx = Seq::new(w.len(), |j: int| choose|k: int| 0 <= k < pos.len() && pos_at(pos, k) == w[j]);
    assert forall|j: int| 0 <= j < w.len() implies 0 <= #[trigger] idx[j] < pos.len() && pos_at(pos, idx[j]) == w[j] by {
        assert(registered_at(files, w[j].0, w[j].1));
        assert(exists|k: int| 0 <= k < pos.len() && pos_at(pos, k) == (w[j].0, w[j].1));
        assert(w[j] == (w[j].0, w[j].1));
    }
    let p = idx.map_values(|k: int| k as usize);
    assert forall|j: int| 0 <= j < p.len() - 1 implies #[trigger] linked(g, p, j) by {
        assert(call_linked(files, w, j));
        assert(idx[j] < pos.len() && idx[j + 1] < pos.len());
        assert(calls_at(files, pos_at(pos, idx[j]), pos_at(pos, idx[j + 1])));
        assert(p[j] as int == idx[j] && p[j + 1] as int == idx[j + 1]);
    }
    let last = idx[w.len() - 1];
    assert(pos_at(pos, last) == w.last());
    assert(calls_at(files, pos_at(pos, last), pos_at(pos, idx[0])));
    assert(p.last() as int == last);
    assert(edge(g, p.last() as int, p[0]));
    assert(is_walk(g, p));
    assert(on_cycle(g, p[0]));
    assert(pos_at(pos, idx[0]) == (f, i));
    assert(p[0] as int == idx[0]);
}

impl<'a> Checker<'a> {
    /// The declarations at the registered positions `pos`, with their
    /// files.
    fn func_decls(&self, pos: &Vec<(usize, usize)>) -> (r: Vec<(usize, &'a FuncDecl)>)
        requires
            forall|k: int| 0 <= k < pos@.len() ==> #[trigger] registered_at(self.files@, pos@[k].0 as int, pos@[k].1 as int),
        ensures
            r@.len() == pos@.len(),
            forall|k: int| 0 <= k < r@.len() ==> (#[trigger] r@[k]).0 == pos@[k].0
                && *r@[k].1 == func_decl_at(self.files@, pos@[k].0 as int, pos@[k].1 as int),
    {
        let files = self.files;
        let mut r: Vec<(usize, &'a FuncDecl)> = Vec::new();
        let mut k: usize = 0;
        while k < pos.len()
            invariant
                files == self.files,
                k <= pos@.len(),
                r@.len() == k,
                forall|j: int| 0 <= j < pos@.len() ==> #[trigger] registered_at(files@, pos@[j].0 as int, pos@[j].1 as int),
                forall|j: int| 0 <= j < r@.len() ==> (#[trigger] r@[j]).0 == pos@[j].0
                    && *r@[j].1 == func_decl_at(files@, pos@[j].0 as int, pos@[j].1 as int),
            decreases pos@.len() - k,
        {
            let (f, i) = pos[k];
            assert(registered_at(files@, f as int, i as int));
            match &files[f].items[i] {
                TopItem::Func(d) => r.push((f, d)),
                _ => {}
            }
            k += 1;
        }
        r
    }

    /// E0805 for every function that is part of a call cycle, direct or
    /// mutual: the registered functions are taken in name order, and each
    /// one a chain of calls leads back to is reported once, at its name.
    /// Every report names a function on a cycle.
    pub fn check_func_cycles(&mut self)
        requires
            old(self).inv(),
        ensures
            final(self).grew_from(&*old(self)),
            final(self).file_consts == old(self).file_consts,
            forall|k: int| old(self).diags@.len() <= k < final(self).diags@.len()
                ==> reports_cycle(old(self).files@, #[trigger] final(self).diags@[k]),
            has_recursion(old(self).files@) ==> final(self).diags@.len() > old(self).diags@.len(),
            forall|f: int, i: int| #[trigger] on_call_cycle(old(self).files@, f, i)
                ==> cycle_flagged(final(self).diags@, old(self).diags@.len() as int, old(self).files@, f, i),
    {
        let ghost start = *self;
        let files = self.files;
        let pos = self.registered_funcs();
        let funcs = self.func_decls(&pos);
        let n = funcs.len();
        let mut names: Vec<String> = Vec::new();
        let mut i: usize = 0;
        while i < n
            invariant
                n == funcs@.len(),
                i <= n,
                names@.len() == i,
                forall|k: int| 0 <= k < i ==> #[trigger] names@[k]@ == funcs@[k].1.name.name@,
            decreases n - i,
        {
            names.push(funcs[i].1.name.name.clone());
            i += 1;
        }
        proof {
            assert forall|k: int, j: int| 0 <= k < n && 0 <= j < n && k != j implies names@[k]@ != names@[j]@ by {
                assert(pos@[k] != pos@[j]);
                lemma_registered_names_differ(files@, pos@[k].0 as int, pos@[k].1 as int, pos@[j].0 as int, pos@[j].1 as int);
            }
        }
        let mut graph: Vec<Vec<usize>> = Vec::new();
        let mut a: usize = 0;
        while a < n
            invariant
                files == self.files,
                n == funcs@.len(),
                n == pos@.len(),
                a <= n,
                names@.len() == n,
                graph@.len() == a,
                forall|k: int| 0 <= k < n ==> #[trigger] names@[k]@ == func_name_at(files@, pos@[k].0 as int, pos@[k].1 as int),
                forall|k: int| 0 <= k < n ==> #[trigger] registered_at(files@, pos@[k].0 as int, pos@[k].1 as int),
                forall|f: int, i: int| #[trigger] registered_at(files@, f, i)
                    ==> exists|k: int| 0 <= k < pos@.len() && (pos@[k].0 as int, pos@[k].1 as int) == (f, i),
                forall|k: int| 0 <= k < n ==> *(#[trigger] funcs@[k]).1 == func_decl_at(files@, pos@[k].0 as int, pos@[k].1 as int),
                forall|k: int, j: int| 0 <= k < n && 0 <= j < n && k != j ==> #[trigger] names@[k]@ != #[trigger] names@[j]@,
                forall|x: int, b: int| 0 <= x < graph@.len() && 0 <= b < graph@[x]@.len() ==> #[trigger] graph@[x]@[b] < n,
                forall|x: int, t: int| 0 <= x < a && 0 <= t < n
                    ==> (graph@[x]@.contains(t as usize) <==> #[trigger] calls_at(files@, pos_at(pos@, x), pos_at(pos@, t))),
            decreases n - a,
        {
            let called = direct_callees(funcs[a].1);
            let corder = sorted_by_name(&called);
            let ghost decl = func_decl_at(files@, pos@[a as int].0 as int, pos@[a as int].1 as int);
            let mut edges: Vec<usize> = Vec::new();
            let ghost mut seen: Seq<Seq<char>> = Seq::empty();
            let mut c: usize = 0;
            while c < corder.len()
                invariant
                    c <= corder@.len(),
                    corder@.len() == called@.len(),
                    forall|q: int| 0 <= q < corder@.len() ==> #[trigger] corder@[q] < called@.len(),
                    names@.len() == n,
                    forall|k: int, j: int| 0 <= k < n && 0 <= j < n && k != j ==> #[trigger] names@[k]@ != #[trigger] names@[j]@,
                    forall|b: int| 0 <= b < edges@.len() ==> #[trigger] edges@[b] < n,
                    seen.len() == c,
                    forall|q: int| 0 <= q < c ==> #[trigger] seen[q] == called@[corder@[q] as int]@,
                    forall|t: int| #![trigger names@[t]] 0 <= t < n ==> (edges@.contains(t as usize) <==> seen.contains(names@[t]@)),
                decreases corder@.len() - c,
            {
                let name = &called[corder[c]];
                let hit = find_name(&names, name);
                let ghost seen_before = seen;
                proof {
                    seen = seen.push(name@);
                    assert forall|q: int| 0 <= q < c + 1 implies #[trigger] seen[q] == called@[corder@[q] as int]@ by {
                        if q < c {
                            assert(seen[q] == seen_before[q]);
                        }
                    }
                }
                if let Some(t) = hit {
                    let ghost before = edges@;
                    edges.push(t);
                    proof {
                        assert forall|t2: int| #![trigger names@[t2]] 0 <= t2 < n implies (edges@.contains(t2 as usize) <==> seen.contains(names@[t2]@)) by {
                            vstd::seq_lib::lemma_seq_contains_after_push(before, t, t2 as usize);
                            vstd::seq_lib::lemma_seq_contains_after_push(seen_before, name@, names@[t2]@);
                            if t2 != t as int {
                                assert(names@[t2]@ != names@[t as int]@);
                            }
                        }
                    }
                } else {
                    proof {
                        assert forall|t2: int| #![trigger names@[t2]] 0 <= t2 < n implies (edges@.contains(t2 as usize) <==> seen.contains(names@[t2]@)) by {
                            vstd::seq_lib::lemma_seq_contains_after_push(seen_before, name@, names@[t2]@);
                        }
                    }
                }
                c += 1;
            }
            proof {
                lemma_add_new_holds(Seq::empty(), calls_of(decl), Seq::empty());
                assert forall|t: int| 0 <= t < n implies (edges@.contains(t as usize)
                    <==> #[trigger] calls_at(files@, pos_at(pos@, a as int), pos_at(pos@, t))) by {
                    let nm = names@[t]@;
                    lemma_add_new_holds(Seq::empty(), calls_of(decl), nm);
                    assert(texts(called@) == add_new(Seq::empty(), calls_of(decl)));
                    if edges@.contains(t as usize) {
                        assert(seen.contains(nm));
                        let q = choose|q: int| 0 <= q < seen.len() && seen[q] == nm;
                        let j = corder@[q] as int;
                        assert(texts(called@)[j] == nm);
                        assert(texts(called@).contains(nm));
                    }
                    if calls_at(files@, pos_at(pos@, a as int), pos_at(pos@, t)) {
                        assert(texts(called@).contains(nm));
                        let j = choose|j: int| 0 <= j < texts(called@).len() && texts(called@)[j] == nm;
                        assert((j as usize) < called@.len());
                        assert(corder@.contains(j as usize));
                        let q = choose|q: int| 0 <= q < corder@.len() && corder@[q] == j as usize;
                        assert(seen[q] == nm);
                        assert(seen.contains(nm));
                    }
                }
            }
            graph.push(edges);
            proof {
                assert forall|x: int, b: int| 0 <= x < graph@.len() && 0 <= b < graph@[x]@.len() implies #[trigger] graph@[x]@[b] < n by {
                    if x == a as int {
                        assert(graph@[x] == edges);
                    }
                }
            }
            a += 1;
        }
        proof {
            assert forall|f: int, i: int| #[trigger] registered_at(files@, f, i)
                implies exists|k: int| 0 <= k < pos@.len() && pos_at(pos@, k) == (f, i) by {
                let k = choose|k: int| 0 <= k < pos@.len() && (pos@[k].0 as int, pos@[k].1 as int) == (f, i);
                assert(pos_at(pos@, k) == (f, i));
            }
            assert(graph_matches(files@, pos@, graph@));
        }
        let order = sorted_by_name(&names);
        let mut s: usize = 0;
        while s < order.len()
            invariant
                files == self.files,
                self.grew_from(&start),
                self.file_consts == start.file_consts,
                s <= order@.len(),
                order@.len() == n,
                forall|q: int| 0 <= q < order@.len() ==> #[trigger] order@[q] < n,
                graph_matches(files@, pos@, graph@),
                graph_wf(graph@),
                graph@.len() == n,
                n == funcs@.len(),
                forall|k: int| 0 <= k < n ==> (#[trigger] funcs@[k]).0 == pos@[k].0
                    && *funcs@[k].1 == func_decl_at(files@, pos@[k].0 as int, pos@[k].1 as int),
                forall|k: int| start.diags@.len() <= k < self.diags@.len() ==> reports_cycle(files@, #[trigger] self.diags@[k]),
                forall|q: int| 0 <= q < s && on_cycle(graph@, #[trigger] order@[q])
                    ==> cycle_flagged(self.diags@, start.diags@.len() as int, files@, pos@[order@[q] as int].0 as int,
                        pos@[order@[q] as int].1 as int),
            decreases order@.len() - s,
        {
            let c = order[s];
            let ghost before = self.diags@;
            if node_on_cycle(&graph, c) {
                let (file, decl) = funcs[c];
                proof {
                    lemma_cycle_to_calls(files@, pos@, graph@, c);
                    assert(registered_at(files@, pos@[c as int].0 as int, pos@[c as int].1 as int));
                }
                self.err(
                    file,
                    decl.name.span,
                    "E0805",
                    cat(&["function `", decl.name.name.as_str(), "` is part of a recursive cycle"]),
                    owned(
                        "hardware cannot unroll unbounded recursion — restructure using fixed-size repetition or parameterized modules instead of recursion",
                    ),
                );
                proof {
                    let last = self.diags@.len() - 1;
                    assert(on_call_cycle(files@, pos@[c as int].0 as int, pos@[c as int].1 as int));
                    assert(reports_cycle(files@, self.diags@[last]));
                    assert forall|k: int| start.diags@.len() <= k < self.diags@.len() implies reports_cycle(files@, #[trigger] self.diags@[k]) by {
                        if k < last {
                            assert(self.diags@[k] == before[k]);
                        }
                    }
                }
            }
            proof {
                assert forall|q: int| 0 <= q < s + 1 && on_cycle(graph@, #[trigger] order@[q])
                    implies cycle_flagged(self.diags@, start.diags@.len() as int, files@, pos@[order@[q] as int].0 as int,
                        pos@[order@[q] as int].1 as int) by {
                    let f = pos@[order@[q] as int].0 as int;
                    let i = pos@[order@[q] as int].1 as int;
                    if q == s {
                        let last = self.diags@.len() - 1;
                        assert(self.diags@[last].code == Some("E0805"));
                    } else {
                        let k = choose|k: int| start.diags@.len() <= k < before.len() && #[trigger] before[k].code == Some("E0805")
                            && before[k].file == Some(f as usize) && before[k].span == func_decl_at(files@, f, i).name.span;
                        assert(self.diags@[k] == before[k]);
                    }
                }
            }
            s += 1;
        }
        proof {
            assert forall|f: int, i: int| #[trigger] on_call_cycle(files@, f, i)
                implies cycle_flagged(self.diags@, start.diags@.len() as int, files@, f, i) by {
                lemma_calls_to_cycle(files@, pos@, graph@, f, i);
                let v = choose|v: int| 0 <= v < graph@.len() && pos_at(pos@, v) == (f, i) && #[trigger] on_cycle(graph@, v as usize);
                assert(order@.contains(v as usize));
                let q = choose|q: int| 0 <= q < order@.len() && order@[q] == v as usize;
                assert(on_cycle(graph@, order@[q]));
            }
            if has_recursion(files@) {
                let (f, i) = choose|f: int, i: int| #[trigger] on_call_cycle(files@, f, i);
                assert(cycle_flagged(self.diags@, start.diags@.len() as int, files@, f, i));
            }
        }
    }

    /// E0812 for dead code after an unconditional `return`, function by
    /// function in name order: every start of dead code in a registered
    /// function is reported, in that function's file, and nothing else.
    pub fn check_func_unreachable(&mut self)
        requires
            old(self).inv(),
        ensures
            final(self).grew_from(&*old(self)),
            final(self).file_consts == old(self).file_consts,
            forall|f: int, i: int, sp: Span| #[trigger] dead_span_at(old(self).files@, f, i, sp)
                ==> dead_flagged(final(self).diags@, old(self).diags@.len() as int, f, sp),
            forall|k: int| old(self).diags@.len() <= k < final(self).diags@.len()
                ==> dead_report(old(self).files@, #[trigger] final(self).diags@[k]),
    {
        let ghost start = *self;
        let files = self.files;
        let pos = self.registered_funcs();
        let funcs = self.func_decls(&pos);
        let mut names: Vec<String> = Vec::new();
        let mut i: usize = 0;
        while i < funcs.len()
            invariant
                i <= funcs@.len(),
                names@.len() == i,
            decreases funcs@.len() - i,
        {
            names.push(funcs[i].1.name.name.clone());
            i += 1;
        }
        let order = sorted_by_name(&names);
        proof {
            assert forall|x: int| 0 <= x < funcs@.len() implies (#[trigger] funcs@[x]).0 < self.files@.len() by {
                assert(registered_at(self.files@, pos@[x].0 as int, pos@[x].1 as int));
            }
        }
        let mut s: usize = 0;
        while s < order.len()
            invariant
                files == self.files,
                files@ == start.files@,
                self.grew_from(&start),
                self.file_consts == start.file_consts,
                s <= order@.len(),
                order@.len() == funcs@.len(),
                funcs@.len() == pos@.len(),
                forall|q: int| 0 <= q < order@.len() ==> #[trigger] order@[q] < funcs@.len(),
                forall|x: int| 0 <= x < funcs@.len() ==> (#[trigger] funcs@[x]).0 < self.files@.len(),
                forall|k: int| 0 <= k < pos@.len() ==> #[trigger] registered_at(files@, pos@[k].0 as int, pos@[k].1 as int),
                forall|k: int| 0 <= k < funcs@.len() ==> (#[trigger] funcs@[k]).0 == pos@[k].0
                    && *funcs@[k].1 == func_decl_at(files@, pos@[k].0 as int, pos@[k].1 as int),
                forall|q: int, sp: Span| 0 <= q < s && #[trigger] dead_code(func_decl_at(files@, pos@[order@[q] as int].0 as int,
                    pos@[order@[q] as int].1 as int)).contains(sp)
                    ==> dead_flagged(self.diags@, start.diags@.len() as int, pos@[order@[q] as int].0 as int, sp),
                forall|k: int| start.diags@.len() <= k < self.diags@.len() ==> dead_report(files@, #[trigger] self.diags@[k]),
            decreases order@.len() - s,
        {
            let o = order[s];
            let (file, decl) = funcs[o];
            let ghost before = *self;
            check_unreachable_after_return(&decl.stmts, file, self);
            proof {
                let f = pos@[o as int].0 as int;
                let i = pos@[o as int].1 as int;
                let dead = dead_code(func_decl_at(files@, f, i));
                assert(dead == dead_from(decl.stmts@, 0));
                lemma_grew_trans(&start, &before, &*self);
                super::names::lemma_flag_kept(before.diags@, self.diags@);
                assert forall|k: int| start.diags@.len() <= k < self.diags@.len() implies dead_report(files@, #[trigger] self.diags@[k]) by {
                    if k < before.diags@.len() {
                        assert(self.diags@[k] == before.diags@[k]);
                    } else {
                        let j = k - before.diags@.len();
                        assert(self.diags@[before.diags@.len() + j].span == dead[j]);
                        assert(dead.contains(dead[j]));
                        assert(dead_span_at(files@, f, i, self.diags@[k].span));
                    }
                }
                assert forall|q: int, sp: Span| 0 <= q < s + 1 && #[trigger] dead_code(func_decl_at(files@, pos@[order@[q] as int].0 as int,
                    pos@[order@[q] as int].1 as int)).contains(sp)
                    implies dead_flagged(self.diags@, start.diags@.len() as int, pos@[order@[q] as int].0 as int, sp) by {
                    if q < s {
                        let k = choose|k: int| start.diags@.len() <= k < before.diags@.len() && #[trigger] before.diags@[k].code == Some("E0812")
                            && before.diags@[k].span == sp && before.diags@[k].file == Some(pos@[order@[q] as int].0);
                        assert(self.diags@[k] == before.diags@[k]);
                    } else {
                        let j = choose|j: int| 0 <= j < dead.len() && dead[j] == sp;
                        let k = before.diags@.len() + j;
                        assert(self.diags@[k].code == Some("E0812") && self.diags@[k].span == sp);
                    }
                }
            }
            s += 1;
        }
        proof {
            assert forall|f: int, i: int, sp: Span| #[trigger] dead_span_at(files@, f, i, sp)
                implies dead_flagged(self.diags@, start.diags@.len() as int, f, sp) by {
                let k = choose|k: int| 0 <= k < pos@.len() && (pos@[k].0 as int, pos@[k].1 as int) == (f, i);
                assert(order@.contains(k as usize));
                let q = choose|q: int| 0 <= q < order@.len() && order@[q] == k as usize;
                assert(dead_code(func_decl_at(files@, pos@[order@[q] as int].0 as int, pos@[order@[q] as int].1 as int)).contains(sp));
            }
        }
    }
}

/// `sp` starts dead code in the registered function at `(f, i)`.
pub open spec fn dead_span_at(files: Seq<File>, f: int, i: int, sp: Span) -> bool {
    registered_at(files, f, i) && dead_code(func_decl_at(files, f, i)).contains(sp)
}

/// Some entry of `ds` from `from` on is an E0812 at `sp` in file `f`.
pub open spec fn dead_flagged(ds: Seq<Diag>, from: int, f: int, sp: Span) -> bool {
    exists|k: int| from <= k < ds.len() && #[trigger] ds[k].code == Some("E0812") && ds[k].span == sp
        && ds[k].file == Some(f as usize)
}

/// `d` is an E0812 at the start of dead code in a registered function,
/// in that function's file.
pub open spec fn dead_report(files: Seq<File>, d: Diag) -> bool {
    &&& d.code == Some("E0812")
    &&& exists|f: int, i: int| #[trigger] dead_span_at(files, f, i, d.span) && d.file == Some(f as usize)
}

} // verus!
