//! Lowers `ModuleItem::SyncLoop` into ordinary `Port`/`Reg`/`On`/`Drive`
//! items — a counter register plus an IDLE/RUNNING state machine spanning
//! `hi - lo` clock cycles. The checker validates the original `SyncLoop`
//! node directly; everything downstream sees only the lowered items.

use vstd::prelude::*;

use super::rename::{
    copied, copy_exact, copy_ident, copy_ty, rename_seq_stmts, stmts_renamed, type_copied, Renames,
};
use super::{BinOp, Builtin, Dir, Expr, ExprKind, Ident, LValue, ModuleItem, OnBlock, SeqStmt, SyncLoop, Type};
use crate::span::Span;

verus! {

/// The name of one of a sync loop's generated signals: the loop's name
/// followed by `suffix`.
pub open spec fn sl_name(sl: SyncLoop, suffix: Seq<char>) -> Seq<char> {
    sl.name.name@ + suffix
}

/// How a sync loop's body is renamed: the loop variable becomes the
/// counter register, the accumulator the `_acc` register.
pub open spec fn body_renames(sl: SyncLoop) -> (Option<(Seq<char>, Seq<char>)>, Option<(Seq<char>, Seq<char>)>) {
    (Some((sl.var.name@, sl_name(sl, "_cnt"@))), Some((sl.result_name.name@, sl_name(sl, "_acc"@))))
}

/// `e` reads the single name `n`.
pub open spec fn is_ident(e: Expr, n: Seq<char>) -> bool {
    e.kind matches ExprKind::Ident(k) && k@ == n
}

/// `e` is the integer literal `v`.
pub open spec fn is_lit(e: Expr, v: u128) -> bool {
    e.kind matches ExprKind::Int { value, .. } && value == v
}

/// `l` is the whole signal `n`.
pub open spec fn targets(l: LValue, n: Seq<char>) -> bool {
    l.base.name@ == n && l.index is None
}

/// `s` is `n <- v` for the literal `v`.
pub open spec fn assigns_lit(s: SeqStmt, n: Seq<char>, v: u128) -> bool {
    s matches SeqStmt::Assign { lhs, rhs } && targets(lhs, n) && is_lit(rhs, v)
}

/// `s` is `n <- e'` for a copy `e'` of `e`.
pub open spec fn assigns_copy(s: SeqStmt, n: Seq<char>, e: Expr) -> bool {
    s matches SeqStmt::Assign { lhs, rhs } && targets(lhs, n) && copied(e, rhs)
}

/// `e` is `n + 1`.
pub open spec fn is_incr(e: Expr, n: Seq<char>) -> bool {
    match e.kind {
        ExprKind::Binary { op, lhs, rhs } => op == BinOp::Add && is_ident(*lhs, n) && is_lit(*rhs, 1),
        _ => false,
    }
}

/// `e` is `hi' - 1` for a copy `hi'` of `hi`.
pub open spec fn is_last_index(e: Expr, hi: Expr) -> bool {
    match e.kind {
        ExprKind::Binary { op, lhs, rhs } => op == BinOp::Sub && copied(hi, *lhs) && is_lit(*rhs, 1),
        _ => false,
    }
}

/// `e` is `cnt == hi - 1`.
pub open spec fn is_last_test(e: Expr, cnt: Seq<char>, hi: Expr) -> bool {
    match e.kind {
        ExprKind::Binary { op, lhs, rhs } => op == BinOp::Eq && is_ident(*lhs, cnt) && is_last_index(*rhs, hi),
        _ => false,
    }
}

/// The advance branch: `cnt <- cnt + 1; done_r <- 0`.
pub open spec fn advance_ok(ss: Seq<SeqStmt>, sl: SyncLoop) -> bool {
    &&& ss.len() == 2
    &&& match ss[0] {
        SeqStmt::Assign { lhs, rhs } => targets(lhs, sl_name(sl, "_cnt"@)) && is_incr(rhs, sl_name(sl, "_cnt"@)),
        _ => false,
    }
    &&& assigns_lit(ss[1], sl_name(sl, "_done_r"@), 0)
}

/// The per-cycle step: `if cnt == hi - 1 { running_r <- 0; done_r <- 1 }
/// else { cnt <- cnt + 1; done_r <- 0 }`.
pub open spec fn step_ok(s: SeqStmt, sl: SyncLoop) -> bool {
    match s {
        SeqStmt::If { cond, then, els } => {
            &&& is_last_test(cond, sl_name(sl, "_cnt"@), sl.hi)
            &&& then@.len() == 2
            &&& assigns_lit(then@[0], sl_name(sl, "_running_r"@), 0)
            &&& assigns_lit(then@[1], sl_name(sl, "_done_r"@), 1)
            &&& match els {
                Some(f) => advance_ok(f@, sl),
                None => false,
            }
        },
        _ => false,
    }
}

/// The start test: `if start { running_r <- 1; cnt <- lo; acc <- init }`.
pub open spec fn start_ok(s: SeqStmt, sl: SyncLoop) -> bool {
    match s {
        SeqStmt::If { cond, then, els } => {
            &&& is_ident(cond, sl_name(sl, "_start"@))
            &&& els is None
            &&& then@.len() == 3
            &&& assigns_lit(then@[0], sl_name(sl, "_running_r"@), 1)
            &&& assigns_copy(then@[1], sl_name(sl, "_cnt"@), sl.lo)
            &&& assigns_copy(then@[2], sl_name(sl, "_acc"@), sl.result_init)
        },
        _ => false,
    }
}

/// The idle branch: `done_r <- 0; <start test>`.
pub open spec fn idle_ok(ss: Seq<SeqStmt>, sl: SyncLoop) -> bool {
    &&& ss.len() == 2
    &&& assigns_lit(ss[0], sl_name(sl, "_done_r"@), 0)
    &&& start_ok(ss[1], sl)
}

/// The whole state machine: `if running_r { <step>; <body, renamed> }
/// else { <idle> }`.
pub open spec fn fsm_ok(s: SeqStmt, sl: SyncLoop) -> bool {
    match s {
        SeqStmt::If { cond, then, els } => {
            &&& is_ident(cond, sl_name(sl, "_running_r"@))
            &&& then@.len() == sl.body@.len() + 1
            &&& step_ok(then@[0], sl)
            &&& stmts_renamed(sl.body@, then@.drop_first(), body_renames(sl))
            &&& match els {
                Some(f) => idle_ok(f@, sl),
                None => false,
            }
        },
        _ => false,
    }
}

/// The output port carrying the result, typed like the accumulator.
pub open spec fn result_port_ok(item: ModuleItem, sl: SyncLoop) -> bool {
    match item {
        ModuleItem::Port { dir, name, ty } => dir == Dir::Out && name.name@ == sl_name(sl, "_result"@)
            && type_copied(sl.result_ty, ty),
        _ => false,
    }
}

/// The counter register: `bits[clog2(hi)]`, reset to 0.
pub open spec fn counter_ok(item: ModuleItem, sl: SyncLoop) -> bool {
    match item {
        ModuleItem::Reg { name, ty, reset } => name.name@ == sl_name(sl, "_cnt"@) && is_lit(reset, 0) && match ty {
            Type::Bits(w) => match w.kind {
                ExprKind::Call { func, args } => func == Builtin::Clog2 && args@.len() == 1 && copied(sl.hi, args@[0]),
                _ => false,
            },
            _ => false,
        },
        _ => false,
    }
}

/// The accumulator register, typed and reset like the declared result.
pub open spec fn acc_ok(item: ModuleItem, sl: SyncLoop) -> bool {
    match item {
        ModuleItem::Reg { name, ty, reset } => name.name@ == sl_name(sl, "_acc"@) && type_copied(sl.result_ty, ty)
            && copied(sl.result_init, reset),
        _ => false,
    }
}

/// The `on` block: the loop's clock and edge, running the state machine.
pub open spec fn on_ok(item: ModuleItem, sl: SyncLoop) -> bool {
    match item {
        ModuleItem::On(on) => on.clock == sl.clock && on.edge == sl.edge && on.body@.len() == 1
            && fsm_ok(on.body@[0], sl),
        _ => false,
    }
}

/// A one-bit port.
pub open spec fn bit_port(item: ModuleItem, d: Dir, n: Seq<char>) -> bool {
    match item {
        ModuleItem::Port { dir, name, ty } => dir == d && name.name@ == n && ty is Bit,
        _ => false,
    }
}

/// A one-bit register reset to 0.
pub open spec fn bit_reg(item: ModuleItem, n: Seq<char>) -> bool {
    match item {
        ModuleItem::Reg { name, ty, reset } => name.name@ == n && ty is Bit && is_lit(reset, 0),
        _ => false,
    }
}

/// `lhs = rhs` between two whole signals.
pub open spec fn wire_through(item: ModuleItem, lhs_name: Seq<char>, rhs_name: Seq<char>) -> bool {
    match item {
        ModuleItem::Drive { lhs, rhs } => targets(lhs, lhs_name) && is_ident(rhs, rhs_name),
        _ => false,
    }
}

/// An owned name: the sync loop's name followed by `suffix`.
fn gen_name(sl: &SyncLoop, suffix: &str) -> (r: String)
    ensures
        r@ == sl_name(*sl, suffix@),
{
    let r = crate::text::cat(&[sl.name.name.as_str(), suffix]);
    proof {
        reveal_with_fuel(crate::text::concat_views, 3);
    }
    r
}

/// `n` at `sp`.
pub(crate) fn ident_at(n: &String, sp: Span) -> (r: Ident)
    ensures
        r.name == *n,
        r.span == sp,
{
    Ident { name: n.clone(), span: sp }
}

/// The expression reading `n`.
pub(crate) fn read_of(n: &String, sp: Span) -> (r: Expr)
    ensures
        is_ident(r, n@),
{
    Expr { kind: ExprKind::Ident(n.clone()), span: sp }
}

/// The literal `v`.
pub(crate) fn lit(v: u128, sp: Span) -> (r: Expr)
    ensures
        is_lit(r, v),
{
    Expr { kind: ExprKind::Int { value: v, raw: crate::text::num128(v) }, span: sp }
}

/// `n <- rhs`.
pub(crate) fn assign(n: &String, rhs: Expr, sp: Span) -> (r: SeqStmt)
    ensures
        r matches SeqStmt::Assign { lhs, rhs: x } && targets(lhs, n@) && x == rhs,
{
    SeqStmt::Assign { lhs: LValue { base: ident_at(n, sp), index: None, span: sp }, rhs }
}

/// `lhs = rhs` between two whole signals.
fn drive(lhs: &String, rhs: &String, sp: Span) -> (r: ModuleItem)
    ensures
        wire_through(r, lhs@, rhs@),
{
    ModuleItem::Drive { lhs: LValue { base: ident_at(lhs, sp), index: None, span: sp }, rhs: read_of(rhs, sp) }
}

/// Lower one `sync loop` into twelve items, in this order: four ports
/// (`_start` in; `_done`, `_result`, `_running` out), four registers
/// (`_cnt`, `_running_r`, `_acc`, `_done_r`), the `on` block running the
/// state machine, and three drives from the registers to their ports.
/// The counter holds the live index (`lo` up to `hi - 1`), so it is
/// `bits[clog2(hi)]` wide whatever `lo` is.
pub fn lower_sync_loop(sl: &SyncLoop) -> (r: Vec<ModuleItem>)
    ensures
        r@.len() == 12,
        bit_port(r@[0], Dir::In, sl_name(*sl, "_start"@)),
        bit_port(r@[1], Dir::Out, sl_name(*sl, "_done"@)),
        result_port_ok(r@[2], *sl),
        bit_port(r@[3], Dir::Out, sl_name(*sl, "_running"@)),
        counter_ok(r@[4], *sl),
        bit_reg(r@[5], sl_name(*sl, "_running_r"@)),
        acc_ok(r@[6], *sl),
        bit_reg(r@[7], sl_name(*sl, "_done_r"@)),
        on_ok(r@[8], *sl),
        wire_through(r@[9], sl_name(*sl, "_done"@), sl_name(*sl, "_done_r"@)),
        wire_through(r@[10], sl_name(*sl, "_result"@), sl_name(*sl, "_acc"@)),
        wire_through(r@[11], sl_name(*sl, "_running"@), sl_name(*sl, "_running_r"@)),
{
    let sp = sl.span;
    let start_name = gen_name(sl, "_start");
    let done_name = gen_name(sl, "_done");
    let result_name = gen_name(sl, "_result");
    let running_name = gen_name(sl, "_running");
    let cnt_name = gen_name(sl, "_cnt");
    let running_r_name = gen_name(sl, "_running_r");
    let acc_name = gen_name(sl, "_acc");
    let done_r_name = gen_name(sl, "_done_r");

    let range_span = sl.lo.span.join(sl.hi.span);
    let cnt_ty = Type::Bits(
        Box::new(Expr { kind: ExprKind::Call { func: Builtin::Clog2, args: vec![copy_exact(&sl.hi)] }, span: range_span }),
    );

    let renames = Renames {
        first: Some((sl.var.name.clone(), cnt_name.clone())),
        second: Some((sl.result_name.name.clone(), acc_name.clone())),
    };
    let body = rename_seq_stmts(&sl.body, &renames);

    let cond = Expr {
        kind: ExprKind::Binary {
            op: BinOp::Eq,
            lhs: Box::new(read_of(&cnt_name, sp)),
            rhs: Box::new(Expr {
                kind: ExprKind::Binary { op: BinOp::Sub, lhs: Box::new(copy_exact(&sl.hi)), rhs: Box::new(lit(1, sp)) },
                span: sp,
            }),
        },
        span: sp,
    };
    let inc = Expr {
        kind: ExprKind::Binary { op: BinOp::Add, lhs: Box::new(read_of(&cnt_name, sp)), rhs: Box::new(lit(1, sp)) },
        span: sp,
    };
    let last_iter = SeqStmt::If {
        cond,
        then: vec![assign(&running_r_name, lit(0, sp), sp), assign(&done_r_name, lit(1, sp), sp)],
        els: Some(vec![assign(&cnt_name, inc, sp), assign(&done_r_name, lit(0, sp), sp)]),
    };

    let mut running_branch = vec![last_iter];
    let ghost body_view = body@;
    let mut b = body;
    running_branch.append(&mut b);
    proof {
        assert(running_branch@.drop_first() =~= body_view);
    }

    let start_branch = SeqStmt::If {
        cond: read_of(&start_name, sp),
        then: vec![
            assign(&running_r_name, lit(1, sp), sp),
            assign(&cnt_name, copy_exact(&sl.lo), sp),
            assign(&acc_name, copy_exact(&sl.result_init), sp),
        ],
        els: None,
    };

    let fsm = SeqStmt::If {
        cond: read_of(&running_r_name, sp),
        then: running_branch,
        els: Some(vec![assign(&done_r_name, lit(0, sp), sp), start_branch]),
    };

    let items = vec![
        ModuleItem::Port { dir: Dir::In, name: ident_at(&start_name, sp), ty: Type::Bit },
        ModuleItem::Port { dir: Dir::Out, name: ident_at(&done_name, sp), ty: Type::Bit },
        ModuleItem::Port { dir: Dir::Out, name: ident_at(&result_name, sp), ty: copy_ty(&sl.result_ty) },
        ModuleItem::Port { dir: Dir::Out, name: ident_at(&running_name, sp), ty: Type::Bit },
        ModuleItem::Reg { name: ident_at(&cnt_name, sp), ty: cnt_ty, reset: lit(0, sp) },
        ModuleItem::Reg { name: ident_at(&running_r_name, sp), ty: Type::Bit, reset: lit(0, sp) },
        ModuleItem::Reg { name: ident_at(&acc_name, sp), ty: copy_ty(&sl.result_ty), reset: copy_exact(&sl.result_init) },
        ModuleItem::Reg { name: ident_at(&done_r_name, sp), ty: Type::Bit, reset: lit(0, sp) },
        ModuleItem::On(OnBlock { clock: copy_ident(&sl.clock), edge: sl.edge, body: vec![fsm], span: sp }),
        drive(&done_name, &done_r_name, sp),
        drive(&result_name, &acc_name, sp),
        drive(&running_name, &running_r_name, sp),
    ];
    items
}

} // verus!
