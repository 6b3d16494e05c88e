//! Lowers `sync.double_flop` / `sync.pulse` call sites into ordinary
//! `Reg`/`On`/`Wire` items. Assumes the checker has accepted the module:
//! every call has its arguments, and a `sync.pulse`'s two clocks are bare
//! names.
//!
//! Hidden names come from the call site's own target (the `<-` target for
//! `double_flop`, the wire for `pulse`), not a counter: the checker keeps
//! module names unique, so `__sync_<target>_*` is unique too and the same
//! on every run.

use vstd::prelude::*;

use super::rename::{
    copied, copy_exact, copy_ident, copy_item, copy_ty, item_copied, lvalue_renamed, rename_lvalue,
    rename_seq_stmt_copy, stmt_renamed, type_copied,
};
use super::sync_loop_lower::{assign, bit_reg, ident_at, is_ident, lit, read_of, targets};
use super::{BinOp, Builtin, Edge, Expr, ExprKind, Ident, LValue, ModuleItem, OnBlock, SeqStmt, Type};
use crate::span::Span;

verus! {

/// `e` is a `sync.double_flop(..)` call.
pub open spec fn is_df_call(e: Expr) -> bool {
    e.kind matches ExprKind::Call { func, .. } && func == Builtin::SyncDoubleFlop
}

/// `e` is a `sync.pulse(..)` call.
pub open spec fn is_pulse_call(e: Expr) -> bool {
    e.kind matches ExprKind::Call { func, .. } && func == Builtin::SyncPulse
}

/// The arguments of a call (empty for anything else).
pub open spec fn call_args(e: Expr) -> Seq<Expr> {
    match e.kind {
        ExprKind::Call { args, .. } => args@,
        _ => Seq::empty(),
    }
}

/// `s` is `target <- sync.double_flop(..)`.
pub open spec fn is_df_assign(s: SeqStmt) -> bool {
    s matches SeqStmt::Assign { rhs, .. } && is_df_call(rhs)
}

/// A `sync.double_flop` call the checker accepted has its signal argument.
pub open spec fn df_ready(s: SeqStmt) -> bool {
    is_df_assign(s) ==> call_args(s->Assign_rhs).len() >= 1
}

/// A `sync.pulse` wire the checker accepted: signal, source clock and
/// destination clock, the clocks bare names.
pub open spec fn pulse_ready(args: Seq<Expr>) -> bool {
    &&& args.len() >= 3
    &&& args[1].kind is Ident
    &&& args[2].kind is Ident
}

/// Every sync primitive call among `items` that this pass rewrites has
/// the arguments the checker guarantees.
pub open spec fn prims_ready(items: Seq<ModuleItem>) -> bool {
    forall|k: int| 0 <= k < items.len() ==> #[trigger] item_ready(items[k])
}

/// One item's sync primitive calls have their arguments.
pub open spec fn item_ready(item: ModuleItem) -> bool {
    match item {
        ModuleItem::On(on) => forall|j: int| 0 <= j < on.body@.len() ==> #[trigger] df_ready(on.body@[j]),
        ModuleItem::Wire { init, .. } => is_pulse_call(init) ==> pulse_ready(call_args(init)),
        _ => true,
    }
}

/// How many statements of a block are `sync.double_flop` assignments.
pub open spec fn df_count(ss: Seq<SeqStmt>) -> nat
    decreases ss,
{
    if ss.len() == 0 {
        0
    } else {
        df_count(ss.drop_last()) + if is_df_assign(ss.last()) { 1nat } else { 0nat }
    }
}

/// The hidden first-stage register of the `double_flop` into `target`.
pub open spec fn stage0_name(target: Seq<char>) -> Seq<char> {
    "__sync_"@ + target + "_stage0"@
}

/// The hidden register for the `double_flop` assignment `s`.
pub open spec fn df_reg_ok(s: SeqStmt, reg: ModuleItem) -> bool {
    bit_reg(reg, stage0_name(s->Assign_lhs.base.name@))
}

/// `regs` are the hidden registers of the block `ss`, one per
/// `double_flop` assignment, in order.
pub open spec fn df_regs(ss: Seq<SeqStmt>, regs: Seq<ModuleItem>) -> bool
    decreases ss,
{
    if ss.len() == 0 {
        regs.len() == 0
    } else if is_df_assign(ss.last()) {
        regs.len() >= 1 && df_reg_ok(ss.last(), regs.last()) && df_regs(ss.drop_last(), regs.drop_last())
    } else {
        df_regs(ss.drop_last(), regs)
    }
}

/// The two statements replacing `target <- sync.double_flop(signal, ..)`:
/// `stage0 <- signal` then `target <- stage0`.
pub open spec fn df_pair_ok(s: SeqStmt, a: SeqStmt, b: SeqStmt) -> bool {
    let stage = stage0_name(s->Assign_lhs.base.name@);
    &&& match a {
        SeqStmt::Assign { lhs, rhs } => targets(lhs, stage) && copied(call_args(s->Assign_rhs)[0], rhs),
        _ => false,
    }
    &&& match b {
        SeqStmt::Assign { lhs, rhs } => lvalue_renamed(s->Assign_lhs, lhs, (None, None)) && is_ident(rhs, stage),
        _ => false,
    }
}

/// `out` is the block `ss` with each `double_flop` assignment replaced by
/// its two statements and every other statement copied.
pub open spec fn df_rewritten(ss: Seq<SeqStmt>, out: Seq<SeqStmt>) -> bool
    decreases ss,
{
    if ss.len() == 0 {
        out.len() == 0
    } else if is_df_assign(ss.last()) {
        &&& out.len() >= 2
        &&& df_pair_ok(ss.last(), out[out.len() - 2], out[out.len() - 1])
        &&& df_rewritten(ss.drop_last(), out.subrange(0, out.len() - 2))
    } else {
        &&& out.len() >= 1
        &&& stmt_renamed(ss.last(), out.last(), (None, None))
        &&& df_rewritten(ss.drop_last(), out.drop_last())
    }
}

/// The names of a `sync.pulse` wire's hidden registers.
pub open spec fn pulse_name(wire: Seq<char>, suffix: Seq<char>) -> Seq<char> {
    "__sync_"@ + wire + suffix
}

/// `s` is `n <- m` between two whole signals.
pub open spec fn assigns_read(s: SeqStmt, n: Seq<char>, m: Seq<char>) -> bool {
    s matches SeqStmt::Assign { lhs, rhs } && targets(lhs, n) && is_ident(rhs, m)
}

/// `e` is `a ^ b` for two expressions satisfying the given tests.
pub open spec fn is_xor_of_names(e: Expr, a: Seq<char>, b: Seq<char>) -> bool {
    match e.kind {
        ExprKind::Binary { op, lhs, rhs } => op == BinOp::BitXor && is_ident(*lhs, a) && is_ident(*rhs, b),
        _ => false,
    }
}

/// The toggle block: `on rise(src) { toggle <- toggle ^ signal }`.
pub open spec fn toggle_on_ok(item: ModuleItem, wire: Seq<char>, args: Seq<Expr>) -> bool {
    let toggle = pulse_name(wire, "_toggle"@);
    match item {
        ModuleItem::On(on) => {
            &&& is_ident(args[1], on.clock.name@)
            &&& on.edge == Edge::Rise
            &&& on.body@.len() == 1
            &&& match on.body@[0] {
                SeqStmt::Assign { lhs, rhs } => targets(lhs, toggle) && match rhs.kind {
                    ExprKind::Binary { op, lhs: a, rhs: b } => op == BinOp::BitXor && is_ident(*a, toggle)
                        && copied(args[0], *b),
                    _ => false,
                },
                _ => false,
            }
        },
        _ => false,
    }
}

/// The synchronizer block: `on rise(dst) { stage0 <- toggle; stage1 <-
/// stage0; stage2 <- stage1 }`.
pub open spec fn sync_on_ok(item: ModuleItem, wire: Seq<char>, args: Seq<Expr>) -> bool {
    match item {
        ModuleItem::On(on) => {
            &&& is_ident(args[2], on.clock.name@)
            &&& on.edge == Edge::Rise
            &&& on.body@.len() == 3
            &&& assigns_read(on.body@[0], pulse_name(wire, "_stage0"@), pulse_name(wire, "_toggle"@))
            &&& assigns_read(on.body@[1], pulse_name(wire, "_stage1"@), pulse_name(wire, "_stage0"@))
            &&& assigns_read(on.body@[2], pulse_name(wire, "_stage2"@), pulse_name(wire, "_stage1"@))
        },
        _ => false,
    }
}

/// The rewritten wire: same name and type, driven by `stage1 ^ stage2`.
pub open spec fn pulse_wire_ok(item: ModuleItem, name: Ident, ty: Type) -> bool {
    match item {
        ModuleItem::Wire { name: n, ty: t, init } => n == name && type_copied(ty, t)
            && is_xor_of_names(init, pulse_name(name.name@, "_stage1"@), pulse_name(name.name@, "_stage2"@)),
        _ => false,
    }
}

/// The seven items a `sync.pulse` wire becomes.
pub open spec fn pulse_ok(p: Seq<ModuleItem>, name: Ident, ty: Type, args: Seq<Expr>) -> bool {
    let w = name.name@;
    &&& p.len() == 7
    &&& bit_reg(p[0], pulse_name(w, "_toggle"@))
    &&& toggle_on_ok(p[1], w, args)
    &&& bit_reg(p[2], pulse_name(w, "_stage0"@))
    &&& bit_reg(p[3], pulse_name(w, "_stage1"@))
    &&& bit_reg(p[4], pulse_name(w, "_stage2"@))
    &&& sync_on_ok(p[5], w, args)
    &&& pulse_wire_ok(p[6], name, ty)
}

/// How many items one input item becomes.
pub open spec fn piece_len(item: ModuleItem) -> nat {
    match item {
        ModuleItem::On(on) => if df_count(on.body@) > 0 { df_count(on.body@) + 1 } else { 1 },
        ModuleItem::Wire { init, .. } => if is_pulse_call(init) { 7 } else { 1 },
        _ => 1,
    }
}

/// What one input item becomes: its hidden registers and rewritten block,
/// its pulse machinery, or a copy of itself.
pub open spec fn piece_ok(item: ModuleItem, p: Seq<ModuleItem>) -> bool {
    match item {
        ModuleItem::On(on) => if df_count(on.body@) > 0 {
            &&& df_regs(on.body@, p.drop_last())
            &&& match p.last() {
                ModuleItem::On(o) => o.clock == on.clock && o.edge == on.edge && o.span == on.span
                    && df_rewritten(on.body@, o.body@),
                _ => false,
            }
        } else {
            item_copied(item, p[0])
        },
        ModuleItem::Wire { name, ty, init } => if is_pulse_call(init) {
            pulse_ok(p, name, ty, call_args(init))
        } else {
            item_copied(item, p[0])
        },
        _ => item_copied(item, p[0]),
    }
}

/// `out` is `items` with each item expanded in place, in order.
pub open spec fn expanded(items: Seq<ModuleItem>, out: Seq<ModuleItem>) -> bool
    decreases items,
{
    if items.len() == 0 {
        out.len() == 0
    } else {
        let k = piece_len(items.last());
        &&& out.len() >= k
        &&& piece_ok(items.last(), out.subrange(out.len() - k, out.len() as int))
        &&& expanded(items.drop_last(), out.subrange(0, out.len() - k))
    }
}

/// Whether `item` holds a synchronizer primitive this pass rewrites.
pub open spec fn item_has_prim(item: ModuleItem) -> bool {
    match item {
        ModuleItem::On(on) => df_count(on.body@) > 0,
        ModuleItem::Wire { init, .. } => is_pulse_call(init),
        _ => false,
    }
}

/// Expanding a list none of whose items holds a synchronizer primitive
/// gives the same list back, item for item.
pub proof fn lemma_expand_without_prims(items: Seq<ModuleItem>, out: Seq<ModuleItem>)
    requires
        forall|k: int| 0 <= k < items.len() ==> !item_has_prim(#[trigger] items[k]),
        expanded(items, out),
    ensures
        out.len() == items.len(),
        forall|k: int| 0 <= k < items.len() ==> item_copied(#[trigger] items[k], out[k]),
    decreases items.len(),
{
    if items.len() > 0 {
        let n = items.len() as int;
        let m = out.len() as int;
        assert(!item_has_prim(items[n - 1]));
        assert(items.last() == items[n - 1]);
        let rest = out.subrange(0, m - 1);
        assert forall|k: int| 0 <= k < items.drop_last().len() implies !item_has_prim(#[trigger] items.drop_last()[k]) by {
            assert(items.drop_last()[k] == items[k]);
            assert(!item_has_prim(items[k]));
        }
        lemma_expand_without_prims(items.drop_last(), rest);
        assert(out.subrange(m - 1, m)[0] == out[m - 1]);
        assert forall|k: int| 0 <= k < items.len() implies item_copied(#[trigger] items[k], out[k]) by {
            if k < n - 1 {
                assert(items.drop_last()[k] == items[k]);
                assert(rest[k] == out[k]);
            }
        }
    }
}

/// `__sync_<target><suffix>`.
fn hidden_name(target: &String, suffix: &str) -> (r: String)
    ensures
        r@ == "__sync_"@ + target@ + suffix@,
{
    let r = crate::text::cat(&["__sync_", target.as_str(), suffix]);
    proof {
        reveal_with_fuel(crate::text::concat_views, 4);
    }
    r
}

/// A one-bit register reset to 0.
fn hidden_reg(n: &String, sp: Span) -> (r: ModuleItem)
    ensures
        bit_reg(r, n@),
{
    ModuleItem::Reg { name: ident_at(n, sp), ty: Type::Bit, reset: lit(0, sp) }
}

/// Every `double_flop` assignment in `on`, lowered: one hidden register
/// per call, and the block with each call's assignment replaced by
/// `stage0 <- signal; target <- stage0`. `None` when the block has no
/// such call.
fn lower_double_flop_in_on_block(on: &OnBlock) -> (r: Option<(Vec<ModuleItem>, OnBlock)>)
    requires
        forall|j: int| 0 <= j < on.body@.len() ==> #[trigger] df_ready(on.body@[j]),
    ensures
        match r {
            None => df_count(on.body@) == 0,
            Some((regs, o)) => {
                &&& df_count(on.body@) > 0
                &&& regs@.len() == df_count(on.body@)
                &&& df_regs(on.body@, regs@)
                &&& o.clock == on.clock && o.edge == on.edge && o.span == on.span
                &&& df_rewritten(on.body@, o.body@)
            },
        },
{
    let mut hidden_regs: Vec<ModuleItem> = Vec::new();
    let mut new_body: Vec<SeqStmt> = Vec::new();
    let mut i: usize = 0;
    while i < on.body.len()
        invariant
            i <= on.body@.len(),
            forall|j: int| 0 <= j < on.body@.len() ==> #[trigger] df_ready(on.body@[j]),
            hidden_regs@.len() == df_count(on.body@.subrange(0, i as int)),
            df_regs(on.body@.subrange(0, i as int), hidden_regs@),
            df_rewritten(on.body@.subrange(0, i as int), new_body@),
        decreases on.body@.len() - i,
    {
        let stmt = &on.body[i];
        let ghost pre_b = new_body@;
        let ghost pre_r = hidden_regs@;
        proof {
            assert(on.body@.subrange(0, i + 1).drop_last() =~= on.body@.subrange(0, i as int));
            assert(on.body@.subrange(0, i + 1).last() == on.body@[i as int]);
            assert(df_ready(on.body@[i as int]));
        }
        let mut lowered = false;
        if let SeqStmt::Assign { lhs, rhs } = stmt {
            if let ExprKind::Call { func: Builtin::SyncDoubleFlop, args } = &rhs.kind {
                let sp = rhs.span;
                let stage = hidden_name(&lhs.base.name, "_stage0");
                hidden_regs.push(hidden_reg(&stage, sp));
                new_body.push(assign(&stage, copy_exact(&args[0]), sp));
                new_body.push(SeqStmt::Assign { lhs: rename_lvalue_copy(lhs), rhs: read_of(&stage, sp) });
                lowered = true;
                proof {
                    assert(new_body@.subrange(0, new_body@.len() - 2) =~= pre_b);
                    assert(hidden_regs@.drop_last() =~= pre_r);
                }
            }
        }
        if !lowered {
            new_body.push(rename_seq_stmt_copy(stmt));
            proof {
                assert(new_body@.drop_last() =~= pre_b);
            }
        }
        i += 1;
    }
    proof {
        assert(on.body@.subrange(0, on.body@.len() as int) =~= on.body@);
    }
    if hidden_regs.len() == 0 {
        return None;
    }
    Some((hidden_regs, OnBlock { clock: copy_ident(&on.clock), edge: on.edge, body: new_body, span: on.span }))
}

/// A copy of an assignment target.
fn rename_lvalue_copy(l: &LValue) -> (r: LValue)
    ensures
        lvalue_renamed(*l, r, (None, None)),
{
    let none = super::rename::Renames { first: None, second: None };
    rename_lvalue(l, &none)
}

/// One `sync.pulse(signal, src_clock, dst_clock)` wire, lowered: a toggle
/// register flipped by `signal` in its own `on rise(src_clock)` block,
/// three synchronizer stages in their own `on rise(dst_clock)` block, and
/// the wire itself driven by `stage1 ^ stage2`.
fn lower_pulse(wire_name: &Ident, wire_ty: &Type, args: &Vec<Expr>) -> (r: Vec<ModuleItem>)
    requires
        pulse_ready(args@),
    ensures
        pulse_ok(r@, *wire_name, *wire_ty, args@),
{
    let src_clock = match &args[1].kind {
        ExprKind::Ident(n) => n,
        _ => { proof { assert(false); } return Vec::new(); }
    };
    let dst_clock = match &args[2].kind {
        ExprKind::Ident(n) => n,
        _ => { proof { assert(false); } return Vec::new(); }
    };
    let sp = wire_name.span;
    let base = &wire_name.name;
    let toggle_name = hidden_name(base, "_toggle");
    let stage0_name = hidden_name(base, "_stage0");
    let stage1_name = hidden_name(base, "_stage1");
    let stage2_name = hidden_name(base, "_stage2");

    let flip = Expr {
        kind: ExprKind::Binary {
            op: BinOp::BitXor,
            lhs: Box::new(read_of(&toggle_name, sp)),
            rhs: Box::new(copy_exact(&args[0])),
        },
        span: sp,
    };
    let toggle_on = ModuleItem::On(OnBlock {
        clock: ident_at(src_clock, sp),
        edge: Edge::Rise,
        body: vec![assign(&toggle_name, flip, sp)],
        span: sp,
    });
    let sync_on = ModuleItem::On(OnBlock {
        clock: ident_at(dst_clock, sp),
        edge: Edge::Rise,
        body: vec![
            assign(&stage0_name, read_of(&toggle_name, sp), sp),
            assign(&stage1_name, read_of(&stage0_name, sp), sp),
            assign(&stage2_name, read_of(&stage1_name, sp), sp),
        ],
        span: sp,
    });
    let rewritten_wire = ModuleItem::Wire {
        name: copy_ident(wire_name),
        ty: copy_ty(wire_ty),
        init: Expr {
            kind: ExprKind::Binary {
                op: BinOp::BitXor,
                lhs: Box::new(read_of(&stage1_name, sp)),
                rhs: Box::new(read_of(&stage2_name, sp)),
            },
            span: sp,
        },
    };
    vec![
        hidden_reg(&toggle_name, sp),
        toggle_on,
        hidden_reg(&stage0_name, sp),
        hidden_reg(&stage1_name, sp),
        hidden_reg(&stage2_name, sp),
        sync_on,
        rewritten_wire,
    ]
}

/// Rewrites every `sync.double_flop` / `sync.pulse` call among the direct
/// `items` into its hidden registers and blocks, in place and in order;
/// every other item is copied unchanged. A call nested inside `const if`,
/// `repeat`, `foreach` or `sync loop` is not rewritten.
pub fn expand_sync_prims(items: &[ModuleItem]) -> (r: Vec<ModuleItem>)
    requires
        prims_ready(items@),
    ensures
        expanded(items@, r@),
{
    let mut out: Vec<ModuleItem> = Vec::new();
    let mut i: usize = 0;
    while i < items.len()
        invariant
            i <= items@.len(),
            prims_ready(items@),
            expanded(items@.subrange(0, i as int), out@),
        decreases items@.len() - i,
    {
        let item = &items[i];
        proof {
            assert(item_ready(items@[i as int]));
        }
        let mut piece: Vec<ModuleItem> = match item {
            ModuleItem::On(on) => match lower_double_flop_in_on_block(on) {
                Some((regs, new_on)) => {
                    let ghost rv = regs@;
                    let mut p = regs;
                    p.push(ModuleItem::On(new_on));
                    proof {
                        assert(p@.drop_last() =~= rv);
                    }
                    p
                }
                None => vec![copy_item(item)],
            },
            ModuleItem::Wire { name, ty, init } => match &init.kind {
                ExprKind::Call { func: Builtin::SyncPulse, args } => lower_pulse(name, ty, args),
                _ => vec![copy_item(item)],
            },
            _ => vec![copy_item(item)],
        };
        let ghost pre = out@;
        let ghost pv = piece@;
        proof {
            assert(piece_len(*item) == pv.len());
            assert(piece_ok(*item, pv));
        }
        out.append(&mut piece);
        proof {
            let k = pv.len() as int;
            assert(out@.subrange(out@.len() - k, out@.len() as int) =~= pv);
            assert(out@.subrange(0, out@.len() - k) =~= pre);
            assert(items@.subrange(0, i + 1).drop_last() =~= items@.subrange(0, i as int));
            assert(items@.subrange(0, i + 1).last() == *item);
        }
        i += 1;
    }
    proof {
        assert(items@.subrange(0, items@.len() as int) =~= items@);
    }
    out
}

} // verus!
