//! Clock-domain ownership (E0701), and the rules for the explicit
//! crossing primitives `sync.double_flop`/`sync.pulse` (E0704, E0705).
//!
//! Every reg is owned by the clock of the `on` block that assigns it.
//! Every combinational signal is colored with the set of clock domains it
//! derives from, and per module this pass rejects a read inside
//! `on rise(clkB)` of anything derived from another clock's reg (directly
//! or through any chain of wires), and a wire or output that mixes two
//! domains. Instance outputs contribute no domain: the analysis is
//! module-local. A module with fewer than two clocks trivially passes.

use vstd::prelude::*;

use crate::ast::{Builtin, Expr, ExprKind, ForEachSource, LValue, Module, ModuleItem, OnBlock, SeqStmt, TopItem, Dir, Type};
use crate::span::Span;
use crate::text::{cat, owned};

use super::funcs::{bytes_less, name_key, sorted_by_name};
use super::Checker;
use super::lemma_grew_trans;
use super::names::{flagged, lemma_flag_kept};

verus! {

/// Per-module domain-coloring state.
pub struct Ccx<'m> {
    /// reg name → the clock that owns it (the first `on` block assigning it).
    pub reg_clock: Vec<(String, String)>,
    /// wire/output name → every expression that drives it.
    pub drives: Vec<(String, Vec<&'m Expr>)>,
    /// wire/output name → its declaration span.
    pub decl_spans: Vec<(String, Span)>,
    /// Memoized domain sets; `None` while in progress (a cycle).
    pub domains: Vec<(String, Option<Vec<String>>)>,
}

/// `k` is the first position of `v` that binds `name`.
pub open spec fn first_key<T>(v: Seq<(String, T)>, k: int, name: Seq<char>) -> bool {
    &&& 0 <= k < v.len()
    &&& v[k].0@ == name
    &&& forall|j: int| 0 <= j < k ==> #[trigger] v[j].0@ != name
}

/// Where `name` is first bound in an association list, if anywhere.
fn assoc_index<T>(list: &Vec<(String, T)>, name: &String) -> (r: Option<usize>)
    ensures
        r matches Some(i) ==> i < list@.len() && list@[i as int].0@ == name@
            && forall|j: int| 0 <= j < i ==> #[trigger] list@[j].0@ != name@,
        r is None ==> forall|j: int| 0 <= j < list@.len() ==> #[trigger] list@[j].0@ != name@,
{
    let mut k: usize = 0;
    while k < list.len()
        invariant
            k <= list@.len(),
            forall|j: int| 0 <= j < k ==> #[trigger] list@[j].0@ != name@,
        decreases list@.len() - k,
    {
        if list[k].0 == *name {
            return Some(k);
        }
        k += 1;
    }
    None
}

/// The clock each reg is claimed by, as text, in order.
pub open spec fn owner_view(v: Seq<(String, String)>) -> Seq<(Seq<char>, Seq<char>)> {
    v.map_values(|p: (String, String)| (p.0@, p.1@))
}

/// The clock of the first claim on `reg`, if any.
pub open spec fn owner_of(claims: Seq<(Seq<char>, Seq<char>)>, reg: Seq<char>) -> Option<Seq<char>>
    decreases claims.len(),
{
    if claims.len() == 0 {
        None
    } else if claims[0].0 == reg {
        Some(claims[0].1)
    } else {
        owner_of(claims.drop_first(), reg)
    }
}

/// The `(reg, clock)` claims `items` make, in order: every target an
/// `on` block assigns, with the block's clock, and every sync loop's
/// result, with the loop's clock (through `repeat`, `foreach` and both
/// branches of `const if`).
pub open spec fn owner_claims(items: Seq<ModuleItem>) -> Seq<(Seq<char>, Seq<char>)>
    decreases items,
{
    if items.len() == 0 {
        Seq::empty()
    } else {
        owner_claims(items.drop_last()) + item_claims(items.last())
    }
}

/// The claims one item makes.
pub open spec fn item_claims(item: ModuleItem) -> Seq<(Seq<char>, Seq<char>)>
    decreases item,
{
    match item {
        ModuleItem::On(on) => claims_of_block(targets_of(on.body@), on.clock.name@),
        ModuleItem::SyncLoop(sl) => seq![(sl.result_name.name@, sl.clock.name@)],
        ModuleItem::Repeat(r) => owner_claims(r.items@),
        ModuleItem::ForEach(fe) => owner_claims(fe.items@),
        ModuleItem::ConstIf { then, els, .. } => owner_claims(then@) + match els {
            Some(el) => owner_claims(el@),
            None => Seq::empty(),
        },
        _ => Seq::empty(),
    }
}

/// One block's claims: each target with the block's clock.
pub open spec fn claims_of_block(targets: Seq<Seq<char>>, clock: Seq<char>) -> Seq<(Seq<char>, Seq<char>)> {
    targets.map_values(|t: Seq<char>| (t, clock))
}

/// The first claim in `a + b` is the first in `a`, else the first in `b`.
proof fn lemma_owner_concat(a: Seq<(Seq<char>, Seq<char>)>, b: Seq<(Seq<char>, Seq<char>)>, reg: Seq<char>)
    ensures
        owner_of(a + b, reg) == (if owner_of(a, reg) is Some { owner_of(a, reg) } else { owner_of(b, reg) }),
    decreases a.len(),
{
    if a.len() == 0 {
        assert(a + b =~= b);
    } else {
        assert((a + b).drop_first() =~= a.drop_first() + b);
        lemma_owner_concat(a.drop_first(), b, reg);
    }
}

/// Two claim lists that agree on every owner still agree after the same
/// claims are appended to both.
proof fn lemma_owner_same_after(a: Seq<(Seq<char>, Seq<char>)>, a2: Seq<(Seq<char>, Seq<char>)>, c: Seq<(Seq<char>, Seq<char>)>)
    requires
        forall|r: Seq<char>| #[trigger] owner_of(a, r) == owner_of(a2, r),
    ensures
        forall|r: Seq<char>| #[trigger] owner_of(a + c, r) == owner_of(a2 + c, r),
{
    assert forall|r: Seq<char>| #[trigger] owner_of(a + c, r) == owner_of(a2 + c, r) by {
        lemma_owner_concat(a, c, r);
        lemma_owner_concat(a2, c, r);
    }
}

/// The entry `assoc_index` finds is the owner.
proof fn lemma_owner_at(v: Seq<(Seq<char>, Seq<char>)>, i: int, reg: Seq<char>)
    requires
        0 <= i < v.len(),
        v[i].0 == reg,
        forall|j: int| 0 <= j < i ==> v[j].0 != reg,
    ensures
        owner_of(v, reg) == Some(v[i].1),
    decreases i,
{
    if i > 0 {
        lemma_owner_at(v.drop_first(), i - 1, reg);
    }
}

/// No entry claims `reg`: it has no owner.
proof fn lemma_owner_none(v: Seq<(Seq<char>, Seq<char>)>, reg: Seq<char>)
    requires
        forall|j: int| 0 <= j < v.len() ==> v[j].0 != reg,
    ensures
        owner_of(v, reg) is None,
    decreases v.len(),
{
    if v.len() > 0 {
        lemma_owner_none(v.drop_first(), reg);
    }
}

/// Whether a set (as a list without repeats) holds `name`.
fn set_has(set: &Vec<String>, name: &String) -> (r: bool)
    ensures
        r <==> exists|k: int| 0 <= k < set@.len() && #[trigger] set@[k]@ == name@,
{
    let mut k: usize = 0;
    while k < set.len()
        invariant
            k <= set@.len(),
            forall|j: int| 0 <= j < k ==> #[trigger] set@[j]@ != name@,
        decreases set@.len() - k,
    {
        if set[k] == *name {
            return true;
        }
        k += 1;
    }
    false
}

/// Add `name` to a set kept as a list without repeats.
fn set_add(set: &mut Vec<String>, name: &String)
    ensures
        (exists|k: int| 0 <= k < old(set)@.len() && #[trigger] old(set)@[k]@ == name@) ==> final(set)@ == old(set)@,
        !(exists|k: int| 0 <= k < old(set)@.len() && #[trigger] old(set)@[k]@ == name@) ==> final(set)@ == old(set)@.push(*name),
{
    if !set_has(set, name) {
        set.push(name.clone());
    }
}

/// The names of `set` taken in the order `order` lists their indices.
pub open spec fn names_in_order(set: Seq<String>, order: Seq<usize>) -> Seq<Seq<char>> {
    order.map_values(|i: usize| set[i as int]@)
}

/// A set's members, sorted, joined with "`, `".
fn sorted_list(set: &Vec<String>) -> (r: String)
    ensures
        exists|order: Seq<usize>| {
            &&& order.len() == set@.len()
            &&& order.no_duplicates()
            &&& forall|q: int| 0 <= q < order.len() ==> #[trigger] order[q] < set@.len()
            &&& forall|p: int, q: int| 0 <= p < q < order.len()
                ==> !bytes_less(name_key(set@[order[q] as int]), name_key(set@[order[p] as int]))
            &&& r@ == crate::text::joined(names_in_order(set@, order), "`, `"@)
        },
{
    let order = sorted_by_name(set);
    let ghost texts = names_in_order(set@, order@);
    let mut s = String::new();
    let mut k: usize = 0;
    while k < order.len()
        invariant
            k <= order@.len(),
            order@.len() == set@.len(),
            forall|q: int| 0 <= q < order@.len() ==> #[trigger] order@[q] < set@.len(),
            texts == names_in_order(set@, order@),
            s@ == crate::text::joined(texts.subrange(0, k as int), "`, `"@),
        decreases order@.len() - k,
    {
        let ghost before = s@;
        if k > 0 {
            s.append("`, `");
        }
        s.append(set[order[k]].as_str());
        proof {
            let pre = texts.subrange(0, k + 1);
            assert(pre.drop_last() =~= texts.subrange(0, k as int));
            assert(pre.last() == set@[order@[k as int] as int]@);
            if k == 0 {
                assert(s@ =~= set@[order@[0] as int]@);
            } else {
                assert(s@ =~= before + "`, `"@ + set@[order@[k as int] as int]@);
            }
        }
        k += 1;
    }
    proof {
        assert(texts.subrange(0, order@.len() as int) =~= texts);
    }
    s
}

/// How many `clock` declarations `items` hold (through `repeat`,
/// `foreach` and both branches of `const if`).
pub open spec fn clock_total(items: Seq<ModuleItem>) -> nat
    decreases items,
{
    if items.len() == 0 {
        0
    } else {
        clock_total(items.drop_last()) + match items.last() {
            ModuleItem::Clock(_) => 1nat,
            ModuleItem::Repeat(r) => clock_total(r.items@),
            ModuleItem::ForEach(fe) => clock_total(fe.items@),
            ModuleItem::ConstIf { then, els, .. } => clock_total(then@) + match els {
                Some(el) => clock_total(el@),
                None => 0nat,
            },
            _ => 0nat,
        }
    }
}

/// `a`, capped at two.
pub open spec fn cap2(a: int) -> int {
    if a < 2 { a } else { 2 }
}

/// Count `clock` declarations on top of `n`, capped at two (through
/// `repeat`, `foreach` and both branches of `const if`).
fn count_clocks(items: &Vec<ModuleItem>, n: usize) -> (r: usize)
    requires
        n <= 2,
    ensures
        r == cap2(n + clock_total(items@)),
    decreases items,
{
    let ghost n0 = n;
    let mut n = n;
    let mut i: usize = 0;
    proof { assert(items@.subrange(0, 0) =~= Seq::<ModuleItem>::empty()); }
    while i < items.len()
        invariant
            i <= items@.len(),
            n0 <= 2,
            n == cap2(n0 + clock_total(items@.subrange(0, i as int))),
        decreases items@.len() - i,
    {
        match &items[i] {
            ModuleItem::Clock(_) => {
                if n < 2 {
                    n += 1;
                }
            }
            ModuleItem::Repeat(r) => n = count_clocks(&r.items, n),
            ModuleItem::ForEach(fe) => n = count_clocks(&fe.items, n),
            ModuleItem::ConstIf { then, els, .. } => {
                n = count_clocks(then, n);
                if let Some(el) = els {
                    n = count_clocks(el, n);
                }
            }
            _ => {}
        }
        proof {
            assert(items@.subrange(0, i + 1).drop_last() =~= items@.subrange(0, i as int));
            assert(items@.subrange(0, i + 1).last() == items@[i as int]);
        }
        i += 1;
    }
    proof { assert(items@.subrange(0, items@.len() as int) =~= items@); }
    n
}

/// Record an expression driving `name`.
fn add_drive<'m>(cx: &mut Ccx<'m>, name: &String, e: &'m Expr)
    ensures
        final(cx).reg_clock == old(cx).reg_clock,
        final(cx).decl_spans == old(cx).decl_spans,
        final(cx).domains == old(cx).domains,
        forall|k: int| #[trigger] first_key(old(cx).drives@, k, name@) ==> {
            &&& final(cx).drives@.len() == old(cx).drives@.len()
            &&& final(cx).drives@[k].0@ == name@
            &&& final(cx).drives@[k].1@ == old(cx).drives@[k].1@.push(e)
            &&& forall|j: int| 0 <= j < old(cx).drives@.len() && j != k ==> #[trigger] final(cx).drives@[j] == old(cx).drives@[j]
        },
        (forall|j: int| 0 <= j < old(cx).drives@.len() ==> #[trigger] old(cx).drives@[j].0@ != name@) ==> {
            &&& final(cx).drives@.len() == old(cx).drives@.len() + 1
            &&& final(cx).drives@.drop_last() == old(cx).drives@
            &&& final(cx).drives@.last().0@ == name@
            &&& final(cx).drives@.last().1@ == seq![e]
        },
{
    match assoc_index(&cx.drives, name) {
        Some(k) => {
            let mut list: Vec<&'m Expr> = Vec::new();
            let mut q: usize = 0;
            while q < cx.drives[k].1.len()
                invariant
                    k < cx.drives@.len(),
                    q <= cx.drives@[k as int].1@.len(),
                    list@ == cx.drives@[k as int].1@.subrange(0, q as int),
                decreases cx.drives@[k as int].1@.len() - q,
            {
                list.push(cx.drives[k].1[q]);
                proof {
                    assert(list@ =~= cx.drives@[k as int].1@.subrange(0, q + 1));
                }
                q += 1;
            }
            proof {
                assert(list@ =~= cx.drives@[k as int].1@);
                assert forall|k2: int| #[trigger] first_key(cx.drives@, k2, name@) implies k2 == k by {
                    if k2 < k {
                    } else if k2 > k {
                        assert(cx.drives@[k as int].0@ == name@);
                    }
                }
            }
            list.push(e);
            cx.drives.set(k, (name.clone(), list));
        }
        None => {
            let mut list: Vec<&'m Expr> = Vec::new();
            list.push(e);
            cx.drives.push((name.clone(), list));
        }
    }
}

/// Record `name`'s declaration span, keeping the first.
fn add_decl(cx: &mut Ccx, name: &String, span: Span)
    ensures
        final(cx).reg_clock == old(cx).reg_clock,
        final(cx).drives == old(cx).drives,
        final(cx).domains == old(cx).domains,
        (exists|j: int| 0 <= j < old(cx).decl_spans@.len() && #[trigger] old(cx).decl_spans@[j].0@ == name@)
            ==> final(cx).decl_spans == old(cx).decl_spans,
        !(exists|j: int| 0 <= j < old(cx).decl_spans@.len() && #[trigger] old(cx).decl_spans@[j].0@ == name@) ==> {
            &&& final(cx).decl_spans@.len() == old(cx).decl_spans@.len() + 1
            &&& final(cx).decl_spans@.drop_last() == old(cx).decl_spans@
            &&& final(cx).decl_spans@.last().0@ == name@
            &&& final(cx).decl_spans@.last().1 == span
        },
{
    if assoc_index(&cx.decl_spans, name).is_none() {
        cx.decl_spans.push((name.clone(), span));
    }
}

/// Record `reg`'s owning clock, keeping the first.
fn add_owner(cx: &mut Ccx, reg: &String, clock: &String)
    ensures
        forall|r: Seq<char>| #[trigger] owner_of(owner_view(final(cx).reg_clock@), r)
            == owner_of(owner_view(old(cx).reg_clock@) + seq![(reg@, clock@)], r),
        final(cx).domains == old(cx).domains,
{
    let ghost before = owner_view(cx.reg_clock@);
    let hit = assoc_index(&cx.reg_clock, reg);
    if hit.is_none() {
        cx.reg_clock.push((reg.clone(), clock.clone()));
        proof {
            assert(owner_view(cx.reg_clock@) =~= before + seq![(reg@, clock@)]);
        }
    } else {
        proof {
            let i = hit->Some_0 as int;
            assert forall|j: int| 0 <= j < i implies before[j].0 != reg@ by {
                assert(before[j].0 == cx.reg_clock@[j].0@);
            }
            lemma_owner_at(before, i, reg@);
            assert forall|r: Seq<char>| #[trigger] owner_of(owner_view(cx.reg_clock@), r)
                == owner_of(before + seq![(reg@, clock@)], r) by {
                lemma_owner_concat(before, seq![(reg@, clock@)], r);
                if r != reg@ {
                    assert(seq![(reg@, clock@)].drop_first() =~= Seq::<(Seq<char>, Seq<char>)>::empty());
                    assert(owner_of(seq![(reg@, clock@)].drop_first(), r) is None);
                    assert(owner_of(seq![(reg@, clock@)], r) is None);
                }
            }
        }
    }
}

/// One walk: reg ownership, drive expressions, declaration spans. Each
/// reg's owner is the clock of its first claim.
fn collect<'m>(items: &'m Vec<ModuleItem>, cx: &mut Ccx<'m>)
    ensures
        forall|r: Seq<char>| #[trigger] owner_of(owner_view(final(cx).reg_clock@), r)
            == owner_of(owner_view(old(cx).reg_clock@) + owner_claims(items@), r),
        final(cx).domains == old(cx).domains,
    decreases items,
{
    let ghost start_v = owner_view(cx.reg_clock@);
    let mut i: usize = 0;
    proof {
        assert(start_v + owner_claims(items@.subrange(0, 0)) =~= start_v);
    }
    while i < items.len()
        invariant
            i <= items@.len(),
            forall|r: Seq<char>| #[trigger] owner_of(owner_view(cx.reg_clock@), r)
                == owner_of(start_v + owner_claims(items@.subrange(0, i as int)), r),
            cx.domains == old(cx).domains,
        decreases items@.len() - i,
    {
        let ghost before_v = owner_view(cx.reg_clock@);
        let ghost none = Seq::<(Seq<char>, Seq<char>)>::empty();
        match &items[i] {
            ModuleItem::Port { dir: Dir::Out, name, .. } => {
                add_decl(cx, &name.name, name.span);
                proof { assert(before_v + none =~= before_v); }
            }
            ModuleItem::Wire { name, init, .. } => {
                add_decl(cx, &name.name, name.span);
                add_drive(cx, &name.name, init);
                proof { assert(before_v + none =~= before_v); }
            }
            ModuleItem::Drive { lhs, rhs } => {
                add_drive(cx, &lhs.base.name, rhs);
                if let Some((ix, hi)) = &lhs.index {
                    add_drive(cx, &lhs.base.name, ix);
                    if let Some(hi) = hi {
                        add_drive(cx, &lhs.base.name, hi);
                    }
                }
                proof { assert(before_v + none =~= before_v); }
            }
            ModuleItem::On(on) => {
                let mut targets: Vec<String> = Vec::new();
                body_targets(&on.body, &mut targets);
                let ghost tv = name_texts(targets@);
                let ghost clk = on.clock.name@;
                proof {
                    assert(tv =~= targets_of(on.body@));
                    assert(before_v + claims_of_block(tv.subrange(0, 0), clk) =~= before_v);
                }
                let mut k: usize = 0;
                while k < targets.len()
                    invariant
                        k <= targets@.len(),
                        tv == name_texts(targets@),
                        clk == on.clock.name@,
                        forall|r: Seq<char>| #[trigger] owner_of(owner_view(cx.reg_clock@), r)
                            == owner_of(before_v + claims_of_block(tv.subrange(0, k as int), clk), r),
                        cx.domains == old(cx).domains,
                    decreases targets@.len() - k,
                {
                    let ghost v0 = owner_view(cx.reg_clock@);
                    add_owner(cx, &targets[k], &on.clock.name);
                    proof {
                        let step = seq![(targets@[k as int]@, clk)];
                        lemma_owner_same_after(v0, before_v + claims_of_block(tv.subrange(0, k as int), clk), step);
                        assert(claims_of_block(tv.subrange(0, k + 1), clk)
                            =~= claims_of_block(tv.subrange(0, k as int), clk) + step);
                        assert(before_v + claims_of_block(tv.subrange(0, k as int), clk) + step
                            =~= before_v + claims_of_block(tv.subrange(0, k + 1), clk));
                    }
                    k += 1;
                }
                proof {
                    assert(tv.subrange(0, targets@.len() as int) =~= tv);
                }
            }
            ModuleItem::SyncLoop(sl) => add_owner(cx, &sl.result_name.name, &sl.clock.name),
            ModuleItem::Repeat(r) => collect(&r.items, cx),
            ModuleItem::ForEach(fe) => collect(&fe.items, cx),
            ModuleItem::ConstIf { then, els, .. } => {
                collect(then, cx);
                let ghost mid_v = owner_view(cx.reg_clock@);
                if let Some(el) = els {
                    collect(el, cx);
                    proof {
                        lemma_owner_same_after(mid_v, before_v + owner_claims(then@), owner_claims(el@));
                        assert(before_v + owner_claims(then@) + owner_claims(el@) =~= before_v + (owner_claims(then@) + owner_claims(el@)));
                    }
                } else {
                    proof {
                        assert(owner_claims(then@) + none =~= owner_claims(then@));
                    }
                }
            }
            _ => {
                proof { assert(before_v + none =~= before_v); }
            }
        }
        proof {
            let pre = items@.subrange(0, i as int);
            let c = item_claims(items@[i as int]);
            assert(forall|r: Seq<char>| #[trigger] owner_of(owner_view(cx.reg_clock@), r) == owner_of(before_v + c, r));
            assert(items@.subrange(0, i + 1).drop_last() =~= pre);
            assert(items@.subrange(0, i + 1).last() == items@[i as int]);
            assert(owner_claims(items@.subrange(0, i + 1)) =~= owner_claims(pre) + c);
            lemma_owner_same_after(before_v, start_v + owner_claims(pre), c);
            assert(start_v + owner_claims(pre) + c =~= start_v + owner_claims(items@.subrange(0, i + 1)));
        }
        i += 1;
    }
    proof {
        assert(items@.subrange(0, items@.len() as int) =~= items@);
    }
}

/// The names an `on` body assigns, in order: each assignment's target and
/// each `default`'s name, through `if`s and loops.
pub open spec fn targets_of(ss: Seq<SeqStmt>) -> Seq<Seq<char>>
    decreases ss,
{
    if ss.len() == 0 {
        Seq::empty()
    } else {
        targets_of(ss.drop_last()) + match ss.last() {
            SeqStmt::Assign { lhs, .. } => seq![lhs.base.name@],
            SeqStmt::If { then, els, .. } => targets_of(then@) + match els {
                Some(b) => targets_of(b@),
                None => Seq::empty(),
            },
            SeqStmt::Default { name, .. } => seq![name.name@],
            SeqStmt::Loop { body, .. } => targets_of(body@),
            SeqStmt::ForEach { body, .. } => targets_of(body@),
            SeqStmt::Error(_) => Seq::empty(),
        }
    }
}

/// A list of names, as text.
pub open spec fn name_texts(v: Seq<String>) -> Seq<Seq<char>> {
    v.map_values(|s: String| s@)
}

/// A list of `(name, span)` reads, with names as text.
pub open spec fn read_texts(v: Seq<(String, Span)>) -> Seq<(Seq<char>, Span)> {
    v.map_values(|p: (String, Span)| (p.0@, p.1))
}

/// Assignment targets in an `on` body (the regs this block owns).
fn body_targets(body: &Vec<SeqStmt>, out: &mut Vec<String>)
    ensures
        name_texts(final(out)@) == name_texts(old(out)@) + targets_of(body@),
    decreases body,
{
    let ghost start = name_texts(out@);
    let mut i: usize = 0;
    proof { assert(name_texts(out@) =~= start + targets_of(body@.subrange(0, 0))); }
    while i < body.len()
        invariant
            i <= body@.len(),
            name_texts(out@) == start + targets_of(body@.subrange(0, i as int)),
        decreases body@.len() - i,
    {
        let ghost mid = name_texts(out@);
        match &body[i] {
            SeqStmt::Assign { lhs, .. } => {
                out.push(lhs.base.name.clone());
                proof { assert(name_texts(out@) =~= mid + seq![lhs.base.name@]); }
            }
            SeqStmt::If { then, els, .. } => {
                body_targets(then, out);
                if let Some(els) = els {
                    body_targets(els, out);
                    proof { assert(name_texts(out@) =~= mid + (targets_of(then@) + targets_of(els@))); }
                } else {
                    proof { assert(name_texts(out@) =~= mid + (targets_of(then@) + Seq::<Seq<char>>::empty())); }
                }
            }
            SeqStmt::Default { name, .. } => {
                out.push(name.name.clone());
                proof { assert(name_texts(out@) =~= mid + seq![name.name@]); }
            }
            SeqStmt::Loop { body, .. } => body_targets(body, out),
            SeqStmt::ForEach { body, .. } => body_targets(body, out),
            SeqStmt::Error(_) => {
                proof { assert(name_texts(out@) =~= mid + Seq::<Seq<char>>::empty()); }
            }
        }
        proof {
            assert(body@.subrange(0, i + 1).drop_last() =~= body@.subrange(0, i as int));
            assert(name_texts(out@) =~= start + targets_of(body@.subrange(0, i + 1)));
        }
        i += 1;
    }
    proof { assert(body@.subrange(0, body@.len() as int) =~= body@); }
}

/// The names an expression reads, each with the span to point at: every
/// identifier, but nothing behind a `.` (enum variants, instance
/// outputs) and nothing inside a `sync.double_flop`/`sync.pulse` call.
pub open spec fn reads_of(e: Expr) -> Seq<(Seq<char>, Span)>
    decreases e,
{
    match e.kind {
        ExprKind::Ident(name) => seq![(name@, e.span)],
        ExprKind::Field { .. } | ExprKind::Int { .. } | ExprKind::Bool(_) => Seq::empty(),
        ExprKind::Unary { expr, .. } => reads_of(*expr),
        ExprKind::Binary { lhs, rhs, .. } => reads_of(*lhs) + reads_of(*rhs),
        ExprKind::IfExpr { cond, then, els } => reads_of(*cond) + reads_of(*then) + reads_of(*els),
        ExprKind::Match { scrutinee, arms } => reads_of(*scrutinee) + reads_of_arms(arms@),
        ExprKind::Concat(parts) | ExprKind::ArrayLit(parts) => reads_of_all(parts@),
        ExprKind::Replicate { count, parts } => reads_of(*count) + reads_of_all(parts@),
        ExprKind::Index { base, index } => reads_of(*base) + reads_of(*index),
        ExprKind::Slice { base, hi, lo } => reads_of(*base) + reads_of(*hi) + reads_of(*lo),
        ExprKind::Call { func, args } => if is_sync_prim(func) { Seq::empty() } else { reads_of_all(args@) },
        ExprKind::FnCall { args, .. } | ExprKind::EnumConstruct { args, .. } => reads_of_all(args@),
        ExprKind::BundleLit(inits) => reads_of_inits(inits@),
    }
}

/// The reads of a list of expressions, in order.
pub open spec fn reads_of_all(es: Seq<Expr>) -> Seq<(Seq<char>, Span)>
    decreases es,
{
    if es.len() == 0 { Seq::empty() } else { reads_of_all(es.drop_last()) + reads_of(es.last()) }
}

/// The reads of match arms' values, in order.
pub open spec fn reads_of_arms(arms: Seq<crate::ast::Arm>) -> Seq<(Seq<char>, Span)>
    decreases arms,
{
    if arms.len() == 0 { Seq::empty() } else { reads_of_arms(arms.drop_last()) + reads_of(arms.last().value) }
}

/// The reads of field initializers' values, in order.
pub open spec fn reads_of_inits(fs: Seq<crate::ast::FieldInit>) -> Seq<(Seq<char>, Span)>
    decreases fs,
{
    if fs.len() == 0 { Seq::empty() } else { reads_of_inits(fs.drop_last()) + reads_of(fs.last().value) }
}

/// The reads in an assignment target's index or slice bounds.
pub open spec fn lvalue_reads(lhs: LValue) -> Seq<(Seq<char>, Span)> {
    match lhs.index {
        Some((ix, hi)) => reads_of(ix) + match hi {
            Some(h) => reads_of(h),
            None => Seq::empty(),
        },
        None => Seq::empty(),
    }
}

/// The reads of a `foreach` source: a range's bounds.
pub open spec fn source_reads(src: ForEachSource) -> Seq<(Seq<char>, Span)> {
    match src {
        ForEachSource::Range { lo, hi } => reads_of(lo) + reads_of(hi),
        ForEachSource::Elements(_) => Seq::empty(),
    }
}

/// Every read in an `on` body, in order: targets' index expressions and
/// right-hand sides, conditions, `default` values, loop bounds.
pub open spec fn body_reads_of(ss: Seq<SeqStmt>) -> Seq<(Seq<char>, Span)>
    decreases ss,
{
    if ss.len() == 0 {
        Seq::empty()
    } else {
        body_reads_of(ss.drop_last()) + match ss.last() {
            SeqStmt::Assign { lhs, rhs } => lvalue_reads(lhs) + reads_of(rhs),
            SeqStmt::If { cond, then, els } => reads_of(cond) + body_reads_of(then@) + match els {
                Some(b) => body_reads_of(b@),
                None => Seq::empty(),
            },
            SeqStmt::Default { val, .. } => reads_of(val),
            SeqStmt::Loop { lo, hi, body, .. } => reads_of(lo) + reads_of(hi) + body_reads_of(body@),
            SeqStmt::ForEach { source, body, .. } => source_reads(source) + body_reads_of(body@),
            SeqStmt::Error(_) => Seq::empty(),
        }
    }
}

/// Every read in an `on` body: assignment right-hand sides, index
/// expressions of targets, conditions and loop bounds.
fn body_reads(body: &Vec<SeqStmt>, out: &mut Vec<(String, Span)>)
    ensures
        read_texts(final(out)@) == read_texts(old(out)@) + body_reads_of(body@),
    decreases body,
{
    let ghost start = read_texts(out@);
    let mut i: usize = 0;
    proof { assert(read_texts(out@) =~= start + body_reads_of(body@.subrange(0, 0))); }
    while i < body.len()
        invariant
            i <= body@.len(),
            read_texts(out@) == start + body_reads_of(body@.subrange(0, i as int)),
        decreases body@.len() - i,
    {
        let ghost mid = read_texts(out@);
        match &body[i] {
            SeqStmt::Assign { lhs, rhs } => {
                lvalue_index_reads(lhs, out);
                expr_reads(rhs, out);
                proof { assert(read_texts(out@) =~= mid + (lvalue_reads(*lhs) + reads_of(*rhs))); }
            }
            SeqStmt::If { cond, then, els } => {
                expr_reads(cond, out);
                body_reads(then, out);
                if let Some(els) = els {
                    body_reads(els, out);
                    proof { assert(read_texts(out@) =~= mid + (reads_of(*cond) + body_reads_of(then@) + body_reads_of(els@))); }
                } else {
                    proof { assert(read_texts(out@) =~= mid + (reads_of(*cond) + body_reads_of(then@) + Seq::<(Seq<char>, Span)>::empty())); }
                }
            }
            SeqStmt::Default { val, .. } => expr_reads(val, out),
            SeqStmt::Loop { lo, hi, body, .. } => {
                expr_reads(lo, out);
                expr_reads(hi, out);
                body_reads(body, out);
                proof { assert(read_texts(out@) =~= mid + (reads_of(*lo) + reads_of(*hi) + body_reads_of(body@))); }
            }
            SeqStmt::ForEach { source, body, .. } => {
                if let ForEachSource::Range { lo, hi } = source {
                    expr_reads(lo, out);
                    expr_reads(hi, out);
                }
                let ghost mid2 = read_texts(out@);
                body_reads(body, out);
                proof {
                    assert(mid2 =~= mid + source_reads(*source));
                    assert(read_texts(out@) =~= mid + (source_reads(*source) + body_reads_of(body@)));
                }
            }
            SeqStmt::Error(_) => {
                proof { assert(read_texts(out@) =~= mid + Seq::<(Seq<char>, Span)>::empty()); }
            }
        }
        proof {
            assert(body@.subrange(0, i + 1).drop_last() =~= body@.subrange(0, i as int));
            assert(read_texts(out@) =~= start + body_reads_of(body@.subrange(0, i + 1)));
        }
        i += 1;
    }
    proof { assert(body@.subrange(0, body@.len() as int) =~= body@); }
}

/// The reads in an assignment target's index or slice bounds.
fn lvalue_index_reads(lhs: &LValue, out: &mut Vec<(String, Span)>)
    ensures
        read_texts(final(out)@) == read_texts(old(out)@) + lvalue_reads(*lhs),
{
    let ghost start = read_texts(out@);
    if let Some((ix, hi)) = &lhs.index {
        expr_reads(ix, out);
        if let Some(hi) = hi {
            expr_reads(hi, out);
            proof { assert(read_texts(out@) =~= start + (reads_of(*ix) + reads_of(*hi))); }
        } else {
            proof { assert(read_texts(out@) =~= start + (reads_of(*ix) + Seq::<(Seq<char>, Span)>::empty())); }
        }
    } else {
        proof { assert(read_texts(out@) =~= start + Seq::<(Seq<char>, Span)>::empty()); }
    }
}

/// Every name an expression reads, with the span to point at, appended to
/// `out` in order. Enum variants and instance outputs contribute nothing,
/// nor do the arguments of `sync.double_flop`/`sync.pulse` (checked on
/// their own).
pub fn expr_reads(e: &Expr, out: &mut Vec<(String, Span)>)
    ensures
        read_texts(final(out)@) == read_texts(old(out)@) + reads_of(*e),
    decreases e, 0nat,
{
    let ghost start = read_texts(out@);
    match &e.kind {
        ExprKind::Ident(name) => {
            out.push((name.clone(), e.span));
            proof { assert(read_texts(out@) =~= start + seq![(name@, e.span)]); }
        }
        ExprKind::Field { .. } | ExprKind::Int { .. } | ExprKind::Bool(_) => {
            proof { assert(read_texts(out@) =~= start + Seq::<(Seq<char>, Span)>::empty()); }
        }
        ExprKind::Unary { expr, .. } => expr_reads(expr, out),
        ExprKind::Binary { lhs, rhs, .. } => {
            expr_reads(lhs, out);
            expr_reads(rhs, out);
            proof { assert(read_texts(out@) =~= start + (reads_of(**lhs) + reads_of(**rhs))); }
        }
        ExprKind::IfExpr { cond, then, els } => {
            expr_reads(cond, out);
            expr_reads(then, out);
            expr_reads(els, out);
            proof { assert(read_texts(out@) =~= start + (reads_of(**cond) + reads_of(**then) + reads_of(**els))); }
        }
        ExprKind::Match { scrutinee, arms } => {
            expr_reads(scrutinee, out);
            arms_reads(arms, out);
            proof { assert(read_texts(out@) =~= start + (reads_of(**scrutinee) + reads_of_arms(arms@))); }
        }
        ExprKind::Concat(parts) | ExprKind::ArrayLit(parts) => all_reads(parts, out),
        ExprKind::Replicate { count, parts } => {
            expr_reads(count, out);
            all_reads(parts, out);
            proof { assert(read_texts(out@) =~= start + (reads_of(**count) + reads_of_all(parts@))); }
        }
        ExprKind::Index { base, index } => {
            expr_reads(base, out);
            expr_reads(index, out);
            proof { assert(read_texts(out@) =~= start + (reads_of(**base) + reads_of(**index))); }
        }
        ExprKind::Slice { base, hi, lo } => {
            expr_reads(base, out);
            expr_reads(hi, out);
            expr_reads(lo, out);
            proof { assert(read_texts(out@) =~= start + (reads_of(**base) + reads_of(**hi) + reads_of(**lo))); }
        }
        ExprKind::Call { func, args } => {
            if *func != Builtin::SyncDoubleFlop && *func != Builtin::SyncPulse {
                all_reads(args, out);
            } else {
                proof { assert(read_texts(out@) =~= start + Seq::<(Seq<char>, Span)>::empty()); }
            }
        }
        ExprKind::FnCall { args, .. } | ExprKind::EnumConstruct { args, .. } => all_reads(args, out),
        ExprKind::BundleLit(inits) => inits_reads(inits, out),
    }
}

/// [`expr_reads`] over each expression of a list, in order.
fn all_reads(es: &Vec<Expr>, out: &mut Vec<(String, Span)>)
    ensures
        read_texts(final(out)@) == read_texts(old(out)@) + reads_of_all(es@),
    decreases es, 1nat,
{
    let ghost start = read_texts(out@);
    let mut i: usize = 0;
    proof { assert(read_texts(out@) =~= start + reads_of_all(es@.subrange(0, 0))); }
    while i < es.len()
        invariant
            i <= es@.len(),
            read_texts(out@) == start + reads_of_all(es@.subrange(0, i as int)),
        decreases es@.len() - i,
    {
        expr_reads(&es[i], out);
        proof {
            assert(es@.subrange(0, i + 1).drop_last() =~= es@.subrange(0, i as int));
            assert(read_texts(out@) =~= start + reads_of_all(es@.subrange(0, i + 1)));
        }
        i += 1;
    }
    proof { assert(es@.subrange(0, es@.len() as int) =~= es@); }
}

/// [`expr_reads`] over each arm's value, in order.
fn arms_reads(arms: &Vec<crate::ast::Arm>, out: &mut Vec<(String, Span)>)
    ensures
        read_texts(final(out)@) == read_texts(old(out)@) + reads_of_arms(arms@),
    decreases arms, 1nat,
{
    let ghost start = read_texts(out@);
    let mut i: usize = 0;
    proof { assert(read_texts(out@) =~= start + reads_of_arms(arms@.subrange(0, 0))); }
    while i < arms.len()
        invariant
            i <= arms@.len(),
            read_texts(out@) == start + reads_of_arms(arms@.subrange(0, i as int)),
        decreases arms@.len() - i,
    {
        expr_reads(&arms[i].value, out);
        proof {
            assert(arms@.subrange(0, i + 1).drop_last() =~= arms@.subrange(0, i as int));
            assert(read_texts(out@) =~= start + reads_of_arms(arms@.subrange(0, i + 1)));
        }
        i += 1;
    }
    proof { assert(arms@.subrange(0, arms@.len() as int) =~= arms@); }
}

/// [`expr_reads`] over each field initializer's value, in order.
fn inits_reads(fs: &Vec<crate::ast::FieldInit>, out: &mut Vec<(String, Span)>)
    ensures
        read_texts(final(out)@) == read_texts(old(out)@) + reads_of_inits(fs@),
    decreases fs, 1nat,
{
    let ghost start = read_texts(out@);
    let mut i: usize = 0;
    proof { assert(read_texts(out@) =~= start + reads_of_inits(fs@.subrange(0, 0))); }
    while i < fs.len()
        invariant
            i <= fs@.len(),
            read_texts(out@) == start + reads_of_inits(fs@.subrange(0, i as int)),
        decreases fs@.len() - i,
    {
        expr_reads(&fs[i].value, out);
        proof {
            assert(fs@.subrange(0, i + 1).drop_last() =~= fs@.subrange(0, i as int));
            assert(read_texts(out@) =~= start + reads_of_inits(fs@.subrange(0, i + 1)));
        }
        i += 1;
    }
    proof { assert(fs@.subrange(0, fs@.len() as int) =~= fs@); }
}

/// Whether a builtin is one of the synchronizer primitives.
pub open spec fn is_sync_prim(f: Builtin) -> bool {
    f == Builtin::SyncDoubleFlop || f == Builtin::SyncPulse
}

/// The spans of every `sync.double_flop` / `sync.pulse` call in an
/// expression, in walk order (a call before its arguments).
pub open spec fn sync_spans(e: Expr) -> Seq<Span>
    decreases e,
{
    match e.kind {
        ExprKind::Call { func, args } => (if is_sync_prim(func) { seq![e.span] } else { Seq::empty() })
            + sync_spans_all(args@),
        ExprKind::Ident(_) | ExprKind::Field { .. } | ExprKind::Int { .. } | ExprKind::Bool(_) => Seq::empty(),
        ExprKind::Unary { expr, .. } => sync_spans(*expr),
        ExprKind::Binary { lhs, rhs, .. } => sync_spans(*lhs) + sync_spans(*rhs),
        ExprKind::IfExpr { cond, then, els } => sync_spans(*cond) + sync_spans(*then) + sync_spans(*els),
        ExprKind::Match { scrutinee, arms } => sync_spans(*scrutinee) + sync_spans_arms(arms@),
        ExprKind::Concat(parts) | ExprKind::ArrayLit(parts) => sync_spans_all(parts@),
        ExprKind::Replicate { count, parts } => sync_spans(*count) + sync_spans_all(parts@),
        ExprKind::Index { base, index } => sync_spans(*base) + sync_spans(*index),
        ExprKind::Slice { base, hi, lo } => sync_spans(*base) + sync_spans(*hi) + sync_spans(*lo),
        ExprKind::FnCall { args, .. } | ExprKind::EnumConstruct { args, .. } => sync_spans_all(args@),
        ExprKind::BundleLit(inits) => sync_spans_inits(inits@),
    }
}

/// Sync call spans of a list of expressions, in order.
pub open spec fn sync_spans_all(es: Seq<Expr>) -> Seq<Span>
    decreases es,
{
    if es.len() == 0 { Seq::empty() } else { sync_spans_all(es.drop_last()) + sync_spans(es.last()) }
}

/// Sync call spans of match arms' values, in order.
pub open spec fn sync_spans_arms(arms: Seq<crate::ast::Arm>) -> Seq<Span>
    decreases arms,
{
    if arms.len() == 0 { Seq::empty() } else { sync_spans_arms(arms.drop_last()) + sync_spans(arms.last().value) }
}

/// Sync call spans of field initializers, in order.
pub open spec fn sync_spans_inits(fs: Seq<crate::ast::FieldInit>) -> Seq<Span>
    decreases fs,
{
    if fs.len() == 0 { Seq::empty() } else { sync_spans_inits(fs.drop_last()) + sync_spans(fs.last().value) }
}

/// Sync call spans of a statement, in order.
pub open spec fn sync_spans_stmt(s: SeqStmt) -> Seq<Span>
    decreases s,
{
    match s {
        SeqStmt::Assign { lhs, rhs } => sync_spans_lvalue(lhs) + sync_spans(rhs),
        SeqStmt::If { cond, then, els } => sync_spans(cond) + sync_spans_stmts(then@) + match els {
            Some(b) => sync_spans_stmts(b@),
            None => Seq::empty(),
        },
        SeqStmt::Default { val, .. } => sync_spans(val),
        SeqStmt::Loop { lo, hi, body, .. } => sync_spans(lo) + sync_spans(hi) + sync_spans_stmts(body@),
        SeqStmt::ForEach { source, body, .. } => sync_spans_source(source) + sync_spans_stmts(body@),
        SeqStmt::Error(_) => Seq::empty(),
    }
}

/// Sync call spans of an assignment target's index expressions.
pub open spec fn sync_spans_lvalue(lv: LValue) -> Seq<Span> {
    match lv.index {
        Some((i, hi)) => sync_spans(i) + sync_spans_opt(hi),
        None => Seq::empty(),
    }
}

/// Sync call spans of a `foreach` source's bounds.
pub open spec fn sync_spans_source(src: ForEachSource) -> Seq<Span> {
    match src {
        ForEachSource::Range { lo, hi } => sync_spans(lo) + sync_spans(hi),
        ForEachSource::Elements(_) => Seq::empty(),
    }
}

/// Sync call spans of a type's width, length and argument expressions.
pub open spec fn sync_spans_type(t: Type) -> Seq<Span>
    decreases t,
{
    match t {
        Type::Bits(w) | Type::Signed(w) => sync_spans(*w),
        Type::Bundle { args, .. } => sync_spans_args(args@),
        Type::Array { elem, len } => sync_spans_type(*elem) + sync_spans(*len),
        _ => Seq::empty(),
    }
}

/// Sync call spans of a statement list, in order.
pub open spec fn sync_spans_stmts(ss: Seq<SeqStmt>) -> Seq<Span>
    decreases ss,
{
    if ss.len() == 0 { Seq::empty() } else { sync_spans_stmts(ss.drop_last()) + sync_spans_stmt(ss.last()) }
}

/// Sync call spans of an optional expression.
pub open spec fn sync_spans_opt(e: Option<Expr>) -> Seq<Span> {
    match e {
        Some(x) => sync_spans(x),
        None => Seq::empty(),
    }
}

/// Sync call spans of instance arguments, in order.
pub open spec fn sync_spans_args(args: Seq<crate::ast::NamedArg>) -> Seq<Span>
    decreases args,
{
    if args.len() == 0 { Seq::empty() } else { sync_spans_args(args.drop_last()) + sync_spans(args.last().value) }
}

/// Sync call spans of instance connections, in order.
pub open spec fn sync_spans_conns(cs: Seq<crate::ast::Conn>) -> Seq<Span>
    decreases cs,
{
    if cs.len() == 0 { Seq::empty() } else { sync_spans_conns(cs.drop_last()) + sync_spans(cs.last().signal) }
}

/// Sync call spans of a module item, in order: every field that holds an
/// expression (types' widths included), with `repeat`, `foreach`,
/// `const if` and sync loop bounds and bodies walked.
pub open spec fn sync_spans_item(item: ModuleItem) -> Seq<Span>
    decreases item,
{
    match item {
        ModuleItem::Port { ty, .. } => sync_spans_type(ty),
        ModuleItem::Wire { ty, init, .. } => sync_spans_type(ty) + sync_spans(init),
        ModuleItem::Reg { ty, reset, .. } => sync_spans_type(ty) + sync_spans(reset),
        ModuleItem::Mem { ty, depth, init, .. } => sync_spans_type(ty) + sync_spans(depth) + sync_spans(init),
        ModuleItem::Const(c) => sync_spans(c.value),
        ModuleItem::Inst(inst) => sync_spans_opt(inst.index) + sync_spans_args(inst.args@) + sync_spans_conns(inst.conns@),
        ModuleItem::BundleDestructure { expr, .. } => sync_spans(expr),
        ModuleItem::Drive { lhs, rhs } => sync_spans_lvalue(lhs) + sync_spans(rhs),
        ModuleItem::On(on) => sync_spans_stmts(on.body@),
        ModuleItem::Repeat(r) => sync_spans(r.lo) + sync_spans(r.hi) + sync_spans_items(r.items@),
        ModuleItem::ConstIf { cond, then, els, .. } => sync_spans(cond) + sync_spans_items(then@) + match els {
            Some(e) => sync_spans_items(e@),
            None => Seq::empty(),
        },
        ModuleItem::ForEach(fe) => sync_spans_source(fe.source) + sync_spans_items(fe.items@),
        ModuleItem::SyncLoop(sl) => sync_spans(sl.lo) + sync_spans(sl.hi) + sync_spans_type(sl.result_ty)
            + sync_spans(sl.result_init) + sync_spans_stmts(sl.body@),
        _ => Seq::empty(),
    }
}

/// Sync call spans of module items, in order.
pub open spec fn sync_spans_items(items: Seq<ModuleItem>) -> Seq<Span>
    decreases items,
{
    if items.len() == 0 { Seq::empty() } else { sync_spans_items(items.drop_last()) + sync_spans_item(items.last()) }
}

/// Item `i` of `items` is an `on` block that reads `n`, a reg whose
/// owner (the first block, or sync loop, to claim it) runs on another
/// clock.
pub open spec fn foreign_read(items: Seq<ModuleItem>, i: int, n: Seq<char>) -> bool {
    &&& 0 <= i < items.len()
    &&& items[i] is On
    &&& exists|q: int| 0 <= q < body_reads_of(items[i]->On_0.body@).len()
        && #[trigger] body_reads_of(items[i]->On_0.body@)[q].0 == n
    &&& owner_of(owner_claims(items), n) matches Some(c) && c != items[i]->On_0.clock.name@
}

/// Some read of `n` in the `on` block at item `i` of `items` carries E0701.
pub open spec fn foreign_read_flagged(ds: Seq<crate::diag::Diag>, items: Seq<ModuleItem>, i: int, n: Seq<char>) -> bool {
    exists|q: int| 0 <= q < body_reads_of(items[i]->On_0.body@).len()
        && #[trigger] body_reads_of(items[i]->On_0.body@)[q].0 == n
        && flagged(ds, "E0701"@, body_reads_of(items[i]->On_0.body@)[q].1)
}

/// Item `j` of file `f` is a module with two or more clocks whose item
/// `i` reads `n` across clock domains.
pub open spec fn cross_clock_read(files: Seq<crate::ast::File>, f: int, j: int, i: int, n: Seq<char>) -> bool {
    &&& 0 <= f < files.len()
    &&& 0 <= j < files[f].items@.len()
    &&& files[f].items@[j] is Module
    &&& clock_total(files[f].items@[j]->Module_0.items@) >= 2
    &&& foreign_read(files[f].items@[j]->Module_0.items@, i, n)
}

/// Item `j` of file `f` is a module with two or more clocks holding a
/// misplaced sync primitive call at `sp`.
pub open spec fn misplaced_at(files: Seq<crate::ast::File>, f: int, j: int, sp: Span) -> bool {
    &&& 0 <= f < files.len()
    &&& 0 <= j < files[f].items@.len()
    &&& files[f].items@[j] is Module
    &&& clock_total(files[f].items@[j]->Module_0.items@) >= 2
    &&& misplaced(files[f].items@[j]->Module_0.items@, sp)
}

/// Some module of the project with two or more clocks holds a misplaced
/// sync primitive call at `sp`.
pub open spec fn misplaced_in(files: Seq<crate::ast::File>, sp: Span) -> bool {
    exists|f: int, j: int| #[trigger] misplaced_at(files, f, j, sp)
}

/// A sync primitive call at `sp` among `items`, in none of the positions
/// it may sit in.
pub open spec fn misplaced(items: Seq<ModuleItem>, sp: Span) -> bool {
    sync_spans_items(items).contains(sp) && !legal_spans(items).contains(sp)
}

/// The positions a `sync.double_flop` may sit in within a block: the
/// direct right-hand side of an assignment.
pub open spec fn legal_in_block(ss: Seq<SeqStmt>) -> Seq<Span>
    decreases ss,
{
    if ss.len() == 0 {
        Seq::empty()
    } else {
        legal_in_block(ss.drop_last()) + match ss.last() {
            SeqStmt::Assign { rhs, .. } => match rhs.kind {
                ExprKind::Call { func, .. } => if func == Builtin::SyncDoubleFlop { seq![rhs.span] } else { Seq::empty() },
                _ => Seq::empty(),
            },
            _ => Seq::empty(),
        }
    }
}

/// The positions a sync primitive call may sit in among a module's own
/// items: a `double_flop` as the direct right-hand side of an assignment
/// in an `on` block, a `pulse` as a wire's direct initializer.
pub open spec fn legal_spans(items: Seq<ModuleItem>) -> Seq<Span>
    decreases items,
{
    if items.len() == 0 {
        Seq::empty()
    } else {
        legal_spans(items.drop_last()) + match items.last() {
            ModuleItem::On(on) => legal_in_block(on.body@),
            ModuleItem::Wire { init, .. } => match init.kind {
                ExprKind::Call { func, .. } => if func == Builtin::SyncPulse { seq![init.span] } else { Seq::empty() },
                _ => Seq::empty(),
            },
            _ => Seq::empty(),
        }
    }
}

/// Every `sync.double_flop`/`sync.pulse` call in an expression.
fn sync_calls_in_expr(e: &Expr, out: &mut Vec<Span>)
    ensures
        final(out)@ == old(out)@ + sync_spans(*e),
    decreases e, 0nat,
{
    let ghost start = out@;
    match &e.kind {
        ExprKind::Call { func, args } => {
            if *func == Builtin::SyncDoubleFlop || *func == Builtin::SyncPulse {
                out.push(e.span);
            }
            sync_calls_in_exprs(args, out);
        }
        ExprKind::Ident(_) | ExprKind::Field { .. } | ExprKind::Int { .. } | ExprKind::Bool(_) => {}
        ExprKind::Unary { expr, .. } => sync_calls_in_expr(expr, out),
        ExprKind::Binary { lhs, rhs, .. } => {
            sync_calls_in_expr(lhs, out);
            sync_calls_in_expr(rhs, out);
        }
        ExprKind::IfExpr { cond, then, els } => {
            sync_calls_in_expr(cond, out);
            sync_calls_in_expr(then, out);
            sync_calls_in_expr(els, out);
        }
        ExprKind::Match { scrutinee, arms } => {
            sync_calls_in_expr(scrutinee, out);
            sync_calls_in_arms(arms, out);
        }
        ExprKind::Concat(parts) | ExprKind::ArrayLit(parts) => sync_calls_in_exprs(parts, out),
        ExprKind::Replicate { count, parts } => {
            sync_calls_in_expr(count, out);
            sync_calls_in_exprs(parts, out);
        }
        ExprKind::Index { base, index } => {
            sync_calls_in_expr(base, out);
            sync_calls_in_expr(index, out);
        }
        ExprKind::Slice { base, hi, lo } => {
            sync_calls_in_expr(base, out);
            sync_calls_in_expr(hi, out);
            sync_calls_in_expr(lo, out);
        }
        ExprKind::FnCall { args, .. } | ExprKind::EnumConstruct { args, .. } => sync_calls_in_exprs(args, out),
        ExprKind::BundleLit(inits) => sync_calls_in_inits(inits, out),
    }
    proof {
        assert(out@ =~= start + sync_spans(*e));
    }
}

/// Every sync call in a list of expressions.
fn sync_calls_in_exprs(es: &Vec<Expr>, out: &mut Vec<Span>)
    ensures
        final(out)@ == old(out)@ + sync_spans_all(es@),
    decreases es, 1nat,
{
    let ghost start = out@;
    let mut k: usize = 0;
    proof { assert(out@ =~= start + sync_spans_all(es@.subrange(0, 0))); }
    while k < es.len()
        invariant
            k <= es@.len(),
            out@ == start + sync_spans_all(es@.subrange(0, k as int)),
        decreases es@.len() - k,
    {
        sync_calls_in_expr(&es[k], out);
        proof {
            assert(es@.subrange(0, k + 1).drop_last() =~= es@.subrange(0, k as int));
            assert(out@ =~= start + sync_spans_all(es@.subrange(0, k + 1)));
        }
        k += 1;
    }
    proof { assert(es@.subrange(0, es@.len() as int) =~= es@); }
}

/// Every sync call in match arms' values.
fn sync_calls_in_arms(arms: &Vec<crate::ast::Arm>, out: &mut Vec<Span>)
    ensures
        final(out)@ == old(out)@ + sync_spans_arms(arms@),
    decreases arms, 1nat,
{
    let ghost start = out@;
    let mut k: usize = 0;
    proof { assert(out@ =~= start + sync_spans_arms(arms@.subrange(0, 0))); }
    while k < arms.len()
        invariant
            k <= arms@.len(),
            out@ == start + sync_spans_arms(arms@.subrange(0, k as int)),
        decreases arms@.len() - k,
    {
        sync_calls_in_expr(&arms[k].value, out);
        proof {
            assert(arms@.subrange(0, k + 1).drop_last() =~= arms@.subrange(0, k as int));
            assert(out@ =~= start + sync_spans_arms(arms@.subrange(0, k + 1)));
        }
        k += 1;
    }
    proof { assert(arms@.subrange(0, arms@.len() as int) =~= arms@); }
}

/// Every sync call in field initializers.
fn sync_calls_in_inits(fs: &Vec<crate::ast::FieldInit>, out: &mut Vec<Span>)
    ensures
        final(out)@ == old(out)@ + sync_spans_inits(fs@),
    decreases fs, 1nat,
{
    let ghost start = out@;
    let mut k: usize = 0;
    proof { assert(out@ =~= start + sync_spans_inits(fs@.subrange(0, 0))); }
    while k < fs.len()
        invariant
            k <= fs@.len(),
            out@ == start + sync_spans_inits(fs@.subrange(0, k as int)),
        decreases fs@.len() - k,
    {
        sync_calls_in_expr(&fs[k].value, out);
        proof {
            assert(fs@.subrange(0, k + 1).drop_last() =~= fs@.subrange(0, k as int));
            assert(out@ =~= start + sync_spans_inits(fs@.subrange(0, k + 1)));
        }
        k += 1;
    }
    proof { assert(fs@.subrange(0, fs@.len() as int) =~= fs@); }
}

/// Every sync call in one statement.
fn sync_calls_in_stmt(s: &SeqStmt, out: &mut Vec<Span>)
    ensures
        final(out)@ == old(out)@ + sync_spans_stmt(*s),
    decreases s, 0nat,
{
    let ghost start = out@;
    match s {
        SeqStmt::Assign { lhs, rhs } => {
            sync_calls_in_lvalue(lhs, out);
            sync_calls_in_expr(rhs, out);
        }
        SeqStmt::If { cond, then, els } => {
            sync_calls_in_expr(cond, out);
            sync_calls_in_stmts(then, out);
            if let Some(els) = els {
                sync_calls_in_stmts(els, out);
            }
        }
        SeqStmt::Default { val, .. } => sync_calls_in_expr(val, out),
        SeqStmt::Loop { lo, hi, body, .. } => {
            sync_calls_in_expr(lo, out);
            sync_calls_in_expr(hi, out);
            sync_calls_in_stmts(body, out);
        }
        SeqStmt::ForEach { source, body, .. } => {
            sync_calls_in_source(source, out);
            sync_calls_in_stmts(body, out);
        }
        SeqStmt::Error(_) => {}
    }
    proof { assert(out@ =~= start + sync_spans_stmt(*s)); }
}

/// Every sync call in an assignment target's index expressions.
fn sync_calls_in_lvalue(lv: &LValue, out: &mut Vec<Span>)
    ensures
        final(out)@ == old(out)@ + sync_spans_lvalue(*lv),
{
    let ghost start = out@;
    if let Some((i, hi)) = &lv.index {
        sync_calls_in_expr(i, out);
        if let Some(h) = hi {
            sync_calls_in_expr(h, out);
        }
    }
    proof { assert(out@ =~= start + sync_spans_lvalue(*lv)); }
}

/// Every sync call in a `foreach` source's bounds.
fn sync_calls_in_source(src: &ForEachSource, out: &mut Vec<Span>)
    ensures
        final(out)@ == old(out)@ + sync_spans_source(*src),
{
    let ghost start = out@;
    if let ForEachSource::Range { lo, hi } = src {
        sync_calls_in_expr(lo, out);
        sync_calls_in_expr(hi, out);
    }
    proof { assert(out@ =~= start + sync_spans_source(*src)); }
}

/// Every sync call in named arguments' values.
fn sync_calls_in_args(args: &Vec<crate::ast::NamedArg>, out: &mut Vec<Span>)
    ensures
        final(out)@ == old(out)@ + sync_spans_args(args@),
{
    let ghost mid = out@;
    let mut k: usize = 0;
    proof { assert(out@ =~= mid + sync_spans_args(args@.subrange(0, 0))); }
    while k < args.len()
        invariant
            k <= args@.len(),
            out@ == mid + sync_spans_args(args@.subrange(0, k as int)),
        decreases args@.len() - k,
    {
        sync_calls_in_expr(&args[k].value, out);
        proof {
            assert(args@.subrange(0, k + 1).drop_last() =~= args@.subrange(0, k as int));
            assert(out@ =~= mid + sync_spans_args(args@.subrange(0, k + 1)));
        }
        k += 1;
    }
    proof { assert(args@.subrange(0, args@.len() as int) =~= args@); }
}

/// Every sync call in a type's expressions.
fn sync_calls_in_type(t: &Type, out: &mut Vec<Span>)
    ensures
        final(out)@ == old(out)@ + sync_spans_type(*t),
    decreases t,
{
    let ghost start = out@;
    match t {
        Type::Bits(w) | Type::Signed(w) => sync_calls_in_expr(w, out),
        Type::Bundle { args, .. } => sync_calls_in_args(args, out),
        Type::Array { elem, len } => {
            sync_calls_in_type(elem, out);
            sync_calls_in_expr(len, out);
        }
        _ => {}
    }
    proof { assert(out@ =~= start + sync_spans_type(*t)); }
}

/// Every sync call in `on`-block statements.
fn sync_calls_in_stmts(body: &Vec<SeqStmt>, out: &mut Vec<Span>)
    ensures
        final(out)@ == old(out)@ + sync_spans_stmts(body@),
    decreases body, 1nat,
{
    let ghost start = out@;
    let mut k: usize = 0;
    proof { assert(out@ =~= start + sync_spans_stmts(body@.subrange(0, 0))); }
    while k < body.len()
        invariant
            k <= body@.len(),
            out@ == start + sync_spans_stmts(body@.subrange(0, k as int)),
        decreases body@.len() - k,
    {
        sync_calls_in_stmt(&body[k], out);
        proof {
            assert(body@.subrange(0, k + 1).drop_last() =~= body@.subrange(0, k as int));
            assert(out@ =~= start + sync_spans_stmts(body@.subrange(0, k + 1)));
        }
        k += 1;
    }
    proof { assert(body@.subrange(0, body@.len() as int) =~= body@); }
}

/// Every sync call in one module item.
fn sync_calls_in_item(item: &ModuleItem, out: &mut Vec<Span>)
    ensures
        final(out)@ == old(out)@ + sync_spans_item(*item),
    decreases item, 0nat,
{
    let ghost start = out@;
    match item {
        ModuleItem::Clock(_) | ModuleItem::Reset { .. } | ModuleItem::Enum(_) | ModuleItem::Error(_) => {}
        ModuleItem::Port { ty, .. } => sync_calls_in_type(ty, out),
        ModuleItem::Wire { ty, init, .. } => {
            sync_calls_in_type(ty, out);
            sync_calls_in_expr(init, out);
        }
        ModuleItem::Reg { ty, reset, .. } => {
            sync_calls_in_type(ty, out);
            sync_calls_in_expr(reset, out);
        }
        ModuleItem::Mem { ty, depth, init, .. } => {
            sync_calls_in_type(ty, out);
            sync_calls_in_expr(depth, out);
            sync_calls_in_expr(init, out);
        }
        ModuleItem::Const(c) => sync_calls_in_expr(&c.value, out),
        ModuleItem::Inst(inst) => {
            if let Some(idx) = &inst.index {
                sync_calls_in_expr(idx, out);
            }
            sync_calls_in_args(&inst.args, out);
            let ghost mid2 = out@;
            let mut k: usize = 0;
            proof { assert(out@ =~= mid2 + sync_spans_conns(inst.conns@.subrange(0, 0))); }
            while k < inst.conns.len()
                invariant
                    k <= inst.conns@.len(),
                    out@ == mid2 + sync_spans_conns(inst.conns@.subrange(0, k as int)),
                decreases inst.conns@.len() - k,
            {
                sync_calls_in_expr(&inst.conns[k].signal, out);
                proof {
                    assert(inst.conns@.subrange(0, k + 1).drop_last() =~= inst.conns@.subrange(0, k as int));
                    assert(out@ =~= mid2 + sync_spans_conns(inst.conns@.subrange(0, k + 1)));
                }
                k += 1;
            }
            proof { assert(inst.conns@.subrange(0, inst.conns@.len() as int) =~= inst.conns@); }
        }
        ModuleItem::BundleDestructure { expr, .. } => sync_calls_in_expr(expr, out),
        ModuleItem::Drive { lhs, rhs } => {
            sync_calls_in_lvalue(lhs, out);
            sync_calls_in_expr(rhs, out);
        }
        ModuleItem::On(on) => sync_calls_in_stmts(&on.body, out),
        ModuleItem::Repeat(r) => {
            sync_calls_in_expr(&r.lo, out);
            sync_calls_in_expr(&r.hi, out);
            collect_all_sync_prim_calls(&r.items, out);
        }
        ModuleItem::ConstIf { cond, then, els, .. } => {
            sync_calls_in_expr(cond, out);
            collect_all_sync_prim_calls(then, out);
            if let Some(e) = els {
                collect_all_sync_prim_calls(e, out);
            }
        }
        ModuleItem::ForEach(fe) => {
            sync_calls_in_source(&fe.source, out);
            collect_all_sync_prim_calls(&fe.items, out);
        }
        ModuleItem::SyncLoop(sl) => {
            sync_calls_in_expr(&sl.lo, out);
            sync_calls_in_expr(&sl.hi, out);
            sync_calls_in_type(&sl.result_ty, out);
            sync_calls_in_expr(&sl.result_init, out);
            sync_calls_in_stmts(&sl.body, out);
        }
    }
    proof { assert(out@ =~= start + sync_spans_item(*item)); }
}

/// Every `sync.double_flop`/`sync.pulse` call anywhere in `items`, in
/// walk order, appended to `out`.
pub fn collect_all_sync_prim_calls(items: &Vec<ModuleItem>, out: &mut Vec<Span>)
    ensures
        final(out)@ == old(out)@ + sync_spans_items(items@),
    decreases items, 1nat,
{
    let ghost start = out@;
    let mut i: usize = 0;
    proof { assert(out@ =~= start + sync_spans_items(items@.subrange(0, 0))); }
    while i < items.len()
        invariant
            i <= items@.len(),
            out@ == start + sync_spans_items(items@.subrange(0, i as int)),
        decreases items@.len() - i,
    {
        sync_calls_in_item(&items[i], out);
        proof {
            assert(items@.subrange(0, i + 1).drop_last() =~= items@.subrange(0, i as int));
            assert(out@ =~= start + sync_spans_items(items@.subrange(0, i + 1)));
        }
        i += 1;
    }
    proof { assert(items@.subrange(0, items@.len() as int) =~= items@); }
}

/// Domain set of a wire/output: the union over everything its driving
/// expressions read, memoized. A name met again while its own set is in
/// progress (a combinational cycle) contributes nothing. `fuel` bounds
/// the depth; each level marks a new name in progress, so one more than
/// the number of declared names always suffices.
#[verifier::loop_isolation(false)]
fn domains_of(cx: &mut Ccx, name: &String, fuel: usize) -> (r: Vec<String>)
    requires
        memo_ok(*old(cx)),
    ensures
        final(cx).reg_clock == old(cx).reg_clock,
        memo_ok(*final(cx)),
        domain_set(old(cx).reg_clock@, r@),
        forall|k: int| #[trigger] first_key(old(cx).domains@, k, name@) ==> match old(cx).domains@[k].1 {
            Some(d) => r@ == d@,
            None => r@.len() == 0,
        },
        fuel == 0 && (forall|j: int| 0 <= j < old(cx).domains@.len() ==> #[trigger] old(cx).domains@[j].0@ != name@)
            ==> r@.len() == 0,
        keys_kept(old(cx).domains@, final(cx).domains@),
        fuel > 0 && (forall|j: int| 0 <= j < old(cx).domains@.len() ==> #[trigger] old(cx).domains@[j].0@ != name@)
            ==> first_key(final(cx).domains@, old(cx).domains@.len() as int, name@)
                && final(cx).domains@[old(cx).domains@.len() as int].1 is Some
                && final(cx).domains@[old(cx).domains@.len() as int].1->Some_0@ == r@,
    decreases fuel,
{
    match assoc_index(&cx.domains, name) {
        Some(k) => {
            proof {
                assert forall|k2: int| #[trigger] first_key(cx.domains@, k2, name@) implies k2 == k by {
                    if k2 > k {
                        assert(cx.domains@[k as int].0@ == name@);
                    }
                }
            }
            return match &cx.domains[k].1 {
                Some(d) => {
                    let c = d.clone();
                    proof {
                        assert(c@ =~= d@);
                    }
                    c
                }
                None => Vec::new(),
            };
        }
        None => {}
    }
    if fuel == 0 {
        return Vec::new();
    }
    let ghost d0 = cx.domains@;
    cx.domains.push((name.clone(), None));
    let ghost d1 = cx.domains@;
    proof {
        assert forall|j: int| 0 <= j < d0.len() implies #[trigger] d1[j].0@ == d0[j].0@ by {}
    }
    let mut acc: Vec<String> = Vec::new();
    let exprs: Vec<&Expr> = match assoc_index(&cx.drives, name) {
        Some(k) => cx.drives[k].1.clone(),
        None => Vec::new(),
    };
    let mut e: usize = 0;
    while e < exprs.len()
        invariant
            cx.reg_clock == old(cx).reg_clock,
            memo_ok(*cx),
            domain_set(old(cx).reg_clock@, acc@),
            keys_kept(d1, cx.domains@),
        decreases exprs@.len() - e,
    {
        let mut reads: Vec<(String, Span)> = Vec::new();
        expr_reads(exprs[e], &mut reads);
        let mut r: usize = 0;
        while r < reads.len()
            invariant
                cx.reg_clock == old(cx).reg_clock,
                memo_ok(*cx),
                domain_set(old(cx).reg_clock@, acc@),
                keys_kept(d1, cx.domains@),
            decreases reads@.len() - r,
        {
            let read = &reads[r].0;
            match assoc_index(&cx.reg_clock, read) {
                Some(k) => {
                    let clk = cx.reg_clock[k].1.clone();
                    proof { lemma_set_add_clock(cx.reg_clock@, acc@, clk, k as int); }
                    set_add(&mut acc, &clk);
                }
                None => {
                    if assoc_index(&cx.decl_spans, read).is_some() {
                        let sub = domains_of(cx, read, fuel - 1);
                        let mut q: usize = 0;
                        while q < sub.len()
                            invariant
                                cx.reg_clock == old(cx).reg_clock,
                                memo_ok(*cx),
                                keys_kept(d1, cx.domains@),
                                domain_set(old(cx).reg_clock@, acc@),
                                domain_set(old(cx).reg_clock@, sub@),
                            decreases sub@.len() - q,
                        {
                            proof {
                                let j = choose|j: int| 0 <= j < old(cx).reg_clock@.len() && #[trigger] old(cx).reg_clock@[j].1@ == sub@[q as int]@;
                                lemma_set_add_clock(old(cx).reg_clock@, acc@, sub@[q as int], j);
                            }
                            set_add(&mut acc, &sub[q]);
                            q += 1;
                        }
                    }
                }
            }
            r += 1;
        }
        e += 1;
    }
    let stored = acc.clone();
    proof { assert(stored@ =~= acc@); }
    let ghost d2 = cx.domains@;
    proof {
        assert(d2[d0.len() as int].0@ == name@);
    }
    match assoc_index(&cx.domains, name) {
        Some(k) => {
            proof {
                if (forall|j: int| 0 <= j < d0.len() ==> #[trigger] d0[j].0@ != name@) {
                    if k < d0.len() {
                        assert(d2[k as int].0@ == d0[k as int].0@);
                    }
                    assert(k as int == d0.len());
                }
            }
            cx.domains.set(k, (name.clone(), Some(stored)));
        }
        None => cx.domains.push((name.clone(), Some(stored))),
    }
    proof {
        assert forall|j: int| 0 <= j < d0.len() implies #[trigger] cx.domains@[j].0@ == d0[j].0@ by {
            assert(d2[j].0@ == d0[j].0@);
        }
        if (forall|j: int| 0 <= j < d0.len() ==> #[trigger] d0[j].0@ != name@) {
            assert forall|j: int| 0 <= j < d0.len() as int implies #[trigger] cx.domains@[j].0@ != name@ by {
                assert(cx.domains@[j].0@ == d0[j].0@);
            }
        }
    }
    acc
}

/// The entries of `a` keep their keys, in place, in `b`.
pub open spec fn keys_kept<T>(a: Seq<(String, T)>, b: Seq<(String, T)>) -> bool {
    &&& a.len() <= b.len()
    &&& forall|j: int| 0 <= j < a.len() ==> #[trigger] b[j].0@ == a[j].0@
}

/// `d` holds clocks of regs in `rc`, none twice.
pub open spec fn domain_set(rc: Seq<(String, String)>, d: Seq<String>) -> bool {
    &&& forall|q: int| 0 <= q < d.len() ==> exists|j: int| 0 <= j < rc.len() && #[trigger] rc[j].1@ == (#[trigger] d[q])@
    &&& forall|p: int, q: int| 0 <= p < q < d.len() ==> (#[trigger] d[p])@ != (#[trigger] d[q])@
}

/// Every finished memo entry is a domain set.
pub open spec fn memo_ok(cx: Ccx) -> bool {
    forall|k: int| 0 <= k < cx.domains@.len() ==> match #[trigger] cx.domains@[k].1 {
        Some(d) => domain_set(cx.reg_clock@, d@),
        None => true,
    }
}

/// Adding a reg's clock to a domain set keeps it one.
proof fn lemma_set_add_clock(rc: Seq<(String, String)>, d: Seq<String>, c: String, j: int)
    requires
        domain_set(rc, d),
        0 <= j < rc.len(),
        rc[j].1@ == c@,
    ensures
        !(exists|k: int| 0 <= k < d.len() && #[trigger] d[k]@ == c@) ==> domain_set(rc, d.push(c)),
{
    if !(exists|k: int| 0 <= k < d.len() && #[trigger] d[k]@ == c@) {
        let e = d.push(c);
        assert forall|q: int| 0 <= q < e.len() implies exists|j2: int| 0 <= j2 < rc.len() && #[trigger] rc[j2].1@ == (#[trigger] e[q])@ by {
            if q < d.len() {
                assert(e[q] == d[q]);
            } else {
                assert(rc[j].1@ == e[q]@);
            }
        }
        assert forall|p: int, q: int| 0 <= p < q < e.len() implies (#[trigger] e[p])@ != (#[trigger] e[q])@ by {
            if q < d.len() {
                assert(e[p] == d[p] && e[q] == d[q]);
            } else {
                assert(e[p] == d[p]);
            }
        }
    }
}

/// Domain set of any name: a reg's owning clock, a wire's or output's
/// computed set, nothing for anything else.
fn domains_of_any(cx: &mut Ccx, name: &String) -> (r: Vec<String>)
    requires
        memo_ok(*old(cx)),
    ensures
        final(cx).reg_clock == old(cx).reg_clock,
        memo_ok(*final(cx)),
        owner_of(owner_view(old(cx).reg_clock@), name@) matches Some(c) ==> r@.len() == 1 && r@[0]@ == c,
        owner_of(owner_view(old(cx).reg_clock@), name@) is None
            && (forall|j: int| 0 <= j < old(cx).decl_spans@.len() ==> #[trigger] old(cx).decl_spans@[j].0@ != name@)
            ==> r@.len() == 0,
        domain_set(old(cx).reg_clock@, r@),
{
    match assoc_index(&cx.reg_clock, name) {
        Some(k) => {
            let mut one: Vec<String> = Vec::new();
            one.push(cx.reg_clock[k].1.clone());
            proof { lemma_owner_at(owner_view(cx.reg_clock@), k as int, name@); }
            return one;
        }
        None => {
            proof { lemma_owner_none(owner_view(cx.reg_clock@), name@); }
        }
    }
    if assoc_index(&cx.decl_spans, name).is_some() {
        let fuel = cx.decl_spans.len();
        return domains_of(cx, name, fuel);
    }
    Vec::new()
}

impl<'a> Checker<'a> {
    /// Clock-domain analysis for every declared module, in file order.
    pub fn check_clocks(&mut self)
        requires
            old(self).inv(),
        ensures
            final(self).grew_from(&*old(self)),
            forall|sp: Span| #[trigger] misplaced_in(old(self).files@, sp) ==> flagged(final(self).diags@, "E0705"@, sp),
            forall|f: int, j: int, i: int, n: Seq<char>| #[trigger] cross_clock_read(old(self).files@, f, j, i, n)
                ==> foreign_read_flagged(final(self).diags@, old(self).files@[f].items@[j]->Module_0.items@, i, n),
    {
        let ghost start = *self;
        let files = self.files;
        let mut file: usize = 0;
        while file < files.len()
            invariant
                self.grew_from(&start),
                self.files == files,
                file <= files@.len(),
                forall|f: int, j: int, sp: Span| 0 <= f < file && #[trigger] misplaced_at(files@, f, j, sp)
                    ==> flagged(self.diags@, "E0705"@, sp),
                forall|f: int, j: int, i: int, n: Seq<char>| 0 <= f < file && #[trigger] cross_clock_read(files@, f, j, i, n)
                    ==> foreign_read_flagged(self.diags@, files@[f].items@[j]->Module_0.items@, i, n),
            decreases files@.len() - file,
        {
            let items = &files[file].items;
            let mut j: usize = 0;
            while j < items.len()
                invariant
                    self.grew_from(&start),
                    self.files == files,
                    file < files@.len(),
                    items == files@[file as int].items,
                    j <= items@.len(),
                    forall|f: int, i: int, sp: Span| (0 <= f < file || (f == file && 0 <= i < j))
                        && #[trigger] misplaced_at(files@, f, i, sp) ==> flagged(self.diags@, "E0705"@, sp),
                    forall|f: int, j2: int, i: int, n: Seq<char>| (0 <= f < file || (f == file && 0 <= j2 < j))
                        && #[trigger] cross_clock_read(files@, f, j2, i, n)
                        ==> foreign_read_flagged(self.diags@, files@[f].items@[j2]->Module_0.items@, i, n),
                decreases items@.len() - j,
            {
                let ghost before = *self;
                if let TopItem::Module(m) = &items[j] {
                    self.check_module_clocks(file, m);
                }
                proof {
                    lemma_grew_trans(&start, &before, self);
                    lemma_flag_kept(before.diags@, self.diags@);
                    assert forall|f: int, j2: int, i: int, n: Seq<char>| (0 <= f < file || (f == file && 0 <= j2 < j + 1))
                        && #[trigger] cross_clock_read(files@, f, j2, i, n)
                        implies foreign_read_flagged(self.diags@, files@[f].items@[j2]->Module_0.items@, i, n) by {
                        let its = files@[f].items@[j2]->Module_0.items@;
                        if !(f == file && j2 == j) {
                            let q = choose|q: int| 0 <= q < body_reads_of(its[i]->On_0.body@).len()
                                && #[trigger] body_reads_of(its[i]->On_0.body@)[q].0 == n
                                && flagged(before.diags@, "E0701"@, body_reads_of(its[i]->On_0.body@)[q].1);
                            assert(flagged(self.diags@, "E0701"@, body_reads_of(its[i]->On_0.body@)[q].1));
                        }
                    }
                }
                j += 1;
            }
            file += 1;
        }
        proof {
            assert forall|sp: Span| #[trigger] misplaced_in(files@, sp) implies flagged(self.diags@, "E0705"@, sp) by {
                let (f, j) = choose|f: int, j: int| #[trigger] misplaced_at(files@, f, j, sp);
            }
        }
    }

    /// One module's domain analysis.
    #[verifier::loop_isolation(false)]
    fn check_module_clocks(&mut self, file: usize, m: &Module)
        requires
            old(self).inv(),
            file < old(self).files@.len(),
        ensures
            final(self).grew_from(&*old(self)),
            clock_total(m.items@) >= 2 ==> forall|sp: Span| #[trigger] misplaced(m.items@, sp)
                ==> flagged(final(self).diags@, "E0705"@, sp),
            clock_total(m.items@) >= 2 ==> forall|i: int, n: Seq<char>| #[trigger] foreign_read(m.items@, i, n)
                ==> foreign_read_flagged(final(self).diags@, m.items@, i, n),
            clock_total(m.items@) < 2 ==> final(self).diags@ == old(self).diags@,
    {
        let ghost start = *self;
        if count_clocks(&m.items, 0) < 2 {
            return;
        }
        let mut cx = Ccx { reg_clock: Vec::new(), drives: Vec::new(), decl_spans: Vec::new(), domains: Vec::new() };
        collect(&m.items, &mut cx);
        let ghost rc = cx.reg_clock;
        let ghost items = m.items@;
        assert(memo_ok(cx));
        proof {
            assert(owner_view(Seq::<(String, String)>::empty()) + owner_claims(items) =~= owner_claims(items));
        }

        let mut names: Vec<(String, Span)> = Vec::new();
        let mut k: usize = 0;
        while k < cx.decl_spans.len()
            invariant
                memo_ok(cx),
                cx.reg_clock == rc,
            decreases cx.decl_spans@.len() - k,
        {
            names.push((cx.decl_spans[k].0.clone(), cx.decl_spans[k].1));
            k += 1;
        }
        let mut k: usize = 0;
        while k < names.len()
            invariant
                memo_ok(cx),
                self.grew_from(&start),
                cx.reg_clock == rc,
            decreases names@.len() - k,
        {
            let name = &names[k].0;
            let doms = domains_of_any(&mut cx, name);
            if doms.len() > 1 {
                let list = sorted_list(&doms);
                self.err(
                    file,
                    names[k].1,
                    "E0701",
                    cat(&["`", name.as_str(), "` mixes the clock domains `", list.as_str(), "`"]),
                    owned(
                        "a combinational signal must derive from one clock — cross the boundary explicitly with `sync.double_flop`/`sync.pulse` (see E0701's explanation), or keep each domain's logic separate",
                    ),
                );
            }
            k += 1;
        }

        let mut i: usize = 0;
        while i < m.items.len()
            invariant
                memo_ok(cx),
                i <= items.len(),
                self.grew_from(&start),
                cx.reg_clock == rc,
                forall|i2: int, n: Seq<char>| 0 <= i2 < i && #[trigger] foreign_read(items, i2, n)
                    ==> foreign_read_flagged(self.diags@, items, i2, n),
            decreases m.items@.len() - i,
        {
            let ghost before_item = *self;
            if let ModuleItem::On(on) = &m.items[i] {
                let ghost clk = on.clock.name@;
                let mut reported: Vec<String> = Vec::new();
                let mut reads: Vec<(String, Span)> = Vec::new();
                body_reads(&on.body, &mut reads);
                proof {
                    assert(read_texts(Seq::<(String, Span)>::empty()) + body_reads_of(on.body@) =~= body_reads_of(on.body@));
                }
                let ghost rt = read_texts(reads@);
                let mut r: usize = 0;
                while r < reads.len()
                    invariant
                        memo_ok(cx),
                        r <= reads@.len(),
                        rt == read_texts(reads@),
                        rt == body_reads_of(on.body@),
                        self.grew_from(&start),
                        self.grew_from(&before_item),
                        cx.reg_clock == rc,
                        forall|p: int| 0 <= p < reported@.len() ==> exists|q: int| 0 <= q < r
                            && #[trigger] reads@[q].0@ == (#[trigger] reported@[p])@
                            && flagged(self.diags@, "E0701"@, reads@[q].1),
                        forall|q: int| 0 <= q < r && (owner_of(owner_claims(items), (#[trigger] reads@[q]).0@) matches Some(c) && c != clk)
                            ==> exists|p: int| 0 <= p < reported@.len() && (#[trigger] reported@[p])@ == reads@[q].0@,
                    decreases reads@.len() - r,
                {
                    let name = &reads[r].0;
                    let ghost pre = *self;
                    let ghost pre_rep = reported@;
                    if !set_has(&reported, name) {
                        let doms = domains_of_any(&mut cx, name);
                        let mut q: usize = 0;
                        let mut foreign: Option<usize> = None;
                        while q < doms.len()
                            invariant
                                q <= doms@.len(),
                                foreign matches Some(f) ==> f < doms@.len(),
                                foreign is None ==> forall|p: int| 0 <= p < q ==> (#[trigger] doms@[p])@ == on.clock.name@,
                            decreases doms@.len() - q,
                        {
                            if foreign.is_none() && doms[q] != on.clock.name {
                                foreign = Some(q);
                            }
                            q += 1;
                        }
                        if let Some(f) = foreign {
                            reported.push(name.clone());
                            self.err(
                                file,
                                reads[r].1,
                                "E0701",
                                cat(&[
                                    "`", name.as_str(), "` belongs to clock `", doms[f].as_str(),
                                    "`, but this block runs on `", on.clock.name.as_str(), "`",
                                ]),
                                owned(
                                    "reading across clock domains causes metastability — cross it explicitly with `sync.double_flop`/`sync.pulse` (see E0701's explanation), or move this logic into the owning clock's `on` block",
                                ),
                            );
                            proof {
                                let last = self.diags@.len() - 1;
                                assert(self.diags@[last].span == reads@[r as int].1);
                                assert(flagged(self.diags@, "E0701"@, reads@[r as int].1));
                            }
                        } else {
                            proof {
                                if owner_of(owner_claims(items), reads@[r as int].0@) is Some {
                                    assert(doms@[0]@ == on.clock.name@);
                                }
                            }
                        }
                    }
                    proof {
                        lemma_flag_kept(pre.diags@, self.diags@);
                        lemma_grew_trans(&start, &pre, self);
                        lemma_grew_trans(&before_item, &pre, self);
                        assert forall|p: int| 0 <= p < reported@.len() implies exists|q: int| 0 <= q < r + 1
                            && #[trigger] reads@[q].0@ == (#[trigger] reported@[p])@
                            && flagged(self.diags@, "E0701"@, reads@[q].1) by {
                            if p < pre_rep.len() {
                                assert(reported@[p] == pre_rep[p]);
                                let q = choose|q: int| 0 <= q < r && #[trigger] reads@[q].0@ == pre_rep[p]@
                                    && flagged(pre.diags@, "E0701"@, reads@[q].1);
                                assert(flagged(self.diags@, "E0701"@, reads@[q].1));
                            } else {
                                assert(reads@[r as int].0@ == reported@[p]@);
                            }
                        }
                        assert forall|q: int| 0 <= q < r + 1 && (owner_of(owner_claims(items), (#[trigger] reads@[q]).0@) matches Some(c) && c != clk)
                            implies exists|p: int| 0 <= p < reported@.len() && (#[trigger] reported@[p])@ == reads@[q].0@ by {
                            if q < r {
                                let p = choose|p: int| 0 <= p < pre_rep.len() && (#[trigger] pre_rep[p])@ == reads@[q].0@;
                                assert(reported@[p] == pre_rep[p]);
                            } else if exists|p: int| 0 <= p < pre_rep.len() && #[trigger] pre_rep[p]@ == reads@[q].0@ {
                                let p = choose|p: int| 0 <= p < pre_rep.len() && #[trigger] pre_rep[p]@ == reads@[q].0@;
                                assert(reported@[p] == pre_rep[p]);
                            } else {
                                assert(reported@[pre_rep.len() as int]@ == reads@[q].0@);
                            }
                        }
                    }
                    r += 1;
                }
                proof {
                    assert forall|n: Seq<char>| #[trigger] foreign_read(items, i as int, n)
                        implies foreign_read_flagged(self.diags@, items, i as int, n) by {
                        let q = choose|q: int| 0 <= q < body_reads_of(on.body@).len() && #[trigger] body_reads_of(on.body@)[q].0 == n;
                        assert(rt[q] == (reads@[q].0@, reads@[q].1));
                        let p = choose|p: int| 0 <= p < reported@.len() && (#[trigger] reported@[p])@ == reads@[q].0@;
                        let q2 = choose|q2: int| 0 <= q2 < reads@.len()
                            && #[trigger] reads@[q2].0@ == (#[trigger] reported@[p])@
                            && flagged(self.diags@, "E0701"@, reads@[q2].1);
                        assert(rt[q2] == (reads@[q2].0@, reads@[q2].1));
                        assert(body_reads_of(on.body@)[q2].0 == n);
                    }
                }
            }
            proof {
                lemma_flag_kept(before_item.diags@, self.diags@);
                lemma_grew_trans(&start, &before_item, self);
            }
            i += 1;
        }
        let ghost before = *self;
        self.check_sync_prim_calls(file, m, &mut cx);
        proof {
            lemma_grew_trans(&start, &before, self);
            lemma_flag_kept(before.diags@, self.diags@);
        }
    }

    /// The domain rule (E0704) and placement rule (E0705) of every
    /// `sync.double_flop`/`sync.pulse` call: the former only as the direct
    /// right-hand side of `<-` in an `on` block, the latter only as a
    /// wire's initializer.
    #[verifier::loop_isolation(false)]
    fn check_sync_prim_calls(&mut self, file: usize, m: &Module, cx: &mut Ccx)
        requires
            old(self).inv(),
            memo_ok(*old(cx)),
            file < old(self).files@.len(),
        ensures
            final(self).grew_from(&*old(self)),
            forall|sp: Span| #[trigger] misplaced(m.items@, sp) ==> flagged(final(self).diags@, "E0705"@, sp),
    {
        let ghost start = *self;
        let mut legal: Vec<Span> = Vec::new();
        let mut i: usize = 0;
        proof { assert(legal@ =~= legal_spans(m.items@.subrange(0, 0))); }
        while i < m.items.len()
            invariant
                memo_ok(*cx),
                i <= m.items@.len(),
                self.grew_from(&start),
                legal@ == legal_spans(m.items@.subrange(0, i as int)),
            decreases m.items@.len() - i,
        {
            let ghost before = legal@;
            match &m.items[i] {
                ModuleItem::On(on) => {
                    let mut k: usize = 0;
                    proof { assert(legal@ =~= before + legal_in_block(on.body@.subrange(0, 0))); }
                    while k < on.body.len()
                        invariant
                            memo_ok(*cx),
                            k <= on.body@.len(),
                            self.grew_from(&start),
                            legal@ == before + legal_in_block(on.body@.subrange(0, k as int)),
                        decreases on.body@.len() - k,
                    {
                        let ghost pre = legal@;
                        let ghost before_step = *self;
                        if let SeqStmt::Assign { rhs, .. } = &on.body[k] {
                            if let ExprKind::Call { func: Builtin::SyncDoubleFlop, args } = &rhs.kind {
                                legal.push(rhs.span);
                                self.check_double_flop_domain(file, cx, on, args, rhs.span);
                                proof { lemma_grew_trans(&start, &before_step, self); }
                            }
                        }
                        proof {
                            assert(on.body@.subrange(0, k + 1).drop_last() =~= on.body@.subrange(0, k as int));
                            assert(on.body@.subrange(0, k + 1).last() == on.body@[k as int]);
                            assert(legal@ =~= before + legal_in_block(on.body@.subrange(0, k + 1)));
                        }
                        k += 1;
                    }
                    proof { assert(on.body@.subrange(0, on.body@.len() as int) =~= on.body@); }
                }
                ModuleItem::Wire { init, .. } => {
                    if let ExprKind::Call { func: Builtin::SyncPulse, args } = &init.kind {
                        legal.push(init.span);
                        let ghost before_step = *self;
                        self.check_pulse_domain(file, cx, args);
                        proof { lemma_grew_trans(&start, &before_step, self); }
                    }
                }
                _ => {}
            }
            proof {
                assert(m.items@.subrange(0, i + 1).drop_last() =~= m.items@.subrange(0, i as int));
                assert(m.items@.subrange(0, i + 1).last() == m.items@[i as int]);
                assert(legal@ =~= legal_spans(m.items@.subrange(0, i + 1)));
            }
            i += 1;
        }
        proof { assert(m.items@.subrange(0, m.items@.len() as int) =~= m.items@); }
        let mut all: Vec<Span> = Vec::new();
        collect_all_sync_prim_calls(&m.items, &mut all);
        proof { assert(all@ =~= sync_spans_items(m.items@)); }
        let ghost mid = *self;
        let mut k: usize = 0;
        while k < all.len()
            invariant
                k <= all@.len(),
                self.grew_from(&start),
                self.grew_from(&mid),
                file < self.files@.len(),
                all@ == sync_spans_items(m.items@),
                legal@ == legal_spans(m.items@),
                forall|j: int| 0 <= j < k && !legal@.contains(#[trigger] all@[j]) ==> flagged(self.diags@, "E0705"@, all@[j]),
            decreases all@.len() - k,
        {
            let mut found = false;
            let mut q: usize = 0;
            while q < legal.len()
                invariant
                    q <= legal@.len(),
                    k < all@.len(),
                    found <==> exists|p: int| 0 <= p < q && legal@[p] == all@[k as int],
                decreases legal@.len() - q,
            {
                if legal[q] == all[k] {
                    found = true;
                }
                q += 1;
            }
            let ghost before_err = *self;
            if !found {
                self.err(
                    file,
                    all[k],
                    "E0705",
                    owned("`sync.double_flop`/`sync.pulse` used in an unsupported position"),
                    owned(
                        "`sync.double_flop(...)` is legal only as the direct RHS of `<-` inside the `on rise`/`on fall` block matching its OWN third (dst_clock) argument; `sync.pulse(...)` is legal only as a `wire`'s direct initializer",
                    ),
                );
                proof {
                    let last = self.diags@.len() - 1;
                    assert(self.diags@[last].span == all@[k as int]);
                }
            }
            proof {
                lemma_grew_trans(&start, &before_err, self);
                lemma_grew_trans(&mid, &before_err, self);
                lemma_flag_kept(before_err.diags@, self.diags@);
                assert forall|j: int| 0 <= j < k + 1 && !legal@.contains(#[trigger] all@[j]) implies flagged(self.diags@, "E0705"@, all@[j]) by {
                    if j < k {
                        assert(flagged(before_err.diags@, "E0705"@, all@[j]));
                    } else {
                        if found {
                            let p = choose|p: int| 0 <= p < legal@.len() && legal@[p] == all@[k as int];
                            assert(legal@.contains(all@[k as int]));
                        }
                    }
                }
            }
            k += 1;
        }
        proof {
            assert forall|sp: Span| #[trigger] misplaced(m.items@, sp) implies flagged(self.diags@, "E0705"@, sp) by {
                let j = choose|j: int| 0 <= j < all@.len() && all@[j] == sp;
                assert(!legal@.contains(all@[j]));
            }
        }
    }

    /// `double_flop`: the destination clock is the enclosing block's own
    /// (E0705), and the signal is domain-free or exactly in its source
    /// clock's domain (E0704).
    fn check_double_flop_domain(&mut self, file: usize, cx: &mut Ccx, on: &OnBlock, args: &Vec<Expr>, call_span: Span)
        requires
            old(self).inv(),
            memo_ok(*old(cx)),
            file < old(self).files@.len(),
        ensures
            final(self).grew_from(&*old(self)),
            memo_ok(*final(cx)),
            args@.len() >= 3 && args@[1].kind is Ident ==> match args@[2].kind {
                ExprKind::Ident(d) => d@ != on.clock.name@ ==> flagged(final(self).diags@, "E0705"@, call_span),
                _ => true,
            },
            args@.len() >= 3 ==> match (args@[0].kind, args@[1].kind, args@[2].kind) {
                (ExprKind::Ident(sig), ExprKind::Ident(src), ExprKind::Ident(d)) => d@ == on.clock.name@
                    ==> match owner_of(owner_view(old(cx).reg_clock@), sig@) {
                        Some(c) => if c == src@ {
                            final(self).diags@ == old(self).diags@
                        } else {
                            flagged(final(self).diags@, "E0704"@, args@[0].span)
                        },
                        None => true,
                    },
                _ => true,
            },
    {
        if args.len() < 3 {
            return;
        }
        let signal = &args[0];
        let src_name = match &args[1].kind {
            ExprKind::Ident(n) => n,
            _ => return,
        };
        let dst_name = match &args[2].kind {
            ExprKind::Ident(n) => n,
            _ => return,
        };
        if *dst_name != on.clock.name {
            self.err(
                file,
                call_span,
                "E0705",
                cat(&[
                    "`sync.double_flop`'s dst_clock argument (`", dst_name.as_str(),
                    "`) doesn't match this `on` block's own clock (`", on.clock.name.as_str(), "`)",
                ]),
                owned(
                    "the third argument must name the SAME clock as the enclosing `on rise`/`on fall` block — the hidden synchronizer stage is spliced into this exact block",
                ),
            );
            proof {
                assert(self.diags@[self.diags@.len() - 1].span == call_span);
            }
            return;
        }
        let signal_name = match &signal.kind {
            ExprKind::Ident(n) => n,
            _ => return,
        };
        let doms = domains_of_any(cx, signal_name);
        if doms.len() > 0 && !(doms.len() == 1 && set_has(&doms, src_name)) {
            let list = sorted_list(&doms);
            self.err(
                file,
                signal.span,
                "E0704",
                cat(&[
                    "`", signal_name.as_str(), "`'s actual domain (`", list.as_str(),
                    "`) doesn't match the src_clock argument `", src_name.as_str(), "`",
                ]),
                cat(&[
                    "pass the clock `", signal_name.as_str(),
                    "` actually belongs to as the second argument, or leave it domain-free (no owning `on` block) if it's an external/async source",
                ]),
            );
            proof {
                assert(self.diags@[self.diags@.len() - 1].span == signal.span);
            }
        }
    }

    /// `pulse`: the signal must be exactly in its source clock's domain —
    /// never domain-free (E0704).
    fn check_pulse_domain(&mut self, file: usize, cx: &mut Ccx, args: &Vec<Expr>)
        requires
            old(self).inv(),
            memo_ok(*old(cx)),
            file < old(self).files@.len(),
        ensures
            final(self).grew_from(&*old(self)),
            memo_ok(*final(cx)),
            args@.len() >= 2 ==> match (args@[0].kind, args@[1].kind) {
                (ExprKind::Ident(sig), ExprKind::Ident(src)) => match owner_of(owner_view(old(cx).reg_clock@), sig@) {
                    Some(c) => if c == src@ {
                        final(self).diags@ == old(self).diags@
                    } else {
                        flagged(final(self).diags@, "E0704"@, args@[0].span)
                    },
                    None => (forall|j: int| 0 <= j < old(cx).decl_spans@.len() ==> #[trigger] old(cx).decl_spans@[j].0@ != sig@)
                        ==> flagged(final(self).diags@, "E0704"@, args@[0].span),
                },
                _ => true,
            },
    {
        if args.len() < 2 {
            return;
        }
        let signal = &args[0];
        let src_name = match &args[1].kind {
            ExprKind::Ident(n) => n,
            _ => return,
        };
        let signal_name = match &signal.kind {
            ExprKind::Ident(n) => n,
            _ => return,
        };
        let doms = domains_of_any(cx, signal_name);
        if doms.len() != 1 || !set_has(&doms, src_name) {
            let desc = if doms.len() == 0 {
                owned("domain-free (an async/external source)")
            } else {
                let list = sorted_list(&doms);
                cat(&["in domain `", list.as_str(), "`"])
            };
            self.err(
                file,
                signal.span,
                "E0704",
                cat(&[
                    "`sync.pulse`'s signal `", signal_name.as_str(), "` is ", desc.as_str(),
                    ", but must be exactly the src_clock argument `", src_name.as_str(), "`",
                ]),
                owned(
                    "`sync.pulse` samples the signal synchronously in its OWN src_clock domain before toggling — it must already be a register owned by that exact clock, not domain-free and not a different domain",
                ),
            );
            proof {
                assert(self.diags@[self.diags@.len() - 1].span == signal.span);
            }
        }
    }
}

} // verus!
