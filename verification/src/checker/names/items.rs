//! Names in module items, `on`-block statements and types.

use vstd::prelude::*;

use crate::ast::{array_like_len, Expr, ExprKind, ForEachSource, Ident, ModuleItem, SeqStmt, Type};
use crate::span::Span;
use crate::text::{cat, owned};

use super::super::consteval::{
    const_ok, const_sem, const_value, env_has, env_lookup, env_insert, env_restore, env_wf, eval, lemma_scoped_binding,
    lemma_scoped_values, lemma_sem_env, lemma_zero_value, never_const, ConstVal, Env,
};
use super::super::lemma_grew_trans;
use super::{flagged, item_plain_read, lemma_flag_kept, plain_read, scope_binds, scope_lookup, unbound_read};
use super::super::symbols::{decl_name, DeclKind};
use super::super::Checker;
use super::{Bind, Scope};

verus! {

/// Every plain read, in `items`, of a name neither the scope nor the
/// constants `env` bind is flagged E0101 in `ds`.
pub open spec fn reads_flagged<'a>(
    items: Seq<ModuleItem>,
    sc: Scope<'a>,
    env: Seq<(String, ConstVal)>,
    ds: Seq<crate::diag::Diag>,
) -> bool {
    forall|j: int, n: Seq<char>, sp: Span| 0 <= j < items.len() && #[trigger] item_plain_read(items[j], n, sp)
        && !scope_binds(sc, n) && !env_has(env, n) ==> flagged(ds, "E0101"@, sp)
}

/// A `const if` whose condition evaluates is checked in the branch it
/// picks: the `then` items when the condition's value is nonzero, the
/// `else` items (if written) when it is zero.
pub open spec fn picked_branch_flagged<'a>(
    item: ModuleItem,
    sc: Scope<'a>,
    env: Seq<(String, ConstVal)>,
    ds: Seq<crate::diag::Diag>,
) -> bool {
    match item {
        ModuleItem::ConstIf { cond, then, els, .. } => const_ok(cond, env) ==> if const_sem(cond, env)->Some_0 != 0 {
            reads_flagged(then@, sc, env, ds)
        } else {
            match els {
                Some(es) => reads_flagged(es@, sc, env, ds),
                None => true,
            }
        },
        _ => true,
    }
}

/// Flags raised stay raised: a picked branch checked against `a` is
/// checked against any `b` that extends it.
proof fn lemma_picked_kept<'a>(
    item: ModuleItem,
    sc: Scope<'a>,
    env: Seq<(String, ConstVal)>,
    a: Seq<crate::diag::Diag>,
    b: Seq<crate::diag::Diag>,
)
    requires
        super::super::prefix_of(a, b),
        picked_branch_flagged(item, sc, env, a),
    ensures
        picked_branch_flagged(item, sc, env, b),
{
    lemma_flag_kept(a, b);
}

/// The picked branch depends on the constants only through what each name
/// is bound to.
proof fn lemma_picked_env<'a>(
    item: ModuleItem,
    sc: Scope<'a>,
    a: Seq<(String, ConstVal)>,
    b: Seq<(String, ConstVal)>,
    ds: Seq<crate::diag::Diag>,
)
    requires
        forall|x: Seq<char>| #[trigger] env_lookup(a, x) == env_lookup(b, x),
        forall|x: Seq<char>| #[trigger] env_has(a, x) == env_has(b, x),
        picked_branch_flagged(item, sc, a, ds),
    ensures
        picked_branch_flagged(item, sc, b, ds),
{
    if let ModuleItem::ConstIf { cond, .. } = item {
        lemma_sem_env(cond, a, b);
    }
}

/// Where a declaration that `repeat` may not contain stands: a port,
/// wire, reg, memory, clock, reset, const, enum, `on` block or bundle
/// destructuring.
pub open spec fn repeat_decl_span(item: ModuleItem) -> Option<Span> {
    match item {
        ModuleItem::Port { name, .. } => Some(name.span),
        ModuleItem::Wire { name, .. } => Some(name.span),
        ModuleItem::Reg { name, .. } => Some(name.span),
        ModuleItem::Mem { name, .. } => Some(name.span),
        ModuleItem::Clock(n) => Some(n.span),
        ModuleItem::Reset { name, .. } => Some(name.span),
        ModuleItem::Const(c) => Some(c.name.span),
        ModuleItem::Enum(e) => Some(e.name.span),
        ModuleItem::On(on) => Some(on.span),
        ModuleItem::BundleDestructure { span, .. } => Some(span),
        _ => None,
    }
}

/// The spans of the declarations among `items`, in order.
pub open spec fn repeat_decl_spans(items: Seq<ModuleItem>) -> Seq<Span>
    decreases items.len(),
{
    if items.len() == 0 {
        Seq::empty()
    } else {
        repeat_decl_spans(items.drop_last()) + match repeat_decl_span(items.last()) {
            Some(sp) => seq![sp],
            None => Seq::empty(),
        }
    }
}

/// The unrolling rules of one item are reported: a `repeat` or `foreach`
/// body's every declaration is E0303 at its name, and an elements-form
/// `foreach` over something that is no array or memory of `items` is
/// E0417 at that name (its body is then not walked).
pub open spec fn unroll_checked(ds: Seq<crate::diag::Diag>, items: Seq<ModuleItem>, item: ModuleItem) -> bool {
    match item {
        ModuleItem::Repeat(r) => forall|k: int| 0 <= k < repeat_decl_spans(r.items@).len()
            ==> flagged(ds, "E0303"@, #[trigger] repeat_decl_spans(r.items@)[k]),
        ModuleItem::ForEach(fe) => match fe.source {
            ForEachSource::Elements(arr) => if crate::ast::first_array_len(items, arr.name@) is None {
                flagged(ds, "E0417"@, arr.span)
            } else {
                forall|k: int| 0 <= k < repeat_decl_spans(fe.items@).len()
                    ==> flagged(ds, "E0303"@, #[trigger] repeat_decl_spans(fe.items@)[k])
            },
            ForEachSource::Range { .. } => forall|k: int| 0 <= k < repeat_decl_spans(fe.items@).len()
                ==> flagged(ds, "E0303"@, #[trigger] repeat_decl_spans(fe.items@)[k]),
        },
        _ => true,
    }
}

/// Reports that were made stay made as diagnostics are added.
proof fn lemma_unroll_kept(a: Seq<crate::diag::Diag>, b: Seq<crate::diag::Diag>, items: Seq<ModuleItem>, item: ModuleItem)
    requires
        super::super::prefix_of(a, b),
        unroll_checked(a, items, item),
    ensures
        unroll_checked(b, items, item),
{
    lemma_flag_kept(a, b);
}

/// The E0303 reports of `no_decls_in_repeat`, read as flags.
proof fn lemma_repeat_flags(ds: Seq<crate::diag::Diag>, base: int, body: Seq<ModuleItem>)
    requires
        0 <= base,
        ds.len() >= base + repeat_decl_spans(body).len(),
        forall|j: int| 0 <= j < repeat_decl_spans(body).len() ==> (#[trigger] ds[base + j]).code == Some("E0303")
            && ds[base + j].span == repeat_decl_spans(body)[j],
    ensures
        forall|k: int| 0 <= k < repeat_decl_spans(body).len() ==> flagged(ds, "E0303"@, #[trigger] repeat_decl_spans(body)[k]),
{
    assert forall|k: int| 0 <= k < repeat_decl_spans(body).len() implies flagged(ds, "E0303"@, #[trigger] repeat_decl_spans(body)[k]) by {
        assert(ds[base + k].span == repeat_decl_spans(body)[k]);
    }
}

/// A bundle type naming a bundle that no file declares.
pub open spec fn unknown_bundle_type(files: Seq<crate::ast::File>, ty: Type) -> bool {
    &&& ty is Bundle
    &&& forall|f: int, i: int| 0 <= f < files.len() && 0 <= i < files[f].items@.len()
        ==> #[trigger] decl_name(files[f].items@[i], DeclKind::Bundle) != Some(ty->Bundle_name.name.name@)
}

/// A statement's own target is checked: an assignment to an undeclared
/// name is E0101 at the name; a `default` on something other than a reg
/// is E0809, on an undeclared name E0101.
pub open spec fn stmt_target_flagged<'a>(st: SeqStmt, sc: Scope<'a>, env: Seq<(String, ConstVal)>, ds: Seq<crate::diag::Diag>) -> bool {
    match st {
        SeqStmt::Assign { lhs, .. } => scope_lookup(sc.names@, lhs.base.name@) is None && !env_has(env, lhs.base.name@)
            ==> flagged(ds, "E0101"@, lhs.base.span),
        SeqStmt::Default { name, span, .. } => match scope_lookup(sc.names@, name.name@) {
            Some(b) => !(b is Reg) ==> flagged(ds, "E0809"@, span),
            None => flagged(ds, "E0101"@, name.span),
        },
        _ => true,
    }
}

impl<'a> Checker<'a> {
    /// E0417: an elements-form `foreach` needs an array or memory.
    pub fn not_array_like(&mut self, file: usize, var: &Ident, arr: &Ident)
        requires
            old(self).inv(),
            file < old(self).files@.len(),
        ensures
            final(self).grew_from(&*old(self)),
            final(self).file_consts == old(self).file_consts,
            final(self).diags@.len() == old(self).diags@.len() + 1,
            final(self).diags@.last().code == Some("E0417"),
            final(self).diags@.last().span == arr.span,
    {
        self.err(
            file,
            arr.span,
            "E0417",
            cat(&["`", arr.name.as_str(), "` is not an array or mem type"]),
            cat(&[
                "`foreach ", var.name.as_str(), " in ", arr.name.as_str(), "` needs `", arr.name.as_str(),
                "` to be a declared array/mem signal — use `foreach ", var.name.as_str(), " in lo..hi` if you meant a range instead",
            ]),
        );
    }

    /// Names in module items. `items` is the list being walked (it also
    /// resolves an elements-form `foreach` source). Every plain read, in a
    /// wire, reg or memory initializer, a drive or a destructuring, of a
    /// name neither the scope nor the constants bind is reported (E0101).
    pub fn walk_items(&mut self, file: usize, sc: &Scope<'a>, env: &mut Env, items: &Vec<ModuleItem>)
        requires
            old(self).inv(),
            file < old(self).files@.len(),
            env_wf(old(env)@),
        ensures
            final(self).grew_from(&*old(self)),
            final(self).file_consts == old(self).file_consts,
            env_wf(final(env)@),
            forall|x: Seq<char>| #[trigger] env_has(final(env)@, x) == env_has(old(env)@, x),
            forall|x: Seq<char>| #[trigger] env_lookup(final(env)@, x) == env_lookup(old(env)@, x),
            forall|i: int, n: Seq<char>, sp: Span| 0 <= i < items@.len() && #[trigger] item_plain_read(items@[i], n, sp)
                && !scope_binds(*sc, n) && !env_has(old(env)@, n) ==> flagged(final(self).diags@, "E0101"@, sp),
            forall|i: int| 0 <= i < items@.len() ==> #[trigger] unroll_checked(final(self).diags@, items@, items@[i]),
            forall|i: int| 0 <= i < items@.len()
                ==> #[trigger] picked_branch_flagged(items@[i], *sc, old(env)@, final(self).diags@),
        decreases items, 1nat,
    {
        let ghost start = *self;
        let ghost start_env = env@;
        let mut i: usize = 0;
        while i < items.len()
            invariant
                i <= items@.len(),
                self.grew_from(&start),
                self.file_consts == start.file_consts,
                file < self.files@.len(),
                env_wf(env@),
                forall|x: Seq<char>| #[trigger] env_has(env@, x) == env_has(start_env, x),
                forall|x: Seq<char>| #[trigger] env_lookup(env@, x) == env_lookup(start_env, x),
                forall|j: int, n: Seq<char>, sp: Span| 0 <= j < i && #[trigger] item_plain_read(items@[j], n, sp)
                    && !scope_binds(*sc, n) && !env_has(start_env, n) ==> flagged(self.diags@, "E0101"@, sp),
                forall|j: int| 0 <= j < i ==> #[trigger] unroll_checked(self.diags@, items@, items@[j]),
                forall|j: int| 0 <= j < i ==> #[trigger] picked_branch_flagged(items@[j], *sc, start_env, self.diags@),
            decreases items@.len() - i,
        {
            let ghost before = *self;
            let ghost before_env = env@;
            self.walk_item(file, sc, env, items, i);
            proof {
                lemma_grew_trans(&start, &before, self);
                lemma_flag_kept(before.diags@, self.diags@);
                assert forall|j: int, n: Seq<char>, sp: Span| 0 <= j < i + 1 && #[trigger] item_plain_read(items@[j], n, sp)
                    && !scope_binds(*sc, n) && !env_has(start_env, n) implies flagged(self.diags@, "E0101"@, sp) by {
                    if j < i {
                        assert(flagged(before.diags@, "E0101"@, sp));
                    } else {
                        assert(!env_has(before_env, n));
                    }
                }
                assert forall|j: int| 0 <= j < i + 1 implies #[trigger] unroll_checked(self.diags@, items@, items@[j]) by {
                    if j < i {
                        lemma_unroll_kept(before.diags@, self.diags@, items@, items@[j]);
                    }
                }
                assert forall|j: int| 0 <= j < i + 1
                    implies #[trigger] picked_branch_flagged(items@[j], *sc, start_env, self.diags@) by {
                    if j < i {
                        lemma_picked_kept(items@[j], *sc, start_env, before.diags@, self.diags@);
                    } else {
                        lemma_picked_env(items@[j], *sc, before_env, start_env, self.diags@);
                    }
                }
            }
            i += 1;
        }
    }

    /// Names in one module item (see `walk_items`).
    #[verifier::loop_isolation(false)]
    fn walk_item(&mut self, file: usize, sc: &Scope<'a>, env: &mut Env, items: &Vec<ModuleItem>, i: usize)
        requires
            old(self).inv(),
            file < old(self).files@.len(),
            env_wf(old(env)@),
            i < items@.len(),
        ensures
            final(self).grew_from(&*old(self)),
            final(self).file_consts == old(self).file_consts,
            env_wf(final(env)@),
            forall|x: Seq<char>| #[trigger] env_has(final(env)@, x) == env_has(old(env)@, x),
            forall|x: Seq<char>| #[trigger] env_lookup(final(env)@, x) == env_lookup(old(env)@, x),
            forall|n: Seq<char>, sp: Span| #[trigger] item_plain_read(items@[i as int], n, sp)
                && !scope_binds(*sc, n) && !env_has(old(env)@, n) ==> flagged(final(self).diags@, "E0101"@, sp),
            unroll_checked(final(self).diags@, items@, items@[i as int]),
            picked_branch_flagged(items@[i as int], *sc, old(env)@, final(self).diags@),
            items@[i as int] is ForEach && items@[i as int]->ForEach_0.source is Elements
                && crate::ast::first_array_len(items@, items@[i as int]->ForEach_0.source->Elements_0.name@) is None
                ==> final(self).diags@.len() == old(self).diags@.len() + 1
                    && final(self).diags@.last().code == Some("E0417")
                    && final(self).diags@.last().span == items@[i as int]->ForEach_0.source->Elements_0.span,
        decreases items, 0nat,
    {
        let ghost start = *self;
        let ghost e0 = env@;
        match &items[i] {
            ModuleItem::Port { ty, name, .. } => {
                self.ty(file, sc, env, ty);
                self.reject_array_signal_type(file, ty, name.span, "a port");
            }
            ModuleItem::Wire { ty, init, name } => {
                self.ty(file, sc, env, ty);
                self.reject_array_signal_type(file, ty, name.span, "a wire");
                self.expr(file, sc, env, init);
                proof {
                    assert forall|n: Seq<char>, sp: Span| #[trigger] item_plain_read(items@[i as int], n, sp)
                        && !scope_binds(*sc, n) && !env_has(e0, n) implies flagged(self.diags@, "E0101"@, sp) by {
                        assert(unbound_read(*init, *sc, env@, n, sp));
                    }
                }
            }
            ModuleItem::Reg { ty, reset, name } => {
                self.ty(file, sc, env, ty);
                self.reject_array_signal_type(file, ty, name.span, "a register");
                self.expr(file, sc, env, reset);
                proof {
                    assert forall|n: Seq<char>, sp: Span| #[trigger] item_plain_read(items@[i as int], n, sp)
                        && !scope_binds(*sc, n) && !env_has(e0, n) implies flagged(self.diags@, "E0101"@, sp) by {
                        assert(unbound_read(*reset, *sc, env@, n, sp));
                    }
                }
            }
            ModuleItem::Mem { ty, depth, init, .. } => {
                self.ty(file, sc, env, ty);
                self.expr(file, sc, env, depth);
                let ghost mid = self.diags@;
                self.expr(file, sc, env, init);
                proof {
                    lemma_flag_kept(mid, self.diags@);
                    assert forall|n: Seq<char>, sp: Span| #[trigger] item_plain_read(items@[i as int], n, sp)
                        && !scope_binds(*sc, n) && !env_has(e0, n) implies flagged(self.diags@, "E0101"@, sp) by {
                        if plain_read(*depth, n, sp) {
                            assert(unbound_read(*depth, *sc, env@, n, sp));
                        } else {
                            assert(unbound_read(*init, *sc, env@, n, sp));
                        }
                    }
                }
            }
            ModuleItem::Inst(inst) => self.check_inst(file, sc, env, inst),
            ModuleItem::On(on) => {
                self.check_clock_name(file, sc, &on.clock, false);
                let mut k: usize = 0;
                while k < on.body.len()
                    invariant
                        self.grew_from(&start),
                        self.file_consts == start.file_consts,
                        env_wf(env@),
                    decreases on.body@.len() - k,
                {
                    if let SeqStmt::Default { name, span, .. } = &on.body[k] {
                        let mut seen = false;
                        let mut q: usize = 0;
                        while q < k
                            invariant
                                q <= k < on.body@.len(),
                            decreases k - q,
                        {
                            if let SeqStmt::Default { name: other, .. } = &on.body[q] {
                                if other.name == name.name {
                                    seen = true;
                                }
                            }
                            q += 1;
                        }
                        if seen {
                            self.err(
                                file,
                                *span,
                                "E0810",
                                cat(&["duplicate `default` for `", name.name.as_str(), "` in this `on` block"]),
                                owned("each reg may have at most one `default` per `on` block"),
                            );
                        }
                    }
                    k += 1;
                }
                self.seq_stmts(file, sc, env, items, &on.body);
            }
            ModuleItem::Drive { lhs, rhs } => {
                self.lvalue(file, sc, env, lhs);
                self.expr(file, sc, env, rhs);
                proof {
                    assert forall|n: Seq<char>, sp: Span| #[trigger] item_plain_read(items@[i as int], n, sp)
                        && !scope_binds(*sc, n) && !env_has(e0, n) implies flagged(self.diags@, "E0101"@, sp) by {
                        assert(unbound_read(*rhs, *sc, env@, n, sp));
                    }
                }
            }
            ModuleItem::Repeat(r) => {
                let ghost b0 = self.diags@.len() as int;
                self.no_decls_in_repeat(file, &r.items);
                proof { lemma_repeat_flags(self.diags@, b0, r.items@); }
                let ghost after_rep = self.diags@;
                let lo = self.const_pos(file, env, &r.lo);
                self.const_pos(file, env, &r.hi);
                let start_value = match lo {
                    Some(v) => v,
                    None => 0,
                };
                let shadowed = env_insert(env, r.var.name.clone(), ConstVal::from_i128(start_value));
                let ghost e1 = env@;
                self.walk_items(file, sc, env, &r.items);
                let ghost e2 = env@;
                env_restore(env, r.var.name.clone(), shadowed);
                proof {
                    lemma_scoped_binding(e0, e1, e2, env@, r.var.name@, shadowed);
                    lemma_scoped_values(e0, e1, e2, env@, r.var.name@, shadowed);
                    lemma_flag_kept(after_rep, self.diags@);
                }
            }
            ModuleItem::ForEach(fe) => {
                // `foreach` is a `repeat` over the range, or over the
                // indices of the array it reads; its variable is a
                // compile-time value inside the body either way.
                let mut ok = true;
                let mut start_value: i128 = 0;
                match &fe.source {
                    ForEachSource::Elements(arr) => {
                        if array_like_len(arr.name.as_str(), items.as_slice()).is_none() {
                            self.not_array_like(file, &fe.var, arr);
                            proof { assert(self.diags@[self.diags@.len() - 1].span == arr.span); }
                            ok = false;
                        }
                    }
                    ForEachSource::Range { lo, hi } => {
                        let lo_v = self.const_pos(file, env, lo);
                        self.const_pos(file, env, hi);
                        if let Some(v) = lo_v {
                            start_value = v;
                        }
                    }
                }
                let ghost mid = self.diags@;
                if ok {
                    let ghost b0 = self.diags@.len() as int;
                    self.no_decls_in_repeat(file, &fe.items);
                    proof { lemma_repeat_flags(self.diags@, b0, fe.items@); }
                    let ghost after_rep = self.diags@;
                    let shadowed = env_insert(env, fe.var.name.clone(), ConstVal::from_i128(start_value));
                    let ghost e1 = env@;
                    self.walk_items(file, sc, env, &fe.items);
                    let ghost e2 = env@;
                    env_restore(env, fe.var.name.clone(), shadowed);
                    proof {
                        lemma_scoped_binding(e0, e1, e2, env@, fe.var.name@, shadowed);
                    lemma_scoped_values(e0, e1, e2, env@, fe.var.name@, shadowed);
                        lemma_flag_kept(after_rep, self.diags@);
                    }
                }
                proof { lemma_flag_kept(mid, self.diags@); }
            }
            ModuleItem::SyncLoop(sl) => {
                self.check_clock_name(file, sc, &sl.clock, true);
                self.ty(file, sc, env, &sl.result_ty);
                self.expr(file, sc, env, &sl.result_init);
                let lo = self.const_pos(file, env, &sl.lo);
                self.const_pos(file, env, &sl.hi);
                let start_value = match lo {
                    Some(v) => v,
                    None => 0,
                };
                let shadowed = env_insert(env, sl.var.name.clone(), ConstVal::from_i128(start_value));
                let ghost e1 = env@;
                let mut body_sc = sc.copy();
                body_sc.insert(sl.result_name.name.clone(), Bind::Reg);
                self.seq_stmts(file, &body_sc, env, items, &sl.body);
                let ghost e2 = env@;
                env_restore(env, sl.var.name.clone(), shadowed);
                proof { lemma_scoped_binding(e0, e1, e2, env@, sl.var.name@, shadowed);
                    lemma_scoped_values(e0, e1, e2, env@, sl.var.name@, shadowed); }
            }
            ModuleItem::Enum(e) => {
                let mut v: usize = 0;
                while v < e.variants.len()
                    invariant
                        self.grew_from(&start),
                        self.file_consts == start.file_consts,
                        env_wf(env@),
                    decreases e.variants@.len() - v,
                {
                    let fields = &e.variants[v].fields;
                    let mut k: usize = 0;
                    while k < fields.len()
                        invariant
                            self.grew_from(&start),
                            self.file_consts == start.file_consts,
                            env_wf(env@),
                        decreases fields@.len() - k,
                    {
                        self.ty(file, sc, env, &fields[k].ty);
                        k += 1;
                    }
                    v += 1;
                }
            }
            ModuleItem::ConstIf { cond, then, els, span } => {
                match eval(cond, env) {
                    Ok(val) => {
                        proof {
                            lemma_zero_value(val);
                        }
                        if !val.is_zero() {
                            self.walk_items(file, sc, env, then);
                        } else if let Some(els) = els {
                            self.walk_items(file, sc, env, els);
                        }
                    }
                    Err(_) => {
                        self.err(
                            file,
                            *span,
                            "E0811",
                            owned("`const if` condition is not a compile-time constant"),
                            owned(
                                "use only module parameters, consts, literals, and arithmetic/comparison; runtime signals like ports are not allowed",
                            ),
                        );
                    }
                }
            }
            ModuleItem::BundleDestructure { expr, .. } => {
                self.expr(file, sc, env, expr);
                proof {
                    assert forall|n: Seq<char>, sp: Span| #[trigger] item_plain_read(items@[i as int], n, sp)
                        && !scope_binds(*sc, n) && !env_has(e0, n) implies flagged(self.diags@, "E0101"@, sp) by {
                        assert(unbound_read(*expr, *sc, env@, n, sp));
                    }
                }
            }
            ModuleItem::Clock(_) | ModuleItem::Reset { .. } | ModuleItem::Const(_) | ModuleItem::Error(_) => {}
        }
    }

    /// E0109 unless `clock` names a declared clock (E0101 when nothing
    /// by that name is declared).
    fn check_clock_name(&mut self, file: usize, sc: &Scope<'a>, clock: &Ident, in_sync_loop: bool)
        requires
            old(self).inv(),
            file < old(self).files@.len(),
        ensures
            final(self).grew_from(&*old(self)),
            final(self).file_consts == old(self).file_consts,
            scope_lookup(sc.names@, clock.name@) is None ==> flagged(final(self).diags@, "E0101"@, clock.span),
            scope_lookup(sc.names@, clock.name@) matches Some(b) && !(b is Clock)
                ==> flagged(final(self).diags@, "E0109"@, clock.span),
            scope_lookup(sc.names@, clock.name@) matches Some(b) && b is Clock ==> final(self).diags@ == old(self).diags@,
    {
        match sc.get(&clock.name) {
            Some(Bind::Clock) => {}
            Some(b) => {
                let what = b.what();
                let help = if in_sync_loop {
                    owned("a sync loop's `on rise(...)`/`on fall(...)` clause takes a clock — declare one with `clock clk`")
                } else {
                    owned("`on rise(...)` takes a clock — declare one with `clock clk`")
                };
                self.err(
                    file,
                    clock.span,
                    "E0109",
                    cat(&["`", clock.name.as_str(), "` is ", what, ", not a clock"]),
                    help,
                );
                proof { assert(self.diags@[self.diags@.len() - 1].span == clock.span); }
            }
            None => self.unknown(file, &clock.name, clock.span),
        }
    }

    /// Names in `on`-block statements. `module_items` is the enclosing
    /// module's item list (it resolves an elements-form `foreach` source).
    #[verifier::loop_isolation(false)]
    pub fn seq_stmts(&mut self, file: usize, sc: &Scope<'a>, env: &mut Env, module_items: &Vec<ModuleItem>, stmts: &Vec<SeqStmt>)
        requires
            old(self).inv(),
            file < old(self).files@.len(),
            env_wf(old(env)@),
        ensures
            final(self).grew_from(&*old(self)),
            final(self).file_consts == old(self).file_consts,
            env_wf(final(env)@),
            forall|x: Seq<char>| #[trigger] env_has(final(env)@, x) == env_has(old(env)@, x),
            forall|x: Seq<char>| #[trigger] env_lookup(final(env)@, x) == env_lookup(old(env)@, x),
            forall|i: int| 0 <= i < stmts@.len() ==> #[trigger] stmt_target_flagged(stmts@[i], *sc, old(env)@, final(self).diags@),
        decreases stmts,
    {
        let ghost start = *self;
        let ghost start_env = env@;
        let mut i: usize = 0;
        while i < stmts.len()
            invariant
                self.grew_from(&start),
                self.file_consts == start.file_consts,
                env_wf(env@),
                forall|x: Seq<char>| #[trigger] env_has(env@, x) == env_has(start_env, x),
                forall|x: Seq<char>| #[trigger] env_lookup(env@, x) == env_lookup(start_env, x),
                forall|j: int| 0 <= j < i ==> #[trigger] stmt_target_flagged(stmts@[j], *sc, start_env, self.diags@),
            decreases stmts@.len() - i,
        {
            let ghost e0 = env@;
            let ghost pre = *self;
            match &stmts[i] {
                SeqStmt::Assign { lhs, rhs } => {
                    self.lvalue(file, sc, env, lhs);
                    let ghost mid = *self;
                    self.expr(file, sc, env, rhs);
                    proof { lemma_flag_kept(mid.diags@, self.diags@); }
                }
                SeqStmt::If { cond, then, els } => {
                    self.expr(file, sc, env, cond);
                    self.seq_stmts(file, sc, env, module_items, then);
                    if let Some(els) = els {
                        self.seq_stmts(file, sc, env, module_items, els);
                    }
                }
                SeqStmt::Default { name, val, span } => {
                    match sc.get(&name.name) {
                        Some(Bind::Reg) => {}
                        Some(_) => {
                            self.err(
                                file,
                                *span,
                                "E0809",
                                cat(&["`default` target `", name.name.as_str(), "` is not a reg"]),
                                owned("only `reg` signals can have default assignments; wires are always driven combinationally"),
                            );
                            proof {
                                assert(self.diags@[self.diags@.len() - 1].span == *span);
                                assert(flagged(self.diags@, "E0809"@, *span));
                            }
                        }
                        None => self.unknown(file, &name.name, name.span),
                    }
                    let ghost mid = *self;
                    self.expr(file, sc, env, val);
                    proof { lemma_flag_kept(mid.diags@, self.diags@); }
                }
                SeqStmt::Loop { var, lo, hi, body, .. } => {
                    let lo_v = self.const_pos(file, env, lo);
                    self.const_pos(file, env, hi);
                    let start_value = match lo_v {
                        Some(v) => v,
                        None => 0,
                    };
                    let shadowed = env_insert(env, var.name.clone(), ConstVal::from_i128(start_value));
                    let ghost e1 = env@;
                    self.seq_stmts(file, sc, env, module_items, body);
                    let ghost e2 = env@;
                    env_restore(env, var.name.clone(), shadowed);
                    proof { lemma_scoped_binding(e0, e1, e2, env@, var.name@, shadowed);
                    lemma_scoped_values(e0, e1, e2, env@, var.name@, shadowed); }
                }
                SeqStmt::ForEach { var, source, body, .. } => {
                    let mut ok = true;
                    let mut start_value: i128 = 0;
                    match source {
                        ForEachSource::Elements(arr) => {
                            if array_like_len(arr.name.as_str(), module_items.as_slice()).is_none() {
                                self.not_array_like(file, var, arr);
                                ok = false;
                            }
                        }
                        ForEachSource::Range { lo, hi } => {
                            let lo_v = self.const_pos(file, env, lo);
                            self.const_pos(file, env, hi);
                            if let Some(v) = lo_v {
                                start_value = v;
                            }
                        }
                    }
                    if ok {
                        let shadowed = env_insert(env, var.name.clone(), ConstVal::from_i128(start_value));
                        let ghost e1 = env@;
                        self.seq_stmts(file, sc, env, module_items, body);
                        let ghost e2 = env@;
                        env_restore(env, var.name.clone(), shadowed);
                        proof { lemma_scoped_binding(e0, e1, e2, env@, var.name@, shadowed);
                    lemma_scoped_values(e0, e1, e2, env@, var.name@, shadowed); }
                    }
                }
                SeqStmt::Error(_) => {}
            }
            proof {
                lemma_flag_kept(pre.diags@, self.diags@);
                assert forall|j: int| 0 <= j < i + 1 implies #[trigger] stmt_target_flagged(stmts@[j], *sc, start_env, self.diags@) by {
                    if j < i {
                        assert(stmt_target_flagged(stmts@[j], *sc, start_env, pre.diags@));
                    } else {
                        assert(env_has(e0, stmts@[j]->Assign_lhs.base.name@) == env_has(start_env, stmts@[j]->Assign_lhs.base.name@));
                    }
                }
            }
            i += 1;
        }
    }

    /// E0303: a `repeat` body may only generate hardware (drives,
    /// instances, nested loops), never declare it. Reports each offending
    /// item of this level at its own span.
    pub fn no_decls_in_repeat(&mut self, file: usize, items: &Vec<ModuleItem>)
        requires
            old(self).inv(),
            file < old(self).files@.len(),
        ensures
            final(self).grew_from(&*old(self)),
            final(self).file_consts == old(self).file_consts,
            final(self).diags@.len() == old(self).diags@.len() + repeat_decl_spans(items@).len(),
            forall|j: int| 0 <= j < repeat_decl_spans(items@).len() ==> (#[trigger] final(self).diags@[old(self).diags@.len() + j]).code
                == Some("E0303") && final(self).diags@[old(self).diags@.len() + j].span == repeat_decl_spans(items@)[j],
    {
        let ghost start = *self;
        let mut i: usize = 0;
        proof { assert(items@.subrange(0, 0) =~= Seq::<ModuleItem>::empty()); }
        while i < items.len()
            invariant
                self.grew_from(&start),
                self.file_consts == start.file_consts,
                file < self.files@.len(),
                i <= items@.len(),
                self.diags@.len() == start.diags@.len() + repeat_decl_spans(items@.subrange(0, i as int)).len(),
                forall|j: int| 0 <= j < repeat_decl_spans(items@.subrange(0, i as int)).len() ==> (#[trigger] self.diags@[start.diags@.len() + j]).code
                    == Some("E0303") && self.diags@[start.diags@.len() + j].span == repeat_decl_spans(items@.subrange(0, i as int))[j],
            decreases items@.len() - i,
        {
            let ghost before = self.diags@;
            proof {
                assert(items@.subrange(0, i + 1).drop_last() =~= items@.subrange(0, i as int));
                assert(items@.subrange(0, i + 1).last() == items@[i as int]);
            }
            let found: Option<(Span, &str)> = match &items[i] {
                ModuleItem::Port { name, .. } => Some((name.span, "an input/output port")),
                ModuleItem::Wire { name, .. } => Some((name.span, "a wire")),
                ModuleItem::Reg { name, .. } => Some((name.span, "a register")),
                ModuleItem::Mem { name, .. } => Some((name.span, "a memory")),
                ModuleItem::Clock(n) => Some((n.span, "a clock")),
                ModuleItem::Reset { name: n, .. } => Some((n.span, "a reset")),
                ModuleItem::Const(c) => Some((c.name.span, "a const")),
                ModuleItem::Enum(e) => Some((e.name.span, "an enum")),
                ModuleItem::On(on) => Some((on.span, "an `on` block")),
                ModuleItem::BundleDestructure { span, .. } => Some((*span, "a bundle destructure")),
                _ => None,
            };
            proof {
                assert(found.is_some() == repeat_decl_span(items@[i as int]).is_some());
                assert(found matches Some((sp, _)) ==> repeat_decl_span(items@[i as int]) == Some(sp));
            }
            if let Some((span, what)) = found {
                self.err(
                    file,
                    span,
                    "E0303",
                    cat(&["`repeat` cannot contain ", what]),
                    owned(
                        "`repeat` unrolls at compile time — it may only generate hardware (drives, instances, nested `repeat`s). Declare the signal once outside the loop and drive bit `i` inside.",
                    ),
                );
                proof {
                    assert forall|j: int| 0 <= j < repeat_decl_spans(items@.subrange(0, i + 1)).len() implies (#[trigger] self.diags@[start.diags@.len() + j]).code
                        == Some("E0303") && self.diags@[start.diags@.len() + j].span == repeat_decl_spans(items@.subrange(0, i + 1))[j] by {
                        if start.diags@.len() + j < before.len() {
                            assert(self.diags@[start.diags@.len() + j] == before[start.diags@.len() + j]);
                        }
                    }
                }
            }
            i += 1;
        }
        proof { assert(items@.subrange(0, items@.len() as int) =~= items@); }
    }

    /// A position that must const-evaluate (loop bounds); its value, if
    /// it did.
    pub fn const_pos(&mut self, file: usize, env: &Env, e: &Expr) -> (r: Option<i128>)
        requires
            old(self).inv(),
            file < old(self).files@.len(),
            env_wf(env@),
        ensures
            final(self).grew_from(&*old(self)),
            final(self).file_consts == old(self).file_consts,
            r is Some ==> final(self).diags@ == old(self).diags@,
            r is None ==> final(self).diags@.len() == old(self).diags@.len() + 1,
            never_const(e.kind) ==> r is None,
            e.kind matches ExprKind::Int { value, .. }
                ==> r == Some(if value <= i128::MAX as u128 { value as i128 } else { i128::MAX }),
    {
        match eval(e, env) {
            Ok(v) => Some(v.to_i128_saturating()),
            Err(d) => {
                self.push_eval_error(file, d);
                None
            }
        }
    }

    /// Names in a type: width expressions, and named enum or bundle types.
    #[verifier::loop_isolation(false)]
    pub fn ty(&mut self, file: usize, sc: &Scope<'a>, env: &Env, ty: &Type)
        requires
            old(self).inv(),
            file < old(self).files@.len(),
            env_wf(env@),
        ensures
            final(self).grew_from(&*old(self)),
            final(self).file_consts == old(self).file_consts,
            unknown_bundle_type(old(self).files@, *ty) ==> flagged(final(self).diags@, "E0906"@, ty->Bundle_name.span),
            *ty is Named && !(scope_lookup(sc.names@, ty->Named_0.name.name@) matches Some(b) && b is Enum)
                && (forall|f: int, i: int| 0 <= f < old(self).files@.len() && 0 <= i < old(self).files@[f].items@.len()
                    ==> #[trigger] decl_name(old(self).files@[f].items@[i], DeclKind::Enum) != Some(ty->Named_0.name.name@))
                && (forall|f: int, i: int| 0 <= f < old(self).files@.len() && 0 <= i < old(self).files@[f].items@.len()
                    ==> #[trigger] decl_name(old(self).files@[f].items@[i], DeclKind::Bundle) != Some(ty->Named_0.name.name@))
                ==> flagged(final(self).diags@, "E0103"@, ty->Named_0.span),
            ty matches Type::Bits(w) ==> forall|x: Seq<char>, sp: Span| #[trigger] unbound_read(**w, *sc, env@, x, sp)
                ==> flagged(final(self).diags@, "E0101"@, sp),
            ty matches Type::Signed(w) ==> forall|x: Seq<char>, sp: Span| #[trigger] unbound_read(**w, *sc, env@, x, sp)
                ==> flagged(final(self).diags@, "E0101"@, sp),
        decreases ty,
    {
        match ty {
            Type::Bit => {}
            Type::Bits(w) | Type::Signed(w) => self.expr(file, sc, env, w),
            Type::Bundle { name, .. } => {
                let candidates = self.decls_named(&name.name.name, DeclKind::Bundle);
                if candidates.len() == 0 {
                    self.err(
                        file,
                        name.span,
                        "E0906",
                        cat(&["unknown bundle type `", name.name.name.as_str(), "`"]),
                        owned("declare the bundle at file level before using it as a type"),
                    );
                    proof { assert(self.diags@[self.diags@.len() - 1].span == name.span); }
                } else {
                    proof {
                        let (f0, i0) = candidates@[0];
                        assert(decl_name(self.files@[f0 as int].items@[i0 as int], DeclKind::Bundle) == Some(name.name.name@));
                    }
                    self.resolve(file, &candidates, name);
                }
            }
            Type::Named(n) => {
                let in_scope = match sc.get(&n.name.name) {
                    Some(Bind::Enum(_)) => true,
                    _ => false,
                };
                if !in_scope {
                    let enums = self.decls_named(&n.name.name, DeclKind::Enum);
                    if enums.len() > 0 {
                        proof {
                            let (f0, i0) = enums@[0];
                            assert(decl_name(self.files@[f0 as int].items@[i0 as int], DeclKind::Enum) == Some(n.name.name@));
                        }
                        self.resolve(file, &enums, n);
                    } else {
                        let bundles = self.decls_named(&n.name.name, DeclKind::Bundle);
                        if bundles.len() > 0 {
                            proof {
                                let (f0, i0) = bundles@[0];
                                assert(decl_name(self.files@[f0 as int].items@[i0 as int], DeclKind::Bundle) == Some(n.name.name@));
                            }
                            self.resolve(file, &bundles, n);
                        } else {
                            self.err(
                                file,
                                n.span,
                                "E0103",
                                cat(&["unknown type `", n.name.name.as_str(), "`"]),
                                cat(&[
                                    "named types are `enum` or `bundle` declarations — declare `enum ", n.name.name.as_str(),
                                    " { ... }` or `bundle ", n.name.name.as_str(), " { ... }` at file level, or import the file that does",
                                ]),
                            );
                            proof { assert(self.diags@[self.diags@.len() - 1].span == n.span); }
                        }
                    }
                }
            }
            Type::Array { elem, len } => {
                self.ty(file, sc, env, elem);
                self.expr(file, sc, env, len);
            }
        }
    }
}

} // verus!
