//! Name resolution and module-structure rules.
//!
//! For every module: build its scope (reporting in-module duplicates,
//! E0003, and registers without a reset, E0301), then walk every
//! expression, assignment target, instantiation and type so that every
//! name points at a real declaration — signals, params, consts,
//! enums and their variants, modules, instance ports. Test blocks get
//! their header checked (module and parameters).
//!
//! This pass also owns the structure rules that need only names:
//! instantiation completeness (E0302 — every input connected exactly
//! once; clock and reset connect implicitly by name) and the `repeat`
//! body rule (E0303).

use vstd::prelude::*;

use crate::ast::{Dir, EnumDecl, Expr, ExprKind, Ident, Inst, Module, ModuleItem, SeqStmt, TopItem, Builtin};
use crate::span::Span;
use crate::text::{cat, owned};

use super::consteval::{self, env_has, env_insert, env_wf, copy_env, eval, lemma_env_same_names, Env};
use super::lemma_grew_trans;
use super::Checker;

pub mod exprs;
pub mod funcs;
pub mod insts;
pub mod items;
pub mod resolve;

verus! {

/// What a name in module scope is bound to. Enums and instances carry
/// their declaration, for better errors.
#[derive(Clone, Copy)]
pub enum Bind<'a> {
    In,
    Out,
    Wire,
    Reg,
    Mem,
    Clock,
    Reset,
    Param,
    Const,
    Enum(&'a EnumDecl),
    Inst(&'a Inst),
}

/// The phrase for a binding in error messages.
pub open spec fn bind_word<'a>(b: Bind<'a>) -> &'static str {
    match b {
        Bind::In => "an input port",
        Bind::Out => "an output port",
        Bind::Wire => "a wire",
        Bind::Reg => "a reg",
        Bind::Mem => "a memory",
        Bind::Clock => "a clock",
        Bind::Reset => "a reset",
        Bind::Param => "a parameter",
        Bind::Const => "a constant",
        Bind::Enum(_) => "an enum",
        Bind::Inst(_) => "an instance",
    }
}

/// What the first entry of `names` named `n` binds, if any.
pub open spec fn scope_lookup<'a>(names: Seq<(String, Bind<'a>)>, n: Seq<char>) -> Option<Bind<'a>>
    decreases names.len(),
{
    if names.len() == 0 {
        None
    } else if names[0].0@ == n {
        Some(names[0].1)
    } else {
        scope_lookup(names.drop_first(), n)
    }
}

impl<'a> Bind<'a> {
    /// The phrase for error messages ("`clk` is a clock — ...").
    pub fn what(&self) -> (r: &'static str)
        ensures
            r == bind_word(*self),
    {
        match self {
            Bind::In => "an input port",
            Bind::Out => "an output port",
            Bind::Wire => "a wire",
            Bind::Reg => "a reg",
            Bind::Mem => "a memory",
            Bind::Clock => "a clock",
            Bind::Reset => "a reset",
            Bind::Param => "a parameter",
            Bind::Const => "a constant",
            Bind::Enum(_) => "an enum",
            Bind::Inst(_) => "an instance",
        }
    }
}

/// Whether `sc` binds `n`.
pub open spec fn scope_binds<'a>(sc: Scope<'a>, n: Seq<char>) -> bool {
    exists|k: int| 0 <= k < sc.names@.len() && #[trigger] sc.names@[k].0@ == n
}

/// Whether some diagnostic of `ds` has code `code` at `sp`.
pub open spec fn flagged(ds: Seq<crate::diag::Diag>, code: Seq<char>, sp: Span) -> bool {
    exists|i: int| 0 <= i < ds.len() && #[trigger] ds[i].span == sp && ds[i].code is Some && ds[i].code->Some_0@ == code
}

/// A flag raised stays raised as diagnostics are added after it.
pub proof fn lemma_flag_kept(a: Seq<crate::diag::Diag>, b: Seq<crate::diag::Diag>)
    requires
        super::prefix_of(a, b),
    ensures
        forall|code: Seq<char>, sp: Span| #[trigger] flagged(a, code, sp) ==> flagged(b, code, sp),
{
    assert forall|code: Seq<char>, sp: Span| #[trigger] flagged(a, code, sp) implies flagged(b, code, sp) by {
        let i = choose|i: int| 0 <= i < a.len() && #[trigger] a[i].span == sp && a[i].code is Some && a[i].code->Some_0@ == code;
        assert(b[i] == a[i]);
    }
}

/// Whether `e` reads `n` at `sp` as a plain name: an identifier reached
/// through operators, conditionals, selections, concatenations, call and
/// constructor arguments, bundle fields and a match's scrutinee (not a
/// `.` projection's base, not inside a match arm).
pub open spec fn plain_read(e: Expr, n: Seq<char>, sp: Span) -> bool
    decreases e,
{
    match e.kind {
        ExprKind::Ident(k) => k@ == n && e.span == sp,
        ExprKind::Unary { expr, .. } => plain_read(*expr, n, sp),
        ExprKind::Binary { lhs, rhs, .. } => plain_read(*lhs, n, sp) || plain_read(*rhs, n, sp),
        ExprKind::IfExpr { cond, then, els } => plain_read(*cond, n, sp) || plain_read(*then, n, sp) || plain_read(*els, n, sp),
        ExprKind::Match { scrutinee, .. } => plain_read(*scrutinee, n, sp),
        ExprKind::Concat(parts) | ExprKind::ArrayLit(parts) => plain_read_any(parts@, n, sp),
        ExprKind::Replicate { count, parts } => plain_read(*count, n, sp) || plain_read_any(parts@, n, sp),
        ExprKind::Index { base, index } => plain_read(*base, n, sp) || plain_read(*index, n, sp),
        ExprKind::Slice { base, hi, lo } => plain_read(*base, n, sp) || plain_read(*hi, n, sp) || plain_read(*lo, n, sp),
        ExprKind::Call { args, .. } | ExprKind::FnCall { args, .. } | ExprKind::EnumConstruct { args, .. } =>
            plain_read_any(args@, n, sp),
        ExprKind::BundleLit(fields) => plain_read_fields(fields@, n, sp),
        _ => false,
    }
}

/// Whether some expression of a list reads `n` at `sp` as a plain name.
pub open spec fn plain_read_any(es: Seq<Expr>, n: Seq<char>, sp: Span) -> bool
    decreases es,
{
    if es.len() == 0 { false } else { plain_read_any(es.drop_last(), n, sp) || plain_read(es.last(), n, sp) }
}

/// Whether some field value reads `n` at `sp` as a plain name.
pub open spec fn plain_read_fields(fs: Seq<crate::ast::FieldInit>, n: Seq<char>, sp: Span) -> bool
    decreases fs,
{
    if fs.len() == 0 { false } else { plain_read_fields(fs.drop_last(), n, sp) || plain_read(fs.last().value, n, sp) }
}

/// Whether a module item's own expressions read `n` at `sp` as a plain
/// name: a wire's or reg's initializer, a memory's depth or initializer,
/// a drive's right-hand side, a destructured bundle.
pub open spec fn item_plain_read(item: ModuleItem, n: Seq<char>, sp: Span) -> bool {
    match item {
        ModuleItem::Wire { init, .. } => plain_read(init, n, sp),
        ModuleItem::Reg { reset, .. } => plain_read(reset, n, sp),
        ModuleItem::Mem { depth, init, .. } => plain_read(depth, n, sp) || plain_read(init, n, sp),
        ModuleItem::Drive { rhs, .. } => plain_read(rhs, n, sp),
        ModuleItem::BundleDestructure { expr, .. } => plain_read(expr, n, sp),
        _ => false,
    }
}

/// A plain read of a name that neither the scope nor the constants bind.
pub open spec fn unbound_read<'a>(e: Expr, sc: Scope<'a>, env: Seq<(String, consteval::ConstVal)>, n: Seq<char>, sp: Span) -> bool {
    plain_read(e, n, sp) && !scope_binds(sc, n) && consteval::env_lookup(env, n) is None
}

/// One module's (or function's) name table. A name is bound at most once.
pub struct Scope<'a> {
    pub names: Vec<(String, Bind<'a>)>,
}

impl<'a> Scope<'a> {
    pub fn new() -> (s: Self)
        ensures
            s.names@.len() == 0,
    {
        Scope { names: Vec::new() }
    }

    /// What `name` is bound to, if anything.
    pub fn get(&self, name: &String) -> (r: Option<Bind<'a>>)
        ensures
            r is Some <==> exists|k: int| 0 <= k < self.names@.len() && #[trigger] self.names@[k].0@ == name@,
            r == scope_lookup(self.names@, name@),
    {
        let mut k: usize = 0;
        proof {
            assert(self.names@.subrange(0, self.names@.len() as int) =~= self.names@);
        }
        while k < self.names.len()
            invariant
                k <= self.names@.len(),
                forall|j: int| 0 <= j < k ==> #[trigger] self.names@[j].0@ != name@,
                scope_lookup(self.names@, name@) == scope_lookup(self.names@.subrange(k as int, self.names@.len() as int), name@),
            decreases self.names@.len() - k,
        {
            proof {
                let rest = self.names@.subrange(k as int, self.names@.len() as int);
                assert(rest.drop_first() =~= self.names@.subrange(k + 1, self.names@.len() as int));
                assert(rest[0] == self.names@[k as int]);
            }
            if self.names[k].0 == *name {
                return Some(self.names[k].1);
            }
            k += 1;
        }
        None
    }

    pub fn contains(&self, name: &String) -> (r: bool)
        ensures
            r <==> exists|k: int| 0 <= k < self.names@.len() && #[trigger] self.names@[k].0@ == name@,
    {
        self.get(name).is_some()
    }

    /// Bind `name` to `b`, replacing an earlier binding of it.
    pub fn insert(&mut self, name: String, b: Bind<'a>)
        ensures
            exists|k: int| 0 <= k < final(self).names@.len() && #[trigger] final(self).names@[k].0@ == name@,
            forall|x: Seq<char>| #[trigger] scope_binds(*final(self), x) <==> scope_binds(*old(self), x) || x == name@,
    {
        let ghost nv = name@;
        let ghost pre = *self;
        let mut k: usize = 0;
        while k < self.names.len()
            invariant
                k <= self.names@.len(),
                name@ == nv,
                *self == pre,
                pre == *old(self),
            decreases self.names@.len() - k,
        {
            if self.names[k].0 == name {
                assert(pre.names@[k as int].0@ == nv);
                self.names.set(k, (name, b));
                proof {
                    assert(self.names@[k as int].0@ == nv);
                    assert forall|x: Seq<char>| #[trigger] scope_binds(*self, x) <==> scope_binds(pre, x) || x == nv by {
                        if x == nv {
                            assert(self.names@[k as int].0@ == x);
                        }
                        if scope_binds(pre, x) {
                            let j = choose|j: int| 0 <= j < pre.names@.len() && #[trigger] pre.names@[j].0@ == x;
                            if j != k as int {
                                assert(self.names@[j] == pre.names@[j]);
                            }
                        }
                        if scope_binds(*self, x) {
                            let j = choose|j: int| 0 <= j < self.names@.len() && #[trigger] self.names@[j].0@ == x;
                            if j != k as int {
                                assert(self.names@[j] == pre.names@[j]);
                            }
                        }
                    }
                }
                return;
            }
            k += 1;
        }
        self.names.push((name, b));
        proof {
            assert(self.names@[self.names@.len() - 1].0@ == nv);
            assert forall|x: Seq<char>| #[trigger] scope_binds(*self, x) <==> scope_binds(pre, x) || x == nv by {
                if x == nv {
                    assert(self.names@[self.names@.len() - 1].0@ == x);
                }
                if scope_binds(pre, x) {
                    let j = choose|j: int| 0 <= j < pre.names@.len() && #[trigger] pre.names@[j].0@ == x;
                    assert(self.names@[j] == pre.names@[j]);
                }
                if scope_binds(*self, x) {
                    let j = choose|j: int| 0 <= j < self.names@.len() && #[trigger] self.names@[j].0@ == x;
                    if j < pre.names@.len() {
                        assert(self.names@[j] == pre.names@[j]);
                    }
                }
            }
        }
    }

    /// An independent copy, for a nested scope that may add bindings.
    pub fn copy(&self) -> (r: Scope<'a>)
        ensures
            r.names@.len() == self.names@.len(),
            forall|k: int| 0 <= k < r.names@.len() ==> #[trigger] r.names@[k].0@ == self.names@[k].0@ && r.names@[k].1 == self.names@[k].1,
            forall|x: Seq<char>| #[trigger] scope_binds(r, x) <==> scope_binds(*self, x),
    {
        let mut names: Vec<(String, Bind<'a>)> = Vec::new();
        let mut k: usize = 0;
        while k < self.names.len()
            invariant
                k <= self.names@.len(),
                names@.len() == k,
                forall|j: int| 0 <= j < k ==> #[trigger] names@[j].0@ == self.names@[j].0@ && names@[j].1 == self.names@[j].1,
            decreases self.names@.len() - k,
        {
            let ghost pre = names@;
            let nm = self.names[k].0.clone();
            let b = self.names[k].1;
            names.push((nm, b));
            proof {
                assert forall|j: int| 0 <= j < k + 1 implies #[trigger] names@[j].0@ == self.names@[j].0@ && names@[j].1 == self.names@[j].1 by {
                    if j < k {
                        assert(names@[j] == pre[j]);
                    }
                }
            }
            k += 1;
        }
        let r = Scope { names };
        proof {
            assert forall|x: Seq<char>| #[trigger] scope_binds(r, x) <==> scope_binds(*self, x) by {
                if scope_binds(*self, x) {
                    let k = choose|k: int| 0 <= k < self.names@.len() && #[trigger] self.names@[k].0@ == x;
                    assert(r.names@[k].0@ == x);
                }
            }
        }
        r
    }

    /// Whether some binding is a reg.
    pub fn has_reg(&self) -> (r: bool)
        ensures
            r == exists|k: int| 0 <= k < self.names@.len() && #[trigger] self.names@[k].1 is Reg,
    {
        let mut k: usize = 0;
        while k < self.names.len()
            invariant
                k <= self.names@.len(),
                forall|j: int| 0 <= j < k ==> !(#[trigger] self.names@[j].1 is Reg),
            decreases self.names@.len() - k,
        {
            if let Bind::Reg = self.names[k].1 {
                return true;
            }
            k += 1;
        }
        false
    }

    /// Whether some binding is a reset.
    pub fn has_reset(&self) -> (r: bool)
        ensures
            r == exists|k: int| 0 <= k < self.names@.len() && #[trigger] self.names@[k].1 is Reset,
    {
        let mut k: usize = 0;
        while k < self.names.len()
            invariant
                k <= self.names@.len(),
                forall|j: int| 0 <= j < k ==> !(#[trigger] self.names@[j].1 is Reset),
            decreases self.names@.len() - k,
        {
            if let Bind::Reset = self.names[k].1 {
                return true;
            }
            k += 1;
        }
        false
    }
}

/// An identifier with a generated name: `<prefix><base><suffix>`.
fn generated(prefix: &str, base: &Ident, suffix: &str) -> (r: Ident)
    ensures
        r.name@ == prefix@ + base.name@ + suffix@,
{
    let name = cat(&[prefix, base.name.as_str(), suffix]);
    proof {
        reveal_with_fuel(crate::text::concat_views, 4);
    }
    Ident { name, span: base.span }
}

/// Whether some parameter is named `x`.
pub open spec fn params_name(ps: Seq<crate::ast::Param>, x: Seq<char>) -> bool
    decreases ps,
{
    if ps.len() == 0 { false } else { params_name(ps.drop_last(), x) || ps.last().name.name@ == x }
}

/// `n` is neither a parameter of `m` nor declared by any of its items.
pub open spec fn undeclared_in(m: Module, n: Seq<char>) -> bool {
    !params_name(m.params@, n) && !items_declare(m.items@, n)
}

/// Every plain read, in one of `m`'s own items, of a name that `m` does not
/// declare and that `consts` does not hold is flagged E0101 in `ds`.
pub open spec fn undeclared_reads_flagged(m: Module, consts: Seq<(String, consteval::ConstVal)>, ds: Seq<crate::diag::Diag>) -> bool {
    forall|i: int, n: Seq<char>, sp: Span| 0 <= i < m.items@.len() && #[trigger] item_plain_read(m.items@[i], n, sp)
        && undeclared_in(m, n) && !env_has(consts, n)
        ==> flagged(ds, "E0101"@, sp)
}

/// Some module of `files` reads `n` at `sp` as a plain name in one of its
/// own items, and `n` is neither declared by that module nor one of its
/// file's constants.
pub open spec fn undeclared_read(files: Seq<crate::ast::File>, n: Seq<char>, sp: Span) -> bool {
    exists|f: int, j: int, i: int| 0 <= f < files.len() && 0 <= j < files[f].items@.len()
        && (#[trigger] files[f].items@[j]) is Module
        && 0 <= i < files[f].items@[j]->Module_0.items@.len()
        && #[trigger] item_plain_read(files[f].items@[j]->Module_0.items@[i], n, sp)
        && undeclared_in(files[f].items@[j]->Module_0, n)
        && !consteval::top_const_named(files[f].items@, n)
}

/// What a module's E0101 check reported stays reported as diagnostics are
/// added after it.
pub proof fn lemma_reads_flagged_kept(m: Module, consts: Seq<(String, consteval::ConstVal)>, a: Seq<crate::diag::Diag>, b: Seq<crate::diag::Diag>)
    requires
        undeclared_reads_flagged(m, consts, a),
        super::prefix_of(a, b),
    ensures
        undeclared_reads_flagged(m, consts, b),
{
    lemma_flag_kept(a, b);
}

/// An item of a list declares what it declares for the whole list.
pub proof fn lemma_item_declared(items: Seq<ModuleItem>, i: int, x: Seq<char>)
    requires
        0 <= i < items.len(),
        item_declares(items[i], x),
    ensures
        items_declare(items, x),
    decreases items.len(),
{
    if i < items.len() - 1 {
        lemma_item_declared(items.drop_last(), i, x);
    }
}

/// Whether a statement list declares `x` through a `sync.double_flop`
/// assignment (its hidden first stage).
pub open spec fn on_declares(ss: Seq<SeqStmt>, x: Seq<char>) -> bool
    decreases ss,
{
    if ss.len() == 0 {
        false
    } else {
        on_declares(ss.drop_last(), x) || match ss.last() {
            SeqStmt::Assign { lhs, rhs } => match rhs.kind {
                ExprKind::Call { func, .. } => func == Builtin::SyncDoubleFlop && x == "__sync_"@ + lhs.base.name@ + "_stage0"@,
                _ => false,
            },
            _ => false,
        }
    }
}

/// Whether a module item declares `x`: its own name, the hidden
/// registers of a `sync.pulse` wire or a `double_flop`, a sync loop's
/// ports, or (through `repeat`, `foreach` and either branch of `const
/// if`) something nested.
pub open spec fn item_declares(item: ModuleItem, x: Seq<char>) -> bool
    decreases item,
{
    match item {
        ModuleItem::Port { name, .. } | ModuleItem::Reset { name, .. } | ModuleItem::Reg { name, .. }
        | ModuleItem::Mem { name, .. } => name.name@ == x,
        ModuleItem::Clock(n) => n.name@ == x,
        ModuleItem::Wire { name, init, .. } => name.name@ == x || (match init.kind {
            ExprKind::Call { func, .. } => func == Builtin::SyncPulse && (
                x == "__sync_"@ + name.name@ + "_toggle"@ || x == "__sync_"@ + name.name@ + "_stage0"@
                || x == "__sync_"@ + name.name@ + "_stage1"@ || x == "__sync_"@ + name.name@ + "_stage2"@),
            _ => false,
        }),
        ModuleItem::Const(c) => c.name.name@ == x,
        ModuleItem::Enum(e) => e.name.name@ == x,
        ModuleItem::Inst(i) => i.name.name@ == x,
        ModuleItem::Repeat(r) => items_declare(r.items@, x),
        ModuleItem::ForEach(fe) => items_declare(fe.items@, x),
        ModuleItem::SyncLoop(sl) => x == sl.name.name@ + "_start"@ || x == sl.name.name@ + "_done"@
            || x == sl.name.name@ + "_result"@ || x == sl.name.name@ + "_running"@,
        ModuleItem::ConstIf { then, els, .. } => items_declare(then@, x) || match els {
            Some(e) => items_declare(e@, x),
            None => false,
        },
        ModuleItem::On(on) => on_declares(on.body@, x),
        _ => false,
    }
}

/// The name an item itself declares, where it declares one by name: a
/// port, clock, reset, wire, reg, memory, const, enum or instance.
pub open spec fn item_names(item: ModuleItem, x: Seq<char>) -> bool {
    match item {
        ModuleItem::Port { name, .. } | ModuleItem::Reset { name, .. } | ModuleItem::Reg { name, .. }
        | ModuleItem::Mem { name, .. } | ModuleItem::Wire { name, .. } => name.name@ == x,
        ModuleItem::Clock(n) => n.name@ == x,
        ModuleItem::Const(c) => c.name.name@ == x,
        ModuleItem::Enum(e) => e.name.name@ == x,
        ModuleItem::Inst(i) => i.name.name@ == x,
        _ => false,
    }
}

/// Whether some item of a list declares `x`.
pub open spec fn items_declare(items: Seq<ModuleItem>, x: Seq<char>) -> bool
    decreases items,
{
    if items.len() == 0 { false } else { items_declare(items.drop_last(), x) || item_declares(items.last(), x) }
}

impl<'a> Checker<'a> {
    /// Check every module, test header, bundle, enum and function.
    pub fn resolve_names(&mut self)
        requires
            old(self).inv(),
        ensures
            final(self).grew_from(&*old(self)),
            final(self).file_consts == old(self).file_consts,
            forall|f: int, j: int| 0 <= f < old(self).files@.len() && 0 <= j < old(self).files@[f].items@.len()
                && (#[trigger] old(self).files@[f].items@[j]) is Module
                ==> undeclared_reads_flagged(old(self).files@[f].items@[j]->Module_0, old(self).file_consts@[f]@, final(self).diags@),
    {
        let ghost start = *self;
        let files = self.files;
        let mut file: usize = 0;
        while file < files.len()
            invariant
                self.grew_from(&start),
                self.file_consts == start.file_consts,
                self.files == files,
                files@ == start.files@,
                file <= files@.len(),
                forall|f: int, j: int| 0 <= f < file && 0 <= j < files@[f].items@.len()
                    && (#[trigger] files@[f].items@[j]) is Module
                    ==> undeclared_reads_flagged(files@[f].items@[j]->Module_0, start.file_consts@[f]@, self.diags@),
            decreases files@.len() - file,
        {
            let items = &files[file].items;
            let mut j: usize = 0;
            while j < items.len()
                invariant
                    self.grew_from(&start),
                    self.file_consts == start.file_consts,
                    self.files == files,
                    files@ == start.files@,
                    file < files@.len(),
                    items == files@[file as int].items,
                    j <= items@.len(),
                    forall|f: int, jj: int| 0 <= f < file && 0 <= jj < files@[f].items@.len()
                        && (#[trigger] files@[f].items@[jj]) is Module
                        ==> undeclared_reads_flagged(files@[f].items@[jj]->Module_0, start.file_consts@[f]@, self.diags@),
                    forall|jj: int| 0 <= jj < j && (#[trigger] items@[jj]) is Module
                        ==> undeclared_reads_flagged(items@[jj]->Module_0, start.file_consts@[file as int]@, self.diags@),
                decreases items@.len() - j,
            {
                let ghost before = *self;
                match &items[j] {
                    TopItem::Module(m) => self.check_module(file, m),
                    TopItem::Test(t) => self.check_test(file, t),
                    TopItem::Bundle(b) => {
                        let ghost before = *self;
                        let mut k: usize = 0;
                        while k < b.fields.len()
                            invariant
                                self.grew_from(&before),
                                self.file_consts == before.file_consts,
                                file < self.files@.len(),
                            decreases b.fields@.len() - k,
                        {
                            self.validate_bundle_field_type(file, &b.fields[k].ty, b.fields[k].span);
                            k += 1;
                        }
                    }
                    TopItem::Enum(e) => {
                        let env = copy_env(&self.file_consts[file]);
                        let sc = Scope::new();
                        let ghost before = *self;
                        let mut v: usize = 0;
                        while v < e.variants.len()
                            invariant
                                self.grew_from(&before),
                                self.file_consts == before.file_consts,
                                file < self.files@.len(),
                                env_wf(env@),
                            decreases e.variants@.len() - v,
                        {
                            let fields = &e.variants[v].fields;
                            let mut k: usize = 0;
                            while k < fields.len()
                                invariant
                                    self.grew_from(&before),
                                    self.file_consts == before.file_consts,
                                    file < self.files@.len(),
                                    env_wf(env@),
                                decreases fields@.len() - k,
                            {
                                self.ty(file, &sc, &env, &fields[k].ty);
                                k += 1;
                            }
                            v += 1;
                        }
                    }
                    TopItem::Func(f) => self.check_func_names(file, f),
                    TopItem::Const(_) | TopItem::ExternModule(_) | TopItem::Error(_) => {}
                }
                proof {
                    assert forall|f: int, jj: int| 0 <= f < file && 0 <= jj < files@[f].items@.len()
                        && (#[trigger] files@[f].items@[jj]) is Module
                        implies undeclared_reads_flagged(files@[f].items@[jj]->Module_0, start.file_consts@[f]@, self.diags@) by {
                        lemma_reads_flagged_kept(files@[f].items@[jj]->Module_0, start.file_consts@[f]@, before.diags@, self.diags@);
                    }
                    assert forall|jj: int| 0 <= jj < j + 1 && (#[trigger] items@[jj]) is Module
                        implies undeclared_reads_flagged(items@[jj]->Module_0, start.file_consts@[file as int]@, self.diags@) by {
                        if jj < j {
                            lemma_reads_flagged_kept(items@[jj]->Module_0, start.file_consts@[file as int]@, before.diags@, self.diags@);
                        }
                    }
                }
                j += 1;
            }
            file += 1;
        }
    }

    /// One module: its scope, E0301, then every item. A plain read, in one
    /// of the module's own items, of a name that is neither a parameter,
    /// nor declared by the module, nor one of the file's constants is
    /// reported (E0101).
    fn check_module(&mut self, file: usize, m: &'a Module)
        requires
            old(self).inv(),
            file < old(self).files@.len(),
        ensures
            final(self).grew_from(&*old(self)),
            final(self).file_consts == old(self).file_consts,
            undeclared_reads_flagged(*m, old(self).file_consts@[file as int]@, final(self).diags@),
    {
        let ghost start = *self;
        let mut sc = Scope::new();
        let mut k: usize = 0;
        while k < m.params.len()
            invariant
                k <= m.params@.len(),
                self.grew_from(&start),
                self.file_consts == start.file_consts,
                self.file_consts == start.file_consts,
                file < self.files@.len(),
                forall|x: Seq<char>| #[trigger] scope_binds(sc, x) ==> params_name(m.params@.subrange(0, k as int), x),
            decreases m.params@.len() - k,
        {
            self.declare(file, &mut sc, &m.params[k].name, Bind::Param);
            proof {
                assert(m.params@.subrange(0, k + 1).drop_last() =~= m.params@.subrange(0, k as int));
                assert(m.params@.subrange(0, k + 1).last() == m.params@[k as int]);
            }
            k += 1;
        }
        proof {
            assert(m.params@.subrange(0, m.params@.len() as int) =~= m.params@);
        }
        let ghost fc = start.file_consts@[file as int]@;
        let mut env = copy_env(&self.file_consts[file]);
        proof {
            lemma_env_same_names(env@, fc);
        }
        let mut i: usize = 0;
        while i < m.items.len()
            invariant
                i <= m.items@.len(),
                self.grew_from(&start),
                self.file_consts == start.file_consts,
                file < self.files@.len(),
                env_wf(env@),
                forall|x: Seq<char>| #[trigger] env_has(env@, x) ==> env_has(fc, x) || items_declare(m.items@, x),
            decreases m.items@.len() - i,
        {
            if let ModuleItem::Const(c) = &m.items[i] {
                match eval(&c.value, &env) {
                    Ok(v) => {
                        env_insert(&mut env, c.name.name.clone(), v);
                        proof {
                            lemma_item_declared(m.items@, i as int, c.name.name@);
                        }
                    }
                    Err(d) => self.push_eval_error(file, d),
                }
            }
            i += 1;
        }
        let ghost sc_params = sc;
        self.collect_decls(file, &mut sc, &env, &m.items);
        if sc.has_reg() && !sc.has_reset() {
            self.err(
                file,
                m.name.span,
                "E0301",
                cat(&["module `", m.name.name.as_str(), "` has registers but no `reset`"]),
                owned(
                    "every reg declares a reset value, and that value is loaded when reset is asserted — add a `reset rst` line",
                ),
            );
        }
        let ghost env_before = env@;
        let ghost before = *self;
        self.walk_items(file, &sc, &mut env, &m.items);
        proof {
            lemma_grew_trans(&start, &before, self);
            assert forall|i: int, n: Seq<char>, sp: Span| 0 <= i < m.items@.len() && #[trigger] item_plain_read(m.items@[i], n, sp)
                && undeclared_in(*m, n) && !env_has(fc, n) implies flagged(self.diags@, "E0101"@, sp) by {
                assert(!scope_binds(sc_params, n));
                assert(!scope_binds(sc, n));
                assert(!env_has(env_before, n));
            }
        }
    }

    /// Declarations, recursively through `repeat`, `foreach` and the
    /// taken branch of `const if` (declaration order in a module is free;
    /// a body is declared once).
    #[verifier::loop_isolation(false)]
    fn collect_decls(&mut self, file: usize, sc: &mut Scope<'a>, env: &Env, items: &'a Vec<ModuleItem>)
        requires
            old(self).inv(),
            file < old(self).files@.len(),
            env_wf(env@),
        ensures
            final(self).grew_from(&*old(self)),
            final(self).file_consts == old(self).file_consts,
            forall|x: Seq<char>| #[trigger] scope_binds(*final(sc), x) ==> scope_binds(*old(sc), x) || items_declare(items@, x),
            forall|x: Seq<char>| #[trigger] scope_binds(*old(sc), x) ==> scope_binds(*final(sc), x),
            forall|j: int, x: Seq<char>| 0 <= j < items@.len() && #[trigger] item_names(items@[j], x) ==> scope_binds(*final(sc), x),
        decreases items,
    {
        let ghost start = *self;
        let ghost sc0 = *sc;
        let mut i: usize = 0;
        while i < items.len()
            invariant
                i <= items@.len(),
                self.grew_from(&start),
                self.file_consts == start.file_consts,
                file < self.files@.len(),
                forall|x: Seq<char>| #[trigger] scope_binds(*sc, x) ==> scope_binds(sc0, x) || items_declare(items@.subrange(0, i as int), x),
                forall|x: Seq<char>| #[trigger] scope_binds(sc0, x) ==> scope_binds(*sc, x),
                forall|j: int, x: Seq<char>| 0 <= j < i && #[trigger] item_names(items@[j], x) ==> scope_binds(*sc, x),
            decreases items@.len() - i,
        {
            let ghost sci = *sc;
            match &items[i] {
                ModuleItem::Port { dir, name, .. } => {
                    let bind = if *dir == Dir::In { Bind::In } else { Bind::Out };
                    self.declare(file, sc, name, bind);
                    proof {
                        assert forall|x: Seq<char>| #[trigger] scope_binds(*sc, x) implies scope_binds(sci, x)
                            || item_declares(items@[i as int], x) by {}
                    }
                }
                ModuleItem::Clock(n) => {
                    self.declare(file, sc, n, Bind::Clock);
                    proof {
                        assert forall|x: Seq<char>| #[trigger] scope_binds(*sc, x) implies scope_binds(sci, x)
                            || item_declares(items@[i as int], x) by {}
                    }
                }
                ModuleItem::Reset { name: n, .. } => {
                    self.declare(file, sc, n, Bind::Reset);
                    proof {
                        assert forall|x: Seq<char>| #[trigger] scope_binds(*sc, x) implies scope_binds(sci, x)
                            || item_declares(items@[i as int], x) by {}
                    }
                }
                ModuleItem::Wire { name, init, .. } => {
                    self.declare(file, sc, name, Bind::Wire);
                    if let ExprKind::Call { func: Builtin::SyncPulse, .. } = &init.kind {
                        self.declare(file, sc, &generated("__sync_", name, "_toggle"), Bind::Reg);
                        self.declare(file, sc, &generated("__sync_", name, "_stage0"), Bind::Reg);
                        self.declare(file, sc, &generated("__sync_", name, "_stage1"), Bind::Reg);
                        self.declare(file, sc, &generated("__sync_", name, "_stage2"), Bind::Reg);
                    }
                    proof {
                        assert forall|x: Seq<char>| #[trigger] scope_binds(*sc, x) implies scope_binds(sci, x)
                            || item_declares(items@[i as int], x) by {}
                    }
                }
                ModuleItem::Reg { name, .. } => {
                    self.declare(file, sc, name, Bind::Reg);
                    proof {
                        assert forall|x: Seq<char>| #[trigger] scope_binds(*sc, x) implies scope_binds(sci, x)
                            || item_declares(items@[i as int], x) by {}
                    }
                }
                ModuleItem::Mem { name, .. } => {
                    self.declare(file, sc, name, Bind::Mem);
                    proof {
                        assert forall|x: Seq<char>| #[trigger] scope_binds(*sc, x) implies scope_binds(sci, x)
                            || item_declares(items@[i as int], x) by {}
                    }
                }
                ModuleItem::Const(c) => {
                    self.declare(file, sc, &c.name, Bind::Const);
                    proof {
                        assert forall|x: Seq<char>| #[trigger] scope_binds(*sc, x) implies scope_binds(sci, x)
                            || item_declares(items@[i as int], x) by {}
                    }
                }
                ModuleItem::Enum(e) => {
                    self.declare(file, sc, &e.name, Bind::Enum(e));
                    proof {
                        assert forall|x: Seq<char>| #[trigger] scope_binds(*sc, x) implies scope_binds(sci, x)
                            || item_declares(items@[i as int], x) by {}
                    }
                }
                ModuleItem::Inst(inst) => {
                    self.declare(file, sc, &inst.name, Bind::Inst(inst));
                    proof {
                        assert forall|x: Seq<char>| #[trigger] scope_binds(*sc, x) implies scope_binds(sci, x)
                            || item_declares(items@[i as int], x) by {}
                    }
                }
                ModuleItem::Repeat(r) => {
                    self.collect_decls(file, sc, env, &r.items);
                    proof {
                        assert forall|x: Seq<char>| #[trigger] scope_binds(*sc, x) implies scope_binds(sci, x)
                            || item_declares(items@[i as int], x) by {}
                    }
                }
                ModuleItem::ForEach(fe) => {
                    self.collect_decls(file, sc, env, &fe.items);
                    proof {
                        assert forall|x: Seq<char>| #[trigger] scope_binds(*sc, x) implies scope_binds(sci, x)
                            || item_declares(items@[i as int], x) by {}
                    }
                }
                ModuleItem::SyncLoop(sl) => {
                    self.declare(file, sc, &generated("", &sl.name, "_start"), Bind::In);
                    self.declare(file, sc, &generated("", &sl.name, "_done"), Bind::Out);
                    self.declare(file, sc, &generated("", &sl.name, "_result"), Bind::Out);
                    self.declare(file, sc, &generated("", &sl.name, "_running"), Bind::Out);
                    proof {
                        reveal_strlit("");
                        assert(""@ + sl.name.name@ =~= sl.name.name@);
                        assert forall|x: Seq<char>| #[trigger] scope_binds(*sc, x) implies scope_binds(sci, x)
                            || item_declares(items@[i as int], x) by {}
                    }
                }
                ModuleItem::ConstIf { cond, then, els, .. } => {
                    let taken = match eval(cond, env) {
                        Ok(v) => !v.is_zero(),
                        Err(_) => false,
                    };
                    if taken {
                        self.collect_decls(file, sc, env, then);
                    } else if let Some(els) = els {
                        self.collect_decls(file, sc, env, els);
                    }
                    proof {
                        assert forall|x: Seq<char>| #[trigger] scope_binds(*sc, x) implies scope_binds(sci, x)
                            || item_declares(items@[i as int], x) by {}
                    }
                }
                ModuleItem::On(on) => {
                    let mut k: usize = 0;
                    while k < on.body.len()
                        invariant
                            k <= on.body@.len(),
                            self.grew_from(&start),
                            self.file_consts == start.file_consts,
                            file < self.files@.len(),
                            forall|x: Seq<char>| #[trigger] scope_binds(*sc, x) ==> scope_binds(sci, x)
                                || on_declares(on.body@.subrange(0, k as int), x),
                            forall|x: Seq<char>| #[trigger] scope_binds(sci, x) ==> scope_binds(*sc, x),
                        decreases on.body@.len() - k,
                    {
                        proof {
                            assert(on.body@.subrange(0, k + 1).drop_last() =~= on.body@.subrange(0, k as int));
                            assert(on.body@.subrange(0, k + 1).last() == on.body@[k as int]);
                        }
                        if let SeqStmt::Assign { lhs, rhs } = &on.body[k] {
                            if let ExprKind::Call { func: Builtin::SyncDoubleFlop, .. } = &rhs.kind {
                                self.declare(file, sc, &generated("__sync_", &lhs.base, "_stage0"), Bind::Reg);
                            }
                        }
                        k += 1;
                    }
                    proof {
                        assert(on.body@.subrange(0, on.body@.len() as int) =~= on.body@);
                    }
                    proof {
                        assert forall|x: Seq<char>| #[trigger] scope_binds(*sc, x) implies scope_binds(sci, x)
                            || item_declares(items@[i as int], x) by {}
                    }
                }
                ModuleItem::Drive { .. } | ModuleItem::Error(_) | ModuleItem::BundleDestructure { .. } => {}
            }
            proof {
                assert(items@.subrange(0, i + 1).drop_last() =~= items@.subrange(0, i as int));
                assert(items@.subrange(0, i + 1).last() == items@[i as int]);
                assert forall|x: Seq<char>| #[trigger] scope_binds(*sc, x) implies scope_binds(sc0, x)
                    || items_declare(items@.subrange(0, i + 1), x) by {
                    if !scope_binds(sci, x) {
                        assert(item_declares(items@[i as int], x));
                    }
                }
            }
            i += 1;
        }
        proof {
            assert(items@.subrange(0, items@.len() as int) =~= items@);
        }
    }

    /// Bind `name`, or report E0003 when the module already has it.
    pub fn declare(&mut self, file: usize, sc: &mut Scope<'a>, name: &Ident, bind: Bind<'a>)
        requires
            old(self).inv(),
            file < old(self).files@.len(),
        ensures
            final(self).grew_from(&*old(self)),
            final(self).file_consts == old(self).file_consts,
            forall|x: Seq<char>| #[trigger] scope_binds(*final(sc), x) <==> scope_binds(*old(sc), x) || x == name.name@,
            scope_binds(*old(sc), name.name@) ==> final(self).diags@.len() == old(self).diags@.len() + 1
                && final(self).diags@.last().code == Some("E0003") && final(self).diags@.last().span == name.span,
            !scope_binds(*old(sc), name.name@) ==> final(self).diags@ == old(self).diags@,
    {
        match sc.get(&name.name) {
            Some(prev) => {
                let what = prev.what();
                self.err(
                    file,
                    name.span,
                    "E0003",
                    cat(&["`", name.name.as_str(), "` is declared twice in this module"]),
                    cat(&["there is already ", what, " named `", name.name.as_str(), "` — pick a different name"]),
                );
            }
            None => {
                sc.insert(name.name.clone(), bind);
            }
        }
    }

    /// E0101 for a name nothing declares.
    pub fn unknown(&mut self, file: usize, name: &String, span: Span)
        requires
            old(self).inv(),
            file < old(self).files@.len(),
        ensures
            final(self).grew_from(&*old(self)),
            final(self).file_consts == old(self).file_consts,
            flagged(final(self).diags@, "E0101"@, span),
            final(self).diags@.len() == old(self).diags@.len() + 1,
            final(self).diags@.drop_last() == old(self).diags@,
            final(self).diags@.last().code == Some("E0101"),
            final(self).diags@.last().span == span,
    {
        let ghost d0 = self.diags@;
        self.err(
            file,
            span,
            "E0101",
            cat(&["unknown name `", name.as_str(), "`"]),
            owned(
                "nothing with this name is declared in this module — check the spelling, or declare it as a port, wire, reg, or const",
            ),
        );
        proof {
            let k = self.diags@.len() - 1;
            assert(self.diags@[k].span == span);
            assert(self.diags@.drop_last() =~= d0);
        }
    }
}

} // verus!
