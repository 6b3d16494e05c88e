//! Names in expressions and assignment targets.

use vstd::prelude::*;

use crate::analysis::type_str;
use crate::ast::{Arm, EnumDecl, Expr, ExprKind, Ident, LValue, Pattern};
use crate::text::{cat, num, owned};

use super::super::consteval::{self, env_contains, env_lookup, env_wf, Env};
use super::super::Checker;
use super::{flagged, lemma_flag_kept, plain_read, plain_read_any, plain_read_fields, scope_binds, scope_lookup, unbound_read, Bind, Scope};
use super::super::lemma_grew_trans;
use crate::span::Span;

verus! {

/// The variant of `en` named `name`, if there is one.
pub fn find_variant<'b>(en: &'b EnumDecl, name: &String) -> (r: Option<&'b crate::ast::EnumVariant>)
    ensures
        r matches Some(v) ==> v.name.name@ == name@ && exists|k: int| 0 <= k < en.variants@.len() && #[trigger] en.variants@[k] == *v,
        r is None ==> forall|k: int| 0 <= k < en.variants@.len() ==> #[trigger] en.variants@[k].name.name@ != name@,
{
    let mut k: usize = 0;
    while k < en.variants.len()
        invariant
            k <= en.variants@.len(),
            forall|j: int| 0 <= j < k ==> #[trigger] en.variants@[j].name.name@ != name@,
        decreases en.variants@.len() - k,
    {
        if en.variants[k].name.name == *name {
            return Some(&en.variants[k]);
        }
        k += 1;
    }
    None
}

/// The names of an enum's variants, in order.
pub open spec fn variant_names(en: EnumDecl) -> Seq<Seq<char>> {
    en.variants@.map_values(|v: crate::ast::EnumVariant| v.name.name@)
}

/// `A, B, C` — an enum's variant names, comma-separated.
pub fn variant_list(en: &EnumDecl) -> (r: String)
    ensures
        r@ == crate::text::joined(variant_names(*en), ", "@),
{
    let ghost names = variant_names(*en);
    let mut s = String::new();
    let mut k: usize = 0;
    while k < en.variants.len()
        invariant
            k <= en.variants@.len(),
            names == variant_names(*en),
            s@ == crate::text::joined(names.subrange(0, k as int), ", "@),
        decreases en.variants@.len() - k,
    {
        let ghost before = s@;
        if k > 0 {
            s.append(", ");
        }
        s.append(en.variants[k].name.name.as_str());
        proof {
            let pre = names.subrange(0, k + 1);
            assert(pre.drop_last() =~= names.subrange(0, k as int));
            assert(pre.last() == en.variants@[k as int].name.name@);
            if k == 0 {
                assert(s@ =~= en.variants@[0].name.name@);
            } else {
                assert(s@ =~= before + ", "@ + en.variants@[k as int].name.name@);
            }
        }
        k += 1;
    }
    proof {
        assert(names.subrange(0, en.variants@.len() as int) =~= names);
    }
    s
}

/// Names joined with `, `.
fn join_names(names: &Vec<String>) -> (r: String)
    ensures
        r@ == crate::text::joined(names@.map_values(|s: String| s@), ", "@),
{
    crate::text::join(names, ", ")
}

/// Whether two name lists are the same, position by position.
fn same_names(a: &Vec<String>, b: &Vec<String>) -> (r: bool)
    ensures
        r <==> (a@.len() == b@.len() && forall|k: int| 0 <= k < a@.len() ==> #[trigger] a@[k]@ == b@[k]@),
{
    if a.len() != b.len() {
        return false;
    }
    let mut k: usize = 0;
    while k < a.len()
        invariant
            k <= a@.len(),
            a@.len() == b@.len(),
            forall|j: int| 0 <= j < k ==> #[trigger] a@[j]@ == b@[j]@,
        decreases a@.len() - k,
    {
        if a[k] != b[k] {
            return false;
        }
        k += 1;
    }
    true
}

/// What a field access reads from: the base, or the named array an
/// indexed base reads.
pub open spec fn field_core(base: Expr) -> Expr {
    match base.kind {
        ExprKind::Index { base: b, .. } => if b.kind is Ident { *b } else { base },
        _ => base,
    }
}

/// A field access is checked: on something that is no name it is E0105;
/// on an enum in scope, a variant it lacks is E0103; on a clock, reset,
/// memory or constant that names no file-level enum it is E0105; on an
/// unbound name that names no file-level enum it is E0101.
pub open spec fn field_checked<'a>(ds: Seq<crate::diag::Diag>, e: Expr, sc: Scope<'a>, files: Seq<crate::ast::File>) -> bool {
    match e.kind {
        ExprKind::Field { base, field } => match field_core(*base).kind {
            ExprKind::Ident(name) => match scope_lookup(sc.names@, name@) {
                Some(b) => match b {
                    Bind::Enum(en) => (forall|k: int| 0 <= k < en.variants@.len() ==> #[trigger] en.variants@[k].name.name@ != field.name@)
                        ==> flagged(ds, "E0103"@, field.span),
                    Bind::Clock | Bind::Reset | Bind::Mem | Bind::Const =>
                        super::insts::no_decl(files, super::super::symbols::DeclKind::Enum, name@) ==> flagged(ds, "E0105"@, field.span),
                    _ => true,
                },
                None => super::insts::no_decl(files, super::super::symbols::DeclKind::Enum, name@)
                    ==> flagged(ds, "E0101"@, field_core(*base).span),
            },
            _ => flagged(ds, "E0105"@, field.span),
        },
        _ => true,
    }
}

/// Some `Variant` pattern among `ps` binds the name `x`.
pub open spec fn pattern_binds(ps: Seq<Pattern>, x: Seq<char>) -> bool {
    exists|p: int, k: int| 0 <= p < ps.len() && ps[p] is Variant && 0 <= k < ps[p]->Variant_bindings@.len()
        && #[trigger] ps[p]->Variant_bindings@[k].name@ == x
}

/// One OR-pattern alternative's bindings: where to report, and each bound
/// name with its payload field's type.
pub struct AltBindings {
    pub span: crate::span::Span,
    pub names: Vec<String>,
    pub types: Vec<String>,
}

impl<'a> Checker<'a> {
    /// Names in an assignment target: it must be an output, wire, reg, or
    /// one cell of a memory (E0108), and declared (E0101).
    pub fn lvalue(&mut self, file: usize, sc: &Scope<'a>, env: &Env, lv: &LValue)
        requires
            old(self).inv(),
            file < old(self).files@.len(),
            env_wf(env@),
        ensures
            final(self).grew_from(&*old(self)),
            final(self).file_consts == old(self).file_consts,
            scope_lookup(sc.names@, lv.base.name@) matches Some(b) && b is Mem && lv.index is None
                ==> flagged(final(self).diags@, "E0108"@, lv.base.span),
            scope_lookup(sc.names@, lv.base.name@) matches Some(b) && !(b is Out || b is Wire || b is Reg || b is Mem)
                ==> flagged(final(self).diags@, "E0108"@, lv.base.span),
            scope_lookup(sc.names@, lv.base.name@) is None && env_lookup(env@, lv.base.name@) is Some
                ==> flagged(final(self).diags@, "E0108"@, lv.base.span),
            scope_lookup(sc.names@, lv.base.name@) is None && env_lookup(env@, lv.base.name@) is None
                ==> flagged(final(self).diags@, "E0101"@, lv.base.span),
    {
        let ghost start = *self;
        match sc.get(&lv.base.name) {
            Some(Bind::Out) | Some(Bind::Wire) | Some(Bind::Reg) => {}
            Some(Bind::Mem) => {
                if lv.index.is_none() {
                    self.err(
                        file,
                        lv.base.span,
                        "E0108",
                        cat(&["cannot assign to memory `", lv.base.name.as_str(), "` as a whole"]),
                        owned("address one cell — `m[addr] <- value`"),
                    );
                    proof { assert(self.diags@[self.diags@.len() - 1].span == lv.base.span); assert(flagged(self.diags@, "E0108"@, lv.base.span)); }
                }
            }
            Some(Bind::In) => {
                self.err(
                    file,
                    lv.base.span,
                    "E0108",
                    cat(&["cannot assign to input port `", lv.base.name.as_str(), "`"]),
                    owned("inputs are driven by the parent module — to compute a local value, declare a `wire`"),
                );
                proof { assert(self.diags@[self.diags@.len() - 1].span == lv.base.span); assert(flagged(self.diags@, "E0108"@, lv.base.span)); }
            }
            Some(b) => {
                let what = b.what();
                self.err(
                    file,
                    lv.base.span,
                    "E0108",
                    cat(&["cannot assign to `", lv.base.name.as_str(), "` — it is ", what]),
                    owned("only output ports, wires (at their declaration), and regs (inside `on`) can be assigned"),
                );
                proof { assert(self.diags@[self.diags@.len() - 1].span == lv.base.span); assert(flagged(self.diags@, "E0108"@, lv.base.span)); }
            }
            None => {
                if env_contains(env, &lv.base.name) {
                    self.err(
                        file,
                        lv.base.span,
                        "E0108",
                        cat(&["cannot assign to `", lv.base.name.as_str(), "` — it is a constant"]),
                        owned("consts are compile-time values; use a `wire` or `reg` for something that varies"),
                    );
                    proof { assert(self.diags@[self.diags@.len() - 1].span == lv.base.span); assert(flagged(self.diags@, "E0108"@, lv.base.span)); }
                } else {
                    self.unknown(file, &lv.base.name, lv.base.span);
                }
            }
        }
        if let Some((i, hi)) = &lv.index {
            let ghost mid = *self;
            self.expr(file, sc, env, i);
            if let Some(hi) = hi {
                let ghost mid2 = *self;
                self.expr(file, sc, env, hi);
                proof { lemma_flag_kept(mid2.diags@, self.diags@); }
            }
            proof { lemma_flag_kept(mid.diags@, self.diags@); }
        }
    }

    /// Names in an expression: every identifier declared, fields only on
    /// instances, enums and bundle-typed signals, enum variants real,
    /// calls only to declared functions with the right argument count,
    /// and OR-pattern alternatives binding the same names and types.
    #[verifier::loop_isolation(false)]
    pub fn expr(&mut self, file: usize, sc: &Scope<'a>, env: &Env, e: &Expr)
        requires
            old(self).inv(),
            file < old(self).files@.len(),
            env_wf(env@),
        ensures
            final(self).grew_from(&*old(self)),
            final(self).file_consts == old(self).file_consts,
            forall|n: Seq<char>, sp: Span| #[trigger] unbound_read(*e, *sc, env@, n, sp)
                ==> flagged(final(self).diags@, "E0101"@, sp),
            field_checked(final(self).diags@, *e, *sc, old(self).files@),
            e.kind matches ExprKind::Ident(name) ==> if scope_binds(*sc, name@) || env_lookup(env@, name@) is Some {
                final(self).diags@ == old(self).diags@
            } else {
                &&& final(self).diags@.len() == old(self).diags@.len() + 1
                &&& final(self).diags@.drop_last() == old(self).diags@
                &&& final(self).diags@.last().code == Some("E0101")
                &&& final(self).diags@.last().span == e.span
            },
        decreases e,
    {
        let ghost start = *self;
        match &e.kind {
            ExprKind::Int { .. } | ExprKind::Bool(_) => {}
            ExprKind::Ident(name) => {
                if !sc.contains(name) && !env_contains(env, name) {
                    self.unknown(file, name, e.span);
                }
            }
            ExprKind::Field { base, field } => {
                let mut core: &Expr = base;
                if let ExprKind::Index { base: b, index } = &base.kind {
                    if let ExprKind::Ident(_) = &b.kind {
                        self.expr(file, sc, env, index);
                        core = b;
                    }
                }
                proof { assert(*core == field_core(**base)); }
                let name = match &core.kind {
                    ExprKind::Ident(name) => name,
                    _ => {
                        self.err(
                            file,
                            field.span,
                            "E0105",
                            owned("only enums and instances have fields"),
                            owned("`.` reads an enum variant (`State.Red`) or an instance output (`add.sum`)"),
                        );
                        proof {
                            assert(self.diags@[self.diags@.len() - 1].span == field.span);
                            assert(flagged(self.diags@, "E0105"@, field.span));
                        }
                        let ghost s1 = self.diags@;
                        self.expr(file, sc, env, base);
                        proof { lemma_flag_kept(s1, self.diags@); }
                        return;
                    }
                };
                match sc.get(name) {
                    Some(Bind::Inst(inst)) => self.inst_output(file, inst, field),
                    Some(Bind::In) | Some(Bind::Out) | Some(Bind::Wire) | Some(Bind::Reg) | Some(Bind::Param) => {
                        // A bundle field access; the width pass checks it.
                    }
                    Some(Bind::Enum(en)) => self.check_variant(file, name, en, field),
                    Some(b) => {
                        match self.lookup_enum(sc, name) {
                            Some(en) => self.check_variant(file, name, en, field),
                            None => {
                                let what = b.what();
                                self.err(
                                    file,
                                    field.span,
                                    "E0105",
                                    cat(&["`", name.as_str(), "` is ", what, " — it has no fields"]),
                                    owned(
                                        "`.` reads an enum variant (`State.Red`), an instance output (`add.sum`), or a bundle field (`bus.valid`)",
                                    ),
                                );
                                proof {
                                    assert(self.diags@[self.diags@.len() - 1].span == field.span);
                                    assert(flagged(self.diags@, "E0105"@, field.span));
                                }
                            }
                        }
                    }
                    None => match self.lookup_enum(sc, name) {
                        Some(en) => self.check_variant(file, name, en, field),
                        None => self.unknown(file, name, core.span),
                    },
                }
            }
            ExprKind::Unary { expr, .. } => {
                self.expr(file, sc, env, expr);
                proof {
                    assert forall|n: Seq<char>, sp: Span| #[trigger] unbound_read(*e, *sc, env@, n, sp)
                        implies flagged(self.diags@, "E0101"@, sp) by {
                        assert(unbound_read(**expr, *sc, env@, n, sp));
                    }
                }
            }
            ExprKind::Binary { lhs, rhs, .. } => {
                self.expr(file, sc, env, lhs);
                let ghost s1 = self.diags@;
                self.expr(file, sc, env, rhs);
                proof {
                    lemma_flag_kept(s1, self.diags@);
                    assert forall|n: Seq<char>, sp: Span| #[trigger] unbound_read(*e, *sc, env@, n, sp)
                        implies flagged(self.diags@, "E0101"@, sp) by {
                        if plain_read(**lhs, n, sp) {
                            assert(unbound_read(**lhs, *sc, env@, n, sp));
                        } else {
                            assert(unbound_read(**rhs, *sc, env@, n, sp));
                        }
                    }
                }
            }
            ExprKind::IfExpr { cond, then, els } => {
                self.expr(file, sc, env, cond);
                let ghost s1 = self.diags@;
                self.expr(file, sc, env, then);
                let ghost s2 = self.diags@;
                self.expr(file, sc, env, els);
                proof {
                    lemma_flag_kept(s1, s2);
                    lemma_flag_kept(s2, self.diags@);
                    assert forall|n: Seq<char>, sp: Span| #[trigger] unbound_read(*e, *sc, env@, n, sp)
                        implies flagged(self.diags@, "E0101"@, sp) by {
                        if plain_read(**cond, n, sp) {
                            assert(unbound_read(**cond, *sc, env@, n, sp));
                        } else if plain_read(**then, n, sp) {
                            assert(unbound_read(**then, *sc, env@, n, sp));
                        } else {
                            assert(unbound_read(**els, *sc, env@, n, sp));
                        }
                    }
                }
            }
            ExprKind::Match { scrutinee, arms } => {
                self.expr(file, sc, env, scrutinee);
                let ghost s1 = self.diags@;
                let ghost g1 = *self;
                let mut a: usize = 0;
                while a < arms.len()
                    invariant
                        self.grew_from(&start),
                        self.file_consts == start.file_consts,
                        self.grew_from(&g1),
                        self.file_consts == g1.file_consts,
                    decreases arms@.len() - a,
                {
                    let ghost before = *self;
                    let arm_sc = self.arm_scope(file, sc, &arms[a]);
                    self.expr(file, &arm_sc, env, &arms[a].value);
                    proof { lemma_grew_trans(&g1, &before, self); }
                    a += 1;
                }
                proof {
                    lemma_flag_kept(s1, self.diags@);
                    assert forall|n: Seq<char>, sp: Span| #[trigger] unbound_read(*e, *sc, env@, n, sp)
                        implies flagged(self.diags@, "E0101"@, sp) by {
                        assert(unbound_read(**scrutinee, *sc, env@, n, sp));
                    }
                }
            }
            ExprKind::Concat(parts) | ExprKind::ArrayLit(parts) => {
                self.exprs(file, sc, env, parts);
                proof {
                    assert forall|n: Seq<char>, sp: Span| #[trigger] unbound_read(*e, *sc, env@, n, sp)
                        implies flagged(self.diags@, "E0101"@, sp) by {
                        assert(plain_read_any(parts@, n, sp));
                    }
                }
            }
            ExprKind::Replicate { count, parts } => {
                self.expr(file, sc, env, count);
                let ghost s1 = self.diags@;
                self.exprs(file, sc, env, parts);
                proof {
                    lemma_flag_kept(s1, self.diags@);
                    assert forall|n: Seq<char>, sp: Span| #[trigger] unbound_read(*e, *sc, env@, n, sp)
                        implies flagged(self.diags@, "E0101"@, sp) by {
                        if plain_read(**count, n, sp) {
                            assert(unbound_read(**count, *sc, env@, n, sp));
                        } else {
                            assert(plain_read_any(parts@, n, sp));
                        }
                    }
                }
            }
            ExprKind::Index { base, index } => {
                self.expr(file, sc, env, base);
                let ghost s1 = self.diags@;
                self.expr(file, sc, env, index);
                proof {
                    lemma_flag_kept(s1, self.diags@);
                    assert forall|n: Seq<char>, sp: Span| #[trigger] unbound_read(*e, *sc, env@, n, sp)
                        implies flagged(self.diags@, "E0101"@, sp) by {
                        if plain_read(**base, n, sp) {
                            assert(unbound_read(**base, *sc, env@, n, sp));
                        } else {
                            assert(unbound_read(**index, *sc, env@, n, sp));
                        }
                    }
                }
            }
            ExprKind::Slice { base, hi, lo } => {
                self.expr(file, sc, env, base);
                let ghost s1 = self.diags@;
                self.expr(file, sc, env, hi);
                let ghost s2 = self.diags@;
                self.expr(file, sc, env, lo);
                proof {
                    lemma_flag_kept(s1, s2);
                    lemma_flag_kept(s2, self.diags@);
                    assert forall|n: Seq<char>, sp: Span| #[trigger] unbound_read(*e, *sc, env@, n, sp)
                        implies flagged(self.diags@, "E0101"@, sp) by {
                        if plain_read(**base, n, sp) {
                            assert(unbound_read(**base, *sc, env@, n, sp));
                        } else if plain_read(**hi, n, sp) {
                            assert(unbound_read(**hi, *sc, env@, n, sp));
                        } else {
                            assert(unbound_read(**lo, *sc, env@, n, sp));
                        }
                    }
                }
            }
            ExprKind::Call { args, .. } => {
                self.exprs(file, sc, env, args);
                proof {
                    assert forall|n: Seq<char>, sp: Span| #[trigger] unbound_read(*e, *sc, env@, n, sp)
                        implies flagged(self.diags@, "E0101"@, sp) by {
                        assert(plain_read_any(args@, n, sp));
                    }
                }
            }
            ExprKind::FnCall { name, args } => {
                match self.func_named(&name.name) {
                    Some((_, decl)) => {
                        let expected = decl.params.len();
                        let got = args.len();
                        if expected != got {
                            let es = num(expected);
                            let gs = num(got);
                            self.err(
                                file,
                                name.span,
                                "E0803",
                                cat(&["`", name.name.as_str(), "` takes ", es.as_str(), " argument(s), got ", gs.as_str()]),
                                cat(&["pass exactly ", es.as_str(), " argument(s) to `", name.name.as_str(), "`"]),
                            );
                        }
                    }
                    None => {
                        self.err(
                            file,
                            name.span,
                            "E1110",
                            cat(&["`", name.name.as_str(), "` is not a function or builtin — only declared `fn`s and builtins are callable"]),
                            owned("declare a `fn` with this name, or use a builtin (`extend`, `trunc`, `signed`, `unsigned`)"),
                        );
                    }
                }
                let ghost g1 = *self;
                self.exprs(file, sc, env, args);
                proof {
                    lemma_grew_trans(&start, &g1, self);
                    assert forall|n: Seq<char>, sp: Span| #[trigger] unbound_read(*e, *sc, env@, n, sp)
                        implies flagged(self.diags@, "E0101"@, sp) by {
                        assert(plain_read_any(args@, n, sp));
                    }
                }
            }
            ExprKind::BundleLit(fields) => {
                self.field_values(file, sc, env, fields);
                proof {
                    assert forall|n: Seq<char>, sp: Span| #[trigger] unbound_read(*e, *sc, env@, n, sp)
                        implies flagged(self.diags@, "E0101"@, sp) by {
                        assert(plain_read_fields(fields@, n, sp));
                    }
                }
            }
            ExprKind::EnumConstruct { enum_name, variant, args } => {
                match self.lookup_enum(sc, &enum_name.name) {
                    Some(en) => {
                        match find_variant(en, &variant.name) {
                            Some(decl_v) => {
                                let expected = decl_v.fields.len();
                                let got = args.len();
                                if expected != got {
                                    let es = num(expected);
                                    let gs = num(got);
                                    let help = if expected == 0 {
                                        cat(&["`", enum_name.name.as_str(), ".", variant.name.as_str(), "` is tag-only — remove the `(...)` argument list"])
                                    } else {
                                        cat(&["provide exactly ", es.as_str(), " argument(s) — one per payload field"])
                                    };
                                    self.err(
                                        file,
                                        variant.span,
                                        "E0806",
                                        cat(&[
                                            "construction of `", enum_name.name.as_str(), ".", variant.name.as_str(),
                                            "` passes ", gs.as_str(), " argument(s) but the variant has ", es.as_str(), " field(s)",
                                        ]),
                                        help,
                                    );
                                }
                            }
                            None => self.no_such_variant(file, &enum_name.name, en, variant),
                        }
                    }
                    None => self.unknown(file, &enum_name.name, enum_name.span),
                }
                let ghost g1 = *self;
                self.exprs(file, sc, env, args);
                proof {
                    lemma_grew_trans(&start, &g1, self);
                    assert forall|n: Seq<char>, sp: Span| #[trigger] unbound_read(*e, *sc, env@, n, sp)
                        implies flagged(self.diags@, "E0101"@, sp) by {
                        assert(plain_read_any(args@, n, sp));
                    }
                }
            }
        }
    }

    /// Names in each expression of a list.
    #[verifier::loop_isolation(false)]
    pub fn exprs(&mut self, file: usize, sc: &Scope<'a>, env: &Env, es: &Vec<Expr>)
        requires
            old(self).inv(),
            file < old(self).files@.len(),
            env_wf(env@),
        ensures
            final(self).grew_from(&*old(self)),
            final(self).file_consts == old(self).file_consts,
            forall|n: Seq<char>, sp: Span| #[trigger] plain_read_any(es@, n, sp) && !scope_binds(*sc, n)
                && consteval::env_lookup(env@, n) is None ==> flagged(final(self).diags@, "E0101"@, sp),
        decreases es, 1nat,
    {
        let ghost start = *self;
        let mut k: usize = 0;
        while k < es.len()
            invariant
                k <= es@.len(),
                self.grew_from(&start),
                self.file_consts == start.file_consts,
                file < self.files@.len(),
                forall|n: Seq<char>, sp: Span| #[trigger] plain_read_any(es@.subrange(0, k as int), n, sp) && !scope_binds(*sc, n)
                    && consteval::env_lookup(env@, n) is None ==> flagged(self.diags@, "E0101"@, sp),
            decreases es@.len() - k,
        {
            let ghost before = *self;
            self.expr(file, sc, env, &es[k]);
            proof {
                lemma_grew_trans(&start, &before, self);
                lemma_flag_kept(before.diags@, self.diags@);
                assert(es@.subrange(0, k + 1).drop_last() =~= es@.subrange(0, k as int));
                assert forall|n: Seq<char>, sp: Span| #[trigger] plain_read_any(es@.subrange(0, k + 1), n, sp) && !scope_binds(*sc, n)
                    && consteval::env_lookup(env@, n) is None implies flagged(self.diags@, "E0101"@, sp) by {
                    if plain_read_any(es@.subrange(0, k as int), n, sp) {
                        assert(flagged(before.diags@, "E0101"@, sp));
                    } else {
                        assert(unbound_read(es@[k as int], *sc, env@, n, sp));
                    }
                }
            }
            k += 1;
        }
        proof {
            assert(es@.subrange(0, es@.len() as int) =~= es@);
        }
    }

    /// Names in each field value of a bundle literal.
    #[verifier::loop_isolation(false)]
    pub fn field_values(&mut self, file: usize, sc: &Scope<'a>, env: &Env, fs: &Vec<crate::ast::FieldInit>)
        requires
            old(self).inv(),
            file < old(self).files@.len(),
            env_wf(env@),
        ensures
            final(self).grew_from(&*old(self)),
            final(self).file_consts == old(self).file_consts,
            forall|n: Seq<char>, sp: Span| #[trigger] plain_read_fields(fs@, n, sp) && !scope_binds(*sc, n)
                && consteval::env_lookup(env@, n) is None ==> flagged(final(self).diags@, "E0101"@, sp),
        decreases fs, 1nat,
    {
        let ghost start = *self;
        let mut k: usize = 0;
        while k < fs.len()
            invariant
                k <= fs@.len(),
                self.grew_from(&start),
                self.file_consts == start.file_consts,
                file < self.files@.len(),
                forall|n: Seq<char>, sp: Span| #[trigger] plain_read_fields(fs@.subrange(0, k as int), n, sp) && !scope_binds(*sc, n)
                    && consteval::env_lookup(env@, n) is None ==> flagged(self.diags@, "E0101"@, sp),
            decreases fs@.len() - k,
        {
            let ghost before = *self;
            self.expr(file, sc, env, &fs[k].value);
            proof {
                lemma_grew_trans(&start, &before, self);
                lemma_flag_kept(before.diags@, self.diags@);
                assert(fs@.subrange(0, k + 1).drop_last() =~= fs@.subrange(0, k as int));
                assert forall|n: Seq<char>, sp: Span| #[trigger] plain_read_fields(fs@.subrange(0, k + 1), n, sp) && !scope_binds(*sc, n)
                    && consteval::env_lookup(env@, n) is None implies flagged(self.diags@, "E0101"@, sp) by {
                    if plain_read_fields(fs@.subrange(0, k as int), n, sp) {
                        assert(flagged(before.diags@, "E0101"@, sp));
                    } else {
                        assert(unbound_read(fs@[k as int].value, *sc, env@, n, sp));
                    }
                }
            }
            k += 1;
        }
        proof {
            assert(fs@.subrange(0, fs@.len() as int) =~= fs@);
        }
    }


    /// E0103 unless `field` names a variant of `en`.
    fn check_variant(&mut self, file: usize, name: &String, en: &EnumDecl, field: &Ident)
        requires
            old(self).inv(),
            file < old(self).files@.len(),
        ensures
            final(self).grew_from(&*old(self)),
            final(self).file_consts == old(self).file_consts,
            (forall|k: int| 0 <= k < en.variants@.len() ==> #[trigger] en.variants@[k].name.name@ != field.name@)
                ==> flagged(final(self).diags@, "E0103"@, field.span),
            (exists|k: int| 0 <= k < en.variants@.len() && #[trigger] en.variants@[k].name.name@ == field.name@)
                ==> final(self).diags@ == old(self).diags@,
    {
        if find_variant(en, &field.name).is_none() {
            self.no_such_variant(file, name, en, field);
        }
    }

    /// E0103: `en` has no variant `variant`.
    fn no_such_variant(&mut self, file: usize, enum_name: &String, en: &EnumDecl, variant: &Ident)
        requires
            old(self).inv(),
            file < old(self).files@.len(),
        ensures
            final(self).grew_from(&*old(self)),
            final(self).file_consts == old(self).file_consts,
            final(self).diags@.len() == old(self).diags@.len() + 1,
            final(self).diags@.last().code == Some("E0103"),
            final(self).diags@.last().span == variant.span,
            flagged(final(self).diags@, "E0103"@, variant.span),
    {
        let list = variant_list(en);
        self.err(
            file,
            variant.span,
            "E0103",
            cat(&["enum `", enum_name.as_str(), "` has no variant `", variant.name.as_str(), "`"]),
            cat(&["`", enum_name.as_str(), "`'s variants are: ", list.as_str()]),
        );
        proof { assert(self.diags@[self.diags@.len() - 1].span == variant.span); }
    }

    /// The scope an arm's value sees: the enclosing one plus the names its
    /// pattern binds — once the pattern checks out (E0806, E0103), and
    /// for an OR-pattern once every alternative binds the same names with
    /// the same types (E0808).
    #[verifier::loop_isolation(false)]
    fn arm_scope(&mut self, file: usize, sc: &Scope<'a>, arm: &Arm) -> (r: Scope<'a>)
        requires
            old(self).inv(),
            file < old(self).files@.len(),
        ensures
            final(self).grew_from(&*old(self)),
            final(self).file_consts == old(self).file_consts,
            forall|x: Seq<char>| #[trigger] scope_binds(r, x) ==> scope_binds(*sc, x) || pattern_binds(arm.patterns@, x),
            forall|x: Seq<char>| #[trigger] scope_binds(*sc, x) ==> scope_binds(r, x),
    {
        let ghost start = *self;
        let mut arm_sc = sc.copy();
        let ghost pats = arm.patterns@;
        let mut skip = false;
        let mut alts: Vec<AltBindings> = Vec::new();
        let mut p: usize = 0;
        while p < arm.patterns.len()
            invariant
                self.grew_from(&start),
                self.file_consts == start.file_consts,
                file < self.files@.len(),
                pats == arm.patterns@,
                forall|x: Seq<char>| #[trigger] scope_binds(arm_sc, x) <==> scope_binds(*sc, x),
                forall|i: int, k: int| 0 <= i < alts@.len() && 0 <= k < alts@[i].names@.len()
                    ==> pattern_binds(pats, (#[trigger] alts@[i].names@[k])@),
            decreases arm.patterns@.len() - p,
        {
            match &arm.patterns[p] {
                Pattern::Variant { enum_name, variant, bindings } => {
                    match self.lookup_enum(sc, &enum_name.name) {
                        Some(en) => match find_variant(en, &variant.name) {
                            Some(decl_v) => {
                                let expected = decl_v.fields.len();
                                let got = bindings.len();
                                if expected != got {
                                    let es = num(expected);
                                    let gs = num(got);
                                    let help = if expected == 0 {
                                        cat(&["`", enum_name.name.as_str(), ".", variant.name.as_str(), "` is tag-only — remove the `(...)` binding list"])
                                    } else {
                                        cat(&["provide exactly ", es.as_str(), " binding(s) — one per payload field"])
                                    };
                                    self.err(
                                        file,
                                        variant.span,
                                        "E0806",
                                        cat(&[
                                            "pattern for `", enum_name.name.as_str(), ".", variant.name.as_str(),
                                            "` binds ", gs.as_str(), " name(s) but the variant has ", es.as_str(), " field(s)",
                                        ]),
                                        help,
                                    );
                                    skip = true;
                                } else {
                                    let mut names: Vec<String> = Vec::new();
                                    let mut types: Vec<String> = Vec::new();
                                    let mut k: usize = 0;
                                    while k < bindings.len()
                                        invariant
                                            k <= bindings@.len(),
                                            bindings@.len() == decl_v.fields@.len(),
                                            names@.len() == k,
                                            forall|j: int| 0 <= j < k ==> (#[trigger] names@[j])@ == bindings@[j].name@,
                                        decreases bindings@.len() - k,
                                    {
                                        names.push(bindings[k].name.clone());
                                        types.push(type_str(&decl_v.fields[k].ty));
                                        k += 1;
                                    }
                                    let ghost pre_alts = alts@;
                                    let ghost nm = names@;
                                    alts.push(AltBindings { span: variant.span, names, types });
                                    proof {
                                        assert forall|i: int, k2: int| 0 <= i < alts@.len() && 0 <= k2 < alts@[i].names@.len()
                                            implies pattern_binds(pats, (#[trigger] alts@[i].names@[k2])@) by {
                                            if i < pre_alts.len() {
                                                assert(alts@[i] == pre_alts[i]);
                                            } else {
                                                assert(alts@[i].names@ == nm);
                                                assert(pats[p as int]->Variant_bindings@[k2].name@ == nm[k2]@);
                                            }
                                        }
                                    }
                                }
                            }
                            None => {
                                self.no_such_variant(file, &enum_name.name, en, variant);
                                skip = true;
                            }
                        },
                        None => {
                            self.unknown(file, &enum_name.name, enum_name.span);
                            skip = true;
                        }
                    }
                }
                _ => {
                    let ghost pre_alts = alts@;
                    alts.push(AltBindings { span: arm.value.span, names: Vec::new(), types: Vec::new() });
                    proof {
                        assert forall|i: int, k2: int| 0 <= i < alts@.len() && 0 <= k2 < alts@[i].names@.len()
                            implies pattern_binds(pats, (#[trigger] alts@[i].names@[k2])@) by {
                            if i < pre_alts.len() {
                                assert(alts@[i] == pre_alts[i]);
                            }
                        }
                    }
                }
            }
            p += 1;
        }
        if skip || alts.len() <= 1 {
            let mut a: usize = 0;
            while a < alts.len()
                invariant
                    a <= alts@.len(),
                    forall|x: Seq<char>| #[trigger] scope_binds(arm_sc, x) ==> scope_binds(*sc, x) || pattern_binds(pats, x),
                    forall|x: Seq<char>| #[trigger] scope_binds(*sc, x) ==> scope_binds(arm_sc, x),
                decreases alts@.len() - a,
            {
                let mut k: usize = 0;
                while k < alts[a].names.len()
                    invariant
                        a < alts@.len(),
                        k <= alts@[a as int].names@.len(),
                        forall|x: Seq<char>| #[trigger] scope_binds(arm_sc, x) ==> scope_binds(*sc, x) || pattern_binds(pats, x),
                        forall|x: Seq<char>| #[trigger] scope_binds(*sc, x) ==> scope_binds(arm_sc, x),
                    decreases alts@[a as int].names@.len() - k,
                {
                    proof { assert(pattern_binds(pats, alts@[a as int].names@[k as int]@)); }
                    arm_sc.insert(alts[a].names[k].clone(), Bind::Param);
                    k += 1;
                }
                a += 1;
            }
            return arm_sc;
        }
        let reference = &alts[0];
        let ref_list = join_names(&reference.names);
        let mut a: usize = 1;
        while a < alts.len()
            invariant
                self.grew_from(&start),
                self.file_consts == start.file_consts,
                file < self.files@.len(),
                1 <= a <= alts@.len(),
            decreases alts@.len() - a,
        {
            if !same_names(&reference.names, &alts[a].names) {
                let cur_list = join_names(&alts[a].names);
                self.err(
                    file,
                    alts[a].span,
                    "E0808",
                    owned("OR-pattern alternatives must bind the same variables"),
                    cat(&["expected: {", ref_list.as_str(), "}; this alternative provides: {", cur_list.as_str(), "}"]),
                );
                return arm_sc;
            }
            a += 1;
        }
        let order = super::super::funcs::sorted_by_name(&reference.names);
        let mut a: usize = 1;
        while a < alts.len()
            invariant
                self.grew_from(&start),
                self.file_consts == start.file_consts,
                file < self.files@.len(),
                1 <= a <= alts@.len(),
                order@.len() == reference.names@.len(),
                forall|q: int| 0 <= q < order@.len() ==> #[trigger] order@[q] < reference.names@.len(),
            decreases alts@.len() - a,
        {
            let mut q: usize = 0;
            while q < order.len()
                invariant
                    self.grew_from(&start),
                    self.file_consts == start.file_consts,
                    file < self.files@.len(),
                    1 <= a < alts@.len(),
                    q <= order@.len(),
                    order@.len() == reference.names@.len(),
                    forall|x: int| 0 <= x < order@.len() ==> #[trigger] order@[x] < reference.names@.len(),
                decreases order@.len() - q,
            {
                let i = order[q];
                if i < reference.types.len() && i < alts[a].types.len() && reference.types[i] != alts[a].types[i] {
                    self.err(
                        file,
                        alts[a].span,
                        "E0808",
                        cat(&["binding `", reference.names[i].as_str(), "` has incompatible types across OR-pattern alternatives"]),
                        cat(&["first alternative: ", reference.types[i].as_str(), "; this alternative: ", alts[a].types[i].as_str()]),
                    );
                    return arm_sc;
                }
                q += 1;
            }
            a += 1;
        }
        let mut k: usize = 0;
        while k < reference.names.len()
            invariant
                k <= reference.names@.len(),
                alts@.len() > 1,
                *reference == alts@[0],
                forall|x: Seq<char>| #[trigger] scope_binds(arm_sc, x) ==> scope_binds(*sc, x) || pattern_binds(pats, x),
                forall|x: Seq<char>| #[trigger] scope_binds(*sc, x) ==> scope_binds(arm_sc, x),
            decreases reference.names@.len() - k,
        {
            proof { assert(pattern_binds(pats, alts@[0].names@[k as int]@)); }
            arm_sc.insert(reference.names[k].clone(), Bind::Param);
            k += 1;
        }
        arm_sc
    }
}

} // verus!
