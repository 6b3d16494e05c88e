//! Names in function declarations, and the type rules that need only
//! names: array-typed module signals (E0416) and bundle field types
//! (E0807, E0906).

use vstd::prelude::*;

use crate::ast::{array_like_len_fn, FnParam, FnStmt, ForEachSource, FuncDecl, Type};
use crate::span::Span;
use crate::text::{cat, owned};

use super::super::consteval::{copy_env, env_has, env_lookup, env_insert, env_restore, env_wf, lemma_scoped_binding, lemma_scoped_values, ConstVal, Env};
use super::super::symbols::DeclKind;
use super::super::Checker;
use super::{flagged, lemma_flag_kept, scope_binds, Bind, Scope};
use super::items::unknown_bundle_type;

verus! {

/// Some `let` among `stmts` (this level only) binds `x`.
pub open spec fn fn_lets(stmts: Seq<FnStmt>, x: Seq<char>) -> bool {
    exists|j: int| 0 <= j < stmts.len() && #[trigger] stmts[j] is Let && stmts[j]->Let_0.name.name@ == x
}

impl<'a> Checker<'a> {
    /// Names in a function: parameter and return types, then every
    /// statement and the tail.
    pub fn check_func_names(&mut self, file: usize, func: &'a FuncDecl)
        requires
            old(self).inv(),
            file < old(self).files@.len(),
        ensures
            final(self).grew_from(&*old(self)),
            final(self).file_consts == old(self).file_consts,
            forall|k: int| 0 <= k < func.params@.len() && #[trigger] unknown_bundle_type(old(self).files@, func.params@[k].ty)
                ==> flagged(final(self).diags@, "E0906"@, func.params@[k].ty->Bundle_name.span),
            unknown_bundle_type(old(self).files@, func.ret) ==> flagged(final(self).diags@, "E0906"@, func.ret->Bundle_name.span),
    {
        let ghost start = *self;
        let mut env = copy_env(&self.file_consts[file]);
        let mut sc = Scope::new();
        let mut k: usize = 0;
        while k < func.params.len()
            invariant
                self.grew_from(&start),
                self.file_consts == start.file_consts,
                file < self.files@.len(),
                env_wf(env@),
                forall|j: int| 0 <= j < k && #[trigger] unknown_bundle_type(start.files@, func.params@[j].ty)
                    ==> flagged(self.diags@, "E0906"@, func.params@[j].ty->Bundle_name.span),
            decreases func.params@.len() - k,
        {
            let ghost pre = *self;
            self.ty(file, &sc, &env, &func.params[k].ty);
            sc.insert(func.params[k].name.name.clone(), Bind::Param);
            proof { lemma_flag_kept(pre.diags@, self.diags@); }
            k += 1;
        }
        let ghost s1 = *self;
        self.ty(file, &sc, &env, &func.ret);
        proof { lemma_flag_kept(s1.diags@, self.diags@); }
        let ghost s2 = *self;
        self.check_fn_stmt_names(file, &mut sc, &mut env, &func.params, &func.stmts);
        let ghost s3 = *self;
        self.expr(file, &sc, &env, &func.tail);
        proof {
            lemma_flag_kept(s2.diags@, s3.diags@);
            lemma_flag_kept(s3.diags@, self.diags@);
        }
    }

    /// Names in a function's statements, threading `let` bindings forward.
    /// A binding made inside a branch or loop body stays there.
    #[verifier::loop_isolation(false)]
    fn check_fn_stmt_names(
        &mut self,
        file: usize,
        sc: &mut Scope<'a>,
        env: &mut Env,
        params: &Vec<FnParam>,
        stmts: &Vec<FnStmt>,
    )
        requires
            old(self).inv(),
            file < old(self).files@.len(),
            env_wf(old(env)@),
        ensures
            final(self).grew_from(&*old(self)),
            final(self).file_consts == old(self).file_consts,
            env_wf(final(env)@),
            forall|x: Seq<char>| #[trigger] env_has(final(env)@, x) == env_has(old(env)@, x),
            forall|x: Seq<char>| #[trigger] env_lookup(final(env)@, x) == env_lookup(old(env)@, x),
            forall|x: Seq<char>| #[trigger] scope_binds(*final(sc), x) <==> scope_binds(*old(sc), x) || fn_lets(stmts@, x),
        decreases stmts,
    {
        let ghost start = *self;
        let ghost start_env = env@;
        let ghost sc0 = *sc;
        let mut i: usize = 0;
        while i < stmts.len()
            invariant
                self.grew_from(&start),
                self.file_consts == start.file_consts,
                env_wf(env@),
                i <= stmts@.len(),
                forall|x: Seq<char>| #[trigger] env_has(env@, x) == env_has(start_env, x),
                forall|x: Seq<char>| #[trigger] env_lookup(env@, x) == env_lookup(start_env, x),
                forall|x: Seq<char>| #[trigger] scope_binds(*sc, x) <==> scope_binds(sc0, x) || fn_lets(stmts@.subrange(0, i as int), x),
            decreases stmts@.len() - i,
        {
            let ghost e0 = env@;
            let ghost sci = *sc;
            proof {
                assert forall|x: Seq<char>| fn_lets(stmts@.subrange(0, i + 1), x) <==> fn_lets(stmts@.subrange(0, i as int), x)
                    || (stmts@[i as int] is Let && stmts@[i as int]->Let_0.name.name@ == x) by {
                    if fn_lets(stmts@.subrange(0, i + 1), x) {
                        let j = choose|j: int| 0 <= j < stmts@.subrange(0, i + 1).len() && #[trigger] stmts@.subrange(0, i + 1)[j] is Let
                            && stmts@.subrange(0, i + 1)[j]->Let_0.name.name@ == x;
                        if j < i {
                            assert(stmts@.subrange(0, i as int)[j] == stmts@.subrange(0, i + 1)[j]);
                        }
                    }
                    if fn_lets(stmts@.subrange(0, i as int), x) {
                        let j = choose|j: int| 0 <= j < stmts@.subrange(0, i as int).len() && #[trigger] stmts@.subrange(0, i as int)[j] is Let
                            && stmts@.subrange(0, i as int)[j]->Let_0.name.name@ == x;
                        assert(stmts@.subrange(0, i + 1)[j] == stmts@.subrange(0, i as int)[j]);
                    }
                    if stmts@[i as int] is Let && stmts@[i as int]->Let_0.name.name@ == x {
                        assert(stmts@.subrange(0, i + 1)[i as int] == stmts@[i as int]);
                    }
                }
            }
            match &stmts[i] {
                FnStmt::Let(local) => {
                    self.expr(file, sc, env, &local.value);
                    sc.insert(local.name.name.clone(), Bind::Const);
                }
                FnStmt::If { cond, then, els } => {
                    self.expr(file, sc, env, cond);
                    let mut then_sc = sc.copy();
                    self.check_fn_stmt_names(file, &mut then_sc, env, params, then);
                    if let Some(els) = els {
                        let mut els_sc = sc.copy();
                        self.check_fn_stmt_names(file, &mut els_sc, env, params, els);
                    }
                }
                FnStmt::Return(expr) => self.expr(file, sc, env, expr),
                FnStmt::Loop { var, lo, hi, body, .. } => {
                    let lo_v = self.const_pos(file, env, lo);
                    self.const_pos(file, env, hi);
                    let start_value = match lo_v {
                        Some(v) => v,
                        None => 0,
                    };
                    let shadowed = env_insert(env, var.name.clone(), ConstVal::from_i128(start_value));
                    let ghost e1 = env@;
                    let mut loop_sc = sc.copy();
                    self.check_fn_stmt_names(file, &mut loop_sc, env, params, body);
                    let ghost e2 = env@;
                    env_restore(env, var.name.clone(), shadowed);
                    proof { lemma_scoped_binding(e0, e1, e2, env@, var.name@, shadowed);
                    lemma_scoped_values(e0, e1, e2, env@, var.name@, shadowed); }
                }
                FnStmt::ForEach { var, source, body, .. } => {
                    // A loop over the range, or over the indices of one of
                    // the function's own array parameters, with `var`
                    // bound to the element by a `let` at the top of the
                    // body.
                    let mut ok = true;
                    let mut start_value: i128 = 0;
                    match source {
                        ForEachSource::Elements(arr) => {
                            if array_like_len_fn(arr.name.as_str(), params.as_slice()).is_none() {
                                self.not_array_like(file, var, arr);
                                ok = false;
                            }
                        }
                        ForEachSource::Range { lo, hi } => {
                            let lo_v = self.const_pos(file, env, lo);
                            self.const_pos(file, env, hi);
                            if let Some(v) = lo_v {
                                start_value = v;
                            }
                        }
                    }
                    if ok {
                        let shadowed = env_insert(env, var.name.clone(), ConstVal::from_i128(start_value));
                        let ghost e1 = env@;
                        let mut loop_sc = sc.copy();
                        if let ForEachSource::Elements(_) = source {
                            loop_sc.insert(var.name.clone(), Bind::Const);
                        }
                        self.check_fn_stmt_names(file, &mut loop_sc, env, params, body);
                        let ghost e2 = env@;
                        env_restore(env, var.name.clone(), shadowed);
                        proof { lemma_scoped_binding(e0, e1, e2, env@, var.name@, shadowed);
                    lemma_scoped_values(e0, e1, e2, env@, var.name@, shadowed); }
                    }
                }
                FnStmt::Error(_) => {}
            }
            proof {
                assert forall|x: Seq<char>| #[trigger] scope_binds(*sc, x) <==> scope_binds(sc0, x) || fn_lets(stmts@.subrange(0, i + 1), x) by {
                    assert(fn_lets(stmts@.subrange(0, i + 1), x) <==> fn_lets(stmts@.subrange(0, i as int), x)
                        || (stmts@[i as int] is Let && stmts@[i as int]->Let_0.name.name@ == x));
                    assert(scope_binds(sci, x) <==> scope_binds(sc0, x) || fn_lets(stmts@.subrange(0, i as int), x));
                    if !(stmts@[i as int] is Let) {
                        assert(*sc == sci);
                    }
                }
            }
            i += 1;
        }
        proof {
            assert(stmts@.subrange(0, stmts@.len() as int) =~= stmts@);
        }
    }

    /// E0416: ports, wires and registers cannot be array-typed (arrays are
    /// for function parameters only).
    pub fn reject_array_signal_type(&mut self, file: usize, ty: &Type, span: Span, what: &str)
        requires
            old(self).inv(),
            file < old(self).files@.len(),
        ensures
            final(self).grew_from(&*old(self)),
            final(self).file_consts == old(self).file_consts,
            !(*ty is Array) ==> final(self).diags@ == old(self).diags@,
            *ty is Array ==> final(self).diags@.len() == old(self).diags@.len() + 1
                && final(self).diags@.last().code == Some("E0416") && final(self).diags@.last().span == span,
    {
        if let Type::Array { .. } = ty {
            self.err(
                file,
                span,
                "E0416",
                cat(&[what, " cannot be array-typed"]),
                owned(
                    "array types are only supported for `fn` parameters — module-level port/wire/register arrays are not yet supported",
                ),
            );
        }
    }

    /// A bundle field's type must be `bit`, `bits[N]`, `signed[N]` or an
    /// enum: another bundle or an array is E0807, an unknown bundle E0906.
    pub fn validate_bundle_field_type(&mut self, file: usize, ty: &Type, span: Span)
        requires
            old(self).inv(),
            file < old(self).files@.len(),
        ensures
            final(self).grew_from(&*old(self)),
            final(self).file_consts == old(self).file_consts,
            (*ty is Bit || *ty is Bits || *ty is Signed) ==> final(self).diags@ == old(self).diags@,
            *ty is Array ==> final(self).diags@.len() == old(self).diags@.len() + 1
                && final(self).diags@.last().code == Some("E0807") && final(self).diags@.last().span == span,
    {
        match ty {
            Type::Bit | Type::Bits(_) | Type::Signed(_) => {}
            Type::Named(id) => {
                let enums = self.decls_named(&id.name.name, DeclKind::Enum);
                if enums.len() > 0 {
                    self.resolve(file, &enums, id);
                } else {
                    let bundles = self.decls_named(&id.name.name, DeclKind::Bundle);
                    let msg = if bundles.len() > 0 {
                        cat(&["bundle field cannot be a bundle type (`", id.name.name.as_str(), "`)"])
                    } else {
                        cat(&["`", id.name.name.as_str(), "` is not a concrete type for a bundle field"])
                    };
                    self.err(
                        file,
                        span,
                        "E0807",
                        msg,
                        owned(
                            "bundle fields must be `bit`, `bits[N]`, `signed[N]`, or an enum — nested bundles are not supported",
                        ),
                    );
                }
            }
            Type::Bundle { name, .. } => {
                let bundles = self.decls_named(&name.name.name, DeclKind::Bundle);
                if bundles.len() > 0 {
                    if self.resolve(file, &bundles, name).is_some() {
                        self.err(
                            file,
                            span,
                            "E0807",
                            cat(&["bundle field cannot be a bundle type (`", name.name.name.as_str(), "`)"]),
                            owned("nested bundles are not supported — use flat field types"),
                        );
                    }
                } else {
                    self.err(
                        file,
                        name.span,
                        "E0906",
                        cat(&["unknown bundle type `", name.name.name.as_str(), "`"]),
                        owned("declare the bundle at file level before using it as a type"),
                    );
                }
            }
            Type::Array { .. } => {
                self.err(
                    file,
                    span,
                    "E0807",
                    owned("bundle field cannot be an array type"),
                    owned(
                        "bundle fields must be `bit`, `bits[N]`, `signed[N]`, or an enum — arrays are not supported as bundle fields",
                    ),
                );
            }
        }
    }
}

} // verus!
