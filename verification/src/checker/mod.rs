//! The checker: the semantic passes that run between parsing and
//! emission. Each pass lives in its own file as an `impl` block on the
//! shared [`Checker`] state: project symbol tables and duplicate
//! detection (`symbols`), extern-module port shapes (`extern_module`),
//! recursion and dead code in functions (`funcs`), file-level constant
//! evaluation (`consteval`), name resolution and module-structure rules
//! (`names`), and clock-domain ownership (`clocks`).
//!
//! Every checker diagnostic carries a stable error code, the index of the
//! file it points into, and a help line.

use vstd::prelude::*;

use crate::ast::File;
use crate::diag::Diag;
use crate::span::Span;

pub mod clocks;
pub mod consteval;
pub mod extern_module;
pub mod funcs;
pub mod names;
pub mod symbols;

use consteval::{env_wf, Env};

verus! {

/// Whether every diagnostic in `ds` is complete — a code, a help line, and
/// the index of one of the `n` files it points into.
pub open spec fn all_reported(ds: Seq<Diag>, n: nat) -> bool {
    forall|i: int| 0 <= i < ds.len() ==> #[trigger] reported_in(ds[i], n)
}

/// One complete diagnostic pointing into one of `n` files.
pub open spec fn reported_in(d: Diag, n: nat) -> bool {
    &&& d.code.is_some()
    &&& d.help.is_some()
    &&& d.file matches Some(f) && f < n
}

/// `a` is an initial run of `b`.
pub open spec fn prefix_of(a: Seq<Diag>, b: Seq<Diag>) -> bool {
    &&& a.len() <= b.len()
    &&& forall|i: int| 0 <= i < a.len() ==> #[trigger] b[i] == a[i]
}

/// Shared state for one checker run over a project's files.
pub struct Checker<'a> {
    /// The loaded project, entry file first.
    pub files: &'a [File],
    /// Per file: its evaluated file-level consts (one spare slot past the
    /// last file).
    pub file_consts: Vec<Env>,
    /// Everything reported so far, in order.
    pub diags: Vec<Diag>,
}

impl<'a> Checker<'a> {
    /// The state every pass keeps: complete diagnostics, one const table
    /// per file (plus the spare), each well formed.
    pub open spec fn inv(&self) -> bool {
        &&& all_reported(self.diags@, self.files@.len() as nat)
        &&& self.file_consts@.len() == self.files@.len() + 1
        &&& forall|f: int| 0 <= f < self.file_consts@.len() ==> env_wf(#[trigger] self.file_consts@[f]@)
    }

    /// `self` is `old` after a pass: same files, the invariant kept, and
    /// every earlier diagnostic still there in order.
    pub open spec fn grew_from(&self, old: &Self) -> bool {
        &&& self.inv()
        &&& self.files@ == old.files@
        &&& prefix_of(old.diags@, self.diags@)
    }

    pub fn new(files: &'a [File]) -> (ck: Self)
        ensures
            ck.inv(),
            ck.files@ == files@,
            ck.diags@.len() == 0,
            forall|f: int| 0 <= f < ck.file_consts@.len() ==> (#[trigger] ck.file_consts@[f])@.len() == 0,
    {
        let mut file_consts: Vec<Env> = Vec::new();
        file_consts.push(Vec::new());
        let mut i: usize = 0;
        while i < files.len()
            invariant
                i <= files@.len(),
                file_consts@.len() == i + 1,
                forall|f: int| 0 <= f < file_consts@.len() ==> env_wf(#[trigger] file_consts@[f]@),
                forall|f: int| 0 <= f < file_consts@.len() ==> (#[trigger] file_consts@[f])@.len() == 0,
            decreases files@.len() - i,
        {
            file_consts.push(Vec::new());
            i += 1;
        }
        Checker { files, file_consts, diags: Vec::new() }
    }

    /// Record one error. Every checker error has a code, a file, and a
    /// help line.
    pub fn err(&mut self, file: usize, span: Span, code: &'static str, msg: String, help: String)
        requires
            old(self).inv(),
            file < old(self).files@.len(),
        ensures
            final(self).grew_from(&*old(self)),
            final(self).file_consts == old(self).file_consts,
            final(self).diags@.len() == old(self).diags@.len() + 1,
            final(self).diags@.last().code == Some(code),
            final(self).diags@.last().file == Some(file),
            final(self).diags@.last().span == span,
    {
        let d = Diag::new(span, msg).with_code(code).with_file(file).with_help(help);
        self.diags.push(d);
    }

    /// Record an evaluation error, stamped with its file.
    pub fn push_eval_error(&mut self, file: usize, d: Diag)
        requires
            old(self).inv(),
            file < old(self).files@.len(),
            d.code.is_some(),
            d.help.is_some(),
        ensures
            final(self).grew_from(&*old(self)),
            final(self).file_consts == old(self).file_consts,
            final(self).diags@.len() == old(self).diags@.len() + 1,
            final(self).diags@.last().code == d.code,
    {
        self.diags.push(d.with_file(file));
    }
}

/// A growth step composes: what held after the first step still holds
/// after the second.
pub proof fn lemma_grew_trans<'a>(a: &Checker<'a>, b: &Checker<'a>, c: &Checker<'a>)
    requires
        b.grew_from(a),
        c.grew_from(b),
    ensures
        c.grew_from(a),
{
}

/// Run every checker pass over a loaded project (entry file first). All
/// diagnostics are collected — the checker never stops at the first
/// error — and the project is clean exactly when none was reported.
pub fn check(files: &[File]) -> (r: Result<(), Vec<Diag>>)
    ensures
        match r {
            Ok(()) => {
                &&& forall|kind: symbols::DeclKind| !#[trigger] symbols::has_same_file_duplicate(files@, kind)
                &&& forall|sp: Span| !#[trigger] clocks::misplaced_in(files@, sp)
                &&& forall|f: int, j: int, i: int, n: Seq<char>| !#[trigger] clocks::cross_clock_read(files@, f, j, i, n)
                &&& forall|n: Seq<char>, sp: Span| !#[trigger] names::undeclared_read(files@, n, sp)
                &&& !funcs::has_recursion(files@)
                &&& forall|f: int, i: int, sp: Span| !#[trigger] funcs::dead_span_at(files@, f, i, sp)
                &&& forall|f: int, j: int| !#[trigger] symbols::bad_func_name(files@, f, j)
                &&& forall|f: int, j: int, k: int| !#[trigger] extern_module::bad_extern_port(files@, f, j, k)
            },
            Err(ds) => {
                &&& ds@.len() > 0
                &&& all_reported(ds@, files@.len() as nat)
                &&& forall|kind: symbols::DeclKind| #[trigger] symbols::has_same_file_duplicate(files@, kind) ==>
                    exists|i: int| 0 <= i < ds@.len() && #[trigger] ds@[i].code == Some(symbols::duplicate_code(kind))
                &&& forall|kind: symbols::DeclKind, f: int, j: int| 0 <= f < files@.len() && 0 <= j < files@[f].items@.len()
                    && #[trigger] symbols::repeats_earlier(files@[f].items@, j, kind)
                    ==> symbols::duplicate_flagged(ds@, files@, f, j, kind)
                &&& forall|sp: Span| #[trigger] clocks::misplaced_in(files@, sp) ==> names::flagged(ds@, "E0705"@, sp)
                &&& forall|f: int, j: int, i: int, n: Seq<char>| #[trigger] clocks::cross_clock_read(files@, f, j, i, n)
                    ==> clocks::foreign_read_flagged(ds@, files@[f].items@[j]->Module_0.items@, i, n)
                &&& forall|n: Seq<char>, sp: Span| #[trigger] names::undeclared_read(files@, n, sp) ==> names::flagged(ds@, "E0101"@, sp)
                &&& funcs::has_recursion(files@) ==> exists|k: int| 0 <= k < ds@.len() && #[trigger] funcs::reports_cycle(files@, ds@[k])
                &&& forall|f: int, i: int, sp: Span| #[trigger] funcs::dead_span_at(files@, f, i, sp) ==> names::flagged(ds@, "E0812"@, sp)
                &&& forall|f: int, j: int| #[trigger] symbols::bad_func_name(files@, f, j) ==> symbols::func_name_flagged(ds@, files@, f, j)
                &&& forall|f: int, j: int, k: int| #[trigger] extern_module::bad_extern_port(files@, f, j, k)
                    ==> extern_module::extern_port_flagged(ds@, 0, files@, f, j, k)
            },
        },
{
    let mut ck = Checker::new(files);
    let ghost fresh = ck;
    ck.build_symbols();
    let ghost s0 = ck;
    ck.check_extern_modules();
    let ghost s1 = ck;
    ck.check_func_cycles();
    let ghost s2 = ck;
    proof { lemma_grew_trans(&s0, &s1, &s2); }
    ck.check_func_unreachable();
    let ghost s3 = ck;
    proof { lemma_grew_trans(&s0, &s2, &s3); }
    ck.eval_consts();
    let ghost s4 = ck;
    proof { lemma_grew_trans(&s0, &s3, &s4); }
    ck.resolve_names();
    let ghost s5 = ck;
    proof { lemma_grew_trans(&s0, &s4, &s5); }
    ck.check_clocks();
    proof {
        lemma_grew_trans(&s0, &s5, &ck);
        assert forall|sp: Span| #[trigger] clocks::misplaced_in(files@, sp) implies ck.diags@.len() > 0 by {
            assert(names::flagged(ck.diags@, "E0705"@, sp));
        }
        names::lemma_flag_kept(s5.diags@, ck.diags@);
        assert forall|f: int, j: int, i: int, n: Seq<char>| #[trigger] clocks::cross_clock_read(files@, f, j, i, n)
            implies ck.diags@.len() > 0 by {
            let its = files@[f].items@[j]->Module_0.items@;
            let q = choose|q: int| 0 <= q < clocks::body_reads_of(its[i]->On_0.body@).len()
                && #[trigger] clocks::body_reads_of(its[i]->On_0.body@)[q].0 == n
                && names::flagged(ck.diags@, "E0701"@, clocks::body_reads_of(its[i]->On_0.body@)[q].1);
        }
        assert forall|n: Seq<char>, sp: Span| #[trigger] names::undeclared_read(files@, n, sp) implies
            names::flagged(ck.diags@, "E0101"@, sp) by {
            let (f, j, i) = choose|f: int, j: int, i: int| 0 <= f < files@.len() && 0 <= j < files@[f].items@.len()
                && (#[trigger] files@[f].items@[j]) is Module
                && 0 <= i < files@[f].items@[j]->Module_0.items@.len()
                && #[trigger] names::item_plain_read(files@[f].items@[j]->Module_0.items@[i], n, sp)
                && names::undeclared_in(files@[f].items@[j]->Module_0, n)
                && !consteval::top_const_named(files@[f].items@, n);
            assert(fresh.file_consts@[f]@.len() == 0);
            assert(s3.file_consts == fresh.file_consts);
            assert(!consteval::env_has(s3.file_consts@[f]@, n));
            assert(!consteval::env_has(s4.file_consts@[f]@, n));
            assert(names::flagged(s5.diags@, "E0101"@, sp));
        }
        assert forall|n: Seq<char>, sp: Span| #[trigger] names::undeclared_read(files@, n, sp) implies ck.diags@.len() > 0 by {
            assert(names::flagged(ck.diags@, "E0101"@, sp));
        }
        assert forall|f: int, i: int, sp: Span| #[trigger] funcs::dead_span_at(files@, f, i, sp)
            implies names::flagged(ck.diags@, "E0812"@, sp) && ck.diags@.len() > 0 by {
            let k = choose|k: int| s2.diags@.len() <= k < s3.diags@.len() && #[trigger] s3.diags@[k].code == Some("E0812")
                && s3.diags@[k].span == sp && s3.diags@[k].file == Some(f as usize);
            assert(ck.diags@[k] == s3.diags@[k]);
        }
        assert forall|f: int, j: int| #[trigger] symbols::bad_func_name(files@, f, j)
            implies symbols::func_name_flagged(ck.diags@, files@, f, j) && ck.diags@.len() > 0 by {
            let k = choose|k: int| 0 <= k < s0.diags@.len() && #[trigger] s0.diags@[k].code == Some(symbols::func_name_code(files@, f, j))
                && s0.diags@[k].span == symbols::func_decl_at(files@, f, j).name.span && s0.diags@[k].file == Some(f as usize);
            assert(ck.diags@[k] == s0.diags@[k]);
        }
        assert forall|f: int, j: int, k: int| #[trigger] extern_module::bad_extern_port(files@, f, j, k)
            implies extern_module::extern_port_flagged(ck.diags@, 0, files@, f, j, k) && ck.diags@.len() > 0 by {
            let i = choose|i: int| s0.diags@.len() <= i < s1.diags@.len() && #[trigger] s1.diags@[i].code == Some("E1302")
                && s1.diags@[i].span == extern_module::extern_port_span(files@, f, j, k) && s1.diags@[i].file == Some(f as usize);
            assert(ck.diags@[i] == s1.diags@[i]);
        }
        if funcs::has_recursion(files@) {
            let k = s1.diags@.len() as int;
            assert(funcs::reports_cycle(files@, s2.diags@[k]));
            assert(ck.diags@[k] == s2.diags@[k]);
            assert(funcs::reports_cycle(files@, ck.diags@[k]));
        }
        assert forall|kind: symbols::DeclKind, f: int, j: int| 0 <= f < files@.len() && 0 <= j < files@[f].items@.len()
            && #[trigger] symbols::repeats_earlier(files@[f].items@, j, kind)
            implies symbols::duplicate_flagged(ck.diags@, files@, f, j, kind) by {
            let i = choose|i: int| 0 <= i < s0.diags@.len() && #[trigger] s0.diags@[i].code == Some(symbols::duplicate_code(kind))
                && s0.diags@[i].span == symbols::decl_span(files@[f].items@[j]) && s0.diags@[i].file == Some(f as usize);
            assert(ck.diags@[i] == s0.diags@[i]);
        }
        assert forall|kind: symbols::DeclKind| #[trigger] symbols::has_same_file_duplicate(files@, kind) implies
            exists|i: int| 0 <= i < ck.diags@.len() && #[trigger] ck.diags@[i].code == Some(symbols::duplicate_code(kind)) by {
            let i = choose|i: int| 0 <= i < s0.diags@.len() && #[trigger] s0.diags@[i].code == Some(symbols::duplicate_code(kind));
            assert(ck.diags@[i] == s0.diags@[i]);
        }
    }
    if ck.diags.len() == 0 {
        Ok(())
    } else {
        Err(ck.diags)
    }
}

} // verus!
