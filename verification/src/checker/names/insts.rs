//! Instantiations and test headers: the target module exists, named
//! parameters exist, connections name inputs, and every input is
//! connected exactly once.

use vstd::prelude::*;

use crate::ast::{Dir, Ident, Inst, ModuleItem, ModuleTarget, TestDecl, QualIdent};
use crate::span::Span;
use crate::text::{cat, owned};

use super::super::consteval::{env_wf, Env};
use super::super::symbols::{decl_name, first_decl, DeclKind};
use super::super::Checker;
use super::{flagged, lemma_flag_kept, params_name, Scope};

verus! {

/// A list of names, as text.
pub open spec fn strs(v: Seq<&str>) -> Seq<Seq<char>> {
    v.map_values(|s: &str| s@)
}

/// Whether `names` holds `name`.
fn listed(names: &Vec<&str>, name: &str) -> (r: bool)
    ensures
        r == strs(names@).contains(name@),
{
    let mut k: usize = 0;
    while k < names.len()
        invariant
            k <= names@.len(),
            forall|j: int| 0 <= j < k ==> names@[j]@ != name@,
        decreases names@.len() - k,
    {
        if crate::text::str_eq(names[k], name) {
            proof {
                assert(strs(names@)[k as int] == name@);
            }
            return true;
        }
        k += 1;
    }
    proof {
        if strs(names@).contains(name@) {
            let j = choose|j: int| 0 <= j < strs(names@).len() && strs(names@)[j] == name@;
            assert(names@[j]@ == name@);
        }
    }
    false
}

/// The name an item lists as an input (`sel` 0), an output (`sel` 1),
/// or a clock or reset, connected implicitly by name (`sel` 2).
pub open spec fn item_name(item: ModuleItem, sel: int) -> Option<Seq<char>> {
    match item {
        ModuleItem::Port { dir, name, .. } => if (sel == 0 && dir == Dir::In) || (sel == 1 && dir == Dir::Out) {
            Some(name.name@)
        } else {
            None
        },
        ModuleItem::Clock(n) => if sel == 2 { Some(n.name@) } else { None },
        ModuleItem::Reset { name, .. } => if sel == 2 { Some(name.name@) } else { None },
        _ => None,
    }
}

/// `items` list `x` under `sel` (see [`item_name`]).
pub open spec fn declares(items: Seq<ModuleItem>, sel: int, x: Seq<char>) -> bool {
    exists|k: int| 0 <= k < items.len() && #[trigger] item_name(items[k], sel) == Some(x)
}

/// A connection to `x` is taken: `x` is an input, clock or reset of the
/// target, and not one of its outputs.
pub open spec fn connectable(items: Seq<ModuleItem>, x: Seq<char>) -> bool {
    !declares(items, 1, x) && (declares(items, 0, x) || declares(items, 2, x))
}

/// Input `x` of the target is never connected by `conns`.
pub open spec fn unconnected_input(items: Seq<ModuleItem>, conns: Seq<crate::ast::Conn>, x: Seq<char>) -> bool {
    &&& declares(items, 0, x)
    &&& (declares(items, 1, x) || forall|k: int| 0 <= k < conns.len() ==> #[trigger] conns[k].port.name@ != x)
}

/// Names joined with `sep`.
fn join_strs(names: &Vec<&str>, sep: &str) -> (r: String)
    ensures
        r@ == crate::text::joined(strs(names@), sep@),
{
    let ghost texts = strs(names@);
    let mut s = String::new();
    let mut k: usize = 0;
    while k < names.len()
        invariant
            k <= names@.len(),
            texts == strs(names@),
            s@ == crate::text::joined(texts.subrange(0, k as int), sep@),
        decreases names@.len() - k,
    {
        let ghost before = s@;
        if k > 0 {
            s.append(sep);
        }
        s.append(names[k]);
        proof {
            let pre = texts.subrange(0, k + 1);
            assert(pre.drop_last() =~= texts.subrange(0, k as int));
            assert(pre.last() == names@[k as int]@);
            if k == 0 {
                assert(s@ =~= names@[0]@);
            } else {
                assert(s@ =~= before + sep@ + names@[k as int]@);
            }
        }
        k += 1;
    }
    proof {
        assert(texts.subrange(0, names@.len() as int) =~= texts);
    }
    s
}

/// A target's parameters.
pub open spec fn target_params<'a>(t: ModuleTarget<'a>) -> Seq<crate::ast::Param> {
    match t {
        ModuleTarget::Real(m) => m.params@,
        ModuleTarget::Extern(e) => e.params@,
    }
}

/// A target's items.
pub open spec fn target_items<'a>(t: ModuleTarget<'a>) -> Seq<ModuleItem> {
    match t {
        ModuleTarget::Real(m) => m.items@,
        ModuleTarget::Extern(e) => e.items@,
    }
}

/// The names listed for a parameter list are its parameters' names.
proof fn lemma_params_listed(ps: Seq<crate::ast::Param>, names: Seq<Seq<char>>)
    requires
        names.len() == ps.len(),
        forall|j: int| 0 <= j < ps.len() ==> #[trigger] names[j] == ps[j].name.name@,
    ensures
        forall|x: Seq<char>| names.contains(x) <==> params_name(ps, x),
    decreases ps.len(),
{
    if ps.len() > 0 {
        lemma_params_listed(ps.drop_last(), names.drop_last());
        assert forall|x: Seq<char>| names.contains(x) <==> params_name(ps, x) by {
            vstd::seq_lib::lemma_seq_contains_after_push(names.drop_last(), names.last(), x);
            assert(names =~= names.drop_last().push(names.last()));
        }
    } else {
        assert forall|x: Seq<char>| names.contains(x) <==> params_name(ps, x) by {}
    }
}

/// One step of collecting the names `sel` picks out of `items`: after
/// item `k`, the list holds exactly the names of items `0..=k`.
proof fn lemma_list_step(before: Seq<Seq<char>>, after: Seq<Seq<char>>, items: Seq<ModuleItem>, k: int, sel: int)
    requires
        0 <= k < items.len(),
        forall|x: Seq<char>| before.contains(x) <==> exists|j: int| 0 <= j < k && #[trigger] item_name(items[j], sel) == Some(x),
        (item_name(items[k], sel) matches Some(n) ==> after == before.push(n)),
        item_name(items[k], sel) is None ==> after == before,
    ensures
        forall|x: Seq<char>| after.contains(x) <==> exists|j: int| 0 <= j < k + 1 && #[trigger] item_name(items[j], sel) == Some(x),
{
    assert forall|x: Seq<char>| after.contains(x) <==> exists|j: int| 0 <= j < k + 1 && #[trigger] item_name(items[j], sel) == Some(x) by {
        if let Some(n) = item_name(items[k], sel) {
            vstd::seq_lib::lemma_seq_contains_after_push(before, n, x);
        }
        if exists|j: int| 0 <= j < k + 1 && #[trigger] item_name(items[j], sel) == Some(x) {
            let j = choose|j: int| 0 <= j < k + 1 && #[trigger] item_name(items[j], sel) == Some(x);
            if j < k {
                assert(exists|j2: int| 0 <= j2 < k && #[trigger] item_name(items[j2], sel) == Some(x));
            }
        }
        if before.contains(x) {
            let j = choose|j: int| 0 <= j < k && #[trigger] item_name(items[j], sel) == Some(x);
            assert(0 <= j < k + 1);
        }
    }
}

/// No file declares `name` under `kind`.
pub open spec fn no_decl(files: Seq<crate::ast::File>, kind: DeclKind, name: Seq<char>) -> bool {
    forall|f: int, j: int| 0 <= f < files.len() && 0 <= j < files[f].items@.len()
        ==> #[trigger] decl_name(files[f].items@[j], kind) != Some(name)
}

/// Item `i` of file `f` is the only declaration of `name` under `kind`
/// in the project (the first in its file, and no other file has one).
pub open spec fn sole_decl(files: Seq<crate::ast::File>, kind: DeclKind, name: Seq<char>, f: int, i: int) -> bool {
    &&& 0 <= f < files.len()
    &&& first_decl(files[f].items@, i, kind, name)
    &&& forall|f2: int, j: int| 0 <= f2 < files.len() && f2 != f && 0 <= j < files[f2].items@.len()
        ==> #[trigger] decl_name(files[f2].items@[j], kind) != Some(name)
}

/// Reading `field` of an instance of a target with these items: nothing
/// is reported for one of its outputs; anything else gets exactly one
/// E0104, at the field.
pub open spec fn output_checked(before: Seq<crate::diag::Diag>, after: Seq<crate::diag::Diag>, items: Seq<ModuleItem>, field: Ident) -> bool {
    if declares(items, 1, field.name@) {
        after == before
    } else {
        &&& after.len() == before.len() + 1
        &&& after.drop_last() == before
        &&& after.last().code == Some("E0104")
        &&& after.last().span == field.span
    }
}

/// The laws an instantiation is checked against for a target with these
/// parameters and items.
pub open spec fn inst_checked(ds: Seq<crate::diag::Diag>, inst: Inst, params: Seq<crate::ast::Param>, items: Seq<ModuleItem>) -> bool {
    &&& forall|k: int| 0 <= k < inst.args@.len() && !params_name(params, #[trigger] inst.args@[k].name.name@)
        ==> flagged(ds, "E0106"@, inst.args@[k].name.span)
    &&& forall|k: int| 0 <= k < inst.conns@.len() && !connectable(items, #[trigger] inst.conns@[k].port.name@)
        ==> flagged(ds, "E0107"@, inst.conns@[k].port.span)
    &&& forall|k1: int, k2: int| 0 <= k1 < k2 < inst.conns@.len()
        && #[trigger] inst.conns@[k1].port.name@ == #[trigger] inst.conns@[k2].port.name@
        && connectable(items, inst.conns@[k2].port.name@)
        ==> flagged(ds, "E0302"@, inst.conns@[k2].port.span)
    &&& (exists|x: Seq<char>| #[trigger] unconnected_input(items, inst.conns@, x)) ==> flagged(ds, "E0302"@, inst.name.span)
}

impl<'a> Checker<'a> {
    /// The module (or, failing that, extern module) a reference names,
    /// reporting E0102 when neither exists and leaving ambiguity and
    /// unmatched qualifiers to [`Checker::resolve`].
    fn target_of(&mut self, file: usize, module: &QualIdent) -> (r: Option<ModuleTarget<'a>>)
        requires
            old(self).inv(),
            file < old(self).files@.len(),
        ensures
            final(self).grew_from(&*old(self)),
            final(self).file_consts == old(self).file_consts,
            no_decl(old(self).files@, DeclKind::Module, module.name.name@) && no_decl(old(self).files@, DeclKind::Extern, module.name.name@)
                ==> r is None && flagged(final(self).diags@, "E0102"@, module.span),
            forall|f: int, i: int| module.path@.len() == 0 && #[trigger] sole_decl(old(self).files@, DeclKind::Module, module.name.name@, f, i)
                ==> (r matches Some(t) && target_params(t) == old(self).files@[f].items@[i]->Module_0.params@
                    && target_items(t) == old(self).files@[f].items@[i]->Module_0.items@),
            forall|f: int, i: int| module.path@.len() == 0 && no_decl(old(self).files@, DeclKind::Module, module.name.name@)
                && #[trigger] sole_decl(old(self).files@, DeclKind::Extern, module.name.name@, f, i)
                ==> (r matches Some(t) && target_params(t) == old(self).files@[f].items@[i]->ExternModule_0.params@
                    && target_items(t) == old(self).files@[f].items@[i]->ExternModule_0.items@),
    {
        let modules = self.decls_named(&module.name.name, DeclKind::Module);
        proof {
            assert forall|f: int, i: int| module.path@.len() == 0 && #[trigger] sole_decl(self.files@, DeclKind::Module, module.name.name@, f, i)
                implies modules@ == seq![(f as usize, i as usize)] by {
                assert(modules@.contains((f as usize, i as usize)));
                assert forall|k: int| 0 <= k < modules@.len() implies modules@[k].0 == f by {
                    let (f2, i2) = modules@[k];
                    assert(first_decl(self.files@[f2 as int].items@, i2 as int, DeclKind::Module, module.name.name@));
                    assert(decl_name(self.files@[f2 as int].items@[i2 as int], DeclKind::Module) == Some(module.name.name@));
                }
                if modules@.len() >= 2 {
                    assert(modules@[0].0 < modules@[1].0);
                }
                let k0 = choose|k: int| 0 <= k < modules@.len() && modules@[k] == (f as usize, i as usize);
                assert(modules@ =~= seq![(f as usize, i as usize)]);
            }
        }
        if modules.len() > 0 {
            proof {
                let (f0, i0) = modules@[0];
                assert(decl_name(self.files@[f0 as int].items@[i0 as int], DeclKind::Module) == Some(module.name.name@));
            }
            return match self.resolve(file, &modules, module) {
                Some(at) => match self.module_at(at) {
                    Some(m) => Some(ModuleTarget::Real(m)),
                    None => None,
                },
                None => None,
            };
        }
        let externs = self.decls_named(&module.name.name, DeclKind::Extern);
        proof {
            assert forall|f: int, i: int| module.path@.len() == 0 && #[trigger] sole_decl(self.files@, DeclKind::Extern, module.name.name@, f, i)
                implies externs@ == seq![(f as usize, i as usize)] by {
                assert(externs@.contains((f as usize, i as usize)));
                assert forall|k: int| 0 <= k < externs@.len() implies externs@[k].0 == f by {
                    let (f2, i2) = externs@[k];
                    assert(first_decl(self.files@[f2 as int].items@, i2 as int, DeclKind::Extern, module.name.name@));
                    assert(decl_name(self.files@[f2 as int].items@[i2 as int], DeclKind::Extern) == Some(module.name.name@));
                }
                if externs@.len() >= 2 {
                    assert(externs@[0].0 < externs@[1].0);
                }
                assert(externs@ =~= seq![(f as usize, i as usize)]);
            }
        }
        if externs.len() > 0 {
            proof {
                let (f0, i0) = externs@[0];
                assert(decl_name(self.files@[f0 as int].items@[i0 as int], DeclKind::Extern) == Some(module.name.name@));
            }
            return match self.resolve(file, &externs, module) {
                Some(at) => match self.extern_at(at) {
                    Some(x) => Some(ModuleTarget::Extern(x)),
                    None => None,
                },
                None => None,
            };
        }
        self.err(
            file,
            module.span,
            "E0102",
            cat(&["no module named `", module.name.name.as_str(), "` in this project"]),
            owned("check the spelling, or add the `import` that brings it in"),
        );
        proof { assert(self.diags@[self.diags@.len() - 1].span == module.span); }
        None
    }

    /// One instantiation.
    #[verifier::loop_isolation(false)]
    pub fn check_inst(&mut self, file: usize, sc: &Scope<'a>, env: &Env, inst: &Inst)
        requires
            old(self).inv(),
            file < old(self).files@.len(),
            env_wf(env@),
        ensures
            final(self).grew_from(&*old(self)),
            final(self).file_consts == old(self).file_consts,
            no_decl(old(self).files@, DeclKind::Module, inst.module.name.name@) && no_decl(old(self).files@, DeclKind::Extern, inst.module.name.name@)
                ==> flagged(final(self).diags@, "E0102"@, inst.module.span),
            forall|f: int, i: int| inst.module.path@.len() == 0 && #[trigger] sole_decl(old(self).files@, DeclKind::Module, inst.module.name.name@, f, i)
                ==> inst_checked(final(self).diags@, *inst, old(self).files@[f].items@[i]->Module_0.params@,
                    old(self).files@[f].items@[i]->Module_0.items@),
            forall|f: int, i: int| inst.module.path@.len() == 0 && no_decl(old(self).files@, DeclKind::Module, inst.module.name.name@)
                && #[trigger] sole_decl(old(self).files@, DeclKind::Extern, inst.module.name.name@, f, i)
                ==> inst_checked(final(self).diags@, *inst, old(self).files@[f].items@[i]->ExternModule_0.params@,
                    old(self).files@[f].items@[i]->ExternModule_0.items@),
    {
        let ghost start = *self;
        if let Some(idx) = &inst.index {
            self.expr(file, sc, env, idx);
        }
        let ghost s1 = *self;
        let target = match self.target_of(file, &inst.module) {
            Some(t) => t,
            None => {
                let ghost s2 = *self;
                let mut k: usize = 0;
                while k < inst.args.len()
                    invariant
                        self.grew_from(&start),
                        self.grew_from(&s2),
                        self.file_consts == start.file_consts,
                    decreases inst.args@.len() - k,
                {
                    self.expr(file, sc, env, &inst.args[k].value);
                    k += 1;
                }
                let mut k: usize = 0;
                while k < inst.conns.len()
                    invariant
                        self.grew_from(&start),
                        self.grew_from(&s2),
                        self.file_consts == start.file_consts,
                    decreases inst.conns@.len() - k,
                {
                    self.expr(file, sc, env, &inst.conns[k].signal);
                    k += 1;
                }
                proof { lemma_flag_kept(s2.diags@, self.diags@); }
                return;
            }
        };
        let ghost s3 = *self;
        self.check_inst_against(file, sc, env, inst, &target);
    }

    /// An instantiation against its resolved target: E0106 for each
    /// argument naming no parameter of the target; E0107 for each
    /// connection to an output, or to a name that is no input, clock or
    /// reset; E0302 for each repeated connection, and at the instance's
    /// name when some input is left unconnected — every input is
    /// connected exactly once.
    #[verifier::loop_isolation(false)]
    pub fn check_inst_against(&mut self, file: usize, sc: &Scope<'a>, env: &Env, inst: &Inst, target: &ModuleTarget<'a>)
        requires
            old(self).inv(),
            file < old(self).files@.len(),
            env_wf(env@),
        ensures
            final(self).grew_from(&*old(self)),
            final(self).file_consts == old(self).file_consts,
            forall|k: int| 0 <= k < inst.args@.len() && !params_name(target_params(*target), #[trigger] inst.args@[k].name.name@)
                ==> flagged(final(self).diags@, "E0106"@, inst.args@[k].name.span),
            forall|k: int| 0 <= k < inst.conns@.len() && !connectable(target_items(*target), #[trigger] inst.conns@[k].port.name@)
                ==> flagged(final(self).diags@, "E0107"@, inst.conns@[k].port.span),
            forall|k1: int, k2: int| 0 <= k1 < k2 < inst.conns@.len()
                && #[trigger] inst.conns@[k1].port.name@ == #[trigger] inst.conns@[k2].port.name@
                && connectable(target_items(*target), inst.conns@[k2].port.name@)
                ==> flagged(final(self).diags@, "E0302"@, inst.conns@[k2].port.span),
            (exists|x: Seq<char>| #[trigger] unconnected_input(target_items(*target), inst.conns@, x))
                ==> flagged(final(self).diags@, "E0302"@, inst.name.span),
    {
        let ghost start = *self;
        let ghost items = target_items(*target);
        let tname = target.name();
        let tparams = target.params();
        let mut params: Vec<&str> = Vec::new();
        let mut k: usize = 0;
        while k < tparams.len()
            invariant
                k <= tparams@.len(),
                params@.len() == k,
                forall|j: int| 0 <= j < k ==> #[trigger] params@[j]@ == tparams@[j].name.name@,
            decreases tparams@.len() - k,
        {
            params.push(tparams[k].name.name.as_str());
            k += 1;
        }
        proof {
            lemma_params_listed(tparams@, strs(params@));
        }
        let mut k: usize = 0;
        while k < inst.args.len()
            invariant
                self.grew_from(&start),
                self.file_consts == start.file_consts,
                k <= inst.args@.len(),
                forall|x: Seq<char>| strs(params@).contains(x) <==> params_name(target_params(*target), x),
                forall|j: int| 0 <= j < k && !params_name(target_params(*target), #[trigger] inst.args@[j].name.name@)
                    ==> flagged(self.diags@, "E0106"@, inst.args@[j].name.span),
            decreases inst.args@.len() - k,
        {
            let ghost before = self.diags@;
            let name = &inst.args[k].name;
            if !listed(&params, name.name.as_str()) {
                let available = if params.len() == 0 {
                    cat(&["`", tname.name.as_str(), "` takes no parameters"])
                } else {
                    let list = join_strs(&params, ", ");
                    cat(&["`", tname.name.as_str(), "`'s parameters are: ", list.as_str()])
                };
                self.err(
                    file,
                    name.span,
                    "E0106",
                    cat(&["`", tname.name.as_str(), "` has no parameter `", name.name.as_str(), "`"]),
                    available,
                );
            }
            let ghost mid = self.diags@;
            self.expr(file, sc, env, &inst.args[k].value);
            proof {
                lemma_flag_kept(before, mid);
                lemma_flag_kept(mid, self.diags@);
                if !params_name(target_params(*target), inst.args@[k as int].name.name@) {
                    assert(flagged(mid, "E0106"@, inst.args@[k as int].name.span)) by {
                        assert(mid[mid.len() - 1].span == name.span);
                    }
                }
            }
            k += 1;
        }
        let titems = target.items();
        let mut ins: Vec<&str> = Vec::new();
        let mut implicit: Vec<&str> = Vec::new();
        let mut outputs: Vec<&str> = Vec::new();
        let mut k: usize = 0;
        while k < titems.len()
            invariant
                k <= titems@.len(),
                titems@ == items,
                forall|x: Seq<char>| strs(ins@).contains(x) <==> exists|j: int| 0 <= j < k && #[trigger] item_name(items[j], 0) == Some(x),
                forall|x: Seq<char>| strs(outputs@).contains(x) <==> exists|j: int| 0 <= j < k && #[trigger] item_name(items[j], 1) == Some(x),
                forall|x: Seq<char>| strs(implicit@).contains(x) <==> exists|j: int| 0 <= j < k && #[trigger] item_name(items[j], 2) == Some(x),
            decreases titems@.len() - k,
        {
            let ghost (i0, o0, m0) = (strs(ins@), strs(outputs@), strs(implicit@));
            match &titems[k] {
                ModuleItem::Port { dir: Dir::In, name, .. } => {
                    ins.push(name.name.as_str());
                    proof { assert(strs(ins@) =~= i0.push(name.name@)); }
                }
                ModuleItem::Port { dir: Dir::Out, name, .. } => {
                    outputs.push(name.name.as_str());
                    proof { assert(strs(outputs@) =~= o0.push(name.name@)); }
                }
                ModuleItem::Clock(n) | ModuleItem::Reset { name: n, .. } => {
                    implicit.push(n.name.as_str());
                    proof { assert(strs(implicit@) =~= m0.push(n.name@)); }
                }
                _ => {}
            }
            proof {
                lemma_list_step(i0, strs(ins@), items, k as int, 0);
                lemma_list_step(o0, strs(outputs@), items, k as int, 1);
                lemma_list_step(m0, strs(implicit@), items, k as int, 2);
            }
            k += 1;
        }
        let mut connected: Vec<&str> = Vec::new();
        let ghost conns = inst.conns@;
        let mut k: usize = 0;
        while k < inst.conns.len()
            invariant
                self.grew_from(&start),
                self.file_consts == start.file_consts,
                k <= conns.len(),
                conns == inst.conns@,
                forall|x: Seq<char>| strs(ins@).contains(x) <==> declares(items, 0, x),
                forall|x: Seq<char>| strs(outputs@).contains(x) <==> declares(items, 1, x),
                forall|x: Seq<char>| strs(implicit@).contains(x) <==> declares(items, 2, x),
                forall|x: Seq<char>| #![trigger strs(connected@).contains(x)] strs(connected@).contains(x) <==>
                    (connectable(items, x) && exists|j: int| 0 <= j < k && #[trigger] conns[j].port.name@ == x),
                forall|j: int| 0 <= j < k && !connectable(items, #[trigger] conns[j].port.name@)
                    ==> flagged(self.diags@, "E0107"@, conns[j].port.span),
                forall|j1: int, j2: int| 0 <= j1 < j2 < k && #[trigger] conns[j1].port.name@ == #[trigger] conns[j2].port.name@
                    && connectable(items, conns[j2].port.name@)
                    ==> flagged(self.diags@, "E0302"@, conns[j2].port.span),
                forall|j: int| 0 <= j < inst.args@.len() && !params_name(target_params(*target), #[trigger] inst.args@[j].name.name@)
                    ==> flagged(self.diags@, "E0106"@, inst.args@[j].name.span),
            decreases inst.conns@.len() - k,
        {
            let ghost before = self.diags@;
            let ghost c0 = strs(connected@);
            proof {
                assert forall|x: Seq<char>| #![trigger c0.contains(x)] c0.contains(x) <==>
                    (connectable(items, x) && exists|j: int| 0 <= j < k && #[trigger] conns[j].port.name@ == x) by {
                    assert(strs(connected@).contains(x) == c0.contains(x));
                }
            }
            let port = &inst.conns[k].port;
            let ghost pn = port.name@;
            let is_out = listed(&outputs, port.name.as_str());
            let is_in = listed(&ins, port.name.as_str());
            let is_imp = listed(&implicit, port.name.as_str());
            let dup = listed(&connected, port.name.as_str());
            proof {
                assert(connectable(items, pn) == (!is_out && (is_in || is_imp)));
            }
            if is_out {
                self.err(
                    file,
                    port.span,
                    "E0107",
                    cat(&["`", port.name.as_str(), "` is an output of `", tname.name.as_str(), "`"]),
                    cat(&[
                        "outputs are not connected here — read them with `", inst.name.name.as_str(), ".",
                        port.name.as_str(), "`",
                    ]),
                );
            } else if !is_in && !is_imp {
                let mut all: Vec<&str> = Vec::new();
                let mut q: usize = 0;
                while q < ins.len()
                    invariant
                        q <= ins@.len(),
                    decreases ins@.len() - q,
                {
                    all.push(ins[q]);
                    q += 1;
                }
                let mut q: usize = 0;
                while q < implicit.len()
                    invariant
                        q <= implicit@.len(),
                    decreases implicit@.len() - q,
                {
                    all.push(implicit[q]);
                    q += 1;
                }
                let list = join_strs(&all, ", ");
                self.err(
                    file,
                    port.span,
                    "E0107",
                    cat(&["`", tname.name.as_str(), "` has no input named `", port.name.as_str(), "`"]),
                    cat(&["`", tname.name.as_str(), "`'s inputs are: ", list.as_str()]),
                );
            } else if dup {
                self.err(
                    file,
                    port.span,
                    "E0302",
                    cat(&["input `", port.name.as_str(), "` is connected twice"]),
                    owned("every input is connected exactly once — delete the duplicate connection"),
                );
            } else {
                connected.push(port.name.as_str());
                proof {
                    assert(strs(connected@) =~= c0.push(pn));
                }
            }
            proof {
                if is_out || (!is_in && !is_imp) || dup {
                    assert(strs(connected@) == c0);
                } else {
                    assert(strs(connected@) == c0.push(pn));
                }
            }
            let ghost mid = self.diags@;
            self.expr(file, sc, env, &inst.conns[k].signal);
            proof {
                lemma_flag_kept(before, mid);
                lemma_flag_kept(mid, self.diags@);
                if mid.len() > before.len() {
                    assert(mid[mid.len() - 1].span == port.span);
                    assert(flagged(mid, mid[mid.len() - 1].code->Some_0@, port.span));
                }
                assert forall|x: Seq<char>| #![trigger strs(connected@).contains(x)] strs(connected@).contains(x) <==>
                    (connectable(items, x) && exists|j: int| 0 <= j < k + 1 && #[trigger] conns[j].port.name@ == x) by {
                    let pushed = !(is_out || (!is_in && !is_imp) || dup);
                    vstd::seq_lib::lemma_seq_contains_after_push(c0, pn, x);
                    assert(conns[k as int].port.name@ == pn);
                    let e_k = exists|j: int| 0 <= j < k && #[trigger] conns[j].port.name@ == x;
                    let e_k1 = exists|j: int| 0 <= j < k + 1 && #[trigger] conns[j].port.name@ == x;
                    if e_k {
                        let j = choose|j: int| 0 <= j < k && #[trigger] conns[j].port.name@ == x;
                        assert(0 <= j < k + 1 && conns[j].port.name@ == x);
                    }
                    if e_k1 && x != pn {
                        let j = choose|j: int| 0 <= j < k + 1 && #[trigger] conns[j].port.name@ == x;
                        assert(j != k);
                        assert(e_k);
                    }
                    assert(c0.contains(x) <==> connectable(items, x) && e_k);
                    if x == pn {
                        assert(e_k1);
                        if pushed {
                            assert(strs(connected@).contains(x));
                        } else if dup {
                            assert(strs(connected@) == c0);
                        } else {
                            assert(strs(connected@) == c0);
                            assert(!connectable(items, x));
                        }
                    } else {
                        assert(e_k1 == e_k);
                        if pushed {
                            assert(strs(connected@).contains(x) == c0.contains(x));
                        } else {
                            assert(strs(connected@) == c0);
                        }
                    }
                }
                assert forall|j1: int, j2: int| 0 <= j1 < j2 < k + 1 && #[trigger] conns[j1].port.name@ == #[trigger] conns[j2].port.name@
                    && connectable(items, conns[j2].port.name@)
                    implies flagged(self.diags@, "E0302"@, conns[j2].port.span) by {
                    if j2 == k {
                        assert(c0.contains(pn));
                    }
                }
            }
            k += 1;
        }
        let mut missing: Vec<&str> = Vec::new();
        let mut k: usize = 0;
        while k < ins.len()
            invariant
                k <= ins@.len(),
                (missing@.len() > 0) <==> exists|j: int| 0 <= j < k && !strs(connected@).contains(#[trigger] strs(ins@)[j]),
            decreases ins@.len() - k,
        {
            if !listed(&connected, ins[k]) {
                missing.push(ins[k]);
            }
            proof {
                if missing@.len() > 0 && !(exists|j: int| 0 <= j < k && !strs(connected@).contains(#[trigger] strs(ins@)[j])) {
                    assert(!strs(connected@).contains(strs(ins@)[k as int]));
                }
            }
            k += 1;
        }
        let ghost before = self.diags@;
        if missing.len() > 0 {
            let list = join_strs(&missing, "`, `");
            let plural = if missing.len() == 1 { "" } else { "s" };
            self.err(
                file,
                inst.name.span,
                "E0302",
                cat(&["`", tname.name.as_str(), "` leaves input", plural, " `", list.as_str(), "` unconnected"]),
                owned(
                    "every input of an instance must be connected — hardware has no default arguments (clock/reset connect implicitly by name and may be omitted)",
                ),
            );
        }
        proof {
            lemma_flag_kept(before, self.diags@);
            if exists|x: Seq<char>| #[trigger] unconnected_input(items, conns, x) {
                let x = choose|x: Seq<char>| #[trigger] unconnected_input(items, conns, x);
                assert(strs(ins@).contains(x));
                let j = choose|j: int| 0 <= j < strs(ins@).len() && strs(ins@)[j] == x;
                if strs(connected@).contains(x) {
                    assert(connectable(items, x));
                    assert(!declares(items, 1, x));
                    let j2 = choose|j2: int| 0 <= j2 < conns.len() && #[trigger] conns[j2].port.name@ == x;
                    assert(conns[j2].port.name@ != x);
                }
                assert(!strs(connected@).contains(strs(ins@)[j]));
                assert(missing@.len() > 0);
                assert(self.diags@[self.diags@.len() - 1].span == inst.name.span);
            }
        }
    }

    /// A test header: its module exists and it sets only that module's
    /// parameters.
    pub fn check_test(&mut self, file: usize, t: &'a TestDecl)
        requires
            old(self).inv(),
            file < old(self).files@.len(),
        ensures
            final(self).grew_from(&*old(self)),
            final(self).file_consts == old(self).file_consts,
            no_decl(old(self).files@, DeclKind::Module, t.module.name.name@) ==> flagged(final(self).diags@, "E0102"@, t.module.span),
            forall|f: int, i: int, k: int| t.module.path@.len() == 0 && #[trigger] sole_decl(old(self).files@, DeclKind::Module, t.module.name.name@, f, i)
                && 0 <= k < t.args@.len() && !params_name(old(self).files@[f].items@[i]->Module_0.params@, #[trigger] t.args@[k].name.name@)
                ==> flagged(final(self).diags@, "E0106"@, t.args@[k].name.span),
    {
        let ghost start = *self;
        let modules = self.decls_named(&t.module.name.name, DeclKind::Module);
        proof {
            assert forall|f: int, i: int| t.module.path@.len() == 0 && #[trigger] sole_decl(self.files@, DeclKind::Module, t.module.name.name@, f, i)
                implies modules@ == seq![(f as usize, i as usize)] by {
                assert(modules@.contains((f as usize, i as usize)));
                assert forall|k: int| 0 <= k < modules@.len() implies modules@[k].0 == f by {
                    let (f2, i2) = modules@[k];
                    assert(first_decl(self.files@[f2 as int].items@, i2 as int, DeclKind::Module, t.module.name.name@));
                    assert(decl_name(self.files@[f2 as int].items@[i2 as int], DeclKind::Module) == Some(t.module.name.name@));
                }
                if modules@.len() >= 2 {
                    assert(modules@[0].0 < modules@[1].0);
                }
                assert(modules@ =~= seq![(f as usize, i as usize)]);
            }
        }
        if modules.len() == 0 {
            self.err(
                file,
                t.module.span,
                "E0102",
                cat(&["no module named `", t.module.name.name.as_str(), "` in this project"]),
                owned("check the spelling, or add the `import` that brings it in"),
            );
            proof { assert(self.diags@[self.diags@.len() - 1].span == t.module.span); }
            return;
        }
        proof {
            let (f0, i0) = modules@[0];
            assert(decl_name(self.files@[f0 as int].items@[i0 as int], DeclKind::Module) == Some(t.module.name.name@));
        }
        let target = match self.resolve(file, &modules, &t.module) {
            Some(at) => match self.module_at(at) {
                Some(m) => m,
                None => return,
            },
            None => return,
        };
        let ghost tp = target.params@;
        let mut k: usize = 0;
        while k < t.args.len()
            invariant
                self.grew_from(&start),
                self.file_consts == start.file_consts,
                file < self.files@.len(),
                tp == target.params@,
                forall|j: int| 0 <= j < k && !params_name(tp, #[trigger] t.args@[j].name.name@)
                    ==> flagged(self.diags@, "E0106"@, t.args@[j].name.span),
            decreases t.args@.len() - k,
        {
            let ghost pre = *self;
            let name = &t.args[k].name;
            let mut found = false;
            let mut p: usize = 0;
            proof { assert(tp.subrange(0, 0) =~= Seq::<crate::ast::Param>::empty()); }
            while p < target.params.len()
                invariant
                    p <= target.params@.len(),
                    tp == target.params@,
                    found <==> params_name(tp.subrange(0, p as int), name.name@),
                decreases target.params@.len() - p,
            {
                proof {
                    assert(tp.subrange(0, p + 1).drop_last() =~= tp.subrange(0, p as int));
                    assert(tp.subrange(0, p + 1).last() == tp[p as int]);
                }
                if target.params[p].name.name == name.name {
                    found = true;
                }
                p += 1;
            }
            proof { assert(tp.subrange(0, tp.len() as int) =~= tp); }
            if !found {
                self.err(
                    file,
                    name.span,
                    "E0106",
                    cat(&["`", target.name.name.as_str(), "` has no parameter `", name.name.as_str(), "`"]),
                    owned("test headers set the module's compile-time parameters only"),
                );
                proof { assert(self.diags@[self.diags@.len() - 1].span == name.span); }
            }
            proof { lemma_flag_kept(pre.diags@, self.diags@); }
            k += 1;
        }
    }

    /// `inst.field`: the field must be an output of the instantiated
    /// module (inputs are connected at instantiation, not read back).
    /// The target is re-resolved here without reporting — the
    /// instantiation itself reports any problem with it.
    pub fn inst_output(&mut self, file: usize, inst: &'a Inst, field: &Ident)
        requires
            old(self).inv(),
            file < old(self).files@.len(),
        ensures
            final(self).grew_from(&*old(self)),
            final(self).file_consts == old(self).file_consts,
            forall|f: int, i: int| inst.module.path@.len() == 0 && #[trigger] sole_decl(old(self).files@, DeclKind::Module, inst.module.name.name@, f, i)
                ==> output_checked(old(self).diags@, final(self).diags@, old(self).files@[f].items@[i]->Module_0.items@, *field),
            forall|f: int, i: int| inst.module.path@.len() == 0 && no_decl(old(self).files@, DeclKind::Module, inst.module.name.name@)
                && #[trigger] sole_decl(old(self).files@, DeclKind::Extern, inst.module.name.name@, f, i)
                ==> output_checked(old(self).diags@, final(self).diags@, old(self).files@[f].items@[i]->ExternModule_0.items@, *field),
            final(self).diags@ == old(self).diags@ || (final(self).diags@.len() == old(self).diags@.len() + 1
                && final(self).diags@.drop_last() == old(self).diags@ && final(self).diags@.last().code == Some("E0104")
                && final(self).diags@.last().span == field.span),
            no_decl(old(self).files@, DeclKind::Module, inst.module.name.name@)
                && no_decl(old(self).files@, DeclKind::Extern, inst.module.name.name@) ==> final(self).diags@ == old(self).diags@,
    {
        let ghost start = *self;
        let before = self.diags.len();
        let target = self.target_of(file, &inst.module);
        self.diags.truncate(before);
        proof {
            assert(self.diags@ =~= start.diags@);
        }
        let target = match target {
            Some(t) => t,
            None => return,
        };
        let tname = target.name();
        let titems = target.items();
        let mut outputs: Vec<&str> = Vec::new();
        let mut is_input = false;
        let mut k: usize = 0;
        while k < titems.len()
            invariant
                k <= titems@.len(),
                forall|x: Seq<char>| strs(outputs@).contains(x) <==> exists|j: int| 0 <= j < k && #[trigger] item_name(titems@[j], 1) == Some(x),
            decreases titems@.len() - k,
        {
            let ghost pre = outputs@;
            match &titems[k] {
                ModuleItem::Port { dir, name, .. } => {
                    match dir {
                        Dir::Out => {
                            outputs.push(name.name.as_str());
                            proof {
                                assert(item_name(titems@[k as int], 1) == Some(name.name@));
                                assert(strs(outputs@) =~= strs(pre).push(name.name@));
                            }
                        }
                        Dir::In => {
                            if name.name == field.name {
                                is_input = true;
                            }
                            proof { assert(outputs@ == pre); }
                        }
                    }
                }
                _ => {
                    proof { assert(item_name(titems@[k as int], 1) is None); }
                }
            }
            proof {
                let step = item_name(titems@[k as int], 1);
                assert(strs(outputs@) == match step { Some(n) => strs(pre).push(n), None => strs(pre) });
                assert forall|x: Seq<char>| strs(outputs@).contains(x) <==> exists|j: int| 0 <= j < k + 1 && #[trigger] item_name(titems@[j], 1) == Some(x) by {
                    let e_old = exists|j: int| 0 <= j < k && #[trigger] item_name(titems@[j], 1) == Some(x);
                    assert(strs(pre).contains(x) <==> e_old);
                    if strs(outputs@).contains(x) {
                        let q = choose|q: int| 0 <= q < strs(outputs@).len() && strs(outputs@)[q] == x;
                        if q < strs(pre).len() {
                            assert(strs(pre)[q] == x);
                            assert(strs(pre).contains(x));
                            let j = choose|j: int| 0 <= j < k && #[trigger] item_name(titems@[j], 1) == Some(x);
                            assert(0 <= j < k + 1 && item_name(titems@[j], 1) == Some(x));
                        } else {
                            assert(step == Some(x));
                            assert(item_name(titems@[k as int], 1) == Some(x));
                        }
                    }
                    if exists|j: int| 0 <= j < k + 1 && #[trigger] item_name(titems@[j], 1) == Some(x) {
                        let j = choose|j: int| 0 <= j < k + 1 && #[trigger] item_name(titems@[j], 1) == Some(x);
                        if j < k {
                            assert(e_old);
                            let q = choose|q: int| 0 <= q < strs(pre).len() && strs(pre)[q] == x;
                            assert(strs(outputs@)[q] == x);
                        } else {
                            assert(step == Some(x));
                            assert(strs(outputs@)[strs(outputs@).len() - 1] == x);
                        }
                    }
                }
            }
            k += 1;
        }
        if listed(&outputs, field.name.as_str()) {
            return;
        }
        let help = if is_input {
            cat(&[
                "`", field.name.as_str(), "` is an input of `", tname.name.as_str(),
                "` — inputs are connected at the `let`, only outputs are read with `.`",
            ])
        } else if outputs.len() == 0 {
            cat(&["`", tname.name.as_str(), "` has no outputs"])
        } else {
            let list = join_strs(&outputs, ", ");
            cat(&["`", tname.name.as_str(), "`'s outputs are: ", list.as_str()])
        };
        self.err(
            file,
            field.span,
            "E0104",
            cat(&["`", tname.name.as_str(), "` has no output named `", field.name.as_str(), "`"]),
            help,
        );
        proof {
            assert(self.diags@[self.diags@.len() - 1].span == field.span);
            assert(self.diags@.drop_last() =~= start.diags@);
        }
    }
}

} // verus!
