//! Resolving a possibly-qualified reference against the files that
//! declare its name.

use vstd::prelude::*;

use crate::ast::{EnumDecl, QualIdent, Import, TopItem};
use crate::ast::{resolved_via, first_matching_import, first_match_from, import_matches, path_names};
use crate::text::{cat, num, owned};

use super::super::symbols::DeclKind;
use super::super::Checker;
use super::{scope_lookup, Bind, Scope};

verus! {

/// Which loaded file a reference names: the one it already records, or
/// for a qualified reference the file of the first import whose path
/// matches its own.
pub fn resolved_target(q: &QualIdent, imports: &Vec<Import>) -> (r: Option<usize>)
    ensures
        r == resolved_via(*q, imports@),
{
    if q.path.len() == 0 || q.resolved_file.is_some() {
        return q.resolved_file;
    }
    let mut k: usize = 0;
    while k < imports.len()
        invariant
            k <= imports@.len(),
            q.path@.len() > 0,
            q.resolved_file.is_none(),
            first_matching_import(imports@, q.path@) == first_match_from(imports@, q.path@, k as int),
        decreases imports@.len() - k,
    {
        if same_path(&imports[k].path, &q.path) {
            proof {
                assert(import_matches(imports@[k as int], q.path@));
            }
            return imports[k].resolved_file;
        }
        proof {
            assert(!import_matches(imports@[k as int], q.path@));
        }
        k += 1;
    }
    None
}

/// Whether two paths name the same segments.
fn same_path(a: &Vec<crate::ast::Ident>, b: &Vec<crate::ast::Ident>) -> (r: bool)
    ensures
        r == (path_names(a@) == path_names(b@)),
{
    if a.len() != b.len() {
        proof {
            assert(path_names(a@).len() != path_names(b@).len());
        }
        return false;
    }
    let mut i: usize = 0;
    while i < a.len()
        invariant
            i <= a@.len(),
            a@.len() == b@.len(),
            forall|j: int| 0 <= j < i ==> #[trigger] a@[j].name@ == b@[j].name@,
        decreases a@.len() - i,
    {
        if a[i].name != b[i].name {
            proof {
                assert(path_names(a@)[i as int] != path_names(b@)[i as int]);
            }
            return false;
        }
        i += 1;
    }
    proof {
        assert(path_names(a@) =~= path_names(b@));
    }
    true
}

/// `after` is `before` plus exactly one diagnostic, with this code, at
/// this span.
pub open spec fn reported_once(before: Seq<crate::diag::Diag>, after: Seq<crate::diag::Diag>, code: &'static str, sp: crate::span::Span) -> bool {
    &&& after.len() == before.len() + 1
    &&& after.drop_last() == before
    &&& after.last().code == Some(code)
    &&& after.last().span == sp
}

impl<'a> Checker<'a> {
    /// Enum lookup: module scope first, then the project's file-level
    /// enums (the first file that declares the name).
    pub fn lookup_enum(&self, sc: &Scope<'a>, name: &String) -> (r: Option<&'a EnumDecl>)
        ensures
            scope_lookup(sc.names@, name@) matches Some(Bind::Enum(e)) ==> r == Some(e),
            r matches Some(e) ==> scope_lookup(sc.names@, name@) == Some(Bind::Enum(e))
                || exists|f: int, i: int| 0 <= f < self.files@.len() && 0 <= i < self.files@[f].items@.len()
                    && #[trigger] self.files@[f].items@[i] == TopItem::Enum(*e) && e.name.name@ == name@,
            !(scope_lookup(sc.names@, name@) matches Some(Bind::Enum(_)))
                && super::insts::no_decl(self.files@, DeclKind::Enum, name@) ==> r is None,
    {
        if let Some(Bind::Enum(e)) = sc.get(name) {
            return Some(e);
        }
        let found = self.decls_named(name, DeclKind::Enum);
        proof {
            if found@.len() > 0 {
                let (f0, i0) = found@[0];
                assert(super::super::symbols::decl_name(self.files@[f0 as int].items@[i0 as int], DeclKind::Enum) == Some(name@));
            }
        }
        if found.len() > 0 {
            let r = self.enum_at(found[0]);
            proof {
                if let Some(e) = r {
                    let (f, i) = found@[0];
                    assert(self.files@[f as int].items@[i as int] == TopItem::Enum(*e));
                    assert(super::super::symbols::decl_name(TopItem::Enum(*e), DeclKind::Enum) == Some(name@));
                }
            }
            r
        } else {
            None
        }
    }

    /// Pick the declaration a reference means among the files that
    /// declare its name (`candidates`, one per file, in file order). A
    /// bare name must be unambiguous (E0110); a qualified one must match
    /// an `import` of this file whose file declares the name (E0111).
    #[verifier::loop_isolation(false)]
    pub fn resolve(&mut self, file: usize, candidates: &Vec<(usize, usize)>, q: &QualIdent) -> (r: Option<(usize, usize)>)
        requires
            old(self).inv(),
            file < old(self).files@.len(),
            candidates@.len() > 0,
        ensures
            final(self).grew_from(&*old(self)),
            final(self).file_consts == old(self).file_consts,
            r matches Some(c) ==> exists|k: int| 0 <= k < candidates@.len() && #[trigger] candidates@[k] == c,
            q.path@.len() == 0 && candidates@.len() == 1 ==> r == Some(candidates@[0]) && final(self).diags@ == old(self).diags@,
            q.path@.len() == 0 && candidates@.len() >= 2 ==> r is None
                && reported_once(old(self).diags@, final(self).diags@, "E0110", q.span),
            q.path@.len() > 0 ==> match resolved_via(*q, old(self).files@[file as int].imports@) {
                None => r is None && reported_once(old(self).diags@, final(self).diags@, "E0111", q.span),
                Some(t) => if exists|k: int| 0 <= k < candidates@.len() && #[trigger] candidates@[k].0 == t {
                    &&& r matches Some(c) && c.0 == t
                    &&& (forall|k: int| 0 <= k < candidates@.len() && #[trigger] candidates@[k].0 == t ==> r == Some(candidates@[k])
                        || exists|k2: int| 0 <= k2 < k && candidates@[k2].0 == t)
                    &&& final(self).diags@ == old(self).diags@
                } else {
                    r is None && reported_once(old(self).diags@, final(self).diags@, "E0111", q.span)
                },
            },
    {
        if q.is_bare() {
            if candidates.len() == 1 {
                return Some(candidates[0]);
            }
            let mut list = String::new();
            let mut k: usize = 0;
            while k < candidates.len()
                invariant
                    k <= candidates@.len(),
                decreases candidates@.len() - k,
            {
                if k > 0 {
                    list.append(", ");
                }
                list.append("file ");
                let n = num(candidates[k].0);
                list.append(n.as_str());
                k += 1;
            }
            let count = num(candidates.len());
            self.err(
                file,
                q.span,
                "E0110",
                cat(&["`", q.name.name.as_str(), "` is ambiguous — declared in ", count.as_str(), " different files"]),
                cat(&["qualify with the import path to pick one, e.g. `a.b.", q.name.name.as_str(), "` (candidates: ", list.as_str(), ")"]),
            );
            proof { assert(self.diags@.drop_last() =~= old(self).diags@); }
            return None;
        }
        let files = self.files;
        match resolved_target(q, &files[file].imports) {
            None => {
                let dotted = q.to_dotted();
                self.err(
                    file,
                    q.span,
                    "E0111",
                    cat(&["the path in `", dotted.as_str(), "` doesn't match any `import` in this file"]),
                    owned("check the import path segments, or drop the qualifier if the bare name is unambiguous"),
                );
                proof { assert(self.diags@.drop_last() =~= old(self).diags@); }
                None
            }
            Some(target) => {
                let mut k: usize = 0;
                while k < candidates.len()
                    invariant
                        k <= candidates@.len(),
                        forall|k2: int| 0 <= k2 < k ==> #[trigger] candidates@[k2].0 != target,
                    decreases candidates@.len() - k,
                {
                    if candidates[k].0 == target {
                        return Some(candidates[k]);
                    }
                    k += 1;
                }
                let mut path = String::new();
                let mut p: usize = 0;
                while p < q.path.len()
                    invariant
                        p <= q.path@.len(),
                    decreases q.path@.len() - p,
                {
                    if p > 0 {
                        path.append(".");
                    }
                    path.append(q.path[p].name.as_str());
                    p += 1;
                }
                self.err(
                    file,
                    q.span,
                    "E0111",
                    cat(&["the file imported as `", path.as_str(), "` doesn't declare `", q.name.name.as_str(), "`"]),
                    owned(
                        "the import resolves to a real file, but that file has no declaration by this name — check the spelling, or declare it there",
                    ),
                );
                proof { assert(self.diags@.drop_last() =~= old(self).diags@); }
                None
            }
        }
    }
}

} // verus!
