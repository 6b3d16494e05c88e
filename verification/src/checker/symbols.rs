//! Project symbol tables and per-file duplicate detection.
//!
//! A module, enum, bundle or extern-module name may be reused across
//! files (a reference then picks one by qualifying it), but not within
//! one file: E0001/E0002/E0909/E1301. Function names are unique across
//! the whole project (E0801) and may not shadow a builtin (E0802).
//!
//! The tables are views of the files themselves: each lookup lists, in
//! file order, the first declaration of a name in every file that has one.

use vstd::prelude::*;

use crate::ast::{builtin_table, BundleDecl, Builtin, EnumDecl, ExternModule, FuncDecl, Module, TopItem};
use crate::text::cat;

use super::Checker;

verus! {

/// What kind of file-level declaration a table lists.
#[derive(Clone, Copy, PartialEq, Eq, Structural)]
pub enum DeclKind {
    Module,
    Enum,
    Bundle,
    Extern,
}

/// The name a top-level item declares under `kind`, if it is one.
pub open spec fn decl_name(item: TopItem, kind: DeclKind) -> Option<Seq<char>> {
    match (item, kind) {
        (TopItem::Module(m), DeclKind::Module) => Some(m.name.name@),
        (TopItem::Enum(e), DeclKind::Enum) => Some(e.name.name@),
        (TopItem::Bundle(b), DeclKind::Bundle) => Some(b.name.name@),
        (TopItem::ExternModule(x), DeclKind::Extern) => Some(x.name.name@),
        _ => None,
    }
}

/// Whether item `j` of `items` repeats, under `kind`, a name declared by
/// an earlier item of the same list.
pub open spec fn repeats_earlier(items: Seq<TopItem>, j: int, kind: DeclKind) -> bool {
    &&& decl_name(items[j], kind) is Some
    &&& exists|i: int| 0 <= i < j && #[trigger] decl_name(items[i], kind) == decl_name(items[j], kind)
}

/// Where a declaration's name stands.
pub open spec fn decl_span(item: TopItem) -> crate::span::Span {
    match item {
        TopItem::Module(m) => m.name.span,
        TopItem::Enum(e) => e.name.span,
        TopItem::Bundle(b) => b.name.span,
        TopItem::ExternModule(x) => x.name.span,
        _ => crate::span::Span { start: 0, end: 0 },
    }
}

/// Some diagnostic reports the repeated declaration at item `j` of file
/// `f` with its kind's code, at its name, in its file.
pub open spec fn duplicate_flagged(ds: Seq<crate::diag::Diag>, files: Seq<crate::ast::File>, f: int, j: int, kind: DeclKind) -> bool {
    exists|i: int| 0 <= i < ds.len() && #[trigger] ds[i].code == Some(duplicate_code(kind))
        && ds[i].span == decl_span(files[f].items@[j]) && ds[i].file == Some(f as usize)
}

/// Whether some file declares one name twice under `kind`.
pub open spec fn has_same_file_duplicate(files: Seq<crate::ast::File>, kind: DeclKind) -> bool {
    exists|f: int, j: int|
        0 <= f < files.len() && 0 <= j < files[f].items@.len()
            && #[trigger] repeats_earlier(files[f].items@, j, kind)
}

/// The code reported for a same-file duplicate of each kind.
pub open spec fn duplicate_code(kind: DeclKind) -> &'static str {
    match kind {
        DeclKind::Module => "E0001",
        DeclKind::Enum => "E0002",
        DeclKind::Bundle => "E0909",
        DeclKind::Extern => "E1301",
    }
}

/// The name an item declares under `kind`, if it is one.
fn item_decl_name<'b>(item: &'b TopItem, kind: DeclKind) -> (r: Option<&'b String>)
    ensures
        match r {
            Some(n) => decl_name(*item, kind) == Some(n@),
            None => decl_name(*item, kind) is None,
        },
{
    match (item, kind) {
        (TopItem::Module(m), DeclKind::Module) => Some(&m.name.name),
        (TopItem::Enum(e), DeclKind::Enum) => Some(&e.name.name),
        (TopItem::Bundle(b), DeclKind::Bundle) => Some(&b.name.name),
        (TopItem::ExternModule(x), DeclKind::Extern) => Some(&x.name.name),
        _ => None,
    }
}

/// Whether item `j` repeats an earlier same-kind name in its list.
fn repeats_earlier_exec(items: &Vec<TopItem>, j: usize, kind: DeclKind) -> (r: bool)
    requires
        j < items@.len(),
    ensures
        r == repeats_earlier(items@, j as int, kind),
{
    let name = match item_decl_name(&items[j], kind) {
        Some(n) => n,
        None => return false,
    };
    let mut i: usize = 0;
    while i < j
        invariant
            i <= j < items@.len(),
            decl_name(items@[j as int], kind) == Some(name@),
            forall|k: int| 0 <= k < i ==> #[trigger] decl_name(items@[k], kind) != decl_name(items@[j as int], kind),
        decreases j - i,
    {
        if let Some(other) = item_decl_name(&items[i], kind) {
            if *other == *name {
                return true;
            }
        }
        i += 1;
    }
    false
}

/// Item `i` is the first of `items` declaring `name` under `kind`.
pub open spec fn first_decl(items: Seq<TopItem>, i: int, kind: DeclKind, name: Seq<char>) -> bool {
    &&& 0 <= i < items.len()
    &&& decl_name(items[i], kind) == Some(name)
    &&& forall|k: int| 0 <= k < i ==> #[trigger] decl_name(items[k], kind) != Some(name)
}

/// The first item of a list declaring `name` under `kind`.
fn first_in_file(items: &Vec<TopItem>, name: &String, kind: DeclKind) -> (r: Option<usize>)
    ensures
        r matches Some(i) ==> first_decl(items@, i as int, kind, name@),
        r is None ==> forall|k: int| 0 <= k < items@.len() ==> #[trigger] decl_name(items@[k], kind) != Some(name@),
{
    let mut i: usize = 0;
    while i < items.len()
        invariant
            i <= items@.len(),
            forall|k: int| 0 <= k < i ==> #[trigger] decl_name(items@[k], kind) != Some(name@),
        decreases items@.len() - i,
    {
        if let Some(n) = item_decl_name(&items[i], kind) {
            if *n == *name {
                return Some(i);
            }
        }
        i += 1;
    }
    None
}

impl<'a> Checker<'a> {
    /// Report every same-file duplicate declaration and every function
    /// name that repeats another or shadows a builtin.
    pub fn build_symbols(&mut self)
        requires
            old(self).inv(),
        ensures
            final(self).grew_from(&*old(self)),
            final(self).file_consts == old(self).file_consts,
            forall|kind: DeclKind| has_same_file_duplicate(old(self).files@, kind) ==>
                exists|i: int| 0 <= i < final(self).diags@.len()
                    && #[trigger] final(self).diags@[i].code == Some(duplicate_code(kind)),
            forall|f: int, j: int| #[trigger] bad_func_name(old(self).files@, f, j)
                ==> func_name_flagged(final(self).diags@, old(self).files@, f, j),
            forall|kind: DeclKind, f: int, j: int| 0 <= f < old(self).files@.len() && 0 <= j < old(self).files@[f].items@.len()
                && #[trigger] repeats_earlier(old(self).files@[f].items@, j, kind)
                ==> duplicate_flagged(final(self).diags@, old(self).files@, f, j, kind),
            final(self).diags@.len() == old(self).diags@.len() + files_reports(old(self).files@, old(self).files@.len() as int),
            forall|f: int, j: int| 0 <= f < old(self).files@.len() && 0 <= j < old(self).files@[f].items@.len()
                && #[trigger] symbol_violation(old(self).files@, f, j)
                ==> symbol_report_ok(final(self).diags@[old(self).diags@.len() + report_slot(old(self).files@, f, j)],
                    old(self).files@, f, j),
    {
        let ghost start = *self;
        let files = self.files;
        let mut file: usize = 0;
        while file < files.len()
            invariant
                self.grew_from(&start),
                self.files == files,
                self.file_consts == start.file_consts,
                file <= files@.len(),
                forall|kind: DeclKind, f: int, j: int|
                    0 <= f < file && 0 <= j < files@[f].items@.len()
                        && #[trigger] repeats_earlier(files@[f].items@, j, kind) ==>
                        exists|i: int| 0 <= i < self.diags@.len()
                            && #[trigger] self.diags@[i].code == Some(duplicate_code(kind)),
                forall|f: int, j: int| 0 <= f < file && #[trigger] bad_func_name(files@, f, j)
                    ==> func_name_flagged(self.diags@, files@, f, j),
                forall|kind: DeclKind, f: int, j: int| 0 <= f < file && 0 <= j < files@[f].items@.len()
                    && #[trigger] repeats_earlier(files@[f].items@, j, kind) ==> duplicate_flagged(self.diags@, files@, f, j, kind),
                self.diags@.len() == start.diags@.len() + files_reports(files@, file as int),
                forall|f: int, j: int| 0 <= f < file && 0 <= j < files@[f].items@.len()
                    && #[trigger] symbol_violation(files@, f, j)
                    ==> report_slot(files@, f, j) < files_reports(files@, file as int)
                    && symbol_report_ok(self.diags@[start.diags@.len() + report_slot(files@, f, j)], files@, f, j),
            decreases files@.len() - file,
        {
            let items = &files[file].items;
            let mut j: usize = 0;
            while j < items.len()
                invariant
                    self.grew_from(&start),
                    self.files == files,
                    self.file_consts == start.file_consts,
                    file < files@.len(),
                    items == files@[file as int].items,
                    j <= items@.len(),
                    forall|kind: DeclKind, f: int, jj: int|
                        ((0 <= f < file && 0 <= jj < files@[f].items@.len())
                            || (f == file && 0 <= jj < j))
                            && #[trigger] repeats_earlier(files@[f].items@, jj, kind) ==>
                            exists|i: int| 0 <= i < self.diags@.len()
                                && #[trigger] self.diags@[i].code == Some(duplicate_code(kind)),
                    forall|f: int, jj: int| (0 <= f < file || (f == file && jj < j)) && #[trigger] bad_func_name(files@, f, jj)
                        ==> func_name_flagged(self.diags@, files@, f, jj),
                    forall|kind: DeclKind, f: int, jj: int| ((0 <= f < file && 0 <= jj < files@[f].items@.len()) || (f == file && 0 <= jj < j))
                        && #[trigger] repeats_earlier(files@[f].items@, jj, kind) ==> duplicate_flagged(self.diags@, files@, f, jj, kind),
                    self.diags@.len() == start.diags@.len() + files_reports(files@, file as int) + file_reports(files@, file as int, j as int),
                    forall|f: int, jj: int| ((0 <= f < file && 0 <= jj < files@[f].items@.len()) || (f == file && 0 <= jj < j))
                        && #[trigger] symbol_violation(files@, f, jj)
                        ==> report_slot(files@, f, jj) < files_reports(files@, file as int) + file_reports(files@, file as int, j as int)
                        && symbol_report_ok(self.diags@[start.diags@.len() + report_slot(files@, f, jj)], files@, f, jj),
                decreases items@.len() - j,
            {
                let ghost before = *self;
                self.symbol_item(file, items, j);
                proof {
                    assert forall|f: int, jj: int| (0 <= f < file || (f == file && jj < j + 1)) && #[trigger] bad_func_name(files@, f, jj)
                        implies func_name_flagged(self.diags@, files@, f, jj) by {
                        if !(f == file && jj == j) {
                            let k = choose|k: int| 0 <= k < before.diags@.len() && #[trigger] before.diags@[k].code == Some(func_name_code(files@, f, jj))
                                && before.diags@[k].span == func_decl_at(files@, f, jj).name.span && before.diags@[k].file == Some(f as usize);
                            assert(self.diags@[k] == before.diags@[k]);
                        }
                    }
                    assert forall|kind: DeclKind, f: int, jj: int| ((0 <= f < file && 0 <= jj < files@[f].items@.len()) || (f == file && 0 <= jj < j + 1))
                        && #[trigger] repeats_earlier(files@[f].items@, jj, kind) implies duplicate_flagged(self.diags@, files@, f, jj, kind) by {
                        if f == file && jj == j {
                            let last = self.diags@.len() - 1;
                            assert(self.diags@[last].code == Some(duplicate_code(kind)));
                        } else {
                            let i = choose|i: int| 0 <= i < before.diags@.len() && #[trigger] before.diags@[i].code == Some(duplicate_code(kind))
                                && before.diags@[i].span == decl_span(files@[f].items@[jj]) && before.diags@[i].file == Some(f as usize);
                            assert(self.diags@[i] == before.diags@[i]);
                        }
                    }
                    assert forall|kind: DeclKind, f: int, jj: int|
                        ((0 <= f < file && 0 <= jj < files@[f].items@.len())
                            || (f == file && 0 <= jj < j + 1))
                            && #[trigger] repeats_earlier(files@[f].items@, jj, kind) implies
                            exists|i: int| 0 <= i < self.diags@.len()
                                && #[trigger] self.diags@[i].code == Some(duplicate_code(kind)) by {
                        if f == file && jj == j {
                        } else {
                            let i = choose|i: int| 0 <= i < before.diags@.len()
                                && #[trigger] before.diags@[i].code == Some(duplicate_code(kind));
                            assert(self.diags@[i] == before.diags@[i]);
                        }
                    }
                    assert(file_reports(files@, file as int, j + 1) == file_reports(files@, file as int, j as int)
                        + if symbol_violation(files@, file as int, j as int) { 1nat } else { 0nat });
                    assert forall|f: int, jj: int| ((0 <= f < file && 0 <= jj < files@[f].items@.len()) || (f == file && 0 <= jj < j + 1))
                        && #[trigger] symbol_violation(files@, f, jj)
                        implies report_slot(files@, f, jj) < files_reports(files@, file as int) + file_reports(files@, file as int, j + 1)
                        && symbol_report_ok(self.diags@[start.diags@.len() + report_slot(files@, f, jj)], files@, f, jj) by {
                        if f == file && jj == j {
                            assert(report_slot(files@, f, jj) == files_reports(files@, file as int) + file_reports(files@, file as int, j as int));
                        } else {
                            let k = start.diags@.len() + report_slot(files@, f, jj);
                            assert(self.diags@[k] == before.diags@[k]);
                        }
                    }
                }
                j += 1;
            }
            proof {
                assert(files_reports(files@, file + 1) == files_reports(files@, file as int)
                    + file_reports(files@, file as int, files@[file as int].items@.len() as int));
            }
            file += 1;
        }
    }

    /// Register one top-level item of `file`.
    fn symbol_item(&mut self, file: usize, items: &Vec<TopItem>, j: usize)
        requires
            old(self).inv(),
            file < old(self).files@.len(),
            items == old(self).files@[file as int].items,
            j < items@.len(),
        ensures
            final(self).grew_from(&*old(self)),
            final(self).file_consts == old(self).file_consts,
            forall|kind: DeclKind| #[trigger] repeats_earlier(items@, j as int, kind) ==>
                final(self).diags@.len() == old(self).diags@.len() + 1
                    && final(self).diags@.last().code == Some(duplicate_code(kind))
                    && final(self).diags@.last().span == decl_span(items@[j as int])
                    && final(self).diags@.last().file == Some(file),
            !(items@[j as int] is Func) && (forall|kind: DeclKind| !#[trigger] repeats_earlier(items@, j as int, kind))
                ==> final(self).diags@ == old(self).diags@,
            bad_func_name(old(self).files@, file as int, j as int) ==> func_name_flagged(
                final(self).diags@, old(self).files@, file as int, j as int),
            symbol_violation(old(self).files@, file as int, j as int) ==> final(self).diags@.len() == old(self).diags@.len() + 1
                && symbol_report_ok(final(self).diags@.last(), old(self).files@, file as int, j as int),
            !symbol_violation(old(self).files@, file as int, j as int) ==> final(self).diags@ == old(self).diags@,
    {
        proof {
            if bad_func_name(self.files@, file as int, j as int) {
                lemma_some_registered(self.files@, file as int, j as int);
            }
        }
        match &items[j] {
            TopItem::Module(m) => {
                if repeats_earlier_exec(items, j, DeclKind::Module) {
                    self.err(
                        file,
                        m.name.span,
                        "E0001",
                        cat(&["module `", m.name.name.as_str(), "` is defined more than once in this file"]),
                        String::from_str(
                            "module names are unique within one file — rename one of them (a different file may reuse this name; qualify the reference with the import path if it becomes ambiguous)",
                        ),
                    );
                }
            }
            TopItem::Enum(e) => {
                if repeats_earlier_exec(items, j, DeclKind::Enum) {
                    self.err(
                        file,
                        e.name.span,
                        "E0002",
                        cat(&["enum `", e.name.name.as_str(), "` is defined more than once in this file"]),
                        String::from_str(
                            "file-level enums come into scope with `import`, so their names must be unique within one file — rename one of them (a different file may reuse this name; qualify the reference with the import path if it becomes ambiguous)",
                        ),
                    );
                }
            }
            TopItem::ExternModule(em) => {
                if repeats_earlier_exec(items, j, DeclKind::Extern) {
                    self.err(
                        file,
                        em.name.span,
                        "E1301",
                        cat(&["extern module `", em.name.name.as_str(), "` is defined more than once in this file"]),
                        String::from_str(
                            "extern module names are unique within one file — rename one of them (a different file may reuse this name; qualify the reference with the import path if it becomes ambiguous)",
                        ),
                    );
                }
            }
            TopItem::Bundle(b) => {
                if repeats_earlier_exec(items, j, DeclKind::Bundle) {
                    self.err(
                        file,
                        b.name.span,
                        "E0909",
                        cat(&["bundle `", b.name.name.as_str(), "` is defined more than once in this file"]),
                        String::from_str(
                            "bundle names are unique within one file — rename one of them (a different file may reuse this name; qualify the reference with the import path if it becomes ambiguous)",
                        ),
                    );
                }
            }
            TopItem::Func(f) => {
                let name = &f.name.name;
                if Builtin::from_name(name.as_str()).is_some() {
                    self.err(
                        file,
                        f.name.span,
                        "E0802",
                        cat(&["`", name.as_str(), "` is a builtin — choose another function name"]),
                        String::from_str(
                            "builtin names are reserved by the language and cannot be redefined — pick a different name for your function",
                        ),
                    );
                } else {
                    match self.func_index(name) {
                        Some((df, di)) => {
                            proof {
                                if df != file || di != j {
                                    lemma_registered_unique(self.files@, df as int, di as int, file as int, j as int);
                                }
                            }
                            if df != file || di != j {
                                self.err(
                                    file,
                                    f.name.span,
                                    "E0801",
                                    cat(&["function `", name.as_str(), "` is defined more than once"]),
                                    String::from_str("function names are unique across the whole project — rename one"),
                                );
                            }
                        }
                        None => {}
                    }
                }
            }
            _ => {}
        }
    }

    /// Every file's first declaration of `name` under `kind`, as
    /// `(file, item index)`, in file order.
    pub fn decls_named(&self, name: &String, kind: DeclKind) -> (r: Vec<(usize, usize)>)
        ensures
            forall|k: int| 0 <= k < r@.len() ==> {
                let (f, i) = #[trigger] r@[k];
                &&& f < self.files@.len()
                &&& i < self.files@[f as int].items@.len()
                &&& decl_name(self.files@[f as int].items@[i as int], kind) == Some(name@)
            },
            forall|k: int, l: int| 0 <= k < l < r@.len() ==> r@[k].0 < r@[l].0,
            forall|k: int| 0 <= k < r@.len() ==> first_decl(self.files@[r@[k].0 as int].items@, #[trigger] r@[k].1 as int, kind, name@),
            forall|f: int, i: int| 0 <= f < self.files@.len() && #[trigger] first_decl(self.files@[f].items@, i, kind, name@)
                ==> r@.contains((f as usize, i as usize)),
    {
        let files = self.files;
        let mut out: Vec<(usize, usize)> = Vec::new();
        let mut f: usize = 0;
        while f < files.len()
            invariant
                f <= files@.len(),
                files == self.files,
                forall|k: int| 0 <= k < out@.len() ==> {
                    let (ff, i) = #[trigger] out@[k];
                    &&& ff < f
                    &&& i < files@[ff as int].items@.len()
                    &&& decl_name(files@[ff as int].items@[i as int], kind) == Some(name@)
                },
                forall|k: int, l: int| 0 <= k < l < out@.len() ==> out@[k].0 < out@[l].0,
                forall|k: int| 0 <= k < out@.len() ==> first_decl(files@[out@[k].0 as int].items@, #[trigger] out@[k].1 as int, kind, name@),
                forall|f2: int, i: int| 0 <= f2 < f && #[trigger] first_decl(files@[f2].items@, i, kind, name@)
                    ==> out@.contains((f2 as usize, i as usize)),
            decreases files@.len() - f,
        {
            let ghost pre = out@;
            if let Some(i) = first_in_file(&files[f].items, name, kind) {
                out.push((f, i));
                proof {
                    assert(out@[out@.len() - 1] == (f, i));
                }
            }
            proof {
                assert forall|f2: int, i2: int| 0 <= f2 < f + 1 && #[trigger] first_decl(files@[f2].items@, i2, kind, name@)
                    implies out@.contains((f2 as usize, i2 as usize)) by {
                    if f2 < f {
                        let k = choose|k: int| 0 <= k < pre.len() && pre[k] == (f2 as usize, i2 as usize);
                        assert(out@[k] == pre[k]);
                    } else {
                        assert(decl_name(files@[f2].items@[i2], kind) == Some(name@));
                        let r2 = out@.last();
                        if r2.1 as int > i2 {
                        } else if (r2.1 as int) < i2 {
                            assert(decl_name(files@[f2].items@[r2.1 as int], kind) == Some(name@));
                        }
                        assert(out@[out@.len() - 1] == (f2 as usize, i2 as usize));
                    }
                }
            }
            f += 1;
        }
        out
    }

    /// The module declared at `(file, item)`, if that item is one.
    pub fn module_at(&self, at: (usize, usize)) -> (r: Option<&'a Module>)
        ensures
            r matches Some(m) ==> at.0 < self.files@.len() && at.1 < self.files@[at.0 as int].items@.len()
                && self.files@[at.0 as int].items@[at.1 as int] == TopItem::Module(*m),
            at.0 < self.files@.len() && at.1 < self.files@[at.0 as int].items@.len()
                && self.files@[at.0 as int].items@[at.1 as int] is Module ==> r is Some,
    {
        let files = self.files;
        if at.0 < files.len() && at.1 < files[at.0].items.len() {
            if let TopItem::Module(m) = &files[at.0].items[at.1] {
                return Some(m);
            }
        }
        None
    }

    /// The enum declared at `(file, item)`, if that item is one.
    pub fn enum_at(&self, at: (usize, usize)) -> (r: Option<&'a EnumDecl>)
        ensures
            r matches Some(e) ==> at.0 < self.files@.len() && at.1 < self.files@[at.0 as int].items@.len()
                && self.files@[at.0 as int].items@[at.1 as int] == TopItem::Enum(*e),
            at.0 < self.files@.len() && at.1 < self.files@[at.0 as int].items@.len()
                && self.files@[at.0 as int].items@[at.1 as int] is Enum ==> r is Some,
    {
        let files = self.files;
        if at.0 < files.len() && at.1 < files[at.0].items.len() {
            if let TopItem::Enum(e) = &files[at.0].items[at.1] {
                return Some(e);
            }
        }
        None
    }

    /// The bundle declared at `(file, item)`, if that item is one.
    pub fn bundle_at(&self, at: (usize, usize)) -> (r: Option<&'a BundleDecl>)
        ensures
            r matches Some(b) ==> at.0 < self.files@.len() && at.1 < self.files@[at.0 as int].items@.len()
                && self.files@[at.0 as int].items@[at.1 as int] == TopItem::Bundle(*b),
            at.0 < self.files@.len() && at.1 < self.files@[at.0 as int].items@.len()
                && self.files@[at.0 as int].items@[at.1 as int] is Bundle ==> r is Some,
    {
        let files = self.files;
        if at.0 < files.len() && at.1 < files[at.0].items.len() {
            if let TopItem::Bundle(b) = &files[at.0].items[at.1] {
                return Some(b);
            }
        }
        None
    }

    /// The extern module declared at `(file, item)`, if that item is one.
    pub fn extern_at(&self, at: (usize, usize)) -> (r: Option<&'a ExternModule>)
        ensures
            r matches Some(x) ==> at.0 < self.files@.len() && at.1 < self.files@[at.0 as int].items@.len()
                && self.files@[at.0 as int].items@[at.1 as int] == TopItem::ExternModule(*x),
            at.0 < self.files@.len() && at.1 < self.files@[at.0 as int].items@.len()
                && self.files@[at.0 as int].items@[at.1 as int] is ExternModule ==> r is Some,
    {
        let files = self.files;
        if at.0 < files.len() && at.1 < files[at.0].items.len() {
            if let TopItem::ExternModule(x) = &files[at.0].items[at.1] {
                return Some(x);
            }
        }
        None
    }

    /// Where the project's registered function of this name is declared,
    /// as `(file, item index)`: the first one, in file and item order,
    /// whose name is not a builtin's.
    pub fn func_index(&self, name: &String) -> (r: Option<(usize, usize)>)
        ensures
            r matches Some((f, i)) ==> registered_at(self.files@, f as int, i as int)
                && func_name_at(self.files@, f as int, i as int) == name@,
            r is None ==> forall|f: int, i: int| #[trigger] registered_at(self.files@, f, i)
                ==> func_name_at(self.files@, f, i) != name@,
    {
        if Builtin::from_name(name.as_str()).is_some() {
            return None;
        }
        let files = self.files;
        let mut f: usize = 0;
        while f < files.len()
            invariant
                f <= files@.len(),
                files == self.files,
                builtin_table(name@) is None,
                forall|f2: int, i2: int| 0 <= f2 < f && #[trigger] func_at(files@, f2, i2) ==> func_name_at(files@, f2, i2) != name@,
            decreases files@.len() - f,
        {
            let items = &files[f].items;
            let mut i: usize = 0;
            while i < items.len()
                invariant
                    f < files@.len(),
                    items == files@[f as int].items,
                    i <= items@.len(),
                    files == self.files,
                    builtin_table(name@) is None,
                    forall|f2: int, i2: int| before(f2, i2, f as int, i as int) && #[trigger] func_at(files@, f2, i2)
                        ==> func_name_at(files@, f2, i2) != name@,
                decreases items@.len() - i,
            {
                if let TopItem::Func(d) = &items[i] {
                    if d.name.name == *name {
                        return Some((f, i));
                    }
                }
                i += 1;
            }
            f += 1;
        }
        None
    }

    /// The project's registered function of this name.
    pub fn func_named(&self, name: &String) -> (r: Option<(usize, &'a FuncDecl)>)
        ensures
            r matches Some((f, d)) ==> f < self.files@.len() && d.name.name@ == name@
                && exists|i: int| #[trigger] registered_at(self.files@, f as int, i) && func_decl_at(self.files@, f as int, i) == *d,
            r is None ==> forall|f: int, i: int| #[trigger] registered_at(self.files@, f, i)
                ==> func_name_at(self.files@, f, i) != name@,
    {
        let files = self.files;
        match self.func_index(name) {
            Some((f, i)) => {
                if let TopItem::Func(d) = &files[f].items[i] {
                    proof {
                        assert(registered_at(self.files@, f as int, i as int));
                    }
                    Some((f, d))
                } else {
                    None
                }
            }
            None => None,
        }
    }

    /// Where every registered function is declared, as `(file, item
    /// index)`, in file and item order: each once, and nothing else.
    pub fn registered_funcs(&self) -> (r: Vec<(usize, usize)>)
        ensures
            forall|k: int| 0 <= k < r@.len() ==> #[trigger] registered_at(self.files@, r@[k].0 as int, r@[k].1 as int),
            forall|f: int, i: int| #[trigger] registered_at(self.files@, f, i)
                ==> exists|k: int| 0 <= k < r@.len() && (r@[k].0 as int, r@[k].1 as int) == (f, i),
            r@.no_duplicates(),
    {
        let files = self.files;
        let mut out: Vec<(usize, usize)> = Vec::new();
        let mut f: usize = 0;
        while f < files.len()
            invariant
                f <= files@.len(),
                files == self.files,
                forall|k: int| 0 <= k < out@.len() ==> #[trigger] registered_at(files@, out@[k].0 as int, out@[k].1 as int),
                forall|k: int| 0 <= k < out@.len() ==> (#[trigger] out@[k]).0 < f,
                forall|f2: int, i2: int| 0 <= f2 < f && #[trigger] registered_at(files@, f2, i2)
                    ==> exists|k: int| 0 <= k < out@.len() && (out@[k].0 as int, out@[k].1 as int) == (f2, i2),
                out@.no_duplicates(),
            decreases files@.len() - f,
        {
            let items = &files[f].items;
            let mut i: usize = 0;
            while i < items.len()
                invariant
                    f < files@.len(),
                    items == files@[f as int].items,
                    i <= items@.len(),
                    files == self.files,
                    forall|k: int| 0 <= k < out@.len() ==> #[trigger] registered_at(files@, out@[k].0 as int, out@[k].1 as int),
                    forall|k: int| 0 <= k < out@.len() ==> before((#[trigger] out@[k]).0 as int, out@[k].1 as int, f as int, i as int),
                    forall|f2: int, i2: int| before(f2, i2, f as int, i as int) && #[trigger] registered_at(files@, f2, i2)
                        ==> exists|k: int| 0 <= k < out@.len() && (out@[k].0 as int, out@[k].1 as int) == (f2, i2),
                    out@.no_duplicates(),
                decreases items@.len() - i,
            {
                if let TopItem::Func(d) = &items[i] {
                    if let Some((df, di)) = self.func_index(&d.name.name) {
                        if df == f && di == i {
                            let ghost old_out = out@;
                            out.push((f, i));
                            proof {
                                assert(out@[old_out.len() as int] == (f, i));
                                assert forall|k1: int, k2: int| 0 <= k1 < k2 < out@.len() implies out@[k1] != out@[k2] by {
                                    if k2 == old_out.len() {
                                        assert(before(out@[k1].0 as int, out@[k1].1 as int, f as int, i as int));
                                    } else {
                                        assert(out@[k1] == old_out[k1] && out@[k2] == old_out[k2]);
                                    }
                                }
                                assert forall|f2: int, i2: int| before(f2, i2, f as int, i + 1) && #[trigger] registered_at(files@, f2, i2)
                                    implies exists|k: int| 0 <= k < out@.len() && (out@[k].0 as int, out@[k].1 as int) == (f2, i2) by {
                                    if before(f2, i2, f as int, i as int) {
                                        let k = choose|k: int| 0 <= k < old_out.len() && (old_out[k].0 as int, old_out[k].1 as int) == (f2, i2);
                                        assert(out@[k] == old_out[k]);
                                    } else {
                                        assert(out@[old_out.len() as int] == (f, i));
                                    }
                                }
                            }
                        } else {
                            proof {
                                assert forall|f2: int, i2: int| before(f2, i2, f as int, i + 1) && #[trigger] registered_at(files@, f2, i2)
                                    implies exists|k: int| 0 <= k < out@.len() && (out@[k].0 as int, out@[k].1 as int) == (f2, i2) by {
                                    if !before(f2, i2, f as int, i as int) {
                                        assert(f2 == f && i2 == i);
                                        assert(before(df as int, di as int, f as int, i as int));
                                        assert(func_at(files@, df as int, di as int));
                                    }
                                }
                            }
                        }
                    } else {
                        proof {
                            assert(!registered_at(files@, f as int, i as int));
                        }
                    }
                }
                proof {
                    assert forall|k: int| 0 <= k < out@.len() implies before((#[trigger] out@[k]).0 as int, out@[k].1 as int, f as int, i + 1) by {}
                }
                i += 1;
            }
            f += 1;
        }
        out
    }
}

/// The function at `(f, j)` repeats an earlier function's name (not a
/// builtin's), or takes a builtin's name.
pub open spec fn bad_func_name(files: Seq<crate::ast::File>, f: int, j: int) -> bool {
    func_at(files, f, j) && !registered_at(files, f, j)
}

/// The code for a function name that may not be used: E0802 for a
/// builtin's, E0801 for a repeat.
pub open spec fn func_name_code(files: Seq<crate::ast::File>, f: int, j: int) -> &'static str {
    if builtin_table(func_name_at(files, f, j)) is Some { "E0802" } else { "E0801" }
}

/// `ds` reports the function name at `(f, j)`: its code, at the name, in
/// file `f`.
pub open spec fn func_name_flagged(ds: Seq<crate::diag::Diag>, files: Seq<crate::ast::File>, f: int, j: int) -> bool {
    exists|k: int| 0 <= k < ds.len() && #[trigger] ds[k].code == Some(func_name_code(files, f, j))
        && ds[k].span == func_decl_at(files, f, j).name.span && ds[k].file == Some(f as usize)
}

/// A non-builtin function name that is not registered at `(f, j)` is
/// registered somewhere earlier.
proof fn lemma_some_registered(files: Seq<crate::ast::File>, f: int, j: int)
    requires
        func_at(files, f, j),
    ensures
        builtin_table(func_name_at(files, f, j)) is None ==> exists|f2: int, j2: int|
            #[trigger] registered_at(files, f2, j2) && func_name_at(files, f2, j2) == func_name_at(files, f, j),
    decreases f, j,
{
    if builtin_table(func_name_at(files, f, j)) is None && !registered_at(files, f, j) {
        let (f2, j2) = choose|f2: int, j2: int| before(f2, j2, f, j) && #[trigger] func_at(files, f2, j2)
            && func_name_at(files, f2, j2) == func_name_at(files, f, j);
        lemma_some_registered(files, f2, j2);
    }
}

/// Two registered functions with one name are one function.
proof fn lemma_registered_unique(files: Seq<crate::ast::File>, f1: int, j1: int, f2: int, j2: int)
    requires
        registered_at(files, f1, j1),
        func_at(files, f2, j2),
        func_name_at(files, f1, j1) == func_name_at(files, f2, j2),
        (f1, j1) != (f2, j2),
    ensures
        !registered_at(files, f2, j2),
{
    if registered_at(files, f2, j2) {
        if before(f1, j1, f2, j2) {
            assert(func_at(files, f1, j1));
        } else {
            assert(before(f2, j2, f1, j1));
        }
    }
}

/// Whether item `i` of file `f` is a function declaration.
pub open spec fn func_at(files: Seq<crate::ast::File>, f: int, i: int) -> bool {
    0 <= f < files.len() && 0 <= i < files[f].items@.len() && files[f].items@[i] is Func
}

/// The declaration at file `f`, item `i` (meaningful where [`func_at`]).
pub open spec fn func_decl_at(files: Seq<crate::ast::File>, f: int, i: int) -> FuncDecl {
    files[f].items@[i]->Func_0
}

/// The name of the function declared at file `f`, item `i`.
pub open spec fn func_name_at(files: Seq<crate::ast::File>, f: int, i: int) -> Seq<char> {
    func_decl_at(files, f, i).name.name@
}

/// Position `(f2, i2)` comes before `(f, i)` in file and item order.
pub open spec fn before(f2: int, i2: int, f: int, i: int) -> bool {
    f2 < f || (f2 == f && i2 < i)
}

/// The function at `(f, i)` is the project's registered one for its
/// name: not a builtin's name, and the first declaration of that name.
pub open spec fn registered_at(files: Seq<crate::ast::File>, f: int, i: int) -> bool {
    &&& func_at(files, f, i)
    &&& builtin_table(func_name_at(files, f, i)) is None
    &&& forall|f2: int, i2: int| before(f2, i2, f, i) && #[trigger] func_at(files, f2, i2)
        ==> func_name_at(files, f2, i2) != func_name_at(files, f, i)
}


/// Whether item `j` of file `f` breaks a symbol rule: it repeats an
/// earlier declaration of its kind in the same file, or it is a function
/// whose name is a builtin's or already taken.
pub open spec fn symbol_violation(files: Seq<crate::ast::File>, f: int, j: int) -> bool {
    (exists|kind: DeclKind| #[trigger] repeats_earlier(files[f].items@, j, kind)) || bad_func_name(files, f, j)
}

/// `d` is the report item `j` of file `f` calls for: in file `f`, with
/// the duplicate's code at its name, or the function-name code at the
/// function's name.
pub open spec fn symbol_report_ok(d: crate::diag::Diag, files: Seq<crate::ast::File>, f: int, j: int) -> bool {
    &&& d.file == Some(f as usize)
    &&& forall|kind: DeclKind| #[trigger] repeats_earlier(files[f].items@, j, kind)
        ==> d.code == Some(duplicate_code(kind)) && d.span == decl_span(files[f].items@[j])
    &&& bad_func_name(files, f, j) ==> d.code == Some(func_name_code(files, f, j))
        && d.span == func_decl_at(files, f, j).name.span
}

/// How many reports items `0..j` of file `f` call for.
pub open spec fn file_reports(files: Seq<crate::ast::File>, f: int, j: int) -> nat
    decreases j,
{
    if j <= 0 {
        0
    } else {
        file_reports(files, f, j - 1) + if symbol_violation(files, f, j - 1) { 1nat } else { 0nat }
    }
}

/// How many reports files `0..f` call for.
pub open spec fn files_reports(files: Seq<crate::ast::File>, f: int) -> nat
    decreases f,
{
    if f <= 0 {
        0
    } else {
        files_reports(files, f - 1) + file_reports(files, f - 1, files[f - 1].items@.len() as int)
    }
}

/// Where item `j` of file `f`'s report stands among the pass's reports:
/// after those of every earlier item, in file and item order.
pub open spec fn report_slot(files: Seq<crate::ast::File>, f: int, j: int) -> int {
    (files_reports(files, f) + file_reports(files, f, j)) as int
}

} // verus!
