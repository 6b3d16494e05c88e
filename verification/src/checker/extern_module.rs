//! Extern-module declarations: every port must be a scalar (E1302) — a
//! real Verilog module's port list is flat wires.

use vstd::prelude::*;

use crate::ast::{ModuleItem, TopItem, Type};
use crate::diag::Diag;
use crate::span::Span;
use crate::text::cat;

use super::Checker;

verus! {

/// Whether a type is a plain scalar: `bit`, `bits[N]` or `signed[N]`.
pub open spec fn spec_is_scalar(ty: Type) -> bool {
    ty is Bit || ty is Bits || ty is Signed
}

fn is_scalar(ty: &Type) -> (r: bool)
    ensures
        r == spec_is_scalar(*ty),
{
    match ty {
        Type::Bit | Type::Bits(_) | Type::Signed(_) => true,
        _ => false,
    }
}

/// Item `k` of the extern module that is item `j` of file `f` is a port
/// of a non-scalar type.
pub open spec fn bad_extern_port(files: Seq<crate::ast::File>, f: int, j: int, k: int) -> bool {
    &&& 0 <= f < files.len()
    &&& 0 <= j < files[f].items@.len()
    &&& files[f].items@[j] is ExternModule
    &&& 0 <= k < files[f].items@[j]->ExternModule_0.items@.len()
    &&& files[f].items@[j]->ExternModule_0.items@[k] matches ModuleItem::Port { ty, .. } && !spec_is_scalar(ty)
}

/// The name span of that port.
pub open spec fn extern_port_span(files: Seq<crate::ast::File>, f: int, j: int, k: int) -> Span {
    files[f].items@[j]->ExternModule_0.items@[k]->Port_name.span
}

/// `d` is an E1302 at a non-scalar extern-module port, in its file.
pub open spec fn reports_extern_port(files: Seq<crate::ast::File>, d: Diag) -> bool {
    &&& d.code == Some("E1302")
    &&& exists|f: int, j: int, k: int| #[trigger] bad_extern_port(files, f, j, k)
        && d.span == extern_port_span(files, f, j, k) && d.file == Some(f as usize)
}

/// Some entry of `ds` from `from` on is an E1302 at that port.
pub open spec fn extern_port_flagged(ds: Seq<Diag>, from: int, files: Seq<crate::ast::File>, f: int, j: int, k: int) -> bool {
    exists|i: int| from <= i < ds.len() && #[trigger] ds[i].code == Some("E1302")
        && ds[i].span == extern_port_span(files, f, j, k) && ds[i].file == Some(f as usize)
}

impl<'a> Checker<'a> {
    /// E1302 for every non-scalar port of every extern module, and
    /// nothing else.
    pub fn check_extern_modules(&mut self)
        requires
            old(self).inv(),
        ensures
            final(self).grew_from(&*old(self)),
            final(self).file_consts == old(self).file_consts,
            forall|f: int, j: int, k: int| #[trigger] bad_extern_port(old(self).files@, f, j, k)
                ==> extern_port_flagged(final(self).diags@, old(self).diags@.len() as int, old(self).files@, f, j, k),
            forall|i: int| old(self).diags@.len() <= i < final(self).diags@.len()
                ==> reports_extern_port(old(self).files@, #[trigger] final(self).diags@[i]),
    {
        let ghost start = *self;
        let files = self.files;
        let ghost from = start.diags@.len() as int;
        let mut file: usize = 0;
        while file < files.len()
            invariant
                self.grew_from(&start),
                self.files == files,
                files@ == start.files@,
                self.file_consts == start.file_consts,
                file <= files@.len(),
                from == start.diags@.len(),
                forall|f: int, j: int, k: int| f < file && #[trigger] bad_extern_port(files@, f, j, k)
                    ==> extern_port_flagged(self.diags@, from, files@, f, j, k),
                forall|i: int| from <= i < self.diags@.len() ==> reports_extern_port(files@, #[trigger] self.diags@[i]),
            decreases files@.len() - file,
        {
            let items = &files[file].items;
            let mut j: usize = 0;
            while j < items.len()
                invariant
                    self.grew_from(&start),
                    self.files == files,
                    files@ == start.files@,
                    self.file_consts == start.file_consts,
                    file < files@.len(),
                    items == files@[file as int].items,
                    j <= items@.len(),
                    from == start.diags@.len(),
                    forall|f: int, jj: int, k: int| (f < file || (f == file && jj < j)) && #[trigger] bad_extern_port(files@, f, jj, k)
                        ==> extern_port_flagged(self.diags@, from, files@, f, jj, k),
                    forall|i: int| from <= i < self.diags@.len() ==> reports_extern_port(files@, #[trigger] self.diags@[i]),
                decreases items@.len() - j,
            {
                if let TopItem::ExternModule(em) = &items[j] {
                    let mut k: usize = 0;
                    while k < em.items.len()
                        invariant
                            self.grew_from(&start),
                            self.files == files,
                            files@ == start.files@,
                            self.file_consts == start.file_consts,
                            file < files@.len(),
                            items == files@[file as int].items,
                            j < items@.len(),
                            items@[j as int] == TopItem::ExternModule(*em),
                            k <= em.items@.len(),
                            from == start.diags@.len(),
                            forall|f: int, jj: int, kk: int| (f < file || (f == file && jj < j) || (f == file && jj == j && kk < k))
                                && #[trigger] bad_extern_port(files@, f, jj, kk)
                                ==> extern_port_flagged(self.diags@, from, files@, f, jj, kk),
                            forall|i: int| from <= i < self.diags@.len() ==> reports_extern_port(files@, #[trigger] self.diags@[i]),
                        decreases em.items@.len() - k,
                    {
                        let ghost before = self.diags@;
                        if let ModuleItem::Port { name, ty, .. } = &em.items[k] {
                            if !is_scalar(ty) {
                                self.err(
                                    file,
                                    name.span,
                                    "E1302",
                                    cat(&["extern module port `", name.name.as_str(), "` must be a scalar type (bit / bits[N] / signed[N])"]),
                                    String::from_str(
                                        "a real Verilog module's port list is always flat wires — bundle/array-typed extern ports are not supported",
                                    ),
                                );
                                proof {
                                    let last = before.len() as int;
                                    assert(bad_extern_port(files@, file as int, j as int, k as int));
                                    assert(self.diags@[last].span == extern_port_span(files@, file as int, j as int, k as int));
                                    assert forall|i: int| from <= i < self.diags@.len() implies reports_extern_port(files@, #[trigger] self.diags@[i]) by {
                                        if i < last {
                                            assert(self.diags@[i] == before[i]);
                                        }
                                    }
                                }
                            }
                        }
                        proof {
                            assert forall|f: int, jj: int, kk: int| (f < file || (f == file && jj < j) || (f == file && jj == j && kk < k + 1))
                                && #[trigger] bad_extern_port(files@, f, jj, kk)
                                implies extern_port_flagged(self.diags@, from, files@, f, jj, kk) by {
                                if f == file && jj == j && kk == k {
                                    assert(self.diags@[before.len() as int].code == Some("E1302"));
                                } else {
                                    let i = choose|i: int| from <= i < before.len() && #[trigger] before[i].code == Some("E1302")
                                        && before[i].span == extern_port_span(files@, f, jj, kk) && before[i].file == Some(f as usize);
                                    assert(self.diags@[i] == before[i]);
                                }
                            }
                        }
                        k += 1;
                    }
                }
                j += 1;
            }
            file += 1;
        }
    }
}

} // verus!
