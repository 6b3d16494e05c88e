//! The two compiler-made valid-bundle declarations behind `T?`: never
//! written in any source file; a `?`-suffixed type refers to one of these
//! two names. The checker and the emitter both build their bundle tables
//! from this one function.

use vstd::prelude::*;

use super::sync_loop_lower::{ident_at, is_ident, is_lit, lit};
use super::{BundleDecl, Expr, ExprKind, FieldDecl, Ident, Param, ParamTy, Type};
use crate::span::Span;

verus! {

/// `N: int = 1`.
pub open spec fn n_param_ok(p: Param) -> bool {
    &&& p.name.name@ == "N"@
    &&& p.ty == ParamTy::Int
    &&& p.default matches Some(d) && is_lit(d, 1)
}

/// `name: bit`.
pub open spec fn valid_field_ok(f: FieldDecl) -> bool {
    f.name.name@ == "valid"@ && f.ty is Bit
}

/// `data: bits[N]` (or `signed[N]` when `signed`).
pub open spec fn data_field_ok(f: FieldDecl, signed: bool) -> bool {
    &&& f.name.name@ == "data"@
    &&& match f.ty {
        Type::Bits(w) => !signed && is_ident(*w, "N"@),
        Type::Signed(w) => signed && is_ident(*w, "N"@),
        _ => false,
    }
}

/// `name(N: int = 1) { valid: bit, data: bits[N] / signed[N] }`.
pub open spec fn valid_bundle_ok(b: BundleDecl, name: Seq<char>, signed: bool) -> bool {
    &&& b.name.name@ == name
    &&& b.params@.len() == 1 && n_param_ok(b.params@[0])
    &&& b.fields@.len() == 2 && valid_field_ok(b.fields@[0]) && data_field_ok(b.fields@[1], signed)
}

/// `N: int = 1` at `sp`.
fn n_param(sp: Span) -> (r: Param)
    ensures
        n_param_ok(r),
{
    let n = String::from_str("N");
    proof {
        reveal_strlit("N");
    }
    Param { name: ident_at(&n, sp), ty: ParamTy::Int, default: Some(lit(1, sp)) }
}

/// One valid bundle: `name(N: int = 1) { valid: bit, data: <data_ty>[N] }`.
fn valid_bundle(name: &str, signed: bool, sp: Span) -> (r: BundleDecl)
    ensures
        valid_bundle_ok(r, name@, signed),
{
    let n = String::from_str("N");
    let valid = String::from_str("valid");
    let data = String::from_str("data");
    let width = Box::new(Expr { kind: ExprKind::Ident(n), span: sp });
    let ty = if signed { Type::Signed(width) } else { Type::Bits(width) };
    proof {
        reveal_strlit("N");
        reveal_strlit("valid");
        reveal_strlit("data");
    }
    BundleDecl {
        name: Ident { name: String::from_str(name), span: sp },
        params: vec![n_param(sp)],
        fields: vec![
            FieldDecl { name: ident_at(&valid, sp), ty: Type::Bit, span: sp },
            FieldDecl { name: ident_at(&data, sp), ty, span: sp },
        ],
        span: sp,
    }
}

/// `__Valid(N: int = 1) { valid: bit, data: bits[N] }` and
/// `__ValidSigned(N: int = 1) { valid: bit, data: signed[N] }`, at a
/// synthetic span.
pub fn builtin_valid_bundles() -> (r: [BundleDecl; 2])
    ensures
        valid_bundle_ok(r@[0], "__Valid"@, false),
        valid_bundle_ok(r@[1], "__ValidSigned"@, true),
{
    let sp = Span::new(0, 0);
    [valid_bundle("__Valid", false, sp), valid_bundle("__ValidSigned", true, sp)]
}

} // verus!
