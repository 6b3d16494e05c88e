//! Editor analysis over the AST: a symbol index, offset-to-definition
//! resolution, and completion candidates. All offsets are byte offsets
//! into a file's source.

use vstd::prelude::*;

use crate::ast::{
    Arm, Conn, ConstDecl, Dir, EnumDecl, Expr, ExprKind, FieldInit, File, ForEachSource, Ident, ModuleItem,
    NamedArg, SeqStmt, TestDecl, TestStmt, TopItem, Type,
};
use crate::span::Span;
use crate::text::{cat, owned};

verus! {

/// The width expression `e` as displayed: a name or an integer literal
/// verbatim, anything else elided.
pub open spec fn width_text(e: Expr) -> Seq<char> {
    match e.kind {
        ExprKind::Ident(s) => s@,
        ExprKind::Int { raw, .. } => raw@,
        _ => "…"@,
    }
}

/// `w` is the width expression `e` as displayed.
pub open spec fn width_written(e: Expr, w: Seq<char>) -> bool {
    w == width_text(e)
}

/// The type `t` as written: `bit`, `bits[w]`, `signed[w]`, an enum's
/// dotted name, a bundle's dotted name (with `(…)` when it has
/// arguments), or an element type followed by `[len]`.
pub open spec fn type_text(t: Type) -> Seq<char>
    decreases t,
{
    match t {
        Type::Bit => "bit"@,
        Type::Bits(e) => "bits["@ + width_text(*e) + "]"@,
        Type::Signed(e) => "signed["@ + width_text(*e) + "]"@,
        Type::Named(id) => crate::ast::dotted(id.path@, id.name.name@),
        Type::Bundle { name, args } => crate::ast::dotted(name.path@, name.name.name@)
            + if args@.len() == 0 { Seq::empty() } else { "(…)"@ },
        Type::Array { elem, len } => type_text(*elem) + "["@ + width_text(*len) + "]"@,
    }
}

/// `r` is the type `t` as written.
pub open spec fn type_written(t: Type, r: Seq<char>) -> bool {
    r == type_text(t)
}

/// A width expression as written, for display: names and integer
/// literals verbatim, anything else elided.
pub fn expr_str(e: &Expr) -> (r: String)
    ensures
        e.kind matches ExprKind::Ident(s) ==> r@ == s@,
        e.kind matches ExprKind::Int { raw, .. } ==> r@ == raw@,
        width_written(*e, r@),
{
    match &e.kind {
        ExprKind::Ident(s) => s.clone(),
        ExprKind::Int { raw, .. } => raw.clone(),
        _ => owned("…"),
    }
}

/// A type as written, for display (`bit`, `bits[8]`, `State`,
/// `bits[8][4]`).
pub fn type_str(t: &Type) -> (r: String)
    ensures
        *t is Bit ==> r@ == "bit"@,
        *t matches Type::Bits(e) ==> r@ == "bits["@ + r@.subrange(5, r@.len() - 1) + "]"@
            && width_written(*e, r@.subrange(5, r@.len() - 1)),
        *t matches Type::Signed(e) ==> r@ == "signed["@ + r@.subrange(7, r@.len() - 1) + "]"@
            && width_written(*e, r@.subrange(7, r@.len() - 1)),
        type_written(*t, r@),
    decreases t,
{
    match t {
        Type::Bit => {
            let r = owned("bit");
            proof {
                assert(type_written(*t, r@));
            }
            r
        }
        Type::Bits(e) => {
            let w = expr_str(e);
            let r = cat(&["bits[", w.as_str(), "]"]);
            proof {
                reveal_with_fuel(crate::text::concat_views, 4);
                assert(r@ =~= "bits["@ + w@ + "]"@);
                reveal_strlit("bits[");
                reveal_strlit("]");
                assert(r@.subrange(5, r@.len() - 1) =~= w@);
            }
            r
        }
        Type::Signed(e) => {
            let w = expr_str(e);
            let r = cat(&["signed[", w.as_str(), "]"]);
            proof {
                reveal_with_fuel(crate::text::concat_views, 4);
                assert(r@ =~= "signed["@ + w@ + "]"@);
                reveal_strlit("signed[");
                reveal_strlit("]");
                assert(r@.subrange(7, r@.len() - 1) =~= w@);
            }
            r
        }
        Type::Named(id) => {
            let r = id.to_dotted();
            proof {
                assert(type_written(*t, r@));
            }
            r
        }
        Type::Bundle { name, args } => {
            let d = name.to_dotted();
            if args.len() == 0 {
                proof {
                    assert(d@ + Seq::<char>::empty() =~= d@);
                }
                d
            } else {
                let r = cat(&[d.as_str(), "(…)"]);
                proof {
                    reveal_with_fuel(crate::text::concat_views, 3);
                    assert(r@ =~= d@ + "(…)"@);
                }
                r
            }
        }
        Type::Array { elem, len } => {
            let inner = type_str(elem);
            let l = expr_str(len);
            let r = cat(&[inner.as_str(), "[", l.as_str(), "]"]);
            proof {
                reveal_with_fuel(crate::text::concat_views, 5);
                assert(r@ =~= inner@ + "["@ + l@ + "]"@);
                assert(type_written(**elem, inner@) && width_written(**len, l@) && r@ == inner@ + "["@ + l@ + "]"@);
                assert(type_written(*t, r@));
            }
            r
        }
    }
}

/// One loaded source file: where it came from, its text, and its tree.
pub struct LoadedFile {
    /// The file's path, as text.
    pub path: String,
    /// The file's source text.
    pub src: String,
    /// The parsed tree.
    pub ast: File,
}

/// What a [`Symbol`] is: drives the hover label and completion kind.
#[derive(Clone, Copy, Debug, PartialEq, Eq, Structural)]
pub enum SymKind {
    /// A `module Name { ... }` declaration.
    Module,
    /// A module parameter.
    Param,
    /// A port; `dir` says input or output.
    Port {
        /// Input or output.
        dir: Dir,
    },
    /// A `clock` declaration.
    Clock,
    /// A `reset` declaration.
    Reset,
    /// A `wire` declaration.
    Wire,
    /// A `reg` declaration.
    Reg,
    /// A `mem` declaration.
    Mem,
    /// A file- or module-level `const`.
    Const,
    /// An `enum` type declaration.
    Enum,
    /// One variant of an `enum`.
    EnumVariant,
    /// A `let name = Module(...) { ... }` instance.
    Inst,
}

/// One named definition, with where it lives and its hover text.
#[derive(Debug)]
pub struct Symbol {
    /// The symbol's name, as written.
    pub name: String,
    /// What kind of definition this is.
    pub kind: SymKind,
    /// Index into [`SymbolIndex::files`].
    pub file_idx: usize,
    /// The defining identifier's span.
    pub span: Span,
    /// Hover text (e.g. `out y: bit — output port`).
    pub render: String,
    /// The enclosing module's index in [`SymbolIndex::symbols`]; `None` at
    /// file level.
    pub module_idx: Option<usize>,
}

/// The project-wide definition table of one analysis run.
pub struct SymbolIndex {
    /// `(path, src)` per file index.
    pub files: Vec<(String, String)>,
    /// Every definition across all files, in discovery order.
    pub symbols: Vec<Symbol>,
}

/// What a symbol says about itself, without its hover text: name, kind,
/// file, span, enclosing module.
pub open spec fn sym_def(s: Symbol) -> (Seq<char>, SymKind, int, Span, Option<int>) {
    (s.name@, s.kind, s.file_idx as int, s.span, opt_int(s.module_idx))
}

/// An optional index as an optional integer.
pub open spec fn opt_int(m: Option<usize>) -> Option<int> {
    match m {
        Some(k) => Some(k as int),
        None => None,
    }
}

/// What each symbol of a list says about itself.
pub open spec fn defs_of(v: Seq<Symbol>) -> Seq<(Seq<char>, SymKind, int, Span, Option<int>)> {
    v.map_values(|s: Symbol| sym_def(s))
}

/// A definition named by `id`.
pub open spec fn def_at(id: Ident, kind: SymKind, fi: int, m: Option<int>) -> (Seq<char>, SymKind, int, Span, Option<int>) {
    (id.name@, kind, fi, id.span, m)
}

/// The definitions an `enum` declares: its name, then each variant (at
/// the variant's span).
pub open spec fn enum_defs(e: EnumDecl, fi: int, m: Option<int>) -> Seq<(Seq<char>, SymKind, int, Span, Option<int>)> {
    seq![def_at(e.name, SymKind::Enum, fi, m)] + variant_defs(e.variants@, fi, m)
}

/// One definition per enum variant, at the variant's span.
pub open spec fn variant_defs(vs: Seq<crate::ast::EnumVariant>, fi: int, m: Option<int>) -> Seq<(Seq<char>, SymKind, int, Span, Option<int>)>
    decreases vs,
{
    if vs.len() == 0 {
        Seq::empty()
    } else {
        variant_defs(vs.drop_last(), fi, m).push((vs.last().name.name@, SymKind::EnumVariant, fi, vs.last().span, m))
    }
}

/// One definition per module parameter, each pointing at the module.
pub open spec fn param_defs(ps: Seq<crate::ast::Param>, fi: int, pos: int) -> Seq<(Seq<char>, SymKind, int, Span, Option<int>)>
    decreases ps,
{
    if ps.len() == 0 {
        Seq::empty()
    } else {
        param_defs(ps.drop_last(), fi, pos).push(def_at(ps.last().name, SymKind::Param, fi, Some(pos)))
    }
}

/// The definitions one module item declares; `repeat`, `foreach` and
/// `const if` bodies are walked.
pub open spec fn item_defs(item: ModuleItem, fi: int, m: Option<int>) -> Seq<(Seq<char>, SymKind, int, Span, Option<int>)>
    decreases item,
{
    match item {
        ModuleItem::Port { dir, name, .. } => seq![def_at(name, SymKind::Port { dir }, fi, m)],
        ModuleItem::Clock(id) => seq![def_at(id, SymKind::Clock, fi, m)],
        ModuleItem::Reset { name, .. } => seq![def_at(name, SymKind::Reset, fi, m)],
        ModuleItem::Wire { name, .. } => seq![def_at(name, SymKind::Wire, fi, m)],
        ModuleItem::Reg { name, .. } => seq![def_at(name, SymKind::Reg, fi, m)],
        ModuleItem::Mem { name, .. } => seq![def_at(name, SymKind::Mem, fi, m)],
        ModuleItem::Const(c) => seq![def_at(c.name, SymKind::Const, fi, m)],
        ModuleItem::Enum(e) => enum_defs(e, fi, m),
        ModuleItem::Inst(inst) => seq![def_at(inst.name, SymKind::Inst, fi, m)],
        ModuleItem::Repeat(r) => items_defs(r.items@, fi, m),
        ModuleItem::ForEach(f) => items_defs(f.items@, fi, m),
        ModuleItem::ConstIf { then, els, .. } => items_defs(then@, fi, m) + match els {
            Some(x) => items_defs(x@, fi, m),
            None => Seq::empty(),
        },
        _ => Seq::empty(),
    }
}

/// The definitions a list of module items declares, in order.
pub open spec fn items_defs(items: Seq<ModuleItem>, fi: int, m: Option<int>) -> Seq<(Seq<char>, SymKind, int, Span, Option<int>)>
    decreases items,
{
    if items.len() == 0 {
        Seq::empty()
    } else {
        items_defs(items.drop_last(), fi, m) + item_defs(items.last(), fi, m)
    }
}

/// The definitions one top-level item declares when its first symbol
/// lands at position `pos`: a module, then its parameters and members
/// (which point back at `pos`); a `const`; an `enum` and its variants.
pub open spec fn top_defs(t: TopItem, fi: int, pos: int) -> Seq<(Seq<char>, SymKind, int, Span, Option<int>)> {
    match t {
        TopItem::Const(c) => seq![def_at(c.name, SymKind::Const, fi, None)],
        TopItem::Enum(e) => enum_defs(e, fi, None),
        TopItem::Module(m) => seq![def_at(m.name, SymKind::Module, fi, None)]
            + param_defs(m.params@, fi, pos)
            + items_defs(m.items@, fi, Some(pos)),
        _ => Seq::empty(),
    }
}

/// The definitions of a file's top-level items, the first landing at
/// position `start`.
pub open spec fn file_defs(items: Seq<TopItem>, fi: int, start: int) -> Seq<(Seq<char>, SymKind, int, Span, Option<int>)>
    decreases items,
{
    if items.len() == 0 {
        Seq::empty()
    } else {
        let prev = file_defs(items.drop_last(), fi, start);
        prev + top_defs(items.last(), fi, start + prev.len())
    }
}

/// Every definition of every file, in order.
pub open spec fn all_defs(files: Seq<LoadedFile>) -> Seq<(Seq<char>, SymKind, int, Span, Option<int>)>
    decreases files,
{
    if files.len() == 0 {
        Seq::empty()
    } else {
        let prev = all_defs(files.drop_last());
        prev + file_defs(files.last().ast.items@, files.len() - 1, prev.len() as int)
    }
}

/// The hover text of a symbol whose declaration writes a type (a port,
/// wire, reg or memory); `None` for the other kinds.
pub open spec fn typed_hover(s: Symbol) -> Option<Seq<char>> {
    match s.kind {
        SymKind::Port { .. } | SymKind::Wire | SymKind::Reg | SymKind::Mem => Some(s.render@),
        _ => None,
    }
}

/// The typed hover texts of a list of symbols.
pub open spec fn hovers_of(v: Seq<Symbol>) -> Seq<Option<Seq<char>>> {
    v.map_values(|s: Symbol| typed_hover(s))
}

/// Appending a symbol appends its typed hover text.
proof fn lemma_hovers_push(w: Seq<Symbol>, s: Symbol)
    ensures
        hovers_of(w.push(s)) == hovers_of(w).push(typed_hover(s)),
{
    assert(hovers_of(w.push(s)) =~= hovers_of(w).push(typed_hover(s)));
}

/// `n` symbols without a written type.
pub open spec fn untyped(n: nat) -> Seq<Option<Seq<char>>> {
    Seq::new(n, |i: int| None::<Seq<char>>)
}

/// The typed hover texts the symbols of one module item carry, in the
/// order of `item_defs`: the declaration with its type as written.
pub open spec fn item_hovers(item: ModuleItem) -> Seq<Option<Seq<char>>>
    decreases item,
{
    match item {
        ModuleItem::Port { dir, name, ty } => seq![Some(typed_text(port_word(dir), name.name@, type_text(ty), port_tail(dir)))],
        ModuleItem::Wire { name, ty, .. } => seq![Some(typed_text("wire"@, name.name@, type_text(ty), ""@))],
        ModuleItem::Reg { name, ty, .. } => seq![Some(typed_text("reg"@, name.name@, type_text(ty), ""@))],
        ModuleItem::Mem { name, ty, .. } => seq![Some(typed_text("mem"@, name.name@, type_text(ty), "[]"@))],
        ModuleItem::Clock(_) | ModuleItem::Reset { .. } | ModuleItem::Const(_) | ModuleItem::Inst(_) => untyped(1),
        ModuleItem::Enum(e) => untyped(1 + e.variants@.len()),
        ModuleItem::Repeat(r) => items_hovers(r.items@),
        ModuleItem::ForEach(f) => items_hovers(f.items@),
        ModuleItem::ConstIf { then, els, .. } => items_hovers(then@) + match els {
            Some(x) => items_hovers(x@),
            None => Seq::empty(),
        },
        _ => Seq::empty(),
    }
}

/// The typed hover texts of a list of module items, in order.
pub open spec fn items_hovers(items: Seq<ModuleItem>) -> Seq<Option<Seq<char>>>
    decreases items,
{
    if items.len() == 0 {
        Seq::empty()
    } else {
        items_hovers(items.drop_last()) + item_hovers(items.last())
    }
}

/// The typed hover texts of one top-level item's symbols.
pub open spec fn top_hovers(t: TopItem) -> Seq<Option<Seq<char>>> {
    match t {
        TopItem::Const(_) => untyped(1),
        TopItem::Enum(e) => untyped(1 + e.variants@.len()),
        TopItem::Module(m) => untyped(1 + m.params@.len()) + items_hovers(m.items@),
        _ => Seq::empty(),
    }
}

/// The typed hover texts of a file's top-level items, in order.
pub open spec fn file_hovers(items: Seq<TopItem>) -> Seq<Option<Seq<char>>>
    decreases items,
{
    if items.len() == 0 {
        Seq::empty()
    } else {
        file_hovers(items.drop_last()) + top_hovers(items.last())
    }
}

/// The typed hover texts of every file, in order.
pub open spec fn all_hovers(files: Seq<LoadedFile>) -> Seq<Option<Seq<char>>>
    decreases files,
{
    if files.len() == 0 {
        Seq::empty()
    } else {
        all_hovers(files.drop_last()) + file_hovers(files.last().ast.items@)
    }
}

/// `<word> <name>: <type><tail>`.
pub open spec fn typed_text(word: Seq<char>, n: Seq<char>, t: Seq<char>, tail: Seq<char>) -> Seq<char> {
    word + " "@ + n + ": "@ + t + tail
}

/// The word a port's hover text starts with.
pub open spec fn port_word(dir: Dir) -> Seq<char> {
    match dir {
        Dir::In => "in"@,
        Dir::Out => "out"@,
    }
}

/// What a port's hover text ends with.
pub open spec fn port_tail(dir: Dir) -> Seq<char> {
    match dir {
        Dir::In => " — input port"@,
        Dir::Out => " — output port"@,
    }
}

/// An enum variant's hover text.
pub open spec fn variant_text(e: Seq<char>, n: Seq<char>) -> Seq<char> {
    e + "."@ + n + " — enum variant"@
}

/// An instance's hover text.
pub open spec fn inst_text(n: Seq<char>, d: Seq<char>) -> Seq<char> {
    "let "@ + n + " = "@ + d + "(…) — instance"@
}

/// The hover text a symbol of its kind carries: its declaration spelled
/// out around its name (`out y: <type> — output port`, `clock clk`,
/// `const N — compile-time value`, ...), the type, enum or instantiated
/// module as written.
pub open spec fn render_fits(s: Symbol) -> bool {
    let n = s.name@;
    let r = s.render@;
    match s.kind {
        SymKind::Module => r == "module "@ + n,
        SymKind::Param => r == n + ": int — parameter"@,
        SymKind::Port { dir } => exists|t: Seq<char>| #[trigger] typed_text(port_word(dir), n, t, port_tail(dir)) == r,
        SymKind::Clock => r == "clock "@ + n,
        SymKind::Reset => r == "reset "@ + n,
        SymKind::Wire => exists|t: Seq<char>| #[trigger] typed_text("wire"@, n, t, ""@) == r,
        SymKind::Reg => exists|t: Seq<char>| #[trigger] typed_text("reg"@, n, t, ""@) == r,
        SymKind::Mem => exists|t: Seq<char>| #[trigger] typed_text("mem"@, n, t, "[]"@) == r,
        SymKind::Const => r == "const "@ + n + " — compile-time value"@,
        SymKind::Enum => r == "enum "@ + n,
        SymKind::EnumVariant => exists|e: Seq<char>| #[trigger] variant_text(e, n) == r,
        SymKind::Inst => exists|d: Seq<char>| #[trigger] inst_text(n, d) == r,
    }
}

/// Every member symbol points back at an earlier module symbol of its own
/// file, and every symbol's hover text fits its kind.
#[verifier::opaque]
pub open spec fn well_scoped(v: Seq<Symbol>) -> bool {
    &&& forall|k: int| 0 <= k < v.len() && (#[trigger] v[k]).module_idx is Some ==> {
        let m = v[k].module_idx->Some_0 as int;
        &&& m < k
        &&& v[m].kind == SymKind::Module
        &&& v[m].file_idx == v[k].file_idx
    }
    &&& forall|k: int| 0 <= k < v.len() ==> render_fits(#[trigger] v[k])
}

/// Append one symbol.
fn push_sym(out: &mut Vec<Symbol>, s: Symbol)
    requires
        well_scoped(old(out)@),
        render_fits(s),
        s.module_idx is Some ==> {
            let m = s.module_idx->Some_0 as int;
            &&& m < old(out)@.len()
            &&& old(out)@[m].kind == SymKind::Module
            &&& old(out)@[m].file_idx == s.file_idx
        },
    ensures
        final(out)@ == old(out)@.push(s),
        defs_of(final(out)@) == defs_of(old(out)@).push(sym_def(s)),
        hovers_of(final(out)@) == hovers_of(old(out)@).push(typed_hover(s)),
        well_scoped(final(out)@),
        extends(final(out)@, old(out)@),
{
    let ghost w = out@;
    out.push(s);
    proof {
        reveal(well_scoped);
        assert(defs_of(out@) =~= defs_of(w).push(sym_def(s)));
        lemma_hovers_push(w, s);
        assert(out@.subrange(0, w.len() as int) =~= w);
        assert forall|k: int| 0 <= k < out@.len() && (#[trigger] out@[k]).module_idx is Some implies {
            let m = out@[k].module_idx->Some_0 as int;
            &&& m < k
            &&& out@[m].kind == SymKind::Module
            &&& out@[m].file_idx == out@[k].file_idx
        } by {
            let m = out@[k].module_idx->Some_0 as int;
            if k < w.len() {
                assert(out@[k] == w[k]);
                assert(w[k].module_idx is Some);
                assert(out@[m] == w[m]);
            } else {
                assert(out@[k] == s);
                assert(out@[m] == w[m]);
            }
        }
        assert forall|k: int| 0 <= k < out@.len() implies render_fits(#[trigger] out@[k]) by {
            if k < w.len() {
                assert(out@[k] == w[k]);
            }
        }
    }
}

/// Extending a list keeps a module scope valid.
proof fn lemma_scope_kept(v: Seq<Symbol>, w: Seq<Symbol>, fi: usize, m: Option<usize>)
    requires
        extends(v, w),
        scope_ok(w, fi, m),
    ensures
        scope_ok(v, fi, m),
{
    if m is Some {
        let k = m->Some_0 as int;
        assert(v[k] == v.subrange(0, w.len() as int)[k]);
    }
}

/// Extension is transitive.
proof fn lemma_extends_trans(u: Seq<Symbol>, v: Seq<Symbol>, w: Seq<Symbol>)
    requires
        extends(u, v),
        extends(v, w),
    ensures
        extends(u, w),
{
    assert(u.subrange(0, w.len() as int) =~= v.subrange(0, w.len() as int));
}

/// The module scope a member may point at: an earlier module symbol of
/// the same file, or none.
pub open spec fn scope_ok(v: Seq<Symbol>, fi: usize, m: Option<usize>) -> bool {
    m is Some ==> {
        let k = m->Some_0 as int;
        &&& k < v.len()
        &&& v[k].kind == SymKind::Module
        &&& v[k].file_idx == fi
    }
}

/// `v` extends `w`.
pub open spec fn extends(v: Seq<Symbol>, w: Seq<Symbol>) -> bool {
    w.len() <= v.len() && v.subrange(0, w.len() as int) == w
}

/// `name: kind` at `ident`'s span, with hover text `render`.
fn mk_sym(id: &Ident, kind: SymKind, fi: usize, render: String, m: Option<usize>) -> (s: Symbol)
    ensures
        sym_def(s) == def_at(*id, kind, fi as int, opt_int(m)),
        s.kind == kind,
        s.file_idx == fi,
        s.module_idx == m,
        s.name@ == id.name@,
        s.render == render,
{
    Symbol { name: id.name.clone(), kind, file_idx: fi, span: id.span, render, module_idx: m }
}

/// Append a `const`'s symbol.
fn push_const(out: &mut Vec<Symbol>, c: &ConstDecl, fi: usize, m: Option<usize>)
    requires
        well_scoped(old(out)@),
        scope_ok(old(out)@, fi, m),
    ensures
        defs_of(final(out)@) == defs_of(old(out)@) + seq![def_at(c.name, SymKind::Const, fi as int, opt_int(m))],
        hovers_of(final(out)@) == hovers_of(old(out)@) + untyped(1),
        well_scoped(final(out)@),
        extends(final(out)@, old(out)@),
{
    let render = cat(&["const ", c.name.name.as_str(), " — compile-time value"]);
    proof {
        reveal_with_fuel(crate::text::concat_views, 4);
        assert(render@ =~= "const "@ + c.name.name@ + " — compile-time value"@);
    }
    let s = mk_sym(&c.name, SymKind::Const, fi, render, m);
    push_sym(out, s);
    proof {
        assert(out@.subrange(0, old(out)@.len() as int) =~= old(out)@);
        assert(hovers_of(out@) =~= hovers_of(old(out)@) + untyped(1));
    }
}

/// Append an `enum`'s symbol and one per variant.
fn push_enum(out: &mut Vec<Symbol>, e: &EnumDecl, fi: usize, m: Option<usize>)
    requires
        well_scoped(old(out)@),
        scope_ok(old(out)@, fi, m),
    ensures
        defs_of(final(out)@) == defs_of(old(out)@) + enum_defs(*e, fi as int, opt_int(m)),
        hovers_of(final(out)@) == hovers_of(old(out)@) + untyped(1 + e.variants@.len()),
        well_scoped(final(out)@),
        extends(final(out)@, old(out)@),
{
    let ghost start = out@;
    let render = cat(&["enum ", e.name.name.as_str()]);
    proof {
        reveal_with_fuel(crate::text::concat_views, 3);
        assert(render@ =~= "enum "@ + e.name.name@);
    }
    push_sym(out, mk_sym(&e.name, SymKind::Enum, fi, render, m));
    let ghost head = defs_of(start) + seq![def_at(e.name, SymKind::Enum, fi as int, opt_int(m))];
    proof {
        assert(defs_of(out@) =~= head);
        assert(hovers_of(out@) =~= hovers_of(start) + untyped(1));
    }
    let mut i: usize = 0;
    while i < e.variants.len()
        invariant
            i <= e.variants@.len(),
            well_scoped(out@),
            scope_ok(start, fi, m),
            extends(out@, start),
            defs_of(out@) == head + variant_defs(e.variants@.subrange(0, i as int), fi as int, opt_int(m)),
            hovers_of(out@) == hovers_of(start) + untyped(1 + i as nat),
        decreases e.variants@.len() - i,
    {
        let v = &e.variants[i];
        let render = cat(&[e.name.name.as_str(), ".", v.name.name.as_str(), " — enum variant"]);
        proof {
            reveal_with_fuel(crate::text::concat_views, 5);
            assert(variant_text(e.name.name@, v.name.name@) =~= render@);
        }
        let ghost pre = out@;
        proof {
            lemma_scope_kept(out@, start, fi, m);
        }
        let sym = Symbol { name: v.name.name.clone(), kind: SymKind::EnumVariant, file_idx: fi, span: v.span, render, module_idx: m };
        proof {
            assert(sym.name@ == v.name.name@);
            assert(variant_text(e.name.name@, sym.name@) == sym.render@);
        }
        push_sym(out, sym);
        proof {
            lemma_extends_trans(out@, pre, start);
            assert(e.variants@.subrange(0, i + 1).drop_last() =~= e.variants@.subrange(0, i as int));
            assert(defs_of(out@) =~= head + variant_defs(e.variants@.subrange(0, i + 1), fi as int, opt_int(m)));
            assert(hovers_of(out@) =~= hovers_of(start) + untyped(1 + (i + 1) as nat));
        }
        i += 1;
    }
    proof {
        assert(e.variants@.subrange(0, e.variants@.len() as int) =~= e.variants@);
        assert(head + variant_defs(e.variants@, fi as int, opt_int(m)) =~= defs_of(start) + enum_defs(*e, fi as int, opt_int(m)));
    }
}

/// `<word> <name>: <type><tail>` for hover text.
fn typed_render(word: &str, name: &String, ty: &Type, tail: &str) -> (r: String)
    ensures
        exists|t: Seq<char>| #[trigger] typed_text(word@, name@, t, tail@) == r@ && (*ty is Bit ==> t == "bit"@)
            && type_written(*ty, t),
        r@ == typed_text(word@, name@, type_text(*ty), tail@),
{
    let t = type_str(ty);
    let r = cat(&[word, " ", name.as_str(), ": ", t.as_str(), tail]);
    proof {
        reveal_with_fuel(crate::text::concat_views, 7);
        assert(r@ =~= word@ + " "@ + name@ + ": "@ + t@ + tail@);
        assert(typed_text(word@, name@, t@, tail@) =~= r@);
    }
    r
}

/// Append the symbols one module item declares.
fn push_item(out: &mut Vec<Symbol>, item: &ModuleItem, fi: usize, m: Option<usize>)
    requires
        well_scoped(old(out)@),
        scope_ok(old(out)@, fi, m),
    ensures
        defs_of(final(out)@) == defs_of(old(out)@) + item_defs(*item, fi as int, opt_int(m)),
        hovers_of(final(out)@) == hovers_of(old(out)@) + item_hovers(*item),
        well_scoped(final(out)@),
        extends(final(out)@, old(out)@),
    decreases item, 0nat,
{
    let ghost start = out@;
    match item {
        ModuleItem::Port { dir, name, ty } => {
            let (word, tail) = match dir {
                Dir::In => ("in", " — input port"),
                Dir::Out => ("out", " — output port"),
            };
            let render = typed_render(word, &name.name, ty, tail);
            proof {
                assert(word@ == port_word(*dir) && tail@ == port_tail(*dir));
            }
            push_sym(out, mk_sym(name, SymKind::Port { dir: *dir }, fi, render, m));
        }
        ModuleItem::Clock(id) => {
            let render = cat(&["clock ", id.name.as_str()]);
            proof {
                reveal_with_fuel(crate::text::concat_views, 3);
                assert(render@ =~= "clock "@ + id.name@);
            }
            push_sym(out, mk_sym(id, SymKind::Clock, fi, render, m));
        }
        ModuleItem::Reset { name, .. } => {
            let render = cat(&["reset ", name.name.as_str()]);
            proof {
                reveal_with_fuel(crate::text::concat_views, 3);
                assert(render@ =~= "reset "@ + name.name@);
            }
            push_sym(out, mk_sym(name, SymKind::Reset, fi, render, m));
        }
        ModuleItem::Wire { name, ty, .. } => {
            let render = typed_render("wire", &name.name, ty, "");
            push_sym(out, mk_sym(name, SymKind::Wire, fi, render, m));
        }
        ModuleItem::Reg { name, ty, .. } => {
            let render = typed_render("reg", &name.name, ty, "");
            push_sym(out, mk_sym(name, SymKind::Reg, fi, render, m));
        }
        ModuleItem::Mem { name, ty, .. } => {
            let render = typed_render("mem", &name.name, ty, "[]");
            push_sym(out, mk_sym(name, SymKind::Mem, fi, render, m));
        }
        ModuleItem::Const(c) => push_const(out, c, fi, m),
        ModuleItem::Enum(e) => push_enum(out, e, fi, m),
        ModuleItem::Inst(inst) => {
            let d = inst.module.to_dotted();
            let render = cat(&["let ", inst.name.name.as_str(), " = ", d.as_str(), "(…) — instance"]);
            proof {
                reveal_with_fuel(crate::text::concat_views, 6);
                assert(inst_text(inst.name.name@, d@) =~= render@);
            }
            push_sym(out, mk_sym(&inst.name, SymKind::Inst, fi, render, m));
        }
        ModuleItem::Repeat(r) => push_module_items(out, &r.items, fi, m),
        ModuleItem::ForEach(f) => push_module_items(out, &f.items, fi, m),
        ModuleItem::ConstIf { then, els, .. } => {
            push_module_items(out, then, fi, m);
            let ghost mid = out@;
            proof {
                lemma_scope_kept(out@, start, fi, m);
            }
            match els {
                Some(x) => {
                    push_module_items(out, x, fi, m);
                    proof {
                        lemma_extends_trans(out@, mid, start);
                    }
                }
                None => {}
            }
            proof {
                assert(defs_of(out@) =~= defs_of(start) + item_defs(*item, fi as int, opt_int(m)));
                assert(hovers_of(out@) =~= hovers_of(start) + item_hovers(*item));
            }
        }
        _ => {
            proof {
                assert(defs_of(out@) =~= defs_of(start) + item_defs(*item, fi as int, opt_int(m)));
                assert(hovers_of(out@) =~= hovers_of(start) + item_hovers(*item));
                assert(out@.subrange(0, start.len() as int) =~= start);
            }
        }
    }
    proof {
        assert(hovers_of(out@) =~= hovers_of(start) + item_hovers(*item));
    }
}

/// Append the symbols a list of module items declares, in order.
fn push_module_items(out: &mut Vec<Symbol>, items: &Vec<ModuleItem>, fi: usize, m: Option<usize>)
    requires
        well_scoped(old(out)@),
        scope_ok(old(out)@, fi, m),
    ensures
        defs_of(final(out)@) == defs_of(old(out)@) + items_defs(items@, fi as int, opt_int(m)),
        hovers_of(final(out)@) == hovers_of(old(out)@) + items_hovers(items@),
        well_scoped(final(out)@),
        extends(final(out)@, old(out)@),
    decreases items, 1nat,
{
    let ghost start = out@;
    proof {
        assert(out@.subrange(0, start.len() as int) =~= start);
        assert(items@.subrange(0, 0) =~= Seq::<ModuleItem>::empty());
        assert(defs_of(out@) =~= defs_of(start) + items_defs(items@.subrange(0, 0), fi as int, opt_int(m)));
        assert(hovers_of(out@) =~= hovers_of(start) + items_hovers(items@.subrange(0, 0)));
    }
    let mut i: usize = 0;
    while i < items.len()
        invariant
            i <= items@.len(),
            well_scoped(out@),
            scope_ok(start, fi, m),
            extends(out@, start),
            defs_of(out@) == defs_of(start) + items_defs(items@.subrange(0, i as int), fi as int, opt_int(m)),
            hovers_of(out@) == hovers_of(start) + items_hovers(items@.subrange(0, i as int)),
        decreases items@.len() - i,
    {
        let ghost pre = out@;
        proof {
            lemma_scope_kept(out@, start, fi, m);
        }
        push_item(out, &items[i], fi, m);
        proof {
            lemma_extends_trans(out@, pre, start);
            assert(items@.subrange(0, i + 1).drop_last() =~= items@.subrange(0, i as int));
            assert(defs_of(out@) =~= defs_of(start) + items_defs(items@.subrange(0, i + 1), fi as int, opt_int(m)));
            assert(hovers_of(out@) =~= hovers_of(start) + items_hovers(items@.subrange(0, i + 1)));
        }
        i += 1;
    }
    proof {
        assert(items@.subrange(0, items@.len() as int) =~= items@);
    }
}

/// Append the symbols of a module: the module itself, its parameters,
/// and its members (pointing back at the module's position).
fn push_module(out: &mut Vec<Symbol>, m: &crate::ast::Module, fi: usize)
    requires
        well_scoped(old(out)@),
    ensures
        defs_of(final(out)@) == defs_of(old(out)@) + top_defs(TopItem::Module(*m), fi as int, old(out)@.len() as int),
        hovers_of(final(out)@) == hovers_of(old(out)@) + top_hovers(TopItem::Module(*m)),
        well_scoped(final(out)@),
        extends(final(out)@, old(out)@),
{
    let ghost start = out@;
    let module_pos = out.len();
    let render = cat(&["module ", m.name.name.as_str()]);
    proof {
        reveal_with_fuel(crate::text::concat_views, 3);
        assert(render@ =~= "module "@ + m.name.name@);
    }
    push_sym(out, mk_sym(&m.name, SymKind::Module, fi, render, None));
    let ghost head = out@;
    proof {
        assert(out@.subrange(0, head.len() as int) =~= head);
        assert(defs_of(out@) =~= defs_of(start) + seq![def_at(m.name, SymKind::Module, fi as int, None)]
            + param_defs(m.params@.subrange(0, 0), fi as int, module_pos as int));
        assert(hovers_of(out@) =~= hovers_of(start) + untyped(1));
    }
    let mut i: usize = 0;
    while i < m.params.len()
        invariant
            i <= m.params@.len(),
            module_pos == start.len(),
            extends(head, start),
            head.len() == start.len() + 1,
            head[module_pos as int].kind == SymKind::Module,
            head[module_pos as int].file_idx == fi,
            well_scoped(out@),
            extends(out@, head),
            defs_of(out@) == defs_of(start) + seq![def_at(m.name, SymKind::Module, fi as int, None)]
                + param_defs(m.params@.subrange(0, i as int), fi as int, module_pos as int),
            hovers_of(out@) == hovers_of(start) + untyped(1 + i as nat),
        decreases m.params@.len() - i,
    {
        let p = &m.params[i];
        let render = cat(&[p.name.name.as_str(), ": int — parameter"]);
        proof {
            reveal_with_fuel(crate::text::concat_views, 3);
            assert(render@ =~= p.name.name@ + ": int — parameter"@);
        }
        let ghost pre = out@;
        proof {
            lemma_scope_kept(out@, head, fi, Some(module_pos));
        }
        push_sym(out, mk_sym(&p.name, SymKind::Param, fi, render, Some(module_pos)));
        proof {
            lemma_extends_trans(out@, pre, head);
            assert(m.params@.subrange(0, i + 1).drop_last() =~= m.params@.subrange(0, i as int));
            assert(defs_of(out@) =~= defs_of(start) + seq![def_at(m.name, SymKind::Module, fi as int, None)]
                + param_defs(m.params@.subrange(0, i + 1), fi as int, module_pos as int));
            assert(hovers_of(out@) =~= hovers_of(start) + untyped(1 + (i + 1) as nat));
        }
        i += 1;
    }
    proof {
        assert(m.params@.subrange(0, m.params@.len() as int) =~= m.params@);
        lemma_scope_kept(out@, head, fi, Some(module_pos));
    }
    let ghost mid = out@;
    push_module_items(out, &m.items, fi, Some(module_pos));
    proof {
        lemma_extends_trans(out@, mid, head);
        lemma_extends_trans(out@, head, start);
        assert(defs_of(out@) =~= defs_of(start) + top_defs(TopItem::Module(*m), fi as int, start.len() as int));
        assert(hovers_of(out@) =~= hovers_of(start) + top_hovers(TopItem::Module(*m)));
    }
}

/// Collect every definition across all files into one index: per file in
/// order, its top-level `const`s, `enum`s (with their variants) and
/// modules (with their parameters and members, `repeat` / `foreach` /
/// `const if` bodies included); each member points back at its module.
pub fn build_index(files: &[LoadedFile]) -> (index: SymbolIndex)
    ensures
        index.files@.len() == files@.len(),
        forall|k: int| 0 <= k < files@.len() ==> (#[trigger] index.files@[k]).0@ == files@[k].path@
            && index.files@[k].1@ == files@[k].src@,
        defs_of(index.symbols@) == all_defs(files@),
        hovers_of(index.symbols@) == all_hovers(files@),
        well_scoped(index.symbols@),
        forall|k: int| 0 <= k < index.symbols@.len() ==> render_fits(#[trigger] index.symbols@[k]),
{
    let mut meta: Vec<(String, String)> = Vec::new();
    let mut symbols: Vec<Symbol> = Vec::new();
    let mut fi: usize = 0;
    proof {
        reveal(well_scoped);
        assert(defs_of(symbols@) =~= all_defs(files@.subrange(0, 0)));
        assert(hovers_of(symbols@) =~= all_hovers(files@.subrange(0, 0)));
    }
    while fi < files.len()
        invariant
            fi <= files@.len(),
            meta@.len() == fi,
            forall|k: int| 0 <= k < fi ==> (#[trigger] meta@[k]).0@ == files@[k].path@ && meta@[k].1@ == files@[k].src@,
            well_scoped(symbols@),
            defs_of(symbols@) == all_defs(files@.subrange(0, fi as int)),
            hovers_of(symbols@) == all_hovers(files@.subrange(0, fi as int)),
        decreases files@.len() - fi,
    {
        let f = &files[fi];
        meta.push((f.path.clone(), f.src.clone()));
        let ghost base = symbols@;
        let ghost prefix = all_defs(files@.subrange(0, fi as int));
        let ghost hprefix = all_hovers(files@.subrange(0, fi as int));
        proof {
            assert(f.ast.items@.subrange(0, 0) =~= Seq::<TopItem>::empty());
            assert(defs_of(symbols@) =~= prefix + file_defs(f.ast.items@.subrange(0, 0), fi as int, prefix.len() as int));
            assert(hovers_of(symbols@) =~= hprefix + file_hovers(f.ast.items@.subrange(0, 0)));
        }
        let mut j: usize = 0;
        while j < f.ast.items.len()
            invariant
                j <= f.ast.items@.len(),
                fi < files@.len(),
                *f == files@[fi as int],
                prefix == all_defs(files@.subrange(0, fi as int)),
                well_scoped(symbols@),
                defs_of(symbols@) == prefix + file_defs(f.ast.items@.subrange(0, j as int), fi as int, prefix.len() as int),
                hprefix == all_hovers(files@.subrange(0, fi as int)),
                hovers_of(symbols@) == hprefix + file_hovers(f.ast.items@.subrange(0, j as int)),
            decreases f.ast.items@.len() - j,
        {
            let ghost pre = symbols@;
            let ghost prev = file_defs(f.ast.items@.subrange(0, j as int), fi as int, prefix.len() as int);
            proof {
                assert(defs_of(pre).len() == pre.len());
            }
            match &f.ast.items[j] {
                TopItem::Const(c) => push_const(&mut symbols, c, fi, None),
                TopItem::Enum(e) => push_enum(&mut symbols, e, fi, None),
                TopItem::Module(m) => push_module(&mut symbols, m, fi),
                _ => {}
            }
            proof {
                assert(f.ast.items@.subrange(0, j + 1).drop_last() =~= f.ast.items@.subrange(0, j as int));
                assert(f.ast.items@.subrange(0, j + 1).last() == f.ast.items@[j as int]);
                assert(defs_of(symbols@) =~= prefix + file_defs(f.ast.items@.subrange(0, j + 1), fi as int, prefix.len() as int));
                assert(hovers_of(symbols@) =~= hprefix + file_hovers(f.ast.items@.subrange(0, j + 1)));
            }
            j += 1;
        }
        proof {
            assert(f.ast.items@.subrange(0, f.ast.items@.len() as int) =~= f.ast.items@);
            assert(files@.subrange(0, fi + 1).drop_last() =~= files@.subrange(0, fi as int));
            assert(files@.subrange(0, fi + 1).last() == *f);
        }
        fi += 1;
    }
    proof {
        assert(files@.subrange(0, files@.len() as int) =~= files@);
        reveal(well_scoped);
    }
    SymbolIndex { files: meta, symbols }
}

/// A name written somewhere in a file (a definition's name or a use),
/// with its span and the module it sits in.
struct Ref {
    name: String,
    span: Span,
    module_idx: Option<usize>,
}

/// What a reference says: name, span, enclosing module.
pub open spec fn rv(name: Seq<char>, span: Span, m: Option<int>) -> (Seq<char>, Span, Option<int>) {
    (name, span, m)
}

/// What each reference of a list says.
spec fn refs_of(v: Seq<Ref>) -> Seq<(Seq<char>, Span, Option<int>)> {
    v.map_values(|r: Ref| (r.name@, r.span, opt_int(r.module_idx)))
}

/// The names an expression reads, in order: each identifier at its span;
/// the name after a `.` is not a reference.
pub open spec fn expr_refs(e: Expr, m: Option<int>) -> Seq<(Seq<char>, Span, Option<int>)>
    decreases e,
{
    match e.kind {
        ExprKind::Ident(n) => seq![rv(n@, e.span, m)],
        ExprKind::Int { .. } | ExprKind::Bool(_) => Seq::empty(),
        ExprKind::Field { base, .. } => expr_refs(*base, m),
        ExprKind::Unary { expr, .. } => expr_refs(*expr, m),
        ExprKind::Binary { lhs, rhs, .. } => expr_refs(*lhs, m) + expr_refs(*rhs, m),
        ExprKind::IfExpr { cond, then, els } => expr_refs(*cond, m) + expr_refs(*then, m) + expr_refs(*els, m),
        ExprKind::Match { scrutinee, arms } => expr_refs(*scrutinee, m) + arms_refs(arms@, m),
        ExprKind::Concat(parts) | ExprKind::ArrayLit(parts) => exprs_refs(parts@, m),
        ExprKind::Replicate { count, parts } => expr_refs(*count, m) + exprs_refs(parts@, m),
        ExprKind::Index { base, index } => expr_refs(*base, m) + expr_refs(*index, m),
        ExprKind::Slice { base, hi, lo } => expr_refs(*base, m) + expr_refs(*hi, m) + expr_refs(*lo, m),
        ExprKind::Call { args, .. } | ExprKind::FnCall { args, .. } | ExprKind::EnumConstruct { args, .. } =>
            exprs_refs(args@, m),
        ExprKind::BundleLit(inits) => inits_refs(inits@, m),
    }
}

/// The names a list of expressions reads, in order.
pub open spec fn exprs_refs(es: Seq<Expr>, m: Option<int>) -> Seq<(Seq<char>, Span, Option<int>)>
    decreases es,
{
    if es.len() == 0 { Seq::empty() } else { exprs_refs(es.drop_last(), m) + expr_refs(es.last(), m) }
}

/// The names the arms' values read, in order.
pub open spec fn arms_refs(arms: Seq<Arm>, m: Option<int>) -> Seq<(Seq<char>, Span, Option<int>)>
    decreases arms,
{
    if arms.len() == 0 { Seq::empty() } else { arms_refs(arms.drop_last(), m) + expr_refs(arms.last().value, m) }
}

/// The names field initializers read, in order.
pub open spec fn inits_refs(fs: Seq<FieldInit>, m: Option<int>) -> Seq<(Seq<char>, Span, Option<int>)>
    decreases fs,
{
    if fs.len() == 0 { Seq::empty() } else { inits_refs(fs.drop_last(), m) + expr_refs(fs.last().value, m) }
}

/// The names a `foreach` source reads.
pub open spec fn source_refs(src: ForEachSource, m: Option<int>) -> Seq<(Seq<char>, Span, Option<int>)> {
    match src {
        ForEachSource::Range { lo, hi } => expr_refs(lo, m) + expr_refs(hi, m),
        ForEachSource::Elements(id) => seq![rv(id.name@, id.span, m)],
    }
}

/// The names a sequential statement writes or reads, in order.
pub open spec fn seq_refs(s: SeqStmt, m: Option<int>) -> Seq<(Seq<char>, Span, Option<int>)>
    decreases s,
{
    match s {
        SeqStmt::Assign { lhs, rhs } => seq![rv(lhs.base.name@, lhs.base.span, m)] + expr_refs(rhs, m),
        SeqStmt::If { cond, then, els } => expr_refs(cond, m) + seqs_refs(then@, m) + match els {
            Some(b) => seqs_refs(b@, m),
            None => Seq::empty(),
        },
        SeqStmt::Default { name, val, .. } => seq![rv(name.name@, name.span, m)] + expr_refs(val, m),
        SeqStmt::Loop { lo, hi, body, .. } => expr_refs(lo, m) + expr_refs(hi, m) + seqs_refs(body@, m),
        SeqStmt::ForEach { source, body, .. } => source_refs(source, m) + seqs_refs(body@, m),
        SeqStmt::Error(_) => Seq::empty(),
    }
}

/// The names a statement list writes or reads, in order.
pub open spec fn seqs_refs(ss: Seq<SeqStmt>, m: Option<int>) -> Seq<(Seq<char>, Span, Option<int>)>
    decreases ss,
{
    if ss.len() == 0 { Seq::empty() } else { seqs_refs(ss.drop_last(), m) + seq_refs(ss.last(), m) }
}

/// The names connection signals read, in order.
pub open spec fn conns_refs(cs: Seq<Conn>, m: Option<int>) -> Seq<(Seq<char>, Span, Option<int>)>
    decreases cs,
{
    if cs.len() == 0 { Seq::empty() } else { conns_refs(cs.drop_last(), m) + expr_refs(cs.last().signal, m) }
}

/// The names parameter values read, in order.
pub open spec fn args_refs(args: Seq<NamedArg>, m: Option<int>) -> Seq<(Seq<char>, Span, Option<int>)>
    decreases args,
{
    if args.len() == 0 { Seq::empty() } else { args_refs(args.drop_last(), m) + expr_refs(args.last().value, m) }
}

/// The names a module item uses, in order: what its expressions read, the
/// signal a drive writes, the module an instance names.
pub open spec fn item_refs(item: ModuleItem, m: Option<int>) -> Seq<(Seq<char>, Span, Option<int>)>
    decreases item,
{
    match item {
        ModuleItem::Wire { init, .. } => expr_refs(init, m),
        ModuleItem::Reg { reset, .. } => expr_refs(reset, m),
        ModuleItem::Mem { depth, init, .. } => expr_refs(depth, m) + expr_refs(init, m),
        ModuleItem::Drive { lhs, rhs } => seq![rv(lhs.base.name@, lhs.base.span, m)] + expr_refs(rhs, m),
        ModuleItem::Inst(inst) => seq![rv(inst.module.name.name@, inst.module.span, m)]
            + conns_refs(inst.conns@, m) + args_refs(inst.args@, m),
        ModuleItem::On(b) => seqs_refs(b.body@, m),
        ModuleItem::Repeat(r) => items_refs(r.items@, m),
        ModuleItem::ForEach(f) => source_refs(f.source, m) + items_refs(f.items@, m),
        ModuleItem::SyncLoop(sl) => seqs_refs(sl.body@, m),
        ModuleItem::ConstIf { then, els, .. } => items_refs(then@, m) + match els {
            Some(x) => items_refs(x@, m),
            None => Seq::empty(),
        },
        ModuleItem::BundleDestructure { expr, .. } => expr_refs(expr, m),
        _ => Seq::empty(),
    }
}

/// The names a list of module items uses, in order.
pub open spec fn items_refs(items: Seq<ModuleItem>, m: Option<int>) -> Seq<(Seq<char>, Span, Option<int>)>
    decreases items,
{
    if items.len() == 0 { Seq::empty() } else { items_refs(items.drop_last(), m) + item_refs(items.last(), m) }
}

/// The names a test statement uses, in order.
pub open spec fn test_stmt_refs(s: TestStmt, m: Option<int>) -> Seq<(Seq<char>, Span, Option<int>)>
    decreases s,
{
    match s {
        TestStmt::Tick { clock, count } => seq![rv(clock.name@, clock.span, m)] + match count {
            Some(c) => expr_refs(c, m),
            None => Seq::empty(),
        },
        TestStmt::Expect(e) => expr_refs(e, m),
        TestStmt::Drive { name, value } => seq![rv(name.name@, name.span, m)] + expr_refs(value, m),
        TestStmt::If { cond, then, els } => expr_refs(cond, m) + test_stmts_refs(then@, m) + match els {
            Some(b) => test_stmts_refs(b@, m),
            None => Seq::empty(),
        },
        TestStmt::Sim(sim) => opt_expr_refs(sim.speed, m) + binds_refs(sim.binds@, m),
        TestStmt::Error(_) => Seq::empty(),
    }
}

/// The names an optional expression reads.
pub open spec fn opt_expr_refs(e: Option<Expr>, m: Option<int>) -> Seq<(Seq<char>, Span, Option<int>)> {
    match e {
        Some(x) => expr_refs(x, m),
        None => Seq::empty(),
    }
}

/// The ports a `sim` block binds, in order.
pub open spec fn binds_refs(bs: Seq<crate::ast::Bind>, m: Option<int>) -> Seq<(Seq<char>, Span, Option<int>)>
    decreases bs,
{
    if bs.len() == 0 {
        Seq::empty()
    } else {
        binds_refs(bs.drop_last(), m).push(rv(bs.last().port.name@, bs.last().port.span, m))
    }
}

/// The names a list of test statements uses, in order.
pub open spec fn test_stmts_refs(ss: Seq<TestStmt>, m: Option<int>) -> Seq<(Seq<char>, Span, Option<int>)>
    decreases ss,
{
    if ss.len() == 0 { Seq::empty() } else { test_stmts_refs(ss.drop_last(), m) + test_stmt_refs(ss.last(), m) }
}

/// Append one reference.
fn push_ref(refs: &mut Vec<Ref>, name: &String, span: Span, m: Option<usize>)
    ensures
        refs_of(final(refs)@) == refs_of(old(refs)@).push(rv(name@, span, opt_int(m))),
{
    let ghost w = refs@;
    refs.push(Ref { name: name.clone(), span, module_idx: m });
    proof {
        assert(refs_of(refs@) =~= refs_of(w).push(rv(name@, span, opt_int(m))));
    }
}

/// Append the names an expression reads.
fn collect_expr_refs(e: &Expr, m: Option<usize>, refs: &mut Vec<Ref>)
    ensures
        refs_of(final(refs)@) == refs_of(old(refs)@) + expr_refs(*e, opt_int(m)),
    decreases e, 0nat,
{
    let ghost start = refs_of(refs@);
    let ghost mi = opt_int(m);
    match &e.kind {
        ExprKind::Ident(n) => push_ref(refs, n, e.span, m),
        ExprKind::Int { .. } | ExprKind::Bool(_) => {
            proof { assert(refs_of(refs@) =~= start + expr_refs(*e, mi)); }
        }
        ExprKind::Field { base, .. } => collect_expr_refs(base, m, refs),
        ExprKind::Unary { expr, .. } => collect_expr_refs(expr, m, refs),
        ExprKind::Binary { lhs, rhs, .. } => {
            collect_expr_refs(lhs, m, refs);
            collect_expr_refs(rhs, m, refs);
            proof { assert(refs_of(refs@) =~= start + expr_refs(*e, mi)); }
        }
        ExprKind::IfExpr { cond, then, els } => {
            collect_expr_refs(cond, m, refs);
            collect_expr_refs(then, m, refs);
            collect_expr_refs(els, m, refs);
            proof { assert(refs_of(refs@) =~= start + expr_refs(*e, mi)); }
        }
        ExprKind::Match { scrutinee, arms } => {
            collect_expr_refs(scrutinee, m, refs);
            collect_arms_refs(arms, m, refs);
            proof { assert(refs_of(refs@) =~= start + expr_refs(*e, mi)); }
        }
        ExprKind::Concat(parts) | ExprKind::ArrayLit(parts) => collect_exprs_refs(parts, m, refs),
        ExprKind::Replicate { count, parts } => {
            collect_expr_refs(count, m, refs);
            collect_exprs_refs(parts, m, refs);
            proof { assert(refs_of(refs@) =~= start + expr_refs(*e, mi)); }
        }
        ExprKind::Index { base, index } => {
            collect_expr_refs(base, m, refs);
            collect_expr_refs(index, m, refs);
            proof { assert(refs_of(refs@) =~= start + expr_refs(*e, mi)); }
        }
        ExprKind::Slice { base, hi, lo } => {
            collect_expr_refs(base, m, refs);
            collect_expr_refs(hi, m, refs);
            collect_expr_refs(lo, m, refs);
            proof { assert(refs_of(refs@) =~= start + expr_refs(*e, mi)); }
        }
        ExprKind::Call { args, .. } | ExprKind::FnCall { args, .. } | ExprKind::EnumConstruct { args, .. } =>
            collect_exprs_refs(args, m, refs),
        ExprKind::BundleLit(inits) => collect_inits_refs(inits, m, refs),
    }
}

/// Append the names the arms' values read.
fn collect_arms_refs(arms: &Vec<Arm>, m: Option<usize>, refs: &mut Vec<Ref>)
    ensures
        refs_of(final(refs)@) == refs_of(old(refs)@) + arms_refs(arms@, opt_int(m)),
    decreases arms, 1nat,
{
    let ghost start = refs_of(refs@);
    let mut i: usize = 0;
    proof { assert(refs_of(refs@) =~= start + arms_refs(arms@.subrange(0, 0), opt_int(m))); }
    while i < arms.len()
        invariant
            i <= arms@.len(),
            refs_of(refs@) == start + arms_refs(arms@.subrange(0, i as int), opt_int(m)),
        decreases arms@.len() - i,
    {
        collect_expr_refs(&arms[i].value, m, refs);
        proof {
            assert(arms@.subrange(0, i + 1).drop_last() =~= arms@.subrange(0, i as int));
            assert(refs_of(refs@) =~= start + arms_refs(arms@.subrange(0, i + 1), opt_int(m)));
        }
        i += 1;
    }
    proof {
        assert(arms@.subrange(0, arms@.len() as int) =~= arms@);
    }
}

/// Append the names field initializers read.
fn collect_inits_refs(inits: &Vec<FieldInit>, m: Option<usize>, refs: &mut Vec<Ref>)
    ensures
        refs_of(final(refs)@) == refs_of(old(refs)@) + inits_refs(inits@, opt_int(m)),
    decreases inits, 1nat,
{
    let ghost start = refs_of(refs@);
    let mut i: usize = 0;
    proof { assert(refs_of(refs@) =~= start + inits_refs(inits@.subrange(0, 0), opt_int(m))); }
    while i < inits.len()
        invariant
            i <= inits@.len(),
            refs_of(refs@) == start + inits_refs(inits@.subrange(0, i as int), opt_int(m)),
        decreases inits@.len() - i,
    {
        collect_expr_refs(&inits[i].value, m, refs);
        proof {
            assert(inits@.subrange(0, i + 1).drop_last() =~= inits@.subrange(0, i as int));
            assert(refs_of(refs@) =~= start + inits_refs(inits@.subrange(0, i + 1), opt_int(m)));
        }
        i += 1;
    }
    proof {
        assert(inits@.subrange(0, inits@.len() as int) =~= inits@);
    }
}

/// Append the names a list of expressions reads.
fn collect_exprs_refs(es: &Vec<Expr>, m: Option<usize>, refs: &mut Vec<Ref>)
    ensures
        refs_of(final(refs)@) == refs_of(old(refs)@) + exprs_refs(es@, opt_int(m)),
    decreases es, 1nat,
{
    let ghost start = refs_of(refs@);
    let mut i: usize = 0;
    proof { assert(refs_of(refs@) =~= start + exprs_refs(es@.subrange(0, 0), opt_int(m))); }
    while i < es.len()
        invariant
            i <= es@.len(),
            refs_of(refs@) == start + exprs_refs(es@.subrange(0, i as int), opt_int(m)),
        decreases es@.len() - i,
    {
        collect_expr_refs(&es[i], m, refs);
        proof {
            assert(es@.subrange(0, i + 1).drop_last() =~= es@.subrange(0, i as int));
            assert(refs_of(refs@) =~= start + exprs_refs(es@.subrange(0, i + 1), opt_int(m)));
        }
        i += 1;
    }
    proof {
        assert(es@.subrange(0, es@.len() as int) =~= es@);
    }
}

/// Append the names a statement list uses.
fn collect_seqs_refs(v: &Vec<SeqStmt>, m: Option<usize>, refs: &mut Vec<Ref>)
    ensures
        refs_of(final(refs)@) == refs_of(old(refs)@) + seqs_refs(v@, opt_int(m)),
    decreases v, 1nat,
{
    let ghost start = refs_of(refs@);
    let mut i: usize = 0;
    proof { assert(refs_of(refs@) =~= start + seqs_refs(v@.subrange(0, 0), opt_int(m))); }
    while i < v.len()
        invariant
            i <= v@.len(),
            refs_of(refs@) == start + seqs_refs(v@.subrange(0, i as int), opt_int(m)),
        decreases v@.len() - i,
    {
        collect_seq_refs(&v[i], m, refs);
        proof {
            assert(v@.subrange(0, i + 1).drop_last() =~= v@.subrange(0, i as int));
            assert(refs_of(refs@) =~= start + seqs_refs(v@.subrange(0, i + 1), opt_int(m)));
        }
        i += 1;
    }
    proof {
        assert(v@.subrange(0, v@.len() as int) =~= v@);
    }
}

/// Append the names a list of module items uses.
fn collect_items_refs(v: &Vec<ModuleItem>, m: Option<usize>, refs: &mut Vec<Ref>)
    ensures
        refs_of(final(refs)@) == refs_of(old(refs)@) + items_refs(v@, opt_int(m)),
    decreases v, 1nat,
{
    let ghost start = refs_of(refs@);
    let mut i: usize = 0;
    proof { assert(refs_of(refs@) =~= start + items_refs(v@.subrange(0, 0), opt_int(m))); }
    while i < v.len()
        invariant
            i <= v@.len(),
            refs_of(refs@) == start + items_refs(v@.subrange(0, i as int), opt_int(m)),
        decreases v@.len() - i,
    {
        collect_item_refs(&v[i], m, refs);
        proof {
            assert(v@.subrange(0, i + 1).drop_last() =~= v@.subrange(0, i as int));
            assert(refs_of(refs@) =~= start + items_refs(v@.subrange(0, i + 1), opt_int(m)));
        }
        i += 1;
    }
    proof {
        assert(v@.subrange(0, v@.len() as int) =~= v@);
    }
}

/// Append the names a list of test statements uses.
fn collect_test_stmts_refs(v: &Vec<TestStmt>, m: Option<usize>, refs: &mut Vec<Ref>)
    ensures
        refs_of(final(refs)@) == refs_of(old(refs)@) + test_stmts_refs(v@, opt_int(m)),
    decreases v, 1nat,
{
    let ghost start = refs_of(refs@);
    let mut i: usize = 0;
    proof { assert(refs_of(refs@) =~= start + test_stmts_refs(v@.subrange(0, 0), opt_int(m))); }
    while i < v.len()
        invariant
            i <= v@.len(),
            refs_of(refs@) == start + test_stmts_refs(v@.subrange(0, i as int), opt_int(m)),
        decreases v@.len() - i,
    {
        collect_test_stmt_refs(&v[i], m, refs);
        proof {
            assert(v@.subrange(0, i + 1).drop_last() =~= v@.subrange(0, i as int));
            assert(refs_of(refs@) =~= start + test_stmts_refs(v@.subrange(0, i + 1), opt_int(m)));
        }
        i += 1;
    }
    proof {
        assert(v@.subrange(0, v@.len() as int) =~= v@);
    }
}

/// Append the names connection signals read.
fn collect_conns_refs(v: &Vec<Conn>, m: Option<usize>, refs: &mut Vec<Ref>)
    ensures
        refs_of(final(refs)@) == refs_of(old(refs)@) + conns_refs(v@, opt_int(m)),
{
    let ghost start = refs_of(refs@);
    let mut i: usize = 0;
    proof { assert(refs_of(refs@) =~= start + conns_refs(v@.subrange(0, 0), opt_int(m))); }
    while i < v.len()
        invariant
            i <= v@.len(),
            refs_of(refs@) == start + conns_refs(v@.subrange(0, i as int), opt_int(m)),
        decreases v@.len() - i,
    {
        collect_expr_refs(&v[i].signal, m, refs);
        proof {
            assert(v@.subrange(0, i + 1).drop_last() =~= v@.subrange(0, i as int));
            assert(refs_of(refs@) =~= start + conns_refs(v@.subrange(0, i + 1), opt_int(m)));
        }
        i += 1;
    }
    proof {
        assert(v@.subrange(0, v@.len() as int) =~= v@);
    }
}

/// Append the names parameter values read.
fn collect_args_refs(v: &Vec<NamedArg>, m: Option<usize>, refs: &mut Vec<Ref>)
    ensures
        refs_of(final(refs)@) == refs_of(old(refs)@) + args_refs(v@, opt_int(m)),
{
    let ghost start = refs_of(refs@);
    let mut i: usize = 0;
    proof { assert(refs_of(refs@) =~= start + args_refs(v@.subrange(0, 0), opt_int(m))); }
    while i < v.len()
        invariant
            i <= v@.len(),
            refs_of(refs@) == start + args_refs(v@.subrange(0, i as int), opt_int(m)),
        decreases v@.len() - i,
    {
        collect_expr_refs(&v[i].value, m, refs);
        proof {
            assert(v@.subrange(0, i + 1).drop_last() =~= v@.subrange(0, i as int));
            assert(refs_of(refs@) =~= start + args_refs(v@.subrange(0, i + 1), opt_int(m)));
        }
        i += 1;
    }
    proof {
        assert(v@.subrange(0, v@.len() as int) =~= v@);
    }
}

/// Append the ports a `sim` block binds.
fn collect_binds_refs(v: &Vec<crate::ast::Bind>, m: Option<usize>, refs: &mut Vec<Ref>)
    ensures
        refs_of(final(refs)@) == refs_of(old(refs)@) + binds_refs(v@, opt_int(m)),
{
    let ghost start = refs_of(refs@);
    let mut i: usize = 0;
    proof { assert(refs_of(refs@) =~= start + binds_refs(v@.subrange(0, 0), opt_int(m))); }
    while i < v.len()
        invariant
            i <= v@.len(),
            refs_of(refs@) == start + binds_refs(v@.subrange(0, i as int), opt_int(m)),
        decreases v@.len() - i,
    {
        push_ref(refs, &v[i].port.name, v[i].port.span, m);
        proof {
            assert(v@.subrange(0, i + 1).drop_last() =~= v@.subrange(0, i as int));
            assert(refs_of(refs@) =~= start + binds_refs(v@.subrange(0, i + 1), opt_int(m)));
        }
        i += 1;
    }
    proof {
        assert(v@.subrange(0, v@.len() as int) =~= v@);
    }
}

/// Append the names a `foreach` source reads.
fn collect_source_refs(src: &ForEachSource, m: Option<usize>, refs: &mut Vec<Ref>)
    ensures
        refs_of(final(refs)@) == refs_of(old(refs)@) + source_refs(*src, opt_int(m)),
{
    let ghost start = refs_of(refs@);
    match src {
        ForEachSource::Range { lo, hi } => {
            collect_expr_refs(lo, m, refs);
            collect_expr_refs(hi, m, refs);
            proof { assert(refs_of(refs@) =~= start + source_refs(*src, opt_int(m))); }
        }
        ForEachSource::Elements(id) => {
            push_ref(refs, &id.name, id.span, m);
            proof { assert(refs_of(refs@) =~= start + source_refs(*src, opt_int(m))); }
        }
    }
}

/// Append the names a sequential statement uses.
fn collect_seq_refs(s: &SeqStmt, m: Option<usize>, refs: &mut Vec<Ref>)
    ensures
        refs_of(final(refs)@) == refs_of(old(refs)@) + seq_refs(*s, opt_int(m)),
    decreases s, 0nat,
{
    let ghost start = refs_of(refs@);
    match s {
        SeqStmt::Assign { lhs, rhs } => {
            push_ref(refs, &lhs.base.name, lhs.base.span, m);
            collect_expr_refs(rhs, m, refs);
        }
        SeqStmt::If { cond, then, els } => {
            collect_expr_refs(cond, m, refs);
            collect_seqs_refs(then, m, refs);
            match els {
                Some(b) => collect_seqs_refs(b, m, refs),
                None => {}
            }
        }
        SeqStmt::Default { name, val, .. } => {
            push_ref(refs, &name.name, name.span, m);
            collect_expr_refs(val, m, refs);
        }
        SeqStmt::Loop { lo, hi, body, .. } => {
            collect_expr_refs(lo, m, refs);
            collect_expr_refs(hi, m, refs);
            collect_seqs_refs(body, m, refs);
        }
        SeqStmt::ForEach { source, body, .. } => {
            collect_source_refs(source, m, refs);
            collect_seqs_refs(body, m, refs);
        }
        SeqStmt::Error(_) => {}
    }
    proof { assert(refs_of(refs@) =~= start + seq_refs(*s, opt_int(m))); }
}

/// Append the names a module item uses.
fn collect_item_refs(item: &ModuleItem, m: Option<usize>, refs: &mut Vec<Ref>)
    ensures
        refs_of(final(refs)@) == refs_of(old(refs)@) + item_refs(*item, opt_int(m)),
    decreases item, 0nat,
{
    let ghost start = refs_of(refs@);
    match item {
        ModuleItem::Wire { init, .. } => collect_expr_refs(init, m, refs),
        ModuleItem::Reg { reset, .. } => collect_expr_refs(reset, m, refs),
        ModuleItem::Mem { depth, init, .. } => {
            collect_expr_refs(depth, m, refs);
            collect_expr_refs(init, m, refs);
        }
        ModuleItem::Drive { lhs, rhs } => {
            push_ref(refs, &lhs.base.name, lhs.base.span, m);
            collect_expr_refs(rhs, m, refs);
        }
        ModuleItem::Inst(inst) => {
            push_ref(refs, &inst.module.name.name, inst.module.span, m);
            collect_conns_refs(&inst.conns, m, refs);
            collect_args_refs(&inst.args, m, refs);
        }
        ModuleItem::On(b) => collect_seqs_refs(&b.body, m, refs),
        ModuleItem::Repeat(r) => collect_items_refs(&r.items, m, refs),
        ModuleItem::ForEach(f) => {
            collect_source_refs(&f.source, m, refs);
            collect_items_refs(&f.items, m, refs);
        }
        ModuleItem::SyncLoop(sl) => collect_seqs_refs(&sl.body, m, refs),
        ModuleItem::ConstIf { then, els, .. } => {
            collect_items_refs(then, m, refs);
            match els {
                Some(x) => collect_items_refs(x, m, refs),
                None => {}
            }
        }
        ModuleItem::BundleDestructure { expr, .. } => collect_expr_refs(expr, m, refs),
        _ => {}
    }
    proof { assert(refs_of(refs@) =~= start + item_refs(*item, opt_int(m))); }
}

/// Append the names a test statement uses.
fn collect_test_stmt_refs(s: &TestStmt, m: Option<usize>, refs: &mut Vec<Ref>)
    ensures
        refs_of(final(refs)@) == refs_of(old(refs)@) + test_stmt_refs(*s, opt_int(m)),
    decreases s, 0nat,
{
    let ghost start = refs_of(refs@);
    match s {
        TestStmt::Tick { clock, count } => {
            push_ref(refs, &clock.name, clock.span, m);
            match count {
                Some(c) => collect_expr_refs(c, m, refs),
                None => {}
            }
        }
        TestStmt::Expect(e) => collect_expr_refs(e, m, refs),
        TestStmt::Drive { name, value } => {
            push_ref(refs, &name.name, name.span, m);
            collect_expr_refs(value, m, refs);
        }
        TestStmt::If { cond, then, els } => {
            collect_expr_refs(cond, m, refs);
            collect_test_stmts_refs(then, m, refs);
            match els {
                Some(b) => collect_test_stmts_refs(b, m, refs),
                None => {}
            }
        }
        TestStmt::Sim(sim) => {
            match &sim.speed {
                Some(sp) => collect_expr_refs(sp, m, refs),
                None => {}
            }
            collect_binds_refs(&sim.binds, m, refs);
        }
        TestStmt::Error(_) => {}
    }
    proof { assert(refs_of(refs@) =~= start + test_stmt_refs(*s, opt_int(m))); }
}

/// Which symbols a lookup accepts.
#[derive(Clone, Copy, Debug, PartialEq, Eq, Structural)]
pub enum Lookup {
    /// The module symbol of file `fi` whose name starts at `start`.
    ModuleAt,
    /// A module symbol named `name`.
    ModuleNamed,
    /// `name` in file `fi` with enclosing module `m`.
    SameModule,
    /// `name` with enclosing module `m`, in any file.
    ModuleMember,
    /// `name` at file level in file `fi`.
    FileLevel,
    /// `name` anywhere.
    Anywhere,
}

/// Whether symbol `s` is one the lookup `q` accepts.
pub open spec fn fits(s: Symbol, q: Lookup, name: Seq<char>, fi: int, m: Option<int>, start: int) -> bool {
    match q {
        Lookup::ModuleAt => s.file_idx == fi && s.kind == SymKind::Module && s.span.start == start,
        Lookup::ModuleNamed => s.kind == SymKind::Module && s.name@ == name,
        Lookup::SameModule => s.name@ == name && s.file_idx == fi && opt_int(s.module_idx) == m,
        Lookup::ModuleMember => s.name@ == name && opt_int(s.module_idx) == m,
        Lookup::FileLevel => s.name@ == name && s.file_idx == fi && s.module_idx is None,
        Lookup::Anywhere => s.name@ == name,
    }
}

/// The first position whose symbol the lookup accepts.
pub open spec fn first_fit(syms: Seq<Symbol>, q: Lookup, name: Seq<char>, fi: int, m: Option<int>, start: int) -> Option<int>
    decreases syms.len(),
{
    if syms.len() == 0 {
        None
    } else {
        match first_fit(syms.drop_last(), q, name, fi, m, start) {
            Some(k) => Some(k),
            None => if fits(syms.last(), q, name, fi, m, start) { Some(syms.len() - 1) } else { None },
        }
    }
}

/// A first match within a prefix is the first match overall.
proof fn lemma_first_fit_prefix(syms: Seq<Symbol>, i: int, q: Lookup, name: Seq<char>, fi: int, m: Option<int>, start: int)
    requires
        0 <= i <= syms.len(),
        first_fit(syms.subrange(0, i), q, name, fi, m, start) is Some,
    ensures
        first_fit(syms, q, name, fi, m, start) == first_fit(syms.subrange(0, i), q, name, fi, m, start),
    decreases syms.len(),
{
    if i == syms.len() {
        assert(syms.subrange(0, i) =~= syms);
    } else {
        assert(syms.drop_last().subrange(0, i) =~= syms.subrange(0, i));
        lemma_first_fit_prefix(syms.drop_last(), i, q, name, fi, m, start);
    }
}

/// The first position whose symbol the lookup accepts.
fn find(syms: &Vec<Symbol>, q: Lookup, name: &String, fi: usize, m: Option<usize>, start: usize) -> (r: Option<usize>)
    ensures
        opt_int(r) == first_fit(syms@, q, name@, fi as int, opt_int(m), start as int),
{
    let mut i: usize = 0;
    while i < syms.len()
        invariant
            i <= syms@.len(),
            first_fit(syms@.subrange(0, i as int), q, name@, fi as int, opt_int(m), start as int) is None,
        decreases syms@.len() - i,
    {
        let s = &syms[i];
        let hit = match q {
            Lookup::ModuleAt => s.file_idx == fi && s.kind == SymKind::Module && s.span.start == start,
            Lookup::ModuleNamed => s.kind == SymKind::Module && s.name == *name,
            Lookup::SameModule => s.name == *name && s.file_idx == fi && s.module_idx == m,
            Lookup::ModuleMember => s.name == *name && s.module_idx == m,
            Lookup::FileLevel => s.name == *name && s.file_idx == fi && s.module_idx.is_none(),
            Lookup::Anywhere => s.name == *name,
        };
        proof {
            assert(syms@.subrange(0, i + 1).drop_last() =~= syms@.subrange(0, i as int));
            assert(syms@.subrange(0, i + 1).last() == *s);
            assert(hit == fits(*s, q, name@, fi as int, opt_int(m), start as int));
        }
        if hit {
            proof {
                lemma_first_fit_prefix(syms@, i + 1, q, name@, fi as int, opt_int(m), start as int);
            }
            return Some(i);
        }
        i += 1;
    }
    proof {
        assert(syms@.subrange(0, syms@.len() as int) =~= syms@);
    }
    None
}

/// The references the symbols of file `fi` make at their own definitions,
/// in order.
pub open spec fn sym_refs(syms: Seq<Symbol>, fi: int) -> Seq<(Seq<char>, Span, Option<int>)>
    decreases syms,
{
    if syms.len() == 0 {
        Seq::empty()
    } else if syms.last().file_idx == fi {
        sym_refs(syms.drop_last(), fi).push(rv(syms.last().name@, syms.last().span, opt_int(syms.last().module_idx)))
    } else {
        sym_refs(syms.drop_last(), fi)
    }
}

/// The names a `test` block uses: the module under test (at file level),
/// then its arguments and body, scoped to that module's symbol.
pub open spec fn test_refs(t: TestDecl, syms: Seq<Symbol>) -> Seq<(Seq<char>, Span, Option<int>)> {
    let mp = first_fit(syms, Lookup::ModuleNamed, t.module.name.name@, 0, None, 0);
    seq![rv(t.module.name.name@, t.module.span, None)] + args_refs(t.args@, mp) + test_stmts_refs(t.body@, mp)
}

/// The names a top-level item uses: a module's members (scoped to the
/// module's symbol), a `const`'s value, a `test` block.
pub open spec fn top_refs(t: TopItem, syms: Seq<Symbol>, fi: int) -> Seq<(Seq<char>, Span, Option<int>)> {
    match t {
        TopItem::Module(m) => items_refs(
            m.items@,
            first_fit(syms, Lookup::ModuleAt, Seq::empty(), fi, None, m.name.span.start as int),
        ),
        TopItem::Const(c) => expr_refs(c.value, None),
        TopItem::Test(t) => test_refs(t, syms),
        _ => Seq::empty(),
    }
}

/// The names a file's top-level items use, in order.
pub open spec fn tops_refs(items: Seq<TopItem>, syms: Seq<Symbol>, fi: int) -> Seq<(Seq<char>, Span, Option<int>)>
    decreases items,
{
    if items.len() == 0 { Seq::empty() } else { tops_refs(items.drop_last(), syms, fi) + top_refs(items.last(), syms, fi) }
}

/// Every name written in file `fi`: its definitions, then its uses.
pub open spec fn all_refs(syms: Seq<Symbol>, items: Seq<TopItem>, fi: int) -> Seq<(Seq<char>, Span, Option<int>)> {
    sym_refs(syms, fi) + tops_refs(items, syms, fi)
}

/// Append the names a `test` block uses.
fn collect_test_refs(t: &TestDecl, index: &SymbolIndex, refs: &mut Vec<Ref>)
    ensures
        refs_of(final(refs)@) == refs_of(old(refs)@) + test_refs(*t, index.symbols@),
{
    let ghost start = refs_of(refs@);
    push_ref(refs, &t.module.name.name, t.module.span, None);
    let mp = find(&index.symbols, Lookup::ModuleNamed, &t.module.name.name, 0, None, 0);
    collect_args_refs(&t.args, mp, refs);
    collect_test_stmts_refs(&t.body, mp, refs);
    proof { assert(refs_of(refs@) =~= start + test_refs(*t, index.symbols@)); }
}

/// Every name (definition or use) written in file `fi`, with its module.
fn collect_refs(index: &SymbolIndex, files: &[LoadedFile], fi: usize) -> (r: Vec<Ref>)
    requires
        fi < files@.len(),
    ensures
        refs_of(r@) == all_refs(index.symbols@, files@[fi as int].ast.items@, fi as int),
{
    let mut refs: Vec<Ref> = Vec::new();
    let mut k: usize = 0;
    proof { assert(refs_of(refs@) =~= sym_refs(index.symbols@.subrange(0, 0), fi as int)); }
    while k < index.symbols.len()
        invariant
            k <= index.symbols@.len(),
            refs_of(refs@) == sym_refs(index.symbols@.subrange(0, k as int), fi as int),
        decreases index.symbols@.len() - k,
    {
        let s = &index.symbols[k];
        if s.file_idx == fi {
            push_ref(&mut refs, &s.name, s.span, s.module_idx);
        }
        proof {
            assert(index.symbols@.subrange(0, k + 1).drop_last() =~= index.symbols@.subrange(0, k as int));
            assert(index.symbols@.subrange(0, k + 1).last() == *s);
        }
        k += 1;
    }
    proof {
        assert(index.symbols@.subrange(0, index.symbols@.len() as int) =~= index.symbols@);
    }
    let ghost head = refs_of(refs@);
    let f = &files[fi];
    let mut j: usize = 0;
    proof { assert(refs_of(refs@) =~= head + tops_refs(f.ast.items@.subrange(0, 0), index.symbols@, fi as int)); }
    while j < f.ast.items.len()
        invariant
            j <= f.ast.items@.len(),
            refs_of(refs@) == head + tops_refs(f.ast.items@.subrange(0, j as int), index.symbols@, fi as int),
        decreases f.ast.items@.len() - j,
    {
        let ghost pre = refs_of(refs@);
        match &f.ast.items[j] {
            TopItem::Module(m) => {
                let empty = String::new();
                let mod_pos = find(&index.symbols, Lookup::ModuleAt, &empty, fi, None, m.name.span.start);
                collect_items_refs(&m.items, mod_pos, &mut refs);
            }
            TopItem::Const(c) => collect_expr_refs(&c.value, None, &mut refs),
            TopItem::Test(t) => collect_test_refs(t, index, &mut refs),
            _ => {}
        }
        proof {
            assert(f.ast.items@.subrange(0, j + 1).drop_last() =~= f.ast.items@.subrange(0, j as int));
            assert(f.ast.items@.subrange(0, j + 1).last() == f.ast.items@[j as int]);
            assert(refs_of(refs@) =~= head + tops_refs(f.ast.items@.subrange(0, j + 1), index.symbols@, fi as int));
        }
        j += 1;
    }
    proof {
        assert(f.ast.items@.subrange(0, f.ast.items@.len() as int) =~= f.ast.items@);
    }
    refs
}

/// Whether a reference's span covers byte `offset`.
pub open spec fn covers(r: (Seq<char>, Span, Option<int>), offset: int) -> bool {
    r.1.start <= offset < r.1.end
}

/// A reference span's length.
pub open spec fn width(r: (Seq<char>, Span, Option<int>)) -> int {
    r.1.end - r.1.start
}

/// Reference `h` is the one under the cursor: it covers `offset`, no
/// covering reference is shorter, and none before it is as short.
pub open spec fn is_hit(refs: Seq<(Seq<char>, Span, Option<int>)>, h: int, offset: int) -> bool {
    &&& 0 <= h < refs.len()
    &&& covers(refs[h], offset)
    &&& forall|k: int| 0 <= k < refs.len() && covers(#[trigger] refs[k], offset) ==> width(refs[h]) <= width(refs[k])
    &&& forall|k: int| 0 <= k < h && covers(#[trigger] refs[k], offset) ==> width(refs[k]) > width(refs[h])
}

/// The definition a reference resolves to: first one of the same name in
/// the same module of the same file; else, inside a module, one of that
/// module in any file; else one at file level in this file; else any.
pub open spec fn resolved(syms: Seq<Symbol>, hit: (Seq<char>, Span, Option<int>), fi: int) -> Option<int> {
    match first_fit(syms, Lookup::SameModule, hit.0, fi, hit.2, 0) {
        Some(k) => Some(k),
        None => match (if hit.2 is Some { first_fit(syms, Lookup::ModuleMember, hit.0, fi, hit.2, 0) } else { None }) {
            Some(k) => Some(k),
            None => match first_fit(syms, Lookup::FileLevel, hit.0, fi, None, 0) {
                Some(k) => Some(k),
                None => first_fit(syms, Lookup::Anywhere, hit.0, fi, None, 0),
            },
        },
    }
}

/// At most one reference is the one under the cursor.
pub proof fn lemma_hit_unique(refs: Seq<(Seq<char>, Span, Option<int>)>, h1: int, h2: int, offset: int)
    requires
        is_hit(refs, h1, offset),
        is_hit(refs, h2, offset),
    ensures
        h1 == h2,
{
    assert(covers(refs[h1], offset) && covers(refs[h2], offset));
    if h1 < h2 {
        assert(width(refs[h1]) > width(refs[h2]));
        assert(width(refs[h2]) <= width(refs[h1]));
    } else if h2 < h1 {
        assert(width(refs[h2]) > width(refs[h1]));
        assert(width(refs[h1]) <= width(refs[h2]));
    }
}

/// Resolve the cursor at byte `offset` of file `file_idx` to a definition
/// (an index into `index.symbols`): the shortest name span covering the
/// cursor (the first such, on a tie) is looked up in its own module, then
/// that module in any file, then at file level, then anywhere. `None`
/// when no name covers the cursor or nothing of that name is defined.
pub fn resolve_at(index: &SymbolIndex, files: &[LoadedFile], file_idx: usize, offset: usize) -> (r: Option<usize>)
    requires
        file_idx < files@.len(),
    ensures
        ({
            let refs = all_refs(index.symbols@, files@[file_idx as int].ast.items@, file_idx as int);
            &&& (forall|k: int| 0 <= k < refs.len() ==> !covers(#[trigger] refs[k], offset as int)) ==> r is None
            &&& (exists|k: int| 0 <= k < refs.len() && covers(#[trigger] refs[k], offset as int)) ==> exists|h: int|
                is_hit(refs, h, offset as int) && opt_int(r) == resolved(index.symbols@, refs[h], file_idx as int)
        }),
{
    let refs = collect_refs(index, files, file_idx);
    let ghost rs = refs_of(refs@);
    let mut best: Option<usize> = None;
    let mut i: usize = 0;
    while i < refs.len()
        invariant
            i <= refs@.len(),
            rs == refs_of(refs@),
            rs.len() == refs@.len(),
            match best {
                None => forall|k: int| 0 <= k < i ==> !covers(#[trigger] rs[k], offset as int),
                Some(h) => {
                    &&& h < i
                    &&& covers(rs[h as int], offset as int)
                    &&& forall|k: int| 0 <= k < i && covers(#[trigger] rs[k], offset as int) ==> width(rs[h as int]) <= width(rs[k])
                    &&& forall|k: int| 0 <= k < h && covers(#[trigger] rs[k], offset as int) ==> width(rs[k]) > width(rs[h as int])
                },
            },
        decreases refs@.len() - i,
    {
        let r = &refs[i];
        assert(rs[i as int] == (r.name@, r.span, opt_int(r.module_idx)));
        if r.span.start <= offset && offset < r.span.end {
            let w = r.span.end - r.span.start;
            let better = match best {
                None => true,
                Some(h) => w < refs[h].span.end - refs[h].span.start,
            };
            if better {
                best = Some(i);
            }
        }
        i += 1;
    }
    let h = match best {
        None => {
            return None;
        }
        Some(h) => h,
    };
    proof {
        assert(is_hit(rs, h as int, offset as int));
    }
    let hit = &refs[h];
    let t1 = find(&index.symbols, Lookup::SameModule, &hit.name, file_idx, hit.module_idx, 0);
    if t1.is_some() {
        return t1;
    }
    if hit.module_idx.is_some() {
        let t2 = find(&index.symbols, Lookup::ModuleMember, &hit.name, file_idx, hit.module_idx, 0);
        if t2.is_some() {
            return t2;
        }
    }
    let t3 = find(&index.symbols, Lookup::FileLevel, &hit.name, file_idx, None, 0);
    if t3.is_some() {
        return t3;
    }
    find(&index.symbols, Lookup::Anywhere, &hit.name, file_idx, None, 0)
}

/// A completion suggestion: the text to insert and what it is.
pub struct Candidate {
    /// The text to insert.
    pub label: String,
    /// What kind of completion this is.
    pub kind: CandKind,
}

/// What a [`Candidate`] completes to.
pub enum CandKind {
    /// A language keyword.
    Keyword,
    /// An in-scope identifier, with its definition kind.
    Symbol(SymKind),
}

/// What a candidate says: its text, and its symbol kind (`None` for a
/// keyword).
pub open spec fn cand_view(c: Candidate) -> (Seq<char>, Option<SymKind>) {
    (c.label@, match c.kind {
        CandKind::Keyword => None,
        CandKind::Symbol(k) => Some(k),
    })
}

/// What each candidate of a list says.
pub open spec fn cands_of(v: Seq<Candidate>) -> Seq<(Seq<char>, Option<SymKind>)> {
    v.map_values(|c: Candidate| cand_view(c))
}

/// The position of the first top-level module whose body span contains
/// `offset`.
pub open spec fn first_module_around(items: Seq<TopItem>, offset: int) -> Option<int>
    decreases items.len(),
{
    if items.len() == 0 {
        None
    } else {
        match first_module_around(items.drop_last(), offset) {
            Some(j) => Some(j),
            None => match items.last() {
                TopItem::Module(m) => if m.span.start <= offset < m.span.end { Some(items.len() - 1) } else { None },
                _ => None,
            },
        }
    }
}

/// The symbol of the module the cursor sits in, if any.
pub open spec fn enclosing(items: Seq<TopItem>, syms: Seq<Symbol>, fi: int, offset: int) -> Option<int> {
    match first_module_around(items, offset) {
        Some(j) => match items[j] {
            TopItem::Module(m) => first_fit(syms, Lookup::ModuleAt, Seq::empty(), fi, None, m.name.span.start as int),
            _ => None,
        },
        None => None,
    }
}

/// Whether a symbol is in scope at the cursor: a member of the enclosing
/// module (this file), any module, or a `const` / `enum` / variant at
/// this file's top level.
pub open spec fn in_scope(s: Symbol, enc: Option<int>, fi: int) -> bool {
    match s.module_idx {
        Some(m) => enc == Some(m as int) && s.file_idx == fi,
        None => s.kind == SymKind::Module || (s.file_idx == fi && (s.kind == SymKind::Const || s.kind == SymKind::Enum
            || s.kind == SymKind::EnumVariant)),
    }
}

/// The in-scope symbols as candidates, in index order.
pub open spec fn scope_cands(syms: Seq<Symbol>, enc: Option<int>, fi: int) -> Seq<(Seq<char>, Option<SymKind>)>
    decreases syms,
{
    if syms.len() == 0 {
        Seq::empty()
    } else if in_scope(syms.last(), enc, fi) {
        scope_cands(syms.drop_last(), enc, fi).push((syms.last().name@, Some(syms.last().kind)))
    } else {
        scope_cands(syms.drop_last(), enc, fi)
    }
}

/// An in-scope symbol shows up among the in-scope candidates, with its
/// name and kind.
proof fn lemma_scope_cands_has(syms: Seq<Symbol>, enc: Option<int>, fi: int, j: int)
    requires
        0 <= j < syms.len(),
        in_scope(syms[j], enc, fi),
    ensures
        scope_cands(syms, enc, fi).contains((syms[j].name@, Some(syms[j].kind))),
    decreases syms.len(),
{
    let pair = (syms[j].name@, Some(syms[j].kind));
    if j == syms.len() - 1 {
        let c = scope_cands(syms, enc, fi);
        assert(c.last() == pair);
        assert(c[c.len() - 1] == pair);
    } else {
        lemma_scope_cands_has(syms.drop_last(), enc, fi, j);
        let c0 = scope_cands(syms.drop_last(), enc, fi);
        let k = choose|k: int| 0 <= k < c0.len() && c0[k] == pair;
        if in_scope(syms.last(), enc, fi) {
            assert(scope_cands(syms, enc, fi)[k] == pair);
        } else {
            assert(scope_cands(syms, enc, fi)[k] == pair);
        }
    }
}

/// Keywords as candidates, in order.
pub open spec fn kw_cands(kws: Seq<&str>) -> Seq<(Seq<char>, Option<SymKind>)>
    decreases kws,
{
    if kws.len() == 0 { Seq::empty() } else { kw_cands(kws.drop_last()).push((kws.last()@, None)) }
}

/// The symbol of the module whose body span contains `offset`, if any.
fn enclosing_module(index: &SymbolIndex, files: &[LoadedFile], file_idx: usize, offset: usize) -> (r: Option<usize>)
    requires
        file_idx < files@.len(),
    ensures
        opt_int(r) == enclosing(files@[file_idx as int].ast.items@, index.symbols@, file_idx as int, offset as int),
{
    let f = &files[file_idx];
    let ghost items = f.ast.items@;
    let mut j: usize = 0;
    while j < f.ast.items.len()
        invariant
            j <= items.len(),
            items == f.ast.items@,
            *f == files@[file_idx as int],
            first_module_around(items.subrange(0, j as int), offset as int) is None,
        decreases items.len() - j,
    {
        proof {
            assert(items.subrange(0, j + 1).drop_last() =~= items.subrange(0, j as int));
            assert(items.subrange(0, j + 1).last() == items[j as int]);
        }
        if let TopItem::Module(m) = &f.ast.items[j] {
            if m.span.start <= offset && offset < m.span.end {
                proof {
                    lemma_first_module_prefix(items, j + 1, offset as int);
                }
                let empty = String::new();
                return find(&index.symbols, Lookup::ModuleAt, &empty, file_idx, None, m.name.span.start);
            }
        }
        j += 1;
    }
    proof {
        assert(items.subrange(0, items.len() as int) =~= items);
    }
    None
}

/// A first enclosing module within a prefix is the first overall.
proof fn lemma_first_module_prefix(items: Seq<TopItem>, i: int, offset: int)
    requires
        0 <= i <= items.len(),
        first_module_around(items.subrange(0, i), offset) is Some,
    ensures
        first_module_around(items, offset) == first_module_around(items.subrange(0, i), offset),
    decreases items.len(),
{
    if i == items.len() {
        assert(items.subrange(0, i) =~= items);
    } else {
        assert(items.drop_last().subrange(0, i) =~= items.subrange(0, i));
        lemma_first_module_prefix(items.drop_last(), i, offset);
    }
}

/// Completion candidates at `offset`: the in-scope symbols (members of
/// the enclosing module, every module, this file's top-level `const`s,
/// `enum`s and variants) in index order, then `keywords` — the keyword
/// spellings of the file's majority flavor. Prefix filtering is left to
/// the editor.
pub fn completions(
    index: &SymbolIndex,
    files: &[LoadedFile],
    file_idx: usize,
    offset: usize,
    keywords: &[&str],
) -> (r: Vec<Candidate>)
    requires
        file_idx < files@.len(),
    ensures
        cands_of(r@) == scope_cands(
            index.symbols@,
            enclosing(files@[file_idx as int].ast.items@, index.symbols@, file_idx as int, offset as int),
            file_idx as int,
        ) + kw_cands(keywords@),
        forall|j: int| #![trigger index.symbols@[j]]
            0 <= j < index.symbols@.len() && index.symbols@[j].module_idx is None
            && (index.symbols@[j].kind == SymKind::Module
                || (index.symbols@[j].file_idx == file_idx && (index.symbols@[j].kind == SymKind::EnumVariant
                    || index.symbols@[j].kind == SymKind::Enum || index.symbols@[j].kind == SymKind::Const)))
            ==> exists|c: int| 0 <= c < r@.len() && #[trigger] r@[c].label@ == index.symbols@[j].name@
                && r@[c].kind == CandKind::Symbol(index.symbols@[j].kind),
        forall|j: int| #![trigger index.symbols@[j]]
            0 <= j < index.symbols@.len() && index.symbols@[j].module_idx is Some
            && index.symbols@[j].file_idx == file_idx
            && enclosing(files@[file_idx as int].ast.items@, index.symbols@, file_idx as int, offset as int)
                == Some(index.symbols@[j].module_idx->0 as int)
            ==> exists|c: int| 0 <= c < r@.len() && #[trigger] r@[c].label@ == index.symbols@[j].name@
                && r@[c].kind == CandKind::Symbol(index.symbols@[j].kind),
{
    let enc = enclosing_module(index, files, file_idx, offset);
    let ghost encv = opt_int(enc);
    let mut out: Vec<Candidate> = Vec::new();
    let mut k: usize = 0;
    proof { assert(cands_of(out@) =~= scope_cands(index.symbols@.subrange(0, 0), encv, file_idx as int)); }
    while k < index.symbols.len()
        invariant
            k <= index.symbols@.len(),
            encv == opt_int(enc),
            cands_of(out@) == scope_cands(index.symbols@.subrange(0, k as int), encv, file_idx as int),
        decreases index.symbols@.len() - k,
    {
        let s = &index.symbols[k];
        let in_scope = match s.module_idx {
            Some(m) => enc == Some(m) && s.file_idx == file_idx,
            None => s.kind == SymKind::Module || (s.file_idx == file_idx && (s.kind == SymKind::Const
                || s.kind == SymKind::Enum || s.kind == SymKind::EnumVariant)),
        };
        let ghost pre = out@;
        if in_scope {
            out.push(Candidate { label: s.name.clone(), kind: CandKind::Symbol(s.kind) });
        }
        proof {
            assert(index.symbols@.subrange(0, k + 1).drop_last() =~= index.symbols@.subrange(0, k as int));
            assert(index.symbols@.subrange(0, k + 1).last() == *s);
            assert(in_scope == super::analysis::in_scope(*s, encv, file_idx as int));
            if in_scope {
                assert(cands_of(out@) =~= cands_of(pre).push(cand_view(out@.last())));
            }
            assert(cands_of(out@) =~= scope_cands(index.symbols@.subrange(0, k + 1), encv, file_idx as int));
        }
        k += 1;
    }
    proof {
        assert(index.symbols@.subrange(0, index.symbols@.len() as int) =~= index.symbols@);
    }
    let ghost head = cands_of(out@);
    let mut i: usize = 0;
    proof { assert(cands_of(out@) =~= head + kw_cands(keywords@.subrange(0, 0))); }
    while i < keywords.len()
        invariant
            i <= keywords@.len(),
            cands_of(out@) == head + kw_cands(keywords@.subrange(0, i as int)),
        decreases keywords@.len() - i,
    {
        let ghost pre = out@;
        out.push(Candidate { label: String::from_str(keywords[i]), kind: CandKind::Keyword });
        proof {
            assert(keywords@.subrange(0, i + 1).drop_last() =~= keywords@.subrange(0, i as int));
            assert(cands_of(out@) =~= cands_of(pre).push(cand_view(out@.last())));
            assert(cands_of(out@) =~= head + kw_cands(keywords@.subrange(0, i + 1)));
        }
        i += 1;
    }
    proof {
        assert(keywords@.subrange(0, keywords@.len() as int) =~= keywords@);
        let syms = index.symbols@;
        let sc = scope_cands(syms, encv, file_idx as int);
        assert forall|j: int| 0 <= j < syms.len() && in_scope(#[trigger] syms[j], encv, file_idx as int)
            implies exists|c: int| 0 <= c < out@.len() && #[trigger] out@[c].label@ == syms[j].name@
                && out@[c].kind == CandKind::Symbol(syms[j].kind) by {
            lemma_scope_cands_has(syms, encv, file_idx as int, j);
            let c = choose|c: int| 0 <= c < sc.len() && sc[c] == (syms[j].name@, Some(syms[j].kind));
            assert(cands_of(out@)[c] == sc[c]);
            assert(cand_view(out@[c]) == sc[c]);
            match out@[c].kind {
                CandKind::Keyword => {},
                CandKind::Symbol(k) => {},
            }
        }
    }
    out
}

} // verus!
