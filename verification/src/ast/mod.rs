//! The one shared AST: files, modules, declarations, sequential and test
//! statements (this file) and expressions (`expr.rs`). Spans everywhere.
//! The tree keeps `Option` slots for resolution results (`resolved_file`,
//! `inferred_width`); the checker takes the tree by shared reference and
//! leaves them as parsed, computing a resolution where it needs one
//! (`Checker::resolve`).

use vstd::prelude::*;

pub mod expr;
pub use expr::{builtin_table, Arm, BinOp, Builtin, Expr, ExprKind, FieldInit, Pattern, UnOp};
pub mod rename;
pub mod sync_loop_lower;
pub use sync_loop_lower::lower_sync_loop;
pub mod sync_prim_lower;
pub use sync_prim_lower::expand_sync_prims;
pub mod foreach_lower;
pub use foreach_lower::{
    array_like_len, array_like_len_fn, copy_expr, first_array_len, lower_foreach_fn, lower_foreach_item, lower_foreach_seq, subst_expr,
};
pub mod builtin_bundles;
pub use builtin_bundles::builtin_valid_bundles;

use crate::span::Span;

verus! {

/// One parsed `.mimz` source file: imports first, then top-level items.
#[derive(Debug)]
pub struct File {
    /// `import` statements, in source order.
    pub imports: Vec<Import>,
    /// Top-level items, in source order.
    pub items: Vec<TopItem>,
}

/// `import lib.adder` — path segments, plus the loaded file it resolved to.
#[derive(Debug)]
pub struct Import {
    /// Dotted path segments (`lib.adder` → `[lib, adder]`).
    pub path: Vec<Ident>,
    /// Source span of the `import` statement.
    pub span: Span,
    /// Which loaded file this import resolved to, once project loading
    /// has assembled the file list; `None` before that.
    pub resolved_file: Option<usize>,
}

/// Anything that may appear at file level.
#[derive(Debug)]
pub enum TopItem {
    /// A file-level `const` declaration.
    Const(ConstDecl),
    /// A `module` declaration.
    Module(Module),
    /// A file-level `enum` declaration.
    Enum(EnumDecl),
    /// A `test` block.
    Test(TestDecl),
    /// A user-defined combinational function.
    Func(FuncDecl),
    /// A file-level bundle declaration.
    Bundle(BundleDecl),
    /// An `extern module` declaration (Verilog FFI).
    ExternModule(ExternModule),
    /// A top-level item that failed to parse (error-recovering parse only).
    Error(Span),
}

/// A user-defined combinational function declaration.
#[derive(Debug)]
pub struct FuncDecl {
    /// The function name.
    pub name: Ident,
    /// Input parameters in declaration order.
    pub params: Vec<FnParam>,
    /// Return type.
    pub ret: Type,
    /// Statements in the body, in order.
    pub stmts: Vec<FnStmt>,
    /// The fallthrough return value.
    pub tail: Expr,
    /// Source span of the whole declaration.
    pub span: Span,
}

/// A statement inside a `fn` body.
#[derive(Debug)]
pub enum FnStmt {
    /// `let name = value`.
    Let(LocalLet),
    /// Statement-level `if`; `else` is optional.
    If {
        /// The condition.
        cond: Expr,
        /// Statements when `cond` is true.
        then: Vec<FnStmt>,
        /// Statements when `cond` is false, if written.
        els: Option<Vec<FnStmt>>,
    },
    /// `return expr`.
    Return(Expr),
    /// `loop i: lo..hi { ... }` — compile-time unrolling.
    Loop {
        /// The loop variable.
        var: Ident,
        /// Lower bound (inclusive).
        lo: Expr,
        /// Upper bound (exclusive).
        hi: Expr,
        /// Statements unrolled once per iteration.
        body: Vec<FnStmt>,
        /// Source span of the `loop` statement.
        span: Span,
    },
    /// `foreach <var> in <source> { ... }`.
    ForEach {
        /// The bound name.
        var: Ident,
        /// Where the values come from.
        source: ForEachSource,
        /// Statements unrolled once per iteration.
        body: Vec<FnStmt>,
        /// Source span of the whole statement.
        span: Span,
    },
    /// A statement that failed to parse.
    Error(Span),
}

/// One input parameter of a user-defined function.
#[derive(Debug)]
pub struct FnParam {
    /// Parameter name.
    pub name: Ident,
    /// Hardware type.
    pub ty: Type,
    /// Source span of the declaration.
    pub span: Span,
}

/// A `let` binding inside a function body.
#[derive(Debug)]
pub struct LocalLet {
    /// The bound name.
    pub name: Ident,
    /// The defining expression.
    pub value: Expr,
    /// Source span of the `let` statement.
    pub span: Span,
    /// Bit-width inferred by the width pass; `None` until it runs.
    pub inferred_width: Option<u32>,
}

/// A name with its source location.
#[derive(Clone, Debug)]
pub struct Ident {
    /// The name text as written.
    pub name: String,
    /// Source span of the name.
    pub span: Span,
}

/// A possibly-namespaced reference: bare `Name` or `a.b.Name`.
#[derive(Clone, Debug)]
pub struct QualIdent {
    /// Leading path segments (`[a, b]` in `a.b.Name`); empty when bare.
    pub path: Vec<Ident>,
    /// The final, referenced name.
    pub name: Ident,
    /// Source span of the whole reference.
    pub span: Span,
    /// The file this reference resolved to, once resolved.
    pub resolved_file: Option<usize>,
}

/// The names of a path's segments.
pub open spec fn path_names(p: Seq<Ident>) -> Seq<Seq<char>> {
    p.map_values(|i: Ident| i.name@)
}

/// `Name` or `a.b.Name`: each path segment followed by `.`, then the name.
pub open spec fn dotted(path: Seq<Ident>, name: Seq<char>) -> Seq<char>
    decreases path.len(),
{
    if path.len() == 0 {
        name
    } else {
        path[0].name@ + "."@ + dotted(path.drop_first(), name)
    }
}

/// Whether import `imp` names exactly the path `path`, segment by segment.
pub open spec fn import_matches(imp: Import, path: Seq<Ident>) -> bool {
    path_names(imp.path@) == path_names(path)
}

/// The first import at index `k` or later whose path matches `path`.
pub open spec fn first_match_from(imports: Seq<Import>, path: Seq<Ident>, k: int) -> Option<int>
    decreases imports.len() - k,
{
    if k < 0 || k >= imports.len() {
        None
    } else if import_matches(imports[k], path) {
        Some(k)
    } else {
        first_match_from(imports, path, k + 1)
    }
}

/// The first import in `imports` whose path matches `path`, if any.
pub open spec fn first_matching_import(imports: Seq<Import>, path: Seq<Ident>) -> Option<int> {
    first_match_from(imports, path, 0)
}

/// What `resolve_via_imports` leaves in `resolved_file`.
pub open spec fn resolved_via(q: QualIdent, imports: Seq<Import>) -> Option<usize> {
    if q.path@.len() == 0 || q.resolved_file.is_some() {
        q.resolved_file
    } else {
        match first_matching_import(imports, q.path@) {
            Some(i) => match imports[i].resolved_file {
                Some(f) => Some(f),
                None => None,
            },
            None => None,
        }
    }
}

impl QualIdent {
    /// `Name` (bare) or `a.b.Name` (qualified), dot-joined.
    pub fn to_dotted(&self) -> (s: String)
        ensures
            s@ == dotted(self.path@, self.name.name@),
    {
        let mut s = String::new();
        let mut i: usize = 0;
        proof {
            assert(self.path@.subrange(0, self.path@.len() as int) =~= self.path@);
            assert(s@ + dotted(self.path@, self.name.name@) =~= dotted(self.path@, self.name.name@));
        }
        while i < self.path.len()
            invariant
                i <= self.path@.len(),
                s@ + dotted(self.path@.subrange(i as int, self.path@.len() as int), self.name.name@)
                    == dotted(self.path@, self.name.name@),
            decreases self.path@.len() - i,
        {
            let ghost rest = self.path@.subrange(i as int, self.path@.len() as int);
            proof {
                assert(rest.drop_first() =~= self.path@.subrange(i + 1, self.path@.len() as int));
                assert(rest[0] == self.path@[i as int]);
                assert(s@ + (rest[0].name@ + "."@ + dotted(rest.drop_first(), self.name.name@))
                    =~= (s@ + rest[0].name@ + "."@) + dotted(rest.drop_first(), self.name.name@));
            }
            s.append(self.path[i].name.as_str());
            s.append(".");
            i += 1;
        }
        proof {
            assert(self.path@.subrange(self.path@.len() as int, self.path@.len() as int).len() == 0);
        }
        s.append(self.name.name.as_str());
        s
    }

    /// True when written with no path segments.
    pub fn is_bare(&self) -> (b: bool)
        ensures
            b == (self.path@.len() == 0),
    {
        self.path.len() == 0
    }

    /// Match `self.path` against the referencing file's own `imports`,
    /// segment by segment; on the first matching import that itself
    /// resolved to a loaded file, record that file in `resolved_file`.
    /// No-op when already resolved or when the reference is bare.
    pub fn resolve_via_imports(&mut self, imports: &[Import])
        ensures
            final(self).resolved_file == resolved_via(*old(self), imports@),
            final(self).path == old(self).path,
            final(self).name == old(self).name,
            final(self).span == old(self).span,
    {
        if self.is_bare() || self.resolved_file.is_some() {
            return;
        }
        let mut k: usize = 0;
        while k < imports.len()
            invariant
                k <= imports@.len(),
                *self == *old(self),
                self.path@.len() > 0,
                self.resolved_file.is_none(),
                first_matching_import(imports@, self.path@)
                    == first_match_from(imports@, self.path@, k as int),
            decreases imports@.len() - k,
        {
            if paths_equal(&imports[k].path, &self.path) {
                self.resolved_file = imports[k].resolved_file;
                return;
            }
            k += 1;
        }
    }
}

/// Whether two paths name the same segments.
fn paths_equal(a: &Vec<Ident>, b: &Vec<Ident>) -> (r: bool)
    ensures
        r == (path_names(a@) == path_names(b@)),
{
    if a.len() != b.len() {
        proof {
            assert(path_names(a@).len() != path_names(b@).len());
        }
        return false;
    }
    let mut i: usize = 0;
    while i < a.len()
        invariant
            a@.len() == b@.len(),
            i <= a@.len(),
            forall|j: int| 0 <= j < i ==> a@[j].name@ == b@[j].name@,
        decreases a@.len() - i,
    {
        if a[i].name != b[i].name {
            proof {
                assert(path_names(a@)[i as int] != path_names(b@)[i as int]);
            }
            return false;
        }
        i += 1;
    }
    proof {
        assert(path_names(a@) =~= path_names(b@));
    }
    true
}

/// `module Name(P: int = 8) { ... }`.
#[derive(Debug)]
pub struct Module {
    /// The module name.
    pub name: Ident,
    /// Compile-time parameters.
    pub params: Vec<Param>,
    /// Body items, in source order.
    pub items: Vec<ModuleItem>,
    /// Source span of the whole declaration.
    pub span: Span,
}

/// `extern module Name(params) { doc: "...", ports }` — the port shape of
/// a real Verilog module living outside this project.
#[derive(Debug)]
pub struct ExternModule {
    /// The name instantiation sites use.
    pub name: Ident,
    /// The real Verilog module's name, if it differs from `name`.
    pub verilog_name: Option<String>,
    /// Compile-time parameters.
    pub params: Vec<Param>,
    /// Human-readable behavior notes.
    pub doc: Option<String>,
    /// Port/clock/reset declarations.
    pub items: Vec<ModuleItem>,
    /// Source span of the whole declaration.
    pub span: Span,
}

/// An instantiation target: a real module or an extern declaration.
#[derive(Clone, Copy, Debug)]
pub enum ModuleTarget<'a> {
    /// A real, elaboratable module.
    Real(&'a Module),
    /// An extern declaration — port shape only.
    Extern(&'a ExternModule),
}

impl<'a> ModuleTarget<'a> {
    /// The target's name.
    pub fn name(&self) -> (r: &'a Ident)
        ensures
            r == (match *self {
                ModuleTarget::Real(m) => &m.name,
                ModuleTarget::Extern(e) => &e.name,
            }),
    {
        match self {
            ModuleTarget::Real(m) => &m.name,
            ModuleTarget::Extern(e) => &e.name,
        }
    }

    /// The target's compile-time parameters.
    pub fn params(&self) -> (r: &'a [Param])
        ensures
            r@ == (match *self {
                ModuleTarget::Real(m) => m.params@,
                ModuleTarget::Extern(e) => e.params@,
            }),
    {
        match self {
            ModuleTarget::Real(m) => m.params.as_slice(),
            ModuleTarget::Extern(e) => e.params.as_slice(),
        }
    }

    /// The target's items (ports, clocks, resets, and — for a real
    /// module — its body).
    pub fn items(&self) -> (r: &'a [ModuleItem])
        ensures
            r@ == (match *self {
                ModuleTarget::Real(m) => m.items@,
                ModuleTarget::Extern(e) => e.items@,
            }),
    {
        match self {
            ModuleTarget::Real(m) => m.items.as_slice(),
            ModuleTarget::Extern(e) => e.items.as_slice(),
        }
    }

    /// `true` for an extern target.
    pub fn is_extern(&self) -> (b: bool)
        ensures
            b == (*self is Extern),
    {
        match self {
            ModuleTarget::Real(_) => false,
            ModuleTarget::Extern(_) => true,
        }
    }
}

/// Type of a compile-time parameter or constant.
#[derive(Clone, Copy, Debug, PartialEq, Eq, Structural)]
pub enum ParamTy {
    /// A compile-time integer.
    Int,
    /// A compile-time boolean.
    Bool,
}

/// One module parameter: `WIDTH: int = 8`.
#[derive(Debug)]
pub struct Param {
    /// The parameter name.
    pub name: Ident,
    /// Compile-time type.
    pub ty: ParamTy,
    /// Default value, if one was written.
    pub default: Option<Expr>,
}

/// `const NAME: int = expr`.
#[derive(Debug)]
pub struct ConstDecl {
    /// The constant's name.
    pub name: Ident,
    /// Compile-time type.
    pub ty: ParamTy,
    /// The defining expression.
    pub value: Expr,
}

/// `enum State { Red, Green }` — tagged variants carry payload fields.
#[derive(Debug)]
pub struct EnumDecl {
    /// The enum type's name.
    pub name: Ident,
    /// Variant list.
    pub variants: Vec<EnumVariant>,
    /// Span of the whole declaration.
    pub span: Span,
    /// Total wire width computed by the width pass; `None` until it runs.
    pub inferred_total_width: Option<u32>,
}

/// One variant inside an `enum` declaration.
#[derive(Debug)]
pub struct EnumVariant {
    /// The variant name.
    pub name: Ident,
    /// Payload fields in declaration order; empty for tag-only variants.
    pub fields: Vec<PayloadField>,
    /// Span covering the variant.
    pub span: Span,
}

/// One named payload field inside a tagged variant.
#[derive(Debug)]
pub struct PayloadField {
    /// Documentation name.
    pub name: Ident,
    /// Hardware type.
    pub ty: Type,
    /// Span covering `name: type`.
    pub span: Span,
}

/// `bundle Name(params) { fields }` — a named group of signals.
#[derive(Debug)]
pub struct BundleDecl {
    /// The bundle type's name.
    pub name: Ident,
    /// Compile-time parameters.
    pub params: Vec<Param>,
    /// Field declarations in order.
    pub fields: Vec<FieldDecl>,
    /// Source span of the whole declaration.
    pub span: Span,
}

/// One field in a `bundle` declaration: `valid: bit`.
#[derive(Debug)]
pub struct FieldDecl {
    /// The field's name.
    pub name: Ident,
    /// Hardware type.
    pub ty: Type,
    /// Source span of `name: type`.
    pub span: Span,
}

/// Port direction.
#[derive(Clone, Copy, Debug, PartialEq, Eq, Structural)]
pub enum Dir {
    /// `in name: type`.
    In,
    /// `out name: type`.
    Out,
}

/// Anything that may appear in a module body.
#[derive(Debug)]
pub enum ModuleItem {
    /// `in name: type` / `out name: type`.
    Port {
        /// Input or output.
        dir: Dir,
        /// The port name.
        name: Ident,
        /// Hardware type of the port.
        ty: Type,
    },
    /// `clock clk`.
    Clock(Ident),
    /// `reset rst` or `async reset rst`.
    Reset {
        /// The reset signal's name.
        name: Ident,
        /// `true` for `async reset`.
        is_async: bool,
    },
    /// `wire name: type = expr`.
    Wire {
        /// The wire's name.
        name: Ident,
        /// Hardware type.
        ty: Type,
        /// The driving expression.
        init: Expr,
    },
    /// `reg name: type = reset_value`.
    Reg {
        /// The register's name.
        name: Ident,
        /// Hardware type.
        ty: Type,
        /// Value the register takes on reset.
        reset: Expr,
    },
    /// `mem name: element_type[DEPTH] = init`.
    Mem {
        /// The memory's name.
        name: Ident,
        /// Element type.
        ty: Type,
        /// Number of elements.
        depth: Expr,
        /// Value every cell is seeded with.
        init: Expr,
    },
    /// A module-level `const`.
    Const(ConstDecl),
    /// A module-level `enum`.
    Enum(EnumDecl),
    /// Child-module instantiation.
    Inst(Inst),
    /// Sequential block.
    On(OnBlock),
    /// Combinational drive: `count = value`.
    Drive {
        /// The signal, bit, or slice being driven.
        lhs: LValue,
        /// The driving expression.
        rhs: Expr,
    },
    /// Compile-time generation (`repeat i: 0..8 { ... }`).
    Repeat(Repeat),
    /// `foreach <var> in <source> { ... }`.
    ForEach(ForEach),
    /// `sync loop ...` — cycle-iterating loop.
    SyncLoop(Box<SyncLoop>),
    /// `const if (COND) { items } [else { items }]`.
    ConstIf {
        /// The compile-time condition.
        cond: Expr,
        /// Items kept when `cond` is true.
        then: Vec<ModuleItem>,
        /// Items kept when `cond` is false, if written.
        els: Option<Vec<ModuleItem>>,
        /// Source span of the whole `const if`.
        span: Span,
    },
    /// `let { field, ... } = expr`.
    BundleDestructure {
        /// Fields to bind.
        bindings: Vec<Ident>,
        /// The bundle-typed expression being destructured.
        expr: Expr,
        /// Source span of the whole statement.
        span: Span,
    },
    /// A module-body item that failed to parse.
    Error(Span),
}

/// `repeat i: lo..hi { ... }` — compile-time unrolling.
#[derive(Debug)]
pub struct Repeat {
    /// The loop variable.
    pub var: Ident,
    /// Lower bound (inclusive).
    pub lo: Expr,
    /// Upper bound (exclusive).
    pub hi: Expr,
    /// Module items unrolled once per iteration.
    pub items: Vec<ModuleItem>,
    /// Source span of the whole block.
    pub span: Span,
}

/// `sync loop <name> on rise(clk) (var: lo..hi) -> result: ty = init { body }`.
#[derive(Debug)]
pub struct SyncLoop {
    /// Instance name — namespaces the generated signals.
    pub name: Ident,
    /// The clock driving the loop.
    pub clock: Ident,
    /// Which edge advances the loop.
    pub edge: Edge,
    /// The loop variable.
    pub var: Ident,
    /// Lower bound (inclusive).
    pub lo: Expr,
    /// Upper bound (exclusive).
    pub hi: Expr,
    /// The accumulator's name.
    pub result_name: Ident,
    /// Hardware type of the accumulator.
    pub result_ty: Type,
    /// The accumulator's value before the loop starts.
    pub result_init: Expr,
    /// Statements run each cycle while the loop is active.
    pub body: Vec<SeqStmt>,
    /// Source span of the whole declaration.
    pub span: Span,
}

/// Where a `foreach` loop pulls its values from.
#[derive(Debug)]
pub enum ForEachSource {
    /// `foreach i in lo..hi`.
    Range {
        /// Lower bound (inclusive).
        lo: Expr,
        /// Upper bound (exclusive).
        hi: Expr,
    },
    /// `foreach x in arr` — each element of an array/`mem` signal.
    Elements(Ident),
}

/// `foreach <var> in <source> { ... }` — module-item-level sugar over `repeat`.
#[derive(Debug)]
pub struct ForEach {
    /// The bound name.
    pub var: Ident,
    /// Where the values come from.
    pub source: ForEachSource,
    /// Module items unrolled once per iteration.
    pub items: Vec<ModuleItem>,
    /// Source span of the whole block.
    pub span: Span,
}

/// `let name = Module(param: value) { port: signal, ... }`.
#[derive(Debug)]
pub struct Inst {
    /// The instance name.
    pub name: Ident,
    /// `let name[i] = ...` inside `repeat`.
    pub index: Option<Expr>,
    /// The module being instantiated.
    pub module: QualIdent,
    /// Compile-time parameter overrides.
    pub args: Vec<NamedArg>,
    /// Input/clock/reset connections.
    pub conns: Vec<Conn>,
    /// Source span of the whole instantiation.
    pub span: Span,
}

/// `name: value` — one parameter binding.
#[derive(Debug)]
pub struct NamedArg {
    /// The parameter name.
    pub name: Ident,
    /// The bound value.
    pub value: Expr,
}

/// `port: signal` — one port connection.
#[derive(Debug)]
pub struct Conn {
    /// The port being connected on the child module.
    pub port: Ident,
    /// The signal driving/read from it.
    pub signal: Expr,
}

/// Which clock edge a sequential block triggers on.
#[derive(Clone, Copy, Debug, PartialEq, Eq, Structural)]
pub enum Edge {
    /// `on rise(clk)`.
    Rise,
    /// `on fall(clk)`.
    Fall,
}

/// `on rise(clk) { ... }` / `on fall(clk) { ... }`.
#[derive(Debug)]
pub struct OnBlock {
    /// The triggering clock.
    pub clock: Ident,
    /// Which edge triggers this block.
    pub edge: Edge,
    /// Statements run on each trigger.
    pub body: Vec<SeqStmt>,
    /// Source span of the whole block.
    pub span: Span,
}

/// A statement inside an `on` block.
#[derive(Debug)]
pub enum SeqStmt {
    /// `lhs <- rhs`.
    Assign {
        /// The register, bit, or slice being assigned.
        lhs: LValue,
        /// The value assigned.
        rhs: Expr,
    },
    /// Statement-level `if`.
    If {
        /// The condition.
        cond: Expr,
        /// Statements when `cond` is true.
        then: Vec<SeqStmt>,
        /// Statements when `cond` is false, if written.
        els: Option<Vec<SeqStmt>>,
    },
    /// `default name <- expr` — lowest-priority register assignment.
    Default {
        /// The register being defaulted.
        name: Ident,
        /// The default value.
        val: Expr,
        /// Source span of the statement.
        span: Span,
    },
    /// `loop i: lo..hi { ... }` — compile-time unrolling.
    Loop {
        /// The loop variable.
        var: Ident,
        /// Lower bound (inclusive).
        lo: Expr,
        /// Upper bound (exclusive).
        hi: Expr,
        /// Statements unrolled once per iteration.
        body: Vec<SeqStmt>,
        /// Source span of the statement.
        span: Span,
    },
    /// `foreach <var> in <source> { ... }`.
    ForEach {
        /// The bound name.
        var: Ident,
        /// Where the values come from.
        source: ForEachSource,
        /// Statements unrolled once per iteration.
        body: Vec<SeqStmt>,
        /// Source span of the statement.
        span: Span,
    },
    /// A statement that failed to parse.
    Error(Span),
}

/// Assignment target: a signal, one bit of it, or a slice.
#[derive(Debug)]
pub struct LValue {
    /// The signal being assigned.
    pub base: Ident,
    /// `[i]` or `[hi:lo]`.
    pub index: Option<(Expr, Option<Expr>)>,
    /// Source span of the target.
    pub span: Span,
}

/// A hardware type. Widths are expressions, evaluated by the checker.
#[derive(Debug)]
pub enum Type {
    /// `bit`.
    Bit,
    /// `bits[N]`.
    Bits(Box<Expr>),
    /// `signed[N]`.
    Signed(Box<Expr>),
    /// Enum type by name.
    Named(QualIdent),
    /// Bundle type, possibly parametric.
    Bundle {
        /// The bundle type's name.
        name: QualIdent,
        /// Compile-time parameter overrides.
        args: Vec<NamedArg>,
    },
    /// `<elem>[N]` — a fixed-size array value.
    Array {
        /// Element type.
        elem: Box<Type>,
        /// Number of elements.
        len: Box<Expr>,
    },
}

/// `test "name" for Module(args) { ... }`.
#[derive(Debug)]
pub struct TestDecl {
    /// The quoted test name.
    pub name: String,
    /// The module under test.
    pub module: QualIdent,
    /// Parameter values for this test run.
    pub args: Vec<NamedArg>,
    /// Statements run in order.
    pub body: Vec<TestStmt>,
    /// Source span of the whole block.
    pub span: Span,
}

/// A statement inside a `test` block.
#[derive(Debug)]
pub enum TestStmt {
    /// `tick(clk)` / `tick(clk, n)`.
    Tick {
        /// The clock to advance.
        clock: Ident,
        /// Number of cycles; defaults to 1.
        count: Option<Expr>,
    },
    /// `expect expr`.
    Expect(Expr),
    /// `name = value`.
    Drive {
        /// The input port being driven.
        name: Ident,
        /// The value.
        value: Expr,
    },
    /// Statement-level `if`.
    If {
        /// The condition.
        cond: Expr,
        /// Statements when true.
        then: Vec<TestStmt>,
        /// Statements when false, if written.
        els: Option<Vec<TestStmt>>,
    },
    /// `sim { ... }`.
    Sim(SimBlock),
    /// A statement that failed to parse.
    Error(Span),
}

/// `sim { speed mhz(50)  bind audio -> speaker(...) }` inside a `test`.
#[derive(Debug)]
pub struct SimBlock {
    /// The declared clock rate in Hz, if given.
    pub speed: Option<Expr>,
    /// Peripheral bindings, in source order.
    pub binds: Vec<Bind>,
    /// Source span of the whole block.
    pub span: Span,
}

/// `bind <port> -> <peripheral>(args)`.
#[derive(Debug)]
pub struct Bind {
    /// The module port being bound.
    pub port: Ident,
    /// The peripheral kind.
    pub peripheral: Ident,
    /// Peripheral configuration values.
    pub args: Vec<BindArg>,
    /// Source span of the statement.
    pub span: Span,
}

/// One `name: value` inside a `bind(...)` peripheral config.
#[derive(Debug)]
pub struct BindArg {
    /// The config key.
    pub name: Ident,
    /// The config value.
    pub value: BindArgValue,
    /// Source span of the pair.
    pub span: Span,
}

/// The value shape for a [`BindArg`].
#[derive(Debug)]
pub enum BindArgValue {
    /// A bare word.
    Ident(String),
    /// A quoted string.
    Str(String),
    /// An integer literal.
    Int(u128),
}

} // verus!
