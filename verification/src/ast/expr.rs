//! Expression nodes, patterns, and operators. Re-exported through
//! `ast::*` so consumers never see the split.

use vstd::prelude::*;

use super::Ident;
use crate::span::Span;
use crate::text::str_eq;

verus! {

/// An expression: the kind plus where it was written.
#[derive(Debug)]
pub struct Expr {
    /// The expression's shape and operands.
    pub kind: ExprKind,
    /// Source span of the expression.
    pub span: Span,
}

/// Every expression form in the language. All expressions are
/// combinational — there are no side effects.
#[derive(Debug)]
pub enum ExprKind {
    /// Integer literal; `raw` keeps the spelling (`0b1010`, `0xFF`, `42`).
    Int {
        /// The literal's numeric value.
        value: u128,
        /// The literal exactly as written.
        raw: String,
    },
    /// `true` / `false` (a 1-bit value).
    Bool(bool),
    /// A signal, parameter, or constant name.
    Ident(String),
    /// `base.field` — enum variant (`State.Red`) or instance port (`add.sum`).
    Field {
        /// The expression being projected from.
        base: Box<Expr>,
        /// The field, variant, or port name after the dot.
        field: Ident,
    },
    /// `-x`, `~x`, `!x`, or a reduction (`&x`/`|x`/`^x`).
    Unary {
        /// Which unary operator.
        op: UnOp,
        /// The operand.
        expr: Box<Expr>,
    },
    /// A two-operand arithmetic, comparison, bitwise, or logical expression.
    Binary {
        /// Which binary operator.
        op: BinOp,
        /// Left operand.
        lhs: Box<Expr>,
        /// Right operand.
        rhs: Box<Expr>,
    },
    /// `if c { a } else { b }` — `else` is mandatory (no inferred latches).
    IfExpr {
        /// The condition; must be 1-bit.
        cond: Box<Expr>,
        /// Value when `cond` is true.
        then: Box<Expr>,
        /// Value when `cond` is false.
        els: Box<Expr>,
    },
    /// `match x { pat => val, ... }` — must be exhaustive.
    Match {
        /// The value being matched.
        scrutinee: Box<Expr>,
        /// Arms tried in order; the first matching pattern wins.
        arms: Vec<Arm>,
    },
    /// `{a, b, c}` — bit concatenation, widest part first.
    Concat(Vec<Expr>),
    /// `{N{a, b}}` — replication of the inner concatenation `count` times.
    Replicate {
        /// How many times to repeat `parts`; must const-evaluate.
        count: Box<Expr>,
        /// The concatenation being repeated.
        parts: Vec<Expr>,
    },
    /// `base[i]` — single-bit select.
    Index {
        /// The vector being indexed.
        base: Box<Expr>,
        /// The bit position.
        index: Box<Expr>,
    },
    /// `base[hi:lo]` — bit slice, both bounds inclusive.
    Slice {
        /// The vector being sliced.
        base: Box<Expr>,
        /// Upper bound (inclusive).
        hi: Box<Expr>,
        /// Lower bound (inclusive).
        lo: Box<Expr>,
    },
    /// A builtin call.
    Call {
        /// Which builtin.
        func: Builtin,
        /// Argument expressions, positional.
        args: Vec<Expr>,
    },
    /// A call to a user-defined combinational function.
    FnCall {
        /// The function being called.
        name: Ident,
        /// Positional arguments, one per parameter.
        args: Vec<Expr>,
    },
    /// `{ field: expr, ... }` — a bundle literal.
    BundleLit(Vec<FieldInit>),
    /// `[e1, e2, ..., eN]` — an array literal.
    ArrayLit(Vec<Expr>),
    /// `Enum.Variant(arg1, ...)` — constructs a (possibly payload-carrying)
    /// enum value; `args` are positional in the variant's field order.
    EnumConstruct {
        /// The enum type name.
        enum_name: Ident,
        /// The variant name.
        variant: Ident,
        /// Positional arguments, one per payload field.
        args: Vec<Expr>,
    },
}

/// One field initializer in a bundle literal: `valid: expr`.
#[derive(Debug)]
pub struct FieldInit {
    /// Field name as written.
    pub name: Ident,
    /// The expression driving this field.
    pub value: Expr,
    /// Source span of the `name: expr` pair.
    pub span: Span,
}

/// One `match` arm: `pat1, pat2 => value` (patterns OR together).
#[derive(Debug)]
pub struct Arm {
    /// Patterns for this arm, OR'd together.
    pub patterns: Vec<Pattern>,
    /// The value produced when any pattern matches.
    pub value: Expr,
}

/// What a `match` arm can match on.
#[derive(Clone, Debug)]
pub enum Pattern {
    /// An exact integer literal.
    Int {
        /// The literal's numeric value.
        value: u128,
        /// The literal exactly as written.
        raw: String,
    },
    /// `0b1??` — a binary literal with don't-care bits.
    IntMask {
        /// The bits that must match (don't-care bits are 0 here).
        value: u128,
        /// 1 where the bit is checked, 0 where it's a don't-care.
        mask: u128,
        /// Digit count as written.
        width: u32,
        /// The literal exactly as written.
        raw: String,
    },
    /// `true` / `false`.
    Bool(bool),
    /// `Enum.Variant` or `Enum.Variant(b1, b2, ...)`.
    Variant {
        /// The enum type name.
        enum_name: Ident,
        /// The variant name.
        variant: Ident,
        /// Positional binding names (empty for tag-only patterns).
        bindings: Vec<Ident>,
    },
    /// `_` — catch-all.
    Wildcard,
}

/// Unary (prefix) operators.
#[derive(Clone, Copy, Debug, PartialEq, Eq, Structural)]
pub enum UnOp {
    /// `-x` — signed only, lossless.
    Neg,
    /// `~x`
    BitNot,
    /// `!x` / `not x`
    LogicNot,
    /// `&x` — AND-reduction.
    RedAnd,
    /// `|x` — OR-reduction.
    RedOr,
    /// `^x` — XOR-reduction.
    RedXor,
}

/// Binary operators. `Add`/`Sub`/`Mul` are lossless (the result grows);
/// the `*Wrap` family keeps the operand width and wraps.
#[derive(Clone, Copy, Debug, PartialEq, Eq, Structural)]
pub enum BinOp {
    /// `+`
    Add,
    /// `-`
    Sub,
    /// `*`
    Mul,
    /// `+%`
    AddWrap,
    /// `-%`
    SubWrap,
    /// `*%`
    MulWrap,
    /// `<<`
    Shl,
    /// `>>`
    Shr,
    /// `&`
    BitAnd,
    /// `|`
    BitOr,
    /// `^`
    BitXor,
    /// `==`
    Eq,
    /// `!=`
    Ne,
    /// `<`
    Lt,
    /// `<=`
    Le,
    /// `>`
    Gt,
    /// `>=`
    Ge,
    /// `&&` / `and`
    LogicAnd,
    /// `||` / `or`
    LogicOr,
}

/// The built-in functions — the complete list.
#[derive(Clone, Copy, Debug, PartialEq, Eq, Structural)]
pub enum Builtin {
    /// `extend(x, N)`
    Extend,
    /// `trunc(x, N)`
    Trunc,
    /// `signed(x)`
    SignedCast,
    /// `unsigned(x)`
    UnsignedCast,
    /// `min(a, b)`
    Min,
    /// `max(a, b)`
    Max,
    /// `abs(x)`
    Abs,
    /// `nand(x)`
    Nand,
    /// `nor(x)`
    Nor,
    /// `xnor(x)`
    Xnor,
    /// `clog2(n)` — the one compile-time builtin.
    Clog2,
    /// `sync.double_flop(signal, src_clock, dst_clock)` — a two-stage
    /// synchronizer for a single bit crossing clock domains.
    SyncDoubleFlop,
    /// `sync.pulse(signal, src_clock, dst_clock)` — a toggle-based pulse
    /// synchronizer.
    SyncPulse,
}

/// The builtin a spelling names, with its arity (the table behind
/// [`Builtin::from_name`]).
pub open spec fn builtin_table(name: Seq<char>) -> Option<(Builtin, usize)> {
    if name == "extend"@ { Some((Builtin::Extend, 2)) }
    else if name == "trunc"@ { Some((Builtin::Trunc, 2)) }
    else if name == "signed"@ { Some((Builtin::SignedCast, 1)) }
    else if name == "unsigned"@ { Some((Builtin::UnsignedCast, 1)) }
    else if name == "min"@ { Some((Builtin::Min, 2)) }
    else if name == "max"@ { Some((Builtin::Max, 2)) }
    else if name == "abs"@ { Some((Builtin::Abs, 1)) }
    else if name == "nand"@ { Some((Builtin::Nand, 1)) }
    else if name == "nor"@ { Some((Builtin::Nor, 1)) }
    else if name == "xnor"@ { Some((Builtin::Xnor, 1)) }
    else if name == "clog2"@ { Some((Builtin::Clog2, 1)) }
    else { None }
}

/// How many arguments a builtin's documented call form takes:
/// `extend(x, N)`, `trunc(x, N)`, `min(a, b)` and `max(a, b)` two, the
/// synchronizers (`signal, src_clock, dst_clock`) three, the rest one.
pub open spec fn call_arity(b: Builtin) -> usize {
    match b {
        Builtin::Extend | Builtin::Trunc | Builtin::Min | Builtin::Max => 2,
        Builtin::SyncDoubleFlop | Builtin::SyncPulse => 3,
        _ => 1,
    }
}

/// Every builtin spelling maps to a builtin called with as many
/// arguments as its documented call form has.
pub proof fn lemma_builtin_arity(name: Seq<char>)
    ensures
        builtin_table(name) matches Some((b, n)) ==> n == call_arity(b),
{
}

impl Builtin {
    /// Map a spelling to its variant and arity; `None` if not a builtin.
    pub fn from_name(name: &str) -> (r: Option<(Builtin, usize)>)
        ensures
            r == builtin_table(name@),
            r matches Some((b, n)) ==> n == call_arity(b),
    {
        proof {
            lemma_builtin_arity(name@);
        }
        if str_eq(name, "extend") { Some((Builtin::Extend, 2)) }
        else if str_eq(name, "trunc") { Some((Builtin::Trunc, 2)) }
        else if str_eq(name, "signed") { Some((Builtin::SignedCast, 1)) }
        else if str_eq(name, "unsigned") { Some((Builtin::UnsignedCast, 1)) }
        else if str_eq(name, "min") { Some((Builtin::Min, 2)) }
        else if str_eq(name, "max") { Some((Builtin::Max, 2)) }
        else if str_eq(name, "abs") { Some((Builtin::Abs, 1)) }
        else if str_eq(name, "nand") { Some((Builtin::Nand, 1)) }
        else if str_eq(name, "nor") { Some((Builtin::Nor, 1)) }
        else if str_eq(name, "xnor") { Some((Builtin::Xnor, 1)) }
        else if str_eq(name, "clog2") { Some((Builtin::Clog2, 1)) }
        else { None }
    }
}

} // verus!
