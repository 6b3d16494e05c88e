//! Min-Mozhi core: the shared AST, its lowering passes, compile-time
//! arithmetic, the semantic checker, and editor analysis.

pub mod span;
pub mod diag;
pub mod text;
pub mod ast;
pub mod wide;
pub mod bits;
pub mod checker;
pub mod analysis;
