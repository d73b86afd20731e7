//! An LR(1) parser generator and runtime.
//!
//! A grammar is accumulated as a sequence of production rules plus a start
//! symbol ([`Lr1ParserBuilder`]), analyzed (FIRST sets, LR(1) item-set
//! closures, the canonical collection of states), and turned into
//! deterministic action/goto tables ([`Parser`]). The parser then runs a
//! shift-reduce parse of a token sequence against those tables and reports
//! the sequence of actions it took.

pub mod lr1;
pub mod parser;
pub mod rule;
pub mod tables;

pub use lr1::BuildError;
pub use lr1::Lr1Item;
pub use lr1::Lr1ParserBuilder;
pub use parser::Action;
pub use parser::ParseError;
pub use parser::Parser;
pub use rule::Rule;
pub use rule::Symbol;
