//! An evaluator for combinatory logic over the SK basis.
//!
//! Terms are built from the primitive combinators `S` and `K`, free
//! variables, n-ary applications and named aliases.  The library rewrites
//! terms step by step by the SK reduction rules, drives them to normal form
//! under a step budget with memoized divergence detection, and produces a
//! canonical bit-level encoding of a term.

pub mod bitwriter;
pub mod cache;
pub mod display;
pub mod encode;
pub mod key;
pub mod normal;
pub mod reach;
pub mod rewrite;
pub mod step;
pub mod term;

pub use bitwriter::BitWriter;
pub use normal::Outcome;
pub use term::Combinator;
pub use term::Term;
