//! Permissive parsing of bracketed, quoted and separator-delimited text into
//! an ordered tree, with head/tail navigation over the result.
//!
//! `"hello(peter,dave)"` reads as a branch of the leaf `hello` and a branch
//! of the leaves `peter` and `dave`. The same tree can be built by chained
//! calls: `br().sib_lf("hello").sib(br().sib_lf("peter").sib_lf("dave"))`.

pub mod strings;
pub mod model;
pub mod tree;
pub mod tail;
pub mod iter;
pub mod syntax;
pub mod parser;
pub mod render;
pub mod laws;

pub use iter::BracketIter;
pub use tail::{EMPTY_BRACKET, EMPTY_B_SLICE, Tail};
pub use tree::{Bracket, br, lf};
