//! Bidirectional compiler between the textual notation for
//! interaction-combinator programs and the compact graph encoding consumed by
//! a parallel graph-rewriting evaluator: a parser from text to syntax trees, a
//! graph builder, a readback procedure reconstructing trees from a graph
//! snapshot, and an exact stringifier.

pub mod ast;
pub mod compile;
pub mod graph;
pub mod laws;
pub mod lex;
pub mod numb;
pub mod parse;
pub mod readback;
