//! A lexer, run-length collapser, tree builder and tree-walking
//! interpreter for a minimal bracket-structured language over a growable
//! byte tape.  Eight single-character operators move a data pointer,
//! mutate the byte it addresses, emit output, or form a zero-test loop;
//! every other character is a comment.  The pipeline is [`parse`], which
//! lexes, collapses runs of repeated operators into counted operations and
//! builds a nested tree of loop bodies, and [`interpret`], which walks
//! that tree against a tape under a caller-supplied step budget.
//!
//! [`parse`]: parse::parse
//! [`interpret`]: interpreter::interpret

pub mod location;
pub mod token;
pub mod tree;
pub mod lex;
pub mod collapse;
pub mod parse;
pub mod interpreter;
