//! Rumoca: a Modelica compiler library.
//!
//! The crate parses Modelica source text into an abstract syntax tree,
//! formats it back to text, and performs the structural analyses used on
//! the resulting equation systems (maximum matching, strongly connected
//! components, block lower triangular ordering, index reduction and tearing).
pub mod ast;
pub mod text;
pub mod matching;
pub mod scc;
pub mod lexer;
pub mod parser;
pub mod printer;
pub mod formatter;
pub mod compiler;
pub mod blt;
pub mod names;
pub mod structural;
pub mod code_lens;
pub mod types;
pub mod outline;
pub mod flat;
pub mod dae;
pub mod diagnostics;
pub mod lint;
pub mod rename;
pub mod semantic_tokens;
pub mod hover;
pub mod references;
pub mod undefined;
pub mod scope;
pub mod completion;
