//! Syntactic mutants of smart-contract sources.
//!
//! Given the syntax tree of a source file and the file's bytes, the library
//! finds the places where a mutation operator applies, rewrites the source at
//! one such place per mutant, and keeps the rewritten texts that are new.

pub mod ast;
pub mod generator;
pub mod mutation;
pub mod parse;
pub mod random;
pub mod run;
pub mod text;

pub use ast::{Child, Everywhere, NodeTest, Nowhere, Role, SolAST};
pub use generator::{
    current_mid, next_mid, MutantCounter, MutantGenerator, MutateParams, MutationParams,
};
pub use mutation::{Choice, Mutation, MutationError, MutationType};
pub use parse::parse_span;
pub use run::{
    collect_points, keep_new, sample_mutants, AssertCall, Candidate, FunctionBoundary, Mutant,
    RunMutations, Sampling, ATTEMPTS,
};
pub use text::{replace_span, replace_spans, Edit};
