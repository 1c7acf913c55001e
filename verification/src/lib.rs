//! Static type-information generator for a package ecosystem described by a
//! tree-structured project description ("sourcemap").
//!
//! The pipeline builds a queryable index from the sourcemap, resolves
//! require-style module references found in source text against that index,
//! discovers the exported type declarations of each package, and rewrites the
//! managed region of each package's link file to carry forwarding
//! declarations.  The whole core works on plain byte strings; reading and
//! writing files is left to the caller.

pub mod bytes;
pub mod lines;
pub mod sourcemap;
pub mod require_parser;
pub mod link_mutator;
pub mod orchestrator;
