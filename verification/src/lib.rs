//! A verified query engine over program scope graphs: dotted,
//! wildcard-capable symbol path queries are parsed into segments, matched
//! against an immutable graph of declarations, references and imports, and
//! answered with source locations.

pub mod seqs;
pub mod strings;
pub mod pattern;
pub mod search;
pub mod results;
pub mod graph;
pub mod namespace;
pub mod matcher;
pub mod query;
pub mod find_node;
