//! Code knowledge-graph analysis: symbols, relationship resolution,
//! community and execution-flow detection, and the query-side logic that
//! turns stored graph data into answers.

pub mod sorting;
pub mod text;
pub mod paths;
pub mod parser;
pub mod scanner;
pub mod storage;
pub mod analyzer;
pub mod query;
pub mod eval;
pub mod indexing;
pub mod embedding;
pub mod cli;
