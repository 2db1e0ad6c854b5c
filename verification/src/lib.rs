//! Knowledge graph over a source tree: extraction of items and imports,
//! relationship analysis, path resolution and graph queries.

pub mod analysis;
pub mod builder;
pub mod cache;
pub mod centrality;
pub mod cli;
pub mod config;
pub mod cycles;
pub mod errors;
pub mod graph;
pub mod inspect;
pub mod laws;
pub mod lookup;
pub mod model;
pub mod parser;
pub mod paths;
pub mod query;
pub mod regexes;
pub mod report;
pub mod resolver;
pub mod saved;
pub mod shortest_path;
pub mod table;
pub mod text;
pub mod traversal;
pub mod visualization;
