//! Join/evaluation core of a federated query engine over heterogeneous data
//! sources: mapping-graph ingestion, query-tree compilation, datasource
//! catalogs, and a post-order evaluation engine with a small transformation
//! language.

pub mod text;
pub mod error;
pub mod transform;
pub mod document;
pub mod query;
pub mod tree;
pub mod datasource;
pub mod mapping;
pub mod graph;
pub mod pipeline;
pub mod engine;
pub mod connector;
pub mod markup;
