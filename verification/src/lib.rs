//! An in-memory full-text index over JSON documents: tokenisation, an inverted
//! index with hybrid ranking, structured filters and a paging pipeline.

pub mod filter;
pub mod index;
pub mod json;
pub mod laws;
pub mod lp;
pub mod pipeline;
pub mod rank;
pub mod registry;
pub mod sort;
pub mod text;
