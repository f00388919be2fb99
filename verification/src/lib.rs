//! A politeness-aware web crawler core: a shared crawl frontier, a link
//! graph, a permissive anchor/href extractor with URL normalization, and a
//! robots-exclusion filter, together with a sequential crawl driver whose
//! termination and invariants are machine-checked.
//!
//! Network transport, policy acquisition and on-disk export formats are
//! external collaborators; this crate only exposes the data they need.

pub mod engine;
pub mod extract;
pub mod frontier;
pub mod graph;
pub mod render;
pub mod robots;
pub mod scan;
pub mod urls;
