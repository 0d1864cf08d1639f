//! Conversion core for a legacy binary package index: dependency-closure
//! graph building, deterministic sequencing, a bounded fetch-and-hash
//! pipeline, grouping of fetched artifacts by source package, and assembly
//! of the recipe parameters emitted for each source group.

pub mod catalog;
pub mod converter;
pub mod eopkg;
pub mod fetch;
pub mod graph;
pub mod grouping;
pub mod uri;
