//! A dependency-ordering and fixpoint-resolution engine for feed pipelines.
//!
//! A configuration declares named *sources* (feeds fetched from a locator),
//! named *filters* (text-containment predicates chained over named inputs)
//! and a list of *output* names.  The library validates the declarations
//! into a node registry, expands the outputs backward along dependency
//! edges into a linear processing queue, and repeatedly walks that queue
//! until every node is resolved or a full pass makes no progress.

pub mod entry;
pub mod feed;
pub mod graph;
pub mod plan;
pub mod resolve;
pub mod text;
