//! The destroy and repair operators of the search.
pub mod destroy_ops;
pub mod repair_ops;
