//! Materialized views and their versions.

pub mod registry;
pub mod version_map;
