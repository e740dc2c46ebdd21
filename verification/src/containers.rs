//! Containers keyed by packed entities.

pub mod entity_map;
