//! An entity–component storage library: typed entity handles with
//! generational versions, sparse entity maps, a slot block with a free list,
//! and the bookkeeping of a component tree.

use vstd::prelude::*;

pub mod entity_fields;
pub mod entity;
pub mod utils;
pub mod entity_map;
pub mod bit_set;
pub mod containers;
pub mod component;
pub mod world;
