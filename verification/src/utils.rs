//! Small building blocks: integer subscripts, bit sets, a slot block with a
//! free list, and unchecked vector removal.

pub mod subscript;

pub use subscript::Subscript;
pub mod hive;
pub mod vec_unchecked;
