//! Duplicate-file detection engine: an ordered comparison tree over file
//! descriptors, keyed by size first and by content digest only when two
//! files already share a size. Digests are computed lazily, at most once
//! per descriptor; files proven content-identical are linked into a
//! duplicate chain hanging off a single tree-visible descriptor.
pub mod descriptor;
pub mod digest;
pub mod tree;
