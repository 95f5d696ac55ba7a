//! Core engine of an image sorting tool: an ordered, cursor-navigable
//! collection of image filenames, a categorized move/rename planner, a
//! persisted corpus of category tags, and a fuzzy suggestion service with a
//! bounded memoization cache.
//!
//! All file-system work (listing a directory, copying and deleting files,
//! reading and writing the corpus file) is left to the embedding program,
//! which hands this library plain values and carries out the plans and
//! serialized texts it returns.

pub mod chars;
pub mod predicate;
pub mod categories;
pub mod collection;
pub mod data_store;
pub mod segments;
pub mod suggest;
