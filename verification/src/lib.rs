//! A hierarchical store of notes kept as plain files and directories.
//!
//! The library holds the rules of the store. `path` says which identifiers
//! are admissible and where they resolve; `ops` decides, from what stands on
//! disk, the one filesystem step that each store operation comes down to;
//! `tree` puts a folder's children into the order in which they are
//! reported; `disk` says what each step does to the tree, on a tree held in
//! memory; `store` is the store on such a tree; `laws` states what holds of
//! all of them. The filesystem itself is touched by the host, which looks,
//! lets the library decide, and performs the step decided on.

pub mod disk;
pub mod error;
pub mod laws;
pub mod ops;
pub mod path;
pub mod store;
pub mod tree;
