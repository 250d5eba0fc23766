//! A small content-addressed object store: typed objects (blobs and trees),
//! their canonical byte encoding, content hashes, storage keys and the
//! binary layout of tree bodies.

pub mod command;
pub mod decimal;
pub mod error;
pub mod object;
pub mod outside;
pub mod scan;
pub mod tree;
