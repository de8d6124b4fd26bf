//! An in-memory B+ tree index from unsigned keys to values, with a
//! forward chain over its leaves for ordered range scans.
pub mod node;
pub mod model;
pub mod tree;
pub mod store;
