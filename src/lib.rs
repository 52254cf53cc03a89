//! A small content-addressed version-control engine: an object store with
//! binary framing, a staging index, a tree builder, commit-graph walking and
//! a path-level three-way merge.

pub mod checkout;
pub mod cli;
pub mod codec;
pub mod commit;
pub mod config;
pub mod diff;
pub mod error;
pub mod ignore;
pub mod index;
pub mod log;
pub mod merge;
pub mod mode;
pub mod object;
pub mod refs;
pub mod tree;
