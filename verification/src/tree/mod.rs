pub mod keys;
pub mod kvmap;
pub mod error;
pub mod operation;
pub mod merkle;
pub mod couple;
pub mod tree;
pub mod mem;
pub mod common;
pub mod cache;
pub mod prefix;
pub mod iter;
pub mod mpt;
pub mod smt;
pub mod rocks;
