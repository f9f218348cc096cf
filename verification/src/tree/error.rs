//! Errors of the tree stores.
use vstd::prelude::*;

verus! {

/// What a store operation can fail with. Failures of an underlying storage
/// engine are carried as their message.
#[derive(Debug, PartialEq, Eq)]
pub enum TreeError {
    Unknown,
    Other(String),
    Store(String),
    AccountNotExist,
    AccountAlreadyExist,
    OrderAlreadyExist,
    ConvertStateRootError(String),
    RocksDBError(String),
    MerkError(String),
}

pub type TreeResult<T> = Result<T, TreeError>;

} // verus!
