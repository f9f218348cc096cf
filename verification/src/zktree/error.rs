//! Errors of the Merkle tree adapter.
use vstd::prelude::*;

verus! {

/// What was wrong with a request.
#[derive(Debug, PartialEq, Eq, Structural, Clone, Copy)]
pub enum MerkleErrorCode {
    InvalidLeafIndex,
    InvalidHash,
    InvalidDepth,
    InvalidIndex,
}

impl MerkleErrorCode {
    /// The name of the code.
    pub fn name(&self) -> (r: &'static str)
        ensures
            r@ == self.name_view(),
    {
        proof {
            reveal_strlit("InvalidLeafIndex");
            reveal_strlit("InvalidHash");
            reveal_strlit("InvalidDepth");
            reveal_strlit("InvalidIndex");
        }
        match self {
            MerkleErrorCode::InvalidLeafIndex => "InvalidLeafIndex",
            MerkleErrorCode::InvalidHash => "InvalidHash",
            MerkleErrorCode::InvalidDepth => "InvalidDepth",
            MerkleErrorCode::InvalidIndex => "InvalidIndex",
        }
    }

    pub open spec fn name_view(&self) -> Seq<char> {
        match self {
            MerkleErrorCode::InvalidLeafIndex => "InvalidLeafIndex"@,
            MerkleErrorCode::InvalidHash => "InvalidHash"@,
            MerkleErrorCode::InvalidDepth => "InvalidDepth"@,
            MerkleErrorCode::InvalidIndex => "InvalidIndex"@,
        }
    }
}

/// A failed request: the hash and index it was about, and why it failed;
/// or a failure of the store, with its message.
#[derive(Debug, PartialEq, Eq, Clone)]
pub enum MerkleError {
    WithErrorCode([u8; 32], u64, MerkleErrorCode),
    Store(String),
}

impl MerkleError {
    /// The error for `hash` at `index` with `code`.
    pub fn new(hash: [u8; 32], index: u64, code: MerkleErrorCode) -> (r: Self)
        ensures
            r == MerkleError::WithErrorCode(hash, index, code),
    {
        MerkleError::WithErrorCode(hash, index, code)
    }
}

pub type MerkleResult<T> = Result<T, MerkleError>;

} // verus!
