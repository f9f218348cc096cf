//! Requests for proofs and proof checks, and their answers.
use vstd::prelude::*;
use crate::tree::kvmap::{KvMap, opt_bytes};

verus! {

/// A request for a proof of the listed keys.
pub struct SimpleProveRequest {
    pub query: Vec<Vec<u8>>,
}

impl Default for SimpleProveRequest {
    fn default() -> (r: Self)
        ensures
            r.query@.len() == 0,
    {
        SimpleProveRequest { query: Vec::new() }
    }
}

impl SimpleProveRequest {
    /// Adds a key to the query.
    pub fn insert(&mut self, k: Vec<u8>)
        ensures
            final(self).query@ == old(self).query@.push(k),
    {
        self.query.push(k)
    }
}

/// A request for a proof of the listed keys against a trie root.
pub struct MPTProveRequest {
    pub root: [u8; 32],
    pub query: Vec<Vec<u8>>,
}

pub enum ProveRequestEnums {
    SimpleProve(SimpleProveRequest),
    MPTProve(MPTProveRequest),
}

pub enum ProveResponseEnums {
    SimpleProve(SimpleProveResponse),
    MPTProve(MPTProveResponse),
}

pub struct SimpleProveResponse {
    pub proof: Vec<u8>,
}

pub struct MPTProveResponse {
    pub proof: Vec<Vec<u8>>,
}

impl MPTProveResponse {
    /// A response carrying `proof`.
    pub fn new(proof: Vec<Vec<u8>>) -> (r: Self)
        ensures
            r.proof == proof,
    {
        Self { proof }
    }
}

pub enum VerifyRequestEnums {
    SimpleVerify(SimpleVerifyRequest),
    MPTVerify(MPTVerifyRequest),
}

/// A proof to check against an expected root, with the key-value pairs it
/// must show.
pub struct SimpleVerifyRequest {
    pub proof: Vec<u8>,
    pub expected_root: [u8; 32],
    pub kv: KvMap,
}

/// A trie proof to check, with the queried keys and their expected values.
pub struct MPTVerifyRequest {
    pub proof: Vec<Vec<u8>>,
    pub root: [u8; 32],
    pub query: Vec<(Vec<u8>, Option<Vec<u8>>)>,
}

impl SimpleVerifyRequest {
    /// A request with no key-value pairs yet.
    pub fn new(proof: Vec<u8>, expected_root: [u8; 32]) -> (r: Self)
        ensures
            r.proof == proof,
            r.expected_root == expected_root,
            r.kv.wf(),
            r.kv.view_map() == Map::<Seq<u8>, Option<Seq<u8>>>::empty(),
    {
        Self { proof, expected_root, kv: KvMap::new() }
    }

    /// Adds a pair the proof must show; a later pair for the same key
    /// replaces an earlier one.
    pub fn insert(&mut self, k: Vec<u8>, v: Vec<u8>)
        requires
            old(self).kv.wf(),
        ensures
            final(self).kv.wf(),
            final(self).kv.view_map() == old(self).kv.view_map().insert(k@, Some(v@)),
            final(self).proof == old(self).proof,
            final(self).expected_root == old(self).expected_root,
    {
        let ghost vv = opt_bytes(Some(v));
        self.kv.insert(k, Some(v));
    }
}

/// Whether a proof checked out.
pub struct VerifyResponse {
    pub valid: bool,
}

impl Default for VerifyResponse {
    fn default() -> (r: Self)
        ensures
            !r.valid,
    {
        VerifyResponse { valid: false }
    }
}

} // verus!
