//! The store a Merkle tree keeps its nodes and leaf data in.
use vstd::prelude::*;
use crate::zktree::record::{MerkleRecord, DataHashRecord};

verus! {

/// The key a node is stored under: its index and its hash.
pub open spec fn record_key(r: MerkleRecord) -> (u64, [u8; 32]) {
    (r.index, r.hash)
}

/// `records` written one after the other into `m`.
pub open spec fn insert_records(
    m: Map<(u64, [u8; 32]), MerkleRecord>,
    records: Seq<MerkleRecord>,
) -> Map<(u64, [u8; 32]), MerkleRecord>
    decreases records.len(),
{
    if records.len() == 0 {
        m
    } else {
        insert_records(m, records.drop_last()).insert(record_key(records.last()), records.last())
    }
}

/// A store of tree nodes, keyed by index and hash, and of leaf data, keyed
/// by the data's hash. Reads and writes may fail (`Err` with a message).
pub trait MerkleDB: Sized {
    /// The store's own consistency condition.
    spec fn inv(&self) -> bool;

    /// The stored nodes.
    spec fn records(&self) -> Map<(u64, [u8; 32]), MerkleRecord>;

    /// The stored leaf data.
    spec fn data_hashes(&self) -> Map<[u8; 32], Seq<u8>>;

    /// Whether an operation of a store of this kind may fail with the
    /// message `msg`.
    spec fn fails_with(msg: Seq<char>) -> bool;

    /// The node stored under `index` and `hash`, if any.
    fn get_record(&self, index: u64, hash: &[u8; 32]) -> (r: Result<Option<MerkleRecord>, String>)
        requires
            self.inv(),
        ensures
            r matches Ok(Some(rec)) ==> {
                &&& self.records().contains_key((index, *hash))
                &&& rec == self.records()[(index, *hash)]
                &&& rec.index == index
                &&& rec.hash == *hash
            },
            r matches Ok(None) ==> !self.records().contains_key((index, *hash)),
            r matches Err(m) ==> Self::fails_with(m@),
    ;

    /// Stores `record` under its index and hash.
    fn update_record(&mut self, record: MerkleRecord) -> (r: Result<(), String>)
        requires
            old(self).inv(),
        ensures
            final(self).inv(),
            r is Ok ==> final(self).records() == old(self).records().insert(record_key(record), record),
            r is Ok ==> final(self).data_hashes() == old(self).data_hashes(),
            r matches Err(m) ==> Self::fails_with(m@),
    ;

    /// Stores each of `records`, in order.
    fn batch_update_records(&mut self, records: &Vec<MerkleRecord>) -> (r: Result<(), String>)
        requires
            old(self).inv(),
        ensures
            final(self).inv(),
            r is Ok ==> final(self).records() == insert_records(old(self).records(), records@),
            r is Ok ==> final(self).data_hashes() == old(self).data_hashes(),
            r matches Err(m) ==> Self::fails_with(m@),
    ;

    /// The data stored under `hash`, if any.
    fn get_data_by_hash(&self, hash: &[u8; 32]) -> (r: Result<Option<DataHashRecord>, String>)
        requires
            self.inv(),
        ensures
            r matches Ok(Some(d)) ==> {
                &&& self.data_hashes().contains_key(*hash)
                &&& d.hash == *hash
                &&& d.data@ == self.data_hashes()[*hash]
            },
            r matches Ok(None) ==> !self.data_hashes().contains_key(*hash),
            r matches Err(m) ==> Self::fails_with(m@),
    ;

    /// Stores the data of `record` under its hash.
    fn update_data_hash(&mut self, record: DataHashRecord) -> (r: Result<(), String>)
        requires
            old(self).inv(),
        ensures
            final(self).inv(),
            r is Ok ==> final(self).data_hashes() == old(self).data_hashes().insert(record.hash, record.data@),
            r is Ok ==> final(self).records() == old(self).records(),
            r matches Err(m) ==> Self::fails_with(m@),
    ;
}

} // verus!
