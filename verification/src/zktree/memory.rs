//! A node and data store held in memory.
use vstd::prelude::*;
use crate::zktree::record::{MerkleRecord, DataHashRecord};
use crate::zktree::db::{MerkleDB, record_key, insert_records};
use crate::zktree::keyed::{unique_keys, has_key, keyed_map, lemma_keyed_at, lemma_keyed_absent, lemma_keyed_update, lemma_keyed_push};
use crate::zktree::merkle::hash_eq;
use crate::tree::keys::key_to_vec;

verus! {

/// The table entry of a node.
pub open spec fn record_entry(r: MerkleRecord) -> ((u64, [u8; 32]), MerkleRecord) {
    (record_key(r), r)
}

/// The table entry of leaf data.
pub open spec fn data_entry(d: DataHashRecord) -> ([u8; 32], Seq<u8>) {
    (d.hash, d.data@)
}

/// Nodes and leaf data, each kept once per key.
pub struct DefaultMemoryDB {
    data: Vec<MerkleRecord>,
    data_hash: Vec<DataHashRecord>,
}

impl DefaultMemoryDB {
    /// The node table.
    pub closed spec fn record_table(&self) -> Seq<((u64, [u8; 32]), MerkleRecord)> {
        self.data@.map_values(|r: MerkleRecord| record_entry(r))
    }

    /// The data table.
    pub closed spec fn data_table(&self) -> Seq<([u8; 32], Seq<u8>)> {
        self.data_hash@.map_values(|d: DataHashRecord| data_entry(d))
    }

    /// An empty store.
    pub fn new() -> (r: Self)
        ensures
            r.inv(),
            r.records() == Map::<(u64, [u8; 32]), MerkleRecord>::empty(),
            r.data_hashes() == Map::<[u8; 32], Seq<u8>>::empty(),
    {
        let r = DefaultMemoryDB { data: Vec::new(), data_hash: Vec::new() };
        proof {
            assert(r.records() =~= Map::<(u64, [u8; 32]), MerkleRecord>::empty());
            assert(r.data_hashes() =~= Map::<[u8; 32], Seq<u8>>::empty());
        }
        r
    }

    /// The position of the node stored under `index` and `hash`.
    fn find_record(&self, index: u64, hash: &[u8; 32]) -> (r: Option<usize>)
        ensures
            r matches Some(i) ==> i < self.data@.len() && record_key(self.data@[i as int]) == (index, *hash),
            r is None ==> !has_key(self.record_table(), (index, *hash)),
    {
        let mut i: usize = 0;
        while i < self.data.len()
            invariant
                i <= self.data@.len(),
                forall|j: int| 0 <= j < i ==> record_key(#[trigger] self.data@[j]) != (index, *hash),
            decreases self.data@.len() - i,
        {
            if self.data[i].index == index && hash_eq(&self.data[i].hash, hash) {
                return Some(i);
            }
            i = i + 1;
        }
        proof {
            assert forall|j: int| 0 <= j < self.record_table().len() implies #[trigger] self.record_table()[j].0 != (index, *hash) by {
                assert(self.record_table()[j] == record_entry(self.data@[j]));
            }
        }
        None
    }

    /// The position of the data stored under `hash`.
    fn find_data(&self, hash: &[u8; 32]) -> (r: Option<usize>)
        ensures
            r matches Some(i) ==> i < self.data_hash@.len() && self.data_hash@[i as int].hash == *hash,
            r is None ==> !has_key(self.data_table(), *hash),
    {
        let mut i: usize = 0;
        while i < self.data_hash.len()
            invariant
                i <= self.data_hash@.len(),
                forall|j: int| 0 <= j < i ==> (#[trigger] self.data_hash@[j]).hash != *hash,
            decreases self.data_hash@.len() - i,
        {
            if hash_eq(&self.data_hash[i].hash, hash) {
                return Some(i);
            }
            i = i + 1;
        }
        proof {
            assert forall|j: int| 0 <= j < self.data_table().len() implies #[trigger] self.data_table()[j].0 != *hash by {
                assert(self.data_table()[j] == data_entry(self.data_hash@[j]));
            }
        }
        None
    }

    /// Stores `record` under its key, replacing what was there.
    fn put_record(&mut self, record: MerkleRecord)
        requires
            old(self).inv(),
        ensures
            final(self).inv(),
            final(self).records() == old(self).records().insert(record_key(record), record),
            final(self).data_hashes() == old(self).data_hashes(),
    {
        let ghost before = self.record_table();
        match self.find_record(record.index, &record.hash) {
            Some(i) => {
                self.data.set(i, record);
                proof {
                    assert(self.record_table() =~= before.update(i as int, record_entry(record)));
                    lemma_keyed_update(before, i as int, record_entry(record));
                }
            }
            None => {
                self.data.push(record);
                proof {
                    assert(self.record_table() =~= before.push(record_entry(record)));
                    lemma_keyed_push(before, record_entry(record));
                }
            }
        }
    }

    /// Splits `records` into those stored and those not, each in order.
    pub fn batch_get_merkle_records(&self, records: &Vec<MerkleRecord>) -> (r: Result<(Vec<MerkleRecord>, Vec<MerkleRecord>), String>)
        requires
            self.inv(),
        ensures
            r matches Ok((found, missing)) && found@ == records@.filter(|x: MerkleRecord| self.records().contains_key(record_key(x)))
                && missing@ == records@.filter(|x: MerkleRecord| !self.records().contains_key(record_key(x))),
    {
        let mut find: Vec<MerkleRecord> = Vec::new();
        let mut not_find: Vec<MerkleRecord> = Vec::new();
        let ghost stored = |x: MerkleRecord| self.records().contains_key(record_key(x));
        let ghost absent = |x: MerkleRecord| !self.records().contains_key(record_key(x));
        let mut i: usize = 0;
        while i < records.len()
            invariant
                i <= records@.len(),
                self.inv(),
                stored == (|x: MerkleRecord| self.records().contains_key(record_key(x))),
                absent == (|x: MerkleRecord| !self.records().contains_key(record_key(x))),
                find@ == records@.subrange(0, i as int).filter(stored),
                not_find@ == records@.subrange(0, i as int).filter(absent),
            decreases records@.len() - i,
        {
            let rec = records[i];
            let got = self.get_record(rec.index, &rec.hash);
            proof {
                let s = records@.subrange(0, i as int + 1);
                assert(s.drop_last() =~= records@.subrange(0, i as int));
                assert(s.last() == rec);
                records@.subrange(0, i as int).lemma_filter_push(rec, stored);
                records@.subrange(0, i as int).lemma_filter_push(rec, absent);
                assert(s =~= records@.subrange(0, i as int).push(rec));
            }
            match got {
                Ok(Some(_)) => {
                    find.push(rec);
                }
                _ => {
                    not_find.push(rec);
                }
            }
            i = i + 1;
        }
        proof {
            assert(records@.subrange(0, records@.len() as int) =~= records@);
        }
        Ok((find, not_find))
    }
}

impl MerkleDB for DefaultMemoryDB {
    open spec fn inv(&self) -> bool {
        &&& unique_keys(self.record_table())
        &&& unique_keys(self.data_table())
    }

    open spec fn records(&self) -> Map<(u64, [u8; 32]), MerkleRecord> {
        keyed_map(self.record_table())
    }

    open spec fn data_hashes(&self) -> Map<[u8; 32], Seq<u8>> {
        keyed_map(self.data_table())
    }

    open spec fn fails_with(msg: Seq<char>) -> bool {
        false
    }

    fn get_record(&self, index: u64, hash: &[u8; 32]) -> (r: Result<Option<MerkleRecord>, String>)
        ensures
            r is Ok,
    {
        match self.find_record(index, hash) {
            Some(i) => {
                proof {
                    assert(self.record_table()[i as int] == record_entry(self.data@[i as int]));
                    lemma_keyed_at(self.record_table(), i as int);
                }
                Ok(Some(self.data[i]))
            }
            None => Ok(None),
        }
    }

    fn update_record(&mut self, record: MerkleRecord) -> (r: Result<(), String>)
        ensures
            r is Ok,
    {
        self.put_record(record);
        Ok(())
    }

    fn batch_update_records(&mut self, records: &Vec<MerkleRecord>) -> (r: Result<(), String>)
        ensures
            r is Ok,
    {
        let ghost start = self.records();
        let ghost data0 = self.data_hashes();
        let mut i: usize = 0;
        while i < records.len()
            invariant
                i <= records@.len(),
                self.inv(),
                self.records() == insert_records(start, records@.subrange(0, i as int)),
                self.data_hashes() == data0,
            decreases records@.len() - i,
        {
            self.put_record(records[i]);
            proof {
                let s = records@.subrange(0, i as int + 1);
                assert(s.drop_last() =~= records@.subrange(0, i as int));
            }
            i = i + 1;
        }
        proof {
            assert(records@.subrange(0, records@.len() as int) =~= records@);
        }
        Ok(())
    }

    fn get_data_by_hash(&self, hash: &[u8; 32]) -> (r: Result<Option<DataHashRecord>, String>)
        ensures
            r is Ok,
    {
        match self.find_data(hash) {
            Some(i) => {
                proof {
                    assert(self.data_table()[i as int] == data_entry(self.data_hash@[i as int]));
                    lemma_keyed_at(self.data_table(), i as int);
                }
                let d = &self.data_hash[i];
                Ok(Some(DataHashRecord { hash: d.hash, data: key_to_vec(d.data.as_slice()) }))
            }
            None => Ok(None),
        }
    }

    fn update_data_hash(&mut self, record: DataHashRecord) -> (r: Result<(), String>)
        ensures
            r is Ok,
    {
        let ghost before = self.data_table();
        let ghost e = data_entry(record);
        match self.find_data(&record.hash) {
            Some(i) => {
                self.data_hash.set(i, record);
                proof {
                    assert(self.data_table() =~= before.update(i as int, e));
                    lemma_keyed_update(before, i as int, e);
                }
            }
            None => {
                self.data_hash.push(record);
                proof {
                    assert(self.data_table() =~= before.push(e));
                    lemma_keyed_push(before, e);
                }
            }
        }
        Ok(())
    }
}

} // verus!
