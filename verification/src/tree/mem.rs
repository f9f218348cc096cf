//! A store held in memory, keeping a copy of every committed state.
use vstd::prelude::*;
use crate::tree::keys::{lex_lt, key_to_vec};
use crate::tree::kvmap::{KvMap, present, opt_bytes, entry_view};
use crate::tree::error::{TreeResult, TreeError};
use crate::tree::operation::{Operation, OpView, RollBackOperation, apply_ops, apply_op, no_aux, ops_view};
use crate::tree::merkle::MerkleRocksDBConfiguration;
use crate::tree::couple::{ProveRequestEnums, ProveResponseEnums, SimpleProveResponse, VerifyRequestEnums, VerifyResponse};
use crate::tree::tree::{KvState, Read, Write, Batch, DB, TreeDB, RootHash, KV, lookup, next_result};

verus! {

/// The root hash a memory store reports.
pub const MOCK_ROOT_HASH: [u8; 32] = [
    109, 111, 99, 107, 109, 111, 99, 107, 109, 111, 99, 107, 109, 111, 99, 107,
    109, 111, 99, 107, 109, 111, 99, 107, 109, 111, 99, 107, 109, 111, 99, 107,
];

/// A key-value store in memory. Every commit records a copy of the state;
/// rolling back to height `h` brings back the copy made by the `h`-th commit.
pub struct MemDB {
    map: KvMap,
    height: u64,
    histories: Vec<KvMap>,
}

impl Default for MemDB {
    fn default() -> (r: Self)
        ensures
            r.inv(),
            r.kv() == Map::<Seq<u8>, Seq<u8>>::empty(),
            r.height_view() == 0,
            r.histories_view().len() == 0,
    {
        let r = MemDB { map: KvMap::new(), height: 0, histories: Vec::new() };
        proof {
            assert(r.kv() =~= Map::<Seq<u8>, Seq<u8>>::empty());
        }
        r
    }
}

impl MemDB {
    /// The states recorded by the commits so far, oldest first.
    pub closed spec fn histories_view(&self) -> Seq<Map<Seq<u8>, Seq<u8>>> {
        Seq::new(self.histories@.len(), |i: int| present(self.histories@[i].view_map()))
    }

    /// The state a roll-back to height `h` brings back.
    pub open spec fn state_at(&self, h: u64) -> Map<Seq<u8>, Seq<u8>> {
        if h == 0 {
            Map::empty()
        } else {
            self.histories_view()[h - 1]
        }
    }
}

/// A commit keeps every earlier snapshot and adds the state it made as the
/// newest: rolling back to the new height brings that state back, and
/// rolling back to any earlier height brings back what it did before.
pub proof fn lemma_commit_then_roll_back(before: MemDB, after: MemDB, h: u64)
    requires
        after.histories_view() == before.histories_view().push(after.kv()),
        before.histories_view().len() < u64::MAX,
        h <= before.histories_view().len(),
    ensures
        after.state_at((before.histories_view().len() + 1) as u64) == after.kv(),
        after.state_at(h) == before.state_at(h),
{
}

impl KvState for MemDB {
    closed spec fn inv(&self) -> bool {
        &&& self.map.wf()
        &&& forall|i: int| 0 <= i < self.histories@.len() ==> (#[trigger] self.histories@[i]).wf()
    }

    closed spec fn kv(&self) -> Map<Seq<u8>, Seq<u8>> {
        present(self.map.view_map())
    }

    open spec fn commit_ok(&self, ops: Seq<OpView>) -> bool {
        no_aux(ops) && self.height_view() < u64::MAX
    }

    open spec fn kv_after_commit(&self, ops: Seq<OpView>) -> Map<Seq<u8>, Seq<u8>> {
        apply_ops(self.kv(), ops)
    }

    open spec fn roll_back_ok(&self, op: RollBackOperation) -> bool {
        op.height_of() <= self.histories_view().len()
    }

    open spec fn kv_after_roll_back(&self, op: RollBackOperation) -> Map<Seq<u8>, Seq<u8>> {
        self.state_at(op.height_of())
    }

    open spec fn roll_back_height_ok(&self, h: u64) -> bool {
        h <= self.histories_view().len()
    }

    open spec fn kv_after_roll_back_height(&self, h: u64) -> Map<Seq<u8>, Seq<u8>> {
        self.state_at(h)
    }

    open spec fn kv_after_clean(&self) -> Map<Seq<u8>, Seq<u8>> {
        self.kv()
    }

    closed spec fn height_view(&self) -> u64 {
        self.height
    }

    open spec fn may_fail(e: TreeError) -> bool {
        false
    }

    open spec fn configured(&self, c: MerkleRocksDBConfiguration) -> bool {
        &&& c.home@ == "./merk.db"@
        &&& c.snapshot_interval == 1
        &&& c.snapshot_limit == 1000
    }

    open spec fn proves(&self, req: ProveRequestEnums, r: TreeResult<ProveResponseEnums>) -> bool {
        r matches Ok(ProveResponseEnums::SimpleProve(p)) && p.proof@ == mock_proof_bytes()
    }

    open spec fn verifies(&self, req: VerifyRequestEnums, r: TreeResult<VerifyResponse>) -> bool {
        r matches Ok(v) && v.valid
    }

    open spec fn root_view(&self) -> RootHash {
        MOCK_ROOT_HASH
    }

    open spec fn flushed(&self, after: Self) -> bool {
        after == *self
    }
}

impl Read for MemDB {
    fn get(&self, k: &[u8]) -> (r: TreeResult<Option<Vec<u8>>>)
        ensures
            r is Ok,
    {
        match self.map.get(k) {
            Some(Some(value)) => Ok(Some(value)),
            Some(None) => Ok(None),
            None => Ok(None),
        }
    }

    fn get_next(&self, start: &[u8]) -> (r: TreeResult<Option<KV>>)
        ensures
            r is Ok,
    {
        let ghost m = self.map.view_map();
        let ghost s = self.map.entries_view();
        let mut i = self.map.first_after(start);
        let n = self.map.len();
        proof {
            self.map.lemma_view();
        }
        while i < n
            invariant
                self.map.wf(),
                s == self.map.entries_view(),
                n == s.len(),
                i <= n,
                forall|j: int| 0 <= j < i ==> !lex_lt(start@, #[trigger] s[j].0) || s[j].1 is None,
                forall|j: int| i <= j < n ==> lex_lt(start@, #[trigger] s[j].0),
            decreases n - i,
        {
            let e = self.map.entry_at(i);
            match e.1 {
                Some(v) => {
                    proof {
                        assert(entry_view((e.0, Some(v))) == s[i as int]);
                        crate::tree::mem::lemma_first_present_is_next(self.map, start@, i as int);
                    }
                    return Ok(Some((e.0, v)));
                },
                None => {},
            }
            i = i + 1;
        }
        proof {
            crate::tree::mem::lemma_no_present_after(self.map, start@);
        }
        Ok(None)
    }
}

/// In an ordered table, the first entry above `start` that holds a value is
/// the next key of the present view.
pub proof fn lemma_first_present_is_next(m: KvMap, start: Seq<u8>, i: int)
    requires
        m.wf(),
        0 <= i < m.entries_view().len(),
        lex_lt(start, m.entries_view()[i].0),
        m.entries_view()[i].1 is Some,
        forall|j: int| 0 <= j < i ==> !lex_lt(start, #[trigger] m.entries_view()[j].0) || m.entries_view()[j].1 is None,
    ensures
        crate::tree::tree::is_next_after(present(m.view_map()), start, m.entries_view()[i].0),
        present(m.view_map())[m.entries_view()[i].0] == m.entries_view()[i].1->Some_0,
{
    let s = m.entries_view();
    let p = present(m.view_map());
    m.lemma_view();
    let k = s[i].0;
    assert(m.view_map().contains_key(k) && m.view_map()[k] == s[i].1);
    assert(p.contains_key(k));
    assert forall|k2: Seq<u8>| #[trigger] p.contains_key(k2) && lex_lt(start, k2) implies k2 == k || lex_lt(k, k2) by {
        let j = choose|j: int| 0 <= j < s.len() && #[trigger] s[j].0 == k2;
        if j < i {
            assert(m.view_map()[s[j].0] == s[j].1);
        } else if j > i {
            assert(lex_lt(s[i].0, s[j].0));
        }
    }
}

/// If every entry above `start` marks a deletion, the present view holds no
/// key above `start`.
pub proof fn lemma_no_present_after(m: KvMap, start: Seq<u8>)
    requires
        m.wf(),
        forall|j: int| 0 <= j < m.entries_view().len() ==> !lex_lt(start, #[trigger] m.entries_view()[j].0) || m.entries_view()[j].1 is None,
    ensures
        crate::tree::tree::nothing_after(present(m.view_map()), start),
{
    let s = m.entries_view();
    m.lemma_view();
    assert forall|k2: Seq<u8>| #[trigger] present(m.view_map()).contains_key(k2) implies !lex_lt(start, k2) by {
        let j = choose|j: int| 0 <= j < s.len() && #[trigger] s[j].0 == k2;
        assert(m.view_map()[s[j].0] == s[j].1);
    }
}

impl Write for MemDB {
    fn set(&mut self, k: Vec<u8>, v: Vec<u8>) -> (r: TreeResult<Vec<u8>>)
        ensures
            r matches Ok(rk) && rk@ == k@,
    {
        let rk = key_to_vec(k.as_slice());
        let ghost kk = k@;
        let ghost vv = v@;
        self.map.insert(k, Some(v));
        proof {
            assert(self.kv() =~= old(self).kv().insert(kk, vv));
        }
        Ok(rk)
    }

    fn delete(&mut self, k: Vec<u8>) -> (r: TreeResult<()>)
        ensures
            r is Ok,
    {
        self.map.remove(k.as_slice());
        proof {
            assert(self.kv() =~= old(self).kv().remove(k@));
        }
        Ok(())
    }
}

impl Batch for MemDB {
    fn commit(&mut self, operations: Vec<Operation>) -> (r: RootHash)
        ensures
            final(self).height_view() == old(self).height_view() + 1,
            final(self).histories_view() == old(self).histories_view().push(final(self).kv()),
            r == MOCK_ROOT_HASH,
    {
        let ghost start = self.kv();
        let ghost all = operations@;
        let ghost old_hist = self.histories_view();
        let mut ops = operations;
        let mut done: usize = 0;
        let n = ops.len();
        while ops.len() > 0
            invariant
                all.len() == n,
                no_aux(ops_view(all)),
                self.inv(),
                self.height == old(self).height,
                self.histories@ == old(self).histories@,
                done + ops@.len() == all.len(),
                ops@ == all.subrange(done as int, all.len() as int),
                self.kv() == apply_ops(start, ops_view(all.subrange(0, done as int))),
            decreases ops@.len(),
        {
            let op = ops.remove(0);
            proof {
                assert(op == all[done as int]);
                assert(ops_view(all.subrange(0, done + 1)).drop_last() =~= ops_view(all.subrange(0, done as int)));
                assert(ops_view(all.subrange(0, done + 1)).last() == all[done as int]@);
                assert(ops@ =~= all.subrange(done + 1, all.len() as int));
            }
            match op {
                Operation::Put(k, v) => {
                    let ghost kk = k@;
                    let ghost vv = v@;
                    self.map.insert(k, Some(v));
                    proof {
                        assert(self.kv() =~= apply_ops(start, ops_view(all.subrange(0, done as int))).insert(kk, vv));
                    }
                },
                Operation::Delete(k) => {
                    self.map.remove(k.as_slice());
                    proof {
                        assert(self.kv() =~= apply_ops(start, ops_view(all.subrange(0, done as int))).remove(k@));
                    }
                },
                Operation::Aux(_) => {
                    proof {
                        assert(ops_view(all)[done as int] is Aux);
                    }
                },
            }
            done = done + 1;
        }
        proof {
            assert(all.subrange(0, done as int) =~= all);
        }
        self.height = self.height + 1;
        let snapshot = self.map.copy();
        self.histories.push(snapshot);
        proof {
            assert(self.histories_view() =~= old_hist.push(self.kv()));
        }
        MOCK_ROOT_HASH
    }
}

impl DB for MemDB {
    fn get_configuration(&self) -> (r: MerkleRocksDBConfiguration)
        ensures
            r.home@ == "./merk.db"@,
            r.snapshot_interval == 1,
            r.snapshot_limit == 1000,
    {
        MerkleRocksDBConfiguration::new("./merk.db")
    }

    fn roll_back(&mut self, h: u64) -> (r: TreeResult<()>)
        ensures
            r is Ok,
            final(self).histories_view() == old(self).histories_view().take(h as int),
    {
        self.roll_back_with_operation(RollBackOperation::MerkleHeight(h, None))
    }

    fn roll_back_with_operation(&mut self, ops: RollBackOperation) -> (r: TreeResult<()>)
        ensures
            r is Ok,
            final(self).histories_view() == old(self).histories_view().take(ops.height_of() as int),
            final(self).height_view() == old(self).height_view(),
    {
        let h = match ops.get_height() {
            Some(h) => h,
            None => 0,
        };
        let ghost old_hist = self.histories_view();
        let hu = h as usize;
        let mut current = KvMap::new();
        if hu >= 1 {
            current = self.histories[hu - 1].copy();
        }
        self.histories.truncate(hu);
        self.map = current;
        proof {
            assert(self.histories_view() =~= old_hist.take(h as int));
            if h == 0 {
                assert(self.kv() =~= Map::<Seq<u8>, Seq<u8>>::empty());
            }
        }
        Ok(())
    }

    fn height(&self) -> (r: TreeResult<u64>)
        ensures
            r == Ok::<u64, crate::tree::error::TreeError>(self.height_view()),
    {
        Ok(self.height)
    }

    fn clean(&mut self) -> (r: TreeResult<()>)
        ensures
            r is Ok,
    {
        Ok(())
    }

    fn flush(&mut self) -> (r: TreeResult<()>)
        ensures
            r is Ok,
    {
        Ok(())
    }
}

/// The bytes of the text `mock_proof`.
pub open spec fn mock_proof_bytes() -> Seq<u8> {
    seq![109u8, 111, 99, 107, 95, 112, 114, 111, 111, 102]
}

/// The proof a memory store hands out.
pub fn mock_proof() -> (r: Vec<u8>)
    ensures
        r@ == mock_proof_bytes(),
{
    let r: Vec<u8> = vec![109u8, 111, 99, 107, 95, 112, 114, 111, 111, 102];
    proof {
        assert(r@ =~= mock_proof_bytes());
    }
    r
}

impl TreeDB for MemDB {
    fn prove(&self, _req: ProveRequestEnums) -> (r: TreeResult<ProveResponseEnums>)
        ensures
            r matches Ok(ProveResponseEnums::SimpleProve(p)) && p.proof@ == mock_proof_bytes(),
    {
        Ok(ProveResponseEnums::SimpleProve(SimpleProveResponse { proof: mock_proof() }))
    }

    fn verify(&self, _req: VerifyRequestEnums) -> (r: TreeResult<VerifyResponse>)
        ensures
            r matches Ok(v) && v.valid,
    {
        Ok(VerifyResponse { valid: true })
    }

    fn root_hash(&self) -> (r: RootHash)
        ensures
            r == MOCK_ROOT_HASH,
    {
        MOCK_ROOT_HASH
    }
}

} // verus!
