//! The store interface: reads, writes, batched commits, heights and
//! roll-backs, stated over the key-value view each store stands for.
use vstd::prelude::*;
use crate::tree::keys::{lex_lt, lemma_lex_asymmetric, lemma_lex_irreflexive, lemma_lex_transitive, lemma_lex_total};
use crate::tree::kvmap::opt_bytes;
use crate::tree::error::{TreeResult, TreeError};
use crate::tree::operation::{Operation, OpView, RollBackOperation, ops_view};
use crate::tree::merkle::MerkleRocksDBConfiguration;
use crate::tree::couple::{ProveRequestEnums, ProveResponseEnums, VerifyRequestEnums, VerifyResponse};

verus! {

pub type RootHash = [u8; 32];

pub type KV = (Vec<u8>, Vec<u8>);

/// The value a view holds for `k`, if any.
pub open spec fn lookup(m: Map<Seq<u8>, Seq<u8>>, k: Seq<u8>) -> Option<Seq<u8>> {
    if m.contains_key(k) {
        Some(m[k])
    } else {
        None
    }
}

/// `k` is the smallest key of `m` above `start`.
pub open spec fn is_next_after(m: Map<Seq<u8>, Seq<u8>>, start: Seq<u8>, k: Seq<u8>) -> bool {
    &&& m.contains_key(k)
    &&& lex_lt(start, k)
    &&& forall|k2: Seq<u8>| #[trigger] m.contains_key(k2) && lex_lt(start, k2) ==> k2 == k || lex_lt(k, k2)
}

/// `m` holds no key above `start`.
pub open spec fn nothing_after(m: Map<Seq<u8>, Seq<u8>>, start: Seq<u8>) -> bool {
    forall|k2: Seq<u8>| #[trigger] m.contains_key(k2) ==> !lex_lt(start, k2)
}

/// `r` is the entry of `m` right after `start`, or none if there is none.
pub open spec fn next_result(m: Map<Seq<u8>, Seq<u8>>, start: Seq<u8>, r: Option<KV>) -> bool {
    match r {
        Some(kv) => is_next_after(m, start, kv.0@) && kv.1@ == m[kv.0@],
        None => nothing_after(m, start),
    }
}

/// `r` is the entry of `m` at `key`, or else the one right after it.
pub open spec fn next_inclusive_result(m: Map<Seq<u8>, Seq<u8>>, key: Seq<u8>, r: Option<KV>) -> bool {
    if m.contains_key(key) {
        r matches Some(kv) && kv.0@ == key && kv.1@ == m[key]
    } else {
        next_result(m, key, r)
    }
}

/// The smallest key above `start` is unique.
pub proof fn lemma_next_unique(m: Map<Seq<u8>, Seq<u8>>, start: Seq<u8>, a: Seq<u8>, b: Seq<u8>)
    requires
        is_next_after(m, start, a),
        is_next_after(m, start, b),
    ensures
        a == b,
{
    if a != b {
        assert(lex_lt(a, b));
        assert(lex_lt(b, a));
        lemma_lex_asymmetric(a, b);
    }
}

/// A read gives back what the last write to its key wrote, and reads of
/// other keys are unchanged by it; after a delete, a read of its key finds
/// nothing.
pub proof fn lemma_read_your_write(m: Map<Seq<u8>, Seq<u8>>, k: Seq<u8>, v: Seq<u8>, other: Seq<u8>)
    requires
        other != k,
    ensures
        lookup(m.insert(k, v), k) == Some(v),
        lookup(m.insert(k, v), other) == lookup(m, other),
        lookup(m.remove(k), k) is None,
        lookup(m.remove(k), other) == lookup(m, other),
{
}

/// The view of a store and what each kind of update does to it. Each store
/// defines these for itself.
pub trait KvState: Sized {
    /// The store's internal well-formedness.
    spec fn inv(&self) -> bool;

    /// What reads return.
    spec fn kv(&self) -> Map<Seq<u8>, Seq<u8>>;

    /// Whether a commit of these operations is accepted.
    spec fn commit_ok(&self, ops: Seq<OpView>) -> bool;

    /// What reads return after a commit of these operations.
    spec fn kv_after_commit(&self, ops: Seq<OpView>) -> Map<Seq<u8>, Seq<u8>>;

    /// Whether this roll-back request is accepted.
    spec fn roll_back_ok(&self, op: RollBackOperation) -> bool;

    /// What reads return after this roll-back request succeeds.
    spec fn kv_after_roll_back(&self, op: RollBackOperation) -> Map<Seq<u8>, Seq<u8>>;

    /// Whether a roll-back to height `h` is accepted.
    spec fn roll_back_height_ok(&self, h: u64) -> bool;

    /// What reads return after a roll-back to height `h` succeeds.
    spec fn kv_after_roll_back_height(&self, h: u64) -> Map<Seq<u8>, Seq<u8>>;

    /// What reads return after the pending writes are dropped.
    spec fn kv_after_clean(&self) -> Map<Seq<u8>, Seq<u8>>;

    /// The committed height.
    spec fn height_view(&self) -> u64;

    /// Whether an operation of a store of this kind may fail with `e`.
    spec fn may_fail(e: TreeError) -> bool;

    /// Whether `c` is the configuration the store reports.
    spec fn configured(&self, c: MerkleRocksDBConfiguration) -> bool;

    /// Whether `r` is an answer the store may give to the proof request `req`.
    spec fn proves(&self, req: ProveRequestEnums, r: TreeResult<ProveResponseEnums>) -> bool;

    /// Whether `r` is an answer the store may give to the verification
    /// request `req`.
    spec fn verifies(&self, req: VerifyRequestEnums, r: TreeResult<VerifyResponse>) -> bool;

    /// The root hash of the committed state.
    spec fn root_view(&self) -> RootHash;

    /// Whether `after` is the store after its pending writes were handed on
    /// to the next store.
    spec fn flushed(&self, after: Self) -> bool;
}

pub trait Read: KvState {
    /// The value stored at `k`.
    fn get(&self, k: &[u8]) -> (r: TreeResult<Option<Vec<u8>>>)
        requires
            self.inv(),
        ensures
            r matches Ok(v) ==> opt_bytes(v) == lookup(self.kv(), k@),
            r matches Err(e) ==> Self::may_fail(e),
    ;

    /// The entry with the smallest key above `start`.
    fn get_next(&self, start: &[u8]) -> (r: TreeResult<Option<KV>>)
        requires
            self.inv(),
        ensures
            r matches Ok(n) ==> next_result(self.kv(), start@, n),
            r matches Err(e) ==> Self::may_fail(e),
    ;

    /// The entry at `key`, or else the one right after it.
    fn get_next_inclusive(&self, key: &[u8]) -> (r: TreeResult<Option<KV>>)
        requires
            self.inv(),
        ensures
            r matches Ok(n) ==> next_inclusive_result(self.kv(), key@, n),
            r matches Err(e) ==> Self::may_fail(e),
    {
        match self.get(key) {
            Ok(Some(value)) => Ok(Some((crate::tree::keys::key_to_vec(key), value))),
            Ok(None) => self.get_next(key),
            Err(e) => Err(e),
        }
    }

    /// The form in which a key is handed to the underlying store.
    fn key_decorator(&self, key: Vec<u8>) -> (r: Vec<u8>)
        default_ensures
            r@ == key@,
    {
        key
    }
}

pub trait Batch: KvState {
    /// Applies the operations and makes everything pending durable.
    fn commit(&mut self, operations: Vec<Operation>) -> (r: RootHash)
        requires
            old(self).inv(),
            old(self).commit_ok(ops_view(operations@)),
        ensures
            final(self).inv(),
            final(self).kv() == old(self).kv_after_commit(ops_view(operations@)),
    ;
}

pub trait Write: Read {
    /// Stores `v` at `k`, handing back the key as the store keeps it.
    fn set(&mut self, k: Vec<u8>, v: Vec<u8>) -> (r: TreeResult<Vec<u8>>)
        requires
            old(self).inv(),
        ensures
            final(self).inv(),
            r is Ok ==> final(self).kv() == old(self).kv().insert(k@, v@),
            r matches Err(e) ==> Self::may_fail(e),
    ;

    /// Removes `k`.
    fn delete(&mut self, k: Vec<u8>) -> (r: TreeResult<()>)
        requires
            old(self).inv(),
        ensures
            final(self).inv(),
            r is Ok ==> final(self).kv() == old(self).kv().remove(k@),
            r matches Err(e) ==> Self::may_fail(e),
    ;
}

pub trait DB: Write + Batch {
    /// Where the store keeps its files.
    fn get_configuration(&self) -> (r: MerkleRocksDBConfiguration)
        requires
            self.inv(),
        ensures
            self.configured(r),
    ;

    /// Goes back to the state committed at height `h`.
    fn roll_back(&mut self, h: u64) -> (r: TreeResult<()>)
        requires
            old(self).inv(),
            old(self).roll_back_height_ok(h),
        ensures
            final(self).inv(),
            r is Ok ==> final(self).kv() == old(self).kv_after_roll_back_height(h),
            r matches Err(e) ==> Self::may_fail(e),
    ;

    /// Carries out a roll-back request.
    fn roll_back_with_operation(&mut self, ops: RollBackOperation) -> (r: TreeResult<()>)
        requires
            old(self).inv(),
            old(self).roll_back_ok(ops),
        ensures
            final(self).inv(),
            r is Ok ==> final(self).kv() == old(self).kv_after_roll_back(ops),
            r matches Err(e) ==> Self::may_fail(e),
    ;

    /// The committed height.
    fn height(&self) -> (r: TreeResult<u64>)
        requires
            self.inv(),
        ensures
            r matches Ok(h) ==> h == self.height_view(),
            r matches Err(e) ==> Self::may_fail(e),
    ;

    /// Drops the pending writes.
    fn clean(&mut self) -> (r: TreeResult<()>)
        requires
            old(self).inv(),
        ensures
            final(self).inv(),
            r is Ok ==> final(self).kv() == old(self).kv_after_clean(),
            r matches Err(e) ==> Self::may_fail(e),
    ;

    /// Hands the pending writes on to the next store; what reads return
    /// does not change.
    fn flush(&mut self) -> (r: TreeResult<()>)
        requires
            old(self).inv(),
        ensures
            final(self).inv(),
            r is Ok ==> final(self).kv() == old(self).kv(),
            r is Ok ==> old(self).flushed(*final(self)),
            r matches Err(e) ==> Self::may_fail(e),
    ;
}

pub trait TreeDB: DB {
    /// A proof for the requested keys.
    fn prove(&self, req: ProveRequestEnums) -> (r: TreeResult<ProveResponseEnums>)
        requires
            self.inv(),
        ensures
            self.proves(req, r),
    ;

    /// Checks a proof.
    fn verify(&self, req: VerifyRequestEnums) -> (r: TreeResult<VerifyResponse>)
        requires
            self.inv(),
        ensures
            self.verifies(req, r),
    ;

    /// The root hash of the committed state.
    fn root_hash(&self) -> (r: RootHash)
        requires
            self.inv(),
        ensures
            r == self.root_view(),
    ;
}

/// The auxiliary operations of a sequence, in order.
pub open spec fn aux_only(s: Seq<Operation>) -> Seq<Operation>
    decreases s.len(),
{
    if s.len() == 0 {
        Seq::empty()
    } else if s.last() is Aux {
        aux_only(s.drop_last()).push(s.last())
    } else {
        aux_only(s.drop_last())
    }
}

/// Writes operations one by one through `set` and `delete`, keeping the
/// auxiliary ones aside and handing them back in order.
pub fn batch_operation<T: Write>(t: &mut T, ops: Vec<Operation>) -> (r: TreeResult<Vec<Operation>>)
    requires
        old(t).inv(),
    ensures
        final(t).inv(),
        r matches Ok(aux) ==> {
            &&& final(t).kv() == crate::tree::operation::apply_ops(old(t).kv(), ops_view(ops@))
            &&& aux@ == aux_only(ops@)
        },
        r matches Err(e) ==> T::may_fail(e),
{
    let mut aux: Vec<Operation> = Vec::new();
    let mut ops = ops;
    let ghost all = ops@;
    let mut done: usize = 0;
    let n = ops.len();
    let ghost start = t.kv();
    while ops.len() > 0
        invariant
            all.len() == n,
            t.inv(),
            done + ops@.len() == all.len(),
            ops@ == all.subrange(done as int, all.len() as int),
            t.kv() == crate::tree::operation::apply_ops(start, ops_view(all.subrange(0, done as int))),
            aux@ == aux_only(all.subrange(0, done as int)),
        decreases ops@.len(),
    {
        let op = ops.remove(0);
        proof {
            assert(op == all[done as int]);
            let pre = all.subrange(0, done as int);
            let nxt = all.subrange(0, done + 1);
            assert(nxt.drop_last() =~= pre);
            assert(nxt.last() == op);
        }
        match op {
            Operation::Put(k, v) => {
                match t.set(k, v) {
                    Ok(_) => {},
                    Err(e) => {
                        return Err(e);
                    },
                }
            },
            Operation::Delete(k) => {
                match t.delete(k) {
                    Ok(_) => {},
                    Err(e) => {
                        return Err(e);
                    },
                }
            },
            Operation::Aux(v) => {
                aux.push(Operation::Aux(v));
            },
        }
        proof {
            assert(ops_view(all.subrange(0, done + 1)).drop_last() =~= ops_view(all.subrange(0, done as int)));
            assert(ops@ =~= all.subrange(done + 1, all.len() as int));
        }
        done = done + 1;
    }
    proof {
        assert(all.subrange(0, done as int) =~= all);
    }
    Ok(aux)
}

/// A hasher of keys.
pub trait KeyHasher {
    /// The 32-byte hash of `x`.
    fn hash(x: &[u8]) -> (r: [u8; 32]);
}

/// The Keccak-256 hash of `data`.
pub uninterp spec fn keccak256(data: Seq<u8>) -> [u8; 32];

/// `KeccakHasher::hash` of the `keccak-hasher` crate: its result is named
/// `keccak256` of the input bytes (a function of them alone); nothing more
/// is stated of it.
#[verifier::external_body]
pub(crate) fn keccak_hash(x: &[u8]) -> (r: [u8; 32])
    ensures
        r == keccak256(x@),
{
    <keccak_hasher::KeccakHasher as hash_db::Hasher>::hash(x)
}

/// The hasher of the tries: Keccak-256.
pub struct NullHasher {}

impl KeyHasher for NullHasher {
    fn hash(x: &[u8]) -> (r: [u8; 32])
        ensures
            r == keccak256(x@),
    {
        keccak_hash(x)
    }
}

} // verus!
