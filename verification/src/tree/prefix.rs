//! A store wrapper that puts a fixed prefix in front of every key, so that
//! several key spaces can share one store.
use vstd::prelude::*;
use crate::tree::keys::{lex_lt, lemma_lex_prefix, lemma_lex_outside_prefix, lemma_lex_asymmetric, concat_keys, starts_with, suffix_from};
use crate::tree::error::{TreeResult, TreeError};
use crate::tree::operation::{Operation, OpView, RollBackOperation};
use crate::tree::merkle::MerkleRocksDBConfiguration;
use crate::tree::couple::{ProveRequestEnums, ProveResponseEnums, VerifyRequestEnums, VerifyResponse};
use crate::tree::tree::{KvState, Read, Write, Batch, DB, TreeDB, RootHash, KV, lookup, next_result, is_next_after, nothing_after};

verus! {

/// The part of `m` under prefix `p`, with the prefix taken off the keys.
pub open spec fn strip_prefix(m: Map<Seq<u8>, Seq<u8>>, p: Seq<u8>) -> Map<Seq<u8>, Seq<u8>> {
    Map::new(|k: Seq<u8>| m.contains_key(p + k), |k: Seq<u8>| m[p + k])
}

/// The same prefix in front of two keys gives equal keys only for equal keys.
pub proof fn lemma_prefix_injective(p: Seq<u8>, a: Seq<u8>, b: Seq<u8>)
    requires
        p + a == p + b,
    ensures
        a == b,
{
    assert(a =~= (p + a).subrange(p.len() as int, (p + a).len() as int));
    assert(b =~= (p + b).subrange(p.len() as int, (p + b).len() as int));
}

/// Keys of `inner` under `prefix`.
pub struct PrefixWrapper<M> {
    prefix: Vec<u8>,
    inner: M,
}

impl<M> PrefixWrapper<M> {
    /// Wraps `inner` under `prefix`.
    pub fn new(prefix: Vec<u8>, inner: M) -> (r: Self)
        ensures
            r.prefix_view() == prefix@,
            r.inner_store() == inner,
    {
        Self { prefix, inner }
    }

    pub closed spec fn prefix_view(&self) -> Seq<u8> {
        self.prefix@
    }

    pub closed spec fn inner_store(&self) -> M {
        self.inner
    }
}

impl<M: TreeDB> KvState for PrefixWrapper<M> {
    open spec fn inv(&self) -> bool {
        self.inner_store().inv()
    }

    open spec fn kv(&self) -> Map<Seq<u8>, Seq<u8>> {
        strip_prefix(self.inner_store().kv(), self.prefix_view())
    }

    open spec fn commit_ok(&self, ops: Seq<OpView>) -> bool {
        self.inner_store().commit_ok(ops)
    }

    open spec fn kv_after_commit(&self, ops: Seq<OpView>) -> Map<Seq<u8>, Seq<u8>> {
        strip_prefix(self.inner_store().kv_after_commit(ops), self.prefix_view())
    }

    open spec fn roll_back_ok(&self, op: RollBackOperation) -> bool {
        self.inner_store().roll_back_ok(op)
    }

    open spec fn kv_after_roll_back(&self, op: RollBackOperation) -> Map<Seq<u8>, Seq<u8>> {
        strip_prefix(self.inner_store().kv_after_roll_back(op), self.prefix_view())
    }

    open spec fn roll_back_height_ok(&self, h: u64) -> bool {
        self.inner_store().roll_back_ok(RollBackOperation::MerkleHeight(h, None))
    }

    open spec fn kv_after_roll_back_height(&self, h: u64) -> Map<Seq<u8>, Seq<u8>> {
        strip_prefix(self.inner_store().kv_after_roll_back(RollBackOperation::MerkleHeight(h, None)), self.prefix_view())
    }

    open spec fn kv_after_clean(&self) -> Map<Seq<u8>, Seq<u8>> {
        strip_prefix(self.inner_store().kv_after_clean(), self.prefix_view())
    }

    open spec fn height_view(&self) -> u64 {
        self.inner_store().height_view()
    }

    open spec fn may_fail(e: TreeError) -> bool {
        M::may_fail(e)
    }

    open spec fn configured(&self, c: MerkleRocksDBConfiguration) -> bool {
        self.inner_store().configured(c)
    }

    open spec fn proves(&self, req: ProveRequestEnums, r: TreeResult<ProveResponseEnums>) -> bool {
        self.inner_store().proves(req, r)
    }

    open spec fn verifies(&self, req: VerifyRequestEnums, r: TreeResult<VerifyResponse>) -> bool {
        self.inner_store().verifies(req, r)
    }

    open spec fn root_view(&self) -> RootHash {
        self.inner_store().root_view()
    }

    open spec fn flushed(&self, after: Self) -> bool {
        &&& after.prefix_view() == self.prefix_view()
        &&& self.inner_store().flushed(after.inner_store())
    }
}

/// The entry of `d` right after `prefix + key`, if it lies under `prefix`,
/// with the prefix taken off its key.
pub fn prefix_iterator<D: Read>(d: &D, prefix: Vec<u8>, key: Vec<u8>) -> (r: TreeResult<Option<KV>>)
    requires
        d.inv(),
    ensures
        r matches Ok(n) ==> next_result(strip_prefix(d.kv(), prefix@), key@, n),
        r matches Err(e) ==> D::may_fail(e),
{
    let len = prefix.len();
    let prefixed = concat_keys(prefix.as_slice(), key.as_slice());
    let next = match d.get_next(prefixed.as_slice()) {
        Ok(n) => n,
        Err(e) => {
            return Err(e);
        },
    };
    let ghost m = d.kv();
    let ghost p = prefix@;
    let ghost sm = strip_prefix(m, p);
    match next {
        None => {
            proof {
                assert forall|k2: Seq<u8>| #[trigger] sm.contains_key(k2) implies !lex_lt(key@, k2) by {
                    lemma_lex_prefix(p, key@, k2);
                    assert(m.contains_key(p + k2));
                }
            }
            Ok(None)
        },
        Some((k, v)) => {
            if starts_with(k.as_slice(), prefix.as_slice()) {
                let rest = suffix_from(k.as_slice(), len);
                proof {
                    let kk = rest@;
                    assert(p + kk =~= k@);
                    lemma_lex_prefix(p, key@, kk);
                    assert forall|k2: Seq<u8>| #[trigger] sm.contains_key(k2) && lex_lt(key@, k2) implies k2 == kk || lex_lt(kk, k2) by {
                        lemma_lex_prefix(p, key@, k2);
                        assert(m.contains_key(p + k2));
                        lemma_lex_prefix(p, kk, k2);
                        if p + k2 == p + kk {
                            lemma_prefix_injective(p, k2, kk);
                        }
                    }
                }
                Ok(Some((rest, v)))
            } else {
                proof {
                    assert forall|k2: Seq<u8>| #[trigger] sm.contains_key(k2) implies !lex_lt(key@, k2) by {
                        if lex_lt(key@, k2) {
                            lemma_lex_prefix(p, key@, k2);
                            assert(m.contains_key(p + k2));
                            lemma_lex_outside_prefix(p, key@, k@, k2);
                            if p + k2 != k@ {
                                lemma_lex_asymmetric(p + k2, k@);
                            } else {
                                assert((p + k2).subrange(0, p.len() as int) =~= p);
                            }
                        }
                    }
                }
                Ok(None)
            }
        },
    }
}

impl<M: TreeDB> Read for PrefixWrapper<M> {
    fn get(&self, k: &[u8]) -> (r: TreeResult<Option<Vec<u8>>>) {
        let key = concat_keys(self.prefix.as_slice(), k);
        self.inner.get(key.as_slice())
    }

    fn get_next(&self, start: &[u8]) -> (r: TreeResult<Option<KV>>) {
        let p = crate::tree::keys::key_to_vec(self.prefix.as_slice());
        let s = crate::tree::keys::key_to_vec(start);
        prefix_iterator(&self.inner, p, s)
    }
}

impl<M: TreeDB> Write for PrefixWrapper<M> {
    fn set(&mut self, k: Vec<u8>, v: Vec<u8>) -> (r: TreeResult<Vec<u8>>) {
        let key = concat_keys(self.prefix.as_slice(), k.as_slice());
        let ghost p = self.prefix@;
        let ghost kk = k@;
        let ghost vv = v@;
        let r = self.inner.set(key, v);
        proof {
            if r is Ok {
                assert forall|x: Seq<u8>| #![auto] (p + x == p + kk) == (x == kk) by {
                    if p + x == p + kk {
                        lemma_prefix_injective(p, x, kk);
                    }
                }
                assert(self.kv() =~= old(self).kv().insert(kk, vv));
            }
        }
        r
    }

    fn delete(&mut self, k: Vec<u8>) -> (r: TreeResult<()>) {
        let key = concat_keys(self.prefix.as_slice(), k.as_slice());
        let ghost p = self.prefix@;
        let ghost kk = k@;
        let r = self.inner.delete(key);
        proof {
            if r is Ok {
                assert forall|x: Seq<u8>| #![auto] (p + x == p + kk) == (x == kk) by {
                    if p + x == p + kk {
                        lemma_prefix_injective(p, x, kk);
                    }
                }
                assert(self.kv() =~= old(self).kv().remove(kk));
            }
        }
        r
    }
}

impl<M: TreeDB> Batch for PrefixWrapper<M> {
    fn commit(&mut self, operations: Vec<Operation>) -> (r: RootHash) {
        self.inner.commit(operations)
    }
}

impl<M: TreeDB> DB for PrefixWrapper<M> {
    fn get_configuration(&self) -> (r: MerkleRocksDBConfiguration) {
        self.inner.get_configuration()
    }

    fn roll_back(&mut self, h: u64) -> (r: TreeResult<()>) {
        self.roll_back_with_operation(RollBackOperation::MerkleHeight(h, None))
    }

    fn roll_back_with_operation(&mut self, ops: RollBackOperation) -> (r: TreeResult<()>) {
        self.inner.roll_back_with_operation(ops)
    }

    fn height(&self) -> (r: TreeResult<u64>) {
        self.inner.height()
    }

    fn clean(&mut self) -> (r: TreeResult<()>) {
        self.inner.clean()
    }

    fn flush(&mut self) -> (r: TreeResult<()>) {
        self.inner.flush()
    }
}

impl<M: TreeDB> TreeDB for PrefixWrapper<M> {
    fn prove(&self, req: ProveRequestEnums) -> (r: TreeResult<ProveResponseEnums>) {
        self.inner.prove(req)
    }

    fn verify(&self, req: VerifyRequestEnums) -> (r: TreeResult<VerifyResponse>) {
        self.inner.verify(req)
    }

    fn root_hash(&self) -> (r: RootHash) {
        self.inner.root_hash()
    }
}

/// `a` followed by `b`.
pub fn concat(a: &[u8], b: &[u8]) -> (r: Vec<u8>)
    ensures
        r@ == a@ + b@,
{
    concat_keys(a, b)
}

} // verus!
