//! A store wrapper that keeps writes pending in memory until they are
//! flushed or committed to the wrapped store.
use vstd::prelude::*;
use crate::tree::keys::{lex_lt, lemma_lex_asymmetric, lemma_lex_irreflexive, lemma_lex_transitive, lemma_lex_total, key_to_vec, compare_keys, KeyOrder};
use crate::tree::kvmap::{KvMap, opt_bytes, entry_view, entries_ops, entry_op, seq_to_map, sorted_keys, lemma_seq_to_map_at};
use crate::tree::operation::{apply_ops, apply_op, lemma_apply_ops_append};
use crate::tree::mem::MemDB;
use crate::tree::error::{TreeResult, TreeError};
use crate::tree::operation::{Operation, OpView, RollBackOperation, ops_view};
use crate::tree::merkle::MerkleRocksDBConfiguration;
use crate::tree::couple::{ProveRequestEnums, ProveResponseEnums, VerifyRequestEnums, VerifyResponse};
use crate::tree::tree::{KvState, Read, Write, Batch, DB, TreeDB, RootHash, KV, lookup, next_result, is_next_after, nothing_after};
use crate::tree::common::map_to_batch;

verus! {

/// What reads see through pending writes `ov` over `base`: a pending value
/// hides the stored one, a pending deletion hides the key.
pub open spec fn apply_overlay(base: Map<Seq<u8>, Seq<u8>>, ov: Map<Seq<u8>, Option<Seq<u8>>>) -> Map<Seq<u8>, Seq<u8>> {
    Map::new(
        |k: Seq<u8>| if ov.contains_key(k) { ov[k] is Some } else { base.contains_key(k) },
        |k: Seq<u8>| if ov.contains_key(k) { ov[k]->Some_0 } else { base[k] },
    )
}

/// Writes kept pending over a wrapped store.
pub struct CacheWrapper<M> {
    map: KvMap,
    inner: M,
}

impl<M> CacheWrapper<M> {
    /// A wrapper with nothing pending.
    pub fn new(mid: M) -> (r: CacheWrapper<M>)
        ensures
            r.pending().wf(),
            r.pending().view_map() == Map::<Seq<u8>, Option<Seq<u8>>>::empty(),
            r.inner_store() == mid,
    {
        Self { map: KvMap::new(), inner: mid }
    }

    /// A wrapper with nothing pending.
    pub fn wrap(store: M) -> (r: Self)
        ensures
            r.pending().wf(),
            r.pending().view_map() == Map::<Seq<u8>, Option<Seq<u8>>>::empty(),
            r.inner_store() == store,
    {
        CacheWrapper::new(store)
    }

    /// A wrapper with the given writes pending.
    pub fn wrap_with_map(store: M, map: KvMap) -> (r: Self)
        ensures
            r.pending() == map,
            r.inner_store() == store,
    {
        Self { map, inner: store }
    }

    /// The pending writes.
    pub closed spec fn pending(&self) -> KvMap {
        self.map
    }

    /// The wrapped store.
    pub closed spec fn inner_store(&self) -> M {
        self.inner
    }
}

impl<M: TreeDB> KvState for CacheWrapper<M> {
    open spec fn inv(&self) -> bool {
        self.pending().wf() && self.inner_store().inv()
    }

    open spec fn kv(&self) -> Map<Seq<u8>, Seq<u8>> {
        apply_overlay(self.inner_store().kv(), self.pending().view_map())
    }

    open spec fn commit_ok(&self, ops: Seq<OpView>) -> bool {
        self.inner_store().commit_ok(ops + entries_ops(self.pending().entries_view()))
    }

    open spec fn kv_after_commit(&self, ops: Seq<OpView>) -> Map<Seq<u8>, Seq<u8>> {
        self.inner_store().kv_after_commit(ops + entries_ops(self.pending().entries_view()))
    }

    open spec fn roll_back_ok(&self, op: RollBackOperation) -> bool {
        self.inner_store().roll_back_ok(op)
    }

    open spec fn kv_after_roll_back(&self, op: RollBackOperation) -> Map<Seq<u8>, Seq<u8>> {
        apply_overlay(self.inner_store().kv_after_roll_back(op), self.pending().view_map())
    }

    open spec fn roll_back_height_ok(&self, h: u64) -> bool {
        self.inner_store().roll_back_ok(RollBackOperation::MerkleHeight(h, Some(true)))
    }

    open spec fn kv_after_roll_back_height(&self, h: u64) -> Map<Seq<u8>, Seq<u8>> {
        self.inner_store().kv_after_roll_back(RollBackOperation::MerkleHeight(h, Some(true)))
    }

    open spec fn kv_after_clean(&self) -> Map<Seq<u8>, Seq<u8>> {
        self.inner_store().kv_after_clean()
    }

    open spec fn height_view(&self) -> u64 {
        self.inner_store().height_view()
    }

    open spec fn may_fail(e: TreeError) -> bool {
        M::may_fail(e) || (is_backing_key_error(e) && exists|e2: TreeError| #[trigger] M::may_fail(e2))
    }

    open spec fn configured(&self, c: MerkleRocksDBConfiguration) -> bool {
        self.inner_store().configured(c)
    }

    open spec fn proves(&self, req: ProveRequestEnums, r: TreeResult<ProveResponseEnums>) -> bool {
        self.inner_store().proves(req, r)
    }

    open spec fn verifies(&self, req: VerifyRequestEnums, r: TreeResult<VerifyResponse>) -> bool {
        self.inner_store().verifies(req, r)
    }

    open spec fn root_view(&self) -> RootHash {
        self.inner_store().root_view()
    }

    open spec fn flushed(&self, after: Self) -> bool {
        &&& after.pending().wf()
        &&& after.pending().view_map() == Map::<Seq<u8>, Option<Seq<u8>>>::empty()
        &&& exists|mid: M| mid.kv() == self.kv() && #[trigger] mid.flushed(after.inner_store())
    }
}

impl<M: TreeDB> Read for CacheWrapper<M> {
    fn get(&self, k: &[u8]) -> (r: TreeResult<Option<Vec<u8>>>)
        ensures
            self.pending().view_map().contains_key(k@) ==> r is Ok,
    {
        match self.map.get(k) {
            Some(Some(value)) => Ok(Some(value)),
            Some(None) => Ok(None),
            None => self.inner.get(k),
        }
    }

    fn get_next(&self, start: &[u8]) -> (r: TreeResult<Option<KV>>) {
        if self.map.is_empty() {
            proof {
                assert(self.kv() =~= self.inner.kv());
            }
            return self.inner.get_next(start);
        }
        iter_merge_next(&self.map, &self.inner, start)
    }
}

/// Invariant of the merge: every key readable through the overlay and above
/// `start` lies above the store cursor `c` and above the skipped overlay keys.
pub open spec fn merge_inv(
    base: Map<Seq<u8>, Seq<u8>>,
    ov: Seq<(Seq<u8>, Option<Seq<u8>>)>,
    ovm: Map<Seq<u8>, Option<Seq<u8>>>,
    start: Seq<u8>,
    c: Seq<u8>,
    i0: int,
    i: int,
) -> bool {
    &&& c == start || lex_lt(start, c)
    &&& forall|x: Seq<u8>| #[trigger] apply_overlay(base, ovm).contains_key(x) && lex_lt(start, x) ==> lex_lt(c, x)
    &&& forall|x: Seq<u8>, j: int| #[trigger] apply_overlay(base, ovm).contains_key(x) && lex_lt(start, x) && i0 <= j < i ==> lex_lt(#[trigger] ov[j].0, x)
    &&& forall|j: int| i0 <= j < i ==> (#[trigger] ov[j]).1 is None
    &&& forall|y: Seq<u8>, j: int| #[trigger] base.contains_key(y) && lex_lt(c, y) && i0 <= j < i ==> lex_lt(#[trigger] ov[j].0, y)
}

/// The error a merge gives when the wrapped store fails to read while
/// pending writes remain: `Store("Backing key does not exist")`.
pub open spec fn is_backing_key_error(e: TreeError) -> bool {
    e matches TreeError::Store(m) && m@ == "Backing key does not exist"@
}

fn backing_key_error() -> (e: TreeError)
    ensures
        is_backing_key_error(e),
{
    TreeError::Store(String::from_str("Backing key does not exist"))
}

/// The error a merge gives for the wrapped store's error `e`: the store's
/// own when no pending write is left to merge, the backing-key error when
/// one is.
pub fn merge_store_error(e: TreeError, pending_left: bool) -> (r: TreeError)
    ensures
        pending_left ==> is_backing_key_error(r),
        !pending_left ==> r == e,
{
    if pending_left {
        backing_key_error()
    } else {
        e
    }
}

/// Some pending write of `map` is to a key above `start`.
pub open spec fn pending_above(map: KvMap, start: Seq<u8>) -> bool {
    exists|k: Seq<u8>| #[trigger] map.view_map().contains_key(k) && lex_lt(start, k)
}

/// The first readable entry above `start` when writes `map` are pending over
/// `inner`: the smaller of the next pending write and the next stored entry,
/// skipping keys whose pending write is a deletion. A failed read of the
/// wrapped store gives its error when no pending write remains to merge,
/// and `Store("Backing key does not exist")` otherwise.
pub fn iter_merge_next<M: Read>(map: &KvMap, inner: &M, start: &[u8]) -> (r: TreeResult<Option<KV>>)
    requires
        map.wf(),
        inner.inv(),
    ensures
        r matches Ok(n) ==> next_result(apply_overlay(inner.kv(), map.view_map()), start@, n),
        r matches Err(e) ==> exists|e2: TreeError| {
            &&& #[trigger] M::may_fail(e2)
            &&& (e == e2 || (is_backing_key_error(e) && pending_above(*map, start@)))
        },
        !pending_above(*map, start@) ==> (r matches Err(e) ==> M::may_fail(e)),
{
    let ghost ov = map.entries_view();
    let ghost ovm = map.view_map();
    let ghost base = inner.kv();
    let ghost view = apply_overlay(base, ovm);
    let n = map.len();
    let i0 = map.first_after(start);
    let mut i = i0;
    let mut c: Vec<u8> = key_to_vec(start);
    proof {
        map.lemma_view();
        lemma_lex_irreflexive(start@);
    }
    loop
        invariant
            map.wf(),
            inner.inv(),
            ov == map.entries_view(),
            ovm == map.view_map(),
            base == inner.kv(),
            view == apply_overlay(base, ovm),
            n == ov.len(),
            i0 <= i <= n,
            forall|j: int| 0 <= j < i0 ==> !lex_lt(start@, #[trigger] ov[j].0),
            forall|j: int| i0 <= j < n ==> lex_lt(start@, #[trigger] ov[j].0),
            merge_inv(base, ov, ovm, start@, c@, i0 as int, i as int),
        decreases n - i,
    {
        proof {
            map.lemma_view();
        }
        let store = match inner.get_next(c.as_slice()) {
            Ok(s) => s,
            Err(e) => {
                proof {
                    if i < n {
                        assert(map.view_map().contains_key(ov[i as int].0));
                        assert(pending_above(*map, start@));
                    }
                    if !pending_above(*map, start@) && i < n {
                        assert(false);
                    }
                }
                let err = merge_store_error(e, i < n);
                return Err(err);
            },
        };
        if i >= n {
            match store {
                None => {
                    proof {
                        assert forall|x: Seq<u8>| #[trigger] view.contains_key(x) implies !lex_lt(start@, x) by {
                            if lex_lt(start@, x) {
                                assert(lex_lt(c@, x));
                                if ovm.contains_key(x) {
                                    let j = choose|j: int| 0 <= j < ov.len() && #[trigger] ov[j].0 == x;
                                    assert(ovm[ov[j].0] == ov[j].1);
                                    if j < i0 {
                                    } else {
                                        assert(lex_lt(ov[j].0, x));
                                        lemma_lex_irreflexive(x);
                                    }
                                } else {
                                    assert(base.contains_key(x));
                                }
                            }
                        }
                    }
                    return Ok(None);
                },
                Some(kv) => {
                    proof {
                        let sk = kv.0@;
                        lemma_overlay_store_entry(base, ov, ovm, start@, c@, i0 as int, i as int, n as int, sk);
                        assert(is_next_after(view, start@, sk)) by {
                            assert forall|x: Seq<u8>| #[trigger] view.contains_key(x) && lex_lt(start@, x) implies x == sk || lex_lt(sk, x) by {
                                assert(lex_lt(c@, x));
                                if ovm.contains_key(x) {
                                    let j = choose|j: int| 0 <= j < ov.len() && #[trigger] ov[j].0 == x;
                                    assert(ovm[ov[j].0] == ov[j].1);
                                    if j >= i0 {
                                        assert(lex_lt(ov[j].0, x));
                                        lemma_lex_irreflexive(x);
                                    }
                                } else {
                                    assert(base.contains_key(x));
                                    if x != sk {
                                        lemma_lex_total(x, sk);
                                    }
                                }
                            }
                        }
                    }
                    return Ok(Some(kv));
                },
            }
        }
        let e = map.entry_at(i);
        proof {
            assert(entry_view(e) == ov[i as int]);
            crate::tree::kvmap::lemma_seq_to_map_at(ov, i as int);
            assert(ovm.contains_key(ov[i as int].0) && ovm[ov[i as int].0] == ov[i as int].1);
        }
        // what the pending write at `i` gives, once we know it comes first
        let take_overlay: bool;
        let mut advance_store = false;
        match &store {
            None => {
                take_overlay = true;
            },
            Some(kv) => {
                match compare_keys(e.0.as_slice(), kv.0.as_slice()) {
                    KeyOrder::Greater => {
                        proof {
                            let sk = kv.0@;
                            assert forall|j: int| i <= j < n implies lex_lt(sk, #[trigger] ov[j].0) by {
                                if j > i {
                                    assert(lex_lt(ov[i as int].0, ov[j].0));
                                    lemma_lex_transitive(sk, ov[i as int].0, ov[j].0);
                                }
                            }
                            lemma_overlay_store_entry(base, ov, ovm, start@, c@, i0 as int, i as int, n as int, sk);
                            assert(is_next_after(view, start@, sk)) by {
                                assert forall|x: Seq<u8>| #[trigger] view.contains_key(x) && lex_lt(start@, x) implies x == sk || lex_lt(sk, x) by {
                                    assert(lex_lt(c@, x));
                                    if ovm.contains_key(x) {
                                        let j = choose|j: int| 0 <= j < ov.len() && #[trigger] ov[j].0 == x;
                                        assert(ovm[ov[j].0] == ov[j].1);
                                        if j < i0 {
                                        } else if j < i {
                                            assert(lex_lt(ov[j].0, x));
                                            lemma_lex_irreflexive(x);
                                        } else if j > i {
                                            assert(lex_lt(ov[i as int].0, ov[j].0));
                                            lemma_lex_transitive(sk, ov[i as int].0, x);
                                        }
                                    } else {
                                        assert(base.contains_key(x));
                                        if x != sk {
                                            lemma_lex_total(x, sk);
                                        }
                                    }
                                }
                            }
                        }
                        return Ok(store);
                    },
                    KeyOrder::Equal => {
                        take_overlay = true;
                        advance_store = true;
                    },
                    KeyOrder::Less => {
                        take_overlay = true;
                    },
                }
            },
        }
        proof {
            assert(store matches Some(kv) ==> (if advance_store { kv.0@ == ov[i as int].0 } else { lex_lt(ov[i as int].0, kv.0@) }));
        }
        let ghost old_c = c@;
        if advance_store {
            c = key_to_vec(e.0.as_slice());
        }
        match e.1 {
            Some(v) => {
                proof {
                    let k = ov[i as int].0;
                    assert(view.contains_key(k) && view[k] == v@);
                    assert forall|x: Seq<u8>| #[trigger] view.contains_key(x) && lex_lt(start@, x) implies x == k || lex_lt(k, x) by {
                        assert(lex_lt(old_c, x));
                        if ovm.contains_key(x) {
                            let j = choose|j: int| 0 <= j < ov.len() && #[trigger] ov[j].0 == x;
                            assert(ovm[ov[j].0] == ov[j].1);
                            if j < i0 {
                            } else if j < i {
                                assert(lex_lt(ov[j].0, x));
                                lemma_lex_irreflexive(x);
                            } else if j > i {
                                assert(lex_lt(ov[i as int].0, ov[j].0));
                            }
                        } else {
                            assert(base.contains_key(x));
                            match store {
                                None => {},
                                Some(kv) => {
                                    let sk = kv.0@;
                                    if x != sk {
                                        assert(lex_lt(sk, x));
                                        if sk != k {
                                            lemma_lex_transitive(k, sk, x);
                                        }
                                    }
                                },
                            }
                        }
                    }
                }
                return Ok(Some((e.0, v)));
            },
            None => {},
        }
        proof {
            let k = ov[i as int].0;
            lemma_merge_skip(base, ov, ovm, start@, old_c, c@, i0 as int, i as int, n as int, store, advance_store);
        }
        i = i + 1;
    }
}

/// The next stored entry after the cursor, when no pending write up to it
/// remains, is readable and comes after `start`.
pub proof fn lemma_overlay_store_entry(
    base: Map<Seq<u8>, Seq<u8>>,
    ov: Seq<(Seq<u8>, Option<Seq<u8>>)>,
    ovm: Map<Seq<u8>, Option<Seq<u8>>>,
    start: Seq<u8>,
    c: Seq<u8>,
    i0: int,
    i: int,
    n: int,
    sk: Seq<u8>,
)
    requires
        crate::tree::kvmap::sorted_keys(ov),
        ovm == crate::tree::kvmap::seq_to_map(ov),
        n == ov.len(),
        0 <= i0 <= i <= n,
        forall|j: int| 0 <= j < i0 ==> !lex_lt(start, #[trigger] ov[j].0),
        merge_inv(base, ov, ovm, start, c, i0, i),
        is_next_after(base, c, sk),
        forall|j: int| i <= j < n ==> lex_lt(sk, #[trigger] ov[j].0),
    ensures
        !ovm.contains_key(sk),
        apply_overlay(base, ovm).contains_key(sk),
        apply_overlay(base, ovm)[sk] == base[sk],
        lex_lt(start, sk),
{
    if c != start {
        lemma_lex_transitive(start, c, sk);
    }
    if ovm.contains_key(sk) {
        let j = choose|j: int| 0 <= j < ov.len() && #[trigger] ov[j].0 == sk;
        if j < i0 {
        } else if j < i {
            assert(lex_lt(ov[j].0, sk));
            lemma_lex_irreflexive(sk);
        } else {
            assert(lex_lt(sk, ov[j].0));
            lemma_lex_irreflexive(sk);
        }
    }
}

/// Skipping a pending deletion keeps the merge invariant.
pub proof fn lemma_merge_skip(
    base: Map<Seq<u8>, Seq<u8>>,
    ov: Seq<(Seq<u8>, Option<Seq<u8>>)>,
    ovm: Map<Seq<u8>, Option<Seq<u8>>>,
    start: Seq<u8>,
    old_c: Seq<u8>,
    c: Seq<u8>,
    i0: int,
    i: int,
    n: int,
    store: Option<KV>,
    advance: bool,
)
    requires
        crate::tree::kvmap::sorted_keys(ov),
        ovm == crate::tree::kvmap::seq_to_map(ov),
        n == ov.len(),
        0 <= i0 <= i < n,
        forall|j: int| 0 <= j < i0 ==> !lex_lt(start, #[trigger] ov[j].0),
        forall|j: int| i0 <= j < n ==> lex_lt(start, #[trigger] ov[j].0),
        merge_inv(base, ov, ovm, start, old_c, i0, i),
        ov[i].1 is None,
        next_result(base, old_c, store),
        advance ==> (store matches Some(kv) && kv.0@ == ov[i].0 && c == ov[i].0),
        !advance ==> (c == old_c && (store matches Some(kv) ==> lex_lt(ov[i].0, kv.0@))),
    ensures
        merge_inv(base, ov, ovm, start, c, i0, i + 1),
{
    let view = apply_overlay(base, ovm);
    let k = ov[i].0;
    crate::tree::kvmap::lemma_seq_to_map_at(ov, i);
    assert(!view.contains_key(k));
    // a readable key above start lies above k
    assert forall|x: Seq<u8>| #[trigger] view.contains_key(x) && lex_lt(start, x) implies lex_lt(k, x) by {
        assert(lex_lt(old_c, x));
        if ovm.contains_key(x) {
            let j = choose|j: int| 0 <= j < ov.len() && #[trigger] ov[j].0 == x;
            crate::tree::kvmap::lemma_seq_to_map_at(ov, j);
            if j < i0 {
            } else if j < i {
                assert(lex_lt(ov[j].0, x));
                lemma_lex_irreflexive(x);
            } else if j == i {
            } else {
                assert(lex_lt(ov[i].0, ov[j].0));
            }
        } else {
            assert(base.contains_key(x));
            match store {
                None => {},
                Some(kv) => {
                    let sk = kv.0@;
                    if x != sk {
                        assert(lex_lt(sk, x));
                    }
                    if advance {
                        assert(sk == k);
                        if x == sk {
                            assert(ovm.contains_key(k));
                        }
                    } else {
                        if x != sk {
                            lemma_lex_transitive(k, sk, x);
                        }
                    }
                },
            }
        }
    }
    // a stored key above the new cursor lies above k
    assert forall|y: Seq<u8>, j: int| #[trigger] base.contains_key(y) && lex_lt(c, y) && i0 <= j < i + 1 implies lex_lt(#[trigger] ov[j].0, y) by {
        if advance {
            match store {
                None => {},
                Some(kv) => {
                    assert(lex_lt(old_c, kv.0@));
                    lemma_lex_transitive(old_c, c, y);
                },
            }
            if j == i {
            }
        } else {
            if j == i {
                match store {
                    None => {},
                    Some(kv) => {
                        let sk = kv.0@;
                        if y != sk {
                            assert(lex_lt(sk, y));
                            lemma_lex_transitive(k, sk, y);
                        }
                    },
                }
            }
        }
    }
    if advance {
        assert(lex_lt(start, c));
        assert forall|x: Seq<u8>| #[trigger] view.contains_key(x) && lex_lt(start, x) implies lex_lt(c, x) by {
        }
    }
    assert forall|x: Seq<u8>, j: int| #[trigger] view.contains_key(x) && lex_lt(start, x) && i0 <= j < i + 1 implies lex_lt(#[trigger] ov[j].0, x) by {
        if j < i {
        } else {
        }
    }
}

} // verus!

verus! {

/// Pending writes over nothing pending change nothing.
pub proof fn lemma_overlay_empty(base: Map<Seq<u8>, Seq<u8>>)
    ensures
        apply_overlay(base, Map::<Seq<u8>, Option<Seq<u8>>>::empty()) == base,
{
    assert(apply_overlay(base, Map::<Seq<u8>, Option<Seq<u8>>>::empty()) =~= base);
}

/// Writing a pending entry through to the store, and dropping it from the
/// table, leaves what reads see unchanged.
pub proof fn lemma_overlay_write_through(
    base: Map<Seq<u8>, Seq<u8>>,
    ov: Map<Seq<u8>, Option<Seq<u8>>>,
    k: Seq<u8>,
)
    requires
        ov.contains_key(k),
    ensures
        apply_overlay(
            match ov[k] {
                Some(v) => base.insert(k, v),
                None => base.remove(k),
            },
            ov.remove(k),
        ) == apply_overlay(base, ov),
{
    let b2 = match ov[k] {
        Some(v) => base.insert(k, v),
        None => base.remove(k),
    };
    assert(apply_overlay(b2, ov.remove(k)) =~= apply_overlay(base, ov));
}

impl<M: TreeDB> Write for CacheWrapper<M> {
    fn set(&mut self, k: Vec<u8>, v: Vec<u8>) -> (r: TreeResult<Vec<u8>>)
        ensures
            r matches Ok(rk) && rk@ == k@,
            final(self).inner_store() == old(self).inner_store(),
    {
        let rk = key_to_vec(k.as_slice());
        let ghost kk = k@;
        let ghost vv = v@;
        self.map.insert(k, Some(v));
        proof {
            assert(self.kv() =~= old(self).kv().insert(kk, vv));
        }
        Ok(rk)
    }

    fn delete(&mut self, k: Vec<u8>) -> (r: TreeResult<()>)
        ensures
            r is Ok,
            final(self).inner_store() == old(self).inner_store(),
    {
        let ghost kk = k@;
        self.map.insert(k, None);
        proof {
            assert(self.kv() =~= old(self).kv().remove(kk));
        }
        Ok(())
    }
}

impl<M: TreeDB> Batch for CacheWrapper<M> {
    fn commit(&mut self, operations: Vec<Operation>) -> (r: RootHash)
        ensures
            final(self).pending().view_map() == Map::<Seq<u8>, Option<Seq<u8>>>::empty(),
            final(self).inner_store().kv() == old(self).inner_store().kv_after_commit(
                ops_view(operations@) + entries_ops(old(self).pending().entries_view()),
            ),
    {
        let map = self.map.take();
        let mut operations = operations;
        let ghost given = operations@;
        let mut extra = map_to_batch(map);
        let ghost extra_v = extra@;
        operations.append(&mut extra);
        proof {
            assert(ops_view(operations@) =~= ops_view(given) + ops_view(extra_v));
        }
        let r = self.inner.commit(operations);
        proof {
            lemma_overlay_empty(self.inner.kv());
        }
        r
    }
}

impl<M: TreeDB> DB for CacheWrapper<M> {
    fn get_configuration(&self) -> (r: MerkleRocksDBConfiguration) {
        self.inner.get_configuration()
    }

    fn roll_back(&mut self, h: u64) -> (r: TreeResult<()>)
        ensures
            final(self).pending().view_map() == Map::<Seq<u8>, Option<Seq<u8>>>::empty(),
    {
        self.map = KvMap::new();
        let r = self.inner.roll_back_with_operation(RollBackOperation::MerkleHeight(h, Some(true)));
        proof {
            lemma_overlay_empty(self.inner.kv());
        }
        r
    }

    fn roll_back_with_operation(&mut self, ops: RollBackOperation) -> (r: TreeResult<()>) {
        self.inner.roll_back_with_operation(ops)
    }

    fn height(&self) -> (r: TreeResult<u64>) {
        self.inner.height()
    }

    fn clean(&mut self) -> (r: TreeResult<()>)
        ensures
            final(self).pending().view_map() == Map::<Seq<u8>, Option<Seq<u8>>>::empty(),
    {
        self.map = KvMap::new();
        let r = self.inner.clean();
        proof {
            lemma_overlay_empty(self.inner.kv());
        }
        r
    }

    fn flush(&mut self) -> (r: TreeResult<()>)
        ensures
            r is Ok ==> final(self).pending().view_map() == Map::<Seq<u8>, Option<Seq<u8>>>::empty(),
    {
        let mut map = self.map.take();
        let ghost target = old(self).kv();
        proof {
            lemma_overlay_empty(self.inner.kv());
        }
        while map.len() > 0
            invariant
                map.wf(),
                self.inv(),
                self.map.view_map() == Map::<Seq<u8>, Option<Seq<u8>>>::empty(),
                apply_overlay(self.inner.kv(), map.view_map()) == target,
            decreases map.entries_view().len(),
        {
            let ghost before = map.view_map();
            let ghost s0 = map.entries_view();
            let ghost base0 = self.inner.kv();
            let e = map.pop_first();
            match e {
                Some((key, v)) => {
                    let ghost kk = key@;
                    proof {
                        crate::tree::kvmap::lemma_seq_to_map_at(s0, 0);
                        crate::tree::kvmap::lemma_seq_to_map_remove(s0, 0);
                        assert(s0.remove(0) =~= s0.drop_first());
                        assert(before.contains_key(kk) && before[kk] == opt_bytes(v));
                    }
                    match v {
                        Some(value) => {
                            match self.inner.set(key, value) {
                                Ok(_) => {},
                                Err(err) => {
                                    return Err(err);
                                },
                            }
                        },
                        None => {
                            match self.inner.delete(key) {
                                Ok(_) => {},
                                Err(err) => {
                                    return Err(err);
                                },
                            }
                        },
                    }
                    proof {
                        lemma_overlay_write_through(base0, before, kk);
                        assert(map.view_map() == before.remove(kk));
                    }
                },
                None => {},
            }
        }
        proof {
            map.lemma_view();
            assert(map.view_map() =~= Map::<Seq<u8>, Option<Seq<u8>>>::empty());
            lemma_overlay_empty(self.inner.kv());
        }
        let ghost mid = self.inner;
        let r = self.inner.flush();
        proof {
            if r is Ok {
                assert(mid.kv() == old(self).kv());
                assert(mid.flushed(self.inner_store()));
            }
        }
        r
    }
}

impl<M: TreeDB> TreeDB for CacheWrapper<M> {
    fn prove(&self, req: ProveRequestEnums) -> (r: TreeResult<ProveResponseEnums>) {
        self.inner.prove(req)
    }

    fn verify(&self, req: VerifyRequestEnums) -> (r: TreeResult<VerifyResponse>) {
        self.inner.verify(req)
    }

    fn root_hash(&self) -> (r: RootHash) {
        self.inner.root_hash()
    }
}


/// Writing out a pending table, in key order, lays its writes over the
/// view: a pending value replaces the stored one, a pending deletion removes
/// the key, and other keys keep their values.
pub proof fn lemma_entries_overlay(m: Map<Seq<u8>, Seq<u8>>, es: Seq<(Seq<u8>, Option<Seq<u8>>)>)
    requires
        sorted_keys(es),
    ensures
        apply_ops(m, entries_ops(es)) == apply_overlay(m, seq_to_map(es)),
    decreases es.len(),
{
    if es.len() == 0 {
        assert(entries_ops(es) =~= Seq::<OpView>::empty());
        assert(apply_overlay(m, seq_to_map(es)) =~= m);
    } else {
        let n = es.len() - 1;
        let init = es.drop_last();
        let last = es[n];
        let k = last.0;
        assert(entries_ops(es).drop_last() =~= entries_ops(init));
        assert(entries_ops(es).last() == entry_op(last));
        assert(sorted_keys(init)) by {
            assert forall|i: int, j: int| 0 <= i < j < init.len() implies lex_lt(#[trigger] init[i].0, #[trigger] init[j].0) by {
                assert(init[i] == es[i] && init[j] == es[j]);
            }
        }
        lemma_entries_overlay(m, init);
        let before = apply_overlay(m, seq_to_map(init));
        let lhs = apply_op(before, entry_op(last));
        let rhs = apply_overlay(m, seq_to_map(es));
        lemma_seq_to_map_at(es, n);
        assert forall|x: Seq<u8>| #![trigger lhs.dom().contains(x)] #![trigger rhs.dom().contains(x)]
            lhs.contains_key(x) == rhs.contains_key(x) && (rhs.contains_key(x) ==> lhs[x] == rhs[x]) by {
            if x != k {
                assert(seq_to_map(es).contains_key(x) == seq_to_map(init).contains_key(x)) by {
                    if seq_to_map(es).contains_key(x) {
                        let j = choose|j: int| 0 <= j < es.len() && #[trigger] es[j].0 == x;
                        assert(j != n);
                        assert(init[j].0 == x);
                    }
                    if seq_to_map(init).contains_key(x) {
                        let j = choose|j: int| 0 <= j < init.len() && #[trigger] init[j].0 == x;
                        assert(es[j].0 == x);
                    }
                }
                if seq_to_map(init).contains_key(x) {
                    let j = choose|j: int| 0 <= j < init.len() && #[trigger] init[j].0 == x;
                    lemma_seq_to_map_at(init, j);
                    lemma_seq_to_map_at(es, j);
                    assert(es[j] == init[j]);
                }
            }
        }
        assert(lhs.dom() =~= rhs.dom());
        assert forall|x: Seq<u8>| #[trigger] lhs.dom().contains(x) implies lhs[x] == rhs[x] by {
            assert(rhs.contains_key(x));
        }
        assert(lhs =~= rhs);
    }
}

/// A commit through a cache over a memory store writes the given
/// operations and then every write that was pending: what reads return
/// afterwards is the pending writes laid over the inner store's view after
/// the operations; in particular a key with a pending write reads as that
/// write left it.
pub proof fn lemma_commit_keeps_pending(before: CacheWrapper<MemDB>, after: CacheWrapper<MemDB>, ops: Seq<OpView>)
    requires
        before.inv(),
        after.kv() == before.kv_after_commit(ops),
    ensures
        after.kv() == apply_overlay(apply_ops(before.inner_store().kv(), ops), before.pending().view_map()),
        forall|k: Seq<u8>| #[trigger] before.pending().view_map().contains_key(k)
            ==> lookup(after.kv(), k) == before.pending().view_map()[k],
{
    let es = before.pending().entries_view();
    lemma_apply_ops_append(before.inner_store().kv(), ops, entries_ops(es));
    lemma_entries_overlay(apply_ops(before.inner_store().kv(), ops), es);
}

} // verus!
