//! A key/value store over a Merkle tree of depth 32: address `a` is the
//! leaf at index `a + 2^32 - 1`.
use vstd::prelude::*;
use crate::zktree::merkle::{MerkleAdapter, is_leaf_index, data_written, path_written, path_fresh, store_failure};
use crate::zktree::record::MerkleRecord;
use crate::zktree::db::MerkleDB;
use crate::zktree::record::{MerkleProof, DataHashRecord, le_value, words_of, read_le_u64, nat_words};
use crate::zktree::error::{MerkleError, MerkleResult};
use crate::zktree::index::{pow2, lemma_pow2_64};
use crate::tree::keys::key_to_vec;

verus! {

/// The depth of the tree.
pub const MERKLE_TREE_HEIGHT: usize = 32;

/// The leaf index of an address.
pub open spec fn kv_index(address: u32) -> u64 {
    (address + 0x1_0000_0000 - 1) as u64
}

/// The 32 bytes `v` were put in the leaf of `address` of a tree whose
/// nodes were `old`, giving the nodes `new` and the root `root`, the path
/// recomputed with `hasher` (as `path_written` says).
pub open spec fn kv_value_written<F: Fn([u8; 32], [u8; 32]) -> [u8; 32]>(
    hasher: F,
    address: u32,
    v: [u8; 32],
    root: [u8; 32],
    old: Map<(u64, [u8; 32]), MerkleRecord>,
    new: Map<(u64, [u8; 32]), MerkleRecord>,
) -> bool {
    exists|hash: [u8; 32], assist: Seq<[u8; 32]>| #[trigger] data_written(hasher, 32, kv_index(address), v, hash, assist, root, old, new)
}

/// The little-endian 64-bit words of the bytes, whole words only.
pub open spec fn le_words(s: Seq<u8>) -> Seq<nat> {
    Seq::new(s.len() / 8, |i: int| le_value(s.subrange(8 * i, 8 * i + 8)))
}

/// The words of `data`, eight bytes each, any last partial word left out.
pub fn read_words(data: &[u8]) -> (r: Vec<u64>)
    ensures
        nat_words(r@) == le_words(data@),
{
    let mut out: Vec<u64> = Vec::new();
    let len = data.len();
    let n = len / 8;
    let mut i: usize = 0;
    let mut pos: usize = 0;
    while i < n
        invariant
            n == data@.len() / 8,
            len == data@.len(),
            i <= n,
            pos == 8 * i,
            out@.len() == i,
            forall|j: int| 0 <= j < i ==> out@[j] as nat == le_value(data@.subrange(8 * j, 8 * j + 8)),
        decreases n - i,
    {
        assert(8 * i + 8 <= data@.len()) by (nonlinear_arith)
            requires
                i < n,
                n == data@.len() / 8,
        ;
        let w = read_le_u64(data, pos);
        out.push(w);
        i = i + 1;
        pos = pos + 8;
    }
    proof {
        assert(nat_words(out@) =~= le_words(data@));
    }
    out
}

/// Addresses map to leaves of the depth-32 tree.
pub proof fn lemma_kv_index_is_leaf(address: u32)
    ensures
        is_leaf_index(32, kv_index(address) as nat),
{
    lemma_pow2_64();
    assert(pow2(32) == 0x1_0000_0000) by {
        reveal_with_fuel(pow2, 33);
    }
    assert(pow2(33) == 0x2_0000_0000) by {
        reveal_with_fuel(pow2, 34);
    }
}

/// A key/value store whose values sit in the leaves of a Merkle tree.
pub struct MerkleKv<T> {
    merkle: MerkleAdapter<T, 32>,
}

impl<T: MerkleDB> MerkleKv<T> {
    /// The tree.
    pub closed spec fn adapter(&self) -> MerkleAdapter<T, 32> {
        self.merkle
    }

    /// The tree is well formed and its store consistent.
    pub open spec fn wf(&self) -> bool {
        &&& self.adapter().wf()
        &&& self.adapter().store_view().inv()
    }

    /// A store over `store`; `default_hash` holds the empty-subtree hashes,
    /// leaf first. The `root` argument is not kept: the tree starts empty,
    /// its root the hash of an empty tree of depth 32 (`set_root` changes it).
    pub fn new(store: T, root: [u8; 32], default_hash: Vec<[u8; 32]>) -> (r: Self)
        requires
            default_hash@.len() > 32,
            store.inv(),
        ensures
            r.wf(),
            r.adapter().store_view() == store,
            r.adapter().default_hashes() == default_hash@,
            r.adapter().root_view() == default_hash@[32],
    {
        let merkle = MerkleAdapter::<T, 32>::new(store, default_hash);
        MerkleKv { merkle }
    }

    /// A value set is the value read. If putting `v` in the leaf of
    /// `address` of a tree whose nodes were `before` gave this store, with
    /// the leaf `leaf`, the parents `parents` and the sibling hashes
    /// `assist` (as `set_simple` reports), and no different node was stored
    /// before under the key of a node written, then reading the leaf of
    /// `address` finds `leaf`, which holds `v`, with the proof's sibling
    /// hashes `assist`.
    pub proof fn lemma_set_then_get<F: Fn([u8; 32], [u8; 32]) -> [u8; 32]>(
        &self,
        hasher: F,
        before: Map<(u64, [u8; 32]), MerkleRecord>,
        address: u32,
        v: [u8; 32],
        leaf: MerkleRecord,
        assist: Seq<[u8; 32]>,
        parents: Seq<(u64, [u8; 32], [u8; 32], [u8; 32])>,
    )
        requires
            leaf.index == kv_index(address),
            leaf.data == v,
            path_written(hasher, 32, leaf, assist, parents, self.adapter().root_view(), before, self.adapter().store_view().records()),
            path_fresh(before, leaf, parents),
        ensures
            forall|l: MerkleRecord, proof: MerkleProof| #[trigger] self.adapter().proves_leaf(kv_index(address), l, proof)
                ==> l == leaf && l.data == v && proof.assist@ == assist,
            forall|proof: MerkleProof|
                proof.source == leaf.hash && proof.root == self.adapter().root_view() && proof.index == kv_index(address) && proof.assist@ == assist
                    ==> #[trigger] self.adapter().proves_leaf(kv_index(address), leaf, proof),
    {
        lemma_kv_index_is_leaf(address);
        self.adapter().lemma_write_then_read(hasher, before, leaf, assist, parents);
    }

    /// Replaces the root hash.
    pub fn set_root(&mut self, root: &[u8; 32])
        requires
            old(self).wf(),
        ensures
            final(self).wf(),
            final(self).adapter().root_view() == *root,
            final(self).adapter().store_view() == old(self).adapter().store_view(),
            final(self).adapter().default_hashes() == old(self).adapter().default_hashes(),
    {
        self.merkle.update_root_hash(root);
    }

    /// The root hash.
    pub fn get_root(&self) -> (r: [u8; 32])
        ensures
            r == self.adapter().root_view(),
    {
        self.merkle.get_root_hash()
    }

    /// Puts the 32 bytes `v` in the leaf of `address`, its hash computed by
    /// `leaf_hasher`, and recomputes the path to the root with `hasher`.
    pub fn set_simple<G: Fn(&[u8]) -> [u8; 32], F: Fn([u8; 32], [u8; 32]) -> [u8; 32]>(
        &mut self,
        address: u32,
        v: &[u8; 32],
        leaf_hasher: &G,
        hasher: F,
    ) -> (r: MerkleResult<()>)
        requires
            old(self).wf(),
            forall|a: [u8; 32], b: [u8; 32]| call_requires(hasher, (a, b)),
            forall|a: &[u8]| call_requires(*leaf_hasher, (a,)),
        ensures
            final(self).wf(),
            r is Ok ==> exists|proof: MerkleProof| {
                &&& exists|a: &[u8]| a@ == v@ && #[trigger] call_ensures(*leaf_hasher, (a,), proof.source)
                &&& #[trigger] old(self).adapter().leaf_written(
                    hasher,
                    kv_index(address),
                    proof.source,
                    proof,
                    final(self).adapter().root_view(),
                    final(self).adapter().store_view().records(),
                )
            },
            r is Ok ==> kv_value_written(hasher, address, *v, final(self).adapter().root_view(),
                old(self).adapter().store_view().records(), final(self).adapter().store_view().records()),
            r matches Err(e) ==> store_failure::<T>(e) || old(self).adapter().leaf_read_fails(kv_index(address), e),
    {
        let index = address as u64 + 0x1_0000_0000 - 1;
        proof {
            lemma_kv_index_is_leaf(address);
            assert(index == kv_index(address));
            assert(old(self).adapter() == self.merkle);
        }
        let proof = self.merkle.update_leaf_data_with_proof(index, *v, leaf_hasher, hasher)?;
        proof {
            assert(index == kv_index(address));
            assert(old(self).adapter() == old(self).merkle);
            assert(v@ == (*v)@);
            assert(data_written(hasher, 32, kv_index(address), *v, proof.source, proof.assist@, self.adapter().root_view(),
                old(self).adapter().store_view().records(), self.adapter().store_view().records()));
            assert(kv_value_written(hasher, address, *v, self.adapter().root_view(), old(self).adapter().store_view().records(), self.adapter().store_view().records()));
        }
        Ok(())
    }

    /// Binds `data` to the leaf of `address`: the leaf holds the hash of the
    /// data (computed by `data_hasher`, which also hashes the leaf), the path
    /// to the root is recomputed with `hasher`, and non-empty data is stored
    /// under its hash.
    pub fn set<G: Fn(&[u8]) -> [u8; 32], F: Fn([u8; 32], [u8; 32]) -> [u8; 32]>(
        &mut self,
        address: u32,
        data: &[u8],
        data_hasher: &G,
        hasher: F,
    ) -> (r: MerkleResult<()>)
        requires
            old(self).wf(),
            forall|a: [u8; 32], b: [u8; 32]| call_requires(hasher, (a, b)),
            forall|a: &[u8]| call_requires(*data_hasher, (a,)),
        ensures
            final(self).wf(),
            r is Ok ==> exists|h: [u8; 32]| {
                &&& #[trigger] call_ensures(*data_hasher, (data,), h)
                &&& data@.len() > 0 ==> final(self).adapter().store_view().data_hashes().contains_key(h)
                &&& data@.len() > 0 ==> final(self).adapter().store_view().data_hashes()[h] == data@
            },
            r is Ok ==> exists|proof: MerkleProof, h: [u8; 32]| {
                &&& #[trigger] call_ensures(*data_hasher, (data,), h)
                &&& exists|a: &[u8]| a@ == h@ && #[trigger] call_ensures(*data_hasher, (a,), proof.source)
                &&& #[trigger] old(self).adapter().leaf_written(
                    hasher,
                    kv_index(address),
                    proof.source,
                    proof,
                    final(self).adapter().root_view(),
                    final(self).adapter().store_view().records(),
                )
            },
            r matches Err(e) ==> store_failure::<T>(e) || old(self).adapter().leaf_read_fails(kv_index(address), e),
    {
        let index = address as u64 + 0x1_0000_0000 - 1;
        proof {
            lemma_kv_index_is_leaf(address);
            assert(index == kv_index(address));
            assert(old(self).adapter() == self.merkle);
        }
        let hash = data_hasher(data);
        let proof = self.merkle.update_leaf_data_with_proof(index, hash, data_hasher, hasher)?;
        let ghost mid_records = self.merkle.store_view().records();
        let ghost mid_root = self.merkle.root_view();
        proof {
            assert(index == kv_index(address));
            assert(old(self).merkle.leaf_written(hasher, kv_index(address), proof.source, proof, mid_root, mid_records));
        }
        if data.len() > 0 {
            let record = DataHashRecord { hash, data: key_to_vec(data) };
            if let Err(msg) = self.merkle.store_mut().update_data_hash(record) {
                return Err(MerkleError::Store(msg));
            }
        }
        proof {
            assert(self.merkle.store_view().records() == mid_records);
            assert(self.merkle.root_view() == mid_root);
            assert(old(self).adapter().leaf_written(
                hasher,
                kv_index(address),
                proof.source,
                proof,
                self.adapter().root_view(),
                self.adapter().store_view().records(),
            ));
        }
        Ok(())
    }

    /// The data of the leaf of `address` as four little-endian words, and
    /// the leaf's proof.
    pub fn get_simple(&mut self, k: u32) -> (r: MerkleResult<([u64; 4], MerkleProof)>)
        requires
            old(self).wf(),
        ensures
            *final(self) == *old(self),
            r matches Ok((words, proof)) ==> exists|leaf: crate::zktree::record::MerkleRecord| {
                &&& #[trigger] old(self).adapter().proves_leaf(kv_index(k), leaf, proof)
                &&& nat_words(words@) == words_of(leaf.data@)
            },
            r matches Err(e) ==> store_failure::<T>(e) || old(self).adapter().leaf_read_fails(kv_index(k), e),
    {
        let index = k as u64 + 0x1_0000_0000 - 1;
        proof {
            lemma_kv_index_is_leaf(k);
            assert(index == kv_index(k));
            assert(old(self).adapter() == self.merkle);
        }
        let (leaf, proof) = self.merkle.get_leaf_with_proof(index)?;
        let words = leaf.data_as_u64();
        proof {
            assert(index == kv_index(k));
            assert(old(self).adapter().proves_leaf(kv_index(k), leaf, proof));
            assert(nat_words(words@) == words_of(leaf.data@));
        }
        let r: MerkleResult<([u64; 4], MerkleProof)> = Ok((words, proof));
        proof {
            assert(r matches Ok((w, p)) ==> p == proof);
            assert(r matches Ok((w, p)) ==> w == words);
            assert(r matches Ok((w, p)) ==> old(self).adapter().proves_leaf(kv_index(k), leaf, p));
            assert(r matches Ok((w, p)) ==> exists|l: crate::zktree::record::MerkleRecord| {
                &&& #[trigger] old(self).adapter().proves_leaf(kv_index(k), l, p)
                &&& nat_words(w@) == words_of(l.data@)
            });
        }
        r
    }

    /// Reads the data bound to the leaf of `k` into `data`, as little-endian
    /// words, and gives the number of words and the leaf's proof. With no
    /// data stored under the leaf's value, nothing is written.
    pub fn get(&mut self, k: u32, data: &mut [u64]) -> (r: MerkleResult<(u64, MerkleProof)>)
        requires
            old(self).wf(),
            forall|h: [u8; 32]| #[trigger] old(self).adapter().store_view().data_hashes().contains_key(h)
                ==> old(self).adapter().store_view().data_hashes()[h].len() / 8 <= old(data)@.len(),
        ensures
            *final(self) == *old(self),
            final(data)@.len() == old(data)@.len(),
            r matches Ok((n, proof)) ==> exists|leaf: crate::zktree::record::MerkleRecord| {
                let stored = old(self).adapter().store_view().data_hashes();
                let words = if stored.contains_key(leaf.data) { le_words(stored[leaf.data]) } else { Seq::empty() };
                &&& #[trigger] old(self).adapter().proves_leaf(kv_index(k), leaf, proof)
                &&& n == words.len()
                &&& forall|i: int| 0 <= i < words.len() ==> final(data)@[i] as nat == words[i]
                &&& forall|i: int| words.len() <= i < old(data)@.len() ==> final(data)@[i] == old(data)@[i]
            },
            r matches Err(e) ==> store_failure::<T>(e) || old(self).adapter().leaf_read_fails(kv_index(k), e),
    {
        let index = k as u64 + 0x1_0000_0000 - 1;
        proof {
            lemma_kv_index_is_leaf(k);
            assert(index == kv_index(k));
            assert(old(self).adapter() == self.merkle);
        }
        let (leaf, proof) = self.merkle.get_leaf_with_proof(index)?;
        let hash = leaf.data;
        let found = match self.merkle.store().get_data_by_hash(&hash) {
            Ok(found) => found,
            Err(msg) => {
                return Err(MerkleError::Store(msg));
            }
        };
        let d: Vec<u64> = match found {
            Some(rec) => {
                proof {
                    assert(old(self).adapter().store_view().data_hashes().contains_key(hash));
                    assert(rec.data@.len() / 8 <= old(data)@.len());
                }
                let w = read_words(rec.data.as_slice());
                proof {
                    assert(nat_words(w@).len() == w@.len());
                    assert(w@.len() == rec.data@.len() / 8);
                }
                w
            }
            None => Vec::new(),
        };
        let ghost stored = old(self).adapter().store_view().data_hashes();
        let ghost words = if stored.contains_key(leaf.data) { le_words(stored[leaf.data]) } else { Seq::<nat>::empty() };
        proof {
            assert(nat_words(d@) =~= words);
        }
        let ghost before = data@;
        let mut i: usize = 0;
        while i < d.len()
            invariant
                i <= d@.len(),
                d@.len() <= data@.len(),
                data@.len() == before.len(),
                forall|j: int| 0 <= j < i ==> data@[j] == d@[j],
                forall|j: int| i <= j < before.len() ==> data@[j] == before[j],
            decreases d@.len() - i,
        {
            data[i] = d[i];
            i = i + 1;
        }
        proof {
            assert(index == kv_index(k));
            assert(old(self).adapter().proves_leaf(kv_index(k), leaf, proof));
            assert forall|j: int| 0 <= j < words.len() implies data@[j] as nat == words[j] by {
                assert(nat_words(d@)[j] == d@[j] as nat);
            }
        }
        let r: MerkleResult<(u64, MerkleProof)> = Ok((d.len() as u64, proof));
        proof {
            assert(r matches Ok((c, p)) ==> p == proof && c == words.len());
        }
        r
    }
}

} // verus!
