//! The Merkle tree adapter: which indices are nodes and leaves, the
//! root-to-leaf path of a leaf, the default (empty-subtree) nodes, and the
//! hashes along a leaf's path after the leaf changes.
use vstd::prelude::*;
use crate::zktree::error::{MerkleError, MerkleErrorCode, MerkleResult};
use crate::zktree::record::{MerkleRecord, MerkleProof, is_zero};
use crate::zktree::db::{MerkleDB, record_key, insert_records};
use crate::zktree::index::{pow2, pow2_u64, ilog2, depth_of, lemma_pow2_mono, lemma_pow2_pos, lemma_pow2_64, lemma_depth_unique, ancestor, lemma_div_pow2_step, lemma_ancestor_chain, lemma_ancestor_bound, lemma_child_side, lemma_ancestor_increasing, node_index, get_offset};

verus! {

/// The hashes of empty subtrees, from a leaf (`0`) up: each is the hash of
/// two copies of the one before, as `hasher` computes it.
pub open spec fn default_chain<F: Fn([u8; 32], [u8; 32]) -> [u8; 32]>(
    hasher: F,
    leaf: [u8; 32],
    v: Seq<[u8; 32]>,
) -> bool {
    &&& v.len() >= 1
    &&& v[0] == leaf
    &&& forall|i: int| 0 <= i < v.len() - 1 ==> call_ensures(hasher, (v[i], v[i]), #[trigger] v[i + 1])
}

/// Computes the hashes of empty subtrees of heights `0 ..= levels`, starting
/// from the hash of an empty leaf.
pub fn compute_default_hashes<F: Fn([u8; 32], [u8; 32]) -> [u8; 32]>(
    leaf_hash: [u8; 32],
    levels: usize,
    hasher: F,
) -> (r: Vec<[u8; 32]>)
    requires
        levels < usize::MAX,
        forall|a: [u8; 32], b: [u8; 32]| call_requires(hasher, (a, b)),
    ensures
        r@.len() == levels + 1,
        default_chain(hasher, leaf_hash, r@),
{
    let mut leaf = leaf_hash;
    let mut default_hash: Vec<[u8; 32]> = Vec::new();
    default_hash.push(leaf);
    let mut i: usize = 0;
    while i < levels
        invariant
            i <= levels < usize::MAX,
            default_hash@.len() == i + 1,
            default_chain(hasher, leaf_hash, default_hash@),
            leaf == default_hash@.last(),
            forall|a: [u8; 32], b: [u8; 32]| call_requires(hasher, (a, b)),
        decreases levels - i,
    {
        leaf = hasher(leaf, leaf);
        let ghost before = default_hash@;
        default_hash.push(leaf);
        proof {
            assert forall|j: int| 0 <= j < default_hash@.len() - 1 implies call_ensures(hasher, (default_hash@[j], default_hash@[j]), #[trigger] default_hash@[j + 1]) by {
                if j < before.len() - 1 {
                    assert(default_hash@[j] == before[j] && default_hash@[j + 1] == before[j + 1]);
                }
            }
        }
        i = i + 1;
    }
    default_hash
}

/// A Merkle tree of depth `DEPTH` over a record store: leaves are the nodes
/// of depth `DEPTH`.
pub struct MerkleAdapter<T, const DEPTH: usize> {
    pub store: T,
    default_hash: Vec<[u8; 32]>,
    root: [u8; 32],
}

impl<T, const DEPTH: usize> MerkleAdapter<T, DEPTH> {
    /// The empty-subtree hashes, leaf first.
    pub closed spec fn default_hashes(&self) -> Seq<[u8; 32]> {
        self.default_hash@
    }

    /// The record store.
    pub closed spec fn store_view(&self) -> T {
        self.store
    }

    /// The current root hash.
    pub closed spec fn root_view(&self) -> [u8; 32] {
        self.root
    }

    /// Depth is small enough for all indices to fit in 64 bits, and there is
    /// an empty-subtree hash for every height.
    pub open spec fn wf(&self) -> bool {
        &&& DEPTH <= 62
        &&& self.default_hashes().len() > DEPTH
    }

    /// An adapter over `store` whose tree is empty: its root is the hash of
    /// an empty tree of depth `DEPTH`.
    pub fn new(store: T, default_hash: Vec<[u8; 32]>) -> (r: Self)
        requires
            DEPTH <= 62,
            default_hash@.len() > DEPTH,
        ensures
            r.wf(),
            r.store_view() == store,
            r.default_hashes() == default_hash@,
            r.root_view() == default_hash@[DEPTH as int],
    {
        let root = default_hash[DEPTH];
        MerkleAdapter { store, default_hash, root }
    }

    /// The record store.
    pub fn store(&self) -> (r: &T)
        ensures
            *r == self.store_view(),
    {
        &self.store
    }

    /// The record store, to write to; the rest of the adapter stays.
    pub fn store_mut(&mut self) -> (r: &mut T)
        ensures
            *r == old(self).store_view(),
            final(self).store_view() == *final(r),
            final(self).root_view() == old(self).root_view(),
            final(self).default_hashes() == old(self).default_hashes(),
    {
        &mut self.store
    }

    /// The depth of the tree.
    pub fn height() -> (r: usize)
        ensures
            r == DEPTH,
    {
        DEPTH
    }

    /// The current root hash.
    pub fn get_root_hash(&self) -> (r: [u8; 32])
        ensures
            r == self.root_view(),
    {
        self.root
    }

    /// Replaces the root hash.
    pub fn update_root_hash(&mut self, hash: &[u8; 32])
        ensures
            final(self).root_view() == *hash,
            final(self).store_view() == old(self).store_view(),
            final(self).default_hashes() == old(self).default_hashes(),
    {
        self.root = *hash;
    }

    /// Whether `index` names a node: below `2^(DEPTH+1) - 1`.
    pub fn boundary_check(&self, index: u64) -> (r: MerkleResult<()>)
        requires
            self.wf(),
        ensures
            r is Ok <==> index < pow2(DEPTH as nat + 1) - 1,
            r matches Err(e) ==> zero_hash_error(e, index, MerkleErrorCode::InvalidIndex),
    {
        proof {
            lemma_pow2_mono(DEPTH as nat + 1, 63);
            lemma_pow2_64();
            lemma_pow2_pos(DEPTH as nat);
            lemma_pow2_pos(DEPTH as nat + 1);
        }
        if index >= pow2_u64(DEPTH as u32 + 1) - 1 {
            Err(MerkleError::WithErrorCode([0; 32], index, MerkleErrorCode::InvalidIndex))
        } else {
            Ok(())
        }
    }

    /// Whether `index` names a leaf: between `2^DEPTH - 1` and
    /// `2^(DEPTH+1) - 2`.
    pub fn leaf_check(&self, index: u64) -> (r: Result<(), MerkleError>)
        requires
            self.wf(),
        ensures
            r is Ok <==> pow2(DEPTH as nat) - 1 <= index < pow2(DEPTH as nat + 1) - 1,
            r matches Err(e) ==> zero_hash_error(e, index, MerkleErrorCode::InvalidLeafIndex),
    {
        proof {
            lemma_pow2_mono(DEPTH as nat + 1, 63);
            lemma_pow2_64();
            lemma_pow2_pos(DEPTH as nat);
            lemma_pow2_pos(DEPTH as nat + 1);
        }
        if index >= pow2_u64(DEPTH as u32) - 1 && index < pow2_u64(DEPTH as u32 + 1) - 1 {
            Ok(())
        } else {
            Err(MerkleError::new([0; 32], index, MerkleErrorCode::InvalidLeafIndex))
        }
    }

    /// The nodes from the root (excluded) down to the leaf `index`
    /// (included): the `k`-th is the ancestor of the leaf at depth `k + 1`.
    pub fn get_path(&self, index: u64) -> (r: Result<Vec<u64>, MerkleError>)
        requires
            self.wf(),
        ensures
            r is Ok <==> is_leaf_index(DEPTH as nat, index as nat),
            r matches Err(e) ==> zero_hash_error(e, index, MerkleErrorCode::InvalidLeafIndex),
    r matches Ok(path) ==> path@ == leaf_path(DEPTH as nat, index as nat),
    {
        self.leaf_check(index)?;
        proof {
            lemma_pow2_mono(DEPTH as nat + 1, 63);
            lemma_pow2_64();
        }
        let mut height = ilog2(index + 1);
        proof {
            lemma_depth_unique(index as nat, height as nat, DEPTH as nat);
        }
        let round = height;
        let full = pow2_u64(height) - 1;
        let mut p = index - full;
        let ghost off = p as nat;
        let mut path: Vec<u64> = Vec::new();
        let mut t: u32 = 0;
        proof {
            vstd::arithmetic::div_mod::lemma_div_basics(off as int);
        }
        while t < round
            invariant
                round == DEPTH <= 62,
                t <= round,
                height == round - t,
                off == leaf_offset(DEPTH as nat, index as nat),
                off < pow2(DEPTH as nat),
                p as nat == off / pow2(t as nat),
                p < pow2(height as nat),
                path@.len() == t,
                forall|j: int| 0 <= j < t ==> path@[j] == ancestor(DEPTH as nat, off, (height + 1 + j) as nat),
            decreases round - t,
        {
            proof {
                lemma_pow2_mono(height as nat, 63);
                lemma_pow2_64();
                lemma_pow2_pos(height as nat);
            }
            let full = pow2_u64(height) - 1;
            let i = full + p;
            let ghost before = path@;
            path.insert(0, i);
            proof {
                assert((DEPTH - height) as nat == t as nat);
                assert(path@[0] == ancestor(DEPTH as nat, off, height as nat));
                assert forall|j: int| 0 <= j < t + 1 implies path@[j] == ancestor(DEPTH as nat, off, (height - 1 + 1 + j) as nat) by {
                    if j > 0 {
                        assert(path@[j] == before[j - 1]);
                    }
                }
                lemma_div_pow2_step(off, t as nat);
                assert(pow2(height as nat) == 2 * pow2((height - 1) as nat));
            }
            height = height - 1;
            p = p / 2;
            t = t + 1;
        }
        proof {
            assert(path@ =~= leaf_path(DEPTH as nat, index as nat));
        }
        Ok(path)
    }

    /// The hash of an empty subtree whose root is at depth `depth`.
    pub fn get_default_hash(&self, depth: usize) -> (r: Result<[u8; 32], MerkleError>)
        requires
            self.wf(),
        ensures
            depth <= DEPTH ==> r == Ok::<[u8; 32], MerkleError>(self.default_hashes()[DEPTH - depth]),
            depth > DEPTH ==> (r matches Err(e) && zero_hash_error(e, depth as u64, MerkleErrorCode::InvalidDepth)),
    {
        if depth <= DEPTH {
            Ok(self.default_hash[DEPTH - depth])
        } else {
            Err(MerkleError::new([0; 32], depth as u64, MerkleErrorCode::InvalidDepth))
        }
    }

    /// The node at `index` of an empty tree: its hash is the empty-subtree
    /// hash for its depth, and both children hashes are that of the depth
    /// below (zero for a leaf).
    pub fn generate_default_node(&self, index: u64) -> (r: Result<MerkleRecord, MerkleError>)
        requires
            self.wf(),
            index < u64::MAX,
        ensures
            r matches Ok(node) ==> node.index == index,
            forall|d: nat| depth_of(index as nat, d) ==> {
                &&& d <= DEPTH ==> (r matches Ok(node) && self.is_default_node(node, index, d))
                &&& d > DEPTH ==> (r matches Err(e) && zero_hash_error(e, d as u64, MerkleErrorCode::InvalidDepth))
            },
    {
        let height = ilog2(index + 1);
        proof {
            assert(depth_of(index as nat, height as nat));
            assert forall|d: nat| depth_of(index as nat, d) implies d == height by {
                lemma_depth_unique(index as nat, d, height as nat);
            }
        }
        let default = self.get_default_hash(height as usize)?;
        let child_hash = if height as usize == DEPTH {
            [0u8; 32]
        } else {
            self.get_default_hash((height + 1) as usize)?
        };
        let r = MerkleRecord { index, hash: default, data: [0; 32], left: child_hash, right: child_hash };
        proof {
            if height as usize == DEPTH {
                assert(is_zero(child_hash));
            }
        }
        Ok(r)
    }

    /// `node` is the default node at `index`, of depth `d`.
    pub open spec fn is_default_node(&self, node: MerkleRecord, index: u64, d: nat) -> bool {
        &&& node.index == index
        &&& node.hash == self.default_hashes()[DEPTH - d]
        &&& is_zero(node.data)
        &&& d == DEPTH ==> is_zero(node.left) && is_zero(node.right)
        &&& d < DEPTH ==> node.left == self.default_hashes()[DEPTH - d - 1] && node.right == self.default_hashes()[DEPTH - d - 1]
    }

    /// What checking `hash` against the default node at `index`, of depth
    /// `d`, gives: that node if its hash is `hash`, else the error.
    pub open spec fn default_check(&self, index: u64, hash: [u8; 32], d: nat, r: MerkleResult<MerkleRecord>) -> bool {
        &&& d > DEPTH ==> (r matches Err(e) && zero_hash_error(e, d as u64, MerkleErrorCode::InvalidDepth))
        &&& (d <= DEPTH && self.default_hashes()[DEPTH - d] == hash) ==> (r matches Ok(node) && self.is_default_node(node, index, d))
        &&& (d <= DEPTH && self.default_hashes()[DEPTH - d] != hash) ==> r == Err::<MerkleRecord, MerkleError>(MerkleError::WithErrorCode(hash, index, MerkleErrorCode::InvalidHash))
    }

    /// The default node at `index`, provided its hash is `hash`.
    pub fn check_generate_default_node(&self, index: u64, hash: &[u8; 32]) -> (r: Result<MerkleRecord, MerkleError>)
        requires
            self.wf(),
            index < u64::MAX,
        ensures
            r matches Ok(node) ==> node.index == index && node.hash == *hash,
            forall|d: nat| depth_of(index as nat, d) ==> self.default_check(index, *hash, d, r),
    {
        let node = self.generate_default_node(index)?;
        if hash_eq(&node.hash, hash) {
            Ok(node)
        } else {
            Err(MerkleError::new(*hash, index, MerkleErrorCode::InvalidHash))
        }
    }
}

/// The hashes of the child of `node` (which sits at `parent`) towards
/// `child`, and of the other child.
pub open spec fn toward(parent: u64, node: MerkleRecord, child: u64) -> ([u8; 32], [u8; 32]) {
    if child == 2 * parent + 1 {
        (node.left, node.right)
    } else {
        (node.right, node.left)
    }
}

/// The parent of the `k`-th node of `path`: the root for the first.
pub open spec fn path_parent(path: Seq<u64>, k: int) -> u64 {
    if k == 0 {
        0
    } else {
        path[k - 1]
    }
}

/// The sibling hashes met going down `path` through `nodes`.
pub open spec fn siblings(path: Seq<u64>, nodes: Seq<MerkleRecord>) -> Seq<[u8; 32]> {
    Seq::new(path.len(), |k: int| toward(path_parent(path, k), nodes[k], path[k]).1)
}

/// The nodes below the root on the way to leaf `index`: the `k`-th is the
/// leaf's ancestor at depth `k + 1`.
pub open spec fn leaf_path(depth: nat, index: nat) -> Seq<u64> {
    Seq::new(depth, |k: int| ancestor(depth, leaf_offset(depth, index), (k + 1) as nat) as u64)
}

/// A lookup result without its found-in-store flag.
pub open spec fn drop_flag(r: MerkleResult<(MerkleRecord, bool)>) -> MerkleResult<MerkleRecord> {
    match r {
        Ok((node, _)) => Ok(node),
        Err(e) => Err(e),
    }
}

/// `index` is a leaf of a tree of depth `depth`.
pub open spec fn is_leaf_index(depth: nat, index: nat) -> bool {
    pow2(depth) - 1 <= index < pow2(depth + 1) - 1
}

/// The position of leaf `index` among the leaves.
pub open spec fn leaf_offset(depth: nat, index: nat) -> nat {
    (index + 1 - pow2(depth)) as nat
}

/// `e` is the error with code `code` about `index` and an all-zero hash.
pub open spec fn zero_hash_error(e: MerkleError, index: u64, code: MerkleErrorCode) -> bool {
    e matches MerkleError::WithErrorCode(h, i, c) && is_zero(h) && i == index && c == code
}

/// Whether two hashes are equal.
pub fn hash_eq(a: &[u8; 32], b: &[u8; 32]) -> (r: bool)
    ensures
        r == (*a == *b),
{
    let mut i: usize = 0;
    while i < 32
        invariant
            i <= 32,
            forall|j: int| 0 <= j < i ==> a@[j] == b@[j],
        decreases 32 - i,
    {
        if a[i] != b[i] {
            return false;
        }
        i = i + 1;
    }
    proof {
        assert(*a =~= *b);
    }
    true
}

/// The failure is one the store `T` may give.
pub open spec fn store_failure<T: MerkleDB>(e: MerkleError) -> bool {
    e matches MerkleError::Store(m) && T::fails_with(m@)
}

/// The request failed in the store `T`.
pub open spec fn failed_in_store<T: MerkleDB, A>(r: MerkleResult<A>) -> bool {
    r matches Err(e) && store_failure::<T>(e)
}

impl<T: MerkleDB, const DEPTH: usize> MerkleAdapter<T, DEPTH> {
    /// What looking for the node at `index` with `hash` gives: the stored
    /// node when `lookup` is set and the store has one under that index and
    /// hash (flagged as found), else the default node of that position if
    /// `hash` is its hash (flagged as not found), else an error.
    pub open spec fn resolves(&self, index: u64, hash: [u8; 32], lookup: bool, r: MerkleResult<(MerkleRecord, bool)>) -> bool {
        let recs = self.store_view().records();
        if lookup && recs.contains_key((index, hash)) {
            r == Ok::<(MerkleRecord, bool), MerkleError>((recs[(index, hash)], true))
        } else {
            &&& r matches Ok((_, found)) ==> !found
            &&& forall|d: nat| depth_of(index as nat, d) ==> self.default_check(index, hash, d, drop_flag(r))
        }
    }

    /// The first `n + 1` nodes found going down `path` from the root whose
    /// hash is `root`: each looked up under the hash its parent gives it,
    /// in the store only while every node above was found there.
    pub open spec fn walk(&self, root: [u8; 32], path: Seq<u64>, n: nat, nodes: Seq<MerkleRecord>, flags: Seq<bool>) -> bool {
        &&& n <= path.len()
        &&& nodes.len() == n + 1
        &&& flags.len() == n + 1
        &&& self.resolves(0, root, true, Ok((nodes[0], flags[0])))
        &&& forall|k: int| #![trigger nodes[k + 1]] 0 <= k < n ==>
            self.resolves(path[k], toward(path_parent(path, k), nodes[k], path[k]).0, flags[k], Ok((nodes[k + 1], flags[k + 1])))
    }

    /// A walk extends by one node found from the last.
    proof fn lemma_walk_push(&self, root: [u8; 32], path: Seq<u64>, n: nat, nodes: Seq<MerkleRecord>, flags: Seq<bool>, node: MerkleRecord, flag: bool)
        requires
            self.walk(root, path, n, nodes, flags),
            n < path.len(),
            self.resolves(path[n as int], toward(path_parent(path, n as int), nodes[n as int], path[n as int]).0, flags[n as int], Ok((node, flag))),
        ensures
            self.walk(root, path, n + 1, nodes.push(node), flags.push(flag)),
    {
        let ns = nodes.push(node);
        let fs = flags.push(flag);
        assert forall|k: int| #![trigger ns[k + 1]] 0 <= k < n + 1 implies
            self.resolves(path[k], toward(path_parent(path, k), ns[k], path[k]).0, fs[k], Ok((ns[k + 1], fs[k + 1]))) by {
            if k < n {
                assert(ns[k] == nodes[k] && ns[k + 1] == nodes[k + 1]);
                assert(fs[k] == flags[k] && fs[k + 1] == flags[k + 1]);
            }
        }
    }

    /// `leaf` is what going down from the root to leaf `index` finds, and
    /// `proof` holds its hash, the root, and the sibling hashes met on the
    /// way, top first.
    pub open spec fn proves_leaf(&self, index: u64, leaf: MerkleRecord, proof: MerkleProof) -> bool {
        exists|nodes: Seq<MerkleRecord>, flags: Seq<bool>| {
            &&& #[trigger] self.walk(self.root_view(), leaf_path(DEPTH as nat, index as nat), DEPTH as nat, nodes, flags)
            &&& leaf == nodes.last()
            &&& proof.source == leaf.hash
            &&& proof.root == self.root_view()
            &&& proof.index == index
            &&& proof.assist@ == siblings(leaf_path(DEPTH as nat, index as nat), nodes)
        }
    }

    /// Writing the leaf at `index` with hash `leaf_hash` into this tree gave
    /// `proof`, the root `new_root` and the stored nodes `new_recs`: the
    /// proof's siblings are those met going down to the leaf, the parents'
    /// hashes are recomputed from the leaf up with `hasher`, the last is the
    /// new root, and the leaf and every parent are stored.
    pub open spec fn leaf_written<F: Fn([u8; 32], [u8; 32]) -> [u8; 32]>(
        &self,
        hasher: F,
        index: u64,
        leaf_hash: [u8; 32],
        proof: MerkleProof,
        new_root: [u8; 32],
        new_recs: Map<(u64, [u8; 32]), MerkleRecord>,
    ) -> bool {
        &&& proof.index == index
        &&& proof.source == leaf_hash
        &&& proof.root == new_root
        &&& exists|nodes: Seq<MerkleRecord>, flags: Seq<bool>| {
            &&& #[trigger] self.walk(self.root_view(), leaf_path(DEPTH as nat, index as nat), DEPTH as nat, nodes, flags)
            &&& proof.assist@ == siblings(leaf_path(DEPTH as nat, index as nat), nodes)
        }
        &&& exists|parents: Seq<(u64, [u8; 32], [u8; 32], [u8; 32])>| {
            &&& parents.len() == DEPTH
            &&& #[trigger] climb(hasher, DEPTH as nat, leaf_offset(DEPTH as nat, index as nat), proof.assist@, leaf_hash, parents)
            &&& new_root == climb_root(leaf_hash, parents)
            &&& forall|i: int| 0 <= i < DEPTH ==> new_recs.contains_key(((#[trigger] parents[i]).0, parents[i].1))
        }
        &&& new_recs.contains_key((index, leaf_hash))
    }

    /// The node written at depth `t` of a leaf's path, and its hash: the
    /// parent written at that depth, or the leaf at the bottom.
    proof fn lemma_written_step<F: Fn([u8; 32], [u8; 32]) -> [u8; 32]>(
        &self,
        hasher: F,
        leaf: MerkleRecord,
        assist: Seq<[u8; 32]>,
        parents: Seq<(u64, [u8; 32], [u8; 32], [u8; 32])>,
        k: int,
    )
        requires
            is_leaf_index(DEPTH as nat, leaf.index as nat),
            assist.len() == DEPTH,
            parents.len() == DEPTH,
            climb(hasher, DEPTH as nat, leaf_offset(DEPTH as nat, leaf.index as nat), assist, leaf.hash, parents),
            holds_path(self.store_view().records(), leaf, parents),
            0 <= k < DEPTH,
        ensures
            ({
                let path = leaf_path(DEPTH as nat, leaf.index as nat);
                let recs = self.store_view().records();
                let node = recs[written_key(leaf, parents, k)];
                &&& written_key(leaf, parents, k + 1).0 == path[k]
                &&& toward(path_parent(path, k), node, path[k]) == (written_key(leaf, parents, k + 1).1, assist[k])
            }),
    {
        let d = DEPTH as nat;
        let idx = leaf.index as nat;
        let off = leaf_offset(d, idx);
        let path = leaf_path(d, idx);
        let recs = self.store_view().records();
        let i = DEPTH - 1 - k;
        assert(pow2(d + 1) == 2 * pow2(d));
        assert(off < pow2(d));
        lemma_ancestor_chain(d, off);
        lemma_ancestor_bound(d, off, k as nat);
        lemma_ancestor_bound(d, off, (k + 1) as nat);
        lemma_child_side(d, off, k as nat);
        assert(node_index(d, off) == idx);
        let cur = if i == 0 { leaf.hash } else { parents[i - 1].1 };
        assert(climb_step(hasher, d, off, assist, i as nat, cur, parents[i]));
        assert((d - i - 1) as nat == k);
        assert((d - k - 1) as nat == i);
        let e = parents[i];
        assert(recs.contains_key((e.0, e.1)) && is_parent_record(e, recs[(e.0, e.1)]));
        assert(written_key(leaf, parents, k) == (e.0, e.1));
        if i == 0 {
            assert(written_key(leaf, parents, k + 1) == record_key(leaf));
        } else {
            let e2 = parents[i - 1];
            assert(climb_step(hasher, d, off, assist, (i - 1) as nat, if i - 1 == 0 { leaf.hash } else { parents[i - 2].1 }, e2));
            assert(written_key(leaf, parents, k + 1) == (e2.0, e2.1));
            assert((d - (i - 1) - 1) as nat == k + 1);
        }
        assert(path[k] as nat == ancestor(d, off, (k + 1) as nat));
        if k > 0 {
            assert(path[k - 1] as nat == ancestor(d, off, k as nat));
        }
        assert(path_parent(path, k) as nat == ancestor(d, off, k as nat));
    }

    /// The nodes of a written path have distinct indices, so storing them
    /// leaves under each key the node written or the one already there.
    proof fn lemma_path_stored<F: Fn([u8; 32], [u8; 32]) -> [u8; 32]>(
        &self,
        old_recs: Map<(u64, [u8; 32]), MerkleRecord>,
        hasher: F,
        leaf: MerkleRecord,
        assist: Seq<[u8; 32]>,
        parents: Seq<(u64, [u8; 32], [u8; 32], [u8; 32])>,
    )
        requires
            is_leaf_index(DEPTH as nat, leaf.index as nat),
            assist.len() == DEPTH,
            parents.len() == DEPTH,
            climb(hasher, DEPTH as nat, leaf_offset(DEPTH as nat, leaf.index as nat), assist, leaf.hash, parents),
            exists|records: Seq<MerkleRecord>| {
                &&& records.len() == parents.len() + 1
                &&& forall|i: int| 0 <= i < parents.len() ==> is_parent_record(parents[i], #[trigger] records[i])
                &&& records.last() == leaf
                &&& #[trigger] path_update(old_recs, records, self.store_view().records())
                &&& keys_determine(records) ==> stored_or_kept(old_recs, records, self.store_view().records())
            },
        ensures
            path_stored_or_kept(old_recs, self.store_view().records(), leaf, parents),
    {
        let new = self.store_view().records();
        let records = choose|records: Seq<MerkleRecord>| {
            &&& records.len() == parents.len() + 1
            &&& forall|i: int| 0 <= i < parents.len() ==> is_parent_record(parents[i], #[trigger] records[i])
            &&& records.last() == leaf
            &&& #[trigger] path_update(old_recs, records, new)
            &&& keys_determine(records) ==> stored_or_kept(old_recs, records, new)
        };
        let d = DEPTH as nat;
        let idx = leaf.index as nat;
        let off = leaf_offset(d, idx);
        assert(pow2(d + 1) == 2 * pow2(d));
        lemma_ancestor_chain(d, off);
        assert(node_index(d, off) == idx);
        assert forall|a: int| 0 <= a < records.len() implies (#[trigger] records[a]).index as nat == ancestor(d, off, if a < DEPTH { (d - 1 - a) as nat } else { d }) by {
            if a < DEPTH {
                let i = a;
                assert(climb_step(hasher, d, off, assist, i as nat, if i == 0 { leaf.hash } else { parents[i - 1].1 }, parents[i]));
                assert(is_parent_record(parents[a], records[a]));
            } else {
                assert(records[a] == records.last());
            }
        }
        assert(keys_determine(records)) by {
            assert forall|a: int, b: int|
                0 <= a < records.len() && 0 <= b < records.len() && record_key(#[trigger] records[a]) == record_key(#[trigger] records[b])
                    implies records[a] == records[b] by {
                let la: nat = if a < DEPTH { (d - 1 - a) as nat } else { d };
                let lb: nat = if b < DEPTH { (d - 1 - b) as nat } else { d };
                if a != b {
                    assert(la != lb);
                    if la < lb {
                        lemma_ancestor_increasing(d, off, la, lb);
                    } else {
                        lemma_ancestor_increasing(d, off, lb, la);
                    }
                }
            }
        }
        assert(records[records.len() - 1] == leaf);
        assert forall|i: int| #![trigger parents[i]] 0 <= i < parents.len() implies {
            let k = (parents[i].0, parents[i].1);
            &&& new.contains_key(k)
            &&& (is_parent_record(parents[i], new[k]) || (old_recs.contains_key(k) && new[k] == old_recs[k]))
        } by {
            assert(is_parent_record(parents[i], records[i]));
            assert(record_key(records[i]) == (parents[i].0, parents[i].1));
        }
    }

    /// Reading back a written leaf. When the store holds `leaf` and the
    /// parents computed on its way up from its hash with the sibling hashes
    /// `assist`, and the root is the last of them, going down from the root
    /// to the leaf finds exactly these nodes: the leaf read is `leaf`, and
    /// its proof has the sibling hashes `assist`.
    pub proof fn lemma_read_after_write<F: Fn([u8; 32], [u8; 32]) -> [u8; 32]>(
        &self,
        hasher: F,
        leaf: MerkleRecord,
        assist: Seq<[u8; 32]>,
        parents: Seq<(u64, [u8; 32], [u8; 32], [u8; 32])>,
    )
        requires
            is_leaf_index(DEPTH as nat, leaf.index as nat),
            assist.len() == DEPTH,
            parents.len() == DEPTH,
            climb(hasher, DEPTH as nat, leaf_offset(DEPTH as nat, leaf.index as nat), assist, leaf.hash, parents),
            self.root_view() == climb_root(leaf.hash, parents),
            holds_path(self.store_view().records(), leaf, parents),
        ensures
            forall|proof: MerkleProof|
                proof.source == leaf.hash && proof.root == self.root_view() && proof.index == leaf.index && proof.assist@ == assist
                    ==> #[trigger] self.proves_leaf(leaf.index, leaf, proof),
            forall|l: MerkleRecord, proof: MerkleProof|
                #[trigger] self.proves_leaf(leaf.index, l, proof) ==> l == leaf && proof.assist@ == assist,
    {
        let d = DEPTH as nat;
        let idx = leaf.index as nat;
        let off = leaf_offset(d, idx);
        let path = leaf_path(d, idx);
        let recs = self.store_view().records();
        let root = self.root_view();
        assert(pow2(d + 1) == 2 * pow2(d));
        lemma_ancestor_chain(d, off);
        let nodes = Seq::new(d + 1, |t: int| recs[written_key(leaf, parents, t)]);
        let flags = Seq::new(d + 1, |t: int| true);
        assert(recs.contains_key(written_key(leaf, parents, 0)) && written_key(leaf, parents, 0) == (0u64, root)) by {
            if DEPTH == 0 {
                assert(pow2(1) == 2);
            } else {
                let e = parents[DEPTH - 1];
                assert(climb_step(hasher, d, off, assist, (DEPTH - 1) as nat, if DEPTH - 1 == 0 { leaf.hash } else { parents[DEPTH - 2].1 }, e));
                assert((d - (DEPTH - 1) - 1) as nat == 0);
            }
        }
        assert forall|k: int| 0 <= k <= DEPTH implies #[trigger] recs.contains_key(written_key(leaf, parents, k)) by {
            if k < DEPTH {
                let e = parents[DEPTH - 1 - k];
                assert(recs.contains_key((e.0, e.1)));
            }
        }
        assert forall|k: int| 0 <= k < DEPTH implies {
            &&& written_key(leaf, parents, k + 1).0 == #[trigger] path[k]
            &&& toward(path_parent(path, k), nodes[k], path[k]) == (written_key(leaf, parents, k + 1).1, assist[k])
        } by {
            self.lemma_written_step(hasher, leaf, assist, parents, k);
        }
        assert(self.walk(root, path, d, nodes, flags)) by {
            assert(self.resolves(0, root, true, Ok((nodes[0], flags[0]))));
            assert forall|k: int| #![trigger nodes[k + 1]] 0 <= k < d implies
                self.resolves(path[k], toward(path_parent(path, k), nodes[k], path[k]).0, flags[k], Ok((nodes[k + 1], flags[k + 1]))) by {
                assert(path[k] == written_key(leaf, parents, k + 1).0);
                assert(recs.contains_key(written_key(leaf, parents, k + 1)));
            }
        }
        assert(nodes.last() == leaf);
        assert(siblings(path, nodes) =~= assist);
        assert forall|proof: MerkleProof|
            proof.source == leaf.hash && proof.root == root && proof.index == leaf.index && proof.assist@ == assist
                implies #[trigger] self.proves_leaf(leaf.index, leaf, proof) by {
            assert(self.walk(root, path, d, nodes, flags));
        }
        assert forall|l: MerkleRecord, proof: MerkleProof| #[trigger] self.proves_leaf(leaf.index, l, proof)
            implies l == leaf && proof.assist@ == assist by {
            let (ns, fs) = choose|ns: Seq<MerkleRecord>, fs: Seq<bool>| {
                &&& #[trigger] self.walk(root, path, d, ns, fs)
                &&& l == ns.last()
                &&& proof.assist@ == siblings(path, ns)
            };
            self.lemma_walk_determined(root, path, ns, fs, nodes, flags);
            assert(ns =~= nodes);
        }
    }

    /// A leaf written is read back. If writing `leaf` into a tree whose
    /// nodes were `before` gave this tree, with the parents `parents` and
    /// the sibling hashes `assist` (as `set_leaf_with_proof` reports), and
    /// no different node was stored before under the key of a node written,
    /// then going down this tree to the leaf finds `leaf`, and its proof has
    /// the sibling hashes `assist`.
    pub proof fn lemma_write_then_read<F: Fn([u8; 32], [u8; 32]) -> [u8; 32]>(
        &self,
        hasher: F,
        before: Map<(u64, [u8; 32]), MerkleRecord>,
        leaf: MerkleRecord,
        assist: Seq<[u8; 32]>,
        parents: Seq<(u64, [u8; 32], [u8; 32], [u8; 32])>,
    )
        requires
            is_leaf_index(DEPTH as nat, leaf.index as nat),
            path_written(hasher, DEPTH as nat, leaf, assist, parents, self.root_view(), before, self.store_view().records()),
            path_fresh(before, leaf, parents),
        ensures
            forall|proof: MerkleProof|
                proof.source == leaf.hash && proof.root == self.root_view() && proof.index == leaf.index && proof.assist@ == assist
                    ==> #[trigger] self.proves_leaf(leaf.index, leaf, proof),
            forall|l: MerkleRecord, proof: MerkleProof|
                #[trigger] self.proves_leaf(leaf.index, l, proof) ==> l == leaf && proof.assist@ == assist,
    {
        let recs = self.store_view().records();
        assert(holds_path(recs, leaf, parents)) by {
            assert forall|i: int| #![trigger parents[i]] 0 <= i < parents.len() implies {
                &&& recs.contains_key((parents[i].0, parents[i].1))
                &&& is_parent_record(parents[i], recs[(parents[i].0, parents[i].1)])
            } by {}
        }
        self.lemma_read_after_write(hasher, leaf, assist, parents);
    }

    /// A walk down `path` that finds each node in the store is the only
    /// walk: any other walk of the same length finds the same nodes.
    proof fn lemma_walk_determined(&self, root: [u8; 32], path: Seq<u64>, ns: Seq<MerkleRecord>, fs: Seq<bool>, nodes: Seq<MerkleRecord>, flags: Seq<bool>)
        requires
            self.walk(root, path, path.len(), ns, fs),
            self.walk(root, path, path.len(), nodes, flags),
            forall|t: int| 0 <= t < flags.len() ==> #[trigger] flags[t],
            self.store_view().records().contains_key((0, root)),
            forall|k: int| 0 <= k < path.len() ==> self.store_view().records().contains_key(
                (#[trigger] path[k], toward(path_parent(path, k), nodes[k], path[k]).0),
            ),
        ensures
            ns == nodes,
    {
        let n = path.len();
        assert forall|t: int| 0 <= t <= n implies #[trigger] ns[t] == nodes[t] && fs[t] by {
            self.lemma_walk_prefix(root, path, ns, fs, nodes, flags, t);
        }
        assert(ns =~= nodes);
    }

    proof fn lemma_walk_prefix(&self, root: [u8; 32], path: Seq<u64>, ns: Seq<MerkleRecord>, fs: Seq<bool>, nodes: Seq<MerkleRecord>, flags: Seq<bool>, t: int)
        requires
            self.walk(root, path, path.len(), ns, fs),
            self.walk(root, path, path.len(), nodes, flags),
            forall|u: int| 0 <= u < flags.len() ==> #[trigger] flags[u],
            self.store_view().records().contains_key((0, root)),
            forall|k: int| 0 <= k < path.len() ==> self.store_view().records().contains_key(
                (#[trigger] path[k], toward(path_parent(path, k), nodes[k], path[k]).0),
            ),
            0 <= t <= path.len(),
        ensures
            ns[t] == nodes[t] && fs[t],
        decreases t,
    {
        if t > 0 {
            self.lemma_walk_prefix(root, path, ns, fs, nodes, flags, t - 1);
            let k = t - 1;
            assert(self.resolves(path[k], toward(path_parent(path, k), ns[k], path[k]).0, fs[k], Ok((ns[k + 1], fs[k + 1]))));
            assert(self.resolves(path[k], toward(path_parent(path, k), nodes[k], path[k]).0, flags[k], Ok((nodes[k + 1], flags[k + 1]))));
            assert(flags[k + 1]);
        } else {
            assert(flags[0]);
        }
    }

    /// Going down from the root to leaf `index` fails with `e`: at the root,
    /// or at some node below it.
    pub open spec fn leaf_read_fails(&self, index: u64, e: MerkleError) -> bool {
        ||| self.resolves(0, self.root_view(), true, Err(e))
        ||| exists|k: nat, nodes: Seq<MerkleRecord>, flags: Seq<bool>| {
            &&& k < DEPTH
            &&& #[trigger] self.walk(self.root_view(), leaf_path(DEPTH as nat, index as nat), k, nodes, flags)
            &&& self.step_fails(leaf_path(DEPTH as nat, index as nat), k as int, nodes, flags, e)
        }
    }

    /// Going down `path` from the `k`-th node found fails with `e`.
    pub open spec fn step_fails(&self, path: Seq<u64>, k: int, nodes: Seq<MerkleRecord>, flags: Seq<bool>, e: MerkleError) -> bool {
        self.resolves(path[k], toward(path_parent(path, k), nodes[k], path[k]).0, flags[k], Err(e))
    }

    /// The node at `index` with `hash`, and whether the store had it.
    fn get_or_generate_node(&self, index: u64, hash: &[u8; 32]) -> (r: MerkleResult<(MerkleRecord, bool)>)
        requires
            self.wf(),
            self.store_view().inv(),
            index < u64::MAX,
        ensures
            r matches Err(e) && store_failure::<T>(e) || self.resolves(index, *hash, true, r),
            r matches Ok((node, _)) ==> node.index == index && node.hash == *hash,
    {
        match self.store.get_record(index, hash) {
            Err(msg) => Err(MerkleError::Store(msg)),
            Ok(Some(x)) => Ok((x, true)),
            Ok(None) => {
                let node = self.check_generate_default_node(index, hash)?;
                Ok((node, false))
            }
        }
    }

    /// The node at `index` with `hash`: the stored one, or the default node
    /// of that position if `hash` is its hash.
    pub fn get_node_with_hash(&self, index: u64, hash: &[u8; 32]) -> (r: MerkleResult<MerkleRecord>)
        requires
            self.wf(),
            self.store_view().inv(),
            index < u64::MAX,
        ensures
            r matches Err(e) && store_failure::<T>(e) || exists|found: bool| self.resolves(index, *hash, true, #[trigger] pair_with(r, found)),
    {
        match self.get_or_generate_node(index, hash) {
            Ok((node, found)) => {
                proof {
                    assert(pair_with(Ok::<MerkleRecord, MerkleError>(node), found) == Ok::<(MerkleRecord, bool), MerkleError>((node, found)));
                }
                Ok(node)
            }
            Err(e) => {
                proof {
                    assert(pair_with(Err::<MerkleRecord, MerkleError>(e), false) == Err::<(MerkleRecord, bool), MerkleError>(e));
                }
                Err(e)
            }
        }
    }

    /// The leaf at `index` and its proof: the nodes are found going down
    /// from the root along the leaf's path, and the proof holds the leaf's
    /// hash, the root, and the sibling hashes met on the way, top first.
    #[verifier::rlimit(40)]
    pub fn get_leaf_with_proof(&self, index: u64) -> (r: MerkleResult<(MerkleRecord, MerkleProof)>)
        requires
            self.wf(),
            self.store_view().inv(),
        ensures
            !is_leaf_index(DEPTH as nat, index as nat) ==> (r matches Err(e) && zero_hash_error(e, index, MerkleErrorCode::InvalidLeafIndex)),
            r matches Ok((leaf, _)) ==> leaf.index == index,
            r matches Ok((leaf, proof)) ==> self.proves_leaf(index, leaf, proof),
            r matches Err(e) ==> is_leaf_index(DEPTH as nat, index as nat) ==> store_failure::<T>(e) || self.leaf_read_fails(index, e),
    {
        self.leaf_check(index)?;
        let paths = self.get_path(index)?;
        let ghost path = leaf_path(DEPTH as nat, index as nat);
        let ghost off = leaf_offset(DEPTH as nat, index as nat);
        proof {
            lemma_pow2_mono(DEPTH as nat + 1, 63);
            lemma_pow2_64();
            lemma_ancestor_chain(DEPTH as nat, off);
        }
        let hash = self.get_root_hash();
        let mut acc: u64 = 0;
        let (mut acc_node, mut parent_exist) = self.get_or_generate_node(acc, &hash)?;
        let ghost mut nodes: Seq<MerkleRecord> = seq![acc_node];
        let ghost mut flags: Seq<bool> = seq![parent_exist];
        let mut assist: Vec<[u8; 32]> = Vec::new();
        let mut t: usize = 0;
        while t < paths.len()
            invariant
                self.wf(),
                self.store_view().inv(),
                is_leaf_index(DEPTH as nat, index as nat),
                paths@ == path,
                path == leaf_path(DEPTH as nat, index as nat),
                off == leaf_offset(DEPTH as nat, index as nat),
                off < pow2(DEPTH as nat),
                pow2(DEPTH as nat + 1) <= pow2(63),
                pow2(63) == 0x8000_0000_0000_0000,
                t <= DEPTH,
                acc as nat == ancestor(DEPTH as nat, off, t as nat),
                acc == path_parent(path, t as int),
                self.walk(self.root_view(), path, t as nat, nodes, flags),
                acc_node == nodes[t as int],
                acc_node.index == acc,
                parent_exist == flags[t as int],
                assist@ == siblings(path.take(t as int), nodes),
            decreases DEPTH - t,
        {
            let child = paths[t];
            proof {
                lemma_ancestor_chain(DEPTH as nat, off);
                lemma_ancestor_bound(DEPTH as nat, off, (t + 1) as nat);
                assert(ancestor(DEPTH as nat, off, (t + 1) as nat) == 2 * ancestor(DEPTH as nat, off, t as nat) + 1
                    || ancestor(DEPTH as nat, off, (t + 1) as nat) == 2 * ancestor(DEPTH as nat, off, t as nat) + 2);
            }
            let (h, sibling) = if (acc + 1) * 2 == child + 1 {
                (acc_node.left, acc_node.right)
            } else {
                (acc_node.right, acc_node.left)
            };
            let ghost prev_nodes = nodes;
            let ghost prev_flags = flags;
            acc = child;
            if parent_exist {
                let (n, e) = self.get_or_generate_node(acc, &h)?;
                acc_node = n;
                parent_exist = e;
            } else {
                acc_node = self.check_generate_default_node(acc, &h)?;
            }
            proof {
                assert(drop_flag(Ok::<(MerkleRecord, bool), MerkleError>((acc_node, parent_exist))) == Ok::<MerkleRecord, MerkleError>(acc_node));
                self.lemma_walk_push(self.root_view(), path, t as nat, nodes, flags, acc_node, parent_exist);
                nodes = nodes.push(acc_node);
                flags = flags.push(parent_exist);
            }
            assist.push(sibling);
            proof {
                assert(siblings(path.take(t as int + 1), nodes) =~= siblings(path.take(t as int), prev_nodes).push(sibling));
            }
            t = t + 1;
        }
        proof {
            assert(path.take(DEPTH as int) =~= path);
            lemma_ancestor_chain(DEPTH as nat, off);
        }
        let hash = acc_node.hash;
        Ok((acc_node, MerkleProof { source: hash, root: self.root, assist, index }))
    }
}

/// A lookup result with a found-in-store flag added.
pub open spec fn pair_with(r: MerkleResult<MerkleRecord>, found: bool) -> MerkleResult<(MerkleRecord, bool)> {
    match r {
        Ok(node) => Ok((node, found)),
        Err(e) => Err(e),
    }
}

/// Nodes in order of non-decreasing index.
pub open spec fn sorted_by_index(s: Seq<MerkleRecord>) -> bool {
    forall|i: int, j: int| 0 <= i < j < s.len() ==> (#[trigger] s[i]).index <= (#[trigger] s[j]).index
}

/// The records sorted by index, those of equal index in their given order.
pub fn sort_by_index(records: &Vec<MerkleRecord>) -> (r: Vec<MerkleRecord>)
    ensures
        sorted_by_index(r@),
        r@.to_multiset() == records@.to_multiset(),
{
    let mut out: Vec<MerkleRecord> = Vec::new();
    let mut i: usize = 0;
    proof {
        assert(records@.subrange(0, 0) =~= out@);
    }
    while i < records.len()
        invariant
            i <= records@.len(),
            sorted_by_index(out@),
            out@.to_multiset() == records@.subrange(0, i as int).to_multiset(),
        decreases records@.len() - i,
    {
        let rec = records[i];
        let mut j: usize = out.len();
        while j > 0 && out[j - 1].index > rec.index
            invariant
                j <= out@.len(),
                sorted_by_index(out@),
                forall|k: int| j <= k < out@.len() ==> (#[trigger] out@[k]).index > rec.index,
            decreases j,
        {
            j = j - 1;
        }
        let ghost before = out@;
        out.insert(j, rec);
        proof {
            vstd::seq_lib::to_multiset_insert(before, j as int, rec);
            vstd::seq_lib::to_multiset_build(records@.subrange(0, i as int), rec);
            assert(records@.subrange(0, i as int + 1) =~= records@.subrange(0, i as int).push(rec));
            assert forall|a: int, b: int| 0 <= a < b < out@.len() implies (#[trigger] out@[a]).index <= (#[trigger] out@[b]).index by {
                if j > 0 {
                    assert(before[j - 1].index <= rec.index);
                }
                if a < j && b > j {
                    assert(before[a].index <= before[j - 1].index || a == j - 1);
                }
            }
        }
        i = i + 1;
    }
    proof {
        assert(records@.subrange(0, records@.len() as int) =~= records@);
    }
    out
}

/// Every key of `m` and of `records` is a key of `records` written into `m`.
pub proof fn lemma_insert_records_keys(m: Map<(u64, [u8; 32]), MerkleRecord>, records: Seq<MerkleRecord>)
    ensures
        forall|k: (u64, [u8; 32])| m.contains_key(k) ==> #[trigger] insert_records(m, records).contains_key(k),
        forall|i: int| 0 <= i < records.len() ==> insert_records(m, records).contains_key(record_key(#[trigger] records[i])),
    decreases records.len(),
{
    if records.len() > 0 {
        lemma_insert_records_keys(m, records.drop_last());
        let inner = insert_records(m, records.drop_last());
        assert(insert_records(m, records) == inner.insert(record_key(records.last()), records.last()));
        assert forall|k: (u64, [u8; 32])| m.contains_key(k) implies #[trigger] insert_records(m, records).contains_key(k) by {
            assert(inner.contains_key(k));
        }
        assert forall|i: int| 0 <= i < records.len() implies insert_records(m, records).contains_key(record_key(#[trigger] records[i])) by {
            if i < records.len() - 1 {
                assert(records.drop_last()[i] == records[i]);
            }
        }
    }
}

/// `s` has a record under key `k`.
pub open spec fn has_key_in(s: Seq<MerkleRecord>, k: (u64, [u8; 32])) -> bool {
    exists|i: int| 0 <= i < s.len() && record_key(#[trigger] s[i]) == k
}

/// After `records` are written into `m`, the node under `k` is the last of
/// them with that key, or the one `m` had when none has it.
pub proof fn lemma_insert_records_lookup(m: Map<(u64, [u8; 32]), MerkleRecord>, s: Seq<MerkleRecord>, k: (u64, [u8; 32]))
    ensures
        has_key_in(s, k) ==> insert_records(m, s).contains_key(k)
            && exists|i: int| 0 <= i < s.len() && record_key(#[trigger] s[i]) == k && insert_records(m, s)[k] == s[i],
        !has_key_in(s, k) ==> insert_records(m, s).contains_key(k) == m.contains_key(k) && insert_records(m, s)[k] == m[k],
    decreases s.len(),
{
    if s.len() > 0 {
        let init = s.drop_last();
        lemma_insert_records_lookup(m, init, k);
        assert(insert_records(m, s) == insert_records(m, init).insert(record_key(s.last()), s.last()));
        if record_key(s.last()) == k {
            assert(record_key(s[s.len() - 1]) == k);
        } else {
            if has_key_in(s, k) {
                let i = choose|i: int| 0 <= i < s.len() && record_key(#[trigger] s[i]) == k;
                assert(init[i] == s[i]);
                assert(has_key_in(init, k));
                let j = choose|j: int| 0 <= j < init.len() && record_key(#[trigger] init[j]) == k && insert_records(m, init)[k] == init[j];
                assert(s[j] == init[j]);
            } else {
                assert forall|i: int| 0 <= i < init.len() implies record_key(#[trigger] init[i]) != k by {
                    assert(s[i] == init[i]);
                }
            }
        }
    }
}

/// Records with the same key are the same record.
pub open spec fn keys_determine(records: Seq<MerkleRecord>) -> bool {
    forall|i: int, j: int|
        0 <= i < records.len() && 0 <= j < records.len() && record_key(#[trigger] records[i]) == record_key(#[trigger] records[j])
            ==> records[i] == records[j]
}

/// Writing `records` into `old` gave `new`: under the key of each record,
/// `new` has that record, or the node `old` had there.
pub open spec fn stored_or_kept(
    old: Map<(u64, [u8; 32]), MerkleRecord>,
    records: Seq<MerkleRecord>,
    new: Map<(u64, [u8; 32]), MerkleRecord>,
) -> bool {
    forall|i: int| #![trigger records[i]] 0 <= i < records.len() ==> {
        &&& new.contains_key(record_key(records[i]))
        &&& (new[record_key(records[i])] == records[i]
            || (old.contains_key(record_key(records[i])) && new[record_key(records[i])] == old[record_key(records[i])]))
    }
}

/// The step of the climb from the leaf at position `off` of a tree of
/// depth `depth` to the root at height `i`: from the hash `cur` of the node
/// at depth `depth - i`, the parent at depth `depth - i - 1` gets `entry`:
/// its index, the hash `hasher` gives of its two children, and those two
/// children's hashes, one of them `cur` and the other the sibling from
/// `assist`.
pub open spec fn climb_step<F: Fn([u8; 32], [u8; 32]) -> [u8; 32]>(
    hasher: F,
    depth: nat,
    off: nat,
    assist: Seq<[u8; 32]>,
    i: nat,
    cur: [u8; 32],
    entry: (u64, [u8; 32], [u8; 32], [u8; 32]),
) -> bool {
    let d = (depth - i - 1) as nat;
    let lr = if (off / pow2(i)) % 2 == 1 {
        (assist[d as int], cur)
    } else {
        (cur, assist[d as int])
    };
    &&& entry.0 == ancestor(depth, off, d)
    &&& entry.2 == lr.0
    &&& entry.3 == lr.1
    &&& call_ensures(hasher, (lr.0, lr.1), entry.1)
}

/// `parents` are the first `parents.len()` steps of the climb from a leaf
/// whose hash is `leaf_hash`.
pub open spec fn climb<F: Fn([u8; 32], [u8; 32]) -> [u8; 32]>(
    hasher: F,
    depth: nat,
    off: nat,
    assist: Seq<[u8; 32]>,
    leaf_hash: [u8; 32],
    parents: Seq<(u64, [u8; 32], [u8; 32], [u8; 32])>,
) -> bool {
    &&& parents.len() <= depth
    &&& forall|i: int| 0 <= i < parents.len() ==> climb_step(
        hasher,
        depth,
        off,
        assist,
        i as nat,
        if i == 0 { leaf_hash } else { parents[i - 1].1 },
        #[trigger] parents[i],
    )
}

/// `new_recs` is what storing the path nodes `records` into `old_recs`
/// gives: sorted by index, the nodes from the first one not already stored
/// on are written in that order.
pub open spec fn path_update(
    old_recs: Map<(u64, [u8; 32]), MerkleRecord>,
    records: Seq<MerkleRecord>,
    new_recs: Map<(u64, [u8; 32]), MerkleRecord>,
) -> bool {
    exists|sorted: Seq<MerkleRecord>, j: int| {
        &&& sorted_by_index(sorted)
        &&& sorted.to_multiset() == records.to_multiset()
        &&& 0 <= j <= sorted.len()
        &&& forall|i: int| 0 <= i < j ==> old_recs.contains_key(record_key(#[trigger] sorted[i]))
        &&& #[trigger] insert_records(old_recs, sorted.skip(j)) == new_recs
    }
}

/// The key the node at depth `t` of a written leaf's path is stored under:
/// that of the parent written at that depth, or the leaf's at the bottom.
pub open spec fn written_key(leaf: MerkleRecord, parents: Seq<(u64, [u8; 32], [u8; 32], [u8; 32])>, t: int) -> (u64, [u8; 32]) {
    if t < parents.len() {
        (parents[parents.len() - 1 - t].0, parents[parents.len() - 1 - t].1)
    } else {
        record_key(leaf)
    }
}

/// `recs` holds `leaf` and the record of each parent in `parents`.
pub open spec fn holds_path(
    recs: Map<(u64, [u8; 32]), MerkleRecord>,
    leaf: MerkleRecord,
    parents: Seq<(u64, [u8; 32], [u8; 32], [u8; 32])>,
) -> bool {
    &&& recs.contains_key(record_key(leaf))
    &&& recs[record_key(leaf)] == leaf
    &&& forall|i: int| #![trigger parents[i]] 0 <= i < parents.len() ==> {
        &&& recs.contains_key((parents[i].0, parents[i].1))
        &&& is_parent_record(parents[i], recs[(parents[i].0, parents[i].1)])
    }
}

/// Writing a leaf and its parents into `old` gave `new`: under the key of
/// the leaf and of each parent, `new` has the node written, or the one
/// `old` had there.
pub open spec fn path_stored_or_kept(
    old: Map<(u64, [u8; 32]), MerkleRecord>,
    new: Map<(u64, [u8; 32]), MerkleRecord>,
    leaf: MerkleRecord,
    parents: Seq<(u64, [u8; 32], [u8; 32], [u8; 32])>,
) -> bool {
    &&& new.contains_key(record_key(leaf))
    &&& (new[record_key(leaf)] == leaf || (old.contains_key(record_key(leaf)) && new[record_key(leaf)] == old[record_key(leaf)]))
    &&& forall|i: int| #![trigger parents[i]] 0 <= i < parents.len() ==> {
        let k = (parents[i].0, parents[i].1);
        &&& new.contains_key(k)
        &&& (is_parent_record(parents[i], new[k]) || (old.contains_key(k) && new[k] == old[k]))
    }
}

/// Before the write, `old` had under the key of the leaf and of each parent
/// either nothing or the very node written.
pub open spec fn path_fresh(
    old: Map<(u64, [u8; 32]), MerkleRecord>,
    leaf: MerkleRecord,
    parents: Seq<(u64, [u8; 32], [u8; 32], [u8; 32])>,
) -> bool {
    &&& old.contains_key(record_key(leaf)) ==> old[record_key(leaf)] == leaf
    &&& forall|i: int| #![trigger parents[i]] 0 <= i < parents.len() && old.contains_key((parents[i].0, parents[i].1))
        ==> is_parent_record(parents[i], old[(parents[i].0, parents[i].1)])
}

/// `leaf` was written into a tree of depth `depth` whose nodes were `old`,
/// giving the nodes `new` and the root `root`: `parents` are the parents
/// computed on the way up from the leaf's hash with the sibling hashes
/// `assist`, the root is the last of them, and each written node is stored
/// unless a node was already stored under its key.
pub open spec fn path_written<F: Fn([u8; 32], [u8; 32]) -> [u8; 32]>(
    hasher: F,
    depth: nat,
    leaf: MerkleRecord,
    assist: Seq<[u8; 32]>,
    parents: Seq<(u64, [u8; 32], [u8; 32], [u8; 32])>,
    root: [u8; 32],
    old: Map<(u64, [u8; 32]), MerkleRecord>,
    new: Map<(u64, [u8; 32]), MerkleRecord>,
) -> bool {
    &&& assist.len() == depth
    &&& parents.len() == depth
    &&& climb(hasher, depth, leaf_offset(depth, leaf.index as nat), assist, leaf.hash, parents)
    &&& root == climb_root(leaf.hash, parents)
    &&& path_stored_or_kept(old, new, leaf, parents)
}

/// `leaf` was written as `path_written` says, for some parents.
pub open spec fn leaf_path_written<F: Fn([u8; 32], [u8; 32]) -> [u8; 32]>(
    hasher: F,
    depth: nat,
    leaf: MerkleRecord,
    assist: Seq<[u8; 32]>,
    root: [u8; 32],
    old: Map<(u64, [u8; 32]), MerkleRecord>,
    new: Map<(u64, [u8; 32]), MerkleRecord>,
) -> bool {
    exists|parents: Seq<(u64, [u8; 32], [u8; 32], [u8; 32])>| #[trigger] path_written(hasher, depth, leaf, assist, parents, root, old, new)
}

/// A leaf at `index` holding `data`, with hash `hash`, was written as
/// `path_written` says, for some parents.
pub open spec fn data_written<F: Fn([u8; 32], [u8; 32]) -> [u8; 32]>(
    hasher: F,
    depth: nat,
    index: u64,
    data: [u8; 32],
    hash: [u8; 32],
    assist: Seq<[u8; 32]>,
    root: [u8; 32],
    old: Map<(u64, [u8; 32]), MerkleRecord>,
    new: Map<(u64, [u8; 32]), MerkleRecord>,
) -> bool {
    exists|leaf: MerkleRecord| {
        &&& leaf.index == index
        &&& leaf.data == data
        &&& leaf.hash == hash
        &&& #[trigger] leaf_path_written(hasher, depth, leaf, assist, root, old, new)
    }
}

/// The hash the climb ends with: that of the last parent, or of the leaf if
/// there is none.
pub open spec fn climb_root(leaf_hash: [u8; 32], parents: Seq<(u64, [u8; 32], [u8; 32], [u8; 32])>) -> [u8; 32] {
    if parents.len() == 0 {
        leaf_hash
    } else {
        parents.last().1
    }
}

/// `rec` is the node record of the parent entry `e`: no data, and the
/// index, hash and children hashes of the entry.
pub open spec fn is_parent_record(e: (u64, [u8; 32], [u8; 32], [u8; 32]), rec: MerkleRecord) -> bool {
    &&& rec.index == e.0
    &&& rec.hash == e.1
    &&& rec.left == e.2
    &&& rec.right == e.3
    &&& is_zero(rec.data)
}

impl<T: MerkleDB, const DEPTH: usize> MerkleAdapter<T, DEPTH> {
    /// Stores the nodes of a leaf's path. The nodes are taken by increasing
    /// index (parents before children); while each is already stored under
    /// its index and hash, it is skipped, and from the first that is not,
    /// all are written.
    pub fn update_leaf_path_records(&mut self, records: &Vec<MerkleRecord>) -> (r: Result<(), String>)
        requires
            old(self).store_view().inv(),
        ensures
            final(self).store_view().inv(),
            final(self).root_view() == old(self).root_view(),
            final(self).default_hashes() == old(self).default_hashes(),
            r is Ok ==> forall|i: int| 0 <= i < records@.len() ==>
                final(self).store_view().records().contains_key(record_key(#[trigger] records@[i])),
            r is Ok ==> path_update(old(self).store_view().records(), records@, final(self).store_view().records()),
            r is Ok && keys_determine(records@) ==> stored_or_kept(old(self).store_view().records(), records@, final(self).store_view().records()),
            r matches Err(m) ==> T::fails_with(m@),
    {
        let sort_records = sort_by_index(records);
        let ghost old_recs = self.store_view().records();
        let mut new_records: Vec<MerkleRecord> = Vec::new();
        let mut check = true;
        let ghost mut j: int = 0;
        let mut i: usize = 0;
        while i < sort_records.len()
            invariant
                i <= sort_records@.len(),
                self.store_view().inv(),
                self.store_view().records() == old_recs,
                0 <= j <= i,
                check ==> j == i,
                forall|k: int| 0 <= k < j ==> old_recs.contains_key(record_key(#[trigger] sort_records@[k])),
                new_records@ == sort_records@.subrange(j, i as int),
            decreases sort_records@.len() - i,
        {
            let record = sort_records[i];
            if check {
                match self.store.get_record(record.index, &record.hash) {
                    Ok(Some(_)) => {
                        proof {
                            j = j + 1;
                        }
                    }
                    _ => {
                        check = false;
                        new_records.push(record);
                    }
                }
            } else {
                new_records.push(record);
            }
            proof {
                assert(new_records@ =~= sort_records@.subrange(j, i as int + 1));
            }
            i = i + 1;
        }
        proof {
            assert(new_records@ =~= sort_records@.skip(j));
        }
        if new_records.len() > 0 {
            let res = self.store.batch_update_records(&new_records);
            if let Err(e) = res {
                return Err(e);
            }
        } else {
            proof {
                assert(insert_records(old_recs, new_records@) == old_recs);
            }
        }
        proof {
            assert(insert_records(old_recs, sort_records@.skip(j)) == self.store_view().records());
            lemma_insert_records_keys(old_recs, new_records@);
            assert forall|i: int| 0 <= i < records@.len() implies
                self.store_view().records().contains_key(record_key(#[trigger] records@[i])) by {
                let x = records@[i];
                vstd::seq_lib::to_multiset_contains(records@, x);
                vstd::seq_lib::to_multiset_contains(sort_records@, x);
                assert(records@.contains(x));
                assert(sort_records@.contains(x));
                let p = choose|p: int| 0 <= p < sort_records@.len() && sort_records@[p] == x;
                if p >= j {
                    assert(new_records@[p - j] == x);
                } else {
                    assert(old_recs.contains_key(record_key(sort_records@[p])));
                }
            }
            if keys_determine(records@) {
                let written = sort_records@.skip(j);
                assert forall|i: int| #![trigger records@[i]] 0 <= i < records@.len() implies {
                    let k = record_key(records@[i]);
                    &&& self.store_view().records().contains_key(k)
                    &&& (self.store_view().records()[k] == records@[i]
                        || (old_recs.contains_key(k) && self.store_view().records()[k] == old_recs[k]))
                } by {
                    let x = records@[i];
                    let k = record_key(x);
                    lemma_insert_records_lookup(old_recs, written, k);
                    vstd::seq_lib::to_multiset_contains(records@, x);
                    vstd::seq_lib::to_multiset_contains(sort_records@, x);
                    assert(records@[i] == x);
                    assert(records@.contains(x));
                    assert(sort_records@.contains(x));
                    let p = choose|p: int| 0 <= p < sort_records@.len() && sort_records@[p] == x;
                    if has_key_in(written, k) {
                        let q = choose|q: int| 0 <= q < written.len() && record_key(#[trigger] written[q]) == k
                            && insert_records(old_recs, written)[k] == written[q];
                        let y = written[q];
                        assert(y == sort_records@[q + j]);
                        assert(sort_records@.contains(y));
                        vstd::seq_lib::to_multiset_contains(sort_records@, y);
                        assert(records@.to_multiset().count(y) > 0);
                        assert(records@.contains(y)) by {
                            vstd::seq_lib::to_multiset_contains(records@, y);
                        }
                        let r = choose|r: int| 0 <= r < records@.len() && records@[r] == y;
                        assert(record_key(records@[r]) == record_key(records@[i]));
                    } else {
                        if p >= j {
                            assert(written[p - j] == x);
                        }
                        assert(old_recs.contains_key(record_key(sort_records@[p])));
                    }
                }
            }
        }
        Ok(())
    }
}

impl<T: MerkleDB, const DEPTH: usize> MerkleAdapter<T, DEPTH> {
    /// Stores the node at `index` with `hash` and children hashes `left` and
    /// `right`, provided `index` names a node.
    pub fn set_parent(&mut self, index: u64, hash: &[u8; 32], left: &[u8; 32], right: &[u8; 32]) -> (r: MerkleResult<()>)
        requires
            old(self).wf(),
            old(self).store_view().inv(),
        ensures
            final(self).wf(),
            final(self).store_view().inv(),
            final(self).root_view() == old(self).root_view(),
            final(self).default_hashes() == old(self).default_hashes(),
            (r is Ok || failed_in_store::<T, ()>(r)) <==> index < pow2(DEPTH as nat + 1) - 1,
            r matches Err(e) ==> (!store_failure::<T>(e) ==> zero_hash_error(e, index, MerkleErrorCode::InvalidIndex)),
            r is Ok ==> final(self).store_view().records().contains_key((index, *hash)),
            r is Ok ==> is_parent_record((index, *hash, *left, *right), final(self).store_view().records()[(index, *hash)]),
            r is Ok ==> final(self).store_view().records().remove((index, *hash)) == old(self).store_view().records().remove((index, *hash)),
    {
        self.boundary_check(index)?;
        let record = MerkleRecord { index, data: [0; 32], left: *left, right: *right, hash: *hash };
        proof {
            assert(is_zero(record.data));
        }
        match self.store.update_record(record) {
            Ok(()) => {
                proof {
                    assert(self.store_view().records().remove((index, *hash)) =~= old(self).store_view().records().remove((index, *hash)));
                }
                Ok(())
            }
            Err(msg) => Err(MerkleError::Store(msg)),
        }
    }

    /// Stores `leaf`, provided its index names a leaf.
    pub fn set_leaf(&mut self, leaf: &MerkleRecord) -> (r: MerkleResult<()>)
        requires
            old(self).wf(),
            old(self).store_view().inv(),
        ensures
            final(self).wf(),
            final(self).store_view().inv(),
            final(self).root_view() == old(self).root_view(),
            final(self).default_hashes() == old(self).default_hashes(),
            !is_leaf_index(DEPTH as nat, leaf.index as nat) ==> (r matches Err(e) && zero_hash_error(e, leaf.index, MerkleErrorCode::InvalidLeafIndex)),
            is_leaf_index(DEPTH as nat, leaf.index as nat) ==> (r is Ok || failed_in_store::<T, ()>(r)),
            r is Ok ==> final(self).store_view().records() == old(self).store_view().records().insert(record_key(*leaf), *leaf),
    {
        self.leaf_check(leaf.index())?;
        match self.store.update_record(*leaf) {
            Ok(()) => Ok(()),
            Err(msg) => Err(MerkleError::Store(msg)),
        }
    }

    /// Stores `leaf` and the parents on its path, given as index, hash and
    /// children hashes, provided its index names a leaf.
    pub fn set_leaf_and_parents(&mut self, leaf: &MerkleRecord, parents: &Vec<(u64, [u8; 32], [u8; 32], [u8; 32])>) -> (r: MerkleResult<()>)
        requires
            old(self).wf(),
            old(self).store_view().inv(),
        ensures
            final(self).wf(),
            final(self).store_view().inv(),
            final(self).root_view() == old(self).root_view(),
            final(self).default_hashes() == old(self).default_hashes(),
            !is_leaf_index(DEPTH as nat, leaf.index as nat) ==> (r matches Err(e) && zero_hash_error(e, leaf.index, MerkleErrorCode::InvalidLeafIndex)),
            is_leaf_index(DEPTH as nat, leaf.index as nat) ==> (r is Ok || failed_in_store::<T, ()>(r)),
            r is Ok ==> exists|records: Seq<MerkleRecord>| {
                &&& records.len() == parents@.len() + 1
                &&& forall|i: int| 0 <= i < parents@.len() ==> is_parent_record(parents@[i], #[trigger] records[i])
                &&& records.last() == *leaf
                &&& #[trigger] path_update(old(self).store_view().records(), records, final(self).store_view().records())
                &&& keys_determine(records) ==> stored_or_kept(old(self).store_view().records(), records, final(self).store_view().records())
            },
            r is Ok ==> final(self).store_view().records().contains_key(record_key(*leaf)),
            r is Ok ==> forall|i: int| 0 <= i < parents@.len() ==>
                final(self).store_view().records().contains_key(((#[trigger] parents@[i]).0, parents@[i].1)),
    {
        self.leaf_check(leaf.index())?;
        let mut records: Vec<MerkleRecord> = Vec::new();
        let mut i: usize = 0;
        while i < parents.len()
            invariant
                i <= parents@.len(),
                records@.len() == i,
                forall|k: int| 0 <= k < i ==> is_parent_record(parents@[k], #[trigger] records@[k]),
            decreases parents@.len() - i,
        {
            let (index, hash, left, right) = parents[i];
            let rec = MerkleRecord { index, data: [0; 32], left, right, hash };
            proof {
                assert(is_zero(rec.data));
            }
            records.push(rec);
            i = i + 1;
        }
        records.push(*leaf);
        let res = self.update_leaf_path_records(&records);
        match res {
            Ok(()) => {
                proof {
                    assert(records@[records@.len() - 1] == *leaf);
                    assert forall|i: int| 0 <= i < parents@.len() implies
                        self.store_view().records().contains_key(((#[trigger] parents@[i]).0, parents@[i].1)) by {
                        assert(record_key(records@[i]) == (parents@[i].0, parents@[i].1));
                    }
                }
                Ok(())
            }
            Err(msg) => Err(MerkleError::Store(msg)),
        }
    }

    /// Writes `leaf` into the tree: the hashes on its path are recomputed
    /// from the leaf up with `hasher`, using the sibling hashes of the leaf's
    /// proof; the leaf and its new parents are stored; the root becomes the
    /// last hash. Gives the leaf's proof against the new root.
    #[verifier::rlimit(60)]
    pub fn set_leaf_with_proof<F: Fn([u8; 32], [u8; 32]) -> [u8; 32]>(&mut self, leaf: &MerkleRecord, hasher: F) -> (r: MerkleResult<MerkleProof>)
        requires
            old(self).wf(),
            old(self).store_view().inv(),
            forall|a: [u8; 32], b: [u8; 32]| call_requires(hasher, (a, b)),
        ensures
            final(self).wf(),
            final(self).store_view().inv(),
            final(self).default_hashes() == old(self).default_hashes(),
            !is_leaf_index(DEPTH as nat, leaf.index as nat) ==> (r matches Err(e) && zero_hash_error(e, leaf.index, MerkleErrorCode::InvalidLeafIndex)),
            r matches Ok(proof) ==> old(self).leaf_written(hasher, leaf.index, leaf.hash, proof, final(self).root_view(), final(self).store_view().records()),
            r matches Err(e) ==> is_leaf_index(DEPTH as nat, leaf.index as nat) ==> store_failure::<T>(e) || old(self).leaf_read_fails(leaf.index, e),
            r matches Ok(proof) ==> leaf_path_written(
                hasher,
                DEPTH as nat,
                *leaf,
                proof.assist@,
                final(self).root_view(),
                old(self).store_view().records(),
                final(self).store_view().records(),
            ),
    {
        let index = leaf.index();
        let mut hash = leaf.hash();
        let (_, mut proof) = self.get_leaf_with_proof(index)?;
        let ghost off = leaf_offset(DEPTH as nat, index as nat);
        let ghost assist = proof.assist@;
        let ghost (wnodes, wflags) = choose|nodes: Seq<MerkleRecord>, flags: Seq<bool>| {
            &&& #[trigger] self.walk(self.root_view(), leaf_path(DEPTH as nat, index as nat), DEPTH as nat, nodes, flags)
            &&& proof.assist@ == siblings(leaf_path(DEPTH as nat, index as nat), nodes)
            &&& proof.source == nodes.last().hash
        };
        proof {
            assert(proof.assist@.len() == DEPTH);
            lemma_pow2_mono(DEPTH as nat + 1, 63);
            lemma_pow2_64();
        }
        proof.source = hash;
        let mut p = get_offset(index);
        proof {
            let d = choose|d: nat| depth_of(index as nat, d) && p == index + 1 - pow2(d);
            lemma_depth_unique(index as nat, d, DEPTH as nat);
            vstd::arithmetic::div_mod::lemma_div_basics(off as int);
        }
        let mut parents: Vec<(u64, [u8; 32], [u8; 32], [u8; 32])> = Vec::new();
        let mut i: usize = 0;
        while i < DEPTH
            invariant
                self.wf(),
                proof.assist@ == assist,
                assist.len() == DEPTH,
                off == leaf_offset(DEPTH as nat, index as nat),
                off < pow2(DEPTH as nat),
                pow2(DEPTH as nat + 1) <= pow2(63),
                pow2(63) == 0x8000_0000_0000_0000,
                i <= DEPTH,
                p as nat == off / pow2(i as nat),
                p < pow2((DEPTH - i) as nat),
                parents@.len() == i,
                hash == climb_root(leaf.hash, parents@),
                climb(hasher, DEPTH as nat, off, assist, leaf.hash, parents@),
                forall|a: [u8; 32], b: [u8; 32]| call_requires(hasher, (a, b)),
            decreases DEPTH - i,
        {
            let cur_hash = hash;
            let depth = DEPTH - i - 1;
            let (left, right) = if p % 2 == 1 {
                (proof.assist[depth], cur_hash)
            } else {
                (cur_hash, proof.assist[depth])
            };
            hash = hasher(left, right);
            proof {
                lemma_div_pow2_step(off, i as nat);
                lemma_pow2_mono(depth as nat, 63);
                lemma_pow2_pos(depth as nat);
                assert(pow2((DEPTH - i) as nat) == 2 * pow2(depth as nat));
                assert((DEPTH - depth) as nat == (i + 1) as nat);
            }
            p = p / 2;
            let index = p + pow2_u64(depth as u32) - 1;
            let ghost before = parents@;
            parents.push((index, hash, left, right));
            proof {
                assert forall|k: int| 0 <= k < parents@.len() implies climb_step(
                    hasher,
                    DEPTH as nat,
                    off,
                    assist,
                    k as nat,
                    if k == 0 { leaf.hash } else { parents@[k - 1].1 },
                    #[trigger] parents@[k],
                ) by {
                    if k < i {
                        assert(parents@[k] == before[k]);
                        if k > 0 {
                            assert(parents@[k - 1] == before[k - 1]);
                        }
                    }
                }
            }
            i = i + 1;
        }
        let ghost mid = self.store_view().records();
        assert(mid == old(self).store_view().records());
        assert(is_leaf_index(DEPTH as nat, index as nat));
        self.set_leaf_and_parents(leaf, &parents)?;
        proof {
            self.lemma_path_stored(mid, hasher, *leaf, assist, parents@);
        }
        self.update_root_hash(&hash);
        proof.root = hash;
        proof {
            assert(old(self).walk(old(self).root_view(), leaf_path(DEPTH as nat, index as nat), DEPTH as nat, wnodes, wflags));
            assert(climb(hasher, DEPTH as nat, off, proof.assist@, leaf.hash, parents@));
            assert(path_stored_or_kept(old(self).store_view().records(), self.store_view().records(), *leaf, parents@));
        }
        proof {
            let ps = parents@;
            assert(path_written(hasher, DEPTH as nat, *leaf, proof.assist@, ps, self.root_view(), old(self).store_view().records(), self.store_view().records()));
            assert(leaf_path_written(hasher, DEPTH as nat, *leaf, proof.assist@, self.root_view(), old(self).store_view().records(), self.store_view().records()));
        }
        Ok(proof)
    }

    /// Puts `data` in the leaf at `index`, its hash computed by
    /// `leaf_hasher`, and writes the leaf into the tree as
    /// `set_leaf_with_proof` does.
    pub fn update_leaf_data_with_proof<G: Fn(&[u8]) -> [u8; 32], F: Fn([u8; 32], [u8; 32]) -> [u8; 32]>(
        &mut self,
        index: u64,
        data: [u8; 32],
        leaf_hasher: &G,
        hasher: F,
    ) -> (r: MerkleResult<MerkleProof>)
        requires
            old(self).wf(),
            old(self).store_view().inv(),
            forall|a: [u8; 32], b: [u8; 32]| call_requires(hasher, (a, b)),
            forall|a: &[u8]| call_requires(*leaf_hasher, (a,)),
        ensures
            final(self).wf(),
            final(self).store_view().inv(),
            !is_leaf_index(DEPTH as nat, index as nat) ==> (r matches Err(e) && zero_hash_error(e, index, MerkleErrorCode::InvalidLeafIndex)),
            r matches Ok(proof) ==> {
                &&& exists|a: &[u8]| a@ == data@ && #[trigger] call_ensures(*leaf_hasher, (a,), proof.source)
                &&& old(self).leaf_written(hasher, index, proof.source, proof, final(self).root_view(), final(self).store_view().records())
                &&& data_written(hasher, DEPTH as nat, index, data, proof.source, proof.assist@, final(self).root_view(), old(self).store_view().records(), final(self).store_view().records())
            },
            r matches Err(e) ==> is_leaf_index(DEPTH as nat, index as nat) ==> store_failure::<T>(e) || old(self).leaf_read_fails(index, e),
    {
        let (mut leaf, _) = self.get_leaf_with_proof(index)?;
        let h = leaf_hasher(data.as_slice());
        leaf.set(data, h);
        let r = self.set_leaf_with_proof(&leaf, hasher);
        proof {
            if let Ok(ref p) = r {
                assert(data_written(hasher, DEPTH as nat, index, data, p.source, p.assist@, self.root_view(), old(self).store_view().records(), self.store_view().records())) by {
                    assert(leaf_path_written(hasher, DEPTH as nat, leaf, p.assist@, self.root_view(), old(self).store_view().records(), self.store_view().records()));
                }
            }
        }
        r
    }
}

} // verus!
