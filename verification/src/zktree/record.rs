//! The records a Merkle tree keeps: tree nodes and the data bound to leaves.
use vstd::prelude::*;

verus! {

/// Little-endian value of a byte string.
pub open spec fn le_value(s: Seq<u8>) -> nat
    decreases s.len(),
{
    if s.len() == 0 {
        0
    } else {
        s[0] as nat + 256 * le_value(s.drop_first())
    }
}

/// The four little-endian 64-bit words of the first 32 bytes.
pub open spec fn words_of(s: Seq<u8>) -> Seq<nat> {
    seq![
        le_value(s.subrange(0, 8)),
        le_value(s.subrange(8, 16)),
        le_value(s.subrange(16, 24)),
        le_value(s.subrange(24, 32)),
    ]
}

proof fn lemma_le_value_bound(s: Seq<u8>)
    ensures
        le_value(s) < crate::tree::merkle::pow256(s.len()),
    decreases s.len(),
{
    if s.len() > 0 {
        lemma_le_value_bound(s.drop_first());
        let t = le_value(s.drop_first());
        let p = crate::tree::merkle::pow256((s.len() - 1) as nat);
        assert(crate::tree::merkle::pow256(s.len()) == 256 * p);
        assert(s[0] as nat + 256 * t < 256 * p) by (nonlinear_arith)
            requires
                t < p,
                s[0] < 256,
        ;
    }
}

/// Reads the eight bytes at `from` as a little-endian word.
pub fn read_le_u64(s: &[u8], from: usize) -> (r: u64)
    requires
        from + 8 <= s@.len(),
    ensures
        r as nat == le_value(s@.subrange(from as int, from + 8)),
{
    let mut v: u64 = 0;
    let mut i: usize = 8;
    let n = s.len();
    proof {
        assert(s@.subrange(from + 8, from + 8) =~= Seq::<u8>::empty());
    }
    while i > 0
        invariant
            i <= 8,
            n == s@.len(),
            from + 8 <= s@.len(),
            v as nat == le_value(s@.subrange(from + i, from + 8)),
        decreases i,
    {
        i = i - 1;
        proof {
            let t = s@.subrange(from + i, from + 8);
            assert(t.drop_first() =~= s@.subrange(from + i + 1, from + 8));
            assert(t[0] == s@[from + i]);
            lemma_le_value_bound(t);
            crate::tree::merkle::lemma_pow256_mono(t.len(), 8);
            crate::tree::merkle::lemma_pow256_8();
        }
        v = s[from + i] as u64 + 256 * v;
    }
    v
}

/// The words as natural numbers.
pub open spec fn nat_words(s: Seq<u64>) -> Seq<nat> {
    Seq::new(s.len(), |i: int| s[i] as nat)
}

/// Every byte is zero.
pub open spec fn is_zero(a: [u8; 32]) -> bool {
    forall|i: int| 0 <= i < 32 ==> a@[i] == 0
}

/// Data bound to a leaf, with its hash.
pub struct DataHashRecord {
    pub hash: [u8; 32],
    pub data: Vec<u8>,
}

impl DataHashRecord {
    /// A record binding `data` to its hash, computed by `default_hash` with
    /// the sponge `sponge`. The receiver is left as it is.
    pub fn new<H: Fn(&Vec<[u8; 32]>) -> [u8; 32]>(&mut self, data: &Vec<u8>, sponge: &H) -> (r: Self)
        requires
            data@.len() % 16 == 0,
            forall|v: &Vec<[u8; 32]>| call_requires(*sponge, (v,)),
        ensures
            *final(self) == *old(self),
            r.data@ == data@,
            exists|inputs: Vec<[u8; 32]>| packed(data@, inputs@) && call_ensures(*sponge, (&inputs,), r.hash),
    {
        let hash = default_hash(data.as_slice(), sponge);
        DataHashRecord { data: crate::tree::keys::key_to_vec(data.as_slice()), hash }
    }

    /// The first 32 data bytes as four little-endian words.
    pub fn data_as_u64(&self) -> (r: [u64; 4])
        requires
            self.data@.len() >= 32,
        ensures
            nat_words(r@) == words_of(self.data@),
    {
        let d = self.data.as_slice();
        let r = [read_le_u64(d, 0), read_le_u64(d, 8), read_le_u64(d, 16), read_le_u64(d, 24)];
        proof {
            assert(nat_words(r@) =~= words_of(self.data@));
        }
        r
    }
}

/// The field element representation of the `i`-th sixteen bytes of `data`:
/// those bytes followed by sixteen zero bytes.
pub open spec fn chunk_repr(data: Seq<u8>, i: int) -> Seq<u8> {
    data.subrange(16 * i, 16 * i + 16) + Seq::new(16, |j: int| 0u8)
}

/// `reprs` holds the representation of each sixteen-byte piece of `data`,
/// in order.
pub open spec fn packed(data: Seq<u8>, reprs: Seq<[u8; 32]>) -> bool {
    &&& reprs.len() * 16 == data.len()
    &&& forall|i: int| 0 <= i < reprs.len() ==> (#[trigger] reprs[i])@ == chunk_repr(data, i)
}

/// The inputs of the data hash: `data` cut into sixteen-byte pieces, each
/// widened to a 32-byte field element representation by zero bytes.
pub fn hash_inputs(data: &[u8]) -> (r: Vec<[u8; 32]>)
    requires
        data@.len() % 16 == 0,
    ensures
        packed(data@, r@),
{
    let total = data.len();
    let n = total / 16;
    let mut r: Vec<[u8; 32]> = Vec::new();
    let mut i: usize = 0;
    while i < n
        invariant
            total == data@.len(),
            n * 16 == data@.len(),
            i <= n,
            r@.len() == i,
            forall|k: int| 0 <= k < i ==> (#[trigger] r@[k])@ == chunk_repr(data@, k),
        decreases n - i,
    {
        assert(16 * i + 16 <= data@.len()) by (nonlinear_arith)
            requires
                i < n,
                n * 16 == data@.len(),
        ;
        let base: usize = 16 * i;
        let mut a: [u8; 32] = [0u8; 32];
        let mut j: usize = 0;
        while j < 16
            invariant
                base + 16 <= data@.len(),
                base == 16 * i,
                j <= 16,
                forall|t: int| 0 <= t < j ==> a@[t] == data@[16 * i + t],
                forall|t: int| 16 <= t < 32 ==> a@[t] == 0u8,
            decreases 16 - j,
        {
            a[j] = data[base + j];
            j = j + 1;
        }
        proof {
            assert(a@ =~= chunk_repr(data@, i as int));
        }
        r.push(a);
        i = i + 1;
    }
    r
}

/// The hash of `data`: its pieces, as `hash_inputs` gives them, absorbed by
/// the sponge `sponge`, whose squeezed output is returned.
pub fn default_hash<H: Fn(&Vec<[u8; 32]>) -> [u8; 32]>(data: &[u8], sponge: &H) -> (r: [u8; 32])
    requires
        data@.len() % 16 == 0,
        forall|v: &Vec<[u8; 32]>| call_requires(*sponge, (v,)),
    ensures
        exists|inputs: Vec<[u8; 32]>| packed(data@, inputs@) && call_ensures(*sponge, (&inputs,), r),
{
    let inputs = hash_inputs(data);
    sponge(&inputs)
}

/// A node of a Merkle tree: its position, hash, children hashes and, for a
/// leaf, its data.
#[derive(Debug, PartialEq, Eq, Clone, Copy)]
pub struct MerkleRecord {
    pub index: u64,
    pub hash: [u8; 32],
    pub left: [u8; 32],
    pub right: [u8; 32],
    pub data: [u8; 32],
}

impl MerkleRecord {
    /// A node at `index` with every hash and the data zero.
    pub fn new(index: u64) -> (r: Self)
        ensures
            r.index == index,
            is_zero(r.hash),
            is_zero(r.left),
            is_zero(r.right),
            is_zero(r.data),
    {
        MerkleRecord { index, hash: [0; 32], data: [0; 32], left: [0; 32], right: [0; 32] }
    }

    pub fn index(&self) -> (r: u64)
        ensures
            r == self.index,
    {
        self.index
    }

    pub fn hash(&self) -> (r: [u8; 32])
        ensures
            r == self.hash,
    {
        self.hash
    }

    pub fn right(&self) -> (r: Option<[u8; 32]>)
        ensures
            r == Some(self.right),
    {
        Some(self.right)
    }

    pub fn left(&self) -> (r: Option<[u8; 32]>)
        ensures
            r == Some(self.left),
    {
        Some(self.left)
    }

    /// Stores `data` in the node, with `hash` as its hash.
    pub fn set(&mut self, data: [u8; 32], hash: [u8; 32])
        ensures
            final(self).data == data,
            final(self).hash == hash,
            final(self).index == old(self).index,
            final(self).left == old(self).left,
            final(self).right == old(self).right,
    {
        self.data = data;
        self.hash = hash;
    }

    /// The data as four little-endian words.
    pub fn data_as_u64(&self) -> (r: [u64; 4])
        ensures
            nat_words(r@) == words_of(self.data@),
    {
        let d = self.data.as_slice();
        let r = [read_le_u64(d, 0), read_le_u64(d, 8), read_le_u64(d, 16), read_le_u64(d, 24)];
        proof {
            assert(nat_words(r@) =~= words_of(self.data@));
        }
        r
    }
}

/// A Merkle proof: the leaf hash, the root hash, and the sibling hashes
/// along the path, top first.
pub struct MerkleProof {
    pub source: [u8; 32],
    pub root: [u8; 32],
    pub assist: Vec<[u8; 32]>,
    pub index: u64,
}

} // verus!
