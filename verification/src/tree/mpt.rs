//! Keys under which a Merkle-Patricia trie keeps its bookkeeping in the
//! backing store.
use vstd::prelude::*;
use crate::tree::keys::{concat_keys, lex_lt, lemma_lex_prefix, lemma_lex_total, lemma_lex_irreflexive};
use crate::tree::merkle::{u64_to_be_bytes, be_value, pow256, lemma_be_value_prepend, lemma_be_value_bound, lemma_pow256_pos};
use crate::tree::tree::{keccak_hash, keccak256};

verus! {

/// The bytes of the text `height_hash`.
pub open spec fn height_hash_tag() -> Seq<u8> {
    seq![104u8, 101, 105, 103, 104, 116, 95, 104, 97, 115, 104]
}

/// The bytes of the text `mpt_root`.
pub open spec fn mpt_root_tag() -> Seq<u8> {
    seq![109u8, 112, 116, 95, 114, 111, 111, 116]
}

/// The key the root hash at height `h` is kept under: the tag `height_hash`
/// followed by the eight big-endian bytes of `h`.
pub fn build_height_key(h: u64) -> (r: Vec<u8>)
    ensures
        r@.len() == 19,
        r@.subrange(0, 11) == height_hash_tag(),
        be_value(r@.subrange(11, 19)) == h as nat,
{
    let tag: Vec<u8> = vec![104u8, 101, 105, 103, 104, 116, 95, 104, 97, 115, 104];
    let hb = u64_to_be_bytes(h);
    let r = concat_keys(tag.as_slice(), hb.as_slice());
    proof {
        assert(r@.subrange(0, 11) =~= height_hash_tag());
        assert(r@.subrange(11, 19) =~= hb@);
    }
    r
}

/// The key a trie stores `k` under: its Keccak-256 hash.
pub fn key_decorator(k: Vec<u8>) -> (r: Vec<u8>)
    ensures
        r@ == keccak256(k@)@,
{
    let h = keccak_hash(k.as_slice());
    let mut out: Vec<u8> = Vec::new();
    let mut i: usize = 0;
    while i < 32
        invariant
            i <= 32,
            out@ == h@.subrange(0, i as int),
        decreases 32 - i,
    {
        out.push(h[i]);
        proof {
            assert(out@ =~= h@.subrange(0, i as int + 1));
        }
        i = i + 1;
    }
    proof {
        assert(h@.subrange(0, 32) =~= h@);
    }
    out
}

/// The key the trie root is kept under: `root_prefix` followed by `mpt_root`.
pub fn build_root_key(root_prefix: &[u8]) -> (r: Vec<u8>)
    ensures
        r@ == root_prefix@ + mpt_root_tag(),
{
    let tag: Vec<u8> = vec![109u8, 112, 116, 95, 114, 111, 111, 116];
    proof {
        assert(tag@ =~= mpt_root_tag());
    }
    concat_keys(root_prefix, tag.as_slice())
}


/// Byte strings of one length are ordered as their big-endian values.
proof fn lemma_lex_be_order(a: Seq<u8>, b: Seq<u8>)
    requires
        a.len() == b.len(),
    ensures
        lex_lt(a, b) == (be_value(a) < be_value(b)),
    decreases a.len(),
{
    if a.len() > 0 {
        let a1 = a.drop_first();
        let b1 = b.drop_first();
        assert(a =~= seq![a[0]] + a1);
        assert(b =~= seq![b[0]] + b1);
        lemma_be_value_prepend(a1, a[0]);
        lemma_be_value_prepend(b1, b[0]);
        lemma_be_value_bound(a1);
        lemma_be_value_bound(b1);
        lemma_pow256_pos(a1.len());
        let p = pow256(a1.len());
        let x = be_value(a1);
        let y = be_value(b1);
        if a[0] < b[0] {
            assert(a[0] as nat * p + x < b[0] as nat * p + y) by (nonlinear_arith)
                requires
                    a[0] + 1 <= b[0],
                    x < p,
                    0 < p,
            ;
        } else if b[0] < a[0] {
            assert(b[0] as nat * p + y < a[0] as nat * p + x) by (nonlinear_arith)
                requires
                    b[0] + 1 <= a[0],
                    y < p,
                    0 < p,
            ;
        } else {
            lemma_lex_prefix(seq![a[0]], a1, b1);
            lemma_lex_be_order(a1, b1);
        }
    }
}

/// Height keys are ordered as their heights: for keys built as
/// `build_height_key` builds them, one is below the other exactly when its
/// height is, and they are equal exactly when the heights are.
pub proof fn lemma_height_keys_ordered(k1: Seq<u8>, h1: u64, k2: Seq<u8>, h2: u64)
    requires
        k1.len() == 19,
        k1.subrange(0, 11) == height_hash_tag(),
        be_value(k1.subrange(11, 19)) == h1 as nat,
        k2.len() == 19,
        k2.subrange(0, 11) == height_hash_tag(),
        be_value(k2.subrange(11, 19)) == h2 as nat,
    ensures
        lex_lt(k1, k2) == (h1 < h2),
        (k1 == k2) == (h1 == h2),
{
    let t = height_hash_tag();
    let s1 = k1.subrange(11, 19);
    let s2 = k2.subrange(11, 19);
    assert(k1 =~= t + s1);
    assert(k2 =~= t + s2);
    lemma_lex_prefix(t, s1, s2);
    lemma_lex_prefix(t, s2, s1);
    lemma_lex_be_order(s1, s2);
    lemma_lex_be_order(s2, s1);
    if h1 == h2 && k1 != k2 {
        lemma_lex_total(k1, k2);
    }
    if k1 == k2 {
        lemma_lex_irreflexive(k1);
    }
}

} // verus!
