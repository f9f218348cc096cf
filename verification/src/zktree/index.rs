//! Node positions in a complete binary tree stored breadth-first: the root
//! is 0 and the children of `i` are `2i + 1` and `2i + 2`, so depth `d`
//! holds the indices `2^d - 1 .. 2^(d+1) - 2`.
use vstd::prelude::*;

verus! {

/// `2` to the power `n`.
pub open spec fn pow2(n: nat) -> nat
    decreases n,
{
    if n == 0 {
        1
    } else {
        2 * pow2((n - 1) as nat)
    }
}

pub proof fn lemma_pow2_pos(n: nat)
    ensures
        pow2(n) >= 1,
    decreases n,
{
    if n > 0 {
        lemma_pow2_pos((n - 1) as nat);
    }
}

pub proof fn lemma_pow2_mono(a: nat, b: nat)
    requires
        a <= b,
    ensures
        pow2(a) <= pow2(b),
    decreases b,
{
    if b > a {
        lemma_pow2_mono(a, (b - 1) as nat);
    } else {
        lemma_pow2_pos(a);
    }
}

pub proof fn lemma_pow2_64()
    ensures
        pow2(64) == 0x1_0000_0000_0000_0000,
        pow2(63) == 0x8000_0000_0000_0000,
{
    reveal_with_fuel(pow2, 65);
}

/// `2^n`, for `n` below 64.
pub fn pow2_u64(n: u32) -> (r: u64)
    requires
        n < 64,
    ensures
        r as nat == pow2(n as nat),
{
    let mut r: u64 = 1;
    let mut i: u32 = 0;
    while i < n
        invariant
            i <= n < 64,
            r as nat == pow2(i as nat),
        decreases n - i,
    {
        proof {
            lemma_pow2_mono((i + 1) as nat, 63);
            lemma_pow2_64();
        }
        r = r * 2;
        i = i + 1;
    }
    r
}

/// The depth of node `index`: the `d` with `2^d <= index + 1 < 2^(d+1)`.
pub open spec fn depth_of(index: nat, d: nat) -> bool {
    pow2(d) <= index + 1 < pow2(d + 1)
}

/// The floor of the base-2 logarithm of `x`.
pub fn ilog2(x: u64) -> (r: u32)
    requires
        x >= 1,
    ensures
        r < 64,
        pow2(r as nat) <= x < pow2(r as nat + 1),
{
    let mut p: u64 = 1;
    let mut k: u32 = 0;
    while p <= x / 2
        invariant
            x >= 1,
            k < 64,
            p as nat == pow2(k as nat),
            1 <= p <= x,
        decreases x - p,
    {
        proof {
            lemma_pow2_mono(k as nat, 63);
            lemma_pow2_64();
        }
        p = p * 2;
        k = k + 1;
        proof {
            if k >= 64 {
                lemma_pow2_mono(64, k as nat);
                lemma_pow2_64();
            }
        }
    }
    k
}

/// Depths are unique.
pub proof fn lemma_depth_unique(index: nat, a: nat, b: nat)
    requires
        depth_of(index, a),
        depth_of(index, b),
    ensures
        a == b,
{
    if a < b {
        lemma_pow2_mono(a + 1, b);
    } else if b < a {
        lemma_pow2_mono(b + 1, a);
    }
}

/// The position of `index` among the nodes of its depth.
pub fn get_offset(index: u64) -> (r: u64)
    requires
        index < u64::MAX,
    ensures
        exists|d: nat| depth_of(index as nat, d) && r == index + 1 - pow2(d),
{
    let height = ilog2(index + 1);
    let full = pow2_u64(height) - 1;
    proof {
        assert(depth_of(index as nat, height as nat));
    }
    index - full
}

/// Index of the node at depth `d` and position `p`.
pub open spec fn node_index(d: nat, p: nat) -> nat {
    (pow2(d) - 1 + p) as nat
}

/// The ancestor of the node at position `offset` of depth `depth`, at depth `k`.
pub open spec fn ancestor(depth: nat, offset: nat, k: nat) -> nat {
    node_index(k, offset / pow2((depth - k) as nat))
}

/// Halving the position of a node gives the position of its parent:
/// `(x / 2^m) / 2 == x / 2^(m+1)`.
pub proof fn lemma_div_pow2_step(x: nat, m: nat)
    ensures
        (x / pow2(m)) / 2 == x / pow2(m + 1),
{
    lemma_pow2_pos(m);
    vstd::arithmetic::div_mod::lemma_div_denominator(x as int, pow2(m) as int, 2);
    assert(pow2(m + 1) == pow2(m) * 2);
}

/// The ancestors of a node at depth `depth` and position `offset` form a
/// root-to-node chain: the one at depth `0` is the root, the one at depth
/// `depth` is the node itself, and each is a child (`2i + 1` or `2i + 2`)
/// of the one above it.
pub proof fn lemma_ancestor_chain(depth: nat, offset: nat)
    requires
        offset < pow2(depth),
    ensures
        ancestor(depth, offset, 0) == 0,
        ancestor(depth, offset, depth) == node_index(depth, offset),
        forall|k: nat| k < depth ==> {
            ||| #[trigger] ancestor(depth, offset, k + 1) == 2 * ancestor(depth, offset, k) + 1
            ||| ancestor(depth, offset, k + 1) == 2 * ancestor(depth, offset, k) + 2
        },
{
    vstd::arithmetic::div_mod::lemma_basic_div(offset as int, pow2(depth) as int);
    vstd::arithmetic::div_mod::lemma_div_basics(offset as int);
    assert forall|k: nat| k < depth implies {
        ||| #[trigger] ancestor(depth, offset, k + 1) == 2 * ancestor(depth, offset, k) + 1
        ||| ancestor(depth, offset, k + 1) == 2 * ancestor(depth, offset, k) + 2
    } by {
        let m = (depth - k - 1) as nat;
        let q = offset / pow2(m);
        lemma_div_pow2_step(offset, m);
        assert((depth - k) as nat == m + 1);
        lemma_pow2_pos(k);
        assert(pow2(k + 1) == 2 * pow2(k));
        vstd::arithmetic::div_mod::lemma_fundamental_div_mod(q as int, 2);
    }
}

/// Every ancestor's index is at most the node's own.
pub proof fn lemma_ancestor_bound(depth: nat, offset: nat, k: nat)
    requires
        offset < pow2(depth),
        k <= depth,
    ensures
        ancestor(depth, offset, k) <= node_index(depth, offset),
    decreases depth - k,
{
    lemma_ancestor_chain(depth, offset);
    if k < depth {
        lemma_ancestor_bound(depth, offset, k + 1);
        assert(ancestor(depth, offset, k + 1) >= ancestor(depth, offset, k));
    }
}


/// The ancestor at depth `t + 1` is the left child (`2i + 1`) of the one at
/// depth `t` exactly when its position is even.
pub proof fn lemma_child_side(depth: nat, offset: nat, t: nat)
    requires
        offset < pow2(depth),
        t < depth,
    ensures
        (ancestor(depth, offset, t + 1) == 2 * ancestor(depth, offset, t) + 1)
            == ((offset / pow2((depth - t - 1) as nat)) % 2 == 0),
{
    let m = (depth - t - 1) as nat;
    let q = offset / pow2(m);
    lemma_div_pow2_step(offset, m);
    assert((depth - t) as nat == m + 1);
    assert((depth - (t + 1)) as nat == m);
    lemma_pow2_pos(t);
    assert(pow2(t + 1) == 2 * pow2(t));
    vstd::arithmetic::div_mod::lemma_fundamental_div_mod(q as int, 2);
}


/// Ancestors deeper down have larger indices.
pub proof fn lemma_ancestor_increasing(depth: nat, offset: nat, a: nat, b: nat)
    requires
        offset < pow2(depth),
        a < b <= depth,
    ensures
        ancestor(depth, offset, a) < ancestor(depth, offset, b),
    decreases b - a,
{
    lemma_ancestor_chain(depth, offset);
    assert(ancestor(depth, offset, a + 1) > ancestor(depth, offset, a));
    if a + 1 < b {
        lemma_ancestor_increasing(depth, offset, a + 1, b);
    }
}

} // verus!
