//! Byte-string keys: the lexicographic order every ordered view of the
//! store is sorted by, and key concatenation.
use vstd::prelude::*;

verus! {

/// Lexicographic "less than" on byte strings, looking from position `i` on,
/// given that the two strings agree before `i`.
pub open spec fn lex_lt_from(a: Seq<u8>, b: Seq<u8>, i: int) -> bool
    decreases a.len() - i,
{
    if i < 0 || i >= a.len() {
        0 <= i && i < b.len()
    } else if i >= b.len() {
        false
    } else if a[i] != b[i] {
        a[i] < b[i]
    } else {
        lex_lt_from(a, b, i + 1)
    }
}

/// Lexicographic order on byte strings (a proper prefix comes first).
pub open spec fn lex_lt(a: Seq<u8>, b: Seq<u8>) -> bool {
    lex_lt_from(a, b, 0)
}

/// Order of two keys, as computed by `compare_keys`.
#[derive(PartialEq, Eq, Structural, Clone, Copy, Debug)]
pub enum KeyOrder {
    Less,
    Equal,
    Greater,
}

proof fn lemma_lex_from_irreflexive(a: Seq<u8>, i: int)
    requires
        0 <= i,
    ensures
        !lex_lt_from(a, a, i),
    decreases a.len() - i,
{
    if i < a.len() {
        lemma_lex_from_irreflexive(a, i + 1);
    }
}

proof fn lemma_lex_from_asymmetric(a: Seq<u8>, b: Seq<u8>, i: int)
    requires
        0 <= i,
        lex_lt_from(a, b, i),
    ensures
        !lex_lt_from(b, a, i),
    decreases a.len() - i,
{
    if i < a.len() && i < b.len() && a[i] == b[i] {
        lemma_lex_from_asymmetric(a, b, i + 1);
    }
}

proof fn lemma_lex_from_transitive(a: Seq<u8>, b: Seq<u8>, c: Seq<u8>, i: int)
    requires
        0 <= i,
        lex_lt_from(a, b, i),
        lex_lt_from(b, c, i),
    ensures
        lex_lt_from(a, c, i),
    decreases a.len() - i,
{
    if i < a.len() && i < b.len() && i < c.len() && a[i] == b[i] && b[i] == c[i] {
        lemma_lex_from_transitive(a, b, c, i + 1);
    }
}

proof fn lemma_lex_from_total(a: Seq<u8>, b: Seq<u8>, i: int)
    requires
        0 <= i <= a.len(),
        i <= b.len(),
        a.subrange(0, i) == b.subrange(0, i),
        a != b,
    ensures
        lex_lt_from(a, b, i) || lex_lt_from(b, a, i),
    decreases a.len() - i,
{
    if i < a.len() && i < b.len() && a[i] == b[i] {
        assert(a.subrange(0, i + 1) =~= a.subrange(0, i).push(a[i]));
        assert(b.subrange(0, i + 1) =~= b.subrange(0, i).push(b[i]));
        lemma_lex_from_total(a, b, i + 1);
    } else if i == a.len() && i == b.len() {
        assert(a =~= a.subrange(0, i));
        assert(b =~= b.subrange(0, i));
    }
}

/// No key is below itself.
pub proof fn lemma_lex_irreflexive(a: Seq<u8>)
    ensures
        !lex_lt(a, a),
{
    lemma_lex_from_irreflexive(a, 0);
}

/// The order is asymmetric.
pub proof fn lemma_lex_asymmetric(a: Seq<u8>, b: Seq<u8>)
    requires
        lex_lt(a, b),
    ensures
        !lex_lt(b, a),
{
    lemma_lex_from_asymmetric(a, b, 0);
}

/// The order is transitive.
pub proof fn lemma_lex_transitive(a: Seq<u8>, b: Seq<u8>, c: Seq<u8>)
    requires
        lex_lt(a, b),
        lex_lt(b, c),
    ensures
        lex_lt(a, c),
{
    lemma_lex_from_transitive(a, b, c, 0);
}

/// Two different keys are always ordered one way or the other.
pub proof fn lemma_lex_total(a: Seq<u8>, b: Seq<u8>)
    requires
        a != b,
    ensures
        lex_lt(a, b) || lex_lt(b, a),
{
    assert(a.subrange(0, 0) =~= b.subrange(0, 0));
    lemma_lex_from_total(a, b, 0);
}

/// Agreeing on a prefix, the order is decided after it.
pub proof fn lemma_lex_skip_common(a: Seq<u8>, b: Seq<u8>, i: int, j: int)
    requires
        0 <= i <= j,
        j <= a.len(),
        j <= b.len(),
        a.subrange(i, j) == b.subrange(i, j),
    ensures
        lex_lt_from(a, b, i) == lex_lt_from(a, b, j),
    decreases j - i,
{
    if i < j {
        assert(a[i] == a.subrange(i, j)[0]);
        assert(b[i] == b.subrange(i, j)[0]);
        assert(a.subrange(i + 1, j) =~= a.subrange(i, j).drop_first());
        assert(b.subrange(i + 1, j) =~= b.subrange(i, j).drop_first());
        lemma_lex_skip_common(a, b, i + 1, j);
    }
}

proof fn lemma_lex_shift(p: Seq<u8>, a: Seq<u8>, b: Seq<u8>, j: int)
    requires
        0 <= j,
    ensures
        lex_lt_from(p + a, p + b, p.len() + j) == lex_lt_from(a, b, j),
    decreases a.len() - j,
{
    let n = p.len() as int;
    if j < a.len() && j < b.len() {
        assert((p + a)[n + j] == a[j]);
        assert((p + b)[n + j] == b[j]);
        lemma_lex_shift(p, a, b, j + 1);
    }
}

/// Putting the same prefix in front keeps the order.
pub proof fn lemma_lex_prefix(p: Seq<u8>, a: Seq<u8>, b: Seq<u8>)
    ensures
        lex_lt(p + a, p + b) == lex_lt(a, b),
{
    let n = p.len() as int;
    assert((p + a).subrange(0, n) =~= p);
    assert((p + b).subrange(0, n) =~= p);
    lemma_lex_skip_common(p + a, p + b, 0, n);
    lemma_lex_shift(p, a, b, 0);
}

/// A key above `p + s` that does not begin with `p` is above every key
/// that begins with `p`.
pub proof fn lemma_lex_outside_prefix(p: Seq<u8>, s: Seq<u8>, y: Seq<u8>, b: Seq<u8>)
    requires
        lex_lt(p + s, y),
        !(p.len() <= y.len() && y.subrange(0, p.len() as int) == p),
    ensures
        lex_lt(p + b, y),
{
    let n = p.len() as int;
    // first position where y leaves p
    assert(y.subrange(0, 0) =~= p.subrange(0, 0));
    let j = lemma_first_departure(p, y, 0);
    if j == n {
        assert(y.subrange(0, n) =~= p);
    } else {
        // j < n: positions before j agree
        assert((p + s).subrange(0, j) =~= p.subrange(0, j));
        assert((p + b).subrange(0, j) =~= p.subrange(0, j));
        lemma_lex_skip_common(p + s, y, 0, j);
        lemma_lex_skip_common(p + b, y, 0, j);
        assert((p + s)[j] == p[j]);
        assert((p + b)[j] == p[j]);
    }
}

proof fn lemma_first_departure(p: Seq<u8>, y: Seq<u8>, i: int) -> (j: int)
    requires
        0 <= i <= p.len(),
        i <= y.len(),
        y.subrange(0, i) == p.subrange(0, i),
    ensures
        i <= j <= p.len(),
        j <= y.len(),
        y.subrange(0, j) == p.subrange(0, j),
        j == y.len() || j == p.len() || y[j] != p[j],
    decreases p.len() - i,
{
    if i == y.len() || i == p.len() || y[i] != p[i] {
        i
    } else {
        assert(y.subrange(0, i + 1) =~= y.subrange(0, i).push(y[i]));
        assert(p.subrange(0, i + 1) =~= p.subrange(0, i).push(p[i]));
        lemma_first_departure(p, y, i + 1)
    }
}

/// Compares two keys lexicographically, byte by byte.
pub fn compare_keys(a: &[u8], b: &[u8]) -> (r: KeyOrder)
    ensures
        r == KeyOrder::Less <==> lex_lt(a@, b@),
        r == KeyOrder::Equal <==> a@ == b@,
        r == KeyOrder::Greater <==> lex_lt(b@, a@),
{
    let mut i: usize = 0;
    while i < a.len() && i < b.len()
        invariant
            i <= a.len(),
            i <= b.len(),
            a@.subrange(0, i as int) == b@.subrange(0, i as int),
            lex_lt(a@, b@) == lex_lt_from(a@, b@, i as int),
            lex_lt(b@, a@) == lex_lt_from(b@, a@, i as int),
        decreases a.len() - i,
    {
        if a[i] != b[i] {
            proof {
                if a@ == b@ {
                    assert(a@[i as int] == b@[i as int]);
                }
                if a@[i as int] < b@[i as int] {
                    lemma_lex_from_asymmetric(a@, b@, i as int);
                } else {
                    lemma_lex_from_asymmetric(b@, a@, i as int);
                }
            }
            if a[i] < b[i] {
                return KeyOrder::Less;
            } else {
                return KeyOrder::Greater;
            }
        }
        proof {
            assert(a@.subrange(0, i + 1) =~= a@.subrange(0, i as int).push(a@[i as int]));
            assert(b@.subrange(0, i + 1) =~= b@.subrange(0, i as int).push(b@[i as int]));
        }
        i = i + 1;
    }
    if a.len() == b.len() {
        proof {
            assert(a@ =~= a@.subrange(0, i as int));
            assert(b@ =~= b@.subrange(0, i as int));
            lemma_lex_irreflexive(a@);
        }
        KeyOrder::Equal
    } else if a.len() < b.len() {
        proof {
            assert(a@.len() != b@.len());
        }
        KeyOrder::Less
    } else {
        KeyOrder::Greater
    }
}

/// Whether two keys are equal.
pub fn keys_equal(a: &[u8], b: &[u8]) -> (r: bool)
    ensures
        r == (a@ == b@),
{
    match compare_keys(a, b) {
        KeyOrder::Equal => true,
        _ => false,
    }
}

/// Copies a key into a fresh vector.
pub fn key_to_vec(a: &[u8]) -> (r: Vec<u8>)
    ensures
        r@ == a@,
{
    vstd::slice::slice_to_vec(a)
}

/// `a` followed by `b`.
pub fn concat_keys(a: &[u8], b: &[u8]) -> (r: Vec<u8>)
    ensures
        r@ == a@ + b@,
{
    let mut value: Vec<u8> = Vec::new();
    let mut i: usize = 0;
    while i < a.len()
        invariant
            i <= a.len(),
            value@ == a@.subrange(0, i as int),
        decreases a.len() - i,
    {
        value.push(a[i]);
        proof {
            assert(a@.subrange(0, i + 1) =~= a@.subrange(0, i as int).push(a@[i as int]));
        }
        i = i + 1;
    }
    let mut j: usize = 0;
    while j < b.len()
        invariant
            j <= b.len(),
            i == a.len(),
            value@ == a@ + b@.subrange(0, j as int),
        decreases b.len() - j,
    {
        value.push(b[j]);
        proof {
            assert(b@.subrange(0, j + 1) =~= b@.subrange(0, j as int).push(b@[j as int]));
            assert(a@ + b@.subrange(0, j + 1) =~= (a@ + b@.subrange(0, j as int)).push(b@[j as int]));
        }
        j = j + 1;
    }
    proof {
        assert(a@ =~= a@.subrange(0, a@.len() as int));
        assert(b@ =~= b@.subrange(0, b@.len() as int));
    }
    value
}

/// Whether `k` begins with `prefix`.
pub fn starts_with(k: &[u8], prefix: &[u8]) -> (r: bool)
    ensures
        r == (prefix@.len() <= k@.len() && k@.subrange(0, prefix@.len() as int) == prefix@),
{
    if prefix.len() > k.len() {
        return false;
    }
    let mut i: usize = 0;
    while i < prefix.len()
        invariant
            i <= prefix.len() <= k.len(),
            k@.subrange(0, i as int) == prefix@.subrange(0, i as int),
        decreases prefix.len() - i,
    {
        if k[i] != prefix[i] {
            proof {
                let s = k@.subrange(0, prefix@.len() as int);
                assert(s[i as int] == k@[i as int]);
            }
            return false;
        }
        proof {
            assert(k@.subrange(0, i + 1) =~= k@.subrange(0, i as int).push(k@[i as int]));
            assert(prefix@.subrange(0, i + 1) =~= prefix@.subrange(0, i as int).push(prefix@[i as int]));
        }
        i = i + 1;
    }
    proof {
        assert(prefix@ =~= prefix@.subrange(0, i as int));
    }
    true
}

/// The bytes of `k` from position `from` on.
pub fn suffix_from(k: &[u8], from: usize) -> (r: Vec<u8>)
    requires
        from <= k.len(),
    ensures
        r@ == k@.subrange(from as int, k@.len() as int),
{
    let mut value: Vec<u8> = Vec::new();
    let mut i: usize = from;
    while i < k.len()
        invariant
            from <= i <= k.len(),
            value@ == k@.subrange(from as int, i as int),
        decreases k.len() - i,
    {
        value.push(k[i]);
        proof {
            assert(k@.subrange(from as int, i + 1) =~= k@.subrange(from as int, i as int).push(k@[i as int]));
        }
        i = i + 1;
    }
    value
}

} // verus!
