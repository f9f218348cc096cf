//! Walking the entries of a store in key order between two bounds.
use vstd::prelude::*;
use crate::tree::keys::{lex_lt, lemma_lex_total, lemma_lex_asymmetric, lemma_lex_irreflexive, key_to_vec, concat_keys, compare_keys, KeyOrder};
use crate::tree::error::{TreeResult, TreeError};
use crate::tree::tree::{Read, KV, next_result, next_inclusive_result, is_next_after, nothing_after};

verus! {

/// One end of a key range.
pub enum KeyBound {
    Unbounded,
    Included(Vec<u8>),
    Excluded(Vec<u8>),
}

/// `k` is not below the lower end `b`.
pub open spec fn above_lower(b: KeyBound, k: Seq<u8>) -> bool {
    match b {
        KeyBound::Unbounded => true,
        KeyBound::Included(x) => !lex_lt(k, x@),
        KeyBound::Excluded(x) => lex_lt(x@, k),
    }
}

/// `k` is not above the upper end `b`.
pub open spec fn below_upper(b: KeyBound, k: Seq<u8>) -> bool {
    match b {
        KeyBound::Unbounded => true,
        KeyBound::Included(x) => !lex_lt(x@, k),
        KeyBound::Excluded(x) => lex_lt(k, x@),
    }
}

/// `k` is the smallest key of `m` at or above the lower end `b`.
pub open spec fn first_from(m: Map<Seq<u8>, Seq<u8>>, b: KeyBound, k: Seq<u8>) -> bool {
    &&& m.contains_key(k)
    &&& above_lower(b, k)
    &&& forall|k2: Seq<u8>| #[trigger] m.contains_key(k2) && above_lower(b, k2) ==> k2 == k || lex_lt(k, k2)
}

/// A copy of a bound.
fn clone_bound(bound: &KeyBound) -> (r: KeyBound)
    ensures
        above_lower(r, Seq::empty()) == above_lower(*bound, Seq::empty()),
        forall|k: Seq<u8>| above_lower(r, k) == above_lower(*bound, k) && below_upper(r, k) == below_upper(*bound, k),
{
    match bound {
        KeyBound::Unbounded => KeyBound::Unbounded,
        KeyBound::Included(key) => KeyBound::Included(key_to_vec(key.as_slice())),
        KeyBound::Excluded(key) => KeyBound::Excluded(key_to_vec(key.as_slice())),
    }
}

/// The range of keys above `start`.
pub fn exclusive_range_from(start: &[u8]) -> (r: (KeyBound, KeyBound))
    ensures
        r.0 matches KeyBound::Excluded(x) && x@ == start@,
        forall|k: Seq<u8>| above_lower(r.0, k) == lex_lt(start@, k),
        r.1 is Unbounded,
{
    (KeyBound::Excluded(key_to_vec(start)), KeyBound::Unbounded)
}

/// `a` followed by `b`.
pub fn concat(a: &[u8], b: &[u8]) -> (r: Vec<u8>)
    ensures
        r@ == a@ + b@,
{
    concat_keys(a, b)
}

/// Whether `k` lies between the two ends.
pub fn bounds_contain(bounds: &(KeyBound, KeyBound), k: &[u8]) -> (r: bool)
    ensures
        r == (above_lower(bounds.0, k@) && below_upper(bounds.1, k@)),
{
    let lower = match &bounds.0 {
        KeyBound::Unbounded => true,
        KeyBound::Included(x) => !matches!(compare_keys(k, x.as_slice()), KeyOrder::Less),
        KeyBound::Excluded(x) => matches!(compare_keys(x.as_slice(), k), KeyOrder::Less),
    };
    let upper = match &bounds.1 {
        KeyBound::Unbounded => true,
        KeyBound::Included(x) => !matches!(compare_keys(x.as_slice(), k), KeyOrder::Less),
        KeyBound::Excluded(x) => matches!(compare_keys(k, x.as_slice()), KeyOrder::Less),
    };
    lower && upper
}

/// Entries of `parent` within `bounds`, in key order.
pub struct Iter<'a, S> {
    parent: &'a S,
    bounds: (KeyBound, KeyBound),
    done: bool,
}

impl<'a, S: Read> Iter<'a, S> {
    /// A walk over the entries of `parent` within `bounds`.
    pub fn new(parent: &'a S, bounds: (KeyBound, KeyBound)) -> (r: Self)
        ensures
            r.parent_store() == parent,
            r.bounds_view() == bounds,
            !r.is_done(),
    {
        Iter { parent, bounds, done: false }
    }

    pub closed spec fn parent_store(&self) -> &'a S {
        self.parent
    }

    pub closed spec fn bounds_view(&self) -> (KeyBound, KeyBound) {
        self.bounds
    }

    pub closed spec fn is_done(&self) -> bool {
        self.done
    }

    /// One call of `next` took the walk from `before` to `after` and gave
    /// `r`: the store and the upper end stay; a finished walk gives nothing
    /// and stays finished; an entry given is the first at or above the lower
    /// end, within the upper end, and becomes the new (excluded) lower end; an
    /// error is one the store may give; nothing is given, and the walk
    /// finishes, when no key at or above the lower end is within the upper
    /// end.
    pub open spec fn next_step(before: Self, after: Self, r: Option<TreeResult<KV>>) -> bool {
        &&& after.parent_store() == before.parent_store()
        &&& after.bounds_view().1 == before.bounds_view().1
        &&& before.is_done() ==> r is None && after.is_done()
        &&& r matches Some(Ok(kv)) ==> {
            &&& first_from(before.parent_store().kv(), before.bounds_view().0, kv.0@)
            &&& kv.1@ == before.parent_store().kv()[kv.0@]
            &&& below_upper(before.bounds_view().1, kv.0@)
            &&& after.bounds_view().0 matches KeyBound::Excluded(x) && x@ == kv.0@
            &&& !after.is_done()
        }
        &&& r matches Some(Err(e)) ==> S::may_fail(e)
        &&& (r is None && !before.is_done()) ==> {
            &&& after.is_done()
            &&& forall|k: Seq<u8>| #[trigger] before.parent_store().kv().contains_key(k)
                && above_lower(before.bounds_view().0, k) ==> !below_upper(before.bounds_view().1, k)
        }
    }

    /// The next entry within the bounds: the smallest key at or above the
    /// lower end, as long as it is within the upper end. Each entry handed
    /// out becomes the new (excluded) lower end.
    pub fn next(&mut self) -> (r: Option<TreeResult<KV>>)
        requires
            old(self).parent_store().inv(),
        ensures
            Self::next_step(*old(self), *final(self), r),
    {
        if self.done {
            return None;
        }
        let ghost m = self.parent.kv();
        let ghost b0 = self.bounds.0;
        let maybe_entry = match &self.bounds.0 {
            KeyBound::Unbounded => {
                let empty: Vec<u8> = Vec::new();
                let r = self.parent.get_next_inclusive(empty.as_slice());
                proof {
                    match &r {
                        Ok(Some(kv)) => lemma_incl_first(m, b0, empty@, kv.0@),
                        Ok(None) => lemma_incl_none(m, b0, empty@),
                        Err(_) => {},
                    }
                }
                r
            },
            KeyBound::Included(key) => {
                let r = self.parent.get_next_inclusive(key.as_slice());
                proof {
                    match &r {
                        Ok(Some(kv)) => lemma_incl_first(m, b0, key@, kv.0@),
                        Ok(None) => lemma_incl_none(m, b0, key@),
                        Err(_) => {},
                    }
                }
                r
            },
            KeyBound::Excluded(key) => {
                let r = self.parent.get_next(key.as_slice());
                proof {
                    match &r {
                        Ok(Some(kv)) => {
                            assert(first_from(m, b0, kv.0@));
                        },
                        _ => {},
                    }
                }
                r
            },
        };
        proof {
            match &maybe_entry {
                Ok(Some(kv)) => {
                    assert(first_from(m, b0, kv.0@));
                    assert(kv.1@ == m[kv.0@]);
                },
                _ => {},
            }
        }
        match maybe_entry {
            Err(err) => Some(Err(err)),
            Ok(Some((key, value))) => {
                if !bounds_contain(&self.bounds, key.as_slice()) {
                    self.done = true;
                    proof {
                        assert forall|k: Seq<u8>| #[trigger] m.contains_key(k) && above_lower(b0, k)
                            implies !below_upper(self.bounds.1, k) by {
                            assert(k == key@ || lex_lt(key@, k));
                            lemma_upper_closed(self.bounds.1, key@, k);
                        }
                    }
                    return None;
                }
                let k2 = key_to_vec(key.as_slice());
                self.bounds.0 = KeyBound::Excluded(k2);
                Some(Ok((key, value)))
            },
            Ok(None) => {
                self.done = true;
                None
            },
        }
    }
}

/// What `get_next_inclusive` finds from a key is the first key at or above it.
proof fn lemma_incl_first(m: Map<Seq<u8>, Seq<u8>>, b: KeyBound, x: Seq<u8>, k: Seq<u8>)
    requires
        b is Unbounded ==> x == Seq::<u8>::empty(),
        b matches KeyBound::Included(xx) ==> xx@ == x,
        !(b is Excluded),
        m.contains_key(x) ==> k == x,
        !m.contains_key(x) ==> is_next_after(m, x, k),
        m.contains_key(k),
    ensures
        first_from(m, b, k),
{
    if !m.contains_key(x) {
        assert(lex_lt(x, k));
        lemma_lex_asymmetric(x, k);
    } else {
        lemma_lex_irreflexive(x);
    }
    assert forall|k2: Seq<u8>| #[trigger] m.contains_key(k2) && above_lower(b, k2) implies k2 == k || lex_lt(k, k2) by {
        assert(!lex_lt(k2, x));
        if k2 != x {
            lemma_lex_total(k2, x);
            if m.contains_key(x) {
            }
        }
    }
}

/// When `get_next_inclusive` finds nothing, no key lies at or above its key.
proof fn lemma_incl_none(m: Map<Seq<u8>, Seq<u8>>, b: KeyBound, x: Seq<u8>)
    requires
        b is Unbounded ==> x == Seq::<u8>::empty(),
        b matches KeyBound::Included(xx) ==> xx@ == x,
        !(b is Excluded),
        !m.contains_key(x),
        nothing_after(m, x),
    ensures
        forall|k: Seq<u8>| #[trigger] m.contains_key(k) ==> !above_lower(b, k),
{
    assert forall|k: Seq<u8>| #[trigger] m.contains_key(k) implies !above_lower(b, k) by {
        if above_lower(b, k) {
            assert(!lex_lt(k, x));
            if k != x {
                lemma_lex_total(k, x);
            }
        }
    }
}

/// Past the upper end, every larger key is past it too.
proof fn lemma_upper_closed(b: KeyBound, key: Seq<u8>, k: Seq<u8>)
    requires
        !below_upper(b, key),
        k == key || lex_lt(key, k),
    ensures
        !below_upper(b, k),
{
    match b {
        KeyBound::Unbounded => {},
        KeyBound::Included(x) => {
            if k != key {
                crate::tree::keys::lemma_lex_transitive(x@, key, k);
            }
        },
        KeyBound::Excluded(x) => {
            if k != key && lex_lt(k, x@) {
                crate::tree::keys::lemma_lex_transitive(key, k, x@);
            }
        },
    }
}


/// The steps described by `lowers` and `keys` over the view `m` with upper
/// end `upper`: as `Iter::next` reports its steps, the `i`-th call hands out
/// `keys[i]`, the first key at or above the lower end `lowers[i]` and within
/// the upper end, and moves the lower end past it.
pub open spec fn iter_steps(m: Map<Seq<u8>, Seq<u8>>, upper: KeyBound, lowers: Seq<KeyBound>, keys: Seq<Seq<u8>>) -> bool {
    &&& lowers.len() == keys.len() + 1
    &&& forall|i: int| #![trigger keys[i]] 0 <= i < keys.len() ==> {
        &&& first_from(m, lowers[i], keys[i])
        &&& below_upper(upper, keys[i])
        &&& lowers[i + 1] matches KeyBound::Excluded(x) && x@ == keys[i]
    }
}

/// A whole walk: the steps of `iter_steps`, and the call after the last key
/// hands out nothing, no key at or above its lower end being within the
/// upper end.
pub open spec fn iter_walk(m: Map<Seq<u8>, Seq<u8>>, upper: KeyBound, lowers: Seq<KeyBound>, keys: Seq<Seq<u8>>) -> bool {
    &&& iter_steps(m, upper, lowers, keys)
    &&& forall|k: Seq<u8>| #[trigger] m.contains_key(k) && above_lower(lowers[keys.len() as int], k) ==> !below_upper(upper, k)
}

/// Above a key not below the lower end, keys are not below it either.
proof fn lemma_lower_closed(b: KeyBound, a: Seq<u8>, c: Seq<u8>)
    requires
        above_lower(b, a),
        lex_lt(a, c),
    ensures
        above_lower(b, c),
{
    match b {
        KeyBound::Unbounded => {},
        KeyBound::Included(x) => {
            if lex_lt(c, x@) {
                crate::tree::keys::lemma_lex_transitive(a, c, x@);
            }
        },
        KeyBound::Excluded(x) => {
            crate::tree::keys::lemma_lex_transitive(x@, a, c);
        },
    }
}

proof fn lemma_walk_increasing(m: Map<Seq<u8>, Seq<u8>>, upper: KeyBound, lowers: Seq<KeyBound>, keys: Seq<Seq<u8>>, i: int, j: int)
    requires
        iter_steps(m, upper, lowers, keys),
        0 <= i < j < keys.len(),
    ensures
        lex_lt(keys[i], keys[j]),
    decreases j - i,
{
    let u = j - 1;
    assert(first_from(m, lowers[u], keys[u]));
    assert(lowers[u + 1] matches KeyBound::Excluded(x) && x@ == keys[u]);
    assert(u + 1 == j);
    assert(first_from(m, lowers[j], keys[j]));
    if i < j - 1 {
        lemma_walk_increasing(m, upper, lowers, keys, i, j - 1);
        crate::tree::keys::lemma_lex_transitive(keys[i], keys[j - 1], keys[j]);
    }
}

proof fn lemma_walk_reaches(m: Map<Seq<u8>, Seq<u8>>, upper: KeyBound, lowers: Seq<KeyBound>, keys: Seq<Seq<u8>>, k: Seq<u8>, t: int)
    requires
        iter_steps(m, upper, lowers, keys),
        m.contains_key(k),
        above_lower(lowers[0], k),
        0 <= t <= keys.len(),
    ensures
        (exists|i: int| 0 <= i < t && keys[i] == k) || above_lower(lowers[t], k),
    decreases t,
{
    if t > 0 {
        lemma_walk_reaches(m, upper, lowers, keys, k, t - 1);
        if !(exists|i: int| 0 <= i < t - 1 && keys[i] == k) {
            let u = t - 1;
            assert(first_from(m, lowers[u], keys[u]));
            assert(lowers[t] matches KeyBound::Excluded(x) && x@ == keys[u]);
            if keys[u] == k {
                assert(0 <= u < t && keys[u] == k);
            }
        }
    }
}

/// A whole walk of an `Iter` hands out exactly the keys of the view that
/// lie within the bounds, each once, in increasing order, and then nothing.
pub proof fn lemma_iter_walk(m: Map<Seq<u8>, Seq<u8>>, upper: KeyBound, lowers: Seq<KeyBound>, keys: Seq<Seq<u8>>)
    requires
        iter_walk(m, upper, lowers, keys),
    ensures
        forall|i: int, j: int| 0 <= i < j < keys.len() ==> lex_lt(#[trigger] keys[i], #[trigger] keys[j]),
        forall|i: int| 0 <= i < keys.len() ==> {
            &&& m.contains_key(#[trigger] keys[i])
            &&& above_lower(lowers[0], keys[i])
            &&& below_upper(upper, keys[i])
        },
        forall|k: Seq<u8>| #[trigger] m.contains_key(k) && above_lower(lowers[0], k) && below_upper(upper, k)
            ==> exists|i: int| 0 <= i < keys.len() && keys[i] == k,
{
    assert forall|i: int, j: int| 0 <= i < j < keys.len() implies lex_lt(#[trigger] keys[i], #[trigger] keys[j]) by {
        lemma_walk_increasing(m, upper, lowers, keys, i, j);
    }
    assert forall|i: int| 0 <= i < keys.len() implies {
        &&& m.contains_key(#[trigger] keys[i])
        &&& above_lower(lowers[0], keys[i])
        &&& below_upper(upper, keys[i])
    } by {
        assert(first_from(m, lowers[0], keys[0]));
        if i > 0 {
            lemma_walk_increasing(m, upper, lowers, keys, 0, i);
            lemma_lower_closed(lowers[0], keys[0], keys[i]);
        }
    }
    assert forall|k: Seq<u8>| #[trigger] m.contains_key(k) && above_lower(lowers[0], k) && below_upper(upper, k)
        implies exists|i: int| 0 <= i < keys.len() && keys[i] == k by {
        lemma_walk_reaches(m, upper, lowers, keys, k, keys.len() as int);
    }
}


/// The key of an entry handed out by a walk.
pub open spec fn handed_key(r: Option<TreeResult<KV>>) -> Seq<u8> {
    match r {
        Some(Ok(kv)) => kv.0@,
        _ => Seq::empty(),
    }
}

/// The first call of `rs` that gave nothing, or `rs.len()`.
proof fn lemma_first_none(rs: Seq<Option<TreeResult<KV>>>, t: int) -> (n: int)
    requires
        0 <= t <= rs.len(),
        forall|i: int| 0 <= i < t ==> rs[i] is Some,
    ensures
        t <= n <= rs.len(),
        forall|i: int| 0 <= i < n ==> rs[i] is Some,
        n < rs.len() ==> rs[n] is None,
    decreases rs.len() - t,
{
    if t == rs.len() || rs[t] is None {
        t
    } else {
        lemma_first_none(rs, t + 1)
    }
}

impl<'a, S: Read> Iter<'a, S> {
    proof fn lemma_walk_prefix(its: Seq<Self>, rs: Seq<Option<TreeResult<KV>>>, n: int, t: int)
        requires
            its.len() == rs.len() + 1,
            !its[0].is_done(),
            forall|i: int| 0 <= i < rs.len() ==> #[trigger] Self::next_step(its[i], its[i + 1], rs[i]),
            forall|e: TreeError| !S::may_fail(e),
            0 <= n <= rs.len(),
            forall|i: int| 0 <= i < n ==> rs[i] is Some,
            0 <= t <= n,
        ensures
            its[t].parent_store() == its[0].parent_store(),
            its[t].bounds_view().1 == its[0].bounds_view().1,
            !its[t].is_done(),
        decreases t,
    {
        if t > 0 {
            let u = t - 1;
            Self::lemma_walk_prefix(its, rs, n, u);
            assert(Self::next_step(its[u], its[u + 1], rs[u]));
            assert(rs[u] is Some);
            match rs[u] {
                Some(Err(e)) => {
                    assert(S::may_fail(e));
                },
                _ => {},
            }
        }
    }

    proof fn lemma_walk_finished(its: Seq<Self>, rs: Seq<Option<TreeResult<KV>>>, n: int, t: int)
        requires
            its.len() == rs.len() + 1,
            forall|i: int| 0 <= i < rs.len() ==> #[trigger] Self::next_step(its[i], its[i + 1], rs[i]),
            0 <= n < rs.len(),
            rs[n] is None,
            !its[n].is_done(),
            n < t <= rs.len(),
        ensures
            its[t].is_done(),
            forall|i: int| n <= i < t ==> rs[i] is None,
        decreases t - n,
    {
        assert(Self::next_step(its[n], its[n + 1], rs[n]));
        if t > n + 1 {
            Self::lemma_walk_finished(its, rs, n, t - 1);
            let u = t - 1;
            assert(Self::next_step(its[u], its[u + 1], rs[u]));
        }
    }

    /// The calls `rs` of a walk from `first` handed out, in the first `n`
    /// calls, entries of the store within the bounds, each with its value,
    /// in increasing key order; the later calls gave nothing; and if some
    /// call gave nothing, every key within the bounds was handed out.
    pub open spec fn walk_handed(first: Self, rs: Seq<Option<TreeResult<KV>>>, n: int) -> bool {
        let m = first.parent_store().kv();
        let lo = first.bounds_view().0;
        let up = first.bounds_view().1;
        &&& 0 <= n <= rs.len()
        &&& forall|i: int| 0 <= i < n ==> (#[trigger] rs[i] matches Some(Ok(kv)) && {
            &&& m.contains_key(kv.0@)
            &&& kv.1@ == m[kv.0@]
            &&& above_lower(lo, kv.0@)
            &&& below_upper(up, kv.0@)
        })
        &&& forall|i: int, j: int| 0 <= i < j < n ==> lex_lt(handed_key(#[trigger] rs[i]), handed_key(#[trigger] rs[j]))
        &&& forall|i: int| n <= i < rs.len() ==> #[trigger] rs[i] is None
        &&& n < rs.len() ==> forall|k: Seq<u8>| #[trigger] m.contains_key(k) && above_lower(lo, k) && below_upper(up, k)
            ==> exists|i: int| 0 <= i < n && #[trigger] handed_key(rs[i]) == k
    }

    /// A walk from `Iter::new` over a store that never fails hands out the
    /// entries of the store within the bounds in increasing key order, each
    /// with its value, and once it gives nothing it gives nothing ever after;
    /// by then it has handed out every key within the bounds.
    ///
    /// `its` are the walk's states, `its[0]` as `new` made it, and `rs[i]`
    /// is what the call of `next` from `its[i]` to `its[i + 1]` gave.
    pub proof fn lemma_next_walk(its: Seq<Self>, rs: Seq<Option<TreeResult<KV>>>)
        requires
            its.len() == rs.len() + 1,
            !its[0].is_done(),
            forall|i: int| 0 <= i < rs.len() ==> #[trigger] Self::next_step(its[i], its[i + 1], rs[i]),
            forall|e: TreeError| !S::may_fail(e),
        ensures
            exists|n: int| #[trigger] Self::walk_handed(its[0], rs, n),
    {
        let n = lemma_first_none(rs, 0);
        let m = its[0].parent_store().kv();
        let lo = its[0].bounds_view().0;
        let up = its[0].bounds_view().1;
        let lowers = Seq::new((n + 1) as nat, |i: int| its[i].bounds_view().0);
        let keys = Seq::new(n as nat, |i: int| handed_key(rs[i]));
        assert forall|i: int| 0 <= i < n implies (#[trigger] rs[i] matches Some(Ok(kv)) && {
            &&& m.contains_key(kv.0@)
            &&& kv.1@ == m[kv.0@]
            &&& first_from(m, lowers[i], kv.0@)
            &&& below_upper(up, kv.0@)
            &&& lowers[i + 1] matches KeyBound::Excluded(x) && x@ == kv.0@
        }) by {
            Self::lemma_walk_prefix(its, rs, n, i);
            Self::lemma_walk_prefix(its, rs, n, i + 1);
            assert(Self::next_step(its[i], its[i + 1], rs[i]));
            match rs[i] {
                Some(Err(e)) => {
                    assert(S::may_fail(e));
                },
                _ => {},
            }
        }
        assert(iter_steps(m, up, lowers, keys)) by {
            assert forall|i: int| #![trigger keys[i]] 0 <= i < keys.len() implies {
                &&& first_from(m, lowers[i], keys[i])
                &&& below_upper(up, keys[i])
                &&& lowers[i + 1] matches KeyBound::Excluded(x) && x@ == keys[i]
            } by {
                assert(rs[i] matches Some(Ok(kv)));
            }
        }
        assert(lowers[0] == lo);
        assert forall|i: int, j: int| 0 <= i < j < n implies lex_lt(handed_key(#[trigger] rs[i]), handed_key(#[trigger] rs[j])) by {
            lemma_walk_increasing(m, up, lowers, keys, i, j);
        }
        assert forall|i: int| 0 <= i < n implies (#[trigger] rs[i] matches Some(Ok(kv)) && {
            &&& m.contains_key(kv.0@)
            &&& kv.1@ == m[kv.0@]
            &&& above_lower(lo, kv.0@)
            &&& below_upper(up, kv.0@)
        }) by {
            assert(rs[0] matches Some(Ok(kv)));
            assert(keys[0] == handed_key(rs[0]));
            if i > 0 {
                lemma_walk_increasing(m, up, lowers, keys, 0, i);
                lemma_lower_closed(lo, keys[0], keys[i]);
            }
        }
        if n < rs.len() {
            Self::lemma_walk_prefix(its, rs, n, n);
            Self::lemma_walk_finished(its, rs, n, rs.len() as int);
            assert(Self::next_step(its[n], its[n + 1], rs[n]));
            assert(iter_walk(m, up, lowers, keys));
            lemma_iter_walk(m, up, lowers, keys);
            assert forall|k: Seq<u8>| #[trigger] m.contains_key(k) && above_lower(lo, k) && below_upper(up, k)
                implies exists|i: int| 0 <= i < n && handed_key(rs[i]) == k by {
                let i = choose|i: int| 0 <= i < keys.len() && keys[i] == k;
                assert(handed_key(rs[i]) == k);
            }
        } else {
            assert forall|i: int| n <= i < rs.len() implies #[trigger] rs[i] is None by {}
        }
        assert(Self::walk_handed(its[0], rs, n));
    }
}

} // verus!
