//! Pieces of the sparse Merkle tree store that work on the entries its
//! tree hands out.
use vstd::prelude::*;
use crate::tree::keys::{lex_lt, concat_keys, compare_keys, KeyOrder, lemma_lex_total, lemma_lex_asymmetric, lemma_lex_irreflexive, lemma_lex_transitive};
use crate::tree::tree::KV;

verus! {

/// The bytes of the text `smt_root`.
pub open spec fn smt_root_tag() -> Seq<u8> {
    seq![115u8, 109, 116, 95, 114, 111, 111, 116]
}

/// The key the tree root is kept under: `root_prefix` followed by `smt_root`.
pub fn build_root_key(root_prefix: &[u8]) -> (r: Vec<u8>)
    ensures
        r@ == root_prefix@ + smt_root_tag(),
{
    let tag: Vec<u8> = vec![115u8, 109, 116, 95, 114, 111, 111, 116];
    proof {
        assert(tag@ =~= smt_root_tag());
    }
    concat_keys(root_prefix, tag.as_slice())
}

/// Keys of a list of entries are all different.
pub open spec fn distinct_keys(kvs: Seq<KV>) -> bool {
    forall|i: int, j: int| 0 <= i < j < kvs.len() ==> (#[trigger] kvs[i]).0@ != (#[trigger] kvs[j]).0@
}

/// `i` holds the smallest key of the list that is above `start` (or at or
/// above it, when `inclusive`).
pub open spec fn is_min_from(kvs: Seq<KV>, start: Seq<u8>, inclusive: bool, i: int) -> bool {
    &&& 0 <= i < kvs.len()
    &&& (lex_lt(start, kvs[i].0@) || (inclusive && kvs[i].0@ == start))
    &&& forall|j: int| 0 <= j < kvs.len() && (lex_lt(start, #[trigger] kvs[j].0@) || (inclusive && kvs[j].0@ == start))
        ==> j == i || lex_lt(kvs[i].0@, kvs[j].0@)
}

/// No key of the list is above `start` (or at it, when `inclusive`).
pub open spec fn none_from(kvs: Seq<KV>, start: Seq<u8>, inclusive: bool) -> bool {
    forall|j: int| 0 <= j < kvs.len() ==> !(lex_lt(start, #[trigger] kvs[j].0@) || (inclusive && kvs[j].0@ == start))
}

/// Position of the smallest key at or above (or strictly above) `start`.
fn min_from(kvs: &Vec<KV>, start: &[u8], inclusive: bool) -> (r: Option<usize>)
    requires
        distinct_keys(kvs@),
    ensures
        r matches Some(i) ==> is_min_from(kvs@, start@, inclusive, i as int),
        r is None ==> none_from(kvs@, start@, inclusive),
{
    let mut best: Option<usize> = None;
    let mut i: usize = 0;
    while i < kvs.len()
        invariant
            i <= kvs@.len(),
            distinct_keys(kvs@),
            best matches Some(b) ==> b < i && is_min_from(kvs@.subrange(0, i as int), start@, inclusive, b as int),
            best is None ==> none_from(kvs@.subrange(0, i as int), start@, inclusive),
        decreases kvs@.len() - i,
    {
        let o = compare_keys(start, kvs[i].0.as_slice());
        let qualifies = match o {
            KeyOrder::Less => true,
            KeyOrder::Equal => inclusive,
            KeyOrder::Greater => false,
        };
        let ghost sub = kvs@.subrange(0, i as int);
        let ghost nsub = kvs@.subrange(0, i + 1);
        proof {
            assert forall|j: int| 0 <= j < i implies nsub[j] == sub[j] by {}
            assert(nsub[i as int] == kvs@[i as int]);
        }
        if qualifies {
            match best {
                None => {
                    best = Some(i);
                    proof {
                        assert(is_min_from(nsub, start@, inclusive, i as int));
                    }
                },
                Some(b) => {
                    let ob = compare_keys(kvs[i].0.as_slice(), kvs[b].0.as_slice());
                    match ob {
                        KeyOrder::Less => {
                            best = Some(i);
                            proof {
                                assert forall|j: int| 0 <= j < nsub.len() && (lex_lt(start@, #[trigger] nsub[j].0@) || (inclusive && nsub[j].0@ == start@))
                                    implies j == i || lex_lt(nsub[i as int].0@, nsub[j].0@) by {
                                    if j < i && j != b {
                                        assert(lex_lt(sub[b as int].0@, sub[j].0@));
                                        lemma_lex_transitive(nsub[i as int].0@, sub[b as int].0@, sub[j].0@);
                                    }
                                }
                            }
                        },
                        _ => {
                            proof {
                                assert(kvs@[i as int].0@ != kvs@[b as int].0@);
                                assert(lex_lt(kvs@[b as int].0@, kvs@[i as int].0@));
                                assert(is_min_from(nsub, start@, inclusive, b as int));
                            }
                        },
                    }
                },
            }
        } else {
            proof {
                match best {
                    Some(b) => {
                        assert(is_min_from(nsub, start@, inclusive, b as int));
                    },
                    None => {
                        assert(none_from(nsub, start@, inclusive));
                    },
                }
            }
        }
        i = i + 1;
    }
    proof {
        assert(kvs@.subrange(0, i as int) =~= kvs@);
    }
    best
}

/// The entry the sparse tree store answers for the next key after `start`,
/// given all the entries of its tree: among the entries whose key is not
/// below `start` (all of them when `start` is empty), the smallest; if that
/// is `start` itself, the one after it.
pub fn smt_next_after(kvs: Vec<KV>, start: &[u8]) -> (r: Option<KV>)
    requires
        distinct_keys(kvs@),
    ensures
        r matches Some(kv) ==> exists|i: int| is_min_from(kvs@, start@, false, i) && #[trigger] kvs@[i] == kv,
        r is None ==> none_from(kvs@, start@, false),
{
    let mut kvs = kvs;
    match min_from(&kvs, start, true) {
        None => {
            proof {
                assert forall|j: int| 0 <= j < kvs@.len() implies !lex_lt(start@, #[trigger] kvs@[j].0@) by {}
            }
            None
        },
        Some(i) => {
            if crate::tree::keys::keys_equal(kvs[i].0.as_slice(), start) {
                match min_from(&kvs, start, false) {
                    None => None,
                    Some(j) => {
                        let ghost before = kvs@;
                        let e = kvs.remove(j);
                        proof {
                            assert(is_min_from(before, start@, false, j as int) && before[j as int] == e);
                        }
                        Some(e)
                    },
                }
            } else {
                proof {
                    assert(lex_lt(start@, kvs@[i as int].0@));
                    assert(is_min_from(kvs@, start@, false, i as int)) by {
                        assert forall|j: int| 0 <= j < kvs@.len() && lex_lt(start@, #[trigger] kvs@[j].0@)
                            implies j == i || lex_lt(kvs@[i as int].0@, kvs@[j].0@) by {}
                    }
                }
                let ghost before = kvs@;
                let e = kvs.remove(i);
                proof {
                    assert(is_min_from(before, start@, false, i as int) && before[i as int] == e);
                }
                Some(e)
            }
        },
    }
}

/// Hands out a list of entries one at a time, front first.
pub struct SMTIteratorAdapter {
    kvs: Vec<KV>,
    index: usize,
    limit: usize,
}

impl SMTIteratorAdapter {
    /// An adapter over `kvs`.
    pub fn new(kvs: Vec<KV>) -> (r: Self)
        ensures
            r.wf(),
            r.remaining() == kvs@,
    {
        let l = kvs.len();
        Self { kvs, index: 0, limit: l }
    }

    /// The entries still to come.
    pub closed spec fn remaining(&self) -> Seq<KV> {
        self.kvs@.subrange(0, self.limit - self.index)
    }

    pub closed spec fn wf(&self) -> bool {
        self.index <= self.limit && self.kvs@.len() == self.limit - self.index
    }

    /// One call of `next` took the adapter from `before` to `after` and gave
    /// `r`: the first entry still to come, which is then dropped, or nothing
    /// when none is left.
    pub open spec fn next_step(before: Self, after: Self, r: Option<KV>) -> bool {
        &&& after.wf()
        &&& before.remaining().len() == 0 ==> r is None && after.remaining() == before.remaining()
        &&& before.remaining().len() > 0 ==> r == Some(before.remaining()[0])
            && after.remaining() == before.remaining().drop_first()
    }

    proof fn lemma_walk_rest(its: Seq<Self>, rs: Seq<Option<KV>>, kvs: Seq<KV>, t: int)
        requires
            its.len() == rs.len() + 1,
            its[0].remaining() == kvs,
            forall|i: int| 0 <= i < rs.len() ==> #[trigger] Self::next_step(its[i], its[i + 1], rs[i]),
            0 <= t <= rs.len(),
        ensures
            its[t].remaining() == kvs.skip(if t <= kvs.len() { t } else { kvs.len() as int }),
            forall|i: int| 0 <= i < t ==> #[trigger] rs[i] == if i < kvs.len() { Some(kvs[i]) } else { None::<KV> },
        decreases t,
    {
        if t == 0 {
            assert(kvs.skip(0) =~= kvs);
        } else {
            let u = t - 1;
            Self::lemma_walk_rest(its, rs, kvs, u);
            assert(Self::next_step(its[u], its[u + 1], rs[u]));
            if u < kvs.len() {
                assert(kvs.skip(u).drop_first() =~= kvs.skip(t));
                assert(kvs.skip(u)[0] == kvs[u]);
            }
        }
    }

    /// An adapter made by `new` from `kvs` hands out the entries of `kvs` in
    /// order, one per call, and nothing on every call after the last.
    ///
    /// `its` are its states, `its[0]` as `new` made it, and `rs[i]` is what
    /// the call of `next` from `its[i]` to `its[i + 1]` gave.
    pub proof fn lemma_adapter_walk(its: Seq<Self>, rs: Seq<Option<KV>>, kvs: Seq<KV>)
        requires
            its.len() == rs.len() + 1,
            its[0].remaining() == kvs,
            forall|i: int| 0 <= i < rs.len() ==> #[trigger] Self::next_step(its[i], its[i + 1], rs[i]),
        ensures
            forall|i: int| 0 <= i < rs.len() ==> #[trigger] rs[i] == if i < kvs.len() { Some(kvs[i]) } else { None::<KV> },
    {
        Self::lemma_walk_rest(its, rs, kvs, rs.len() as int);
    }

    /// The next entry, if any.
    pub fn next(&mut self) -> (r: Option<KV>)
        requires
            old(self).wf(),
        ensures
            Self::next_step(*old(self), *final(self), r),
    {
        if self.index >= self.limit {
            proof {
                assert(old(self).remaining().len() == 0);
            }
            return None;
        }
        self.index = self.index + 1;
        let ret: KV = self.kvs.remove(0);
        proof {
            assert(self.kvs@ =~= old(self).remaining().drop_first());
            assert(self.remaining() =~= old(self).remaining().drop_first());
            assert(ret == old(self).remaining()[0]);
        }
        Some(ret)
    }
}

} // verus!
