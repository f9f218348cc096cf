//! An ordered map from byte-string keys to optional values: the pending-write
//! table of the stores (`None` marks a deletion), kept sorted by key.
use vstd::prelude::*;
use crate::tree::keys::{lex_lt, lemma_lex_irreflexive, lemma_lex_asymmetric, lemma_lex_transitive, compare_keys, key_to_vec, KeyOrder};

verus! {

/// Abstract view of one entry: key bytes and optional value bytes.
pub open spec fn opt_bytes(v: Option<Vec<u8>>) -> Option<Seq<u8>> {
    match v {
        Some(x) => Some(x@),
        None => None,
    }
}

pub open spec fn entry_view(e: (Vec<u8>, Option<Vec<u8>>)) -> (Seq<u8>, Option<Seq<u8>>) {
    (e.0@, opt_bytes(e.1))
}

/// The write an entry of the pending table stands for.
pub open spec fn entry_op(e: (Seq<u8>, Option<Seq<u8>>)) -> crate::tree::operation::OpView {
    match e.1 {
        Some(v) => crate::tree::operation::OpView::Put(e.0, v),
        None => crate::tree::operation::OpView::Delete(e.0),
    }
}

/// The writes a pending table stands for, in key order.
pub open spec fn entries_ops(s: Seq<(Seq<u8>, Option<Seq<u8>>)>) -> Seq<crate::tree::operation::OpView> {
    Seq::new(s.len(), |i: int| entry_op(s[i]))
}

/// The keys that hold a value, with their values (entries marking a
/// deletion left out).
pub open spec fn present(m: Map<Seq<u8>, Option<Seq<u8>>>) -> Map<Seq<u8>, Seq<u8>> {
    Map::new(|k: Seq<u8>| m.contains_key(k) && m[k] is Some, |k: Seq<u8>| m[k]->Some_0)
}

/// Abstract view of a sequence of entries.
pub open spec fn entries_seq_view(s: Seq<(Vec<u8>, Option<Vec<u8>>)>) -> Seq<(Seq<u8>, Option<Seq<u8>>)> {
    Seq::new(s.len(), |i: int| entry_view(s[i]))
}

/// Keys strictly increasing along the sequence.
pub open spec fn sorted_keys<V>(s: Seq<(Seq<u8>, V)>) -> bool {
    forall|i: int, j: int| 0 <= i < j < s.len() ==> lex_lt(#[trigger] s[i].0, #[trigger] s[j].0)
}

/// The map an ordered entry sequence stands for.
pub open spec fn seq_to_map<V>(s: Seq<(Seq<u8>, V)>) -> Map<Seq<u8>, V> {
    Map::new(
        |k: Seq<u8>| exists|i: int| 0 <= i < s.len() && #[trigger] s[i].0 == k,
        |k: Seq<u8>| s[key_index(s, k)].1,
    )
}

/// A position holding key `k`, if there is one.
pub open spec fn key_index<V>(s: Seq<(Seq<u8>, V)>, k: Seq<u8>) -> int {
    choose|i: int| 0 <= i < s.len() && #[trigger] s[i].0 == k
}

/// In a sorted sequence, the entry at `i` is what the map gives for its key.
pub proof fn lemma_seq_to_map_at<V>(s: Seq<(Seq<u8>, V)>, i: int)
    requires
        sorted_keys(s),
        0 <= i < s.len(),
    ensures
        seq_to_map(s).contains_key(s[i].0),
        seq_to_map(s)[s[i].0] == s[i].1,
{
    let k = s[i].0;
    assert(s[i].0 == k);
    let j = key_index(s, k);
    assert(0 <= j < s.len() && s[j].0 == k);
    assert(seq_to_map(s).contains_key(k));
    assert(seq_to_map(s)[k] == s[j].1);
    if j != i {
        if j < i {
            assert(lex_lt(s[j].0, s[i].0));
        } else {
            assert(lex_lt(s[i].0, s[j].0));
        }
        lemma_lex_irreflexive(k);
    }
}

/// An ordered table of pending writes.
pub struct KvMap {
    entries: Vec<(Vec<u8>, Option<Vec<u8>>)>,
}

impl KvMap {
    /// The entries in key order.
    pub closed spec fn entries_view(&self) -> Seq<(Seq<u8>, Option<Seq<u8>>)> {
        entries_seq_view(self.entries@)
    }

    /// The map the table stands for.
    pub open spec fn view_map(&self) -> Map<Seq<u8>, Option<Seq<u8>>> {
        seq_to_map(self.entries_view())
    }

    /// Entries are sorted by strictly increasing key.
    pub open spec fn wf(&self) -> bool {
        sorted_keys(self.entries_view())
    }

    /// Every key of the table stands in the ordered view, and the ordered
    /// view holds nothing else.
    pub proof fn lemma_view(&self)
        requires
            self.wf(),
        ensures
            forall|i: int| 0 <= i < self.entries_view().len() ==> {
                &&& #[trigger] self.view_map().contains_key(self.entries_view()[i].0)
                &&& self.view_map()[self.entries_view()[i].0] == self.entries_view()[i].1
            },
            forall|k: Seq<u8>| #[trigger] self.view_map().contains_key(k) ==> exists|i: int|
                0 <= i < self.entries_view().len() && #[trigger] self.entries_view()[i].0 == k,
            self.view_map().dom().finite(),
            self.view_map().dom().len() == self.entries_view().len(),
    {
        let s = self.entries_view();
        assert forall|i: int| 0 <= i < s.len() implies {
            &&& #[trigger] self.view_map().contains_key(s[i].0)
            &&& self.view_map()[s[i].0] == s[i].1
        } by {
            lemma_seq_to_map_at(s, i);
        }
        lemma_sorted_map_len(s);
    }

    /// An empty table.
    pub fn new() -> (r: Self)
        ensures
            r.wf(),
            r.entries_view() == Seq::<(Seq<u8>, Option<Seq<u8>>)>::empty(),
            r.view_map() == Map::<Seq<u8>, Option<Seq<u8>>>::empty(),
    {
        let r = KvMap { entries: Vec::new() };
        proof {
            assert(r.entries_view() =~= Seq::<(Seq<u8>, Option<Seq<u8>>)>::empty());
            assert(r.view_map() =~= Map::<Seq<u8>, Option<Seq<u8>>>::empty());
        }
        r
    }

    /// Number of entries.
    pub fn len(&self) -> (r: usize)
        ensures
            r == self.entries_view().len(),
    {
        self.entries.len()
    }

    /// Whether the table is empty.
    pub fn is_empty(&self) -> (r: bool)
        requires
            self.wf(),
        ensures
            r == (self.entries_view().len() == 0),
            r == (self.view_map() == Map::<Seq<u8>, Option<Seq<u8>>>::empty()),
    {
        proof {
            self.lemma_view();
            if self.entries_view().len() == 0 {
                assert(self.view_map() =~= Map::<Seq<u8>, Option<Seq<u8>>>::empty());
            } else {
                assert(self.view_map().contains_key(self.entries_view()[0].0));
            }
        }
        self.entries.len() == 0
    }

    /// The entry at position `i`, copied.
    pub fn entry_at(&self, i: usize) -> (r: (Vec<u8>, Option<Vec<u8>>))
        requires
            i < self.entries_view().len(),
        ensures
            entry_view(r) == self.entries_view()[i as int],
    {
        let e = &self.entries[i];
        let k = key_to_vec(e.0.as_slice());
        let v = match &e.1 {
            Some(x) => Some(key_to_vec(x.as_slice())),
            None => None,
        };
        (k, v)
    }

    /// Position of the first entry whose key is not below `k`, and whether
    /// that entry's key is `k` itself.
    fn lower_bound(&self, k: &[u8]) -> (r: (usize, bool))
        requires
            self.wf(),
        ensures
            r.0 <= self.entries_view().len(),
            forall|j: int| 0 <= j < r.0 ==> lex_lt(#[trigger] self.entries_view()[j].0, k@),
            forall|j: int| r.0 <= j < self.entries_view().len() ==> !lex_lt(#[trigger] self.entries_view()[j].0, k@),
            r.1 <==> (r.0 < self.entries_view().len() && self.entries_view()[r.0 as int].0 == k@),
            !r.1 ==> forall|j: int| r.0 <= j < self.entries_view().len() ==> lex_lt(k@, #[trigger] self.entries_view()[j].0),
    {
        let mut i: usize = 0;
        let n = self.entries.len();
        let ghost s = self.entries_view();
        while i < n
            invariant
                n == s.len(),
                s == self.entries_view(),
                self.wf(),
                i <= n,
                forall|j: int| 0 <= j < i ==> lex_lt(#[trigger] s[j].0, k@),
            decreases n - i,
        {
            let o = compare_keys(self.entries[i].0.as_slice(), k);
            proof {
                assert(s[i as int].0 == self.entries[i as int].0@);
            }
            match o {
                KeyOrder::Less => {
                    i = i + 1;
                },
                KeyOrder::Equal => {
                    proof {
                        assert forall|j: int| i <= j < s.len() implies !lex_lt(#[trigger] s[j].0, k@) by {
                            if j > i {
                                assert(lex_lt(s[i as int].0, s[j].0));
                                lemma_lex_asymmetric(s[i as int].0, s[j].0);
                            } else {
                                lemma_lex_irreflexive(k@);
                            }
                        }
                    }
                    return (i, true);
                },
                KeyOrder::Greater => {
                    proof {
                        assert forall|j: int| i <= j < s.len() implies lex_lt(k@, #[trigger] s[j].0) by {
                            if j > i {
                                assert(lex_lt(s[i as int].0, s[j].0));
                                lemma_lex_transitive(k@, s[i as int].0, s[j].0);
                            }
                        }
                        assert forall|j: int| i <= j < s.len() implies !lex_lt(#[trigger] s[j].0, k@) by {
                            assert(lex_lt(k@, s[j].0));
                            lemma_lex_asymmetric(k@, s[j].0);
                        }
                        if s[i as int].0 == k@ {
                            lemma_lex_irreflexive(k@);
                        }
                    }
                    return (i, false);
                },
            }
        }
        (i, false)
    }

    /// The value held for `k`: `None` if there is no entry for `k`,
    /// `Some(v)` for an entry whose value is `v`.
    pub fn get(&self, k: &[u8]) -> (r: Option<Option<Vec<u8>>>)
        requires
            self.wf(),
        ensures
            r.is_some() == self.view_map().contains_key(k@),
            r matches Some(v) ==> opt_bytes(v) == self.view_map()[k@],
    {
        let (i, found) = self.lower_bound(k);
        proof {
            self.lemma_view();
        }
        if found {
            let e = self.entry_at(i);
            Some(e.1)
        } else {
            proof {
                if self.view_map().contains_key(k@) {
                    let j = choose|j: int| 0 <= j < self.entries_view().len() && #[trigger] self.entries_view()[j].0 == k@;
                    if j < i {
                        lemma_lex_irreflexive(k@);
                    } else {
                        lemma_lex_irreflexive(k@);
                    }
                }
            }
            None
        }
    }

    /// Sets the entry for `k` to `v`, replacing any entry for `k`.
    pub fn insert(&mut self, k: Vec<u8>, v: Option<Vec<u8>>)
        requires
            old(self).wf(),
        ensures
            final(self).wf(),
            final(self).view_map() == old(self).view_map().insert(k@, opt_bytes(v)),
    {
        let ghost old_s = self.entries_view();
        let (i, found) = self.lower_bound(k.as_slice());
        let ghost kk = k@;
        let ghost vv = opt_bytes(v);
        if found {
            self.entries.set(i, (k, v));
            proof {
                let s = self.entries_view();
                assert(s =~= old_s.update(i as int, (kk, vv)));
                assert forall|a: int, b: int| 0 <= a < b < s.len() implies lex_lt(#[trigger] s[a].0, #[trigger] s[b].0) by {
                    assert(old_s[a].0 == s[a].0 || a == i);
                    assert(old_s[b].0 == s[b].0 || b == i);
                    assert(old_s[i as int].0 == kk);
                    assert(lex_lt(old_s[a].0, old_s[b].0));
                }
                self.lemma_view();
                assert(self.view_map() =~= seq_to_map(old_s).insert(kk, vv)) by {
                    lemma_seq_to_map_update(old_s, i as int, vv);
                }
            }
        } else {
            self.entries.insert(i, (k, v));
            proof {
                let s = self.entries_view();
                assert(s =~= old_s.insert(i as int, (kk, vv)));
                assert forall|a: int, b: int| 0 <= a < b < s.len() implies lex_lt(#[trigger] s[a].0, #[trigger] s[b].0) by {
                    if a < i && b < i {
                        assert(s[a] == old_s[a] && s[b] == old_s[b]);
                    } else if a < i && b == i {
                        assert(s[a] == old_s[a]);
                    } else if a < i && b > i {
                        assert(s[a] == old_s[a] && s[b] == old_s[b - 1]);
                        assert(lex_lt(old_s[a].0, old_s[b - 1].0));
                    } else if a == i {
                        assert(s[b] == old_s[b - 1]);
                    } else {
                        assert(s[a] == old_s[a - 1] && s[b] == old_s[b - 1]);
                    }
                }
                lemma_seq_to_map_insert(old_s, i as int, kk, vv);
            }
        }
    }

    /// Removes the entry for `k`, if any.
    pub fn remove(&mut self, k: &[u8])
        requires
            old(self).wf(),
        ensures
            final(self).wf(),
            final(self).view_map() == old(self).view_map().remove(k@),
    {
        let ghost old_s = self.entries_view();
        let (i, found) = self.lower_bound(k);
        if found {
            self.entries.remove(i);
            proof {
                let s = self.entries_view();
                assert(s =~= old_s.remove(i as int));
                assert forall|a: int, b: int| 0 <= a < b < s.len() implies lex_lt(#[trigger] s[a].0, #[trigger] s[b].0) by {
                    if b < i {
                    } else if a < i {
                        assert(s[b] == old_s[b + 1]);
                    } else {
                        assert(s[a] == old_s[a + 1] && s[b] == old_s[b + 1]);
                    }
                }
                lemma_seq_to_map_remove(old_s, i as int);
            }
        } else {
            proof {
                old(self).lemma_view();
                assert(!old(self).view_map().contains_key(k@)) by {
                    if old(self).view_map().contains_key(k@) {
                        let j = choose|j: int| 0 <= j < old_s.len() && #[trigger] old_s[j].0 == k@;
                        lemma_lex_irreflexive(k@);
                    }
                }
                assert(old(self).view_map().remove(k@) =~= old(self).view_map());
            }
        }
    }

    /// Position of the first entry whose key is above `start`.
    pub fn first_after(&self, start: &[u8]) -> (r: usize)
        requires
            self.wf(),
        ensures
            r <= self.entries_view().len(),
            forall|j: int| 0 <= j < r ==> !lex_lt(start@, #[trigger] self.entries_view()[j].0),
            forall|j: int| r <= j < self.entries_view().len() ==> lex_lt(start@, #[trigger] self.entries_view()[j].0),
    {
        let n = self.entries.len();
        let (i, found) = self.lower_bound(start);
        if found {
            proof {
                assert(i < n);
                let s = self.entries_view();
                assert forall|j: int| 0 <= j < i + 1 implies !lex_lt(start@, #[trigger] s[j].0) by {
                    if j < i {
                        lemma_lex_asymmetric(s[j].0, start@);
                    } else {
                        lemma_lex_irreflexive(start@);
                    }
                }
                assert forall|j: int| i + 1 <= j < s.len() implies lex_lt(start@, #[trigger] s[j].0) by {
                    assert(lex_lt(s[i as int].0, s[j].0));
                }
            }
            i + 1
        } else {
            proof {
                let s = self.entries_view();
                assert forall|j: int| 0 <= j < i implies !lex_lt(start@, #[trigger] s[j].0) by {
                    lemma_lex_asymmetric(s[j].0, start@);
                }
            }
            i
        }
    }

    /// Removes and returns the entry with the smallest key.
    pub fn pop_first(&mut self) -> (r: Option<(Vec<u8>, Option<Vec<u8>>)>)
        requires
            old(self).wf(),
        ensures
            final(self).wf(),
            old(self).entries_view().len() == 0 ==> r is None && final(self).entries_view() == old(self).entries_view(),
            old(self).entries_view().len() > 0 ==> {
                &&& r matches Some(e)
                &&& entry_view(e) == old(self).entries_view()[0]
                &&& final(self).entries_view() == old(self).entries_view().drop_first()
            },
    {
        if self.entries.len() == 0 {
            return None;
        }
        let ghost old_s = self.entries_view();
        let e = self.entries.remove(0);
        proof {
            assert(self.entries_view() =~= old_s.drop_first());
            let s = self.entries_view();
            assert forall|a: int, b: int| 0 <= a < b < s.len() implies lex_lt(#[trigger] s[a].0, #[trigger] s[b].0) by {
                assert(s[a] == old_s[a + 1] && s[b] == old_s[b + 1]);
            }
        }
        Some(e)
    }

    /// Empties the table, handing back its former contents.
    pub fn take(&mut self) -> (r: KvMap)
        requires
            old(self).wf(),
        ensures
            r.wf(),
            r.entries_view() == old(self).entries_view(),
            final(self).wf(),
            final(self).entries_view().len() == 0,
            final(self).view_map() == Map::<Seq<u8>, Option<Seq<u8>>>::empty(),
    {
        let mut fresh = KvMap::new();
        std::mem::swap(self, &mut fresh);
        fresh
    }

    /// A copy of the table.
    pub fn copy(&self) -> (r: KvMap)
        requires
            self.wf(),
        ensures
            r.wf(),
            r.entries_view() == self.entries_view(),
    {
        let mut entries: Vec<(Vec<u8>, Option<Vec<u8>>)> = Vec::new();
        let mut i: usize = 0;
        while i < self.entries.len()
            invariant
                i <= self.entries@.len(),
                entries@.len() == i,
                self.wf(),
                entries_seq_view(entries@) == self.entries_view().subrange(0, i as int),
            decreases self.entries@.len() - i,
        {
            let e = self.entry_at(i);
            let ghost prev = entries@;
            entries.push(e);
            proof {
                assert forall|j: int| 0 <= j < i implies entries_seq_view(entries@)[j] == self.entries_view()[j] by {
                    assert(entries@[j] == prev[j]);
                    assert(entries_seq_view(prev)[j] == self.entries_view().subrange(0, i as int)[j]);
                }
                assert(entries_seq_view(entries@) =~= self.entries_view().subrange(0, i + 1));
            }
            i = i + 1;
        }
        proof {
            assert(self.entries_view().subrange(0, i as int) =~= self.entries_view());
        }
        KvMap { entries }
    }
}

proof fn lemma_sorted_map_len<V>(s: Seq<(Seq<u8>, V)>)
    requires
        sorted_keys(s),
    ensures
        seq_to_map(s).dom().finite(),
        seq_to_map(s).dom().len() == s.len(),
    decreases s.len(),
{
    if s.len() == 0 {
        assert(seq_to_map(s).dom() =~= Set::<Seq<u8>>::empty());
    } else {
        let t = s.drop_last();
        lemma_sorted_map_len(t);
        let last = s[s.len() - 1].0;
        assert(seq_to_map(s).dom() =~= seq_to_map(t).dom().insert(last)) by {
            assert forall|k: Seq<u8>| seq_to_map(s).dom().contains(k) implies seq_to_map(t).dom().insert(last).contains(k) by {
                let i = choose|i: int| 0 <= i < s.len() && #[trigger] s[i].0 == k;
                if i < s.len() - 1 {
                    assert(t[i].0 == k);
                }
            }
            assert forall|k: Seq<u8>| seq_to_map(t).dom().insert(last).contains(k) implies seq_to_map(s).dom().contains(k) by {
                if k == last {
                    assert(s[s.len() - 1].0 == k);
                } else {
                    let i = choose|i: int| 0 <= i < t.len() && #[trigger] t[i].0 == k;
                    assert(s[i].0 == k);
                }
            }
        }
        assert(!seq_to_map(t).dom().contains(last)) by {
            if seq_to_map(t).dom().contains(last) {
                let i = choose|i: int| 0 <= i < t.len() && #[trigger] t[i].0 == last;
                assert(s[i].0 == last);
                assert(lex_lt(s[i].0, s[s.len() - 1].0));
                lemma_lex_irreflexive(last);
            }
        }
    }
}

proof fn lemma_seq_to_map_update<V>(s: Seq<(Seq<u8>, V)>, i: int, v: V)
    requires
        sorted_keys(s),
        0 <= i < s.len(),
    ensures
        seq_to_map(s.update(i, (s[i].0, v))) == seq_to_map(s).insert(s[i].0, v),
{
    let t = s.update(i, (s[i].0, v));
    assert(sorted_keys(t)) by {
        assert forall|a: int, b: int| 0 <= a < b < t.len() implies lex_lt(#[trigger] t[a].0, #[trigger] t[b].0) by {
            assert(t[a].0 == s[a].0 && t[b].0 == s[b].0);
        }
    }
    let m = seq_to_map(s).insert(s[i].0, v);
    assert forall|k: Seq<u8>| seq_to_map(t).contains_key(k) <==> m.contains_key(k) by {
        if seq_to_map(t).contains_key(k) {
            let j = choose|j: int| 0 <= j < t.len() && #[trigger] t[j].0 == k;
            assert(s[j].0 == k);
        }
        if m.contains_key(k) && k != s[i].0 {
            let j = choose|j: int| 0 <= j < s.len() && #[trigger] s[j].0 == k;
            assert(t[j].0 == k);
        }
        if k == s[i].0 {
            assert(t[i].0 == k);
        }
    }
    assert forall|k: Seq<u8>| #[trigger] seq_to_map(t).contains_key(k) implies seq_to_map(t)[k] == m[k] by {
        let j = choose|j: int| 0 <= j < t.len() && #[trigger] t[j].0 == k;
        lemma_seq_to_map_at(t, j);
        lemma_seq_to_map_at(s, j);
        if j != i {
            assert(t[j] == s[j]);
            if j < i {
                assert(lex_lt(s[j].0, s[i].0));
            } else {
                assert(lex_lt(s[i].0, s[j].0));
            }
            if k == s[i].0 {
                lemma_lex_irreflexive(k);
            }
        }
    }
    assert(seq_to_map(t) =~= m);
}

proof fn lemma_seq_to_map_insert<V>(s: Seq<(Seq<u8>, V)>, i: int, k0: Seq<u8>, v: V)
    requires
        sorted_keys(s),
        sorted_keys(s.insert(i, (k0, v))),
        0 <= i <= s.len(),
    ensures
        seq_to_map(s.insert(i, (k0, v))) == seq_to_map(s).insert(k0, v),
{
    let t = s.insert(i, (k0, v));
    let m = seq_to_map(s).insert(k0, v);
    assert forall|k: Seq<u8>| seq_to_map(t).contains_key(k) <==> m.contains_key(k) by {
        if seq_to_map(t).contains_key(k) && k != k0 {
            let j = choose|j: int| 0 <= j < t.len() && #[trigger] t[j].0 == k;
            if j < i {
                assert(s[j].0 == k);
            } else if j > i {
                assert(s[j - 1].0 == k);
            }
        }
        if m.contains_key(k) && k != k0 {
            let j = choose|j: int| 0 <= j < s.len() && #[trigger] s[j].0 == k;
            if j < i {
                assert(t[j].0 == k);
            } else {
                assert(t[j + 1].0 == k);
            }
        }
        if k == k0 {
            assert(t[i].0 == k);
        }
    }
    assert forall|k: Seq<u8>| #[trigger] seq_to_map(t).contains_key(k) implies seq_to_map(t)[k] == m[k] by {
        let j = choose|j: int| 0 <= j < t.len() && #[trigger] t[j].0 == k;
        lemma_seq_to_map_at(t, j);
        if j < i {
            lemma_seq_to_map_at(s, j);
            assert(t[j] == s[j]);
            if k == k0 {
                assert(t[i].0 == k0);
                lemma_lex_irreflexive(k0);
            }
        } else if j > i {
            lemma_seq_to_map_at(s, j - 1);
            assert(t[j] == s[j - 1]);
            if k == k0 {
                assert(t[i].0 == k0);
                lemma_lex_irreflexive(k0);
            }
        }
    }
    assert(seq_to_map(t) =~= m);
}

pub proof fn lemma_seq_to_map_remove<V>(s: Seq<(Seq<u8>, V)>, i: int)
    requires
        sorted_keys(s),
        0 <= i < s.len(),
    ensures
        sorted_keys(s.remove(i)),
        seq_to_map(s.remove(i)) == seq_to_map(s).remove(s[i].0),
{
    let t = s.remove(i);
    let k0 = s[i].0;
    assert(sorted_keys(t)) by {
        assert forall|a: int, b: int| 0 <= a < b < t.len() implies lex_lt(#[trigger] t[a].0, #[trigger] t[b].0) by {
            if b < i {
            } else if a < i {
                assert(t[b] == s[b + 1]);
            } else {
                assert(t[a] == s[a + 1] && t[b] == s[b + 1]);
            }
        }
    }
    let m = seq_to_map(s).remove(k0);
    assert forall|k: Seq<u8>| seq_to_map(t).contains_key(k) <==> m.contains_key(k) by {
        if seq_to_map(t).contains_key(k) {
            let j = choose|j: int| 0 <= j < t.len() && #[trigger] t[j].0 == k;
            if j < i {
                assert(s[j].0 == k);
                assert(lex_lt(s[j].0, k0));
            } else {
                assert(s[j + 1].0 == k);
                assert(lex_lt(k0, s[j + 1].0));
            }
            if k == k0 {
                lemma_lex_irreflexive(k0);
            }
        }
        if m.contains_key(k) {
            let j = choose|j: int| 0 <= j < s.len() && #[trigger] s[j].0 == k;
            if j < i {
                assert(t[j].0 == k);
            } else if j > i {
                assert(t[j - 1].0 == k);
            }
        }
    }
    assert forall|k: Seq<u8>| #[trigger] seq_to_map(t).contains_key(k) implies seq_to_map(t)[k] == m[k] by {
        let j = choose|j: int| 0 <= j < t.len() && #[trigger] t[j].0 == k;
        lemma_seq_to_map_at(t, j);
        if j < i {
            assert(t[j] == s[j]);
            lemma_seq_to_map_at(s, j);
            assert(lex_lt(s[j].0, k0));
        } else {
            assert(t[j] == s[j + 1]);
            lemma_seq_to_map_at(s, j + 1);
            assert(lex_lt(k0, s[j + 1].0));
        }
        if k == k0 {
            lemma_lex_irreflexive(k0);
        }
    }
    assert(seq_to_map(t) =~= m);
}

} // verus!
