//! What a storage engine writes on a commit: the pending table and the given
//! operations, with the new height recorded, split into key and metadata
//! batches, each sorted by key with writes to the same key in their order.
use vstd::prelude::*;
use crate::tree::keys::{lex_lt, lemma_lex_irreflexive, lemma_lex_asymmetric, lemma_lex_transitive, lemma_lex_total, compare_keys, KeyOrder};
use crate::tree::kvmap::{KvMap, entries_ops};
use crate::tree::operation::{Operation, OpView, ops_view};
use crate::tree::common::{BatchEntry, batch_view, to_batch, to_batch_aux, map_to_batch, key_writes, aux_writes};
use crate::tree::merkle::{u64_to_be_bytes, be_value};

verus! {

/// A write of a batch, as key and optional new value.
pub type WriteView = (Seq<u8>, Option<Seq<u8>>);

/// Keys never decrease along the sequence.
pub open spec fn key_sorted(s: Seq<WriteView>) -> bool {
    forall|i: int, j: int| 0 <= i < j < s.len() ==> !lex_lt(#[trigger] s[j].0, #[trigger] s[i].0)
}

/// Whether a write is to key `k`.
pub open spec fn key_is(k: Seq<u8>) -> spec_fn(WriteView) -> bool {
    |e: WriteView| e.0 == k
}

/// The writes to key `k`, in order.
pub open spec fn with_key(s: Seq<WriteView>, k: Seq<u8>) -> Seq<WriteView> {
    s.filter(key_is(k))
}

/// `out` is `input` sorted by key, writes to the same key kept in their
/// order.
pub open spec fn stably_sorted(input: Seq<WriteView>, out: Seq<WriteView>) -> bool {
    &&& out.len() == input.len()
    &&& key_sorted(out)
    &&& forall|k: Seq<u8>| #[trigger] with_key(out, k) == with_key(input, k)
}

/// Inserting `x` after every write whose key is not above its own, and
/// before the rest, adds it last among the writes to its key.
proof fn lemma_with_key_insert(s: Seq<WriteView>, j: int, x: WriteView, k: Seq<u8>)
    requires
        0 <= j <= s.len(),
        forall|i: int| j <= i < s.len() ==> lex_lt(x.0, #[trigger] s[i].0),
    ensures
        with_key(s.insert(j, x), k) == if x.0 == k { with_key(s, k).push(x) } else { with_key(s, k) },
{
    let pred = key_is(k);
    let a = s.subrange(0, j);
    let b = s.subrange(j, s.len() as int);
    assert(s =~= a + b);
    assert(s.insert(j, x) =~= (a + seq![x]) + b);
    Seq::filter_distributes_over_add(a, b, pred);
    Seq::filter_distributes_over_add(a + seq![x], b, pred);
    Seq::filter_distributes_over_add(a, seq![x], pred);
    reveal_with_fuel(Seq::filter, 2);
    assert(seq![x].drop_last() =~= Seq::<WriteView>::empty());
    assert(s.insert(j, x).filter(pred) == (a.filter(pred) + seq![x].filter(pred)) + b.filter(pred));
    assert(s.filter(pred) == a.filter(pred) + b.filter(pred));
    if x.0 == k {
        assert(b.filter(pred) =~= Seq::<WriteView>::empty()) by {
            if b.filter(pred).len() > 0 {
                let y = b.filter(pred)[0];
                b.lemma_filter_pred(pred, 0);
                assert(b.filter(pred).contains(y));
                b.lemma_filter_contains_rev(pred, y);
                assert(b.contains(y));
                let i = choose|i: int| 0 <= i < b.len() && b[i] == y;
                assert(s[j + i] == y);
                assert(pred(y));
                lemma_lex_irreflexive(x.0);
            }
        }
        assert(seq![x].filter(pred) =~= seq![x]);
        assert(s.insert(j, x).filter(pred) =~= s.filter(pred).push(x));
    } else {
        assert(seq![x].filter(pred) =~= Seq::<WriteView>::empty());
        assert(s.insert(j, x).filter(pred) =~= s.filter(pred));
    }
}

/// The writes of `batch` sorted by key, writes to the same key in their
/// order.
pub fn sort_batch(batch: Vec<BatchEntry>) -> (r: Vec<BatchEntry>)
    ensures
        stably_sorted(batch_view(batch@), batch_view(r@)),
{
    let ghost input = batch_view(batch@);
    let mut rest = batch;
    let mut out: Vec<BatchEntry> = Vec::new();
    let ghost mut done: int = 0;
    proof {
        assert(batch_view(out@) =~= input.subrange(0, 0));
    }
    while rest.len() > 0
        invariant
            0 <= done <= input.len(),
            batch_view(rest@) == input.subrange(done, input.len() as int),
            batch_view(out@).len() == done,
            key_sorted(batch_view(out@)),
            forall|k: Seq<u8>| #[trigger] with_key(batch_view(out@), k) == with_key(input.subrange(0, done), k),
        decreases rest@.len(),
    {
        let ghost rest_before = rest@;
        let x = rest.remove(0);
        let ghost xv = crate::tree::common::batch_entry_view(x);
        proof {
            assert(rest_before.len() > 0);
            assert(done < input.len()) by {
                assert(batch_view(rest_before).len() == rest_before.len());
            }
            assert(batch_view(rest_before)[0] == xv);
            assert(input.subrange(done, input.len() as int)[0] == input[done]);
            assert(xv == input[done]);
            assert(batch_view(rest@) =~= input.subrange(done + 1, input.len() as int)) by {
                assert(rest@.len() == rest_before.len() - 1);
                assert(batch_view(rest_before).len() == rest_before.len());
                assert(rest_before.len() == input.len() - done);
                assert forall|i: int| 0 <= i < rest@.len() implies batch_view(rest@)[i] == input.subrange(done + 1, input.len() as int)[i] by {
                    assert(rest@[i] == rest_before[i + 1]);
                    assert(batch_view(rest@)[i] == crate::tree::common::batch_entry_view(rest@[i]));
                    assert(batch_view(rest_before)[i + 1] == crate::tree::common::batch_entry_view(rest_before[i + 1]));
                    assert(batch_view(rest_before)[i + 1] == input.subrange(done, input.len() as int)[i + 1]);
                    assert(input.subrange(done, input.len() as int)[i + 1] == input[done + 1 + i]);
                }
            }
        }
        let mut j: usize = out.len();
        while j > 0 && compare_keys(out[j - 1].0.as_slice(), x.0.as_slice()) == KeyOrder::Greater
            invariant
                j <= out@.len(),
                forall|i: int| j <= i < out@.len() ==> lex_lt(x.0@, #[trigger] batch_view(out@)[i].0),
            decreases j,
        {
            j = j - 1;
        }
        let ghost before = batch_view(out@);
        out.insert(j, x);
        proof {
            assert(batch_view(out@) =~= before.insert(j as int, xv));
            assert forall|k: Seq<u8>| #[trigger] with_key(batch_view(out@), k) == with_key(input.subrange(0, done + 1), k) by {
                lemma_with_key_insert(before, j as int, xv, k);
                let pred = key_is(k);
                assert(input.subrange(0, done + 1) =~= input.subrange(0, done).push(xv));
                input.subrange(0, done).lemma_filter_push(xv, pred);
            }
            assert forall|a: int, b: int| 0 <= a < b < batch_view(out@).len() implies
                !lex_lt(#[trigger] batch_view(out@)[b].0, #[trigger] batch_view(out@)[a].0) by {
                let v = batch_view(out@);
                if j > 0 {
                    assert(!lex_lt(xv.0, before[j - 1].0));
                }
                if a < j && b == j {
                    if lex_lt(xv.0, before[a].0) {
                        if a < j - 1 {
                            assert(!lex_lt(before[j - 1].0, before[a].0));
                            lemma_lex_total(before[a].0, before[j - 1].0);
                            if before[a].0 != before[j - 1].0 {
                                lemma_lex_transitive(xv.0, before[a].0, before[j - 1].0);
                            }
                        }
                    }
                } else if a == j && b > j {
                    assert(lex_lt(xv.0, before[b - 1].0));
                    lemma_lex_asymmetric(xv.0, before[b - 1].0);
                } else if a < j && b > j {
                    assert(!lex_lt(before[b - 1].0, before[a].0));
                } else if a > j {
                    assert(!lex_lt(before[b - 1].0, before[a - 1].0));
                }
            }
            done = done + 1;
        }
    }
    proof {
        assert(input.subrange(0, done) =~= input);
    }
    out
}

/// The key of the height metadata entry: the bytes of `height`.
pub open spec fn height_key() -> Seq<u8> {
    seq![104u8, 101u8, 105u8, 103u8, 104u8, 116u8]
}

/// The metadata entry that records `height`: under the key `height`, its
/// eight big-endian bytes.
pub fn height_metadata(height: u64) -> (r: Vec<(Vec<u8>, Option<Vec<u8>>)>)
    ensures
        r@.len() == 1,
        r@[0].0@ == height_key(),
        r@[0].1 matches Some(v) && v@.len() == 8 && be_value(v@) == height as nat,
{
    let key: Vec<u8> = vec![104u8, 101u8, 105u8, 103u8, 104u8, 116u8];
    let mut meta: Vec<(Vec<u8>, Option<Vec<u8>>)> = Vec::new();
    meta.push((key, Some(u64_to_be_bytes(height))));
    proof {
        assert(meta@[0].0@ =~= height_key());
    }
    meta
}

/// The writes of a commit at the next height: the operations given, then
/// the pending table's writes in key order, then the new height.
pub open spec fn commit_ops(ops: Seq<OpView>, pending: KvMap, height_entry: Seq<WriteView>) -> Seq<OpView> {
    ops + entries_ops(pending.entries_view()) + seq![OpView::Aux(height_entry)]
}

/// The key batch and the metadata batch a commit writes at `height + 1`:
/// the key writes and the metadata of the commit's operations, each sorted
/// by key with writes to the same key in their order.
pub fn commit_batches(ops: Vec<Operation>, pending: KvMap, height: u64) -> (r: (Vec<BatchEntry>, Vec<BatchEntry>))
    requires
        pending.wf(),
        height < u64::MAX,
    ensures
        exists|h: Seq<WriteView>| {
            &&& h.len() == 1
            &&& h[0].0 == height_key()
            &&& h[0].1 matches Some(v) && v.len() == 8 && be_value(v) == height + 1
            &&& stably_sorted(key_writes(#[trigger] commit_ops(ops_view(ops@), pending, h)), batch_view(r.0@))
            &&& stably_sorted(aux_writes(commit_ops(ops_view(ops@), pending, h)), batch_view(r.1@))
        },
{
    let mut ops = ops;
    let ghost given = ops_view(ops@);
    let ghost pend = pending;
    let pending_ops = map_to_batch(pending);
    let mut pending_ops = pending_ops;
    ops.append(&mut pending_ops);
    let meta = height_metadata(height + 1);
    let ghost hv = crate::tree::kvmap::entries_seq_view(meta@);
    ops.push(Operation::Aux(meta));
    proof {
        assert(ops_view(ops@) =~= commit_ops(given, pend, hv));
    }
    let (batch, aux) = to_batch(ops);
    let aux_batch = to_batch_aux(aux);
    let sorted_aux = sort_batch(aux_batch);
    let sorted_batch = sort_batch(batch);
    proof {
        assert(hv[0] == crate::tree::kvmap::entry_view(meta@[0]));
    }
    (sorted_batch, sorted_aux)
}

} // verus!
