//! Turning pending tables and operation lists into the write batches a
//! storage engine applies.
use vstd::prelude::*;
use crate::tree::kvmap::{KvMap, entries_ops, entry_view, entries_seq_view, opt_bytes};
use crate::tree::operation::{Operation, ops_view, OpView};

verus! {

/// A write of a batch entry: put a value, or delete.
pub enum Op {
    Put(Vec<u8>),
    Delete,
}

/// A key with the write to apply to it.
pub type BatchEntry = (Vec<u8>, Op);

/// Abstract view of a batch entry: key and optional new value.
pub open spec fn batch_entry_view(e: BatchEntry) -> (Seq<u8>, Option<Seq<u8>>) {
    (e.0@, match e.1 {
        Op::Put(v) => Some(v@),
        Op::Delete => None,
    })
}

pub open spec fn batch_view(s: Seq<BatchEntry>) -> Seq<(Seq<u8>, Option<Seq<u8>>)> {
    Seq::new(s.len(), |i: int| batch_entry_view(s[i]))
}

/// The pending table as a list of writes in key order: a put for each value,
/// a delete for each deletion mark.
pub fn map_to_batch(map: KvMap) -> (r: Vec<Operation>)
    requires
        map.wf(),
    ensures
        ops_view(r@) == entries_ops(map.entries_view()),
{
    let mut map = map;
    let ghost all = map.entries_view();
    let mut operations: Vec<Operation> = Vec::new();
    let mut done: usize = 0;
    let n = map.len();
    while map.len() > 0
        invariant
            all.len() == n,
            map.wf(),
            map.entries_view() == all.subrange(done as int, all.len() as int),
            ops_view(operations@) == entries_ops(all.subrange(0, done as int)),
            operations@.len() == done,
            done <= all.len(),
        decreases map.entries_view().len(),
    {
        let e = map.pop_first();
        match e {
            Some((k, v)) => {
                proof {
                    assert(entry_view((k, v)) == all[done as int]);
                }
                let ghost before = operations@;
                let ghost e0 = all[done as int];
                match v {
                    Some(value) => operations.push(Operation::Put(k, value)),
                    None => operations.push(Operation::Delete(k)),
                }
                proof {
                    assert(ops_view(operations@) =~= entries_ops(all.subrange(0, done + 1))) by {
                        assert(operations@ =~= before.push(operations@.last()));
                        assert forall|j: int| 0 <= j < done implies ops_view(operations@)[j] == entries_ops(all.subrange(0, done + 1))[j] by {
                            assert(operations@[j] == before[j]);
                            assert(ops_view(before)[j] == entries_ops(all.subrange(0, done as int))[j]);
                        }
                        assert(ops_view(operations@)[done as int] == entries_ops(all.subrange(0, done + 1))[done as int]);
                    }
                    assert(map.entries_view() =~= all.subrange(done + 1, all.len() as int));
                }
                done = done + 1;
            },
            None => {},
        }
    }
    proof {
        assert(all.subrange(0, done as int) =~= all);
    }
    operations
}

/// Splits operations into batch entries for the keys and the auxiliary
/// metadata, each in the order given.
pub fn to_batch(ops: Vec<Operation>) -> (r: (Vec<BatchEntry>, Vec<(Vec<u8>, Option<Vec<u8>>)>))
    ensures
        batch_view(r.0@) == key_writes(ops_view(ops@)),
        entries_seq_view(r.1@) == aux_writes(ops_view(ops@)),
{
    let mut batch: Vec<BatchEntry> = Vec::new();
    let mut aux_info: Vec<(Vec<u8>, Option<Vec<u8>>)> = Vec::new();
    let mut ops = ops;
    let ghost all = ops_view(ops@);
    let mut done: usize = 0;
    let n = ops.len();
    while ops.len() > 0
        invariant
            all.len() == n,
            done + ops@.len() == n,
            ops_view(ops@) == all.subrange(done as int, n as int),
            batch_view(batch@) == key_writes(all.subrange(0, done as int)),
            entries_seq_view(aux_info@) == aux_writes(all.subrange(0, done as int)),
        decreases ops@.len(),
    {
        let ghost pre = ops@;
        let op = ops.remove(0);
        let ghost b0 = batch@;
        let ghost a0 = aux_info@;
        proof {
            assert(ops_view(pre)[0] == pre[0]@);
            assert(ops_view(pre)[0] == all[done as int]);
            assert(op@ == all[done as int]);
            assert(all.subrange(0, done + 1).drop_last() =~= all.subrange(0, done as int));
            assert(all.subrange(0, done + 1).last() == op@);
        }
        match op {
            Operation::Put(k, v) => {
                batch.push((k, Op::Put(v)));
                proof {
                    assert(batch_view(batch@) =~= batch_view(b0).push(batch_entry_view(batch@.last())));
                }
            },
            Operation::Delete(k) => {
                batch.push((k, Op::Delete));
                proof {
                    assert(batch_view(batch@) =~= batch_view(b0).push(batch_entry_view(batch@.last())));
                }
            },
            Operation::Aux(aux) => {
                let mut aux = aux;
                let ghost av = entries_seq_view(aux@);
                aux_info.append(&mut aux);
                proof {
                    assert(entries_seq_view(aux_info@) =~= entries_seq_view(a0) + av);
                }
            },
        }
        proof {
            assert(ops@ =~= pre.subrange(1, pre.len() as int));
            assert forall|j: int| 0 <= j < ops@.len() implies ops_view(ops@)[j] == all.subrange(done + 1, n as int)[j] by {
                assert(ops_view(pre)[j + 1] == all.subrange(done as int, n as int)[j + 1]);
            }
            assert(ops_view(ops@) =~= all.subrange(done + 1, n as int));
        }
        done = done + 1;
    }
    proof {
        assert(all.subrange(0, done as int) =~= all);
    }
    (batch, aux_info)
}

/// The key writes of an operation list, in order.
pub open spec fn key_writes(s: Seq<OpView>) -> Seq<(Seq<u8>, Option<Seq<u8>>)>
    decreases s.len(),
{
    if s.len() == 0 {
        Seq::empty()
    } else {
        let rest = key_writes(s.drop_last());
        match s.last() {
            OpView::Put(k, v) => rest.push((k, Some(v))),
            OpView::Delete(k) => rest.push((k, None)),
            OpView::Aux(_) => rest,
        }
    }
}

/// The auxiliary metadata of an operation list, concatenated in order.
pub open spec fn aux_writes(s: Seq<OpView>) -> Seq<(Seq<u8>, Option<Seq<u8>>)>
    decreases s.len(),
{
    if s.len() == 0 {
        Seq::empty()
    } else {
        let rest = aux_writes(s.drop_last());
        match s.last() {
            OpView::Aux(a) => rest + a,
            _ => rest,
        }
    }
}

/// Metadata entries as batch entries, in the order given.
pub fn to_batch_aux(i: Vec<(Vec<u8>, Option<Vec<u8>>)>) -> (r: Vec<BatchEntry>)
    ensures
        batch_view(r@) == entries_seq_view(i@),
{
    let mut batch: Vec<BatchEntry> = Vec::new();
    let mut i = i;
    let ghost all = entries_seq_view(i@);
    let mut done: usize = 0;
    let n = i.len();
    while i.len() > 0
        invariant
            all.len() == n,
            done + i@.len() == n,
            entries_seq_view(i@) == all.subrange(done as int, n as int),
            batch_view(batch@) == all.subrange(0, done as int),
            batch@.len() == done,
        decreases i@.len(),
    {
        let ghost pre = i@;
        let (key, val) = i.remove(0);
        let ghost b0 = batch@;
        proof {
            assert(entries_seq_view(pre)[0] == all.subrange(done as int, n as int)[0]);
            assert(entry_view((key, val)) == all[done as int]);
        }
        match val {
            Some(v) => batch.push((key, Op::Put(v))),
            None => batch.push((key, Op::Delete)),
        }
        proof {
            assert(batch_view(batch@) =~= all.subrange(0, done + 1)) by {
                assert forall|j: int| 0 <= j < done implies batch_view(batch@)[j] == all.subrange(0, done + 1)[j] by {
                    assert(batch@[j] == b0[j]);
                    assert(batch_view(b0)[j] == all.subrange(0, done as int)[j]);
                }
            }
            assert(i@ =~= pre.subrange(1, pre.len() as int));
            assert forall|j: int| 0 <= j < i@.len() implies entries_seq_view(i@)[j] == all.subrange(done + 1, n as int)[j] by {
                assert(entries_seq_view(pre)[j + 1] == all.subrange(done as int, n as int)[j + 1]);
            }
            assert(entries_seq_view(i@) =~= all.subrange(done + 1, n as int));
        }
        done = done + 1;
    }
    proof {
        assert(all.subrange(0, done as int) =~= all);
    }
    batch
}

} // verus!
