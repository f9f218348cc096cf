//! Batched writes and roll-back requests, and what applying them does to a
//! key-value view.
use vstd::prelude::*;

verus! {

/// One write of a batch: put a key, delete a key, or auxiliary metadata
/// (kept apart from the key space).
pub enum Operation {
    Put(Vec<u8>, Vec<u8>),
    Delete(Vec<u8>),
    Aux(Vec<(Vec<u8>, Option<Vec<u8>>)>),
}

/// A request to go back to an earlier committed height.
pub enum RollBackOperation {
    MerkleHeight(u64, Option<bool>),
}

impl RollBackOperation {
    /// The height the request names.
    pub fn get_height(&self) -> (r: Option<u64>)
        ensures
            r == Some(self.height_of()),
    {
        match self {
            RollBackOperation::MerkleHeight(h, _v) => Some(*h),
        }
    }

    pub open spec fn height_of(&self) -> u64 {
        match self {
            RollBackOperation::MerkleHeight(h, _) => *h,
        }
    }
}

/// Abstract view of an operation.
pub enum OpView {
    Put(Seq<u8>, Seq<u8>),
    Delete(Seq<u8>),
    Aux(Seq<(Seq<u8>, Option<Seq<u8>>)>),
}

impl View for Operation {
    type V = OpView;

    open spec fn view(&self) -> OpView {
        match self {
            Operation::Put(k, v) => OpView::Put(k@, v@),
            Operation::Delete(k) => OpView::Delete(k@),
            Operation::Aux(a) => OpView::Aux(crate::tree::kvmap::entries_seq_view(a@)),
        }
    }
}

/// Abstract view of a sequence of operations.
pub open spec fn ops_view(s: Seq<Operation>) -> Seq<OpView> {
    Seq::new(s.len(), |i: int| s[i]@)
}

/// The effect of one operation on a key-value view.
pub open spec fn apply_op(m: Map<Seq<u8>, Seq<u8>>, op: OpView) -> Map<Seq<u8>, Seq<u8>> {
    match op {
        OpView::Put(k, v) => m.insert(k, v),
        OpView::Delete(k) => m.remove(k),
        OpView::Aux(_) => m,
    }
}

/// The effect of a sequence of operations, applied first to last.
pub open spec fn apply_ops(m: Map<Seq<u8>, Seq<u8>>, ops: Seq<OpView>) -> Map<Seq<u8>, Seq<u8>>
    decreases ops.len(),
{
    if ops.len() == 0 {
        m
    } else {
        apply_op(apply_ops(m, ops.drop_last()), ops.last())
    }
}

/// No operation of the sequence is auxiliary metadata.
pub open spec fn no_aux(ops: Seq<OpView>) -> bool {
    forall|i: int| 0 <= i < ops.len() ==> !(#[trigger] ops[i] is Aux)
}

/// Applying a sequence in two parts is applying it whole.
pub proof fn lemma_apply_ops_append(m: Map<Seq<u8>, Seq<u8>>, a: Seq<OpView>, b: Seq<OpView>)
    ensures
        apply_ops(m, a + b) == apply_ops(apply_ops(m, a), b),
    decreases b.len(),
{
    if b.len() == 0 {
        assert(a + b =~= a);
    } else {
        lemma_apply_ops_append(m, a, b.drop_last());
        assert((a + b).drop_last() =~= a + b.drop_last());
    }
}

} // verus!
