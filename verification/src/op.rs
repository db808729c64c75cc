//! The operations that replicas exchange.

use crate::clock::Hlc;
use crate::text;
use vstd::prelude::*;

verus! {

/// What an operation does to its entity.
#[derive(Clone, Copy, Debug, PartialEq, Eq, Structural)]
pub enum OpKind {
    Upsert,
    Delete,
}

/// One change of one entity, stamped by the device that made it.
#[derive(Debug)]
pub struct Op {
    pub device: String,
    pub seq: u64,
    pub entity: String,
    pub kind: OpKind,
    pub value: String,
    pub hlc: Hlc,
}

/// What an operation says.
#[verifier::ext_equal]
pub struct OpView {
    pub device: Seq<char>,
    pub seq: u64,
    pub entity: Seq<char>,
    pub kind: OpKind,
    pub value: Seq<char>,
    pub hlc: Hlc,
}

impl View for Op {
    type V = OpView;

    open spec fn view(&self) -> OpView {
        OpView {
            device: self.device@,
            seq: self.seq,
            entity: self.entity@,
            kind: self.kind,
            value: self.value@,
            hlc: self.hlc,
        }
    }
}

impl Clone for Op {
    fn clone(&self) -> (copy: Self)
        ensures
            copy == *self,
    {
        Op {
            device: self.device.clone(),
            seq: self.seq,
            entity: self.entity.clone(),
            kind: self.kind,
            value: self.value.clone(),
            hlc: self.hlc,
        }
    }
}

/// The operations of a list, by what they say.
pub open spec fn ops_view(ops: Seq<Op>) -> Seq<OpView> {
    ops.map_values(|op: Op| op@)
}

/// `a` comes before `b` by device and then by number.
pub open spec fn key_lt(a: OpView, b: OpView) -> bool {
    text::lex_lt(a.device, b.device) || (a.device == b.device && a.seq < b.seq)
}

/// `after` is `before` in the order of `from`: by device and then by number,
/// and as they stood where both agree.
pub open spec fn arranged_by(before: Seq<OpView>, after: Seq<OpView>, from: Seq<int>) -> bool {
    &&& after.len() == before.len()
    &&& from.len() == before.len()
    &&& from.no_duplicates()
    &&& forall|k: int| 0 <= k < before.len() ==> #[trigger] from.contains(k)
    &&& forall|i: int|
        0 <= i < from.len() ==> 0 <= #[trigger] from[i] < before.len() && after[i]
            == before[from[i]]
    &&& forall|i: int, j: int|
        0 <= i < j < from.len() ==> key_lt(#[trigger] after[i], #[trigger] after[j]) || (
        after[i].device == after[j].device && after[i].seq == after[j].seq && from[i] < from[j])
}

/// `after` holds the operations of `before`, sorted by device and then by
/// number, with equals in the order in which they stood.
pub open spec fn is_arrangement(before: Seq<OpView>, after: Seq<OpView>) -> bool {
    exists|from: Seq<int>| arranged_by(before, after, from)
}

/// Sorts operations by device and then by number. Calls the standard
/// library's `sort_by_key` for slices with the pair of device and number as
/// the key; the contract claims that the sort is by that key and stable.
#[verifier::external_body]
pub(crate) fn sort_ops(ops: &mut Vec<Op>)
    ensures
        is_arrangement(ops_view(old(ops)@), ops_view(final(ops)@)),
{
    ops.sort_by_key(|op| (op.device.clone(), op.seq));
}

/// An operation says what its fields hold.
pub proof fn law_an_operation_says_its_fields(op: Op)
    ensures
        op@.device == op.device@,
        op@.seq == op.seq,
        op@.entity == op.entity@,
        op@.kind == op.kind,
        op@.value == op.value@,
        op@.hlc == op.hlc,
{
}

/// A list of operations is what each of them says, one for one.
pub proof fn law_lists_one_for_one(ops: Seq<Op>)
    ensures
        ops_view(ops).len() == ops.len(),
        forall|i: int| 0 <= i < ops.len() ==> #[trigger] ops_view(ops)[i] == ops[i]@,
{
}

/// Sorted operations go by device and within a device by number, and each
/// of them was in the list, which lost and doubled none.
pub proof fn law_sorted_goes_by_device_and_number(
    before: Seq<OpView>,
    after: Seq<OpView>,
    i: int,
    j: int,
)
    requires
        is_arrangement(before, after),
        0 <= i < j < after.len(),
    ensures
        after[i].device == after[j].device ==> after[i].seq <= after[j].seq,
        after[i].device != after[j].device ==> text::lex_lt(after[i].device, after[j].device),
        before.contains(after[i]),
        after.to_multiset() =~= before.to_multiset(),
{
    let from = choose|from: Seq<int>| arranged_by(before, after, from);
    assert(arranged_by(before, after, from));
    assert(0 <= from[i] < before.len());
    text::lemma_lex_irreflexive(after[i].device);
    lemma_rearranged(before, after, from);
}

/// What is taken from a list place by place, every place once, is the list
/// in another order.
proof fn lemma_rearranged(before: Seq<OpView>, after: Seq<OpView>, from: Seq<int>)
    requires
        after.len() == before.len(),
        from.len() == before.len(),
        from.no_duplicates(),
        forall|i: int|
            0 <= i < from.len() ==> 0 <= #[trigger] from[i] < before.len() && after[i]
                == before[from[i]],
    ensures
        after.to_multiset() == before.to_multiset(),
    decreases before.len(),
{
    broadcast use vstd::seq_lib::group_to_multiset_ensures;

    if before.len() == 0 {
        assert(after =~= before);
    } else {
        let n = before.len() - 1;
        let k = from[n];
        let rest = before.remove(k);
        let init = after.drop_last();
        let moved = Seq::new(
            n as nat,
            |i: int|
                if from[i] < k {
                    from[i]
                } else {
                    from[i] - 1
                },
        );
        assert forall|i: int| 0 <= i < moved.len() implies 0 <= #[trigger] moved[i] < rest.len()
            && init[i] == rest[moved[i]] by {
            assert(from[i] != from[n]);
            assert(0 <= from[i] < before.len());
        }
        assert forall|i: int, j: int|
            0 <= i < moved.len() && 0 <= j < moved.len() && i != j implies moved[i] != moved[j] by {
            assert(from[i] != from[j]);
            assert(from[i] != from[n] && from[j] != from[n]);
        }
        lemma_rearranged(rest, init, moved);
        assert(after =~= init.push(before[k]));
        assert(before.to_multiset() =~= rest.to_multiset().insert(before[k]));
    }
}

/// Sorting leaves a list alone that is in order already: it never swaps
/// operations of one device and one number.
pub proof fn law_sorting_leaves_what_is_sorted(before: Seq<OpView>, after: Seq<OpView>)
    requires
        is_arrangement(before, after),
        forall|i: int, j: int|
            0 <= i < j < before.len() ==> text::lex_lt(
                (#[trigger] before[i]).device,
                (#[trigger] before[j]).device,
            ) || (before[i].device == before[j].device && before[i].seq <= before[j].seq),
    ensures
        after == before,
{
    let from = choose|from: Seq<int>| arranged_by(before, after, from);
    assert(arranged_by(before, after, from));
    assert forall|i: int, j: int| 0 <= i < j < from.len() implies #[trigger] from[i]
        < #[trigger] from[j] by {
        let a = after[i];
        let b = after[j];
        assert(a == before[from[i]] && b == before[from[j]]);
        assert(from[i] != from[j]);
        if from[j] < from[i] {
            assert(text::lex_lt(b.device, a.device) || (b.device == a.device && b.seq <= a.seq));
            if text::lex_lt(a.device, b.device) && text::lex_lt(b.device, a.device) {
                text::lemma_lex_asymmetric(a.device, b.device);
            }
            text::lemma_lex_irreflexive(a.device);
            assert(false);
        }
    }
    assert forall|i: int| 0 <= i < after.len() implies after[i] == before[i] by {
        lemma_rising_places(from, i);
        assert(from[i] == i);
    }
}

proof fn lemma_rising_places(from: Seq<int>, i: int)
    requires
        0 <= i < from.len(),
        forall|k: int| 0 <= k < from.len() ==> 0 <= #[trigger] from[k] < from.len(),
        forall|k: int, m: int|
            0 <= k < m < from.len() ==> #[trigger] from[k] < #[trigger] from[m],
    ensures
        from[i] == i,
{
    lemma_rises_from_below(from, i);
    lemma_rises_from_above(from, i);
}

proof fn lemma_rises_from_below(from: Seq<int>, i: int)
    requires
        0 <= i < from.len(),
        forall|k: int| 0 <= k < from.len() ==> 0 <= #[trigger] from[k] < from.len(),
        forall|k: int, m: int|
            0 <= k < m < from.len() ==> #[trigger] from[k] < #[trigger] from[m],
    ensures
        from[i] >= i,
    decreases i,
{
    if i > 0 {
        lemma_rises_from_below(from, i - 1);
        assert(from[i - 1] < from[i]);
    }
}

proof fn lemma_rises_from_above(from: Seq<int>, i: int)
    requires
        0 <= i < from.len(),
        forall|k: int| 0 <= k < from.len() ==> 0 <= #[trigger] from[k] < from.len(),
        forall|k: int, m: int|
            0 <= k < m < from.len() ==> #[trigger] from[k] < #[trigger] from[m],
    ensures
        from[i] <= i,
    decreases from.len() - i,
{
    if i < from.len() - 1 {
        lemma_rises_from_above(from, i + 1);
        assert(from[i] < from[i + 1]);
    }
}

} // verus!
