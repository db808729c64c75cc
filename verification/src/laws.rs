//! What holds of replicas as a whole: the order of stamps, what arrival in
//! another order or twice changes, and that replicas which talk converge.

use crate::clock;
use crate::clock::Hlc;
use crate::dataset;
use crate::dataset::{Dataset, EntryView};
use crate::op;
use crate::op::{OpKind, OpView};
use crate::replica;
use crate::replica::ReplicaView;
use crate::text;
use vstd::prelude::*;

verus! {

/// Stamps are totally ordered: of two different stamps exactly one comes
/// before the other, so every device picks the same winner.
pub proof fn law_stamps_are_totally_ordered(
    h1: Hlc,
    d1: Seq<char>,
    h2: Hlc,
    d2: Seq<char>,
    h3: Hlc,
    d3: Seq<char>,
)
    ensures
        !dataset::stamp_lt(h1, d1, h1, d1),
        dataset::stamp_lt(h1, d1, h2, d2) ==> !dataset::stamp_lt(h2, d2, h1, d1),
        dataset::stamp_lt(h1, d1, h2, d2) && dataset::stamp_lt(h2, d2, h3, d3)
            ==> dataset::stamp_lt(h1, d1, h3, d3),
        h1 != h2 || d1 != d2 ==> dataset::stamp_lt(h1, d1, h2, d2) || dataset::stamp_lt(
            h2,
            d2,
            h1,
            d1,
        ),
{
    text::lemma_lex_irreflexive(d1);
    text::lemma_lex_total(d1, d2);
    if text::lex_lt(d1, d2) {
        text::lemma_lex_asymmetric(d1, d2);
        if text::lex_lt(d2, d3) {
            text::lemma_lex_transitive(d1, d2, d3);
        }
    }
}

/// An operation that arrives a second time is not news and changes nothing.
pub proof fn law_apply_is_idempotent(replica: ReplicaView, op: OpView, wall: u64, later: u64)
    ensures
        !replica.apply_at(op, wall).data.accepts(op),
        replica.apply_at(op, wall).apply_at(op, later) == replica.apply_at(op, wall),
{
    if replica.data.accepts(op) {
        lemma_accepts_after(replica.data, op, op);
    }
}

/// After `a` was taken in, `b` is news if it was before and does not carry
/// the number of `a`.
proof fn lemma_accepts_after(data: Dataset, a: OpView, b: OpView)
    ensures
        data.with(a).accepts(b) <==> data.accepts(b) && !(a.device == b.device && a.seq == b.seq),
{
    let log = data.with(a).log;
    let n = data.log.len() as int;
    assert(log[n] == a);
    assert forall|i: int| 0 <= i < n implies #[trigger] log[i] == data.log[i] by {}
    if data.with(a).accepts(b) {
        assert forall|i: int| 0 <= i < n implies !((#[trigger] data.log[i]).device == b.device
            && data.log[i].seq == b.seq) by {
            assert(log[i] == data.log[i]);
        }
    }
}

/// Once an operation was seen it stays seen, whatever else arrives.
pub proof fn law_seen_stays_seen(data: Dataset, op: OpView, ops: Seq<OpView>)
    requires
        !data.accepts(op),
    ensures
        !data.apply_all(ops).accepts(op),
        data.apply_all(ops).apply(op) == data.apply_all(ops),
    decreases ops.len(),
{
    if ops.len() > 0 {
        law_seen_stays_seen(data, op, ops.drop_last());
        lemma_accepts_after(data.apply_all(ops.drop_last()), ops.last(), op);
    }
}

/// Two operations carry the same stamp for the same entity, disagree, and
/// would both have it: which one does is a matter of which came first.
pub open spec fn one_stamp(entries: Map<Seq<char>, EntryView>, a: OpView, b: OpView) -> bool {
    &&& a.entity == b.entity && a.hlc == b.hlc && a.device == b.device
    &&& a.entry() != b.entry()
    &&& !entries.contains_key(a.entity) || dataset::wins(a, entries[a.entity])
}

/// Two operations commute in the merge unless they carry one stamp.
proof fn lemma_merge_commutes(entries: Map<Seq<char>, EntryView>, a: OpView, b: OpView)
    requires
        !one_stamp(entries, a, b),
    ensures
        dataset::merged(dataset::merged(entries, a), b) == dataset::merged(
            dataset::merged(entries, b),
            a,
        ),
{
    let left = dataset::merged(dataset::merged(entries, a), b);
    let right = dataset::merged(dataset::merged(entries, b), a);
    if a.entity == b.entity {
        if entries.contains_key(a.entity) {
            let cur = entries[a.entity];
            law_stamps_are_totally_ordered(cur.hlc, cur.device, a.hlc, a.device, b.hlc, b.device);
            law_stamps_are_totally_ordered(cur.hlc, cur.device, b.hlc, b.device, a.hlc, a.device);
        }
        law_stamps_are_totally_ordered(a.hlc, a.device, b.hlc, b.device, a.hlc, a.device);
    }
    assert(left =~= right);
}

/// Two operations that no device makes: one number or one stamp given to
/// two changes that would leave different entries.
pub open spec fn clash(data: Dataset, a: OpView, b: OpView) -> bool {
    &&& data.accepts(a) && data.accepts(b) && a.device == b.device
    &&& if a.seq == b.seq {
        dataset::merged(data.entries, a) != dataset::merged(data.entries, b)
    } else {
        one_stamp(data.entries, a, b)
    }
}

/// The order in which two operations arrive does not matter, of one device
/// or of two: entries and version vector come out the same.
pub proof fn law_apply_is_commutative(data: Dataset, a: OpView, b: OpView)
    requires
        !clash(data, a, b),
    ensures
        data.apply(a).apply(b).entries == data.apply(b).apply(a).entries,
        data.apply(a).apply(b).vv == data.apply(b).apply(a).vv,
{
    lemma_accepts_after(data, a, b);
    lemma_accepts_after(data, b, a);
    if data.accepts(a) && data.accepts(b) {
        assert(dataset::raised(dataset::raised(data.vv, a.device, a.seq), b.device, b.seq)
            =~= dataset::raised(dataset::raised(data.vv, b.device, b.seq), a.device, a.seq));
        if a.device != b.device || a.seq != b.seq {
            lemma_merge_commutes(data.entries, a, b);
        }
    }
}

/// Operations of different devices commute without exception.
pub proof fn law_devices_commute(data: Dataset, a: OpView, b: OpView)
    requires
        a.device != b.device,
    ensures
        data.apply(a).apply(b).entries == data.apply(b).apply(a).entries,
        data.apply(a).apply(b).vv == data.apply(b).apply(a).vv,
{
    law_apply_is_commutative(data, a, b);
}

/// Operation `i` of the log concerns `entity` and no other there outranks it.
pub open spec fn is_winner(log: Seq<OpView>, entity: Seq<char>, i: int) -> bool {
    &&& 0 <= i < log.len()
    &&& log[i].entity == entity
    &&& forall|j: int|
        0 <= j < log.len() && (#[trigger] log[j]).entity == entity ==> !dataset::stamp_lt(
            log[i].hlc,
            log[i].device,
            log[j].hlc,
            log[j].device,
        )
}

/// Operation `i` wins `entity`, and outranks whatever came before it.
pub open spec fn is_first_winner(log: Seq<OpView>, entity: Seq<char>, i: int) -> bool {
    &&& is_winner(log, entity, i)
    &&& forall|j: int|
        0 <= j < i && (#[trigger] log[j]).entity == entity ==> dataset::stamp_lt(
            log[j].hlc,
            log[j].device,
            log[i].hlc,
            log[i].device,
        )
}

/// The entries are those of the winning operations: an entity has an entry
/// exactly if the log holds an operation on it, and the entry is that of the
/// first one that none outranks. Every earlier one has a lower stamp.
pub proof fn law_entries_are_the_winners(log: Seq<OpView>, entity: Seq<char>)
    ensures
        dataset::replayed(log).contains_key(entity) <==> exists|i: int|
            0 <= i < log.len() && (#[trigger] log[i]).entity == entity,
        dataset::replayed(log).contains_key(entity) ==> exists|i: int| #[trigger]
            is_first_winner(log, entity, i) && dataset::replayed(log)[entity] == log[i].entry(),
    decreases log.len(),
{
    if log.len() > 0 {
        let init = log.drop_last();
        let last = log.last();
        let n = log.len() - 1;
        law_entries_are_the_winners(init, entity);
        let before = dataset::replayed(init);
        assert(log[n] == last);
        law_stamps_are_totally_ordered(
            last.hlc,
            last.device,
            last.hlc,
            last.device,
            last.hlc,
            last.device,
        );
        if before.contains_key(entity) {
            let k = choose|k: int|
                0 <= k < init.len() && (#[trigger] init[k]).entity == entity;
            assert(log[k] == init[k]);
            let i = choose|i: int| #[trigger]
                is_first_winner(init, entity, i) && before[entity] == init[i].entry();
            assert(log[i] == init[i]);
            if last.entity == entity && dataset::wins(last, before[entity]) {
                assert forall|j: int|
                    0 <= j < n && (#[trigger] log[j]).entity == entity implies dataset::stamp_lt(
                    log[j].hlc,
                    log[j].device,
                    last.hlc,
                    last.device,
                ) && !dataset::stamp_lt(last.hlc, last.device, log[j].hlc, log[j].device) by {
                    assert(init[j] == log[j]);
                    law_stamps_are_totally_ordered(
                        log[j].hlc,
                        log[j].device,
                        init[i].hlc,
                        init[i].device,
                        last.hlc,
                        last.device,
                    );
                    law_stamps_are_totally_ordered(
                        log[j].hlc,
                        log[j].device,
                        last.hlc,
                        last.device,
                        last.hlc,
                        last.device,
                    );
                }
                assert(is_first_winner(log, entity, n));
            } else {
                assert forall|j: int|
                    0 <= j < log.len() && (#[trigger] log[j]).entity
                        == entity implies !dataset::stamp_lt(
                    log[i].hlc,
                    log[i].device,
                    log[j].hlc,
                    log[j].device,
                ) by {
                    if j < n {
                        assert(init[j] == log[j]);
                    }
                }
                assert forall|j: int|
                    0 <= j < i && (#[trigger] log[j]).entity == entity implies dataset::stamp_lt(
                    log[j].hlc,
                    log[j].device,
                    log[i].hlc,
                    log[i].device,
                ) by {
                    assert(init[j] == log[j]);
                }
                assert(is_first_winner(log, entity, i));
            }
        } else {
            assert forall|j: int| 0 <= j < n implies (#[trigger] log[j]).entity != entity by {
                assert(init[j] == log[j]);
            }
            if last.entity == entity {
                assert(is_first_winner(log, entity, n));
            }
        }
    }
}

/// The logs hold the same operations, in whatever order and however often.
pub open spec fn same_ops(a: Seq<OpView>, b: Seq<OpView>) -> bool {
    forall|o: OpView| #[trigger] a.contains(o) <==> b.contains(o)
}

/// What no operation of the log outranks is settled: where several with the
/// same stamp win an entity, they agree. Devices see to that by never giving
/// a stamp twice.
pub open spec fn winners_agree(log: Seq<OpView>) -> bool {
    forall|i: int, j: int|
        0 <= i < log.len() && 0 <= j < log.len() && (#[trigger] log[i]).entity == (
        #[trigger] log[j]).entity && log[i].hlc == log[j].hlc && log[i].device == log[j].device
            && is_winner(log, log[i].entity, i) ==> log[i].entry() == log[j].entry()
}

/// Replicas that hold the same operations have the same entries, in whatever
/// order the operations arrived.
pub proof fn law_same_ops_same_entries(a: Seq<OpView>, b: Seq<OpView>)
    requires
        same_ops(a, b),
        winners_agree(a),
    ensures
        dataset::replayed(a) == dataset::replayed(b),
{
    let left = dataset::replayed(a);
    let right = dataset::replayed(b);
    assert forall|entity: Seq<char>|
        (#[trigger] left.contains_key(entity) <==> right.contains_key(entity)) && (
        left.contains_key(entity) ==> left[entity] == right[entity]) by {
        law_entries_are_the_winners(a, entity);
        law_entries_are_the_winners(b, entity);
        if left.contains_key(entity) {
            let i = choose|i: int| #[trigger]
                is_first_winner(a, entity, i) && left[entity] == a[i].entry();
            assert(a.contains(a[i]));
            assert(b.contains(a[i]));
            let k = choose|k: int| 0 <= k < b.len() && b[k] == a[i];
            assert(b[k].entity == entity);
            assert(right.contains_key(entity));
            let j = choose|j: int| #[trigger]
                is_first_winner(b, entity, j) && right[entity] == b[j].entry();
            assert(b.contains(b[j]));
            assert(a.contains(b[j]));
            let m = choose|m: int| 0 <= m < a.len() && a[m] == b[j];
            law_stamps_are_totally_ordered(
                a[i].hlc,
                a[i].device,
                b[j].hlc,
                b[j].device,
                a[i].hlc,
                a[i].device,
            );
            assert(a[m].entity == entity);
            assert(!dataset::stamp_lt(a[i].hlc, a[i].device, a[m].hlc, a[m].device));
            assert(!dataset::stamp_lt(b[j].hlc, b[j].device, b[k].hlc, b[k].device));
            assert(a[i].entry() == a[m].entry());
        }
        if right.contains_key(entity) {
            let k = choose|k: int| 0 <= k < b.len() && (#[trigger] b[k]).entity == entity;
            assert(b.contains(b[k]));
            assert(a.contains(b[k]));
            let m = choose|m: int| 0 <= m < a.len() && a[m] == b[k];
            assert(a[m].entity == entity);
        }
    }
    assert(left =~= right);
}

/// The version vector covers every operation of its log, and the number it
/// has of a device is that of an operation there.
pub proof fn lemma_top_seqs(log: Seq<OpView>, device: Seq<char>)
    ensures
        forall|i: int|
            0 <= i < log.len() && (#[trigger] log[i]).device == device ==> log[i].seq
                <= dataset::seen(dataset::top_seqs(log), device),
        dataset::top_seqs(log).contains_key(device) <==> exists|i: int|
            0 <= i < log.len() && (#[trigger] log[i]).device == device,
        dataset::top_seqs(log).contains_key(device) ==> exists|i: int|
            0 <= i < log.len() && (#[trigger] log[i]).device == device && log[i].seq
                == dataset::top_seqs(log)[device],
    decreases log.len(),
{
    if log.len() > 0 {
        let init = log.drop_last();
        let n = log.len() - 1;
        lemma_top_seqs(init, device);
        assert(log[n] == log.last());
        assert forall|i: int|
            0 <= i < log.len() && (#[trigger] log[i]).device == device implies log[i].seq
            <= dataset::seen(dataset::top_seqs(log), device) by {
            if i < n {
                assert(init[i] == log[i]);
            }
        }
        if dataset::top_seqs(init).contains_key(device) {
            let k = choose|k: int|
                0 <= k < init.len() && (#[trigger] init[k]).device == device && init[k].seq
                    == dataset::top_seqs(init)[device];
            assert(log[k] == init[k]);
        }
        if exists|i: int| 0 <= i < log.len() && (#[trigger] log[i]).device == device {
            let i = choose|i: int| 0 <= i < log.len() && (#[trigger] log[i]).device == device;
            if i < n {
                assert(init[i] == log[i]);
            }
        }
    }
}

/// The version vector of a consistent replica covers its log.
pub proof fn law_version_vector_covers_the_log(data: Dataset)
    requires
        data.consistent(),
    ensures
        data.covered(),
{
    assert forall|i: int| 0 <= i < data.log.len() implies (#[trigger] data.log[i]).seq
        <= dataset::seen(data.vv, data.log[i].device) by {
        lemma_top_seqs(data.log, data.log[i].device);
    }
}

/// Replicas that hold the same operations have the same version vector.
pub proof fn law_same_ops_same_version_vector(a: Seq<OpView>, b: Seq<OpView>)
    requires
        same_ops(a, b),
    ensures
        dataset::top_seqs(a) == dataset::top_seqs(b),
{
    assert forall|o: OpView| #[trigger] b.contains(o) implies a.contains(o) by {
        assert(a.contains(o) <==> b.contains(o));
    }
    lemma_version_vector_of_union(a, a, b);
    lemma_version_vector_of_union(b, a, b);
}

/// A log that holds what two others hold has the greater number of each
/// device.
proof fn lemma_version_vector_of_union(log: Seq<OpView>, a: Seq<OpView>, b: Seq<OpView>)
    requires
        forall|o: OpView| #[trigger] log.contains(o) <==> a.contains(o) || b.contains(o),
    ensures
        dataset::top_seqs(log) == dataset::pointwise_max(
            dataset::top_seqs(a),
            dataset::top_seqs(b),
        ),
{
    let left = dataset::top_seqs(log);
    let right = dataset::pointwise_max(dataset::top_seqs(a), dataset::top_seqs(b));
    assert forall|device: Seq<char>|
        (#[trigger] left.contains_key(device) <==> right.contains_key(device)) && (
        left.contains_key(device) ==> left[device] == right[device]) by {
        lemma_top_seqs(log, device);
        lemma_top_seqs(a, device);
        lemma_top_seqs(b, device);
        if left.contains_key(device) {
            let i = choose|i: int|
                0 <= i < log.len() && (#[trigger] log[i]).device == device && log[i].seq
                    == left[device];
            assert(log.contains(log[i]));
            if a.contains(log[i]) {
                let k = choose|k: int| 0 <= k < a.len() && a[k] == log[i];
                assert(a[k].device == device);
            } else {
                let k = choose|k: int| 0 <= k < b.len() && b[k] == log[i];
                assert(b[k].device == device);
            }
        }
        if dataset::top_seqs(a).contains_key(device) {
            let i = choose|i: int|
                0 <= i < a.len() && (#[trigger] a[i]).device == device && a[i].seq
                    == dataset::top_seqs(a)[device];
            assert(a.contains(a[i]) && log.contains(a[i]));
            let k = choose|k: int| 0 <= k < log.len() && log[k] == a[i];
            assert(log[k].device == device);
        }
        if dataset::top_seqs(b).contains_key(device) {
            let i = choose|i: int|
                0 <= i < b.len() && (#[trigger] b[i]).device == device && b[i].seq
                    == dataset::top_seqs(b)[device];
            assert(b.contains(b[i]) && log.contains(b[i]));
            let k = choose|k: int| 0 <= k < log.len() && log[k] == b[i];
            assert(log[k].device == device);
        }
    }
    assert(left =~= right);
}

/// No two operations carry the same number of the same device.
pub open spec fn distinct(ops: Seq<OpView>) -> bool {
    forall|i: int, j: int|
        0 <= i < j < ops.len() ==> !((#[trigger] ops[i]).device == (#[trigger] ops[j]).device
            && ops[i].seq == ops[j].seq)
}

/// The operations are numbered from one up, and no number of a device is
/// given twice.
pub open spec fn numbered(ops: Seq<OpView>) -> bool {
    distinct(ops) && forall|i: int| 0 <= i < ops.len() ==> (#[trigger] ops[i]).seq > 0
}

/// An operation that is accepted leaves the numbers of a log as they should
/// be.
pub proof fn law_accepted_ops_keep_the_numbers(data: Dataset, op: OpView)
    requires
        numbered(data.log),
        data.accepts(op),
    ensures
        numbered(data.with(op).log),
{
    let log = data.log.push(op);
    let n = data.log.len() as int;
    assert forall|i: int| 0 <= i < log.len() implies (#[trigger] log[i]).seq > 0 by {
        if i < n {
            assert(log[i] == data.log[i]);
        }
    }
    assert forall|i: int, j: int| 0 <= i < j < log.len() implies !((#[trigger] log[i]).device == (
    #[trigger] log[j]).device && log[i].seq == log[j].seq) by {
        assert(log[i] == data.log[i]);
        if j < n {
            assert(log[j] == data.log[j]);
        }
    }
}

/// Of a batch in which no number occurs twice, those are accepted that were
/// news before it came, in the order of the batch, and no others.
pub proof fn law_batch_accepts_what_is_news(data: Dataset, ops: Seq<OpView>)
    requires
        distinct(ops),
    ensures
        data.apply_all(ops).log == data.log + data.news(ops),
        distinct(data.news(ops)),
        forall|o: OpView| #[trigger]
            data.news(ops).contains(o) <==> ops.contains(o) && data.accepts(o),
        data.consistent() ==> data.apply_all(ops).consistent(),
        numbered(data.log) ==> numbered(data.apply_all(ops).log),
        (forall|i: int| 0 <= i < ops.len() ==> data.accepts(#[trigger] ops[i])) ==> data.news(ops)
            == ops,
    decreases ops.len(),
{
    if ops.len() == 0 {
        assert(data.log + data.news(ops) =~= data.log);
        assert(data.news(ops) =~= ops);
    } else {
        let init = ops.drop_last();
        let last = ops.last();
        let n = ops.len() - 1;
        assert forall|i: int, j: int| 0 <= i < j < init.len() implies !((
        #[trigger] init[i]).device == (#[trigger] init[j]).device && init[i].seq == init[j].seq) by {
            assert(init[i] == ops[i] && init[j] == ops[j]);
        }
        law_batch_accepts_what_is_news(data, init);
        let mid = data.apply_all(init);
        let part = data.news(init);
        assert(ops[n] == last);
        assert forall|i: int| 0 <= i < part.len() implies !((#[trigger] part[i]).device
            == last.device && part[i].seq == last.seq) by {
            assert(part.contains(part[i]));
            let k = choose|k: int| 0 <= k < init.len() && init[k] == part[i];
            assert(ops[k] == init[k]);
        }
        assert(mid.accepts(last) <==> data.accepts(last)) by {
            assert forall|i: int| 0 <= i < data.log.len() implies #[trigger] mid.log[i]
                == data.log[i] by {}
            if data.accepts(last) {
                assert forall|i: int| 0 <= i < mid.log.len() implies !((
                #[trigger] mid.log[i]).device == last.device && mid.log[i].seq == last.seq) by {
                    if i < data.log.len() {
                        assert(mid.log[i] == data.log[i]);
                    } else {
                        assert(mid.log[i] == part[i - data.log.len()]);
                    }
                }
            }
            if mid.accepts(last) {
                assert forall|i: int| 0 <= i < data.log.len() implies !((
                #[trigger] data.log[i]).device == last.device && data.log[i].seq == last.seq) by {
                    assert(mid.log[i] == data.log[i]);
                }
            }
        }
        let all = data.news(ops);
        if data.accepts(last) {
            assert(mid.log.push(last) =~= data.log + all);
            dataset::lemma_with_keeps_consistent(mid, last);
            if numbered(data.log) {
                law_accepted_ops_keep_the_numbers(mid, last);
            }
            assert forall|i: int, j: int| 0 <= i < j < all.len() implies !((
            #[trigger] all[i]).device == (#[trigger] all[j]).device && all[i].seq == all[j].seq) by {
                assert(all[i] == part[i]);
                if j < part.len() {
                    assert(all[j] == part[j]);
                }
            }
        }
        assert forall|o: OpView| #[trigger] all.contains(o) <==> ops.contains(o) && data.accepts(
            o,
        ) by {
            lemma_contained_in_push(init, last, o);
            assert(init.push(last) =~= ops);
            lemma_contained_in_push(part, last, o);
        }
        if forall|i: int| 0 <= i < ops.len() ==> data.accepts(#[trigger] ops[i]) {
            assert forall|i: int| 0 <= i < init.len() implies data.accepts(#[trigger] init[i]) by {
                assert(init[i] == ops[i]);
            }
            assert(init.push(last) =~= ops);
        }
    }
}

proof fn lemma_contained_in_push(a: Seq<OpView>, b: OpView, o: OpView)
    ensures
        a.push(b).contains(o) <==> a.contains(o) || o == b,
{
    assert(a + seq![b] =~= a.push(b));
    lemma_contained_in_either(a, seq![b], o);
    assert(seq![b][0] == b);
}

proof fn lemma_contained_in_either(a: Seq<OpView>, b: Seq<OpView>, o: OpView)
    ensures
        (a + b).contains(o) <==> a.contains(o) || b.contains(o),
{
    let both = a + b;
    if both.contains(o) {
        let k = choose|k: int| 0 <= k < both.len() && both[k] == o;
        if k < a.len() {
            assert(a[k] == o);
        } else {
            assert(b[k - a.len()] == o);
        }
    }
    if a.contains(o) {
        let k = choose|k: int| 0 <= k < a.len() && a[k] == o;
        assert(both[k] == o);
    }
    if b.contains(o) {
        let k = choose|k: int| 0 <= k < b.len() && b[k] == o;
        assert(both[k + a.len()] == o);
    }
}

/// Lists in which no number occurs twice, of the same operations, are of the
/// same length.
proof fn lemma_same_ops_same_len(a: Seq<OpView>, b: Seq<OpView>)
    requires
        same_ops(a, b),
        distinct(a),
        distinct(b),
    ensures
        a.len() == b.len(),
{
    a.unique_seq_to_set();
    b.unique_seq_to_set();
    assert(a.to_set() =~= b.to_set()) by {
        assert forall|o: OpView| #[trigger] a.to_set().contains(o) <==> b.to_set().contains(o) by {
            assert(a.contains(o) <==> b.contains(o));
        }
    }
}

/// The order in which a batch arrives does not matter, of one device or of
/// many: as many are accepted, and entries and version vector come out the
/// same.
pub proof fn law_arrival_order_does_not_matter(
    data: Dataset,
    one: Seq<OpView>,
    other: Seq<OpView>,
)
    requires
        data.consistent(),
        distinct(one),
        distinct(other),
        same_ops(one, other),
        winners_agree(data.log + data.news(one)),
    ensures
        data.apply_all(one).entries == data.apply_all(other).entries,
        data.apply_all(one).vv == data.apply_all(other).vv,
        same_ops(data.apply_all(one).log, data.apply_all(other).log),
        data.news(one).len() == data.news(other).len(),
{
    law_batch_accepts_what_is_news(data, one);
    law_batch_accepts_what_is_news(data, other);
    let left = data.log + data.news(one);
    let right = data.log + data.news(other);
    assert forall|o: OpView| #[trigger] data.news(one).contains(o) <==> data.news(other).contains(
        o,
    ) by {
        assert(one.contains(o) <==> other.contains(o));
    }
    lemma_same_ops_same_len(data.news(one), data.news(other));
    assert forall|o: OpView| #[trigger] left.contains(o) <==> right.contains(o) by {
        lemma_contained_in_either(data.log, data.news(one), o);
        lemma_contained_in_either(data.log, data.news(other), o);
        assert(data.news(one).contains(o) <==> data.news(other).contains(o));
    }
    law_same_ops_same_entries(left, right);
    law_same_ops_same_version_vector(left, right);
}

/// Sorted by device and then by number, with no number twice.
pub open spec fn sorted(ops: Seq<OpView>) -> bool {
    forall|i: int, j: int|
        0 <= i < j < ops.len() ==> op::key_lt(#[trigger] ops[i], #[trigger] ops[j])
}

/// Sorting a batch keeps its operations, each of them once.
pub proof fn law_sorting_keeps_a_batch(before: Seq<OpView>, after: Seq<OpView>)
    requires
        op::is_arrangement(before, after),
    ensures
        same_ops(before, after),
        before.len() == after.len(),
        distinct(before) ==> distinct(after) && sorted(after),
{
    let from = choose|from: Seq<int>| op::arranged_by(before, after, from);
    if distinct(before) {
        assert forall|i: int, j: int| 0 <= i < j < after.len() implies op::key_lt(
            #[trigger] after[i],
            #[trigger] after[j],
        ) && !(after[i].device == after[j].device && after[i].seq == after[j].seq) by {
            assert(0 <= from[i] < before.len() && 0 <= from[j] < before.len());
            assert(from[i] != from[j]);
            let (p, q) = (from[i], from[j]);
            assert(after[i] == before[p] && after[j] == before[q]);
            if p < q {
                assert(!(before[p].device == before[q].device && before[p].seq == before[q].seq));
            } else {
                assert(!(before[q].device == before[p].device && before[q].seq == before[p].seq));
            }
        }
    }
    assert forall|o: OpView| #[trigger] before.contains(o) <==> after.contains(o) by {
        if before.contains(o) {
            let k = choose|k: int| 0 <= k < before.len() && before[k] == o;
            assert(from.contains(k));
            let i = choose|i: int| 0 <= i < from.len() && from[i] == k;
            assert(after[i] == o);
        }
        if after.contains(o) {
            let i = choose|i: int| 0 <= i < after.len() && after[i] == o;
            assert(0 <= from[i] < before.len());
            assert(before[from[i]] == o);
        }
    }
}

proof fn lemma_key_asymmetric(a: OpView, b: OpView)
    requires
        op::key_lt(a, b),
    ensures
        !op::key_lt(b, a),
        a != b,
{
    text::lemma_lex_irreflexive(a.device);
    if text::lex_lt(a.device, b.device) {
        text::lemma_lex_asymmetric(a.device, b.device);
    }
}

proof fn lemma_sorted_unique(a: Seq<OpView>, b: Seq<OpView>)
    requires
        sorted(a),
        sorted(b),
        same_ops(a, b),
    ensures
        a == b,
    decreases a.len(),
{
    if a.len() == 0 {
        if b.len() > 0 {
            assert(b.contains(b[0]));
            assert(a.contains(b[0]));
        }
        assert(a =~= b);
    } else {
        assert(a.contains(a[0]));
        assert(b.contains(a[0]));
        let j = choose|j: int| 0 <= j < b.len() && b[j] == a[0];
        assert(b.contains(b[0]));
        assert(a.contains(b[0]));
        let i = choose|i: int| 0 <= i < a.len() && a[i] == b[0];
        if i > 0 && j > 0 {
            assert(op::key_lt(a[0], a[i]));
            assert(op::key_lt(b[0], b[j]));
            lemma_key_asymmetric(a[0], b[0]);
        }
        assert(a[0] == b[0]);
        let a1 = a.drop_first();
        let b1 = b.drop_first();
        assert forall|x: int, y: int| 0 <= x < y < a1.len() implies op::key_lt(
            #[trigger] a1[x],
            #[trigger] a1[y],
        ) by {
            assert(a1[x] == a[x + 1] && a1[y] == a[y + 1]);
        }
        assert forall|x: int, y: int| 0 <= x < y < b1.len() implies op::key_lt(
            #[trigger] b1[x],
            #[trigger] b1[y],
        ) by {
            assert(b1[x] == b[x + 1] && b1[y] == b[y + 1]);
        }
        assert(a =~= seq![a[0]] + a1);
        assert(b =~= seq![b[0]] + b1);
        assert forall|o: OpView| #[trigger] a1.contains(o) <==> b1.contains(o) by {
            lemma_contained_in_either(seq![a[0]], a1, o);
            lemma_contained_in_either(seq![b[0]], b1, o);
            assert(a.contains(o) <==> b.contains(o));
            assert(seq![a[0]][0] == a[0]);
            if a1.contains(o) {
                let k = choose|k: int| 0 <= k < a1.len() && a1[k] == o;
                assert(a[k + 1] == o);
                assert(op::key_lt(a[0], a[k + 1]));
                lemma_key_asymmetric(a[0], a[k + 1]);
            }
            if b1.contains(o) {
                let k = choose|k: int| 0 <= k < b1.len() && b1[k] == o;
                assert(b[k + 1] == o);
                assert(op::key_lt(b[0], b[k + 1]));
                lemma_key_asymmetric(b[0], b[k + 1]);
            }
        }
        lemma_sorted_unique(a1, b1);
    }
}

/// Sorting forgets the order in which a batch came, where no number occurs
/// twice.
pub proof fn law_sorting_forgets_the_order(
    one: Seq<OpView>,
    other: Seq<OpView>,
    one_sorted: Seq<OpView>,
    other_sorted: Seq<OpView>,
)
    requires
        same_ops(one, other),
        distinct(one),
        distinct(other),
        op::is_arrangement(one, one_sorted),
        op::is_arrangement(other, other_sorted),
    ensures
        one_sorted == other_sorted,
{
    law_sorting_keeps_a_batch(one, one_sorted);
    law_sorting_keeps_a_batch(other, other_sorted);
    assert forall|o: OpView| #[trigger] one_sorted.contains(o) <==> other_sorted.contains(o) by {
        assert(one.contains(o) <==> one_sorted.contains(o));
        assert(other.contains(o) <==> other_sorted.contains(o));
        assert(one.contains(o) <==> other.contains(o));
    }
    lemma_sorted_unique(one_sorted, other_sorted);
}

/// A batch that is absorbed whole leaves the same data in whatever order it
/// came, and the same operations are accepted, sorted by device and number.
pub proof fn law_absorbed_batches_forget_their_order(
    before: ReplicaView,
    one: Seq<OpView>,
    other: Seq<OpView>,
    one_intake: replica::Intake,
    other_intake: replica::Intake,
    after_one: ReplicaView,
    after_other: ReplicaView,
)
    requires
        same_ops(one, other),
        distinct(one),
        distinct(other),
        replica::absorbed(before, one, one_intake, after_one),
        replica::absorbed(before, other, other_intake, after_other),
        one_intake.taken == one.len(),
        other_intake.taken == other.len(),
    ensures
        after_one.data == after_other.data,
        op::ops_view(one_intake.accepted@) == op::ops_view(other_intake.accepted@),
        one_intake.accepted@.len() == other_intake.accepted@.len(),
        sorted(op::ops_view(one_intake.accepted@)),
        forall|o: OpView| #[trigger]
            op::ops_view(one_intake.accepted@).contains(o) <==> one.contains(o)
                && before.data.accepts(o),
{
    let a = choose|arranged: Seq<OpView>|
        op::is_arrangement(one, arranged) && #[trigger] replica::took_in(
            before,
            arranged,
            one_intake,
            after_one,
        );
    let b = choose|arranged: Seq<OpView>|
        op::is_arrangement(other, arranged) && #[trigger] replica::took_in(
            before,
            arranged,
            other_intake,
            after_other,
        );
    law_sorting_keeps_a_batch(one, a);
    law_sorting_keeps_a_batch(other, b);
    law_sorting_forgets_the_order(one, other, a, b);
    assert(a.take(a.len() as int) =~= a);
    law_batch_accepts_what_is_news(before.data, a);
    lemma_news_stay_sorted(before.data, a);
    assert(op::ops_view(one_intake.accepted@).len() == one_intake.accepted@.len());
    assert(op::ops_view(other_intake.accepted@).len() == other_intake.accepted@.len());
    assert forall|o: OpView| #[trigger]
        op::ops_view(one_intake.accepted@).contains(o) <==> one.contains(o)
            && before.data.accepts(o) by {
        assert(one.contains(o) <==> a.contains(o));
        assert(before.data.news(a).contains(o) <==> a.contains(o) && before.data.accepts(o));
    }
}

proof fn lemma_news_stay_sorted(data: Dataset, ops: Seq<OpView>)
    requires
        sorted(ops),
    ensures
        sorted(data.news(ops)),
        forall|i: int|
            0 <= i < data.news(ops).len() ==> ops.contains(#[trigger] data.news(ops)[i]),
    decreases ops.len(),
{
    if ops.len() > 0 {
        let init = ops.drop_last();
        let last = ops.last();
        let n = ops.len() - 1;
        assert forall|i: int, j: int| 0 <= i < j < init.len() implies op::key_lt(
            #[trigger] init[i],
            #[trigger] init[j],
        ) by {
            assert(init[i] == ops[i] && init[j] == ops[j]);
        }
        lemma_news_stay_sorted(data, init);
        let part = data.news(init);
        let all = data.news(ops);
        assert(ops[n] == last);
        assert forall|i: int| 0 <= i < part.len() implies ops.contains(#[trigger] part[i])
            && op::key_lt(part[i], last) by {
            assert(init.contains(part[i]));
            let k = choose|k: int| 0 <= k < init.len() && init[k] == part[i];
            assert(ops[k] == part[i]);
            assert(op::key_lt(ops[k], ops[n]));
        }
        assert forall|i: int, j: int| 0 <= i < j < all.len() implies op::key_lt(
            #[trigger] all[i],
            #[trigger] all[j],
        ) by {
            assert(all[i] == part[i]);
            if j < part.len() {
                assert(all[j] == part[j]);
            }
        }
        assert forall|i: int| 0 <= i < all.len() implies ops.contains(#[trigger] all[i]) by {
            if i < part.len() {
                assert(all[i] == part[i]);
            }
        }
    }
}

/// The numbers of each device only ever increase along the log.
pub open spec fn in_order(log: Seq<OpView>) -> bool {
    forall|i: int, j: int|
        0 <= i < j < log.len() && (#[trigger] log[i]).device == (#[trigger] log[j]).device
            ==> log[i].seq < log[j].seq
}

/// What a peer is missing are the operations of the log that its version
/// vector does not cover: each of them once, and in the order of the log.
pub proof fn law_missing_is_what_was_not_seen(log: Seq<OpView>, vv: Map<Seq<char>, u64>)
    ensures
        forall|o: OpView| #[trigger]
            dataset::ops_beyond(log, vv).contains(o) <==> log.contains(o) && o.seq > dataset::seen(
                vv,
                o.device,
            ),
        distinct(log) ==> distinct(dataset::ops_beyond(log, vv)),
        in_order(log) ==> in_order(dataset::ops_beyond(log, vv)),
    decreases log.len(),
{
    reveal(Seq::filter);
    let all = dataset::ops_beyond(log, vv);
    if log.len() > 0 {
        let init = log.drop_last();
        let last = log.last();
        let n = log.len() - 1;
        law_missing_is_what_was_not_seen(init, vv);
        let part = dataset::ops_beyond(init, vv);
        let missing = last.seq > dataset::seen(vv, last.device);
        assert(all == if missing {
            part.push(last)
        } else {
            part
        });
        assert(init.push(last) =~= log);
        assert forall|o: OpView| #[trigger] all.contains(o) <==> log.contains(o) && o.seq
            > dataset::seen(vv, o.device) by {
            lemma_contained_in_push(init, last, o);
            lemma_contained_in_push(part, last, o);
        }
        assert(log[n] == last);
        assert forall|i: int| 0 <= i < part.len() implies exists|k: int|
            0 <= k < n && #[trigger] log[k] == #[trigger] part[i] by {
            assert(part.contains(part[i]));
            let k = choose|k: int| 0 <= k < init.len() && init[k] == part[i];
            assert(log[k] == part[i]);
        }
        if distinct(log) {
            assert forall|i: int, j: int| 0 <= i < j < init.len() implies !((
            #[trigger] init[i]).device == (#[trigger] init[j]).device && init[i].seq
                == init[j].seq) by {
                assert(init[i] == log[i] && init[j] == log[j]);
            }
            assert forall|i: int, j: int| 0 <= i < j < all.len() implies !((
            #[trigger] all[i]).device == (#[trigger] all[j]).device && all[i].seq == all[j].seq) by {
                assert(all[i] == part[i]);
                if j < part.len() {
                    assert(all[j] == part[j]);
                } else {
                    let k = choose|k: int| 0 <= k < n && #[trigger] log[k] == part[i];
                    assert(!(log[k].device == log[n].device && log[k].seq == log[n].seq));
                }
            }
        }
        if in_order(log) {
            assert forall|i: int, j: int|
                0 <= i < j < init.len() && (#[trigger] init[i]).device == (
                #[trigger] init[j]).device implies init[i].seq < init[j].seq by {
                assert(init[i] == log[i] && init[j] == log[j]);
            }
            assert forall|i: int, j: int|
                0 <= i < j < all.len() && (#[trigger] all[i]).device == (
                #[trigger] all[j]).device implies all[i].seq < all[j].seq by {
                assert(all[i] == part[i]);
                if j < part.len() {
                    assert(all[j] == part[j]);
                } else {
                    let k = choose|k: int| 0 <= k < n && #[trigger] log[k] == part[i];
                    assert(log[k].seq < log[n].seq);
                }
            }
        }
    }
}

/// Operations that are past what was seen and in order themselves keep a log
/// in order: so do lists that a peer owes, in the order of its log or sorted,
/// and local edits.
pub proof fn law_news_in_order_keep_the_order(data: Dataset, ops: Seq<OpView>)
    requires
        data.consistent(),
        in_order(data.log),
        in_order(ops),
        forall|i: int|
            0 <= i < ops.len() ==> (#[trigger] ops[i]).seq > dataset::seen(
                data.vv,
                ops[i].device,
            ),
    ensures
        in_order(data.log + ops),
{
    let log = data.log + ops;
    let n = data.log.len() as int;
    law_version_vector_covers_the_log(data);
    assert forall|i: int, j: int|
        0 <= i < j < log.len() && (#[trigger] log[i]).device == (
        #[trigger] log[j]).device implies log[i].seq < log[j].seq by {
        if j < n {
            assert(log[i] == data.log[i] && log[j] == data.log[j]);
        } else if i < n {
            assert(log[i] == data.log[i] && log[j] == ops[j - n]);
        } else {
            assert(log[i] == ops[i - n] && log[j] == ops[j - n]);
        }
    }
}

/// A sorted batch is in order.
pub proof fn law_sorted_is_in_order(ops: Seq<OpView>)
    requires
        sorted(ops),
    ensures
        in_order(ops),
{
    assert forall|i: int, j: int|
        0 <= i < j < ops.len() && (#[trigger] ops[i]).device == (
        #[trigger] ops[j]).device implies ops[i].seq < ops[j].seq by {
        assert(op::key_lt(ops[i], ops[j]));
        text::lemma_lex_irreflexive(ops[i].device);
    }
}

/// Whatever the second log holds of a device up to a number that the first
/// one has reached, the first one holds too.
pub open spec fn covers(here: Seq<OpView>, there: Seq<OpView>) -> bool {
    forall|i: int, j: int|
        0 <= i < here.len() && 0 <= j < there.len() && (#[trigger] here[i]).device == (
        #[trigger] there[j]).device && there[j].seq <= here[i].seq ==> here.contains(there[j])
}

/// The logs are histories of the same devices: no number of a device is
/// given twice, and of every device one holds a beginning of what the other
/// holds.
pub open spec fn share_histories(a: Seq<OpView>, b: Seq<OpView>) -> bool {
    numbered(a) && numbered(b) && covers(a, b) && covers(b, a)
}

/// `ops` are the operations of `list`, each once, in some order.
pub open spec fn each_once(ops: Seq<OpView>, list: Seq<OpView>) -> bool {
    same_ops(ops, list) && distinct(ops)
}

/// A pull: everything the source has past what the puller has seen arrives,
/// in whatever order. All of it is accepted, and the puller then has what
/// both of them had.
pub proof fn law_pull_unites(here: Dataset, source: Dataset, ops: Seq<OpView>)
    requires
        here.consistent(),
        source.consistent(),
        numbered(here.log),
        numbered(source.log),
        covers(here.log, source.log),
        each_once(ops, source.ops_since(here.vv)),
    ensures
        here.apply_all(ops).consistent(),
        numbered(here.apply_all(ops).log),
        here.apply_all(ops).log == here.log + ops,
        here.news(ops) == ops,
        forall|o: OpView| #[trigger]
            here.apply_all(ops).log.contains(o) <==> here.log.contains(o) || source.log.contains(o),
        here.apply_all(ops).vv == dataset::pointwise_max(here.vv, source.vv),
{
    law_missing_is_what_was_not_seen(source.log, here.vv);
    assert forall|i: int| 0 <= i < ops.len() implies here.accepts(#[trigger] ops[i]) by {
        assert(ops.contains(ops[i]));
        assert(source.ops_since(here.vv).contains(ops[i]));
        lemma_top_seqs(here.log, ops[i].device);
    }
    law_batch_accepts_what_is_news(here, ops);
    let log = here.log + ops;
    assert forall|o: OpView| #[trigger] log.contains(o) <==> here.log.contains(o)
        || source.log.contains(o) by {
        lemma_contained_in_either(here.log, ops, o);
        assert(ops.contains(o) <==> source.ops_since(here.vv).contains(o));
        if source.log.contains(o) && !ops.contains(o) {
            lemma_top_seqs(here.log, o.device);
            let j = choose|j: int| 0 <= j < source.log.len() && source.log[j] == o;
            assert(source.log[j].seq > 0);
            let i = choose|i: int|
                0 <= i < here.log.len() && (#[trigger] here.log[i]).device == o.device
                    && here.log[i].seq == dataset::top_seqs(here.log)[o.device];
            assert(source.log[j].seq <= here.log[i].seq);
        }
    }
    lemma_version_vector_of_union(log, here.log, source.log);
}

/// The source of a pull covers the puller afterwards as it did before.
pub proof fn lemma_covers_after_pull(here: Dataset, source: Dataset, ops: Seq<OpView>)
    requires
        here.consistent(),
        source.consistent(),
        share_histories(here.log, source.log),
        each_once(ops, source.ops_since(here.vv)),
    ensures
        covers(source.log, here.apply_all(ops).log),
{
    law_pull_unites(here, source, ops);
    let log = here.apply_all(ops).log;
    assert forall|i: int, j: int|
        0 <= i < source.log.len() && 0 <= j < log.len() && (#[trigger] source.log[i]).device == (
        #[trigger] log[j]).device && log[j].seq
            <= source.log[i].seq implies source.log.contains(log[j]) by {
        let o = log[j];
        assert(log.contains(o));
        if here.log.contains(o) {
            let k = choose|k: int| 0 <= k < here.log.len() && here.log[k] == o;
            assert(here.log[k].device == source.log[i].device);
        }
    }
}

/// One sync round: the first replica pulls what it is missing, then pushes
/// what the second is missing; either list may arrive in any order. All of
/// it is accepted. After it both hold the same operations, have the same
/// entries, the same fingerprint and the same version vector, which is the
/// pointwise maximum of those before, and owe each other nothing.
pub proof fn law_sync_round_converges(
    a: Dataset,
    b: Dataset,
    pulled: Seq<OpView>,
    pushed: Seq<OpView>,
)
    requires
        a.consistent(),
        b.consistent(),
        share_histories(a.log, b.log),
        winners_agree(a.log + b.log),
        each_once(pulled, b.ops_since(a.vv)),
        each_once(pushed, a.apply_all(pulled).ops_since(b.vv)),
    ensures
        ({
            let after_a = a.apply_all(pulled);
            let after_b = b.apply_all(pushed);
            &&& same_ops(after_a.log, after_b.log)
            &&& after_a.entries == after_b.entries
            &&& after_a.vv == dataset::pointwise_max(a.vv, b.vv)
            &&& after_b.vv == dataset::pointwise_max(a.vv, b.vv)
            &&& replica::fingerprint(dataset::live(after_a.entries)) == replica::fingerprint(
                dataset::live(after_b.entries),
            )
            &&& after_a.ops_since(after_b.vv).len() == 0
            &&& after_b.ops_since(after_a.vv).len() == 0
        }),
        a.news(pulled) == pulled,
        b.news(pushed) == pushed,
{
    let after_a = a.apply_all(pulled);
    let after_b = b.apply_all(pushed);
    law_pull_unites(a, b, pulled);
    lemma_covers_after_pull(a, b, pulled);
    law_pull_unites(b, after_a, pushed);
    assert(same_ops(after_a.log, after_b.log));
    lemma_winners_of_union(a.log + b.log, after_a.log, a.log, b.log);
    law_same_ops_same_entries(after_a.log, after_b.log);
    law_same_ops_same_version_vector(after_a.log, after_b.log);
    law_nothing_is_missing_at_oneself(after_a);
    law_nothing_is_missing_at_oneself(after_b);
}

/// An exchange without sorting: the first replica's list is applied at the
/// second in the order of the log, then the second's at the first. Every
/// operation is accepted and both end up the same.
pub proof fn law_exchange_in_log_order_converges(a: Dataset, b: Dataset)
    requires
        a.consistent(),
        b.consistent(),
        share_histories(a.log, b.log),
        winners_agree(b.log + a.log),
    ensures
        ({
            let x = a.ops_since(b.vv);
            let after_b = b.apply_all(x);
            let y = after_b.ops_since(a.vv);
            let after_a = a.apply_all(y);
            &&& b.news(x) == x
            &&& a.news(y) == y
            &&& after_a.entries == after_b.entries
            &&& after_a.vv == dataset::pointwise_max(a.vv, b.vv)
            &&& after_b.vv == dataset::pointwise_max(a.vv, b.vv)
            &&& replica::fingerprint(dataset::live(after_a.entries)) == replica::fingerprint(
                dataset::live(after_b.entries),
            )
        }),
{
    let x = a.ops_since(b.vv);
    law_missing_is_what_was_not_seen(a.log, b.vv);
    law_pull_unites(b, a, x);
    law_missing_is_what_was_not_seen(b.apply_all(x).log, a.vv);
    law_sync_round_converges(b, a, x, b.apply_all(x).ops_since(a.vv));
    assert(dataset::pointwise_max(a.vv, b.vv) =~= dataset::pointwise_max(b.vv, a.vv));
}

proof fn lemma_winners_of_union(
    both: Seq<OpView>,
    log: Seq<OpView>,
    a: Seq<OpView>,
    b: Seq<OpView>,
)
    requires
        both == a + b,
        winners_agree(both),
        forall|o: OpView| #[trigger] log.contains(o) <==> a.contains(o) || b.contains(o),
    ensures
        winners_agree(log),
{
    assert forall|o: OpView| #[trigger] log.contains(o) <==> both.contains(o) by {
        lemma_contained_in_either(a, b, o);
    }
    assert forall|i: int, j: int|
        0 <= i < log.len() && 0 <= j < log.len() && (#[trigger] log[i]).entity == (
        #[trigger] log[j]).entity && log[i].hlc == log[j].hlc && log[i].device == log[j].device
            && is_winner(log, log[i].entity, i) implies log[i].entry() == log[j].entry() by {
        assert(log.contains(log[i]) && log.contains(log[j]));
        let k = choose|k: int| 0 <= k < both.len() && both[k] == log[i];
        let m = choose|m: int| 0 <= m < both.len() && both[m] == log[j];
        assert forall|n: int|
            0 <= n < both.len() && (#[trigger] both[n]).entity
                == both[k].entity implies !dataset::stamp_lt(
            both[k].hlc,
            both[k].device,
            both[n].hlc,
            both[n].device,
        ) by {
            assert(both.contains(both[n]));
            assert(log.contains(both[n]));
            let p = choose|p: int| 0 <= p < log.len() && log[p] == both[n];
            assert(log[p].entity == log[i].entity);
        }
        assert(is_winner(both, both[k].entity, k));
        assert(both[k].entry() == both[m].entry());
    }
}

/// A replica owes nothing to a peer that has seen what it has seen.
pub proof fn law_nothing_is_missing_at_oneself(data: Dataset)
    requires
        data.consistent(),
    ensures
        data.ops_since(data.vv).len() == 0,
{
    let ops = data.ops_since(data.vv);
    law_missing_is_what_was_not_seen(data.log, data.vv);
    if ops.len() > 0 {
        assert(ops.contains(ops[0]));
        let k = choose|k: int| 0 <= k < data.log.len() && data.log[k] == ops[0];
        lemma_top_seqs(data.log, ops[0].device);
        assert(data.log[k].seq <= dataset::seen(data.vv, ops[0].device));
    }
}

/// A restart loses nothing: replaying the log into an empty replica rebuilds
/// entries, version vector and log.
pub proof fn law_replay_rebuilds(data: Dataset)
    requires
        data.consistent(),
        numbered(data.log),
    ensures
        Dataset::empty().apply_all(data.log) == data,
        Dataset::empty().news(data.log) == data.log,
{
    let none = Dataset::empty();
    assert(none.log + data.log =~= data.log);
    law_batch_accepts_what_is_news(none, data.log);
}

/// A replica that is started on the log of an earlier run has the data of
/// that run, and its own number is where that run left it: at the last
/// operation of its device.
pub proof fn law_restart_keeps_the_data(
    device: Seq<char>,
    data: Dataset,
    intake: replica::Intake,
    after: ReplicaView,
)
    requires
        data.consistent(),
        numbered(data.log),
        replica::took_in(ReplicaView::fresh(device), data.log, intake, after),
        intake.taken == data.log.len(),
    ensures
        after.data == data,
        after.device == device,
        after.seq == dataset::seen(data.vv, device),
        op::ops_view(intake.accepted@) == data.log,
{
    let fresh = ReplicaView::fresh(device);
    assert(data.log.take(data.log.len() as int) =~= data.log);
    law_replay_rebuilds(data);
    let walls = choose|walls: Seq<u64>|
        walls.len() == intake.taken && after == #[trigger] fresh.run(
            data.log.take(intake.taken as int),
            walls,
        );
    lemma_run(fresh, data.log, walls);
}

/// What arriving operations do to device, own number and data.
pub proof fn lemma_run(before: ReplicaView, ops: Seq<OpView>, walls: Seq<u64>)
    ensures
        before.run(ops, walls).device == before.device,
        before.run(ops, walls).data == before.data.apply_all(ops),
        before.own_current() ==> before.run(ops, walls).own_current(),
        before.seq == dataset::seen(before.data.vv, before.device) ==> before.run(ops, walls).seq
            == dataset::seen(before.run(ops, walls).data.vv, before.device),
    decreases ops.len(),
{
    if ops.len() > 0 {
        lemma_run(before, ops.drop_last(), walls.drop_last());
    }
}

/// A local edit shows: whatever had arrived before, the entity then has the
/// value written, or none after a delete.
pub proof fn law_local_write_wins(
    before: ReplicaView,
    entity: Seq<char>,
    kind: OpKind,
    value: Seq<char>,
    wall: u64,
)
    requires
        before.consistent(),
        clock::tick_fits(before.clock, wall),
    ensures
        ({
            let o = before.local_op(entity, kind, value, wall);
            let after = before.with_own(o);
            &&& after.data.entries == before.data.entries.insert(entity, o.entry())
            &&& kind == OpKind::Upsert ==> dataset::live(after.data.entries) == dataset::live(
                before.data.entries,
            ).insert(entity, value)
            &&& kind == OpKind::Delete ==> dataset::live(after.data.entries) == dataset::live(
                before.data.entries,
            ).remove(entity)
        }),
{
    let o = before.local_op(entity, kind, value, wall);
    let entries = before.data.entries;
    let after = before.with_own(o);
    if entries.contains_key(entity) {
        law_entries_are_the_winners(before.data.log, entity);
        let i = choose|i: int| #[trigger]
            is_first_winner(before.data.log, entity, i) && entries[entity]
                == before.data.log[i].entry();
        assert(!before.clock.before(before.data.log[i].hlc));
        clock::law_tick_advances(before.clock, wall);
    }
    assert(after.data.entries == entries.insert(entity, o.entry()));
    if kind == OpKind::Upsert {
        assert(dataset::live(after.data.entries) =~= dataset::live(entries).insert(entity, value));
    } else {
        assert(dataset::live(after.data.entries) =~= dataset::live(entries).remove(entity));
    }
}

/// The next local edit is later than everything that the replica has seen.
pub proof fn law_local_edits_dominate(before: ReplicaView, wall: u64, i: int)
    requires
        before.consistent(),
        clock::tick_fits(before.clock, wall),
        0 <= i < before.data.log.len(),
    ensures
        before.data.log[i].hlc.before(clock::ticked(before.clock, wall)),
{
    assert(!before.clock.before(before.data.log[i].hlc));
}

/// While the replica's own number is not behind what was seen of its device,
/// a local edit is news here, its number is past every one that was seen of
/// the device, and no number is given twice.
pub proof fn law_local_edits_are_news(
    before: ReplicaView,
    entity: Seq<char>,
    kind: OpKind,
    value: Seq<char>,
    wall: u64,
)
    requires
        before.consistent(),
        before.own_current(),
        before.seq < u64::MAX,
    ensures
        ({
            let o = before.local_op(entity, kind, value, wall);
            let after = before.with_own(o);
            &&& before.data.accepts(o)
            &&& o.seq > dataset::seen(before.data.vv, before.device)
            &&& numbered(before.data.log) ==> numbered(after.data.log)
            &&& dataset::seen(after.data.vv, after.device) == after.seq
        }),
{
    let o = before.local_op(entity, kind, value, wall);
    lemma_top_seqs(before.data.log, before.device);
    if numbered(before.data.log) {
        law_accepted_ops_keep_the_numbers(before.data, o);
    }
}

/// Replicas with the same visible state have the same fingerprint, in
/// whatever order they came by it.
pub proof fn law_same_state_same_fingerprint(
    a: Map<Seq<char>, EntryView>,
    b: Map<Seq<char>, EntryView>,
)
    requires
        forall|entity: Seq<char>| #[trigger]
            dataset::live(a).contains_key(entity) <==> dataset::live(b).contains_key(entity),
        forall|entity: Seq<char>| #[trigger]
            dataset::live(a).contains_key(entity) ==> dataset::live(a)[entity] == dataset::live(
                b,
            )[entity],
    ensures
        replica::fingerprint(dataset::live(a)) == replica::fingerprint(dataset::live(b)),
{
    assert(dataset::live(a) =~= dataset::live(b));
}

} // verus!
