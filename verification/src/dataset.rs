//! The replicated data as mathematics: what the entries are, how an
//! operation changes them, and what one replica still owes another.

use crate::clock::Hlc;
use crate::op::{OpKind, OpView};
use crate::text;
use crate::textmap;
use vstd::prelude::*;

verus! {

/// The current state of one entity: its value, or `None` once deleted, and
/// the stamp of the operation that put it there.
#[verifier::ext_equal]
pub struct EntryView {
    pub value: Option<Seq<char>>,
    pub hlc: Hlc,
    pub device: Seq<char>,
}

impl OpView {
    /// The state in which this operation leaves its entity, where it wins.
    pub open spec fn entry(self) -> EntryView {
        EntryView {
            value: match self.kind {
                OpKind::Upsert => Some(self.value),
                OpKind::Delete => None,
            },
            hlc: self.hlc,
            device: self.device,
        }
    }
}

/// The stamp `(hlc, device)` comes strictly before `(hlc2, device2)`: the
/// clock decides, and the device where the clocks agree.
pub open spec fn stamp_lt(hlc: Hlc, device: Seq<char>, hlc2: Hlc, device2: Seq<char>) -> bool {
    hlc.before(hlc2) || (hlc == hlc2 && text::lex_lt(device, device2))
}

/// The operation takes its entity over from the state `cur`.
pub open spec fn wins(op: OpView, cur: EntryView) -> bool {
    stamp_lt(cur.hlc, cur.device, op.hlc, op.device)
}

/// The entries after the merge of one operation.
pub open spec fn merged(entries: Map<Seq<char>, EntryView>, op: OpView) -> Map<
    Seq<char>,
    EntryView,
> {
    if !entries.contains_key(op.entity) || wins(op, entries[op.entity]) {
        entries.insert(op.entity, op.entry())
    } else {
        entries
    }
}

/// The greatest number of `device` that a version vector covers.
pub open spec fn seen(vv: Map<Seq<char>, u64>, device: Seq<char>) -> u64 {
    if vv.contains_key(device) {
        vv[device]
    } else {
        0
    }
}

/// A version vector that also covers number `seq` of `device`.
pub open spec fn raised(vv: Map<Seq<char>, u64>, device: Seq<char>, seq: u64) -> Map<
    Seq<char>,
    u64,
> {
    vv.insert(
        device,
        if seq > seen(vv, device) {
            seq
        } else {
            seen(vv, device)
        },
    )
}

/// The version vector that covers what either of two covers: of each device
/// the greater number.
pub open spec fn pointwise_max(a: Map<Seq<char>, u64>, b: Map<Seq<char>, u64>) -> Map<
    Seq<char>,
    u64,
> {
    Map::new(
        |device: Seq<char>| a.contains_key(device) || b.contains_key(device),
        |device: Seq<char>|
            if seen(a, device) > seen(b, device) {
                seen(a, device)
            } else {
                seen(b, device)
            },
    )
}

/// The entities that have a value, with it.
pub open spec fn live(entries: Map<Seq<char>, EntryView>) -> Map<Seq<char>, Seq<char>> {
    Map::new(
        |entity: Seq<char>| entries.contains_key(entity) && entries[entity].value is Some,
        |entity: Seq<char>| entries[entity].value->0,
    )
}

/// The live ones of listed entries, each with its value.
pub open spec fn live_pairs(rows: Seq<(Seq<char>, EntryView)>) -> Seq<(Seq<char>, Seq<char>)>
    decreases rows.len(),
{
    if rows.len() == 0 {
        Seq::empty()
    } else {
        match rows.last().1.value {
            Some(value) => live_pairs(rows.drop_last()).push((rows.last().0, value)),
            None => live_pairs(rows.drop_last()),
        }
    }
}

proof fn lemma_live_pairs(rows: Seq<(Seq<char>, EntryView)>)
    requires
        textmap::ascending(rows),
    ensures
        textmap::ascending(live_pairs(rows)),
        forall|i: int|
            0 <= i < live_pairs(rows).len() ==> exists|j: int|
                0 <= j < rows.len() && (#[trigger] rows[j]).0 == (#[trigger] live_pairs(rows)[i]).0
                    && rows[j].1.value == Some(live_pairs(rows)[i].1),
        forall|j: int|
            0 <= j < rows.len() && (#[trigger] rows[j]).1.value is Some ==> exists|i: int|
                0 <= i < live_pairs(rows).len() && (#[trigger] live_pairs(rows)[i]).0 == rows[j].0,
    decreases rows.len(),
{
    if rows.len() > 0 {
        let init = rows.drop_last();
        let n = rows.len() - 1;
        assert forall|i: int, j: int| 0 <= i < j < init.len() implies text::lex_lt(
            (#[trigger] init[i]).0,
            (#[trigger] init[j]).0,
        ) by {
            assert(init[i] == rows[i]);
            assert(init[j] == rows[j]);
        }
        lemma_live_pairs(init);
        let before = live_pairs(init);
        let after = live_pairs(rows);
        assert forall|i: int| 0 <= i < before.len() implies exists|j: int|
            0 <= j < rows.len() && (#[trigger] rows[j]).0 == (#[trigger] before[i]).0
                && rows[j].1.value == Some(before[i].1) && j < n by {
            let j = choose|j: int|
                0 <= j < init.len() && (#[trigger] init[j]).0 == before[i].0 && init[j].1.value
                    == Some(before[i].1);
            assert(rows[j] == init[j]);
        }
        if rows.last().1.value is Some {
            assert(after[before.len() as int].0 == rows[n].0);
            assert forall|i: int, j: int| 0 <= i < j < after.len() implies text::lex_lt(
                (#[trigger] after[i]).0,
                (#[trigger] after[j]).0,
            ) by {
                assert(after[i] == before[i]);
                if j < before.len() {
                    assert(after[j] == before[j]);
                } else {
                    let k = choose|k: int|
                        0 <= k < rows.len() && (#[trigger] rows[k]).0 == before[i].0
                            && rows[k].1.value == Some(before[i].1) && k < n;
                    assert(text::lex_lt(rows[k].0, rows[n].0));
                }
            }
        }
        assert forall|i: int| 0 <= i < after.len() implies exists|j: int|
            0 <= j < rows.len() && (#[trigger] rows[j]).0 == (#[trigger] after[i]).0
                && rows[j].1.value == Some(after[i].1) by {
            if i < before.len() {
                assert(after[i] == before[i]);
            } else {
                assert(rows[n].0 == after[i].0);
            }
        }
        assert forall|j: int|
            0 <= j < rows.len() && (#[trigger] rows[j]).1.value is Some implies exists|i: int|
            0 <= i < after.len() && (#[trigger] after[i]).0 == rows[j].0 by {
            if j < n {
                assert(init[j] == rows[j]);
                let i = choose|i: int| 0 <= i < before.len() && (#[trigger] before[i]).0 == rows[j].0;
                assert(after[i] == before[i]);
            } else {
                assert(after[before.len() as int].0 == rows[n].0);
            }
        }
    }
}

/// The live ones of an ordered listing list the visible state.
pub proof fn lemma_live_listing(
    rows: Seq<(Seq<char>, EntryView)>,
    entries: Map<Seq<char>, EntryView>,
)
    requires
        textmap::is_listing(rows, entries),
    ensures
        textmap::listing(live(entries)) == live_pairs(rows),
        textmap::listable(live(entries)),
{
    lemma_live_pairs(rows);
    let pairs = live_pairs(rows);
    let visible = live(entries);
    assert forall|i: int| 0 <= i < pairs.len() implies visible.contains_key(
        (#[trigger] pairs[i]).0,
    ) && visible[pairs[i].0] == pairs[i].1 by {
        let j = choose|j: int|
            0 <= j < rows.len() && (#[trigger] rows[j]).0 == pairs[i].0 && rows[j].1.value == Some(
                pairs[i].1,
            );
        assert(entries.contains_key(rows[j].0));
    }
    assert forall|entity: Seq<char>| #[trigger] visible.contains_key(entity) implies exists|i: int|
        0 <= i < pairs.len() && (#[trigger] pairs[i]).0 == entity by {
        assert(entries.contains_key(entity));
        let j = choose|j: int| 0 <= j < rows.len() && (#[trigger] rows[j]).0 == entity;
        assert(rows[j].1.value is Some);
    }
    textmap::lemma_listing_is(pairs, visible);
}

/// The operations of `log` that a version vector does not cover, in order.
pub open spec fn ops_beyond(log: Seq<OpView>, vv: Map<Seq<char>, u64>) -> Seq<OpView> {
    log.filter(|op: OpView| op.seq > seen(vv, op.device))
}

/// The data of a replica: its entries, the version vector, and every
/// operation that it has accepted, in order.
#[verifier::ext_equal]
pub struct Dataset {
    pub entries: Map<Seq<char>, EntryView>,
    pub vv: Map<Seq<char>, u64>,
    pub log: Seq<OpView>,
}

/// The entries that the operations of a log leave when merged in order.
pub open spec fn replayed(log: Seq<OpView>) -> Map<Seq<char>, EntryView>
    decreases log.len(),
{
    if log.len() == 0 {
        Map::empty()
    } else {
        merged(replayed(log.drop_last()), log.last())
    }
}

/// For each device of a log, the greatest number of an operation there.
pub open spec fn top_seqs(log: Seq<OpView>) -> Map<Seq<char>, u64>
    decreases log.len(),
{
    if log.len() == 0 {
        Map::empty()
    } else {
        raised(top_seqs(log.drop_last()), log.last().device, log.last().seq)
    }
}

impl Dataset {
    /// Entries and version vector are those of the log.
    pub open spec fn consistent(self) -> bool {
        self.entries == replayed(self.log) && self.vv == top_seqs(self.log)
    }

    pub open spec fn empty() -> Dataset {
        Dataset { entries: Map::empty(), vv: Map::empty(), log: Seq::empty() }
    }

    /// The operation is news: no operation of its device with its number has
    /// been taken in. Numbers start at one.
    pub open spec fn accepts(self, op: OpView) -> bool {
        &&& op.seq > 0
        &&& forall|i: int|
            0 <= i < self.log.len() ==> !((#[trigger] self.log[i]).device == op.device
                && self.log[i].seq == op.seq)
    }

    /// The version vector covers every operation of the log.
    pub open spec fn covered(self) -> bool {
        forall|i: int|
            0 <= i < self.log.len() ==> (#[trigger] self.log[i]).seq <= seen(
                self.vv,
                self.log[i].device,
            )
    }

    /// The data with one more operation taken in.
    pub open spec fn with(self, op: OpView) -> Dataset {
        Dataset {
            entries: merged(self.entries, op),
            vv: raised(self.vv, op.device, op.seq),
            log: self.log.push(op),
        }
    }

    /// The data after an operation has arrived.
    pub open spec fn apply(self, op: OpView) -> Dataset {
        if self.accepts(op) {
            self.with(op)
        } else {
            self
        }
    }

    /// The data after operations have arrived one by one.
    pub open spec fn apply_all(self, ops: Seq<OpView>) -> Dataset
        decreases ops.len(),
    {
        if ops.len() == 0 {
            self
        } else {
            self.apply_all(ops.drop_last()).apply(ops.last())
        }
    }

    /// Those of the arriving operations that are accepted.
    pub open spec fn news(self, ops: Seq<OpView>) -> Seq<OpView>
        decreases ops.len(),
    {
        if ops.len() == 0 {
            Seq::empty()
        } else if self.apply_all(ops.drop_last()).accepts(ops.last()) {
            self.news(ops.drop_last()).push(ops.last())
        } else {
            self.news(ops.drop_last())
        }
    }

    /// The operations that a peer with version vector `vv` is missing.
    pub open spec fn ops_since(self, vv: Map<Seq<char>, u64>) -> Seq<OpView> {
        ops_beyond(self.log, vv)
    }
}

pub proof fn lemma_with_keeps_consistent(data: Dataset, op: OpView)
    ensures
        data.consistent() ==> data.with(op).consistent(),
{
    assert(data.log.push(op).drop_last() =~= data.log);
}

pub proof fn lemma_with_keeps_covered(data: Dataset, op: OpView)
    ensures
        data.covered() ==> data.with(op).covered(),
{
    if data.covered() {
        let after = data.with(op);
        assert forall|i: int| 0 <= i < after.log.len() implies (#[trigger] after.log[i]).seq
            <= seen(after.vv, after.log[i].device) by {
            if i < data.log.len() {
                assert(after.log[i] == data.log[i]);
            }
        }
    }
}

/// Where an operation wins, its entity has the value that it carries, or
/// none if it deletes, under the operation's own stamp.
pub proof fn law_entries_carry_what_was_written(op: OpView)
    ensures
        op.kind == OpKind::Upsert ==> op.entry().value == Some(op.value),
        op.kind == OpKind::Delete ==> op.entry().value is None,
        op.entry().hlc == op.hlc,
        op.entry().device == op.device,
{
}

/// The later clock wins, whatever the devices; at the same reading the
/// device that comes later in the order of strings does.
pub proof fn law_the_later_stamp_wins(op: OpView, cur: EntryView)
    ensures
        op.hlc.time > cur.hlc.time ==> wins(op, cur),
        op.hlc.time < cur.hlc.time ==> !wins(op, cur),
        op.hlc.time == cur.hlc.time && op.hlc.counter > cur.hlc.counter ==> wins(op, cur),
        op.hlc.time == cur.hlc.time && op.hlc.counter < cur.hlc.counter ==> !wins(op, cur),
        op.hlc.time == cur.hlc.time && op.hlc.counter == cur.hlc.counter ==> (wins(op, cur)
            <==> text::lex_lt(cur.device, op.device)),
{
}

/// A merge touches one entity only. An entity that was not there takes what
/// the operation says; one that was there takes it exactly if the operation
/// wins, and else keeps what it has.
pub proof fn law_a_merge_touches_one_entity(
    entries: Map<Seq<char>, EntryView>,
    op: OpView,
    entity: Seq<char>,
)
    ensures
        merged(entries, op).contains_key(op.entity),
        entity != op.entity ==> (merged(entries, op).contains_key(entity) <==> entries.contains_key(
            entity,
        )),
        entity != op.entity && entries.contains_key(entity) ==> merged(entries, op)[entity]
            == entries[entity],
        !entries.contains_key(op.entity) ==> merged(entries, op)[op.entity] == op.entry(),
        entries.contains_key(op.entity) && wins(op, entries[op.entity]) ==> merged(
            entries,
            op,
        )[op.entity] == op.entry(),
        entries.contains_key(op.entity) && !wins(op, entries[op.entity]) ==> merged(
            entries,
            op,
        )[op.entity] == entries[op.entity],
{
}

/// An entity is visible with a value exactly if its entry has that value.
pub proof fn law_visible_is_what_has_a_value(
    entries: Map<Seq<char>, EntryView>,
    entity: Seq<char>,
    value: Seq<char>,
)
    ensures
        live(entries).contains_key(entity) && live(entries)[entity] == value
            <==> entries.contains_key(entity) && entries[entity].value == Some(value),
        live(entries).contains_key(entity) ==> entries.contains_key(entity)
            && entries[entity].value is Some,
{
}

/// A version vector that is raised covers the new number too, and nothing
/// else changes.
pub proof fn law_raising_covers_one_more(
    vv: Map<Seq<char>, u64>,
    device: Seq<char>,
    seq: u64,
    other: Seq<char>,
)
    ensures
        seen(Map::empty(), other) == 0,
        vv.contains_key(other) ==> seen(vv, other) == vv[other],
        !vv.contains_key(other) ==> seen(vv, other) == 0,
        raised(vv, device, seq).contains_key(device),
        seen(raised(vv, device, seq), device) >= seq,
        seen(raised(vv, device, seq), device) >= seen(vv, device),
        seen(raised(vv, device, seq), device) == seq || seen(raised(vv, device, seq), device)
            == seen(vv, device),
        other != device ==> seen(raised(vv, device, seq), other) == seen(vv, other) && (raised(
            vv,
            device,
            seq,
        ).contains_key(other) <==> vv.contains_key(other)),
{
}

/// The maximum of two version vectors covers exactly what one of them does.
pub proof fn law_the_maximum_covers_what_either_does(
    a: Map<Seq<char>, u64>,
    b: Map<Seq<char>, u64>,
    device: Seq<char>,
    seq: u64,
)
    ensures
        seq <= seen(pointwise_max(a, b), device) <==> seq <= seen(a, device) || seq <= seen(
            b,
            device,
        ),
        pointwise_max(a, b).contains_key(device) <==> a.contains_key(device) || b.contains_key(
            device,
        ),
{
}

/// What a peer is missing of two stretches of log is what it is missing of
/// the one and then of the other; and of one operation it is missing that
/// one exactly if its number is past what the peer has seen of the device.
pub proof fn law_missing_is_told_op_by_op(
    a: Seq<OpView>,
    b: Seq<OpView>,
    vv: Map<Seq<char>, u64>,
    op: OpView,
)
    ensures
        ops_beyond(a + b, vv) == ops_beyond(a, vv) + ops_beyond(b, vv),
        vv.contains_key(op.device) && op.seq <= vv[op.device] ==> ops_beyond(seq![op], vv)
            == Seq::<OpView>::empty(),
        vv.contains_key(op.device) && op.seq > vv[op.device] ==> ops_beyond(seq![op], vv)
            == seq![op],
        !vv.contains_key(op.device) && op.seq > 0 ==> ops_beyond(seq![op], vv) == seq![op],
        op.seq == 0 ==> ops_beyond(seq![op], vv) == Seq::<OpView>::empty(),
    decreases b.len(),
{
    reveal(Seq::filter);
    assert(seq![op].drop_last() =~= Seq::<OpView>::empty());
    assert(ops_beyond(seq![op].drop_last(), vv) =~= Seq::<OpView>::empty());
    assert(ops_beyond(seq![op], vv) =~= if op.seq > seen(vv, op.device) {
        seq![op]
    } else {
        Seq::<OpView>::empty()
    });
    if b.len() == 0 {
        assert(a + b =~= a);
        assert(ops_beyond(b, vv) =~= Seq::<OpView>::empty());
        assert(ops_beyond(a, vv) + ops_beyond(b, vv) =~= ops_beyond(a, vv));
    } else {
        law_missing_is_told_op_by_op(a, b.drop_last(), vv, op);
        assert((a + b).drop_last() =~= a + b.drop_last());
        assert((a + b).last() == b.last());
        assert(ops_beyond(a + b, vv) =~= ops_beyond(a, vv) + ops_beyond(b, vv));
    }
}

/// An operation is refused exactly if its number is zero or the log holds
/// one of its device with its number; taking it in puts it at the end of the
/// log, raises the version vector for its device and merges it.
pub proof fn law_what_arrival_does(data: Dataset, op: OpView, held: OpView)
    ensures
        op.seq == 0 ==> !data.accepts(op),
        data.log.contains(held) && held.device == op.device && held.seq == op.seq
            ==> !data.accepts(op),
        !data.accepts(op) ==> data.apply(op) == data,
        !data.accepts(op) && op.seq > 0 ==> exists|i: int|
            0 <= i < data.log.len() && (#[trigger] data.log[i]).device == op.device
                && data.log[i].seq == op.seq,
        data.accepts(op) ==> {
            &&& data.apply(op).log == data.log.push(op)
            &&& data.apply(op).entries == merged(data.entries, op)
            &&& data.apply(op).vv == raised(data.vv, op.device, op.seq)
        },
        data.with(op).log == data.log.push(op),
        data.with(op).entries == merged(data.entries, op),
        data.with(op).vv == raised(data.vv, op.device, op.seq),
{
    if data.log.contains(held) && held.device == op.device && held.seq == op.seq {
        let i = choose|i: int| 0 <= i < data.log.len() && data.log[i] == held;
        assert(data.log[i].device == op.device);
    }
}

/// Operations that arrive in two batches do what they do in one, and a batch
/// of one does what its operation does.
pub proof fn law_batches_are_their_operations(
    data: Dataset,
    a: Seq<OpView>,
    b: Seq<OpView>,
    op: OpView,
)
    ensures
        data.apply_all(a + b) == data.apply_all(a).apply_all(b),
        data.news(a + b) == data.news(a) + data.apply_all(a).news(b),
        data.apply_all(seq![op]) == data.apply(op),
        data.accepts(op) ==> data.news(seq![op]) == seq![op],
        !data.accepts(op) ==> data.news(seq![op]) == Seq::<OpView>::empty(),
        data.apply_all(Seq::empty()) == data,
    decreases b.len(),
{
    assert(seq![op].drop_last() =~= Seq::<OpView>::empty());
    assert(data.apply_all(seq![op].drop_last()) == data);
    assert(data.news(seq![op].drop_last()) =~= Seq::<OpView>::empty());
    assert(data.news(seq![op]) =~= if data.accepts(op) {
        seq![op]
    } else {
        Seq::<OpView>::empty()
    });
    if b.len() == 0 {
        assert(a + b =~= a);
        assert(data.news(a) + data.apply_all(a).news(b) =~= data.news(a));
    } else {
        let init = b.drop_last();
        law_batches_are_their_operations(data, a, init, op);
        assert((a + b).drop_last() =~= a + init);
        assert((a + b).last() == b.last());
        assert(data.news(a + b) =~= data.news(a) + data.apply_all(a).news(b));
    }
}

/// The entries and the version vector of a log with one more operation are
/// those of the log with that operation taken in; an empty log has none.
pub proof fn law_logs_grow_at_the_end(log: Seq<OpView>, op: OpView)
    ensures
        replayed(log.push(op)) == merged(replayed(log), op),
        top_seqs(log.push(op)) == raised(top_seqs(log), op.device, op.seq),
        replayed(Seq::empty()) == Map::<Seq<char>, EntryView>::empty(),
        top_seqs(Seq::empty()) == Map::<Seq<char>, u64>::empty(),
{
    assert(log.push(op).drop_last() =~= log);
}

/// A new replica's data is empty in every part.
pub proof fn law_empty_holds_nothing(entity: Seq<char>, op: OpView)
    ensures
        !Dataset::empty().entries.contains_key(entity),
        !Dataset::empty().vv.contains_key(entity),
        Dataset::empty().log.len() == 0,
        op.seq > 0 ==> Dataset::empty().accepts(op),
{
}

/// A replica owes a peer those operations of its log, and no others, whose
/// numbers are past what the peer has seen of their devices.
pub proof fn law_owed_is_the_missing_part_of_the_log(
    data: Dataset,
    vv: Map<Seq<char>, u64>,
    o: OpView,
)
    ensures
        data.ops_since(vv) == ops_beyond(data.log, vv),
        data.ops_since(vv).len() <= data.log.len(),
        data.ops_since(vv).contains(o) <==> data.log.contains(o) && o.seq > seen(vv, o.device),
{
    lemma_beyond_is_the_missing_part(data.log, vv, o);
}

proof fn lemma_beyond_is_the_missing_part(log: Seq<OpView>, vv: Map<Seq<char>, u64>, o: OpView)
    ensures
        ops_beyond(log, vv).len() <= log.len(),
        ops_beyond(log, vv).contains(o) <==> log.contains(o) && o.seq > seen(vv, o.device),
    decreases log.len(),
{
    reveal(Seq::filter);
    if log.len() > 0 {
        let init = log.drop_last();
        let last = log.last();
        lemma_beyond_is_the_missing_part(init, vv, o);
        assert(log =~= init.push(last));
        broadcast use vstd::seq_lib::group_seq_properties;
        assert(log.contains(o) <==> init.contains(o) || o == last);
        if last.seq > seen(vv, last.device) {
            assert(ops_beyond(log, vv) =~= ops_beyond(init, vv).push(last));
        } else {
            assert(ops_beyond(log, vv) =~= ops_beyond(init, vv));
        }
    }
}

} // verus!
