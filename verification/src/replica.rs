//! One dataset on one device: a last-writer-wins register per entity.
//!
//! Two edits of the same entity are told apart by their stamps, a hybrid
//! logical clock reading and the device that took it. The device is part of
//! the comparison because two devices may read the same clock: with it the
//! order is total, so every replica picks the same winner whatever the order
//! in which operations reach it.

use crate::clock;
use crate::clock::{now_millis, Hlc};
use crate::dataset;
use crate::dataset::{Dataset, EntryView};
use crate::op;
use crate::op::{Op, OpKind, OpView};
use crate::text;
use crate::textmap;
use crate::textmap::TextMap;
use std::collections::hash_map::DefaultHasher;
use std::hash::{Hash, Hasher};
use vstd::prelude::*;

verus! {

/// For each device, the greatest number seen of it.
pub type VersionVector = TextMap<u64>;

/// The state of one entity.
struct Entry {
    value: Option<String>,
    hlc: Hlc,
    device: String,
}

impl View for Entry {
    type V = EntryView;

    closed spec fn view(&self) -> EntryView {
        EntryView {
            value: match self.value {
                Some(text) => Some(text@),
                None => None,
            },
            hlc: self.hlc,
            device: self.device@,
        }
    }
}

/// An entity that has a value.
#[derive(Debug)]
pub struct LiveEntry {
    pub entity: String,
    pub value: String,
}

impl View for LiveEntry {
    type V = (Seq<char>, Seq<char>);

    open spec fn view(&self) -> (Seq<char>, Seq<char>) {
        (self.entity@, self.value@)
    }
}

/// Live entities, each as the views of its name and value.
pub open spec fn live_rows(rows: Seq<LiveEntry>) -> Seq<(Seq<char>, Seq<char>)> {
    rows.map_values(|row: LiveEntry| row@)
}

/// The data of a replica. The version vector covers the log, so that only
/// an operation with a number that was passed has to be looked for there.
struct Store {
    entries: TextMap<Entry>,
    vv: VersionVector,
    log: Vec<Op>,
}

impl View for Store {
    type V = Dataset;

    closed spec fn view(&self) -> Dataset {
        Dataset { entries: self.entries@, vv: self.vv@, log: op::ops_view(self.log@) }
    }
}

/// The greatest number seen of `device`.
fn last_seen(vv: &VersionVector, device: &str) -> (last: u64)
    ensures
        last == dataset::seen(vv@, device@),
{
    match vv.get(device) {
        Some(last) => *last,
        None => 0,
    }
}

/// Lets `op` have its entity where its stamp wins.
fn merge_entry(entries: &mut TextMap<Entry>, op: &Op)
    ensures
        final(entries)@ == dataset::merged(old(entries)@, op@),
{
    let winner = match entries.get(op.entity.as_str()) {
        Some(cur) => {
            op.hlc.time > cur.hlc.time || (op.hlc.time == cur.hlc.time && (op.hlc.counter
                > cur.hlc.counter || (op.hlc.counter == cur.hlc.counter && text::text_lt(
                cur.device.as_str(),
                op.device.as_str(),
            ))))
        },
        None => true,
    };
    if winner {
        let value = match op.kind {
            OpKind::Upsert => Some(op.value.clone()),
            OpKind::Delete => None,
        };
        let entry = Entry { value, hlc: op.hlc, device: op.device.clone() };
        assert(entry@ =~= op@.entry());
        entries.insert(op.entity.clone(), entry);
    }
}

impl Store {
    #[verifier::type_invariant]
    spec fn log_is_covered(self) -> bool {
        self@.covered()
    }

    fn new() -> (store: Self)
        ensures
            store@ == Dataset::empty(),
    {
        let store = Store { entries: TextMap::new(), vv: TextMap::new(), log: Vec::new() };
        assert(store@ =~= Dataset::empty());
        store
    }

    /// Whether `op` is news.
    fn accepts(&self, op: &Op) -> (news: bool)
        ensures
            news == self@.accepts(op@),
    {
        proof {
            use_type_invariant(self);
        }
        let ghost log = self@.log;
        if op.seq == 0 {
            return false;
        }
        if op.seq > last_seen(&self.vv, op.device.as_str()) {
            return true;
        }
        let mut i: usize = 0;
        while i < self.log.len()
            invariant
                i <= self.log.len(),
                log == self@.log,
                log == op::ops_view(self.log@),
                op.seq > 0,
                forall|j: int|
                    0 <= j < i ==> !((#[trigger] log[j]).device == op@.device && log[j].seq
                        == op@.seq),
            decreases self.log.len() - i,
        {
            let held = &self.log[i];
            assert(log[i as int] == held@);
            if held.seq == op.seq && text::same_text(held.device.as_str(), op.device.as_str()) {
                return false;
            }
            i += 1;
        }
        true
    }

    /// Takes `op` in.
    fn take(&mut self, op: Op)
        ensures
            final(self)@ == old(self)@.with(op@),
    {
        proof {
            use_type_invariant(&*self);
            dataset::lemma_with_keeps_covered(self@, op@);
        }
        let ghost view = op@;
        let mut log: Vec<Op> = Vec::new();
        std::mem::swap(&mut log, &mut self.log);
        let ghost before = log@;
        let mut entries: TextMap<Entry> = TextMap::new();
        std::mem::swap(&mut entries, &mut self.entries);
        merge_entry(&mut entries, &op);
        self.entries = entries;
        let mut vv: VersionVector = TextMap::new();
        std::mem::swap(&mut vv, &mut self.vv);
        let last = last_seen(&vv, op.device.as_str());
        let top: u64 = if op.seq > last { op.seq } else { last };
        vv.insert(op.device.clone(), top);
        self.vv = vv;
        log.push(op);
        assert(op::ops_view(log@) =~= op::ops_view(before).push(view));
        self.log = log;
        assert(self@ =~= old(self)@.with(view));
    }
}

/// One independent replicated dataset.
pub struct Replica {
    pub device: String,
    seq: u64,
    clock: Hlc,
    store: Store,
}

/// What a replica is: the device it stands for, the number of its last own
/// operation, its clock and its data.
#[verifier::ext_equal]
pub struct ReplicaView {
    pub device: Seq<char>,
    pub seq: u64,
    pub clock: Hlc,
    pub data: Dataset,
}

impl View for Replica {
    type V = ReplicaView;

    closed spec fn view(&self) -> ReplicaView {
        ReplicaView {
            device: self.device@,
            seq: self.seq,
            clock: self.clock,
            data: self.store@,
        }
    }
}

impl ReplicaView {
    /// A replica that has seen nothing.
    pub open spec fn fresh(device: Seq<char>) -> ReplicaView {
        ReplicaView { device, seq: 0, clock: Hlc::zero(), data: Dataset::empty() }
    }

    /// The replica after `op` has arrived at wall time `wall`. Its own number
    /// is never behind an operation of its own device: those come back to it
    /// when it is restarted.
    pub open spec fn apply_at(self, op: OpView, wall: u64) -> ReplicaView {
        if self.data.accepts(op) {
            ReplicaView {
                seq: if op.device == self.device && op.seq > self.seq {
                    op.seq
                } else {
                    self.seq
                },
                clock: clock::observed(self.clock, op.hlc, wall),
                data: self.data.with(op),
                ..self
            }
        } else {
            self
        }
    }

    /// The operation that a local edit at wall time `wall` makes.
    pub open spec fn local_op(
        self,
        entity: Seq<char>,
        kind: OpKind,
        value: Seq<char>,
        wall: u64,
    ) -> OpView {
        OpView {
            device: self.device,
            seq: (self.seq + 1) as u64,
            entity,
            kind,
            value,
            hlc: clock::ticked(self.clock, wall),
        }
    }

    /// The replica after it has made `op` itself.
    pub open spec fn with_own(self, op: OpView) -> ReplicaView {
        ReplicaView { seq: op.seq, clock: op.hlc, data: self.data.with(op), ..self }
    }

    /// The replica's own number is not behind what was seen of its device.
    pub open spec fn own_current(self) -> bool {
        dataset::seen(self.data.vv, self.device) <= self.seq
    }

    /// The data is what the log says, and nothing in the log is ahead of the
    /// clock.
    pub open spec fn consistent(self) -> bool {
        &&& self.data.consistent()
        &&& forall|i: int|
            0 <= i < self.data.log.len() ==> !self.clock.before((#[trigger] self.data.log[i]).hlc)
    }

    /// The replica after operations have arrived one by one, each at its own
    /// wall time.
    pub open spec fn run(self, ops: Seq<OpView>, walls: Seq<u64>) -> ReplicaView
        decreases ops.len(),
    {
        if ops.len() == 0 {
            self
        } else {
            self.run(ops.drop_last(), walls.drop_last()).apply_at(ops.last(), walls.last())
        }
    }

    /// There is a counter and a number left for a local edit at any time.
    pub open spec fn can_change(self) -> bool {
        self.seq < u64::MAX && self.clock.counter < u32::MAX
    }

    /// `op` can arrive at any time: it is old, or the clock admits it.
    pub open spec fn can_apply(self, op: OpView) -> bool {
        self.data.accepts(op) ==> clock::admits(self.clock, op.hlc)
    }
}

/// The outcome of a batch of arriving operations: those that were accepted,
/// and how many were dealt with before the batch ended or had to stop.
pub struct Intake {
    pub accepted: Vec<Op>,
    pub taken: usize,
}

/// No counter of the clock or of an arriving operation is above `c`.
pub open spec fn bounded_by(clock: Hlc, arrival: Seq<OpView>, c: u32) -> bool {
    &&& clock.counter <= c
    &&& forall|i: int| 0 <= i < arrival.len() ==> (#[trigger] arrival[i]).hlc.counter <= c
}

/// `intake` is what became of `arrival` at a replica that went from `before`
/// to `after`: the first `taken` operations arrived one by one, and the next
/// one, if there is one, is one that the clock does not admit at every time. A batch whose
/// counters leave room for its length is dealt with whole.
pub open spec fn took_in(
    before: ReplicaView,
    arrival: Seq<OpView>,
    intake: Intake,
    after: ReplicaView,
) -> bool {
    let n = intake.taken as int;
    &&& n <= arrival.len()
    &&& op::ops_view(intake.accepted@) == before.data.news(arrival.take(n))
    &&& after.data == before.data.apply_all(arrival.take(n))
    &&& exists|walls: Seq<u64>|
        walls.len() == n && after == #[trigger] before.run(arrival.take(n), walls)
    &&& n < arrival.len() ==> !after.can_apply(arrival[n])
    &&& forall|c: u32| #[trigger]
        bounded_by(before.clock, arrival, c) && c + arrival.len() <= u32::MAX ==> n
            == arrival.len()
}

/// `intake` is what became of `arrival`, sorted by device and then by number,
/// at a replica that went from `before` to `after`.
pub open spec fn absorbed(
    before: ReplicaView,
    arrival: Seq<OpView>,
    intake: Intake,
    after: ReplicaView,
) -> bool {
    exists|arranged: Seq<OpView>|
        op::is_arrangement(arrival, arranged) && #[trigger] took_in(before, arranged, intake, after)
}

/// What `std::hash::Hash::hash` of a string writes to a hasher.
pub uninterp spec fn hash_writes(s: Seq<char>) -> Seq<Seq<u8>>;

/// Feeds a string to a hasher. Calls `std::hash::Hash::hash` for `String`;
/// the contract claims that it appends to what the hasher was fed a list of
/// writes that the characters alone decide.
#[verifier::external_body]
fn hash_text(s: &String, hasher: &mut DefaultHasher)
    ensures
        final(hasher)@ == old(hasher)@ + hash_writes(s@),
{
    s.hash(hasher);
}

/// What is hashed for a list of live entities: name and value of each.
pub open spec fn hash_input(rows: Seq<(Seq<char>, Seq<char>)>) -> Seq<Seq<u8>>
    decreases rows.len(),
{
    if rows.len() == 0 {
        Seq::empty()
    } else {
        hash_input(rows.drop_last()) + hash_writes(rows.last().0) + hash_writes(rows.last().1)
    }
}

/// The fingerprint of a visible state: the hash of its live entities in the
/// order of their names.
pub open spec fn fingerprint(visible: Map<Seq<char>, Seq<char>>) -> u64 {
    <DefaultHasher as vstd::std_specs::hash::DefaultHasherAdditionalSpecFns>::spec_finish(
        hash_input(textmap::listing(visible)),
    )
}

impl Replica {
    /// A replica that has seen nothing.
    pub fn new(device: String) -> (replica: Self)
        ensures
            replica@ == ReplicaView::fresh(device@),
            replica@.consistent(),
            replica@.own_current(),
    {
        let replica = Replica {
            device,
            seq: 0,
            clock: Hlc { time: 0, counter: 0 },
            store: Store::new(),
        };
        assert(replica@ =~= ReplicaView::fresh(device@));
        replica
    }

    /// The device that this replica stands for.
    pub fn device_id(&self) -> (id: String)
        ensures
            id@ == self@.device,
    {
        self.device.clone()
    }

    /// Advances the clock for a local edit at wall time `wall`.
    pub fn tick(&mut self, wall: u64) -> (reading: Hlc)
        requires
            clock::tick_fits(old(self)@.clock, wall),
        ensures
            reading == clock::ticked(old(self)@.clock, wall),
            final(self)@ == (ReplicaView { clock: reading, ..old(self)@ }),
            old(self)@.clock.before(reading),
    {
        if wall > self.clock.time {
            self.clock = Hlc { time: wall, counter: 0 };
        } else {
            self.clock = Hlc { time: self.clock.time, counter: self.clock.counter + 1 };
        }
        self.clock
    }

    /// Takes in the clock reading of an operation that arrived at wall time
    /// `wall`, so that the local clock never falls behind what it has seen.
    pub fn observe(&mut self, other: Hlc, wall: u64)
        requires
            clock::observe_fits(old(self)@.clock, other, wall),
        ensures
            final(self)@ == (ReplicaView {
                clock: clock::observed(old(self)@.clock, other, wall),
                ..old(self)@
            }),
            other.before(final(self)@.clock),
            !final(self)@.clock.before(old(self)@.clock),
    {
        if other.time > self.clock.time && other.time >= wall {
            self.clock = Hlc { time: other.time, counter: other.counter + 1 };
        } else if other.time == self.clock.time {
            let counter: u32 = if self.clock.counter >= other.counter {
                self.clock.counter
            } else {
                other.counter
            };
            self.clock = Hlc { time: self.clock.time, counter: counter + 1 };
        } else if wall > self.clock.time {
            self.clock = Hlc { time: wall, counter: 0 };
        }
    }

    /// Whether a local edit can be made whatever the wall clock says.
    pub fn can_change(&self) -> (yes: bool)
        ensures
            yes == self@.can_change(),
    {
        self.seq < u64::MAX && self.clock.counter < u32::MAX
    }

    /// A local edit: makes the operation for it, takes it in and returns it.
    pub fn local_change(&mut self, entity: &str, kind: OpKind, value: &str) -> (op: Op)
        requires
            old(self)@.can_change(),
        ensures
            exists|wall: u64|
                op@ == #[trigger] old(self)@.local_op(entity@, kind, value@, wall),
            final(self)@ == old(self)@.with_own(op@),
            old(self)@.consistent() ==> final(self)@.consistent(),
            old(self)@.own_current() ==> final(self)@.own_current(),
    {
        self.local_change_at(entity, kind, value, now_millis())
    }

    /// A local edit at wall time `wall`.
    pub fn local_change_at(&mut self, entity: &str, kind: OpKind, value: &str, wall: u64) -> (op:
        Op)
        requires
            old(self)@.seq < u64::MAX,
            clock::tick_fits(old(self)@.clock, wall),
        ensures
            op@ == old(self)@.local_op(entity@, kind, value@, wall),
            final(self)@ == old(self)@.with_own(op@),
            old(self)@.consistent() ==> final(self)@.consistent(),
            old(self)@.own_current() ==> final(self)@.own_current(),
    {
        self.seq = self.seq + 1;
        let hlc = self.tick(wall);
        let op = Op {
            device: self.device.clone(),
            seq: self.seq,
            entity: entity.to_owned(),
            kind,
            value: value.to_owned(),
            hlc,
        };
        self.store.take(op.clone());
        assert(self@ =~= old(self)@.with_own(op@));
        proof {
            dataset::lemma_with_keeps_consistent(old(self)@.data, op@);
        }
        op
    }

    /// A local edit at wall time `wall`, or `None` where there is no number or
    /// no counter left for it, and then the replica is left as it was.
    pub fn offer_change_at(&mut self, entity: &str, kind: OpKind, value: &str, wall: u64) -> (op:
        Option<Op>)
        ensures
            op is None <==> old(self)@.seq == u64::MAX || !clock::tick_fits(
                old(self)@.clock,
                wall,
            ),
            match op {
                Some(o) => o@ == old(self)@.local_op(entity@, kind, value@, wall) && final(self)@
                    == old(self)@.with_own(o@),
                None => final(self)@ == old(self)@,
            },
            old(self)@.consistent() ==> final(self)@.consistent(),
            old(self)@.own_current() ==> final(self)@.own_current(),
    {
        if self.seq == u64::MAX || (wall <= self.clock.time && self.clock.counter == u32::MAX) {
            None
        } else {
            Some(self.local_change_at(entity, kind, value, wall))
        }
    }

    /// Whether `op` can arrive whatever the wall clock says.
    pub fn can_apply(&self, op: &Op) -> (yes: bool)
        ensures
            yes == self@.can_apply(op@),
    {
        if !self.store.accepts(op) {
            true
        } else if op.hlc.time > self.clock.time {
            op.hlc.counter < u32::MAX
        } else if op.hlc.time == self.clock.time {
            self.clock.counter < u32::MAX && op.hlc.counter < u32::MAX
        } else {
            true
        }
    }

    /// The merge rule: takes `op` in unless it was seen, and says whether it
    /// was taken in.
    pub fn apply(&mut self, op: Op) -> (applied: bool)
        requires
            old(self)@.can_apply(op@),
        ensures
            applied == old(self)@.data.accepts(op@),
            final(self)@.data == old(self)@.data.apply(op@),
            exists|wall: u64| final(self)@ == #[trigger] old(self)@.apply_at(op@, wall),
            old(self)@.consistent() ==> final(self)@.consistent(),
            old(self)@.own_current() ==> final(self)@.own_current(),
    {
        let ghost view = op@;
        let wall = now_millis();
        let applied = self.apply_at(op, wall);
        assert(self@ == old(self)@.apply_at(view, wall));
        applied
    }

    /// The merge rule at wall time `wall`.
    pub fn apply_at(&mut self, op: Op, wall: u64) -> (applied: bool)
        requires
            old(self)@.data.accepts(op@) ==> clock::observe_fits(
                old(self)@.clock,
                op@.hlc,
                wall,
            ),
        ensures
            applied == old(self)@.data.accepts(op@),
            final(self)@ == old(self)@.apply_at(op@, wall),
            old(self)@.consistent() ==> final(self)@.consistent(),
            old(self)@.own_current() ==> final(self)@.own_current(),
    {
        if !self.store.accepts(&op) {
            return false;
        }
        self.take_in_at(op, wall);
        true
    }

    /// Takes in an operation that is news, at wall time `wall`.
    fn take_in_at(&mut self, op: Op, wall: u64)
        requires
            old(self)@.data.accepts(op@),
            clock::observe_fits(old(self)@.clock, op@.hlc, wall),
        ensures
            final(self)@ == old(self)@.apply_at(op@, wall),
            old(self)@.consistent() ==> final(self)@.consistent(),
            old(self)@.own_current() ==> final(self)@.own_current(),
    {
        let ghost view = op@;
        self.observe(op.hlc, wall);
        if op.seq > self.seq && text::same_text(op.device.as_str(), self.device.as_str()) {
            self.seq = op.seq;
        }
        self.store.take(op);
        assert(self@ =~= old(self)@.apply_at(view, wall));
        proof {
            dataset::lemma_with_keeps_consistent(old(self)@.data, view);
        }
    }

    /// The merge rule at wall time `wall` for an operation of unknown origin:
    /// says whether it was taken in, or `None` where the clock has no counter
    /// left for it, and then leaves the replica as it was.
    pub fn offer_at(&mut self, op: Op, wall: u64) -> (outcome: Option<bool>)
        ensures
            outcome is None <==> old(self)@.data.accepts(op@) && !clock::observe_fits(
                old(self)@.clock,
                op@.hlc,
                wall,
            ),
            match outcome {
                Some(applied) => applied == old(self)@.data.accepts(op@) && final(self)@ == old(
                    self,
                )@.apply_at(op@, wall),
                None => final(self)@ == old(self)@,
            },
            old(self)@.consistent() ==> final(self)@.consistent(),
            old(self)@.own_current() ==> final(self)@.own_current(),
    {
        if !self.store.accepts(&op) {
            return Some(false);
        }
        let fits = if op.hlc.time > self.clock.time && op.hlc.time >= wall {
            op.hlc.counter < u32::MAX
        } else if op.hlc.time == self.clock.time {
            self.clock.counter < u32::MAX && op.hlc.counter < u32::MAX
        } else {
            true
        };
        if !fits {
            return None;
        }
        self.take_in_at(op, wall);
        Some(true)
    }

    /// Takes in operations in the order given. Stops before an operation
    /// for which the clock has no counter left.
    pub fn replay(&mut self, ops: Vec<Op>) -> (intake: Intake)
        ensures
            took_in(old(self)@, op::ops_view(ops@), intake, final(self)@),
            old(self)@.consistent() ==> final(self)@.consistent(),
            old(self)@.own_current() ==> final(self)@.own_current(),
    {
        let ghost arrival = op::ops_view(ops@);
        let ghost start = self@;
        let ghost mut walls: Seq<u64> = Seq::empty();
        let mut accepted: Vec<Op> = Vec::new();
        let mut i: usize = 0;
        assert(arrival.take(0) =~= Seq::empty());
        while i < ops.len()
            invariant
                i <= ops.len(),
                arrival == op::ops_view(ops@),
                start == old(self)@,
                walls.len() == i,
                self@ == start.run(arrival.take(i as int), walls),
                self@.data == start.data.apply_all(arrival.take(i as int)),
                op::ops_view(accepted@) == start.data.news(arrival.take(i as int)),
                start.consistent() ==> self@.consistent(),
                start.own_current() ==> self@.own_current(),
                forall|c: u32| #[trigger]
                    bounded_by(start.clock, arrival, c) ==> self@.clock.counter <= c + i,
            decreases ops.len() - i,
        {
            let op = ops[i].clone();
            assert(op@ == arrival[i as int]);
            let ghost before = self@;
            let ghost had = accepted@;
            let wall = now_millis();
            match self.offer_at(op, wall) {
                Some(applied) => {
                    if applied {
                        accepted.push(ops[i].clone());
                        assert(op::ops_view(accepted@) =~= op::ops_view(had).push(
                            arrival[i as int],
                        ));
                    }
                },
                None => {
                    proof {
                        clock::law_admits_is_every_wall(before.clock, arrival[i as int].hlc);
                    }
                    assert(forall|c: u32| #[trigger]
                        bounded_by(start.clock, arrival, c) ==> arrival[i as int].hlc.counter
                            <= c);
                    return Intake { accepted, taken: i };
                },
            }
            proof {
                assert(walls.push(wall).drop_last() =~= walls);
                walls = walls.push(wall);
                assert(arrival.take(i + 1).drop_last() =~= arrival.take(i as int));
                assert(arrival.take(i + 1).last() == arrival[i as int]);
                assert forall|c: u32| #[trigger]
                    bounded_by(start.clock, arrival, c) implies self@.clock.counter <= c + i + 1 by {
                    assert(arrival[i as int].hlc.counter <= c);
                }
            }
            i += 1;
        }
        assert(arrival.take(arrival.len() as int) =~= arrival);
        Intake { accepted, taken: i }
    }

    /// Takes in operations that arrived in any order, by device and then by
    /// number: what comes of them does not depend on the order in which they
    /// came.
    pub fn absorb(&mut self, ops: Vec<Op>) -> (intake: Intake)
        ensures
            absorbed(old(self)@, op::ops_view(ops@), intake, final(self)@),
            old(self)@.consistent() ==> final(self)@.consistent(),
            old(self)@.own_current() ==> final(self)@.own_current(),
    {
        let mut ops = ops;
        op::sort_ops(&mut ops);
        self.replay(ops)
    }

    /// For each device, the greatest number seen of it.
    pub fn version_vector(&self) -> (vv: VersionVector)
        ensures
            vv@ == self@.data.vv,
    {
        self.store.vv.copy()
    }

    /// The operations that a peer with version vector `vv` is missing.
    pub fn ops_since(&self, vv: &VersionVector) -> (ops: Vec<Op>)
        ensures
            op::ops_view(ops@) == self@.data.ops_since(vv@),
    {
        let mut ops: Vec<Op> = Vec::new();
        let mut i: usize = 0;
        let ghost log = op::ops_view(self.store.log@);
        let ghost missing = |o: OpView| o.seq > dataset::seen(vv@, o.device);
        while i < self.store.log.len()
            invariant
                i <= self.store.log.len(),
                log == op::ops_view(self.store.log@),
                missing == (|o: OpView| o.seq > dataset::seen(vv@, o.device)),
                op::ops_view(ops@) == log.take(i as int).filter(missing),
            decreases self.store.log.len() - i,
        {
            reveal(Seq::filter);
            let op = &self.store.log[i];
            let ghost before = ops@;
            assert(log.take(i + 1).drop_last() =~= log.take(i as int));
            assert(log.take(i + 1).last() == op@);
            if op.seq > last_seen(vv, op.device.as_str()) {
                ops.push(op.clone());
                assert(op::ops_view(ops@) =~= op::ops_view(before).push(op@));
            }
            i += 1;
        }
        assert(log.take(log.len() as int) =~= log);
        ops
    }

    /// The entities that have a value, in the order of their names.
    pub fn entries(&self) -> (rows: Vec<LiveEntry>)
        ensures
            live_rows(rows@) == textmap::listing(dataset::live(self@.data.entries)),
            textmap::listable(dataset::live(self@.data.entries)),
            forall|entity: Seq<char>, value: Seq<char>| #[trigger]
                live_rows(rows@).contains((entity, value)) <==> self@.data.entries.contains_key(
                    entity,
                ) && self@.data.entries[entity].value == Some(value),
            forall|i: int, j: int|
                0 <= i < j < rows@.len() ==> text::lex_lt(
                    (#[trigger] rows@[i]).entity@,
                    (#[trigger] rows@[j]).entity@,
                ),
            rows@.len() == dataset::live(self@.data.entries).dom().len(),
    {
        let mut rows: Vec<LiveEntry> = Vec::new();
        let n = self.store.entries.len();
        let mut i: usize = 0;
        let ghost all = textmap::listing(self.store.entries@);
        while i < n
            invariant
                i <= n,
                n == all.len(),
                all == textmap::listing(self.store.entries@),
                live_rows(rows@) == dataset::live_pairs(all.take(i as int)),
            decreases n - i,
        {
            let entity = self.store.entries.key_at(i);
            let entry = self.store.entries.value_at(i);
            let ghost before = rows@;
            assert(all.take(i + 1).drop_last() =~= all.take(i as int));
            assert(all.take(i + 1).last() == (entity@, entry@));
            match &entry.value {
                Some(value) => {
                    rows.push(LiveEntry { entity: entity.clone(), value: value.clone() });
                    assert(live_rows(rows@) =~= live_rows(before).push((entity@, value@)));
                },
                None => {},
            }
            i += 1;
        }
        proof {
            assert(all.take(all.len() as int) =~= all);
            dataset::lemma_live_listing(all, self.store.entries@);
            let visible = dataset::live(self@.data.entries);
            assert forall|entity: Seq<char>, value: Seq<char>| #[trigger]
                live_rows(rows@).contains((entity, value)) <==> self@.data.entries.contains_key(
                    entity,
                ) && self@.data.entries[entity].value == Some(value) by {
                textmap::law_a_listing_holds_every_pair_once(visible, entity, value);
            }
            textmap::law_a_listing_is_as_long_as_the_map(visible);
            assert(live_rows(rows@).len() == rows@.len());
            assert forall|i: int, j: int| 0 <= i < j < rows@.len() implies text::lex_lt(
                (#[trigger] rows@[i]).entity@,
                (#[trigger] rows@[j]).entity@,
            ) by {
                assert(text::lex_lt(live_rows(rows@)[i].0, live_rows(rows@)[j].0));
            }
        }
        rows
    }

    /// A hash of the visible state. Replicas with the same live entities
    /// have the same fingerprint, in whatever order they came by them.
    pub fn state_fingerprint(&self) -> (hash: u64)
        ensures
            hash == fingerprint(dataset::live(self@.data.entries)),
    {
        let rows = self.entries();
        let ghost listed = live_rows(rows@);
        let mut hasher = DefaultHasher::new();
        let mut i: usize = 0;
        assert(listed.take(0) =~= Seq::empty());
        while i < rows.len()
            invariant
                i <= rows.len(),
                listed == live_rows(rows@),
                hasher@ == hash_input(listed.take(i as int)),
            decreases rows.len() - i,
        {
            let ghost before = hasher@;
            hash_text(&rows[i].entity, &mut hasher);
            hash_text(&rows[i].value, &mut hasher);
            assert(listed.take(i + 1).drop_last() =~= listed.take(i as int));
            assert(listed.take(i + 1).last() == listed[i as int]);
            i += 1;
        }
        assert(listed.take(listed.len() as int) =~= listed);
        hasher.finish()
    }
}

/// Live entities are listed as their names and values, one for one.
pub proof fn law_live_rows_one_for_one(rows: Seq<LiveEntry>)
    ensures
        live_rows(rows).len() == rows.len(),
        forall|i: int|
            0 <= i < rows.len() ==> (#[trigger] live_rows(rows)[i]).0 == rows[i].entity@
                && live_rows(rows)[i].1 == rows[i].value@,
{
}

/// A local edit is stamped with the replica's device, its next number and
/// the ticked clock, and carries entity, kind and value as they were given,
/// character for character.
pub proof fn law_local_edits_carry_what_was_given(
    before: ReplicaView,
    entity: Seq<char>,
    kind: OpKind,
    value: Seq<char>,
    wall: u64,
)
    requires
        before.seq < u64::MAX,
    ensures
        before.local_op(entity, kind, value, wall).entity == entity,
        before.local_op(entity, kind, value, wall).kind == kind,
        before.local_op(entity, kind, value, wall).value == value,
        before.local_op(entity, kind, value, wall).device == before.device,
        before.local_op(entity, kind, value, wall).seq == before.seq + 1,
        before.local_op(entity, kind, value, wall).hlc == clock::ticked(before.clock, wall),
{
}

/// An own operation is taken in at once, and the replica goes on from its
/// number and its stamp.
pub proof fn law_own_operations_are_taken_in(before: ReplicaView, op: OpView)
    ensures
        before.with_own(op).data.log == before.data.log.push(op),
        before.with_own(op).data.entries == dataset::merged(before.data.entries, op),
        before.with_own(op).data.vv == dataset::raised(before.data.vv, op.device, op.seq),
        before.with_own(op).seq == op.seq,
        before.with_own(op).clock == op.hlc,
        before.with_own(op).device == before.device,
{
}

/// An arriving operation moves the clock past its stamp and is taken in if
/// it is news, and else changes nothing at all. The own number follows the
/// operations of the own device and no others.
pub proof fn law_what_an_arrival_changes(before: ReplicaView, op: OpView, wall: u64)
    ensures
        before.apply_at(op, wall).data == before.data.apply(op),
        before.apply_at(op, wall).device == before.device,
        !before.data.accepts(op) ==> before.apply_at(op, wall) == before,
        before.data.accepts(op) ==> before.apply_at(op, wall).clock == clock::observed(
            before.clock,
            op.hlc,
            wall,
        ),
        before.data.accepts(op) && op.device == before.device ==> before.apply_at(op, wall).seq
            >= op.seq,
        before.apply_at(op, wall).seq >= before.seq,
        before.apply_at(op, wall).seq == before.seq || (op.device == before.device
            && before.apply_at(op, wall).seq == op.seq),
{
}

/// Arrivals one by one: the last one comes to what the others have left.
pub proof fn law_arrivals_come_one_by_one(
    before: ReplicaView,
    ops: Seq<OpView>,
    walls: Seq<u64>,
    op: OpView,
    wall: u64,
)
    requires
        ops.len() == walls.len(),
    ensures
        before.run(Seq::empty(), Seq::empty()) == before,
        before.run(ops.push(op), walls.push(wall)) == before.run(ops, walls).apply_at(op, wall),
{
    assert(ops.push(op).drop_last() =~= ops);
    assert(walls.push(wall).drop_last() =~= walls);
}

/// A new replica stands for its device, has made nothing and seen nothing.
pub proof fn law_a_new_replica_has_seen_nothing(device: Seq<char>)
    ensures
        ReplicaView::fresh(device).device == device,
        ReplicaView::fresh(device).seq == 0,
        ReplicaView::fresh(device).clock.time == 0,
        ReplicaView::fresh(device).clock.counter == 0,
        ReplicaView::fresh(device).data.log.len() == 0,
        ReplicaView::fresh(device).data.entries == Map::<Seq<char>, EntryView>::empty(),
        ReplicaView::fresh(device).data.vv == Map::<Seq<char>, u64>::empty(),
{
}

/// A batch stops short only before an operation that is news and would use
/// up a counter; what came before it was dealt with in full.
pub proof fn law_a_batch_stops_only_at_a_used_up_counter(
    before: ReplicaView,
    arrival: Seq<OpView>,
    intake: Intake,
    after: ReplicaView,
)
    requires
        took_in(before, arrival, intake, after),
    ensures
        intake.taken <= arrival.len(),
        intake.taken < arrival.len() ==> {
            let next = arrival[intake.taken as int];
            &&& after.data.accepts(next)
            &&& next.hlc.counter == 0xffff_ffff || after.clock.counter == 0xffff_ffff
        },
        op::ops_view(intake.accepted@) == before.data.news(arrival.take(intake.taken as int)),
        after.data == before.data.apply_all(arrival.take(intake.taken as int)),
        before.clock.counter + arrival.len() <= 0xffff_ffff && (forall|i: int|
            0 <= i < arrival.len() ==> (#[trigger] arrival[i]).hlc.counter + arrival.len()
                <= 0xffff_ffff) ==> intake.taken == arrival.len(),
{
    let n = arrival.len() as int;
    if before.clock.counter + n <= 0xffff_ffff && (forall|i: int|
        0 <= i < arrival.len() ==> (#[trigger] arrival[i]).hlc.counter + arrival.len()
            <= 0xffff_ffff) {
        let c = (0xffff_ffff - n) as u32;
        assert(bounded_by(before.clock, arrival, c));
    }
}

/// A local edit can be made at any time exactly if neither number nor
/// counter is used up; an arrival can be taken at any time if no counter is
/// used up, or if it is not news.
pub proof fn law_when_there_is_room(replica: ReplicaView, op: OpView)
    ensures
        replica.can_change() <==> replica.seq < 0xffff_ffff_ffff_ffff && replica.clock.counter
            < 0xffff_ffff,
        !replica.data.accepts(op) ==> replica.can_apply(op),
        op.hlc.counter < 0xffff_ffff && replica.clock.counter < 0xffff_ffff ==> replica.can_apply(
            op,
        ),
        replica.data.accepts(op) && op.hlc.counter == 0xffff_ffff && op.hlc.time
            >= replica.clock.time ==> !replica.can_apply(op),
{
}

/// What is hashed of two lists is what is hashed of the one and then of the
/// other, and of one row it is the name and then the value: every row counts.
pub proof fn law_every_row_is_hashed(
    a: Seq<(Seq<char>, Seq<char>)>,
    b: Seq<(Seq<char>, Seq<char>)>,
    name: Seq<char>,
    value: Seq<char>,
)
    ensures
        hash_input(a + b) == hash_input(a) + hash_input(b),
        hash_input(seq![(name, value)]) == hash_writes(name) + hash_writes(value),
        hash_input(Seq::empty()) == Seq::<Seq<u8>>::empty(),
    decreases b.len(),
{
    let one = seq![(name, value)];
    assert(one.drop_last() =~= Seq::<(Seq<char>, Seq<char>)>::empty());
    assert(hash_input(one.drop_last()) =~= Seq::<Seq<u8>>::empty());
    assert(hash_input(one) =~= hash_writes(name) + hash_writes(value));
    if b.len() == 0 {
        assert(a + b =~= a);
        assert(hash_input(a) + hash_input(b) =~= hash_input(a));
    } else {
        let init = b.drop_last();
        law_every_row_is_hashed(a, init, name, value);
        assert((a + b).drop_last() =~= a + init);
        assert((a + b).last() == b.last());
        assert(hash_input(a + b) =~= hash_input(a) + hash_input(b));
    }
}

/// The fingerprint of a visible state is the hash of all its rows in the
/// order of their names: rows that list the state in that order are what is
/// hashed.
pub proof fn law_the_fingerprint_is_of_all_rows(
    rows: Seq<(Seq<char>, Seq<char>)>,
    visible: Map<Seq<char>, Seq<char>>,
)
    requires
        forall|i: int, j: int|
            0 <= i < j < rows.len() ==> text::lex_lt((#[trigger] rows[i]).0, (#[trigger] rows[j]).0),
        forall|name: Seq<char>, value: Seq<char>| #[trigger]
            rows.contains((name, value)) <==> visible.contains_key(name) && visible[name] == value,
    ensures
        fingerprint(visible)
            == <DefaultHasher as vstd::std_specs::hash::DefaultHasherAdditionalSpecFns>::spec_finish(
            hash_input(rows),
        ),
{
    assert forall|i: int| 0 <= i < rows.len() implies visible.contains_key((#[trigger] rows[i]).0)
        && visible[rows[i].0] == rows[i].1 by {
        assert(rows.contains((rows[i].0, rows[i].1)));
    }
    assert forall|name: Seq<char>| #[trigger] visible.contains_key(name) implies exists|i: int|
        0 <= i < rows.len() && (#[trigger] rows[i]).0 == name by {
        assert(rows.contains((name, visible[name])));
        let i = choose|i: int| 0 <= i < rows.len() && rows[i] == (name, visible[name]);
        assert(rows[i].0 == name);
    }
    textmap::lemma_listing_is(rows, visible);
}

/// A batch leaves the replica as its operations do when they arrive one by
/// one, each at some time; when it arrives in any order, they arrive sorted.
pub proof fn law_a_batch_is_its_arrivals(
    before: ReplicaView,
    arrival: Seq<OpView>,
    intake: Intake,
    after: ReplicaView,
)
    ensures
        took_in(before, arrival, intake, after) ==> exists|walls: Seq<u64>|
            walls.len() == intake.taken && after == #[trigger] before.run(
                arrival.take(intake.taken as int),
                walls,
            ),
        absorbed(before, arrival, intake, after) ==> exists|sorted: Seq<OpView>, walls: Seq<u64>|
            {
                &&& op::is_arrangement(arrival, sorted)
                &&& walls.len() == intake.taken
                &&& after == #[trigger] before.run(sorted.take(intake.taken as int), walls)
                &&& op::ops_view(intake.accepted@) == before.data.news(
                    sorted.take(intake.taken as int),
                )
                &&& intake.taken <= sorted.len()
            },
{
    if absorbed(before, arrival, intake, after) {
        let sorted = choose|sorted: Seq<OpView>|
            op::is_arrangement(arrival, sorted) && #[trigger] took_in(
                before,
                sorted,
                intake,
                after,
            );
        let walls = choose|walls: Seq<u64>|
            walls.len() == intake.taken && after == #[trigger] before.run(
                sorted.take(intake.taken as int),
                walls,
            );
        assert(after == before.run(sorted.take(intake.taken as int), walls));
    }
}

} // verus!
