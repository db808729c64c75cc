//! An observer of nodes, outside the sync path: it keeps a timeline of what
//! nodes report and the last state that each was polled for, and judges
//! whether they have converged.

use crate::json;
use crate::json::{Json, JsonView};
use crate::text;
use crate::text::{decimal, join, split_all, trim};
use crate::textmap;
use crate::textmap::TextMap;
use std::collections::VecDeque;
use vstd::prelude::*;
use vstd::string::StringExecFns;

verus! {

/// How many events are kept.
pub const MAX_EVENTS: usize = 400;

/// How many events are shown.
pub const SHOWN_EVENTS: usize = 120;

/// An event that a node reported.
#[derive(Debug)]
pub struct Event {
    pub seq: u64,
    pub ts: u64,
    pub device: String,
    pub kind: String,
    pub data: Json,
}

/// What an event says.
pub struct EventView {
    pub seq: u64,
    pub ts: u64,
    pub device: Seq<char>,
    pub kind: Seq<char>,
    pub data: JsonView,
}

impl View for Event {
    type V = EventView;

    open spec fn view(&self) -> EventView {
        EventView {
            seq: self.seq,
            ts: self.ts,
            device: self.device@,
            kind: self.kind@,
            data: self.data@,
        }
    }
}

/// The events of a list.
pub open spec fn events_view(events: Seq<Event>) -> Seq<EventView> {
    events.map_values(|e: Event| e@)
}

/// The last state that a node was polled for. Whether it is online is the
/// position of its own switch; whether it is reachable is whether it
/// answered last time.
#[derive(Debug)]
pub struct DeviceState {
    pub device: String,
    pub fingerprint: String,
    pub entries: Vec<Json>,
    pub vv: Json,
    pub reachable: bool,
    pub online: bool,
    pub last_seen: u64,
}

/// What a `DeviceState` says.
#[verifier::ext_equal]
pub struct DeviceView {
    pub device: Seq<char>,
    pub fingerprint: Seq<char>,
    pub entries: Seq<JsonView>,
    pub vv: JsonView,
    pub reachable: bool,
    pub online: bool,
    pub last_seen: u64,
}

impl View for DeviceState {
    type V = DeviceView;

    open spec fn view(&self) -> DeviceView {
        DeviceView {
            device: self.device@,
            fingerprint: self.fingerprint@,
            entries: json::all_said(self.entries@),
            vv: self.vv@,
            reachable: self.reachable,
            online: self.online,
            last_seen: self.last_seen,
        }
    }
}

/// The states of a list.
pub open spec fn devices_view(devices: Seq<DeviceState>) -> Seq<DeviceView> {
    devices.map_values(|d: DeviceState| d@)
}

/// The same values again.
fn copy_all(items: &Vec<Json>) -> (copies: Vec<Json>)
    ensures
        json::all_said(copies@) == json::all_said(items@),
{
    let mut copies: Vec<Json> = Vec::new();
    let mut i: usize = 0;
    while i < items.len()
        invariant
            i <= items.len(),
            json::all_said(copies@) == json::all_said(items@).take(i as int),
        decreases items.len() - i,
    {
        let ghost before = copies@;
        copies.push(items[i].copy());
        assert(json::all_said(copies@) =~= json::all_said(before).push(items@[i as int]@));
        assert(json::all_said(items@).take(i + 1) =~= json::all_said(items@).take(i as int).push(
            items@[i as int]@,
        ));
        i += 1;
    }
    assert(json::all_said(items@).take(items@.len() as int) =~= json::all_said(items@));
    copies
}

impl DeviceState {
    /// The same state again, with the given reachability.
    fn copy(&self, reachable: bool) -> (copy: DeviceState)
        ensures
            copy@ == (DeviceView { reachable, ..self@ }),
    {
        DeviceState {
            device: self.device.clone(),
            fingerprint: self.fingerprint.clone(),
            entries: copy_all(&self.entries),
            vv: self.vv.copy(),
            reachable,
            online: self.online,
            last_seen: self.last_seen,
        }
    }
}

impl Event {
    /// The same event again.
    fn copy(&self) -> (copy: Event)
        ensures
            copy@ == self@,
    {
        Event {
            seq: self.seq,
            ts: self.ts,
            device: self.device.clone(),
            kind: self.kind.clone(),
            data: self.data.copy(),
        }
    }
}

/// The observer.
pub struct Monitor {
    events: VecDeque<Event>,
    seq: u64,
    devices: TextMap<DeviceState>,
    by_target: TextMap<String>,
    target_of: TextMap<String>,
}

/// What an observer knows: the events, newest first, the number of the last
/// one, the state of each device, and which target stands for which device.
#[verifier::ext_equal]
pub struct MonitorView {
    pub events: Seq<EventView>,
    pub seq: u64,
    pub devices: Map<Seq<char>, DeviceView>,
    pub by_target: Map<Seq<char>, Seq<char>>,
    pub target_of: Map<Seq<char>, Seq<char>>,
}

impl View for Monitor {
    type V = MonitorView;

    closed spec fn view(&self) -> MonitorView {
        MonitorView {
            events: events_view(self.events@),
            seq: self.seq,
            devices: self.devices@,
            by_target: self.by_target@,
            target_of: self.target_of@,
        }
    }
}

/// `s`, but no more than its first `n`.
pub open spec fn at_most<T>(s: Seq<T>, n: nat) -> Seq<T> {
    if s.len() > n {
        s.take(n as int)
    } else {
        s
    }
}

impl MonitorView {
    /// An observer that has seen nothing.
    pub open spec fn fresh() -> MonitorView {
        MonitorView {
            events: Seq::empty(),
            seq: 0,
            devices: Map::empty(),
            by_target: Map::empty(),
            target_of: Map::empty(),
        }
    }

    /// The timeline is in order: at most so many events, newest first, with
    /// numbers that count down from the last one.
    pub open spec fn timeline_in_order(self) -> bool {
        &&& self.events.len() <= MAX_EVENTS
        &&& self.events.len() <= self.seq
        &&& forall|i: int|
            0 <= i < self.events.len() ==> (#[trigger] self.events[i]).seq == self.seq - i
    }

    /// The observer after a node has reported an event.
    pub open spec fn ingested(
        self,
        ts: u64,
        device: Seq<char>,
        kind: Seq<char>,
        data: JsonView,
    ) -> MonitorView {
        let seq = (self.seq + 1) as u64;
        let event = EventView { seq, ts, device, kind, data };
        MonitorView { events: at_most(seq![event] + self.events, MAX_EVENTS as nat), seq, ..self }
    }

    /// The observer after the node at `target` has answered a poll with
    /// `state`.
    pub open spec fn answered(self, target: Seq<char>, state: JsonView, now: u64) -> MonitorView {
        let name = reported_name(target, state);
        MonitorView {
            by_target: self.by_target.insert(target, name),
            target_of: self.target_of.insert(name, target),
            devices: self.devices.insert(name, reported_state(target, state, now)),
            ..self
        }
    }

    /// The observer after the node at `target` has not answered a poll: its
    /// device, where one is known, counts as unreachable and keeps the rest
    /// of its last state.
    pub open spec fn unanswered(self, target: Seq<char>) -> MonitorView {
        if self.by_target.contains_key(target) && self.devices.contains_key(
            self.by_target[target],
        ) {
            let name = self.by_target[target];
            MonitorView {
                devices: self.devices.insert(
                    name,
                    DeviceView { reachable: false, ..self.devices[name] },
                ),
                ..self
            }
        } else {
            self
        }
    }
}

/// The name under which a node reports itself, or its target where it
/// reports none.
pub open spec fn reported_name(target: Seq<char>, state: JsonView) -> Seq<char> {
    match state.member("device"@) {
        Some(v) => match v.text() {
            Some(name) => name,
            None => target,
        },
        None => target,
    }
}

/// The state that a node reports. What it leaves out is empty; a node that
/// does not speak of its switch is online.
pub open spec fn reported_state(target: Seq<char>, state: JsonView, now: u64) -> DeviceView {
    DeviceView {
        device: reported_name(target, state),
        fingerprint: match state.member("fingerprint"@) {
            Some(v) => match v.text() {
                Some(t) => t,
                None => Seq::empty(),
            },
            None => Seq::empty(),
        },
        entries: match state.member("entries"@) {
            Some(v) => match v.elements() {
                Some(items) => items,
                None => Seq::empty(),
            },
            None => Seq::empty(),
        },
        vv: match state.member("vv"@) {
            Some(v) => v,
            None => JsonView::Object(Seq::empty()),
        },
        reachable: true,
        online: match state.member("online"@) {
            Some(v) => match v.truth() {
                Some(b) => b,
                None => true,
            },
            None => true,
        },
        last_seen: now,
    }
}

/// Reads the text member `key`, with a default.
fn text_member(state: &Json, key: &str, default: &str) -> (value: String)
    ensures
        value@ == match state@.member(key@) {
            Some(v) => match v.text() {
                Some(t) => t,
                None => default@,
            },
            None => default@,
        },
{
    match state.member(key) {
        Some(v) => match v.as_text() {
            Some(t) => t.clone(),
            None => default.to_owned(),
        },
        None => default.to_owned(),
    }
}

/// Reads the state that a node reports.
fn read_state(target: &str, state: &Json, now: u64) -> (device: DeviceState)
    ensures
        device@ == reported_state(target@, state@, now),
{
    let entries = match state.member("entries") {
        Some(v) => match v.as_array() {
            Some(items) => copy_all(items),
            None => Vec::new(),
        },
        None => Vec::new(),
    };
    let vv = match state.member("vv") {
        Some(v) => v.copy(),
        None => {
            let none = Json::Object(Vec::new());
            assert(none@->Object_0 =~= Seq::empty());
            none
        },
    };
    let online = match state.member("online") {
        Some(v) => match v.as_bool() {
            Some(b) => b,
            None => true,
        },
        None => true,
    };
    proof {
        reveal_strlit("");
        assert(""@ =~= Seq::empty());
    }
    let device = DeviceState {
        device: text_member(state, "device", target),
        fingerprint: text_member(state, "fingerprint", ""),
        entries,
        vv,
        reachable: true,
        online,
        last_seen: now,
    };
    assert(device@ =~= reported_state(target@, state@, now));
    device
}

impl Monitor {
    /// An observer that has seen nothing.
    pub fn new() -> (monitor: Self)
        ensures
            monitor@ == MonitorView::fresh(),
            monitor@.timeline_in_order(),
    {
        let monitor = Monitor {
            events: VecDeque::new(),
            seq: 0,
            devices: TextMap::new(),
            by_target: TextMap::new(),
            target_of: TextMap::new(),
        };
        assert(monitor@ =~= MonitorView::fresh());
        monitor
    }

    /// Whether there is a number left for another event.
    pub fn can_ingest(&self) -> (yes: bool)
        ensures
            yes == (self@.seq < u64::MAX),
    {
        self.seq < u64::MAX
    }

    /// Takes down an event that a node reported at `ts`. Only so many are
    /// kept: the oldest go first.
    pub fn ingest(&mut self, ts: u64, device: String, kind: String, data: Json)
        requires
            old(self)@.seq < u64::MAX,
        ensures
            final(self)@ == old(self)@.ingested(ts, device@, kind@, data@),
            old(self)@.timeline_in_order() ==> final(self)@.timeline_in_order(),
    {
        self.seq = self.seq + 1;
        let event = Event { seq: self.seq, ts, device, kind, data };
        let ghost had = self.events@;
        let ghost told = event@;
        self.events.push_front(event);
        let ghost grown = events_view(self.events@);
        assert(grown =~= seq![told] + events_view(had));
        while self.events.len() > MAX_EVENTS
            invariant
                self.events@.len() <= grown.len(),
                grown.len() > MAX_EVENTS ==> self.events@.len() >= MAX_EVENTS,
                grown.len() <= MAX_EVENTS ==> self.events@.len() == grown.len(),
                events_view(self.events@) == grown.take(self.events@.len() as int),
                self.seq == old(self).seq + 1,
                self.devices == old(self).devices,
                self.by_target == old(self).by_target,
                self.target_of == old(self).target_of,
            decreases self.events@.len(),
        {
            self.events.pop_back();
            assert(events_view(self.events@) =~= grown.take(self.events@.len() as int));
        }
        assert(events_view(self.events@) =~= at_most(grown, MAX_EVENTS as nat));
        assert(self@ =~= old(self)@.ingested(ts, device@, kind@, data@));
        proof {
            if old(self)@.timeline_in_order() {
                let events = self@.events;
                assert forall|i: int| 0 <= i < events.len() implies (#[trigger] events[i]).seq
                    == self@.seq - i by {
                    if i > 0 {
                        assert(events[i] == old(self)@.events[i - 1]);
                    }
                }
            }
        }
    }

    /// Takes down the answer of the node at `target` to a poll at `now`, or
    /// that there was none.
    pub fn record_poll(&mut self, target: &str, answer: Option<Json>, now: u64)
        ensures
            final(self)@ == match answer {
                Some(state) => old(self)@.answered(target@, state@, now),
                None => old(self)@.unanswered(target@),
            },
    {
        match answer {
            Some(state) => {
                let device = read_state(target, &state, now);
                let name = device.device.clone();
                self.by_target.insert(target.to_owned(), name.clone());
                self.target_of.insert(name.clone(), target.to_owned());
                self.devices.insert(name, device);
                assert(self@ =~= old(self)@.answered(target@, state@, now));
            },
            None => {
                let name = match self.by_target.get(target) {
                    Some(name) => name.clone(),
                    None => {
                        return;
                    },
                };
                let marked = match self.devices.get(name.as_str()) {
                    Some(device) => device.copy(false),
                    None => {
                        return;
                    },
                };
                self.devices.insert(name, marked);
                assert(self@ =~= old(self)@.unanswered(target@));
            },
        }
    }

    /// Where to forward a command for the device `id`.
    pub fn route(&self, id: &str) -> (target: Option<String>)
        ensures
            match target {
                Some(t) => self@.target_of.contains_key(id@) && t@ == self@.target_of[id@],
                None => !self@.target_of.contains_key(id@),
            },
    {
        match self.target_of.get(id) {
            Some(target) => Some(target.clone()),
            None => None,
        }
    }

    /// The newest events.
    pub fn recent(&self) -> (events: Vec<Event>)
        ensures
            events_view(events@) == at_most(self@.events, SHOWN_EVENTS as nat),
            events@.len() == if self@.events.len() < 120 {
                self@.events.len()
            } else {
                120
            },
            forall|i: int|
                0 <= i < events@.len() ==> (#[trigger] events@[i])@ == self@.events[i],
    {
        let n: usize = if self.events.len() > SHOWN_EVENTS {
            SHOWN_EVENTS
        } else {
            self.events.len()
        };
        let mut events: Vec<Event> = Vec::new();
        let mut i: usize = 0;
        while i < n
            invariant
                i <= n,
                n <= self.events@.len(),
                events_view(events@) == self@.events.take(i as int),
            decreases n - i,
        {
            let ghost before = events@;
            events.push(self.events[i].copy());
            assert(events_view(events@) =~= events_view(before).push(self@.events[i as int]));
            assert(self@.events.take(i + 1) =~= self@.events.take(i as int).push(
                self@.events[i as int],
            ));
            i += 1;
        }
        assert(self@.events.take(n as int) =~= at_most(self@.events, SHOWN_EVENTS as nat));
        assert(events_view(events@).len() == events@.len());
        assert forall|i: int| 0 <= i < events@.len() implies (#[trigger] events@[i])@
            == self@.events[i] by {
            assert(events_view(events@)[i] == events@[i]@);
        }
        events
    }
}

/// The states of the devices, by name.
pub open spec fn states(devices: Map<Seq<char>, DeviceView>) -> Seq<DeviceView> {
    textmap::listing(devices).map_values(|row: (Seq<char>, DeviceView)| row.1)
}

/// Those of some devices that answered, or those that did not.
pub open spec fn answering(all: Seq<DeviceView>, yes: bool) -> Seq<DeviceView>
    decreases all.len(),
{
    if all.len() == 0 {
        Seq::empty()
    } else if all.last().reachable == yes {
        answering(all.drop_last(), yes).push(all.last())
    } else {
        answering(all.drop_last(), yes)
    }
}

/// All have the same fingerprint.
pub open spec fn same_fingerprint(all: Seq<DeviceView>) -> bool {
    forall|i: int| 0 <= i < all.len() ==> (#[trigger] all[i]).fingerprint == all[0].fingerprint
}

/// The names of some devices.
pub open spec fn names(all: Seq<DeviceView>) -> Seq<Seq<char>> {
    all.map_values(|d: DeviceView| d.device)
}

/// A device with its fingerprint.
pub open spec fn name_and_fingerprint(d: DeviceView) -> Seq<char> {
    d.device.push('=') + d.fingerprint
}

/// What an observer concludes: whether the nodes have converged, whether
/// those that answer at least agree with each other, and why.
pub struct Verdict {
    pub converged: bool,
    pub live_aligned: bool,
    pub detail: String,
}

/// The nodes that answer are at least two and agree.
pub open spec fn live_aligned(all: Seq<DeviceView>) -> bool {
    answering(all, true).len() >= 2 && same_fingerprint(answering(all, true))
}

/// What is said where nodes do not answer.
pub open spec fn unreachable_detail(all: Seq<DeviceView>) -> Seq<char> {
    "unreachable: "@ + text::joined(names(answering(all, false)), ", "@) + " — "@ + if live_aligned(
        all,
    ) {
        "live nodes are aligned with each other"@
    } else {
        "and live nodes are not aligned"@
    }
}

/// What an observer concludes from the states of all known nodes. It is
/// converged only if every one of them answers, they are at least two, and
/// they agree: a node that does not answer is an unknown, not an agreement.
pub open spec fn conclusion(all: Seq<DeviceView>) -> (bool, bool, Seq<char>) {
    if all.len() == 0 {
        (false, false, "no node seen yet"@)
    } else if answering(all, false).len() > 0 {
        (false, live_aligned(all), unreachable_detail(all))
    } else if all.len() < 2 {
        (false, false, "only one node: nothing to converge"@)
    } else if same_fingerprint(all) {
        (
            true,
            true,
            text::numeral(all.len(), 10) + " nodes aligned on "@ + all[0].fingerprint,
        )
    } else {
        (
            false,
            false,
            text::joined(all.map_values(|d: DeviceView| name_and_fingerprint(d)), "  "@),
        )
    }
}

/// Whether all have the same fingerprint.
fn agree(all: &Vec<DeviceState>) -> (yes: bool)
    ensures
        yes == same_fingerprint(devices_view(all@)),
{
    let ghost views = devices_view(all@);
    let mut i: usize = 0;
    while i < all.len()
        invariant
            i <= all.len(),
            views == devices_view(all@),
            forall|j: int| 0 <= j < i ==> (#[trigger] views[j]).fingerprint == views[0].fingerprint,
        decreases all.len() - i,
    {
        assert(views[i as int] == all@[i as int]@);
        assert(views[0] == all@[0]@);
        if !text::same_text(all[i].fingerprint.as_str(), all[0].fingerprint.as_str()) {
            return false;
        }
        i += 1;
    }
    true
}

/// Those of some devices that answered, or those that did not.
fn split_off(all: &Vec<DeviceState>, yes: bool) -> (part: Vec<DeviceState>)
    ensures
        devices_view(part@) == answering(devices_view(all@), yes),
{
    let ghost views = devices_view(all@);
    let mut part: Vec<DeviceState> = Vec::new();
    let mut i: usize = 0;
    assert(devices_view(part@) =~= Seq::empty());
    assert(views.take(0) =~= Seq::empty());
    while i < all.len()
        invariant
            i <= all.len(),
            views == devices_view(all@),
            devices_view(part@) == answering(views.take(i as int), yes),
        decreases all.len() - i,
    {
        let ghost before = part@;
        assert(views.take(i + 1).drop_last() =~= views.take(i as int));
        assert(views.take(i + 1).last() == all@[i as int]@);
        if all[i].reachable == yes {
            part.push(all[i].copy(yes));
            assert(devices_view(part@) =~= devices_view(before).push(all@[i as int]@));
        }
        i += 1;
    }
    assert(views.take(views.len() as int) =~= views);
    part
}

/// The names of some devices, each with its fingerprint where that is
/// wanted.
fn label_all(all: &Vec<DeviceState>, with_fingerprint: bool) -> (labels: Vec<String>)
    ensures
        text::texts(labels@) == if with_fingerprint {
            devices_view(all@).map_values(|d: DeviceView| name_and_fingerprint(d))
        } else {
            names(devices_view(all@))
        },
{
    let ghost wanted = if with_fingerprint {
        devices_view(all@).map_values(|d: DeviceView| name_and_fingerprint(d))
    } else {
        names(devices_view(all@))
    };
    let mut labels: Vec<String> = Vec::new();
    let mut i: usize = 0;
    while i < all.len()
        invariant
            i <= all.len(),
            wanted == if with_fingerprint {
                devices_view(all@).map_values(|d: DeviceView| name_and_fingerprint(d))
            } else {
                names(devices_view(all@))
            },
            text::texts(labels@) == wanted.take(i as int),
        decreases all.len() - i,
    {
        let ghost before = labels@;
        let mut label = all[i].device.clone();
        if with_fingerprint {
            label.append("=");
            label.append(all[i].fingerprint.as_str());
            proof {
                reveal_strlit("=");
            }
            assert(label@ =~= name_and_fingerprint(all@[i as int]@));
        }
        assert(label@ == wanted[i as int]);
        labels.push(label);
        assert(text::texts(labels@) =~= text::texts(before).push(label@));
        assert(wanted.take(i + 1) =~= wanted.take(i as int).push(wanted[i as int]));
        i += 1;
    }
    assert(wanted.take(wanted.len() as int) =~= wanted);
    labels
}

proof fn lemma_verdict_over_fields(all: Seq<DeviceState>)
    ensures
        conclusion(devices_view(all)).0 <==> {
            &&& all.len() >= 2
            &&& forall|i: int| 0 <= i < all.len() ==> (#[trigger] all[i]).reachable
            &&& forall|i: int, j: int|
                0 <= i < all.len() && 0 <= j < all.len() ==> (#[trigger] all[i]).fingerprint@ == (
                #[trigger] all[j]).fingerprint@
        },
        conclusion(devices_view(all)).1 <==> {
            &&& exists|i: int, j: int|
                0 <= i < j < all.len() && (#[trigger] all[i]).reachable && (
                #[trigger] all[j]).reachable
            &&& forall|i: int, j: int|
                0 <= i < all.len() && 0 <= j < all.len() && (#[trigger] all[i]).reachable && (
                #[trigger] all[j]).reachable ==> all[i].fingerprint@ == all[j].fingerprint@
        },
{
    let views = devices_view(all);
    law_the_verdict_compares_any_two(views);
    assert forall|i: int| 0 <= i < all.len() implies (#[trigger] all[i]).reachable
        == views[i].reachable && all[i].fingerprint@ == views[i].fingerprint by {
        assert(views[i] == all[i]@);
    }
    assert forall|i: int| 0 <= i < views.len() implies (#[trigger] views[i]).reachable
        == all[i].reachable && views[i].fingerprint == all[i].fingerprint@ by {
        assert(views[i] == all[i]@);
    }
}

/// What an observer concludes from the states of all known nodes.
pub fn conclude(all: &Vec<DeviceState>) -> (verdict: Verdict)
    ensures
        (verdict.converged, verdict.live_aligned, verdict.detail@) == conclusion(
            devices_view(all@),
        ),
        verdict.converged <==> {
            &&& all@.len() >= 2
            &&& forall|i: int| 0 <= i < all@.len() ==> (#[trigger] all@[i]).reachable
            &&& forall|i: int, j: int|
                0 <= i < all@.len() && 0 <= j < all@.len() ==> (#[trigger] all@[i]).fingerprint@
                    == (#[trigger] all@[j]).fingerprint@
        },
        verdict.live_aligned <==> {
            &&& exists|i: int, j: int|
                0 <= i < j < all@.len() && (#[trigger] all@[i]).reachable && (
                #[trigger] all@[j]).reachable
            &&& forall|i: int, j: int|
                0 <= i < all@.len() && 0 <= j < all@.len() && (#[trigger] all@[i]).reachable && (
                #[trigger] all@[j]).reachable ==> all@[i].fingerprint@ == all@[j].fingerprint@
        },
{
    let ghost views = devices_view(all@);
    assert(views.len() == all@.len());
    proof {
        lemma_verdict_over_fields(all@);
    }
    if all.len() == 0 {
        return Verdict {
            converged: false,
            live_aligned: false,
            detail: "no node seen yet".to_owned(),
        };
    }
    let live = split_off(all, true);
    assert(devices_view(live@).len() == live@.len());
    let aligned = live.len() >= 2 && agree(&live);
    let down = split_off(all, false);
    assert(devices_view(down@).len() == down@.len());
    if down.len() > 0 {
        let mut detail = "unreachable: ".to_owned();
        detail.append(join(&label_all(&down, false), ", ").as_str());
        detail.append(" — ");
        detail.append(
            if aligned {
                "live nodes are aligned with each other"
            } else {
                "and live nodes are not aligned"
            },
        );
        assert(detail@ =~= unreachable_detail(views));
        return Verdict { converged: false, live_aligned: aligned, detail };
    }
    if all.len() < 2 {
        return Verdict {
            converged: false,
            live_aligned: false,
            detail: "only one node: nothing to converge".to_owned(),
        };
    }
    if agree(all) {
        let mut detail = decimal(all.len() as u64);
        detail.append(" nodes aligned on ");
        detail.append(all[0].fingerprint.as_str());
        assert(views[0] == all@[0]@);
        Verdict { converged: true, live_aligned: true, detail }
    } else {
        Verdict {
            converged: false,
            live_aligned: false,
            detail: join(&label_all(all, true), "  "),
        }
    }
}

impl Monitor {
    /// The last states of all known devices, by name.
    pub fn device_states(&self) -> (all: Vec<DeviceState>)
        ensures
            devices_view(all@) == states(self@.devices),
            textmap::listable(self@.devices),
    {
        let mut all: Vec<DeviceState> = Vec::new();
        let n = self.devices.len();
        let ghost wanted = states(self@.devices);
        let mut i: usize = 0;
        while i < n
            invariant
                i <= n,
                n == textmap::listing(self@.devices).len(),
                wanted == states(self@.devices),
                devices_view(all@) == wanted.take(i as int),
            decreases n - i,
        {
            let ghost before = all@;
            let device = self.devices.value_at(i);
            assert(wanted[i as int] == device@);
            all.push(device.copy(device.reachable));
            assert(devices_view(all@) =~= devices_view(before).push(device@));
            assert(wanted.take(i + 1) =~= wanted.take(i as int).push(wanted[i as int]));
            i += 1;
        }
        assert(wanted.take(wanted.len() as int) =~= wanted);
        all
    }

    /// What the observer concludes from what it knows.
    pub fn converged(&self) -> (verdict: Verdict)
        ensures
            (verdict.converged, verdict.live_aligned, verdict.detail@) == conclusion(
                states(self@.devices),
            ),
            verdict.converged <==> {
                &&& self@.devices.dom().len() >= 2
                &&& forall|a: Seq<char>| #[trigger]
                    self@.devices.contains_key(a) ==> self@.devices[a].reachable
                &&& forall|a: Seq<char>, b: Seq<char>| #[trigger]
                    self@.devices.contains_key(a) && #[trigger] self@.devices.contains_key(b)
                        ==> self@.devices[a].fingerprint == self@.devices[b].fingerprint
            },
    {
        let all = self.device_states();
        proof {
            law_the_observer_compares_any_two(self@.devices);
        }
        conclude(&all)
    }
}

/// The status with which a verdict is answered: success or conflict.
pub fn verdict_status(verdict: &Verdict) -> (status: u16)
    ensures
        status == if verdict.converged {
            200u16
        } else {
            409u16
        },
{
    if verdict.converged {
        200
    } else {
        409
    }
}

/// The status with which a command for a device is answered: not found
/// where the device is not known, else the status that its node answered
/// with, or bad gateway where it gave none.
pub fn proxy_status(known: bool, answered: Option<u16>) -> (status: u16)
    ensures
        status == if !known {
            404u16
        } else {
            match answered {
                Some(s) => if 100 <= s < 1000 {
                    s
                } else {
                    502u16
                },
                None => 502u16,
            }
        },
{
    if !known {
        return 404;
    }
    match answered {
        Some(s) => if 100 <= s && s < 1000 {
            s
        } else {
            502
        },
        None => 502,
    }
}

proof fn lemma_nobody_missing(all: Seq<DeviceView>)
    ensures
        answering(all, false).len() == 0 <==> forall|i: int|
            0 <= i < all.len() ==> (#[trigger] all[i]).reachable,
        answering(all, false).len() == 0 ==> answering(all, true) == all,
    decreases all.len(),
{
    if all.len() > 0 {
        let init = all.drop_last();
        let n = all.len() - 1;
        lemma_nobody_missing(init);
        assert(all[n] == all.last());
        assert forall|i: int| 0 <= i < n implies init[i] == #[trigger] all[i] by {}
        if answering(all, false).len() == 0 {
            assert(init.push(all.last()) =~= all);
            assert forall|i: int| 0 <= i < all.len() implies (#[trigger] all[i]).reachable by {
                if i < n {
                    assert(init[i].reachable);
                }
            }
        }
        if forall|i: int| 0 <= i < all.len() ==> (#[trigger] all[i]).reachable {
            assert forall|i: int| 0 <= i < init.len() implies (#[trigger] init[i]).reachable by {
                assert(all[i].reachable);
            }
            assert(all[n].reachable);
        }
    } else {
        assert(answering(all, true) =~= all);
    }
}

/// The verdict is good exactly if at least two nodes are known, every known
/// node answers, and all of them have the same fingerprint. Whether those
/// that answer agree is told in every case.
pub proof fn law_converged_means_all_answer_and_agree(all: Seq<DeviceView>)
    ensures
        conclusion(all).0 <==> all.len() >= 2 && same_fingerprint(all) && forall|i: int|
            0 <= i < all.len() ==> (#[trigger] all[i]).reachable,
        conclusion(all).1 <==> live_aligned(all),
        conclusion(all).0 ==> conclusion(all).1,
{
    lemma_nobody_missing(all);
}

/// A known node that does not answer a poll spoils the verdict, whatever
/// the others say.
pub proof fn law_silence_is_not_agreement(before: MonitorView, target: Seq<char>)
    requires
        before.by_target.contains_key(target),
        before.devices.contains_key(before.by_target[target]),
        textmap::listable(before.unanswered(target).devices),
    ensures
        !conclusion(states(before.unanswered(target).devices)).0,
{
    let devices = before.unanswered(target).devices;
    let name = before.by_target[target];
    let rows = textmap::listing(devices);
    let all = states(devices);
    assert(devices.contains_key(name));
    let i = choose|i: int| 0 <= i < rows.len() && (#[trigger] rows[i]).0 == name;
    assert(all[i] == devices[name]);
    law_converged_means_all_answer_and_agree(all);
}

/// The targets to watch: the pieces of a list between commas, without white
/// space around them, and without those that are empty.
pub open spec fn watched(pieces: Seq<Seq<char>>) -> Seq<Seq<char>>
    decreases pieces.len(),
{
    if pieces.len() == 0 {
        Seq::empty()
    } else {
        let last = text::trimmed(pieces.last());
        if last.len() > 0 {
            watched(pieces.drop_last()).push(last)
        } else {
            watched(pieces.drop_last())
        }
    }
}

/// Reads the list of targets to watch, with a default where none is given.
pub fn watch_list(given: Option<String>) -> (targets: Vec<String>)
    ensures
        text::texts(targets@) == watched(
            text::pieces(
                match given {
                    Some(list) => list@,
                    None => "device-a:47100,device-b:47100,device-c:47100"@,
                },
                ',',
            ),
        ),
{
    let list = match given {
        Some(list) => list,
        None => "device-a:47100,device-b:47100,device-c:47100".to_owned(),
    };
    let pieces = split_all(list.as_str(), ',');
    let ghost all = text::texts(pieces@);
    let mut targets: Vec<String> = Vec::new();
    let mut i: usize = 0;
    assert(text::texts(targets@) =~= Seq::empty());
    assert(all.take(0) =~= Seq::empty());
    while i < pieces.len()
        invariant
            i <= pieces.len(),
            all == text::texts(pieces@),
            text::texts(targets@) == watched(all.take(i as int)),
        decreases pieces.len() - i,
    {
        let ghost before = targets@;
        assert(all.take(i + 1).drop_last() =~= all.take(i as int));
        assert(all.take(i + 1).last() == pieces@[i as int]@);
        let target = trim(pieces[i].as_str());
        if !target.as_str().is_empty() {
            targets.push(target);
            assert(text::texts(targets@) =~= text::texts(before).push(target@));
        }
        i += 1;
    }
    assert(all.take(all.len() as int) =~= all);
    targets
}

/// What is said of an event is in its fields.
pub proof fn law_an_event_says_its_fields(event: Event)
    ensures
        event@.seq == event.seq,
        event@.ts == event.ts,
        event@.device == event.device@,
        event@.kind == event.kind@,
        event@.data == event.data@,
{
}

/// What is said of a state is in its fields.
pub proof fn law_a_state_says_its_fields(state: DeviceState)
    ensures
        state@.device == state.device@,
        state@.fingerprint == state.fingerprint@,
        state@.entries.len() == state.entries@.len(),
        forall|i: int|
            0 <= i < state.entries@.len() ==> #[trigger] state@.entries[i] == state.entries@[i]@,
        state@.vv == state.vv@,
        state@.reachable == state.reachable,
        state@.online == state.online,
        state@.last_seen == state.last_seen,
{
}

/// Lists of events and of states say what their members say, one for one.
pub proof fn law_reports_one_for_one(events: Seq<Event>, devices: Seq<DeviceState>)
    ensures
        events_view(events).len() == events.len(),
        forall|i: int| 0 <= i < events.len() ==> #[trigger] events_view(events)[i] == events[i]@,
        devices_view(devices).len() == devices.len(),
        forall|i: int|
            0 <= i < devices.len() ==> #[trigger] devices_view(devices)[i] == devices[i]@,
{
}

/// What is cut off a list is only what is past its first `n`.
pub proof fn law_at_most_keeps_the_front<T>(s: Seq<T>, n: nat)
    ensures
        at_most(s, n).len() <= n,
        at_most(s, n).len() == s.len() || at_most(s, n).len() == n,
        at_most(s, n).len() <= s.len(),
        forall|i: int| 0 <= i < at_most(s, n).len() ==> #[trigger] at_most(s, n)[i] == s[i],
{
}

/// A new event stands in front with the next number, those before it follow
/// in their order, all of them while they are fewer than the limit and else
/// all but the oldest; nothing else changes.
pub proof fn law_a_new_event_stands_in_front(
    before: MonitorView,
    ts: u64,
    device: Seq<char>,
    kind: Seq<char>,
    data: JsonView,
)
    requires
        before.seq < u64::MAX,
        before.events.len() <= 400,
    ensures
        ({
            let after = before.ingested(ts, device, kind, data);
            &&& after.seq == before.seq + 1
            &&& after.events.len() == if before.events.len() < 400 {
                before.events.len() + 1
            } else {
                400
            }
            &&& after.events[0].seq == before.seq + 1
            &&& after.events[0].ts == ts
            &&& after.events[0].device == device
            &&& after.events[0].kind == kind
            &&& after.events[0].data == data
            &&& forall|i: int|
                0 < i < after.events.len() ==> #[trigger] after.events[i] == before.events[i - 1]
            &&& after.devices == before.devices
            &&& after.by_target == before.by_target
            &&& after.target_of == before.target_of
        }),
{
}

/// An observer starts with nothing.
pub proof fn law_a_new_observer_has_seen_nothing()
    ensures
        MonitorView::fresh().events.len() == 0,
        MonitorView::fresh().seq == 0,
        MonitorView::fresh().devices == Map::<Seq<char>, DeviceView>::empty(),
        MonitorView::fresh().by_target == Map::<Seq<char>, Seq<char>>::empty(),
        MonitorView::fresh().target_of == Map::<Seq<char>, Seq<char>>::empty(),
{
}

/// A node goes by the name that it reports, if that is a text, and else by
/// its target.
pub proof fn law_the_name_is_the_reported_one(target: Seq<char>, state: JsonView)
    ensures
        state.member("device"@) is Some && state.member("device"@)->0 is Text ==> JsonView::Text(
            reported_name(target, state),
        ) == state.member("device"@)->0,
        state.member("device"@) is Some && !(state.member("device"@)->0 is Text) ==> reported_name(
            target,
            state,
        ) == target,
        state.member("device"@) is None ==> reported_name(target, state) == target,
{
}

/// The state that is taken down is the one reported, field by field; a
/// field that is missing or of another kind has its default.
pub proof fn law_the_state_is_the_reported_one(target: Seq<char>, state: JsonView, now: u64)
    ensures
        ({
            let taken = reported_state(target, state, now);
            let fingerprint = state.member("fingerprint"@);
            let entries = state.member("entries"@);
            let vv = state.member("vv"@);
            &&& taken.device == reported_name(target, state)
            &&& if fingerprint is Some && fingerprint->0 is Text {
                fingerprint->0 == JsonView::Text(taken.fingerprint)
            } else {
                taken.fingerprint.len() == 0
            }
            &&& if entries is Some && entries->0 is Array {
                entries->0 == JsonView::Array(taken.entries)
            } else {
                taken.entries.len() == 0
            }
            &&& if vv is Some {
                vv->0 == taken.vv
            } else {
                taken.vv == JsonView::Object(Seq::empty())
            }
            &&& taken.reachable
            &&& taken.online <==> state.member("online"@) != Some(JsonView::Bool(false))
            &&& taken.last_seen == now
        }),
{
}

/// An answer is taken down under the name of the node, which its target
/// then stands for and which is then reached at its target; nothing is
/// forgotten of any other node.
pub proof fn law_an_answer_is_taken_down(
    before: MonitorView,
    target: Seq<char>,
    state: JsonView,
    now: u64,
    other: Seq<char>,
)
    ensures
        ({
            let after = before.answered(target, state, now);
            let name = reported_name(target, state);
            &&& after.devices.contains_key(name)
            &&& after.devices[name] == reported_state(target, state, now)
            &&& after.by_target.contains_key(target)
            &&& after.by_target[target] == name
            &&& after.target_of.contains_key(name)
            &&& after.target_of[name] == target
            &&& other != name ==> {
                &&& after.devices.contains_key(other) == before.devices.contains_key(other)
                &&& before.devices.contains_key(other) ==> after.devices[other]
                    == before.devices[other]
                &&& after.target_of.contains_key(other) == before.target_of.contains_key(other)
                &&& before.target_of.contains_key(other) ==> after.target_of[other]
                    == before.target_of[other]
            }
            &&& other != target ==> {
                &&& after.by_target.contains_key(other) == before.by_target.contains_key(other)
                &&& before.by_target.contains_key(other) ==> after.by_target[other]
                    == before.by_target[other]
            }
            &&& after.events == before.events
            &&& after.seq == before.seq
        }),
{
}

/// A poll without an answer makes the node of that target unreachable, and
/// changes nothing else of it and nothing of any other.
pub proof fn law_a_missing_answer_only_marks_its_node(
    before: MonitorView,
    target: Seq<char>,
    name: Seq<char>,
)
    ensures
        ({
            let after = before.unanswered(target);
            &&& after.devices.contains_key(name) == before.devices.contains_key(name)
            &&& before.devices.contains_key(name) ==> {
                let had = before.devices[name];
                let has = after.devices[name];
                &&& has.device == had.device
                &&& has.fingerprint == had.fingerprint
                &&& has.entries == had.entries
                &&& has.vv == had.vv
                &&& has.online == had.online
                &&& has.last_seen == had.last_seen
                &&& has.reachable <==> had.reachable && !(before.by_target.contains_key(target)
                    && before.by_target[target] == name)
            }
            &&& after.by_target == before.by_target
            &&& after.target_of == before.target_of
            &&& after.events == before.events
            &&& after.seq == before.seq
        }),
{
}

/// The states are those of the devices in the order of their names.
pub proof fn law_states_are_listed_by_name(devices: Map<Seq<char>, DeviceView>, i: int)
    requires
        textmap::listable(devices),
    ensures
        states(devices).len() == devices.dom().len(),
        states(devices).len() == textmap::listing(devices).len(),
        0 <= i < states(devices).len() ==> {
            &&& devices.contains_key(textmap::listing(devices)[i].0)
            &&& states(devices)[i] == devices[textmap::listing(devices)[i].0]
        },
{
    textmap::law_a_listing_is_as_long_as_the_map(devices);
}

/// Picking those that answer, or those that do not, goes device by device
/// and keeps the order.
pub proof fn law_picking_goes_device_by_device(
    a: Seq<DeviceView>,
    b: Seq<DeviceView>,
    d: DeviceView,
    yes: bool,
)
    ensures
        answering(a + b, yes) == answering(a, yes) + answering(b, yes),
        d.reachable == yes ==> answering(seq![d], yes) == seq![d],
        d.reachable != yes ==> answering(seq![d], yes) == Seq::<DeviceView>::empty(),
    decreases b.len(),
{
    assert(seq![d].drop_last() =~= Seq::empty());
    assert(answering(seq![d].drop_last(), yes) =~= Seq::empty());
    assert(Seq::<DeviceView>::empty().push(d) =~= seq![d]);
    if b.len() == 0 {
        assert(a + b =~= a);
    } else {
        let init = b.drop_last();
        law_picking_goes_device_by_device(a, init, d, yes);
        assert((a + b).drop_last() =~= a + init);
        assert((a + b).last() == b.last());
    }
    assert(answering(a + b, yes) =~= answering(a, yes) + answering(b, yes));
}

proof fn lemma_picked(all: Seq<DeviceView>, yes: bool, d: DeviceView)
    ensures
        answering(all, yes).contains(d) <==> all.contains(d) && d.reachable == yes,
    decreases all.len(),
{
    if all.len() > 0 {
        let init = all.drop_last();
        let last = all.last();
        lemma_picked(init, yes, d);
        broadcast use vstd::seq_lib::group_seq_properties;
        assert(all =~= init.push(last));
        assert(all.contains(d) <==> init.contains(d) || d == last);
    }
}

proof fn lemma_two_picked(all: Seq<DeviceView>, yes: bool)
    ensures
        answering(all, yes).len() >= 1 <==> exists|i: int|
            0 <= i < all.len() && (#[trigger] all[i]).reachable == yes,
        answering(all, yes).len() >= 2 <==> exists|i: int, j: int|
            0 <= i < j < all.len() && (#[trigger] all[i]).reachable == yes
                && (#[trigger] all[j]).reachable == yes,
    decreases all.len(),
{
    if all.len() > 0 {
        let init = all.drop_last();
        let n = all.len() - 1;
        lemma_two_picked(init, yes);
        assert forall|i: int| 0 <= i < n implies init[i] == #[trigger] all[i] by {}
        assert(all[n] == all.last());
        if answering(init, yes).len() >= 1 {
            let i = choose|i: int| 0 <= i < init.len() && (#[trigger] init[i]).reachable == yes;
            assert(all[i].reachable == yes);
        }
        if answering(init, yes).len() >= 2 {
            let (i, j) = choose|i: int, j: int|
                0 <= i < j < init.len() && (#[trigger] init[i]).reachable == yes
                    && (#[trigger] init[j]).reachable == yes;
            assert(all[i].reachable == yes && all[j].reachable == yes);
        }
        if exists|i: int| 0 <= i < all.len() && (#[trigger] all[i]).reachable == yes {
            let i = choose|i: int| 0 <= i < all.len() && (#[trigger] all[i]).reachable == yes;
            if i < n {
                assert(init[i].reachable == yes);
            }
        }
        if exists|i: int, j: int|
            0 <= i < j < all.len() && (#[trigger] all[i]).reachable == yes
                && (#[trigger] all[j]).reachable == yes {
            let (i, j) = choose|i: int, j: int|
                0 <= i < j < all.len() && (#[trigger] all[i]).reachable == yes
                    && (#[trigger] all[j]).reachable == yes;
            assert(init[i].reachable == yes);
            if j < n {
                assert(init[j].reachable == yes);
            }
        }
    }
}

/// Converged means that there are at least two nodes, that every one of them
/// answers, and that any two of them have the same fingerprint. Aligned
/// means that at least two answer, and that any two that answer have the
/// same fingerprint.
pub proof fn law_the_verdict_compares_any_two(all: Seq<DeviceView>)
    ensures
        conclusion(all).0 <==> {
            &&& all.len() >= 2
            &&& forall|i: int| 0 <= i < all.len() ==> (#[trigger] all[i]).reachable
            &&& forall|i: int, j: int|
                0 <= i < all.len() && 0 <= j < all.len() ==> (#[trigger] all[i]).fingerprint == (
                #[trigger] all[j]).fingerprint
        },
        conclusion(all).1 <==> {
            &&& exists|i: int, j: int|
                0 <= i < j < all.len() && (#[trigger] all[i]).reachable && (
                #[trigger] all[j]).reachable
            &&& forall|i: int, j: int|
                0 <= i < all.len() && 0 <= j < all.len() && (#[trigger] all[i]).reachable && (
                #[trigger] all[j]).reachable ==> all[i].fingerprint == all[j].fingerprint
        },
{
    law_converged_means_all_answer_and_agree(all);
    lemma_two_picked(all, true);
    let live = answering(all, true);
    if same_fingerprint(all) {
        assert forall|i: int, j: int|
            0 <= i < all.len() && 0 <= j < all.len() implies (#[trigger] all[i]).fingerprint == (
        #[trigger] all[j]).fingerprint by {
            assert(all[i].fingerprint == all[0].fingerprint);
            assert(all[j].fingerprint == all[0].fingerprint);
        }
    }
    if same_fingerprint(live) {
        assert forall|i: int, j: int|
            0 <= i < all.len() && 0 <= j < all.len() && (#[trigger] all[i]).reachable && (
            #[trigger] all[j]).reachable implies all[i].fingerprint == all[j].fingerprint by {
            lemma_picked(all, true, all[i]);
            lemma_picked(all, true, all[j]);
            let a = choose|a: int| 0 <= a < live.len() && live[a] == all[i];
            let b = choose|b: int| 0 <= b < live.len() && live[b] == all[j];
            assert(live[a].fingerprint == live[0].fingerprint);
            assert(live[b].fingerprint == live[0].fingerprint);
        }
    }
    if forall|i: int, j: int|
        0 <= i < all.len() && 0 <= j < all.len() && (#[trigger] all[i]).reachable && (
        #[trigger] all[j]).reachable ==> all[i].fingerprint == all[j].fingerprint {
        assert forall|a: int| 0 <= a < live.len() implies (#[trigger] live[a]).fingerprint
            == live[0].fingerprint by {
            lemma_picked(all, true, live[a]);
            lemma_picked(all, true, live[0]);
            assert(live.contains(live[a]) && live.contains(live[0]));
            let i = choose|i: int| 0 <= i < all.len() && all[i] == live[a];
            let j = choose|j: int| 0 <= j < all.len() && all[j] == live[0];
            assert(all[i].reachable && all[j].reachable);
        }
    }
    if all.len() >= 2 && (forall|i: int, j: int|
        0 <= i < all.len() && 0 <= j < all.len() ==> (#[trigger] all[i]).fingerprint == (
        #[trigger] all[j]).fingerprint) {
        assert forall|i: int| 0 <= i < all.len() implies (#[trigger] all[i]).fingerprint
            == all[0].fingerprint by {}
    }
}

/// The same, of the states that an observer keeps by name: any two devices
/// that it knows of are compared.
pub proof fn law_the_observer_compares_any_two(devices: Map<Seq<char>, DeviceView>)
    requires
        textmap::listable(devices),
    ensures
        conclusion(states(devices)).0 <==> {
            &&& devices.dom().len() >= 2
            &&& forall|a: Seq<char>| #[trigger] devices.contains_key(a) ==> devices[a].reachable
            &&& forall|a: Seq<char>, b: Seq<char>| #[trigger]
                devices.contains_key(a) && #[trigger] devices.contains_key(b)
                    ==> devices[a].fingerprint == devices[b].fingerprint
        },
        conclusion(states(devices)).1 ==> forall|a: Seq<char>, b: Seq<char>| #[trigger]
            devices.contains_key(a) && #[trigger] devices.contains_key(b) && devices[a].reachable
                && devices[b].reachable ==> devices[a].fingerprint == devices[b].fingerprint,
{
    let all = states(devices);
    let rows = textmap::listing(devices);
    law_the_verdict_compares_any_two(all);
    law_states_are_listed_by_name(devices, 0);
    assert forall|i: int| 0 <= i < all.len() implies devices.contains_key((#[trigger] rows[i]).0)
        && all[i] == devices[rows[i].0] by {
        law_states_are_listed_by_name(devices, i);
    }
    assert forall|a: Seq<char>| #[trigger] devices.contains_key(a) implies exists|i: int|
        0 <= i < rows.len() && (#[trigger] rows[i]).0 == a && all[i] == devices[a] by {
        textmap::law_a_listing_holds_every_pair_once(devices, a, devices[a]);
        let i = choose|i: int| 0 <= i < rows.len() && rows[i] == (a, devices[a]);
        assert(rows[i].0 == a);
    }
    if conclusion(all).0 {
        assert forall|a: Seq<char>| #[trigger]
            devices.contains_key(a) implies devices[a].reachable by {
            let i = choose|i: int|
                0 <= i < rows.len() && (#[trigger] rows[i]).0 == a && all[i] == devices[a];
            assert(all[i].reachable);
        }
        assert forall|a: Seq<char>, b: Seq<char>| #[trigger]
            devices.contains_key(a) && #[trigger] devices.contains_key(
                b,
            ) implies devices[a].fingerprint == devices[b].fingerprint by {
            let i = choose|i: int|
                0 <= i < rows.len() && (#[trigger] rows[i]).0 == a && all[i] == devices[a];
            let j = choose|j: int|
                0 <= j < rows.len() && (#[trigger] rows[j]).0 == b && all[j] == devices[b];
            assert(all[i].fingerprint == all[j].fingerprint);
        }
    }
    if conclusion(all).1 {
        assert forall|a: Seq<char>, b: Seq<char>| #[trigger]
            devices.contains_key(a) && #[trigger] devices.contains_key(b) && devices[a].reachable
                && devices[b].reachable implies devices[a].fingerprint
            == devices[b].fingerprint by {
            let i = choose|i: int|
                0 <= i < rows.len() && (#[trigger] rows[i]).0 == a && all[i] == devices[a];
            let j = choose|j: int|
                0 <= j < rows.len() && (#[trigger] rows[j]).0 == b && all[j] == devices[b];
            assert(all[i].reachable && all[j].reachable);
        }
    }
}

/// The verdict says why: that there is nobody, who does not answer and
/// whether the others are aligned, that there is only one, on what all are
/// aligned, or else what each one has.
pub proof fn law_the_verdict_says_why(
    all: Seq<DeviceView>,
    down: Seq<Seq<char>>,
    labels: Seq<Seq<char>>,
)
    requires
        down.len() == answering(all, false).len(),
        forall|i: int|
            0 <= i < down.len() ==> #[trigger] down[i] == answering(all, false)[i].device,
        labels.len() == all.len(),
        forall|i: int|
            0 <= i < labels.len() ==> #[trigger] labels[i] == all[i].device + seq!['=']
                + all[i].fingerprint,
    ensures
        all.len() == 0 ==> conclusion(all).2 == "no node seen yet"@,
        down.len() > 0 && conclusion(all).1 ==> conclusion(all).2 == "unreachable: "@
            + text::joined(down, ", "@) + " — "@ + "live nodes are aligned with each other"@,
        down.len() > 0 && !conclusion(all).1 ==> conclusion(all).2 == "unreachable: "@
            + text::joined(down, ", "@) + " — "@ + "and live nodes are not aligned"@,
        down.len() == 0 && all.len() == 1 ==> conclusion(all).2
            == "only one node: nothing to converge"@,
        conclusion(all).0 ==> conclusion(all).2 == text::numeral(all.len(), 10)
            + " nodes aligned on "@ + all[0].fingerprint,
        down.len() == 0 && all.len() >= 2 && !conclusion(all).0 ==> conclusion(all).2
            == text::joined(labels, "  "@),
{
    law_converged_means_all_answer_and_agree(all);
    lemma_nobody_missing(all);
    assert(names(answering(all, false)) =~= down);
    let told = all.map_values(|d: DeviceView| name_and_fingerprint(d));
    assert forall|i: int| 0 <= i < all.len() implies #[trigger] told[i] == labels[i] by {
        assert(all[i].device.push('=') =~= all[i].device + seq!['=']);
    }
    assert(told =~= labels);
    if answering(all, false).len() > 0 {
        lemma_two_picked(all, false);
    }
}

/// The targets to watch are found piece by piece, in order: what is left of
/// a piece without the white space around it, unless nothing is.
pub proof fn law_targets_are_found_piece_by_piece(
    a: Seq<Seq<char>>,
    b: Seq<Seq<char>>,
    piece: Seq<char>,
)
    ensures
        watched(a + b) == watched(a) + watched(b),
        text::trimmed(piece).len() > 0 ==> watched(seq![piece]) == seq![text::trimmed(piece)],
        text::trimmed(piece).len() == 0 ==> watched(seq![piece]) == Seq::<Seq<char>>::empty(),
    decreases b.len(),
{
    assert(seq![piece].drop_last() =~= Seq::empty());
    assert(watched(seq![piece].drop_last()) =~= Seq::empty());
    assert(Seq::<Seq<char>>::empty().push(text::trimmed(piece)) =~= seq![text::trimmed(piece)]);
    if b.len() == 0 {
        assert(a + b =~= a);
    } else {
        law_targets_are_found_piece_by_piece(a, b.drop_last(), piece);
        assert((a + b).drop_last() =~= a + b.drop_last());
        assert((a + b).last() == b.last());
    }
    assert(watched(a + b) =~= watched(a) + watched(b));
}

} // verus!
