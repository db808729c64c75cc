//! A node: one replica, what it tells its user and its peers, and what it
//! does with what they say.
//!
//! What a user on the same machine asks for is answered whatever the state
//! of the network. What peers ask for, and what this node asks of them,
//! depends on the online switch: while it is off the node neither contacts
//! anybody nor answers anybody, and it catches up once it is on again.

use crate::clock;
use crate::dataset;
use crate::discovery;
use crate::discovery::{announcement_counts, Ip, Peer, PeerView, PexCache};
use crate::laws;
use crate::op;
use crate::op::{Op, OpKind, OpView};
use crate::replica;
use crate::replica::{Intake, LiveEntry, Replica, ReplicaView, VersionVector};
use crate::settings;
use crate::settings::endpoint;
use crate::text;
use crate::text::{hexadecimal, same_text};
use crate::textmap;
use crate::textmap::TextMap;
use vstd::prelude::*;

verus! {

/// The version of the protocol between nodes.
pub const PROTO: u32 = 1;

/// The answer to a peer while the node is offline.
pub const SERVICE_UNAVAILABLE: u16 = 503;

/// The answer to a caller from elsewhere that asks for what only a local
/// one may.
pub const FORBIDDEN: u16 = 403;

/// A node.
pub struct Node {
    pub replica: Replica,
    pub hostname: String,
    pub port: u16,
    pub advertise: String,
    pub peer_prefix: String,
    pub pex: PexCache,
    pub online: bool,
}

/// What a node is.
#[verifier::ext_equal]
pub struct NodeView {
    pub replica: ReplicaView,
    pub hostname: Seq<char>,
    pub port: u16,
    pub advertise: Seq<char>,
    pub peer_prefix: Seq<char>,
    pub pex: Map<Seq<char>, PeerView>,
    pub online: bool,
}

impl View for Node {
    type V = NodeView;

    open spec fn view(&self) -> NodeView {
        NodeView {
            replica: self.replica@,
            hostname: self.hostname@,
            port: self.port,
            advertise: self.advertise@,
            peer_prefix: self.peer_prefix@,
            pex: self.pex@,
            online: self.online,
        }
    }
}

impl NodeView {
    /// This node as its peers should know it.
    pub open spec fn me(self) -> PeerView {
        PeerView {
            hostname: self.hostname,
            addr: self.advertise,
            device_id: self.replica.device,
        }
    }

    /// The fingerprint of the visible state as it is written.
    pub open spec fn fingerprint_text(self) -> Seq<char> {
        text::numeral(
            replica::fingerprint(dataset::live(self.replica.data.entries)) as nat,
            16,
        )
    }

    /// The live entities with their values, by name.
    pub open spec fn visible(self) -> Seq<(Seq<char>, Seq<char>)> {
        textmap::listing(dataset::live(self.replica.data.entries))
    }
}

/// Lets a caller at the local interface in only from this machine, unless
/// the check is switched off.
pub fn require_loopback(caller: &Ip, insecure: bool) -> (verdict: Result<(), u16>)
    ensures
        verdict == if insecure || caller.loopback() {
            Ok::<(), u16>(())
        } else {
            Err::<(), u16>(FORBIDDEN)
        },
{
    if insecure || caller.is_loopback() {
        Ok(())
    } else {
        Err(FORBIDDEN)
    }
}

/// The answer to a local write, and the operation to append to the log.
pub struct WriteReply {
    pub seq: u64,
    pub vv: VersionVector,
    pub op: Op,
}

/// The answer to a local look at the state.
pub struct StateReply {
    pub device: String,
    pub entries: Vec<LiveEntry>,
    pub vv: VersionVector,
    pub fingerprint: String,
    pub online: bool,
}

/// What a node says of itself to its peers.
pub struct NodeReply {
    pub proto: u32,
    pub device_id: String,
    pub hostname: String,
    pub port: u16,
    pub entries: usize,
    pub fingerprint: String,
}

/// The answer to operations that a peer pushed: what became of them, and
/// the version vector afterwards.
pub struct PushReply {
    pub intake: Intake,
    pub vv: VersionVector,
}

/// The kind of operation that a local write makes: without a value it
/// deletes.
pub open spec fn write_kind(value: Option<String>) -> OpKind {
    match value {
        Some(_) => OpKind::Upsert,
        None => OpKind::Delete,
    }
}

/// The value that a local write carries.
pub open spec fn write_value(value: Option<String>) -> Seq<char> {
    match value {
        Some(v) => v@,
        None => Seq::empty(),
    }
}

impl Node {
    /// A node that is online and knows nobody.
    pub fn new(
        replica: Replica,
        hostname: String,
        port: u16,
        advertise: String,
        peer_prefix: String,
    ) -> (node: Self)
        ensures
            node@ == (NodeView {
                replica: replica@,
                hostname: hostname@,
                port,
                advertise: advertise@,
                peer_prefix: peer_prefix@,
                pex: Map::empty(),
                online: true,
            }),
    {
        Node {
            replica,
            hostname,
            port,
            advertise,
            peer_prefix,
            pex: PexCache::new(),
            online: true,
        }
    }

    /// Refuses while the node is offline.
    pub fn guard_online(&self) -> (verdict: Result<(), u16>)
        ensures
            verdict == if self@.online {
                Ok::<(), u16>(())
            } else {
                Err::<(), u16>(SERVICE_UNAVAILABLE)
            },
    {
        if self.online {
            Ok(())
        } else {
            Err(SERVICE_UNAVAILABLE)
        }
    }

    /// A write by the local user: sets the value of an entity, or deletes
    /// the entity where there is none. Online or not makes no difference.
    pub fn local_write(&mut self, entity: &str, value: Option<String>) -> (reply: WriteReply)
        requires
            old(self)@.replica.can_change(),
        ensures
            exists|wall: u64|
                reply.op@ == #[trigger] old(self)@.replica.local_op(
                    entity@,
                    write_kind(value),
                    write_value(value),
                    wall,
                ),
            final(self)@ == (NodeView {
                replica: old(self)@.replica.with_own(reply.op@),
                ..old(self)@
            }),
            reply.seq == old(self)@.replica.seq + 1,
            reply.vv@ == final(self)@.replica.data.vv,
            old(self)@.replica.consistent() ==> final(self)@.replica.consistent(),
            old(self)@.replica.own_current() ==> final(self)@.replica.own_current(),
            reply.op.entity@ == entity@,
            reply.op.device@ == old(self)@.replica.device,
            reply.op.seq == reply.seq,
            match value {
                Some(v) => reply.op.kind == OpKind::Upsert && reply.op.value@ == v@,
                None => reply.op.kind == OpKind::Delete && reply.op.value@.len() == 0,
            },
            old(self)@.replica.consistent() ==> dataset::live(final(self)@.replica.data.entries)
                == match value {
                Some(v) => dataset::live(old(self)@.replica.data.entries).insert(entity@, v@),
                None => dataset::live(old(self)@.replica.data.entries).remove(entity@),
            },
    {
        let ghost before = self@.replica;
        let op = match &value {
            Some(v) => {
                let op = self.replica.local_change(entity, OpKind::Upsert, v.as_str());
                proof {
                    let wall = choose|wall: u64|
                        op@ == #[trigger] before.local_op(entity@, OpKind::Upsert, v@, wall);
                    assert(op@ == before.local_op(
                        entity@,
                        write_kind(value),
                        write_value(value),
                        wall,
                    ));
                }
                op
            },
            None => {
                let op = self.replica.local_change(entity, OpKind::Delete, "");
                proof {
                    reveal_strlit("");
                    assert(""@ =~= write_value(value));
                    let wall = choose|wall: u64|
                        op@ == #[trigger] before.local_op(entity@, OpKind::Delete, ""@, wall);
                    assert(op@ == before.local_op(
                        entity@,
                        write_kind(value),
                        write_value(value),
                        wall,
                    ));
                }
                op
            },
        };
        proof {
            let wall = choose|wall: u64|
                op@ == #[trigger] before.local_op(
                    entity@,
                    write_kind(value),
                    write_value(value),
                    wall,
                );
            law_writes_show_what_was_given(before, entity@, value, wall);
        }
        WriteReply { seq: op.seq, vv: self.replica.version_vector(), op }
    }

    /// A write by the local user at wall time `wall`, or `None` where there is
    /// no number or no counter left for it, and then the node is left as it
    /// was.
    pub fn offer_write_at(&mut self, entity: &str, value: Option<String>, wall: u64) -> (reply:
        Option<WriteReply>)
        ensures
            reply is None <==> old(self)@.replica.seq == u64::MAX || !clock::tick_fits(
                old(self)@.replica.clock,
                wall,
            ),
            match reply {
                Some(r) => {
                    &&& r.op@ == old(self)@.replica.local_op(
                        entity@,
                        write_kind(value),
                        write_value(value),
                        wall,
                    )
                    &&& final(self)@ == (NodeView {
                        replica: old(self)@.replica.with_own(r.op@),
                        ..old(self)@
                    })
                    &&& r.seq == old(self)@.replica.seq + 1
                    &&& r.vv@ == final(self)@.replica.data.vv
                    &&& r.op.entity@ == entity@
                    &&& r.op.device@ == old(self)@.replica.device
                    &&& r.op.seq == r.seq
                    &&& match value {
                        Some(v) => r.op.kind == OpKind::Upsert && r.op.value@ == v@,
                        None => r.op.kind == OpKind::Delete && r.op.value@.len() == 0,
                    }
                    &&& old(self)@.replica.consistent() ==> dataset::live(
                        final(self)@.replica.data.entries,
                    ) == match value {
                        Some(v) => dataset::live(old(self)@.replica.data.entries).insert(
                            entity@,
                            v@,
                        ),
                        None => dataset::live(old(self)@.replica.data.entries).remove(entity@),
                    }
                },
                None => final(self)@ == old(self)@,
            },
            old(self)@.replica.consistent() ==> final(self)@.replica.consistent(),
            old(self)@.replica.own_current() ==> final(self)@.replica.own_current(),
    {
        proof {
            reveal_strlit("");
            assert(""@ =~= Seq::empty());
            law_writes_show_what_was_given(self@.replica, entity@, value, wall);
        }
        let made = match &value {
            Some(v) => self.replica.offer_change_at(entity, OpKind::Upsert, v.as_str(), wall),
            None => self.replica.offer_change_at(entity, OpKind::Delete, "", wall),
        };
        match made {
            Some(op) => Some(WriteReply { seq: op.seq, vv: self.replica.version_vector(), op }),
            None => None,
        }
    }

    /// The state, for the local user. Online or not makes no difference.
    pub fn local_state(&self) -> (reply: StateReply)
        ensures
            reply.device@ == self@.replica.device,
            replica::live_rows(reply.entries@) == self@.visible(),
            textmap::listable(dataset::live(self@.replica.data.entries)),
            reply.vv@ == self@.replica.data.vv,
            reply.fingerprint@ == self@.fingerprint_text(),
            reply.online == self@.online,
            forall|entity: Seq<char>, value: Seq<char>| #[trigger]
                replica::live_rows(reply.entries@).contains((entity, value)) <==> dataset::live(
                    self@.replica.data.entries,
                ).contains_key(entity) && dataset::live(self@.replica.data.entries)[entity]
                    == value,
            forall|i: int, j: int|
                0 <= i < j < reply.entries@.len() ==> text::lex_lt(
                    (#[trigger] reply.entries@[i]).entity@,
                    (#[trigger] reply.entries@[j]).entity@,
                ),
            reply.entries@.len() == dataset::live(self@.replica.data.entries).dom().len(),
    {
        StateReply {
            device: self.replica.device_id(),
            entries: self.replica.entries(),
            vv: self.replica.version_vector(),
            fingerprint: hexadecimal(self.replica.state_fingerprint() as u128),
            online: self.online,
        }
    }

    /// Flips the online switch. It is never refused: there would be no way
    /// back.
    pub fn set_online(&mut self, online: bool) -> (now: bool)
        ensures
            final(self)@ == (NodeView { online, ..old(self)@ }),
            now == online,
    {
        self.online = online;
        online
    }

    /// This node as its peers should know it.
    pub fn me(&self) -> (peer: Peer)
        ensures
            peer@ == self@.me(),
    {
        Peer {
            hostname: self.hostname.clone(),
            addr: self.advertise.clone(),
            device_id: self.replica.device_id(),
        }
    }

    /// What this node says of itself to a peer.
    pub fn node(&self) -> (reply: Result<NodeReply, u16>)
        ensures
            self@.online <==> reply is Ok,
            match reply {
                Ok(r) => {
                    &&& r.proto == PROTO
                    &&& r.device_id@ == self@.replica.device
                    &&& r.hostname@ == self@.hostname
                    &&& r.port == self@.port
                    &&& r.entries == self@.visible().len()
                    &&& r.entries == dataset::live(self@.replica.data.entries).dom().len()
                    &&& r.fingerprint@ == self@.fingerprint_text()
                },
                Err(status) => status == SERVICE_UNAVAILABLE,
            },
    {
        match self.guard_online() {
            Ok(_) => {},
            Err(status) => {
                return Err(status);
            },
        }
        let entries = self.replica.entries();
        assert(replica::live_rows(entries@).len() == entries@.len());
        Ok(
            NodeReply {
                proto: PROTO,
                device_id: self.replica.device_id(),
                hostname: self.hostname.clone(),
                port: self.port,
                entries: entries.len(),
                fingerprint: hexadecimal(self.replica.state_fingerprint() as u128),
            },
        )
    }

    /// The version vector, for a peer.
    pub fn vv(&self) -> (reply: Result<VersionVector, u16>)
        ensures
            self@.online <==> reply is Ok,
            match reply {
                Ok(vv) => vv@ == self@.replica.data.vv,
                Err(status) => status == SERVICE_UNAVAILABLE,
            },
    {
        match self.guard_online() {
            Ok(_) => Ok(self.replica.version_vector()),
            Err(status) => Err(status),
        }
    }

    /// The operations that a peer is missing.
    pub fn ops_since(&self, vv: &VersionVector) -> (reply: Result<Vec<Op>, u16>)
        ensures
            self@.online <==> reply is Ok,
            match reply {
                Ok(ops) => op::ops_view(ops@) == self@.replica.data.ops_since(vv@),
                Err(status) => status == SERVICE_UNAVAILABLE,
            },
    {
        match self.guard_online() {
            Ok(_) => Ok(self.replica.ops_since(vv)),
            Err(status) => Err(status),
        }
    }
}

/// The peers other than `device`.
pub open spec fn others(peers: Seq<PeerView>, device: Seq<char>) -> Seq<PeerView>
    decreases peers.len(),
{
    if peers.len() == 0 {
        Seq::empty()
    } else if peers.last().device_id != device {
        others(peers.drop_last(), device).push(peers.last())
    } else {
        others(peers.drop_last(), device)
    }
}

/// A step of a sync round that needs the peer.
pub enum Request {
    /// Ask for the operations past this version vector.
    Pull(VersionVector),
    /// Ask for the version vector.
    AskVersion,
    /// Send these operations.
    Push(Vec<Op>),
}

/// What the peer, or the network, answers.
pub enum Answer {
    Ops(Vec<Op>),
    Version(VersionVector),
    Applied(usize),
    Unreachable,
}

/// Where a sync round stands, with how many operations were received and
/// sent so far.
#[derive(Clone, Copy, Debug, PartialEq, Eq, Structural)]
pub enum Round {
    Pulling,
    Asking { pulled: usize },
    Pushing { pulled: usize },
    Over { pulled: usize, pushed: usize },
    Failed,
}

/// What comes of an answer: where the round stands now, what to ask next,
/// and what became of operations that arrived.
pub struct Move {
    pub round: Round,
    pub request: Option<Request>,
    pub intake: Intake,
}

/// Nothing has arrived.
pub open spec fn nothing_taken(intake: Intake) -> bool {
    intake.accepted@.len() == 0 && intake.taken == 0
}

/// `mv` is what a node does in a sync round that stands at `round` when
/// `answer` comes, and `after` the node afterwards. Operations that were
/// asked for are sorted and taken in, then the peer is asked what it has
/// seen, and is sent what it is missing, if anything. Anything unexpected
/// ends the round and leaves the node as it was.
pub open spec fn moved(
    before: NodeView,
    round: Round,
    answer: Answer,
    mv: Move,
    after: NodeView,
) -> bool {
    match (round, answer) {
        (Round::Pulling, Answer::Ops(ops)) => {
            &&& replica::absorbed(before.replica, op::ops_view(ops@), mv.intake, after.replica)
            &&& after == (NodeView { replica: after.replica, ..before })
            &&& if mv.intake.taken == ops@.len() {
                mv.round == (Round::Asking { pulled: mv.intake.accepted.len() }) && mv.request
                    == Some(Request::AskVersion)
            } else {
                mv.round == Round::Failed && mv.request is None
            }
        },
        (Round::Asking { pulled }, Answer::Version(vv)) => {
            let missing = before.replica.data.ops_since(vv@);
            &&& after == before
            &&& nothing_taken(mv.intake)
            &&& if missing.len() == 0 {
                mv.round == (Round::Over { pulled, pushed: 0 }) && mv.request is None
            } else {
                &&& mv.round == (Round::Pushing { pulled })
                &&& mv.request matches Some(Request::Push(ops)) && op::ops_view(ops@) == missing
            }
        },
        (Round::Pushing { pulled }, Answer::Applied(pushed)) => {
            &&& after == before
            &&& nothing_taken(mv.intake)
            &&& mv.round == (Round::Over { pulled, pushed })
            &&& mv.request is None
        },
        _ => {
            &&& after == before
            &&& nothing_taken(mv.intake)
            &&& mv.round == Round::Failed
            &&& mv.request is None
        },
    }
}

/// The addresses of candidates, which are taken to use the same port.
pub open spec fn is_candidate_addr(
    candidates: Seq<(Seq<char>, Seq<char>)>,
    port: u16,
    addr: Seq<char>,
) -> bool {
    exists|i: int|
        0 <= i < candidates.len() && addr == settings::host_port((#[trigger] candidates[i]).1, port)
}

/// The address of a known peer.
pub open spec fn is_peer_addr(peers: Seq<PeerView>, addr: Seq<char>) -> bool {
    exists|i: int| 0 <= i < peers.len() && addr == (#[trigger] peers[i]).addr
}

/// An address that a node contacts: given from the start, of a candidate or
/// of a known peer, and not its own.
pub open spec fn is_target(
    node: NodeView,
    bootstrap: Seq<Seq<char>>,
    candidates: Seq<(Seq<char>, Seq<char>)>,
    addr: Seq<char>,
) -> bool {
    &&& node.online
    &&& addr != node.advertise
    &&& bootstrap.contains(addr) || is_candidate_addr(candidates, node.port, addr) || is_peer_addr(
        discovery::listed_peers(node.pex),
        addr,
    )
}

/// Texts in ascending order, none of them twice.
pub open spec fn ascending_texts(list: Seq<Seq<char>>) -> bool {
    forall|i: int, j: int|
        0 <= i < j < list.len() ==> text::lex_lt(#[trigger] list[i], #[trigger] list[j])
}

impl Node {
    /// Peer exchange, asked by a peer: learns what the peer knows and gives
    /// back all that is known, this node last.
    pub fn peers(&mut self, list: Vec<Peer>) -> (reply: Result<Vec<Peer>, u16>)
        ensures
            old(self)@.online <==> reply is Ok,
            match reply {
                Ok(peers) => {
                    let known = discovery::learned(
                        old(self)@.pex,
                        discovery::peers_view(list@),
                    );
                    &&& final(self)@ == (NodeView { pex: known, ..old(self)@ })
                    &&& discovery::peers_view(peers@) == others(
                        discovery::listed_peers(known),
                        old(self)@.replica.device,
                    ).push(old(self)@.me())
                },
                Err(status) => status == SERVICE_UNAVAILABLE && final(self)@ == old(self)@,
            },
    {
        match self.guard_online() {
            Ok(_) => {},
            Err(status) => {
                return Err(status);
            },
        }
        self.pex.merge(list);
        let me = self.me();
        let known = self.pex.list();
        let ghost all = discovery::peers_view(known@);
        let mut out: Vec<Peer> = Vec::new();
        let mut i: usize = 0;
        assert(discovery::peers_view(out@) =~= Seq::empty());
        assert(all.take(0) =~= Seq::empty());
        while i < known.len()
            invariant
                i <= known.len(),
                all == discovery::peers_view(known@),
                discovery::peers_view(out@) == others(all.take(i as int), me@.device_id),
            decreases known.len() - i,
        {
            let ghost before = out@;
            assert(all.take(i + 1).drop_last() =~= all.take(i as int));
            assert(all.take(i + 1).last() == known@[i as int]@);
            if !same_text(known[i].device_id.as_str(), me.device_id.as_str()) {
                out.push(known[i].clone());
                assert(discovery::peers_view(out@) =~= discovery::peers_view(before).push(
                    known@[i as int]@,
                ));
            }
            i += 1;
        }
        assert(all.take(all.len() as int) =~= all);
        let ghost before = out@;
        out.push(me);
        assert(discovery::peers_view(out@) =~= discovery::peers_view(before).push(me@));
        Ok(out)
    }

    /// Operations that a peer pushes: sorts them and takes them in.
    pub fn ops_push(&mut self, ops: Vec<Op>) -> (reply: Result<PushReply, u16>)
        ensures
            old(self)@.online <==> reply is Ok,
            match reply {
                Ok(r) => {
                    &&& replica::absorbed(
                        old(self)@.replica,
                        op::ops_view(ops@),
                        r.intake,
                        final(self)@.replica,
                    )
                    &&& final(self)@ == (NodeView { replica: final(self)@.replica, ..old(self)@ })
                    &&& r.vv@ == final(self)@.replica.data.vv
                },
                Err(status) => status == SERVICE_UNAVAILABLE && final(self)@ == old(self)@,
            },
            old(self)@.replica.consistent() ==> final(self)@.replica.consistent(),
            old(self)@.replica.own_current() ==> final(self)@.replica.own_current(),
    {
        match self.guard_online() {
            Ok(_) => {},
            Err(status) => {
                return Err(status);
            },
        }
        let intake = self.replica.absorb(ops);
        Ok(PushReply { intake, vv: self.replica.version_vector() })
    }

    /// What a sync round starts with: asking for what this node is missing.
    pub fn start_round(&self) -> (request: Request)
        ensures
            request matches Request::Pull(vv) && vv@ == self@.replica.data.vv,
    {
        Request::Pull(self.replica.version_vector())
    }

    /// One move of a sync round: pull whatever is missing here, push
    /// whatever is missing there. Symmetric, and nothing is shared but the
    /// answers.
    pub fn sync_round(&mut self, round: Round, answer: Answer) -> (mv: Move)
        ensures
            moved(old(self)@, round, answer, mv, final(self)@),
            old(self)@.replica.consistent() ==> final(self)@.replica.consistent(),
            old(self)@.replica.own_current() ==> final(self)@.replica.own_current(),
    {
        match (round, answer) {
            (Round::Pulling, Answer::Ops(ops)) => {
                let n = ops.len();
                let intake = self.replica.absorb(ops);
                if intake.taken == n {
                    Move {
                        round: Round::Asking { pulled: intake.accepted.len() },
                        request: Some(Request::AskVersion),
                        intake,
                    }
                } else {
                    Move { round: Round::Failed, request: None, intake }
                }
            },
            (Round::Asking { pulled }, Answer::Version(vv)) => {
                let intake = Intake { accepted: Vec::new(), taken: 0 };
                let mine = self.replica.ops_since(&vv);
                assert(op::ops_view(mine@).len() == mine@.len());
                if mine.len() == 0 {
                    Move { round: Round::Over { pulled, pushed: 0 }, request: None, intake }
                } else {
                    Move {
                        round: Round::Pushing { pulled },
                        request: Some(Request::Push(mine)),
                        intake,
                    }
                }
            },
            (Round::Pushing { pulled }, Answer::Applied(pushed)) => Move {
                round: Round::Over { pulled, pushed },
                request: None,
                intake: Intake { accepted: Vec::new(), taken: 0 },
            },
            _ => Move {
                round: Round::Failed,
                request: None,
                intake: Intake { accepted: Vec::new(), taken: 0 },
            },
        }
    }

    /// Peer exchange, asked of a peer: what this node knows, itself last.
    pub fn known_peers(&self) -> (peers: Vec<Peer>)
        ensures
            discovery::peers_view(peers@) == discovery::listed_peers(self@.pex).push(self@.me()),
    {
        let mut peers = self.pex.list();
        let ghost before = peers@;
        let me = self.me();
        peers.push(me);
        assert(discovery::peers_view(peers@) =~= discovery::peers_view(before).push(me@));
        peers
    }

    /// Peer exchange, answered by a peer: learns what it knows.
    pub fn learn(&mut self, list: Vec<Peer>)
        ensures
            final(self)@ == (NodeView {
                pex: discovery::learned(old(self)@.pex, discovery::peers_view(list@)),
                ..old(self)@
            }),
    {
        self.pex.merge(list);
    }

    /// An announcement on the local network: learns of the peer if it
    /// counts, and says whether it did.
    pub fn hear(&mut self, peer: Peer) -> (counted: bool)
        ensures
            counted == discovery::counts(
                peer@,
                old(self)@.replica.device,
                old(self)@.peer_prefix,
            ),
            final(self)@ == if counted {
                NodeView { pex: old(self)@.pex.insert(peer@.device_id, peer@), ..old(self)@ }
            } else {
                old(self)@
            },
    {
        let me = self.replica.device_id();
        if announcement_counts(&peer, me.as_str(), self.peer_prefix.as_str()) {
            let list = vec![peer];
            proof {
                let views = discovery::peers_view(list@);
                assert(views =~= seq![peer@]);
                assert(views.drop_last() =~= Seq::empty());
                assert(discovery::learned(self@.pex, views.drop_last()) == self@.pex);
            }
            self.pex.merge(list);
            true
        } else {
            false
        }
    }

    /// Whom to contact in a round of anti-entropy, in order: everybody that
    /// is known of, but not this node itself, and nobody while offline.
    pub fn targets(
        &self,
        bootstrap: &Vec<String>,
        candidates: &Vec<(String, String)>,
    ) -> (addrs: Vec<String>)
        ensures
            ascending_texts(text::texts(addrs@)),
            forall|addr: Seq<char>| #[trigger]
                text::texts(addrs@).contains(addr) <==> is_target(
                    self@,
                    text::texts(bootstrap@),
                    discovery::pairs_view(candidates@),
                    addr,
                ),
            self.online ==> forall|i: int|
                0 <= i < bootstrap@.len() && (#[trigger] bootstrap@[i])@ != self.advertise@
                    ==> text::texts(addrs@).contains(bootstrap@[i]@),
            self.online ==> forall|i: int|
                0 <= i < candidates@.len() && settings::host_port(
                    (#[trigger] candidates@[i]).1@,
                    self.port,
                ) != self.advertise@ ==> text::texts(addrs@).contains(
                    settings::host_port(candidates@[i].1@, self.port),
                ),
            self.online ==> forall|device: Seq<char>| #[trigger]
                self.pex@.contains_key(device) && self.pex@[device].addr != self.advertise@
                    ==> text::texts(addrs@).contains(self.pex@[device].addr),
            !self.online ==> addrs@.len() == 0,
    {
        let mut addrs: Vec<String> = Vec::new();
        if !self.online {
            assert(text::texts(addrs@) =~= Seq::empty());
            return addrs;
        }
        let all = self.every_address(bootstrap, candidates);
        let n = all.len();
        let ghost rows = textmap::listing(all@);
        let ghost mut from: Seq<int> = Seq::empty();
        let mut i: usize = 0;
        while i < n
            invariant
                i <= n,
                n == rows.len(),
                rows == textmap::listing(all@),
                textmap::is_listing(rows, all@),
                from.len() == addrs.len(),
                forall|k: int|
                    0 <= k < addrs.len() ==> 0 <= #[trigger] from[k] < i && addrs@[k]@
                        == rows[from[k]].0 && addrs@[k]@ != self@.advertise,
                forall|k: int, m: int|
                    0 <= k < m < addrs.len() ==> #[trigger] from[k] < #[trigger] from[m],
                forall|j: int|
                    0 <= j < i && (#[trigger] rows[j]).0 != self@.advertise ==> text::texts(
                        addrs@,
                    ).contains(rows[j].0),
            decreases n - i,
        {
            let addr = all.key_at(i);
            let ghost before = addrs@;
            if !same_text(addr.as_str(), self.advertise.as_str()) {
                addrs.push(addr.clone());
                proof {
                    let grown = text::texts(addrs@);
                    assert(grown =~= text::texts(before).push(addr@));
                    assert(grown[before.len() as int] == addr@);
                    assert forall|j: int|
                        0 <= j < i && (#[trigger] rows[j]).0 != self@.advertise implies grown.contains(
                        rows[j].0,
                    ) by {
                        let k = choose|k: int|
                            0 <= k < before.len() && text::texts(before)[k] == rows[j].0;
                        assert(grown[k] == rows[j].0);
                    }
                    from = from.push(i as int);
                }
            }
            i += 1;
        }
        proof {
            let list = text::texts(addrs@);
            assert forall|a: int, b: int| 0 <= a < b < list.len() implies text::lex_lt(
                #[trigger] list[a],
                #[trigger] list[b],
            ) by {
                assert(from[a] < from[b]);
                assert(rows[from[a]].0 == list[a]);
                assert(rows[from[b]].0 == list[b]);
            }
            assert forall|addr: Seq<char>| #[trigger] list.contains(addr) <==> is_target(
                self@,
                text::texts(bootstrap@),
                discovery::pairs_view(candidates@),
                addr,
            ) by {
                if list.contains(addr) {
                    let k = choose|k: int| 0 <= k < list.len() && list[k] == addr;
                    assert(0 <= from[k] < n);
                    assert(all@.contains_key(rows[from[k]].0));
                }
                if all@.contains_key(addr) && addr != self@.advertise {
                    let j = choose|j: int| 0 <= j < rows.len() && (#[trigger] rows[j]).0 == addr;
                    assert(list.contains(rows[j].0));
                }
            }
            let given = text::texts(bootstrap@);
            let pairs = discovery::pairs_view(candidates@);
            assert forall|i: int|
                0 <= i < bootstrap@.len() && (#[trigger] bootstrap@[i])@
                    != self.advertise@ implies list.contains(bootstrap@[i]@) by {
                assert(given[i] == bootstrap@[i]@);
                law_everybody_known_of_is_a_target(self@, given, pairs, given[i]);
            }
            assert forall|i: int|
                0 <= i < candidates@.len() && settings::host_port(
                    (#[trigger] candidates@[i]).1@,
                    self.port,
                ) != self.advertise@ implies list.contains(
                settings::host_port(candidates@[i].1@, self.port),
            ) by {
                assert(pairs[i].1 == candidates@[i].1@);
                law_everybody_known_of_is_a_target(
                    self@,
                    given,
                    pairs,
                    settings::host_port(pairs[i].1, self.port),
                );
            }
            assert forall|device: Seq<char>| #[trigger]
                self.pex@.contains_key(device) && self.pex@[device].addr
                    != self.advertise@ implies list.contains(self.pex@[device].addr) by {
                law_known_peers_are_targets(self@, given, pairs, device);
            }
        }
        addrs
    }

    /// Every address that is known of, this node's own among them.
    fn every_address(
        &self,
        bootstrap: &Vec<String>,
        candidates: &Vec<(String, String)>,
    ) -> (all: TextMap<u64>)
        ensures
            forall|addr: Seq<char>| #[trigger]
                all@.contains_key(addr) <==> text::texts(bootstrap@).contains(addr)
                    || is_candidate_addr(discovery::pairs_view(candidates@), self@.port, addr)
                    || is_peer_addr(discovery::listed_peers(self@.pex), addr),
            textmap::listable(self@.pex),
    {
        let mut all: TextMap<u64> = TextMap::new();
        let ghost given = text::texts(bootstrap@);
        let ghost pairs = discovery::pairs_view(candidates@);
        let mut i: usize = 0;
        while i < bootstrap.len()
            invariant
                i <= bootstrap.len(),
                given == text::texts(bootstrap@),
                forall|addr: Seq<char>| #[trigger]
                    all@.contains_key(addr) <==> exists|j: int| 0 <= j < i && given[j] == addr,
            decreases bootstrap.len() - i,
        {
            assert(given[i as int] == bootstrap@[i as int]@);
            all.insert(bootstrap[i].clone(), 0);
            i += 1;
        }
        assert forall|addr: Seq<char>| #[trigger] all@.contains_key(addr) <==> given.contains(
            addr,
        ) by {
            if given.contains(addr) {
                let j = choose|j: int| 0 <= j < given.len() && given[j] == addr;
                assert(given[j] == addr);
            }
        }
        i = 0;
        while i < candidates.len()
            invariant
                i <= candidates.len(),
                pairs == discovery::pairs_view(candidates@),
                forall|addr: Seq<char>| #[trigger]
                    all@.contains_key(addr) <==> given.contains(addr) || exists|j: int|
                        0 <= j < i && addr == settings::host_port(
                            (#[trigger] pairs[j]).1,
                            self@.port,
                        ),
            decreases candidates.len() - i,
        {
            assert(pairs[i as int].1 == candidates@[i as int].1@);
            all.insert(endpoint(candidates[i].1.as_str(), self.port), 0);
            i += 1;
        }
        let peers = self.pex.list();
        let ghost known = discovery::peers_view(peers@);
        i = 0;
        while i < peers.len()
            invariant
                i <= peers.len(),
                known == discovery::peers_view(peers@),
                forall|addr: Seq<char>| #[trigger]
                    all@.contains_key(addr) <==> given.contains(addr) || is_candidate_addr(
                        pairs,
                        self@.port,
                        addr,
                    ) || exists|j: int| 0 <= j < i && addr == (#[trigger] known[j]).addr,
            decreases peers.len() - i,
        {
            assert(known[i as int] == peers@[i as int]@);
            all.insert(peers[i].addr.clone(), 0);
            i += 1;
        }
        all
    }
}

/// An offline node contacts nobody.
pub proof fn law_offline_has_no_targets(
    node: NodeView,
    bootstrap: Seq<Seq<char>>,
    candidates: Seq<(Seq<char>, Seq<char>)>,
    addr: Seq<char>,
)
    requires
        !node.online,
    ensures
        !is_target(node, bootstrap, candidates, addr),
{
}

/// A peer that was learned of becomes a target.
pub proof fn law_known_peers_are_targets(
    node: NodeView,
    bootstrap: Seq<Seq<char>>,
    candidates: Seq<(Seq<char>, Seq<char>)>,
    device: Seq<char>,
)
    requires
        node.online,
        textmap::listable(node.pex),
        node.pex.contains_key(device),
        node.pex[device].addr != node.advertise,
    ensures
        is_target(node, bootstrap, candidates, node.pex[device].addr),
{
    let rows = textmap::listing(node.pex);
    let i = choose|i: int| 0 <= i < rows.len() && (#[trigger] rows[i]).0 == device;
    assert(discovery::listed_peers(node.pex)[i] == node.pex[device]);
}

proof fn lemma_others(peers: Seq<PeerView>, device: Seq<char>, i: int)
    requires
        0 <= i < peers.len(),
        peers[i].device_id != device,
    ensures
        others(peers, device).contains(peers[i]),
    decreases peers.len(),
{
    let init = peers.drop_last();
    let kept = others(peers, device);
    if i == peers.len() - 1 {
        assert(kept[kept.len() - 1] == peers[i]);
    } else {
        assert(init[i] == peers[i]);
        lemma_others(init, device, i);
        let part = others(init, device);
        let k = choose|k: int| 0 <= k < part.len() && part[k] == init[i];
        assert(kept[k] == peers[i]);
    }
}

proof fn lemma_heard_of(known: Map<Seq<char>, PeerView>, peers: Seq<PeerView>, peer: PeerView)
    requires
        peers.contains(peer),
    ensures
        discovery::learned(known, peers).contains_key(peer.device_id),
{
    let i = choose|i: int| 0 <= i < peers.len() && peers[i] == peer;
    discovery::lemma_last_word_exists(peers, i);
    discovery::law_the_last_word_counts(known, peers, peer.device_id);
}

proof fn lemma_listed(known: Map<Seq<char>, PeerView>, device: Seq<char>) -> (i: int)
    requires
        textmap::listable(known),
        known.contains_key(device),
    ensures
        0 <= i < discovery::listed_peers(known).len(),
        discovery::listed_peers(known)[i] == known[device],
{
    let rows = textmap::listing(known);
    choose|i: int| 0 <= i < rows.len() && (#[trigger] rows[i]).0 == device
}

/// A peer exchange spreads what is known both ways: afterwards either side
/// knows every device that one of them knew, and the other side itself.
pub proof fn law_peer_exchange_goes_both_ways(
    asking: NodeView,
    asked: NodeView,
    offer: Seq<PeerView>,
    reply: Seq<PeerView>,
    device: Seq<char>,
)
    requires
        discovery::keyed_by_device(asking.pex),
        discovery::keyed_by_device(asked.pex),
        textmap::listable(asking.pex),
        textmap::listable(discovery::learned(asked.pex, offer)),
        offer == discovery::listed_peers(asking.pex).push(asking.me()),
        reply == others(
            discovery::listed_peers(discovery::learned(asked.pex, offer)),
            asked.replica.device,
        ).push(asked.me()),
        asking.pex.contains_key(device) || asked.pex.contains_key(device),
    ensures
        discovery::learned(asked.pex, offer).contains_key(device),
        discovery::learned(asked.pex, offer).contains_key(asking.replica.device),
        discovery::learned(asking.pex, reply).contains_key(device),
        discovery::learned(asking.pex, reply).contains_key(asked.replica.device),
{
    let there = discovery::learned(asked.pex, offer);
    let listed = discovery::listed_peers(there);
    assert(offer[offer.len() - 1] == asking.me());
    assert(offer.contains(asking.me()));
    lemma_heard_of(asked.pex, offer, asking.me());
    if asking.pex.contains_key(device) {
        let i = lemma_listed(asking.pex, device);
        assert(offer[i] == asking.pex[device]);
        lemma_heard_of(asked.pex, offer, asking.pex[device]);
    } else {
        discovery::law_the_last_word_counts(asked.pex, offer, device);
    }
    assert(reply[reply.len() - 1] == asked.me());
    assert(reply.contains(asked.me()));
    lemma_heard_of(asking.pex, reply, asked.me());
    if device != asked.replica.device {
        let i = lemma_listed(there, device);
        discovery::law_learning_keeps_the_keys(asked.pex, offer);
        lemma_others(listed, asked.replica.device, i);
        let kept = others(listed, asked.replica.device);
        let k = choose|k: int| 0 <= k < kept.len() && kept[k] == listed[i];
        assert(reply[k] == there[device]);
        lemma_heard_of(asking.pex, reply, there[device]);
    }
}

/// What is said of a node is in its fields.
pub proof fn law_a_node_says_its_fields(node: Node)
    ensures
        node@.replica == node.replica@,
        node@.hostname == node.hostname@,
        node@.port == node.port,
        node@.advertise == node.advertise@,
        node@.peer_prefix == node.peer_prefix@,
        node@.pex == node.pex@,
        node@.online == node.online,
{
}

/// A node presents itself by its name, the address it advertises and its
/// device.
pub proof fn law_a_node_presents_itself(node: NodeView)
    ensures
        node.me().hostname == node.hostname,
        node.me().addr == node.advertise,
        node.me().device_id == node.replica.device,
{
}

/// A write sets the entity to the text that was given, character for
/// character, or removes the entity where none was given, and touches no
/// other: that holds of the operation and of the live state.
pub proof fn law_writes_show_what_was_given(
    before: ReplicaView,
    entity: Seq<char>,
    value: Option<String>,
    wall: u64,
)
    ensures
        ({
            let o = before.local_op(entity, write_kind(value), write_value(value), wall);
            let after = before.with_own(o);
            &&& o.entity == entity
            &&& o.device == before.device
            &&& match value {
                Some(v) => o.kind == OpKind::Upsert && o.value == v@,
                None => o.kind == OpKind::Delete && o.value.len() == 0,
            }
            &&& before.consistent() && clock::tick_fits(before.clock, wall) ==> dataset::live(
                after.data.entries,
            ) == match value {
                Some(v) => dataset::live(before.data.entries).insert(entity, v@),
                None => dataset::live(before.data.entries).remove(entity),
            }
        }),
{
    if before.consistent() && clock::tick_fits(before.clock, wall) {
        laws::law_local_write_wins(before, entity, write_kind(value), write_value(value), wall);
    }
}

/// The state that is shown lists an entity with a value exactly if that is
/// the live value of the entity, each entity once and in ascending order,
/// and there are as many rows as live entities.
pub proof fn law_the_state_lists_every_live_entity(
    node: NodeView,
    entity: Seq<char>,
    value: Seq<char>,
)
    requires
        textmap::listable(dataset::live(node.replica.data.entries)),
    ensures
        node.visible().contains((entity, value)) <==> node.replica.data.entries.contains_key(
            entity,
        ) && node.replica.data.entries[entity].value == Some(value),
        node.visible().contains((entity, value)) <==> dataset::live(
            node.replica.data.entries,
        ).contains_key(entity) && dataset::live(node.replica.data.entries)[entity] == value,
        forall|i: int, j: int|
            0 <= i < j < node.visible().len() ==> text::lex_lt(
                (#[trigger] node.visible()[i]).0,
                (#[trigger] node.visible()[j]).0,
            ),
        node.visible().len() == dataset::live(node.replica.data.entries).dom().len(),
{
    let shown = dataset::live(node.replica.data.entries);
    textmap::law_a_listing_holds_every_pair_once(shown, entity, value);
    textmap::law_a_listing_is_as_long_as_the_map(shown);
}

/// The fingerprint is written in hexadecimal, and it is that of all rows
/// that are shown.
pub proof fn law_the_fingerprint_is_written_in_full(node: NodeView)
    ensures
        node.fingerprint_text() == text::numeral(
            replica::fingerprint(dataset::live(node.replica.data.entries)) as nat,
            16,
        ),
{
}

/// While a node is online, every address that was given from the start,
/// every candidate at the node's port and every known peer is contacted,
/// unless it is the node itself; and nobody else is.
pub proof fn law_everybody_known_of_is_a_target(
    node: NodeView,
    bootstrap: Seq<Seq<char>>,
    candidates: Seq<(Seq<char>, Seq<char>)>,
    addr: Seq<char>,
)
    requires
        node.online,
        addr != node.advertise,
        textmap::listable(node.pex),
    ensures
        bootstrap.contains(addr) ==> is_target(node, bootstrap, candidates, addr),
        (exists|i: int|
            0 <= i < candidates.len() && addr == settings::host_port(
                (#[trigger] candidates[i]).1,
                node.port,
            )) ==> is_target(node, bootstrap, candidates, addr),
        (exists|device: Seq<char>| #[trigger]
            node.pex.contains_key(device) && node.pex[device].addr == addr) ==> is_target(
            node,
            bootstrap,
            candidates,
            addr,
        ),
        is_target(node, bootstrap, candidates, addr) ==> {
            ||| bootstrap.contains(addr)
            ||| exists|i: int|
                0 <= i < candidates.len() && addr == settings::host_port(
                    (#[trigger] candidates[i]).1,
                    node.port,
                )
            ||| exists|device: Seq<char>| #[trigger]
                node.pex.contains_key(device) && node.pex[device].addr == addr
        },
{
    let listed = discovery::listed_peers(node.pex);
    let rows = textmap::listing(node.pex);
    if exists|device: Seq<char>| #[trigger]
        node.pex.contains_key(device) && node.pex[device].addr == addr {
        let device = choose|device: Seq<char>| #[trigger]
            node.pex.contains_key(device) && node.pex[device].addr == addr;
        law_known_peers_are_targets(node, bootstrap, candidates, device);
    }
    if is_peer_addr(listed, addr) {
        let i = choose|i: int| 0 <= i < listed.len() && addr == (#[trigger] listed[i]).addr;
        assert(listed[i] == rows[i].1);
        assert(node.pex.contains_key(rows[i].0));
    }
}

/// A node never contacts itself, and while it is offline it contacts nobody.
pub proof fn law_some_are_never_targets(
    node: NodeView,
    bootstrap: Seq<Seq<char>>,
    candidates: Seq<(Seq<char>, Seq<char>)>,
    addr: Seq<char>,
)
    ensures
        !node.online || addr == node.advertise ==> !is_target(node, bootstrap, candidates, addr),
{
}

/// Texts are in ascending order if each one comes before those further on:
/// then none occurs twice.
pub proof fn law_ascending_texts_differ(list: Seq<Seq<char>>)
    ensures
        ascending_texts(list) <==> forall|i: int, j: int|
            0 <= i < j < list.len() ==> text::lex_lt(#[trigger] list[i], #[trigger] list[j]),
        ascending_texts(list) ==> forall|i: int, j: int|
            0 <= i < j < list.len() ==> #[trigger] list[i] != #[trigger] list[j],
{
    if ascending_texts(list) {
        assert forall|i: int, j: int|
            0 <= i < j < list.len() implies #[trigger] list[i] != #[trigger] list[j] by {
            text::lemma_lex_irreflexive(list[i]);
        }
    }
}

/// Leaving a device out goes peer by peer, keeps the order and leaves out
/// nobody else.
pub proof fn law_leaving_out_goes_peer_by_peer(
    a: Seq<PeerView>,
    b: Seq<PeerView>,
    peer: PeerView,
    device: Seq<char>,
)
    ensures
        others(a + b, device) == others(a, device) + others(b, device),
        peer.device_id != device ==> others(seq![peer], device) == seq![peer],
        peer.device_id == device ==> others(seq![peer], device) == Seq::<PeerView>::empty(),
    decreases b.len(),
{
    assert(seq![peer].drop_last() =~= Seq::empty());
    assert(others(seq![peer].drop_last(), device) =~= Seq::empty());
    assert(Seq::<PeerView>::empty().push(peer) =~= seq![peer]);
    if b.len() == 0 {
        assert(a + b =~= a);
    } else {
        law_leaving_out_goes_peer_by_peer(a, b.drop_last(), peer, device);
        assert((a + b).drop_last() =~= a + b.drop_last());
        assert((a + b).last() == b.last());
    }
    assert(others(a + b, device) =~= others(a, device) + others(b, device));
}

/// Operations that were asked for are taken in, and counted; if all could
/// be dealt with, the peer is asked what it has seen, and else the round is
/// off.
pub proof fn law_pulled_operations_are_taken_in(
    before: NodeView,
    ops: Vec<Op>,
    mv: Move,
    after: NodeView,
)
    requires
        moved(before, Round::Pulling, Answer::Ops(ops), mv, after),
    ensures
        replica::absorbed(before.replica, op::ops_view(ops@), mv.intake, after.replica),
        after.hostname == before.hostname,
        after.port == before.port,
        after.advertise == before.advertise,
        after.peer_prefix == before.peer_prefix,
        after.pex == before.pex,
        after.online == before.online,
        mv.intake.taken == ops@.len() ==> {
            &&& mv.round matches Round::Asking { pulled } && pulled == mv.intake.accepted@.len()
            &&& mv.request matches Some(Request::AskVersion)
        },
        mv.intake.taken != ops@.len() ==> mv.round is Failed && mv.request is None,
{
}

/// A peer that says what it has seen is sent exactly what it is missing,
/// and where it misses nothing the round is over; either way this node
/// stays as it was.
pub proof fn law_a_peer_is_sent_what_it_misses(
    before: NodeView,
    pulled: usize,
    vv: VersionVector,
    mv: Move,
    after: NodeView,
)
    requires
        moved(before, Round::Asking { pulled }, Answer::Version(vv), mv, after),
    ensures
        after == before,
        mv.intake.accepted@.len() == 0,
        mv.intake.taken == 0,
        dataset::ops_beyond(before.replica.data.log, vv@).len() == 0 ==> {
            &&& mv.round matches Round::Over { pulled: p, pushed } && p == pulled && pushed == 0
            &&& mv.request is None
        },
        dataset::ops_beyond(before.replica.data.log, vv@).len() > 0 ==> {
            &&& mv.round matches Round::Pushing { pulled: p } && p == pulled
            &&& mv.request matches Some(Request::Push(ops)) && op::ops_view(ops@)
                == dataset::ops_beyond(before.replica.data.log, vv@)
        },
{
}

/// A peer that says how many operations it took ends the round, which then
/// tells both counts.
pub proof fn law_a_round_ends_with_both_counts(
    before: NodeView,
    pulled: usize,
    pushed: usize,
    mv: Move,
    after: NodeView,
)
    requires
        moved(before, Round::Pushing { pulled }, Answer::Applied(pushed), mv, after),
    ensures
        after == before,
        mv.intake.accepted@.len() == 0,
        mv.intake.taken == 0,
        mv.round matches Round::Over { pulled: p, pushed: q } && p == pulled && q == pushed,
        mv.request is None,
{
}

/// An answer that does not belong to where the round stands, or that did
/// not come, ends the round and leaves the node as it was.
pub proof fn law_anything_else_ends_the_round(
    before: NodeView,
    round: Round,
    answer: Answer,
    mv: Move,
    after: NodeView,
)
    requires
        moved(before, round, answer, mv, after),
        answer is Unreachable || !(round is Pulling && answer is Ops || round is Asking
            && answer is Version || round is Pushing && answer is Applied),
    ensures
        after == before,
        mv.intake.accepted@.len() == 0,
        mv.intake.taken == 0,
        mv.round is Failed,
        mv.request is None,
{
}

/// The statuses and the version that nodes agree on.
pub proof fn law_what_nodes_agree_on()
    ensures
        PROTO == 1,
        SERVICE_UNAVAILABLE == 503,
        FORBIDDEN == 403,
        discovery::AGENT_PORT == 47100,
        discovery::LAN_DISCOVERY_PORT == 47188,
{
}

} // verus!
