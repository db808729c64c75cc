//! Who the peers are.
//!
//! To this module a peer is an address and nothing more. Three sources add
//! up: the status report of the tailnet daemon, announcements on the local
//! network, and the lists that peers hand each other.

use crate::json;
use crate::json::{Json, JsonView};
use crate::text;
use crate::text::{contains_char, decimal, same_text, starts_with};
use crate::textmap;
use crate::textmap::TextMap;
use vstd::prelude::*;
use vstd::string::StringExecFns;

verus! {

/// The port of the sync interface where none is given.
pub const AGENT_PORT: u16 = 47100;

/// The port for announcements on the local network.
pub const LAN_DISCOVERY_PORT: u16 = 47188;

/// A peer: where it is, and which device it is.
#[derive(Debug, PartialEq, Eq)]
pub struct Peer {
    pub hostname: String,
    pub addr: String,
    pub device_id: String,
}

/// What a peer is.
#[verifier::ext_equal]
pub struct PeerView {
    pub hostname: Seq<char>,
    pub addr: Seq<char>,
    pub device_id: Seq<char>,
}

impl View for Peer {
    type V = PeerView;

    open spec fn view(&self) -> PeerView {
        PeerView {
            hostname: self.hostname@,
            addr: self.addr@,
            device_id: self.device_id@,
        }
    }
}

impl Clone for Peer {
    fn clone(&self) -> (copy: Self)
        ensures
            copy == *self,
    {
        Peer {
            hostname: self.hostname.clone(),
            addr: self.addr.clone(),
            device_id: self.device_id.clone(),
        }
    }
}

/// The peers of a list.
pub open spec fn peers_view(peers: Seq<Peer>) -> Seq<PeerView> {
    peers.map_values(|p: Peer| p@)
}

/// How a node introduces itself together with the services that it runs.
pub struct NodeInfo {
    pub proto: u32,
    pub device_id: String,
    pub hostname: String,
    pub services: TextMap<u16>,
}

/// The known peers after more were heard of: of each device, what was heard
/// last.
pub open spec fn learned(known: Map<Seq<char>, PeerView>, peers: Seq<PeerView>) -> Map<
    Seq<char>,
    PeerView,
>
    decreases peers.len(),
{
    if peers.len() == 0 {
        known
    } else {
        learned(known, peers.drop_last()).insert(peers.last().device_id, peers.last())
    }
}

/// The peers of an ordered listing.
pub open spec fn listed_peers(known: Map<Seq<char>, PeerView>) -> Seq<PeerView> {
    textmap::listing(known).map_values(|row: (Seq<char>, PeerView)| row.1)
}

/// Every known peer is listed under its own device.
pub open spec fn keyed_by_device(known: Map<Seq<char>, PeerView>) -> bool {
    forall|device: Seq<char>| #[trigger]
        known.contains_key(device) ==> known[device].device_id == device
}

/// Peers in the order of their devices, none of which occurs twice.
pub open spec fn devices_ascend(peers: Seq<PeerView>) -> bool {
    forall|i: int, j: int|
        0 <= i < j < peers.len() ==> text::lex_lt(
            (#[trigger] peers[i]).device_id,
            (#[trigger] peers[j]).device_id,
        )
}

/// The known peers, one for each device. It has no authority: it is what
/// others said last.
pub struct PexCache {
    inner: TextMap<Peer>,
}

impl View for PexCache {
    type V = Map<Seq<char>, PeerView>;

    closed spec fn view(&self) -> Map<Seq<char>, PeerView> {
        self.inner@
    }
}

impl Default for PexCache {
    /// Knows nobody yet.
    fn default() -> (cache: Self)
        ensures
            cache@ == Map::<Seq<char>, PeerView>::empty(),
    {
        PexCache::new()
    }
}

impl PexCache {
    #[verifier::type_invariant]
    spec fn keyed(self) -> bool {
        keyed_by_device(self.inner@)
    }

    /// Knows nobody yet.
    pub fn new() -> (cache: Self)
        ensures
            cache@ == Map::<Seq<char>, PeerView>::empty(),
    {
        PexCache { inner: TextMap::new() }
    }

    /// Learns of peers, in the order given.
    pub fn merge(&mut self, peers: Vec<Peer>)
        ensures
            final(self)@ == learned(old(self)@, peers_view(peers@)),
    {
        proof {
            use_type_invariant(&*self);
        }
        let ghost all = peers_view(peers@);
        let ghost start = self@;
        let mut inner: TextMap<Peer> = TextMap::new();
        std::mem::swap(&mut inner, &mut self.inner);
        let mut i: usize = 0;
        while i < peers.len()
            invariant
                i <= peers.len(),
                all == peers_view(peers@),
                inner@ == learned(start, all.take(i as int)),
            decreases peers.len() - i,
        {
            assert(all.take(i + 1).drop_last() =~= all.take(i as int));
            assert(all.take(i + 1).last() == peers@[i as int]@);
            let peer = peers[i].clone();
            inner.insert(peer.device_id.clone(), peer);
            i += 1;
        }
        assert(all.take(all.len() as int) =~= all);
        proof {
            law_learning_keeps_the_keys(start, all);
        }
        self.inner = inner;
    }

    /// The known peers, in the order of their devices.
    pub fn list(&self) -> (peers: Vec<Peer>)
        ensures
            peers_view(peers@) == listed_peers(self@),
            devices_ascend(peers_view(peers@)),
            textmap::listable(self@),
            keyed_by_device(self@),
    {
        proof {
            use_type_invariant(self);
        }
        let mut peers: Vec<Peer> = Vec::new();
        let n = self.inner.len();
        let ghost rows = textmap::listing(self@);
        let mut i: usize = 0;
        while i < n
            invariant
                i <= n,
                n == rows.len(),
                rows == textmap::listing(self@),
                peers_view(peers@) == listed_peers(self@).take(i as int),
            decreases n - i,
        {
            let ghost before = peers@;
            let peer = self.inner.value_at(i).clone();
            assert(listed_peers(self@)[i as int] == peer@);
            peers.push(peer);
            assert(peers_view(peers@) =~= peers_view(before).push(peer@));
            assert(listed_peers(self@).take(i + 1) =~= listed_peers(self@).take(i as int).push(
                peer@,
            ));
            i += 1;
        }
        assert(listed_peers(self@).take(n as int) =~= listed_peers(self@));
        proof {
            law_listed_devices_ascend(self@);
        }
        peers
    }
}

/// Peers that are kept under their own devices are listed in the order of
/// the devices, each device once.
pub proof fn law_listed_devices_ascend(known: Map<Seq<char>, PeerView>)
    requires
        keyed_by_device(known),
        textmap::listable(known),
    ensures
        devices_ascend(listed_peers(known)),
{
    let rows = textmap::listing(known);
    let list = listed_peers(known);
    assert forall|i: int, j: int| 0 <= i < j < list.len() implies text::lex_lt(
        (#[trigger] list[i]).device_id,
        (#[trigger] list[j]).device_id,
    ) by {
        assert(list[i] == rows[i].1 && list[j] == rows[j].1);
        assert(known.contains_key(rows[i].0) && known.contains_key(rows[j].0));
    }
}

/// What a list says last of a device.
pub open spec fn last_word(peers: Seq<PeerView>, device: Seq<char>) -> Option<PeerView>
    decreases peers.len(),
{
    if peers.len() == 0 {
        None
    } else if peers.last().device_id == device {
        Some(peers.last())
    } else {
        last_word(peers.drop_last(), device)
    }
}

/// Learning forgets no device: of each one the last word counts, and where
/// the list says nothing, what was known.
pub proof fn law_the_last_word_counts(
    known: Map<Seq<char>, PeerView>,
    peers: Seq<PeerView>,
    device: Seq<char>,
)
    ensures
        match last_word(peers, device) {
            Some(peer) => learned(known, peers).contains_key(device) && learned(known, peers)[device]
                == peer && peer.device_id == device,
            None => {
                &&& learned(known, peers).contains_key(device) <==> known.contains_key(device)
                &&& known.contains_key(device) ==> learned(known, peers)[device] == known[device]
            },
        },
    decreases peers.len(),
{
    if peers.len() > 0 {
        law_the_last_word_counts(known, peers.drop_last(), device);
    }
}

/// A list that holds a peer has a last word on its device.
pub proof fn lemma_last_word_exists(peers: Seq<PeerView>, i: int)
    requires
        0 <= i < peers.len(),
    ensures
        last_word(peers, peers[i].device_id) is Some,
    decreases peers.len(),
{
    let init = peers.drop_last();
    if peers.last().device_id != peers[i].device_id {
        assert(init[i] == peers[i]);
        lemma_last_word_exists(init, i);
    }
}

/// Every peer stays listed under its own device.
pub proof fn law_learning_keeps_the_keys(known: Map<Seq<char>, PeerView>, peers: Seq<PeerView>)
    requires
        keyed_by_device(known),
    ensures
        keyed_by_device(learned(known, peers)),
{
    assert forall|device: Seq<char>| #[trigger]
        learned(known, peers).contains_key(device) implies learned(known, peers)[device].device_id
        == device by {
        law_the_last_word_counts(known, peers, device);
    }
}

/// Hearing a list again changes nothing.
pub proof fn law_learning_is_idempotent(known: Map<Seq<char>, PeerView>, peers: Seq<PeerView>)
    ensures
        learned(learned(known, peers), peers) == learned(known, peers),
{
    let once = learned(known, peers);
    let twice = learned(once, peers);
    assert forall|device: Seq<char>|
        (#[trigger] twice.contains_key(device) <==> once.contains_key(device)) && (
        once.contains_key(device) ==> twice[device] == once[device]) by {
        law_the_last_word_counts(known, peers, device);
        law_the_last_word_counts(once, peers, device);
    }
    assert(twice =~= once);
}

/// The first of some elements that is a text with a point in it.
pub open spec fn first_dotted(items: Seq<JsonView>) -> Option<Seq<char>>
    decreases items.len(),
{
    if items.len() == 0 {
        None
    } else {
        match items[0].text() {
            Some(t) => if t.contains('.') {
                Some(t)
            } else {
                first_dotted(items.skip(1))
            },
            None => first_dotted(items.skip(1)),
        }
    }
}

/// The IPv4 address of a node in a status report.
pub open spec fn node_ipv4(node: JsonView) -> Option<Seq<char>> {
    match node.member("TailscaleIPs"@) {
        Some(ips) => match ips.elements() {
            Some(items) => first_dotted(items),
            None => None,
        },
        None => None,
    }
}

/// The IPv4 address of a node: the first of its addresses with a point.
pub fn ipv4_of(node: &Json) -> (ip: Option<String>)
    ensures
        match ip {
            Some(t) => node_ipv4(node@) == Some(t@),
            None => node_ipv4(node@) is None,
        },
{
    let items = match node.member("TailscaleIPs") {
        Some(ips) => match ips.as_array() {
            Some(items) => items,
            None => {
                return None;
            },
        },
        None => {
            return None;
        },
    };
    let ghost all = json::all_said(items@);
    assert(all.skip(0) =~= all);
    let mut i: usize = 0;
    while i < items.len()
        invariant
            i <= items.len(),
            all == json::all_said(items@),
            node_ipv4(node@) == first_dotted(all),
            first_dotted(all) == first_dotted(all.skip(i as int)),
        decreases items.len() - i,
    {
        assert(all.skip(i as int)[0] == items@[i as int]@);
        assert(all.skip(i as int).skip(1) =~= all.skip(i + 1));
        match items[i].as_text() {
            Some(t) => {
                if contains_char(t.as_str(), '.') {
                    return Some(t.clone());
                }
            },
            None => {},
        }
        i += 1;
    }
    assert(all.skip(i as int).len() == 0);
    None
}

/// What the tailnet daemon's status command gave.
pub struct StatusRun {
    pub success: bool,
    pub stdout: Vec<u8>,
}

/// The status report, if the command ran, succeeded and gave one.
pub open spec fn report(run: Option<StatusRun>) -> Option<JsonView> {
    match run {
        Some(out) => if out.success {
            json::document(out.stdout@)
        } else {
            None
        },
        None => None,
    }
}

/// The status report of the tailnet daemon.
pub fn tailscale_status_json(run: &Option<StatusRun>) -> (status: Option<Json>)
    ensures
        match status {
            Some(s) => report(*run) == Some(s@),
            None => report(*run) is None,
        },
{
    match run {
        Some(out) => if out.success {
            Json::from_bytes(out.stdout.as_slice())
        } else {
            None
        },
        None => None,
    }
}

/// The address of this node in a status report.
pub open spec fn self_ipv4(status: JsonView) -> Option<Seq<char>> {
    match status.member("Self"@) {
        Some(node) => node_ipv4(node),
        None => None,
    }
}

/// The address of this node in a status report.
pub fn own_ip(status: &Json) -> (ip: Option<String>)
    ensures
        match ip {
            Some(t) => self_ipv4(status@) == Some(t@),
            None => self_ipv4(status@) is None,
        },
{
    match status.member("Self") {
        Some(node) => ipv4_of(node),
        None => None,
    }
}

/// This node's own tailnet address, if the daemon is up and connected.
pub fn my_tailnet_ip(run: &Option<StatusRun>) -> (ip: Option<String>)
    ensures
        (match ip {
            Some(t) => Some(t@),
            None => None,
        }) == match report(*run) {
            Some(status) => self_ipv4(status),
            None => None,
        },
{
    match tailscale_status_json(run) {
        Some(status) => own_ip(&status),
        None => None,
    }
}

/// Name and address of a node that may be a peer: one that is online, has a
/// name with the wanted prefix, and an IPv4 address. A node that restarted
/// under its old name leaves its dead predecessor in the report for a while,
/// as offline.
pub open spec fn candidate(node: JsonView, prefix: Seq<char>) -> Option<(Seq<char>, Seq<char>)> {
    let online = match node.member("Online"@) {
        Some(v) => v.truth() == Some(true),
        None => false,
    };
    let hostname = match node.member("HostName"@) {
        Some(v) => v.text(),
        None => None,
    };
    match (hostname, node_ipv4(node)) {
        (Some(host), Some(ip)) => if online && prefix.is_prefix_of(host) {
            Some((host, ip))
        } else {
            None
        },
        _ => None,
    }
}

/// Those of some nodes that may be peers, in order.
pub open spec fn candidates_of(nodes: Seq<JsonView>, prefix: Seq<char>) -> Seq<
    (Seq<char>, Seq<char>),
>
    decreases nodes.len(),
{
    if nodes.len() == 0 {
        Seq::empty()
    } else {
        match candidate(nodes.last(), prefix) {
            Some(c) => candidates_of(nodes.drop_last(), prefix).push(c),
            None => candidates_of(nodes.drop_last(), prefix),
        }
    }
}

/// The nodes of a status report other than this one, that may be peers.
pub open spec fn candidates_in(status: JsonView, prefix: Seq<char>) -> Seq<
    (Seq<char>, Seq<char>),
> {
    match status.member("Peer"@) {
        Some(peers) => match peers.member_values() {
            Some(nodes) => candidates_of(nodes, prefix),
            None => Seq::empty(),
        },
        None => Seq::empty(),
    }
}

/// Pairs of strings by their views.
pub open spec fn pairs_view(pairs: Seq<(String, String)>) -> Seq<(Seq<char>, Seq<char>)> {
    pairs.map_values(|p: (String, String)| (p.0@, p.1@))
}

/// Name and address of the node, if it may be a peer.
fn candidate_of(node: &Json, peer_prefix: &str) -> (found: Option<(String, String)>)
    ensures
        (match found {
            Some((host, ip)) => Some((host@, ip@)),
            None => None,
        }) == candidate(node@, peer_prefix@),
{
    let online = match node.member("Online") {
        Some(v) => match v.as_bool() {
            Some(b) => b,
            None => false,
        },
        None => false,
    };
    if !online {
        return None;
    }
    let hostname = match node.member("HostName") {
        Some(v) => match v.as_text() {
            Some(t) => t.clone(),
            None => {
                return None;
            },
        },
        None => {
            return None;
        },
    };
    if !starts_with(hostname.as_str(), peer_prefix) {
        return None;
    }
    match ipv4_of(node) {
        Some(ip) => Some((hostname, ip)),
        None => None,
    }
}

/// The nodes of a status report other than this one, that may be peers.
pub fn candidates(status: &Json, peer_prefix: &str) -> (found: Vec<(String, String)>)
    ensures
        pairs_view(found@) == candidates_in(status@, peer_prefix@),
{
    let mut found: Vec<(String, String)> = Vec::new();
    assert(pairs_view(found@) =~= Seq::empty());
    let peers = match status.member("Peer") {
        Some(peers) => peers,
        None => {
            return found;
        },
    };
    match peers {
        Json::Object(members) => {
            let ghost nodes = peers@.member_values()->0;
            assert(nodes.len() == members@.len());
            assert(nodes.take(0) =~= Seq::empty());
            let mut i: usize = 0;
            while i < members.len()
                invariant
                    i <= members.len(),
                    *peers == Json::Object(*members),
                    peers@.member_values() == Some(nodes),
                    nodes.len() == members@.len(),
                    pairs_view(found@) == candidates_of(nodes.take(i as int), peer_prefix@),
                decreases members.len() - i,
            {
                let ghost before = found@;
                assert(nodes.take(i + 1).drop_last() =~= nodes.take(i as int));
                assert(nodes.take(i + 1).last() == members@[i as int].1@);
                match candidate_of(&members[i].1, peer_prefix) {
                    Some(pair) => {
                        found.push(pair);
                        assert(pairs_view(found@) =~= pairs_view(before).push((pair.0@, pair.1@)));
                    },
                    None => {},
                }
                i += 1;
            }
            assert(nodes.take(nodes.len() as int) =~= nodes);
        },
        _ => {},
    }
    found
}

/// Other tailnet nodes whose hostname starts with `peer_prefix`, each with
/// its address. The empty prefix filters nothing.
pub fn tailnet_candidates(run: &Option<StatusRun>, peer_prefix: &str) -> (found: Vec<
    (String, String),
>)
    ensures
        pairs_view(found@) == match report(*run) {
            Some(status) => candidates_in(status, peer_prefix@),
            None => Seq::empty(),
        },
{
    match tailscale_status_json(run) {
        Some(status) => candidates(&status, peer_prefix),
        None => {
            let none: Vec<(String, String)> = Vec::new();
            assert(pairs_view(none@) =~= Seq::empty());
            none
        },
    }
}

/// Every candidate has a name with the wanted prefix and an address with a
/// point in it.
pub proof fn law_candidates_fit(nodes: Seq<JsonView>, prefix: Seq<char>, i: int)
    requires
        0 <= i < candidates_of(nodes, prefix).len(),
    ensures
        prefix.is_prefix_of(candidates_of(nodes, prefix)[i].0),
        candidates_of(nodes, prefix)[i].1.contains('.'),
    decreases nodes.len(),
{
    if nodes.len() > 0 {
        let init = nodes.drop_last();
        if i < candidates_of(init, prefix).len() {
            law_candidates_fit(init, prefix, i);
        } else {
            let node = nodes.last();
            let items = node.member("TailscaleIPs"@)->0.elements()->0;
            lemma_first_dotted(items);
        }
    }
}

proof fn lemma_first_dotted(items: Seq<JsonView>)
    ensures
        first_dotted(items) matches Some(t) ==> t.contains('.'),
    decreases items.len(),
{
    if items.len() > 0 {
        lemma_first_dotted(items.skip(1));
    }
}

/// An announcement on the local network counts unless it is this device's
/// own or its hostname lacks the wanted prefix.
pub open spec fn counts(peer: PeerView, my_id: Seq<char>, prefix: Seq<char>) -> bool {
    peer.device_id != my_id && prefix.is_prefix_of(peer.hostname)
}

/// Whether an announcement on the local network counts.
pub fn announcement_counts(peer: &Peer, my_id: &str, peer_prefix: &str) -> (yes: bool)
    ensures
        yes == counts(peer@, my_id@, peer_prefix@),
{
    !same_text(peer.device_id.as_str(), my_id) && starts_with(
        peer.hostname.as_str(),
        peer_prefix,
    )
}

/// An internet address: four bytes, or one number of sixteen bytes.
#[derive(Clone, Copy, Debug, PartialEq, Eq, Structural)]
pub enum Ip {
    V4(u8, u8, u8, u8),
    V6(u128),
}

impl Ip {
    /// The address is one by which a machine reaches itself: of the block
    /// 127.0.0.0/8, or `::1`.
    pub open spec fn loopback(self) -> bool {
        match self {
            Ip::V4(a, _, _, _) => a == 127,
            Ip::V6(n) => n == 1,
        }
    }

    /// Whether this is an address by which a machine reaches itself.
    pub fn is_loopback(&self) -> (yes: bool)
        ensures
            yes == self.loopback(),
    {
        match self {
            Ip::V4(a, _, _, _) => *a == 127,
            Ip::V6(n) => *n == 1,
        }
    }
}

/// Four bytes of an address as they are written: in decimal, with points.
pub open spec fn dotted(a: u8, b: u8, c: u8, d: u8) -> Seq<char> {
    text::numeral(a as nat, 10).push('.') + text::numeral(b as nat, 10).push('.') + text::numeral(
        c as nat,
        10,
    ).push('.') + text::numeral(d as nat, 10)
}

/// The address to announce on the local network, given the one from which
/// the machine would reach the outside: none unless it is an IPv4 address
/// that others can reach.
pub fn lan_ip_of(local: &Ip) -> (ip: Option<String>)
    ensures
        match *local {
            Ip::V4(a, b, c, d) => if local.loopback() {
                ip is None
            } else {
                ip matches Some(t) && t@ == dotted(a, b, c, d)
            },
            Ip::V6(_) => ip is None,
        },
{
    match local {
        Ip::V4(a, b, c, d) => {
            if local.is_loopback() {
                return None;
            }
            let mut t = decimal(*a as u64);
            t.append(".");
            t.append(decimal(*b as u64).as_str());
            t.append(".");
            t.append(decimal(*c as u64).as_str());
            t.append(".");
            t.append(decimal(*d as u64).as_str());
            proof {
                reveal_strlit(".");
            }
            assert(t@ =~= dotted(*a, *b, *c, *d));
            Some(t)
        },
        Ip::V6(_) => None,
    }
}

/// What is said of a peer is in its fields.
pub proof fn law_a_peer_says_its_fields(peer: Peer)
    ensures
        peer@.hostname == peer.hostname@,
        peer@.addr == peer.addr@,
        peer@.device_id == peer.device_id@,
{
}

/// Lists of peers and of pairs say what their members say, one for one.
pub proof fn law_peers_one_for_one(peers: Seq<Peer>, pairs: Seq<(String, String)>)
    ensures
        peers_view(peers).len() == peers.len(),
        forall|i: int| 0 <= i < peers.len() ==> #[trigger] peers_view(peers)[i] == peers[i]@,
        pairs_view(pairs).len() == pairs.len(),
        forall|i: int|
            0 <= i < pairs.len() ==> (#[trigger] pairs_view(pairs)[i]).0 == pairs[i].0@
                && pairs_view(pairs)[i].1 == pairs[i].1@,
{
}

/// After a list was heard, a device is known as the last peer of that
/// device in the list; a device that the list leaves out is known, or not,
/// as before.
pub proof fn law_what_is_known_after_a_list(
    known: Map<Seq<char>, PeerView>,
    peers: Seq<PeerView>,
    device: Seq<char>,
    i: int,
)
    ensures
        0 <= i < peers.len() && peers[i].device_id == device && (forall|j: int|
            i < j < peers.len() ==> (#[trigger] peers[j]).device_id != device) ==> learned(
            known,
            peers,
        ).contains_key(device) && learned(known, peers)[device] == peers[i],
        (forall|j: int| 0 <= j < peers.len() ==> (#[trigger] peers[j]).device_id != device) ==> {
            &&& learned(known, peers).contains_key(device) <==> known.contains_key(device)
            &&& known.contains_key(device) ==> learned(known, peers)[device] == known[device]
        },
    decreases peers.len(),
{
    if peers.len() > 0 {
        let init = peers.drop_last();
        let n = peers.len() - 1;
        assert(peers[n] == peers.last());
        law_what_is_known_after_a_list(known, init, device, i);
        assert forall|j: int| 0 <= j < n implies #[trigger] init[j] == peers[j] by {}
        if 0 <= i < n && peers[i].device_id == device && (forall|j: int|
            i < j < peers.len() ==> (#[trigger] peers[j]).device_id != device) {
            assert forall|j: int| i < j < init.len() implies (#[trigger] init[j]).device_id
                != device by {
                assert(peers[j].device_id != device);
            }
            assert(peers[n].device_id != device);
        }
        if forall|j: int| 0 <= j < peers.len() ==> (#[trigger] peers[j]).device_id != device {
            assert forall|j: int| 0 <= j < init.len() implies (#[trigger] init[j]).device_id
                != device by {
                assert(peers[j].device_id != device);
            }
            assert(peers[n].device_id != device);
        }
    }
}

/// The known peers are listed all, each once, in the order of the devices
/// under which they are known.
pub proof fn law_every_known_peer_is_listed(known: Map<Seq<char>, PeerView>, peer: PeerView)
    requires
        textmap::listable(known),
    ensures
        listed_peers(known).len() == known.dom().len(),
        listed_peers(known).contains(peer) <==> exists|device: Seq<char>| #[trigger]
            known.contains_key(device) && known[device] == peer,
        forall|i: int|
            0 <= i < listed_peers(known).len() ==> #[trigger] listed_peers(known)[i]
                == textmap::listing(known)[i].1,
{
    let rows = textmap::listing(known);
    let list = listed_peers(known);
    textmap::law_a_listing_is_as_long_as_the_map(known);
    if list.contains(peer) {
        let i = choose|i: int| 0 <= i < list.len() && list[i] == peer;
        assert(list[i] == rows[i].1);
        assert(known.contains_key(rows[i].0));
    }
    if exists|device: Seq<char>| #[trigger] known.contains_key(device) && known[device] == peer {
        let device = choose|device: Seq<char>| #[trigger]
            known.contains_key(device) && known[device] == peer;
        let i = choose|i: int| 0 <= i < rows.len() && (#[trigger] rows[i]).0 == device;
        assert(list[i] == peer);
    }
}

/// The address of a node is the first element of its addresses that is a
/// text with a point in it, and there is none exactly if no element is one.
pub proof fn law_the_first_dotted_address_counts(items: Seq<JsonView>, i: int)
    ensures
        0 <= i < items.len() && items[i] is Text && items[i]->Text_0.contains('.') && (forall|j: int|
            0 <= j < i ==> !((#[trigger] items[j]) is Text && items[j]->Text_0.contains('.')))
            ==> first_dotted(items) == Some(items[i]->Text_0),
        (forall|j: int|
            0 <= j < items.len() ==> !((#[trigger] items[j]) is Text
                && items[j]->Text_0.contains('.'))) ==> first_dotted(items) is None,
    decreases items.len(),
{
    if items.len() > 0 && !(items[0] is Text && items[0]->Text_0.contains('.')) {
        let rest = items.skip(1);
        assert forall|j: int| 0 <= j < rest.len() implies #[trigger] rest[j] == items[j + 1] by {}
        law_the_first_dotted_address_counts(rest, i - 1);
        if 0 < i < items.len() && (forall|j: int|
            0 <= j < i ==> !((#[trigger] items[j]) is Text && items[j]->Text_0.contains('.'))) {
            assert(rest[i - 1] == items[i]);
            assert forall|j: int| 0 <= j < i - 1 implies !((#[trigger] rest[j]) is Text
                && rest[j]->Text_0.contains('.')) by {
                assert(!(items[j + 1] is Text && items[j + 1]->Text_0.contains('.')));
            }
        }
        if forall|j: int|
            0 <= j < items.len() ==> !((#[trigger] items[j]) is Text && items[j]->Text_0.contains(
                '.',
            )) {
            assert forall|j: int| 0 <= j < rest.len() implies !((#[trigger] rest[j]) is Text
                && rest[j]->Text_0.contains('.')) by {
                assert(!(items[j + 1] is Text && items[j + 1]->Text_0.contains('.')));
            }
        }
    }
}

/// A node's addresses are the elements of its `TailscaleIPs`, and a report
/// has its own node under `Self`.
pub proof fn law_where_addresses_stand(node: JsonView, status: JsonView)
    ensures
        ({
            let ips = node.member("TailscaleIPs"@);
            node_ipv4(node) == if ips is Some && ips->0 is Array {
                first_dotted(ips->0->Array_0)
            } else {
                None
            }
        }),
        ({
            let own = status.member("Self"@);
            self_ipv4(status) == if own is Some {
                node_ipv4(own->0)
            } else {
                None
            }
        }),
{
}

/// There is a report exactly if the command ran, succeeded and printed a
/// document, which is then the report.
pub proof fn law_what_counts_as_a_report(run: Option<StatusRun>)
    ensures
        run is Some && run->0.success ==> report(run) == json::document(run->0.stdout@),
        run is Some && !run->0.success ==> report(run) is None,
        run is None ==> report(run) is None,
{
}

/// A node may be a peer exactly if it is online, has a host name that
/// starts with the prefix and has an address; it goes by these two.
pub proof fn law_who_may_be_a_peer(node: JsonView, prefix: Seq<char>)
    ensures
        candidate(node, prefix) is Some <==> {
            &&& node.member("Online"@) == Some(JsonView::Bool(true))
            &&& node.member("HostName"@) is Some
            &&& node.member("HostName"@)->0 is Text
            &&& prefix.len() <= node.member("HostName"@)->0->Text_0.len()
            &&& node.member("HostName"@)->0->Text_0.take(prefix.len() as int) == prefix
            &&& node_ipv4(node) is Some
        },
        candidate(node, prefix) matches Some((host, ip)) ==> {
            &&& node.member("HostName"@) == Some(JsonView::Text(host))
            &&& node_ipv4(node) == Some(ip)
        },
{
    let host = node.member("HostName"@)->0->Text_0;
    if prefix.len() <= host.len() {
        assert(host.take(prefix.len() as int) == host.subrange(0, prefix.len() as int));
    }
}

/// Candidates are found node by node, and keep the order.
pub proof fn law_candidates_are_found_node_by_node(
    a: Seq<JsonView>,
    b: Seq<JsonView>,
    node: JsonView,
    prefix: Seq<char>,
)
    ensures
        candidates_of(a + b, prefix) == candidates_of(a, prefix) + candidates_of(b, prefix),
        candidate(node, prefix) is Some ==> candidates_of(seq![node], prefix) == seq![
            candidate(node, prefix)->0,
        ],
        candidate(node, prefix) is None ==> candidates_of(seq![node], prefix).len() == 0,
    decreases b.len(),
{
    let one = seq![node];
    assert(one.drop_last() =~= Seq::empty());
    assert(candidates_of(one.drop_last(), prefix) =~= Seq::empty());
    if candidate(node, prefix) is Some {
        assert(candidates_of(one, prefix) =~= seq![candidate(node, prefix)->0]);
    }
    if b.len() == 0 {
        assert(a + b =~= a);
    } else {
        law_candidates_are_found_node_by_node(a, b.drop_last(), node, prefix);
        assert((a + b).drop_last() =~= a + b.drop_last());
        assert((a + b).last() == b.last());
    }
    assert(candidates_of(a + b, prefix) =~= candidates_of(a, prefix) + candidates_of(b, prefix));
}

/// The candidates of a report are those among the members of its `Peer`,
/// all of them in order, and a report without such an object has none.
pub proof fn law_where_candidates_stand(
    status: JsonView,
    prefix: Seq<char>,
    nodes: Seq<JsonView>,
)
    ensures
        ({
            let peers = status.member("Peer"@);
            if peers is Some && peers->0 is Object {
                nodes.len() == peers->0->Object_0.len() && (forall|i: int|
                    0 <= i < nodes.len() ==> #[trigger] nodes[i] == peers->0->Object_0[i].1)
                    ==> candidates_in(status, prefix) == candidates_of(nodes, prefix)
            } else {
                candidates_in(status, prefix).len() == 0
            }
        }),
{
    let peers = status.member("Peer"@);
    if peers is Some && peers->0 is Object {
        if nodes.len() == peers->0->Object_0.len() && (forall|i: int|
            0 <= i < nodes.len() ==> #[trigger] nodes[i] == peers->0->Object_0[i].1) {
            assert(peers->0.member_values()->0 =~= nodes);
        }
    }
}

/// An announcement counts exactly if it is of another device and its host
/// name starts with the prefix.
pub proof fn law_which_announcements_count(
    peer: PeerView,
    my_id: Seq<char>,
    rest: Seq<char>,
    prefix: Seq<char>,
)
    ensures
        peer.device_id == my_id ==> !counts(peer, my_id, prefix),
        peer.device_id != my_id && peer.hostname == prefix + rest ==> counts(peer, my_id, prefix),
        peer.hostname.len() < prefix.len() ==> !counts(peer, my_id, prefix),
        peer.hostname.len() >= prefix.len() && peer.hostname.take(prefix.len() as int) != prefix
            ==> !counts(peer, my_id, prefix),
{
    assert((prefix + rest).subrange(0, prefix.len() as int) =~= prefix);
    if peer.hostname.len() >= prefix.len() {
        assert(peer.hostname.take(prefix.len() as int) == peer.hostname.subrange(
            0,
            prefix.len() as int,
        ));
    }
}

/// The loopback addresses are those that start with the byte 127, and the
/// one of sixteen bytes with the value one.
pub proof fn law_which_addresses_are_loopback(a: u8, b: u8, c: u8, d: u8, n: u128)
    ensures
        Ip::V4(a, b, c, d).loopback() <==> a == 127,
        Ip::V6(n).loopback() <==> n == 1,
{
}

/// An address is written as its four bytes in decimal with points between
/// them.
pub proof fn law_addresses_are_written_with_points(a: u8, b: u8, c: u8, d: u8)
    ensures
        dotted(a, b, c, d) == text::joined(
            seq![
                text::numeral(a as nat, 10),
                text::numeral(b as nat, 10),
                text::numeral(c as nat, 10),
                text::numeral(d as nat, 10),
            ],
            seq!['.'],
        ),
{
    reveal_with_fuel(text::joined, 5);
    let parts = seq![
        text::numeral(a as nat, 10),
        text::numeral(b as nat, 10),
        text::numeral(c as nat, 10),
        text::numeral(d as nat, 10),
    ];
    assert(dotted(a, b, c, d) =~= text::joined(parts, seq!['.']));
}

} // verus!
