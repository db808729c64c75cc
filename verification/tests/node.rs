use syncd::clock::{now_millis, Hlc};
use syncd::discovery::{Ip, Peer};
use syncd::node::{
    require_loopback, Answer, Node, Request, Round, FORBIDDEN, PROTO, SERVICE_UNAVAILABLE,
};
use syncd::op::{Op, OpKind};
use syncd::replica::{Replica, VersionVector};
use syncd::textmap::TextMap;

fn node(device: &str) -> Node {
    Node::new(
        Replica::new(device.to_string()),
        format!("host-{device}"),
        7,
        format!("{device}:7"),
        "host-".to_string(),
    )
}

fn peer(device: &str) -> Peer {
    Peer {
        hostname: format!("host-{device}"),
        addr: format!("{device}:7"),
        device_id: device.to_string(),
    }
}

fn op(device: &str, seq: u64, entity: &str, value: &str, time: u64) -> Op {
    Op {
        device: device.to_string(),
        seq,
        entity: entity.to_string(),
        kind: OpKind::Upsert,
        value: value.to_string(),
        hlc: Hlc { time, counter: 0 },
    }
}

fn some(t: &str) -> Option<String> {
    Some(t.to_string())
}

fn state(node: &Node) -> Vec<(String, String)> {
    node.local_state().entries.into_iter().map(|e| (e.entity, e.value)).collect()
}

fn devices(peers: &[Peer]) -> Vec<String> {
    peers.iter().map(|p| p.device_id.clone()).collect()
}

/// A whole sync round of `a` with `b`, as the network would carry it.
fn sync(a: &mut Node, b: &mut Node) -> Round {
    let mut round = Round::Pulling;
    let mut request = Some(a.start_round());
    while let Some(asked) = request {
        let answer = match asked {
            Request::Pull(vv) => match b.ops_since(&vv) {
                Ok(ops) => Answer::Ops(ops),
                Err(_) => Answer::Unreachable,
            },
            Request::AskVersion => match b.vv() {
                Ok(vv) => Answer::Version(vv),
                Err(_) => Answer::Unreachable,
            },
            Request::Push(ops) => match b.ops_push(ops) {
                Ok(reply) => Answer::Applied(reply.intake.accepted.len()),
                Err(_) => Answer::Unreachable,
            },
        };
        let step = a.sync_round(round, answer);
        round = step.round;
        request = step.request;
    }
    round
}

#[test]
fn a_new_node_is_online_and_knows_nobody() {
    let n = node("a");
    assert!(n.online);
    assert!(n.guard_online().is_ok());
    assert!(n.pex.list().is_empty());
    assert_eq!(devices(&n.known_peers()), vec!["a"]);
}

#[test]
fn local_callers_only() {
    assert_eq!(require_loopback(&Ip::V4(127, 0, 0, 1), false), Ok(()));
    assert_eq!(require_loopback(&Ip::V6(1), false), Ok(()));
    assert_eq!(require_loopback(&Ip::V4(10, 0, 0, 1), false), Err(403));
    assert_eq!(require_loopback(&Ip::V4(10, 0, 0, 1), true), Ok(()));
    assert_eq!((FORBIDDEN, SERVICE_UNAVAILABLE), (403, 503));
}

#[test]
fn a_local_write_sets_and_deletes() {
    let mut n = node("a");
    let reply = n.local_write("k", some("v"));
    assert_eq!((reply.seq, reply.op.seq), (1, 1));
    assert_eq!(reply.vv.get("a"), Some(&1));
    assert_eq!(reply.op.kind, OpKind::Upsert);
    assert_eq!(state(&n), vec![("k".to_string(), "v".to_string())]);
    let reply = n.local_write("k", None);
    assert_eq!(reply.seq, 2);
    assert_eq!((reply.op.kind, reply.op.value.as_str()), (OpKind::Delete, ""));
    assert!(state(&n).is_empty());
}

#[test]
fn the_state_for_the_local_user() {
    let mut n = node("a");
    n.local_write("k", some("v"));
    let s = n.local_state();
    assert_eq!(s.device, "a");
    assert_eq!(s.fingerprint, format!("{:x}", n.replica.state_fingerprint()));
    assert_eq!(s.vv.get("a"), Some(&1));
    assert!(s.online);
}

#[test]
fn offline_refuses_peers_but_not_the_user() {
    let mut n = node("a");
    assert!(!n.set_online(false));
    assert_eq!(n.guard_online(), Err(503));
    assert!(matches!(n.node(), Err(503)));
    assert!(matches!(n.vv(), Err(503)));
    assert!(matches!(n.ops_since(&TextMap::new()), Err(503)));
    assert!(matches!(n.peers(vec![peer("b")]), Err(503)));
    assert!(matches!(n.ops_push(vec![op("b", 1, "k", "v", 5)]), Err(503)));
    assert!(n.pex.list().is_empty());
    assert!(state(&n).is_empty());
    n.local_write("k", some("v"));
    assert_eq!(state(&n).len(), 1);
    assert!(!n.local_state().online);
    assert!(n.targets(&vec!["x:1".to_string()], &Vec::new()).is_empty());
    assert!(n.set_online(true));
    assert!(n.node().is_ok());
}

#[test]
fn a_node_introduces_itself() {
    let mut n = node("a");
    n.local_write("k", some("v"));
    n.local_write("j", some("w"));
    n.local_write("j", None);
    let reply = n.node().unwrap();
    assert_eq!((reply.proto, PROTO, reply.port, reply.entries), (1, 1, 7, 1));
    assert_eq!((reply.device_id.as_str(), reply.hostname.as_str()), ("a", "host-a"));
    assert_eq!(reply.fingerprint, n.local_state().fingerprint);
}

#[test]
fn a_peer_exchange_returns_the_union_and_this_node_last() {
    let mut n = node("b");
    n.learn(vec![peer("z")]);
    let reply = n.peers(vec![peer("c"), peer("b"), peer("a")]).unwrap();
    assert_eq!(devices(&reply), vec!["a", "c", "z", "b"]);
    assert_eq!(reply[3].addr, "b:7");
    assert_eq!(devices(&n.pex.list()), vec!["a", "b", "c", "z"]);
}

#[test]
fn a_peer_exchange_goes_both_ways() {
    let mut a = node("a");
    let mut b = node("b");
    a.learn(vec![peer("x")]);
    b.learn(vec![peer("y")]);
    let reply = b.peers(a.known_peers()).unwrap();
    a.learn(reply);
    assert_eq!(devices(&a.pex.list()), vec!["a", "b", "x", "y"]);
    assert_eq!(devices(&b.pex.list()), vec!["a", "x", "y"]);
}

#[test]
fn announcements_are_heard() {
    let mut n = node("a");
    assert!(n.hear(peer("b")));
    assert!(!n.hear(peer("a")));
    assert!(!n.hear(Peer { hostname: "printer".to_string(), ..peer("c") }));
    assert_eq!(devices(&n.pex.list()), vec!["b"]);
    assert!(n.hear(Peer { addr: "elsewhere:7".to_string(), ..peer("b") }));
    assert_eq!(n.pex.list()[0].addr, "elsewhere:7");
}

#[test]
fn targets_are_sorted_once_each_and_never_the_node_itself() {
    let mut n = node("a");
    n.learn(vec![peer("b"), peer("c"), peer("a")]);
    let bootstrap: Vec<String> = ["z:1", "b:7", "z:1", "a:7"].iter().map(|t| t.to_string()).collect();
    let candidates = vec![
        ("h".to_string(), "100.64.0.2".to_string()),
        ("h".to_string(), "b".to_string()),
    ];
    assert_eq!(n.targets(&bootstrap, &candidates), vec!["100.64.0.2:7", "b:7", "c:7", "z:1"]);
    assert!(node("a").targets(&Vec::new(), &Vec::new()).is_empty());
}

#[test]
fn pushed_operations_are_sorted_and_counted() {
    let mut n = node("a");
    let reply = n
        .ops_push(vec![op("b", 2, "k", "new", 6), op("b", 1, "k", "old", 5), op("b", 1, "k", "?", 5)])
        .unwrap();
    assert_eq!((reply.intake.accepted.len(), reply.intake.taken), (2, 3));
    assert_eq!(reply.vv.get("b"), Some(&2));
    assert_eq!(state(&n), vec![("k".to_string(), "new".to_string())]);
    assert_eq!(n.ops_since(&TextMap::new()).unwrap().len(), 2);
}

#[test]
fn the_order_of_a_push_does_not_matter() {
    let ops = [
        op("b", 1, "k", "b1", 5),
        op("b", 2, "j", "b2", 6),
        op("c", 1, "k", "c1", 5),
        op("a", 9, "k", "own", 4),
    ];
    let mut outcomes = Vec::new();
    for order in [[0, 1, 2, 3], [3, 2, 1, 0], [1, 3, 0, 2]] {
        let mut n = node("a");
        n.ops_push(vec![op("b", 1, "k", "b1", 5)]).unwrap();
        let reply = n.ops_push(order.iter().map(|i| ops[*i].clone()).collect()).unwrap();
        let accepted: Vec<(String, u64)> =
            reply.intake.accepted.iter().map(|o| (o.device.clone(), o.seq)).collect();
        let vv: Vec<u64> = (0..reply.vv.len()).map(|i| *reply.vv.value_at(i)).collect();
        outcomes.push((accepted, vv, state(&n)));
    }
    assert!(outcomes.iter().all(|o| *o == outcomes[0]));
    let expected = [("a", 9), ("b", 2), ("c", 1)].map(|(d, s)| (d.to_string(), s)).to_vec();
    assert_eq!(outcomes[0].0, expected);
    assert_eq!(outcomes[0].1, vec![9, 2, 1]);
}

#[test]
fn a_round_pulls_asks_and_pushes() {
    let mut a = node("a");
    a.local_write("mine", some("1"));
    assert!(matches!(a.start_round(), Request::Pull(vv) if vv.get("a") == Some(&1)));
    let step = a.sync_round(Round::Pulling, Answer::Ops(vec![op("b", 1, "k", "v", 5)]));
    assert_eq!(step.round, Round::Asking { pulled: 1 });
    assert!(matches!(step.request, Some(Request::AskVersion)));
    assert_eq!(step.intake.accepted.len(), 1);
    let mut theirs: VersionVector = TextMap::new();
    theirs.insert("b".to_string(), 1);
    let step = a.sync_round(step.round, Answer::Version(theirs));
    assert_eq!(step.round, Round::Pushing { pulled: 1 });
    match step.request {
        Some(Request::Push(ops)) => assert_eq!((ops.len(), ops[0].device.as_str()), (1, "a")),
        _ => panic!(),
    }
    let step = a.sync_round(step.round, Answer::Applied(1));
    assert_eq!(step.round, Round::Over { pulled: 1, pushed: 1 });
    assert!(step.request.is_none());
}

#[test]
fn a_round_with_nothing_to_push_is_over() {
    let mut a = node("a");
    let step = a.sync_round(Round::Asking { pulled: 0 }, Answer::Version(TextMap::new()));
    assert_eq!(step.round, Round::Over { pulled: 0, pushed: 0 });
    assert!(step.request.is_none());
}

#[test]
fn a_round_fails_on_anything_unexpected() {
    let mut a = node("a");
    for round in [Round::Pulling, Round::Asking { pulled: 1 }, Round::Pushing { pulled: 1 }, Round::Failed] {
        let step = a.sync_round(round, Answer::Unreachable);
        assert_eq!(step.round, Round::Failed);
        assert!(step.request.is_none());
    }
    let step = a.sync_round(Round::Pushing { pulled: 0 }, Answer::Ops(vec![op("b", 1, "k", "v", 5)]));
    assert_eq!((step.round, step.intake.taken), (Round::Failed, 0));
    assert!(state(&a).is_empty());
}

#[test]
fn a_round_stops_at_an_inadmissible_clock() {
    let mut a = node("a");
    let mut bad = op("b", 1, "k", "v", now_millis() + 1_000_000_000);
    bad.hlc.counter = u32::MAX;
    let step = a.sync_round(Round::Pulling, Answer::Ops(vec![bad]));
    assert_eq!((step.round, step.intake.taken), (Round::Failed, 0));
}

#[test]
fn nodes_reconverge_after_a_partition() {
    let mut a = node("a");
    let mut b = node("b");
    a.local_write("k", some("1"));
    assert_eq!(sync(&mut a, &mut b), Round::Over { pulled: 0, pushed: 1 });
    b.set_online(false);
    b.local_write("k", some("2"));
    a.local_write("j", some("3"));
    assert_eq!(sync(&mut a, &mut b), Round::Failed);
    assert_ne!(a.local_state().fingerprint, b.local_state().fingerprint);
    b.set_online(true);
    assert_eq!(sync(&mut a, &mut b), Round::Over { pulled: 1, pushed: 1 });
    assert_eq!(a.local_state().fingerprint, b.local_state().fingerprint);
    assert_eq!(state(&a), state(&b));
    assert_eq!(sync(&mut b, &mut a), Round::Over { pulled: 0, pushed: 0 });
}

#[test]
fn a_write_at_a_given_time() {
    let mut n = node("a");
    let reply = n.offer_write_at("k", some("v"), 9).unwrap();
    assert_eq!((reply.seq, reply.op.hlc), (1, Hlc { time: 9, counter: 0 }));
    assert_eq!(reply.vv.get("a"), Some(&1));
    let reply = n.offer_write_at("k", None, 9).unwrap();
    assert_eq!((reply.op.kind, reply.op.hlc), (OpKind::Delete, Hlc { time: 9, counter: 1 }));
    assert!(state(&n).is_empty());
    n.ops_push(vec![op("a", u64::MAX, "j", "x", 1)]).unwrap();
    assert!(n.offer_write_at("k", some("v"), 10).is_none());
    assert_eq!(state(&n), vec![("j".to_string(), "x".to_string())]);
}
