use std::collections::hash_map::DefaultHasher;
use std::hash::{Hash, Hasher};
use syncd::clock::{millis_of, now_millis, wall_of, Hlc};
use syncd::op::{Op, OpKind};
use syncd::replica::{Replica, VersionVector};
use syncd::textmap::TextMap;

fn op(device: &str, seq: u64, entity: &str, value: &str, time: u64, counter: u32) -> Op {
    Op {
        device: device.to_string(),
        seq,
        entity: entity.to_string(),
        kind: OpKind::Upsert,
        value: value.to_string(),
        hlc: Hlc { time, counter },
    }
}

fn delete(device: &str, seq: u64, entity: &str, time: u64, counter: u32) -> Op {
    Op { kind: OpKind::Delete, value: String::new(), ..op(device, seq, entity, "", time, counter) }
}

fn state(replica: &Replica) -> Vec<(String, String)> {
    replica.entries().into_iter().map(|e| (e.entity, e.value)).collect()
}

fn pairs(expected: &[(&str, &str)]) -> Vec<(String, String)> {
    expected.iter().map(|(k, v)| (k.to_string(), v.to_string())).collect()
}

fn vv_of(vv: &VersionVector) -> Vec<(String, u64)> {
    (0..vv.len()).map(|i| (vv.key_at(i).clone(), *vv.value_at(i))).collect()
}

fn seqs(ops: &[Op]) -> Vec<(String, u64)> {
    ops.iter().map(|o| (o.device.clone(), o.seq)).collect()
}

#[test]
fn a_new_replica_is_empty() {
    let replica = Replica::new("a".to_string());
    assert_eq!(replica.device, "a");
    assert_eq!(replica.device_id(), "a");
    assert!(replica.entries().is_empty());
    assert_eq!(replica.version_vector().len(), 0);
    assert!(replica.ops_since(&TextMap::new()).is_empty());
    assert!(replica.can_change());
}

#[test]
fn a_local_change_is_stamped_and_shows() {
    let mut replica = Replica::new("a".to_string());
    let before = now_millis();
    let first = replica.local_change("k", OpKind::Upsert, "v");
    assert_eq!((first.device.as_str(), first.seq), ("a", 1));
    assert_eq!((first.entity.as_str(), first.value.as_str()), ("k", "v"));
    assert_eq!(first.kind, OpKind::Upsert);
    assert!(first.hlc.time >= before);
    let second = replica.local_change("k", OpKind::Delete, "");
    assert_eq!(second.seq, 2);
    assert!(second.hlc > first.hlc);
    assert!(state(&replica).is_empty());
    assert_eq!(vv_of(&replica.version_vector()), vec![("a".to_string(), 2)]);
}

#[test]
fn the_clock_ticks_past_itself_and_the_wall() {
    let mut replica = Replica::new("a".to_string());
    assert_eq!(replica.tick(10), Hlc { time: 10, counter: 0 });
    assert_eq!(replica.tick(10), Hlc { time: 10, counter: 1 });
    assert_eq!(replica.tick(7), Hlc { time: 10, counter: 2 });
    assert_eq!(replica.tick(11), Hlc { time: 11, counter: 0 });
}

#[test]
fn the_clock_never_falls_behind_what_it_has_seen() {
    // ahead of both clocks
    let mut replica = Replica::new("a".to_string());
    replica.observe(Hlc { time: 20, counter: 4 }, 10);
    assert_eq!(replica.tick(0), Hlc { time: 20, counter: 6 });
    // the same time as the local reading
    replica.observe(Hlc { time: 20, counter: 9 }, 10);
    assert_eq!(replica.tick(0), Hlc { time: 20, counter: 11 });
    replica.observe(Hlc { time: 20, counter: 3 }, 10);
    assert_eq!(replica.tick(0), Hlc { time: 20, counter: 13 });
    // behind, with the wall ahead
    replica.observe(Hlc { time: 5, counter: 50 }, 30);
    assert_eq!(replica.tick(0), Hlc { time: 30, counter: 1 });
    // behind, with the wall behind too
    replica.observe(Hlc { time: 5, counter: 50 }, 30);
    assert_eq!(replica.tick(0), Hlc { time: 30, counter: 2 });
    // exactly at the wall and ahead of the local reading
    replica.observe(Hlc { time: 40, counter: 7 }, 40);
    assert_eq!(replica.tick(0), Hlc { time: 40, counter: 9 });
}

#[test]
fn milliseconds_add_up() {
    assert_eq!(millis_of(0, 0), 0);
    assert_eq!(millis_of(1, 5), 1005);
    assert_eq!(millis_of(1_700_000_000, 999), 1_700_000_000_999);
    assert_eq!(millis_of(u64::MAX, 0), u64::MAX - 999);
}

#[test]
fn a_clock_before_the_epoch_reads_as_the_epoch() {
    assert_eq!(wall_of(None), 0);
    assert_eq!(wall_of(Some((0, 7))), 7);
    assert_eq!(wall_of(Some((1_700_000_000, 123))), 1_700_000_000_123);
}

#[test]
fn the_wall_clock_runs() {
    let a = now_millis();
    assert!(a > 1_600_000_000_000);
    assert!(now_millis() >= a);
}

#[test]
fn an_operation_counts_once() {
    let mut replica = Replica::new("a".to_string());
    assert!(replica.apply(op("b", 1, "k", "v", 5, 0)));
    let print = replica.state_fingerprint();
    assert!(!replica.apply(op("b", 1, "k", "v", 5, 0)));
    assert_eq!(replica.state_fingerprint(), print);
    assert_eq!(replica.ops_since(&TextMap::new()).len(), 1);
}

#[test]
fn operations_of_different_devices_commute() {
    let x = op("b", 1, "k", "from b", 5, 0);
    let y = op("c", 1, "k", "from c", 5, 0);
    let mut one = Replica::new("a".to_string());
    one.apply(x.clone());
    one.apply(y.clone());
    let mut two = Replica::new("a".to_string());
    two.apply(y);
    two.apply(x);
    assert_eq!(state(&one), pairs(&[("k", "from c")]));
    assert_eq!(state(&one), state(&two));
    assert_eq!(vv_of(&one.version_vector()), vv_of(&two.version_vector()));
    assert_eq!(one.state_fingerprint(), two.state_fingerprint());
}

#[test]
fn the_latest_stamp_wins() {
    let mut replica = Replica::new("a".to_string());
    replica.apply(op("b", 1, "k", "old", 5, 1));
    replica.apply(op("c", 1, "k", "older", 5, 0));
    assert_eq!(state(&replica), pairs(&[("k", "old")]));
    replica.apply(op("c", 2, "k", "new", 5, 2));
    assert_eq!(state(&replica), pairs(&[("k", "new")]));
    replica.apply(delete("b", 2, "k", 6, 0));
    assert!(state(&replica).is_empty());
    replica.apply(op("c", 3, "k", "too late", 5, 9));
    assert!(state(&replica).is_empty());
}

#[test]
fn operations_of_one_device_commute_too() {
    let mut replica = Replica::new("r".to_string());
    assert!(replica.apply(op("a", 2, "y", "2", 20, 0)));
    assert!(replica.apply(op("a", 1, "x", "1", 10, 0)));
    assert_eq!(state(&replica), pairs(&[("x", "1"), ("y", "2")]));
    assert_eq!(vv_of(&replica.version_vector()), vec![("a".to_string(), 2)]);
    let mut other = Replica::new("r".to_string());
    other.apply(op("a", 1, "x", "1", 10, 0));
    other.apply(op("a", 2, "y", "2", 20, 0));
    assert_eq!(state(&replica), state(&other));
    assert_eq!(replica.state_fingerprint(), other.state_fingerprint());
    assert!(!replica.apply(op("a", 1, "x", "again", 30, 0)));
    assert!(!replica.apply(op("a", 2, "y", "again", 30, 0)));
}

#[test]
fn an_operation_with_number_zero_is_never_news() {
    let mut replica = Replica::new("a".to_string());
    assert!(!replica.apply(op("b", 0, "k", "v", 5, 0)));
    assert_eq!(replica.version_vector().len(), 0);
}

#[test]
fn entries_come_in_the_order_of_their_names() {
    let mut replica = Replica::new("a".to_string());
    for (n, name) in ["pear", "apple", "über", "fig", "Zebra", "app"].iter().enumerate() {
        replica.apply(op("b", n as u64 + 1, name, "x", 5, n as u32));
    }
    let names: Vec<String> = replica.entries().into_iter().map(|e| e.entity).collect();
    assert_eq!(names, vec!["Zebra", "app", "apple", "fig", "pear", "über"]);
}

#[test]
fn the_fingerprint_is_of_the_visible_state() {
    let mut one = Replica::new("a".to_string());
    let mut two = Replica::new("z".to_string());
    let empty = one.state_fingerprint();
    assert_eq!(empty, two.state_fingerprint());
    one.apply(op("b", 1, "k", "v", 5, 0));
    assert_ne!(one.state_fingerprint(), empty);
    two.apply(op("c", 4, "gone", "x", 5, 0));
    two.apply(delete("c", 5, "gone", 6, 0));
    two.apply(op("d", 9, "k", "v", 70, 3));
    assert_eq!(one.state_fingerprint(), two.state_fingerprint());
}

#[test]
fn the_fingerprint_hashes_names_and_values() {
    let mut replica = Replica::new("a".to_string());
    replica.apply(op("b", 1, "y", "2", 5, 0));
    replica.apply(op("b", 2, "x", "1", 5, 1));
    let mut h = DefaultHasher::new();
    for t in ["x", "1", "y", "2"] {
        t.to_string().hash(&mut h);
    }
    assert_eq!(replica.state_fingerprint(), h.finish());
}

#[test]
fn a_peer_is_owed_what_it_has_not_seen() {
    let mut replica = Replica::new("a".to_string());
    replica.apply(op("b", 1, "k", "v", 5, 0));
    replica.apply(op("c", 3, "k", "w", 5, 1));
    replica.apply(op("b", 2, "k", "x", 5, 2));
    let mut vv: VersionVector = TextMap::new();
    vv.insert("b".to_string(), 1);
    assert_eq!(
        seqs(&replica.ops_since(&vv)),
        vec![("c".to_string(), 3), ("b".to_string(), 2)]
    );
    assert!(replica.ops_since(&replica.version_vector()).is_empty());
}

#[test]
fn a_batch_is_sorted_before_it_is_taken_in() {
    let mut replica = Replica::new("a".to_string());
    let intake = replica.absorb(vec![
        op("c", 2, "k", "c2", 5, 1),
        op("b", 2, "j", "b2", 6, 0),
        op("c", 1, "i", "c1", 4, 0),
        op("b", 1, "j", "b1", 5, 0),
        op("b", 1, "j", "b1 again", 9, 0),
    ]);
    assert_eq!(intake.taken, 5);
    assert_eq!(
        seqs(&intake.accepted),
        vec![
            ("b".to_string(), 1),
            ("b".to_string(), 2),
            ("c".to_string(), 1),
            ("c".to_string(), 2),
        ]
    );
    assert_eq!(state(&replica), pairs(&[("i", "c1"), ("j", "b2"), ("k", "c2")]));
}

#[test]
fn a_batch_stops_at_an_inadmissible_clock() {
    let mut replica = Replica::new("a".to_string());
    let far = now_millis() + 1_000_000_000;
    let intake = replica.replay(vec![
        op("b", 1, "k", "v", 5, 0),
        op("b", 2, "k", "w", far, u32::MAX),
        op("b", 3, "k", "x", far, 0),
    ]);
    assert_eq!(intake.taken, 1);
    assert_eq!(intake.accepted.len(), 1);
    assert!(!replica.can_apply(&op("b", 2, "k", "w", far, u32::MAX)));
    assert!(replica.can_apply(&op("b", 1, "k", "w", far, u32::MAX)));
    assert!(replica.can_apply(&op("b", 2, "k", "w", far, 7)));
    assert_eq!(state(&replica), pairs(&[("k", "v")]));
}

#[test]
fn a_sync_round_converges() {
    let mut a = Replica::new("a".to_string());
    let mut b = Replica::new("b".to_string());
    a.local_change("only a", OpKind::Upsert, "1");
    a.local_change("both", OpKind::Upsert, "a");
    b.local_change("both", OpKind::Upsert, "b");
    b.local_change("only b", OpKind::Upsert, "2");
    let pulled = a.absorb(b.ops_since(&a.version_vector()));
    assert_eq!(pulled.accepted.len(), 2);
    let pushed = b.absorb(a.ops_since(&b.version_vector()));
    assert_eq!(pushed.accepted.len(), 2);
    assert_eq!(state(&a), state(&b));
    assert_eq!(state(&a).len(), 3);
    assert_eq!(vv_of(&a.version_vector()), vv_of(&b.version_vector()));
    assert_eq!(a.state_fingerprint(), b.state_fingerprint());
    assert!(a.ops_since(&b.version_vector()).is_empty());
    assert!(b.ops_since(&a.version_vector()).is_empty());
}

#[test]
fn three_replicas_converge_through_one() {
    let mut nodes: Vec<Replica> =
        ["a", "b", "c"].iter().map(|d| Replica::new(d.to_string())).collect();
    for (n, node) in nodes.iter_mut().enumerate() {
        node.local_change("shared", OpKind::Upsert, &n.to_string());
        node.local_change(&format!("own {n}"), OpKind::Upsert, "x");
    }
    for (i, j) in [(0, 1), (1, 2), (0, 1)] {
        let pulled = nodes[j].ops_since(&nodes[i].version_vector());
        nodes[i].absorb(pulled);
        let pushed = nodes[i].ops_since(&nodes[j].version_vector());
        nodes[j].absorb(pushed);
    }
    assert_eq!(state(&nodes[0]), state(&nodes[1]));
    assert_eq!(state(&nodes[1]), state(&nodes[2]));
    assert_eq!(state(&nodes[0]).len(), 4);
}

#[test]
fn a_local_write_wins_over_a_clock_from_the_future() {
    let mut replica = Replica::new("a".to_string());
    let far = now_millis() + 1_000_000_000;
    replica.apply(op("b", 1, "k", "from the future", far, 3));
    let mine = replica.local_change("k", OpKind::Upsert, "mine");
    assert_eq!(mine.hlc.time, far);
    assert_eq!(state(&replica), pairs(&[("k", "mine")]));
}

#[test]
fn replaying_the_log_rebuilds_the_state() {
    let mut a = Replica::new("a".to_string());
    a.local_change("k", OpKind::Upsert, "1");
    a.apply(op("b", 7, "j", "2", 5, 0));
    a.local_change("k", OpKind::Delete, "");
    let log = a.ops_since(&TextMap::new());
    let mut again = Replica::new("a".to_string());
    let intake = again.replay(log);
    assert_eq!(intake.taken, 3);
    assert_eq!(state(&again), state(&a));
    assert_eq!(vv_of(&again.version_vector()), vv_of(&a.version_vector()));
    assert_eq!(again.state_fingerprint(), a.state_fingerprint());
}

#[test]
fn a_local_change_at_a_given_time() {
    let mut replica = Replica::new("a".to_string());
    let first = replica.local_change_at("k", OpKind::Upsert, "v", 9);
    assert_eq!(first.hlc, Hlc { time: 9, counter: 0 });
    assert!(replica.apply_at(op("b", 1, "k", "w", 9, 4), 9));
    let second = replica.local_change_at("k", OpKind::Upsert, "x", 9);
    assert_eq!(second.hlc, Hlc { time: 9, counter: 6 });
    assert_eq!(state(&replica), pairs(&[("k", "x")]));
}

#[test]
fn the_order_of_a_batch_does_not_matter() {
    let ops = [
        op("b", 1, "k", "b1", 5, 0),
        op("c", 1, "k", "c1", 7, 0),
        op("b", 2, "j", "b2", 6, 0),
        delete("c", 2, "j", 6, 0),
    ];
    let mut states = Vec::new();
    for order in [[0, 1, 2, 3], [1, 3, 0, 2], [0, 2, 1, 3], [3, 2, 1, 0], [2, 3, 0, 1]] {
        let mut replica = Replica::new("a".to_string());
        for i in order {
            assert!(replica.apply(ops[i].clone()));
        }
        states.push((state(&replica), vv_of(&replica.version_vector())));
    }
    assert!(states.iter().all(|s| *s == states[0]));
    assert_eq!(states[0].0, pairs(&[("k", "c1")]));
}

#[test]
fn what_was_seen_stays_seen() {
    let mut replica = Replica::new("a".to_string());
    replica.apply(op("b", 3, "k", "v", 5, 0));
    replica.apply(op("c", 1, "k", "w", 6, 0));
    replica.apply(op("b", 4, "k", "x", 7, 0));
    for seq in [0, 3, 4] {
        assert!(!replica.apply(op("b", seq, "k", "again", 9, 0)));
    }
    assert_eq!(state(&replica), pairs(&[("k", "x")]));
}

#[test]
fn own_numbers_follow_each_other() {
    let mut replica = Replica::new("a".to_string());
    for n in 1..=5 {
        assert_eq!(replica.local_change("k", OpKind::Upsert, "v").seq, n);
        replica.apply(op("b", n, "j", "w", 5, n as u32));
    }
    let mut stamps: Vec<Hlc> = replica
        .ops_since(&TextMap::new())
        .iter()
        .filter(|o| o.device == "a")
        .map(|o| o.hlc)
        .collect();
    assert_eq!(stamps.len(), 5);
    let in_log_order = stamps.clone();
    stamps.sort();
    stamps.dedup();
    assert_eq!(stamps, in_log_order);
}

#[test]
fn a_replica_goes_on_with_its_numbers_after_a_restart() {
    let mut first = Replica::new("a".to_string());
    let mut peer = Replica::new("b".to_string());
    first.local_change("k", OpKind::Upsert, "1");
    first.local_change("k", OpKind::Upsert, "2");
    peer.absorb(first.ops_since(&peer.version_vector()));

    let mut again = Replica::new("a".to_string());
    assert_eq!(again.replay(first.ops_since(&TextMap::new())).taken, 2);
    let written = again.local_change("j", OpKind::Upsert, "after the restart");
    assert_eq!(written.seq, 3);
    assert_eq!(vv_of(&again.version_vector()), vec![("a".to_string(), 3)]);
    assert!(peer.apply(written));
    assert_eq!(state(&peer), pairs(&[("j", "after the restart"), ("k", "2")]));

    let mut third = Replica::new("a".to_string());
    assert_eq!(third.replay(again.ops_since(&TextMap::new())).accepted.len(), 3);
    assert_eq!(state(&third), state(&again));
    assert_eq!(third.local_change("k", OpKind::Delete, "").seq, 4);
}

#[test]
fn lists_in_log_order_converge_to_the_greater_numbers() {
    let mut a = Replica::new("a".to_string());
    let mut b = Replica::new("b".to_string());
    for n in 0..3 {
        a.local_change(&format!("a{n}"), OpKind::Upsert, "x");
        b.local_change("shared", OpKind::Upsert, &n.to_string());
    }
    a.local_change("shared", OpKind::Upsert, "a");
    for op in a.ops_since(&b.version_vector()) {
        assert!(b.apply(op));
    }
    for op in b.ops_since(&a.version_vector()) {
        assert!(a.apply(op));
    }
    assert_eq!(a.state_fingerprint(), b.state_fingerprint());
    assert_eq!(state(&a), state(&b));
    let expected = vec![("a".to_string(), 4), ("b".to_string(), 3)];
    assert_eq!(vv_of(&a.version_vector()), expected);
    assert_eq!(vv_of(&b.version_vector()), expected);
}

#[test]
fn a_full_counter_in_the_past_does_no_harm() {
    let mut replica = Replica::new("a".to_string());
    let full = op("b", 1, "k", "v", 5, u32::MAX);
    assert_eq!(replica.offer_at(full.clone(), 5), None);
    assert_eq!(replica.offer_at(full.clone(), 6), Some(true));
    assert_eq!(replica.offer_at(full.clone(), 5), Some(false));
    assert_eq!(replica.tick(0), Hlc { time: 6, counter: 1 });
    let mut again = Replica::new("a".to_string());
    assert_eq!(again.replay(vec![full, op("b", 2, "k", "w", 7, 0)]).taken, 2);
    assert_eq!(state(&again), pairs(&[("k", "w")]));
}

#[test]
fn an_edit_needs_a_counter_only_where_the_wall_is_not_ahead() {
    let mut replica = Replica::new("a".to_string());
    replica.apply_at(op("b", 1, "k", "v", 9, u32::MAX - 1), 9);
    assert!(!replica.can_change());
    assert!(replica.offer_change_at("k", OpKind::Upsert, "w", 9).is_none());
    assert_eq!(state(&replica), pairs(&[("k", "v")]));
    let made = replica.offer_change_at("k", OpKind::Upsert, "w", 10).unwrap();
    assert_eq!((made.seq, made.hlc), (1, Hlc { time: 10, counter: 0 }));
    assert_eq!(state(&replica), pairs(&[("k", "w")]));
    replica.apply_at(op("a", u64::MAX, "j", "x", 1, 0), 10);
    assert!(replica.offer_change_at("k", OpKind::Delete, "", 11).is_none());
}
