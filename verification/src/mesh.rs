//! A group of replicas that edit and sync: what edits and sync rounds keep
//! of the group, which is all that convergence needs.

use crate::clock;
use crate::dataset;
use crate::laws;
use crate::node;
use crate::node::{Answer, Move, NodeView, Request, Round};
use crate::op;
use crate::op::{Op, OpKind, OpView};
use crate::replica;
use crate::replica::{Intake, ReplicaView, VersionVector};
use vstd::prelude::*;

verus! {

/// Where an operation of one log and one of the other carry the same stamp
/// for the same entity, they agree.
pub open spec fn agree(a: Seq<OpView>, b: Seq<OpView>) -> bool {
    forall|i: int, j: int|
        0 <= i < a.len() && 0 <= j < b.len() && (#[trigger] a[i]).entity == (
        #[trigger] b[j]).entity && a[i].hlc == b[j].hlc && a[i].device == b[j].device
            ==> a[i].entry() == b[j].entry()
}

/// Whatever the log holds of the replica's own device, the replica made.
pub open spec fn at_home(node: ReplicaView, log: Seq<OpView>) -> bool {
    forall|i: int|
        0 <= i < log.len() && (#[trigger] log[i]).device == node.device
            ==> node.data.log.contains(log[i])
}

/// A replica in good order: its data is what its log says, no number of a
/// device is given twice there, and its own number is not behind.
pub open spec fn sound(node: ReplicaView) -> bool {
    &&& node.consistent()
    &&& laws::numbered(node.data.log)
    &&& agree(node.data.log, node.data.log)
    &&& node.own_current()
}

/// What one replica may rely on with respect to another: they are different
/// devices, their histories are those of the same devices, stamps tell
/// operations apart, and nobody else speaks for this device.
pub open spec fn kin(a: ReplicaView, b: ReplicaView) -> bool {
    &&& a.device != b.device
    &&& laws::covers(a.data.log, b.data.log)
    &&& agree(a.data.log, b.data.log)
    &&& at_home(a, b.data.log)
}

/// Replicas in good order, each with every other.
pub open spec fn mesh(nodes: Seq<ReplicaView>) -> bool {
    &&& forall|i: int| 0 <= i < nodes.len() ==> sound(#[trigger] nodes[i])
    &&& forall|i: int, j: int|
        0 <= i < nodes.len() && 0 <= j < nodes.len() && i != j ==> kin(
            #[trigger] nodes[i],
            #[trigger] nodes[j],
        )
}

/// New replicas of different devices are a mesh.
pub proof fn law_fresh_replicas_are_a_mesh(nodes: Seq<ReplicaView>)
    requires
        forall|i: int|
            0 <= i < nodes.len() ==> #[trigger] nodes[i] == ReplicaView::fresh(nodes[i].device),
        forall|i: int, j: int|
            0 <= i < nodes.len() && 0 <= j < nodes.len() && i != j ==> (
            #[trigger] nodes[i]).device != (#[trigger] nodes[j]).device,
    ensures
        mesh(nodes),
{
}

/// A local edit keeps the mesh.
pub proof fn law_edits_keep_the_mesh(
    nodes: Seq<ReplicaView>,
    k: int,
    entity: Seq<char>,
    kind: OpKind,
    value: Seq<char>,
    wall: u64,
)
    requires
        mesh(nodes),
        0 <= k < nodes.len(),
        nodes[k].seq < u64::MAX,
        clock::tick_fits(nodes[k].clock, wall),
    ensures
        mesh(nodes.update(k, nodes[k].with_own(nodes[k].local_op(entity, kind, value, wall)))),
{
    let node = nodes[k];
    let o = node.local_op(entity, kind, value, wall);
    let after = node.with_own(o);
    let log = node.data.log;
    let n = log.len() as int;
    let next = nodes.update(k, after);
    assert(sound(node));
    laws::law_local_edits_are_news(node, entity, kind, value, wall);
    dataset::lemma_with_keeps_consistent(node.data, o);
    assert forall|i: int| 0 <= i < after.data.log.len() implies !after.clock.before(
        (#[trigger] after.data.log[i]).hlc,
    ) by {
        if i < n {
            assert(after.data.log[i] == log[i]);
        }
    }
    assert forall|i: int| 0 <= i < n implies (#[trigger] log[i]).hlc.before(o.hlc) by {}
    assert(agree(after.data.log, after.data.log)) by {
        assert forall|i: int, j: int|
            0 <= i < after.data.log.len() && 0 <= j < after.data.log.len() && (
            #[trigger] after.data.log[i]).entity == (#[trigger] after.data.log[j]).entity
                && after.data.log[i].hlc == after.data.log[j].hlc && after.data.log[i].device
                == after.data.log[j].device implies after.data.log[i].entry()
            == after.data.log[j].entry() by {
            if i < n {
                assert(after.data.log[i] == log[i]);
            }
            if j < n {
                assert(after.data.log[j] == log[j]);
            }
        }
    }
    laws::lemma_top_seqs(log, node.device);
    assert forall|j: int| 0 <= j < nodes.len() && j != k implies kin(after, #[trigger] nodes[j])
        && kin(nodes[j], after) by {
        lemma_edit_keeps_kin(node, nodes[j], o);
    }
    assert forall|i: int| 0 <= i < next.len() implies sound(#[trigger] next[i]) by {
        if i != k {
            assert(next[i] == nodes[i]);
        }
    }
    assert forall|i: int, j: int|
        0 <= i < next.len() && 0 <= j < next.len() && i != j implies kin(
        #[trigger] next[i],
        #[trigger] next[j],
    ) by {
        if i != k {
            assert(next[i] == nodes[i]);
        }
        if j != k {
            assert(next[j] == nodes[j]);
        }
    }
}

proof fn lemma_edit_keeps_kin(node: ReplicaView, other: ReplicaView, o: OpView)
    requires
        sound(node),
        kin(node, other),
        kin(other, node),
        o.device == node.device,
        o.seq > node.seq,
        forall|i: int| 0 <= i < node.data.log.len() ==> (#[trigger] node.data.log[i]).hlc.before(
            o.hlc,
        ),
    ensures
        kin(node.with_own(o), other),
        kin(other, node.with_own(o)),
{
    let log = node.data.log;
    let there = other.data.log;
    let grown = log.push(o);
    let after = node.with_own(o);
    let n = log.len() as int;
    laws::lemma_top_seqs(log, node.device);
    assert forall|p: OpView| #[trigger] log.contains(p) implies grown.contains(p) by {
        let m = choose|m: int| 0 <= m < log.len() && log[m] == p;
        assert(grown[m] == p);
    }
    assert forall|j: int|
        0 <= j < there.len() && (#[trigger] there[j]).device == node.device implies log.contains(
        there[j],
    ) && there[j].seq < o.seq && there[j].hlc.before(o.hlc) by {
        let m = choose|m: int| 0 <= m < log.len() && log[m] == there[j];
        assert(log[m].seq <= dataset::seen(node.data.vv, node.device));
    }
    assert(laws::covers(grown, there)) by {
        assert forall|i: int, j: int|
            0 <= i < grown.len() && 0 <= j < there.len() && (#[trigger] grown[i]).device == (
            #[trigger] there[j]).device && there[j].seq <= grown[i].seq implies grown.contains(
            there[j],
        ) by {
            if i < n {
                assert(grown[i] == log[i]);
            }
            assert(log.contains(there[j]));
        }
    }
    assert(laws::covers(there, grown)) by {
        assert forall|i: int, j: int|
            0 <= i < there.len() && 0 <= j < grown.len() && (#[trigger] there[i]).device == (
            #[trigger] grown[j]).device && grown[j].seq <= there[i].seq implies there.contains(
            grown[j],
        ) by {
            if j < n {
                assert(grown[j] == log[j]);
            }
        }
    }
    assert(agree(grown, there)) by {
        assert forall|i: int, j: int|
            0 <= i < grown.len() && 0 <= j < there.len() && (#[trigger] grown[i]).entity == (
            #[trigger] there[j]).entity && grown[i].hlc == there[j].hlc && grown[i].device
                == there[j].device implies grown[i].entry() == there[j].entry() by {
            if i < n {
                assert(grown[i] == log[i]);
            }
        }
    }
    assert(agree(there, grown)) by {
        assert forall|i: int, j: int|
            0 <= i < there.len() && 0 <= j < grown.len() && (#[trigger] there[i]).entity == (
            #[trigger] grown[j]).entity && there[i].hlc == grown[j].hlc && there[i].device
                == grown[j].device implies there[i].entry() == grown[j].entry() by {
            if j < n {
                assert(grown[j] == log[j]);
            }
        }
    }
    assert(at_home(after, there));
    assert(at_home(other, grown)) by {
        assert forall|i: int|
            0 <= i < grown.len() && (#[trigger] grown[i]).device
                == other.device implies there.contains(grown[i]) by {
            if i < n {
                assert(grown[i] == log[i]);
            }
        }
    }
}

/// The replica after a batch of arrivals that was dealt with whole.
pub open spec fn received(before: ReplicaView, ops: Seq<OpView>, after: ReplicaView) -> bool {
    &&& after.device == before.device
    &&& after.data == before.data.apply_all(ops)
    &&& after.consistent()
    &&& before.own_current() ==> after.own_current()
}

/// A batch that a sound replica took in whole has been received.
pub proof fn law_whole_intake_is_received(
    before: ReplicaView,
    arrival: Seq<OpView>,
    intake: Intake,
    after: ReplicaView,
)
    requires
        replica::took_in(before, arrival, intake, after),
        intake.taken == arrival.len(),
        after.consistent(),
    ensures
        received(before, arrival, after),
{
    assert(arrival.take(arrival.len() as int) =~= arrival);
    let walls = choose|walls: Seq<u64>|
        walls.len() == intake.taken && after == #[trigger] before.run(
            arrival.take(intake.taken as int),
            walls,
        );
    laws::lemma_run(before, arrival, walls);
}

/// Holds the operations of two logs of a mesh, and no others.
spec fn union(log: Seq<OpView>, a: Seq<OpView>, b: Seq<OpView>) -> bool {
    forall|o: OpView| #[trigger] log.contains(o) <==> a.contains(o) || b.contains(o)
}

proof fn lemma_agree_by_contents(a: Seq<OpView>, b: Seq<OpView>, x: OpView, y: OpView)
    requires
        agree(a, b),
        a.contains(x),
        b.contains(y),
        x.entity == y.entity,
        x.hlc == y.hlc,
        x.device == y.device,
    ensures
        x.entry() == y.entry(),
{
    let i = choose|i: int| 0 <= i < a.len() && a[i] == x;
    let j = choose|j: int| 0 <= j < b.len() && b[j] == y;
    assert(a[i].entity == b[j].entity);
}

proof fn lemma_covers_by_contents(a: Seq<OpView>, b: Seq<OpView>, x: OpView, y: OpView)
    requires
        laws::covers(a, b),
        a.contains(x),
        b.contains(y),
        x.device == y.device,
        y.seq <= x.seq,
    ensures
        a.contains(y),
{
    let i = choose|i: int| 0 <= i < a.len() && a[i] == x;
    let j = choose|j: int| 0 <= j < b.len() && b[j] == y;
    assert(a[i].device == b[j].device);
}

/// A log that unites two of three pairwise related ones is related to the
/// third.
proof fn lemma_union_and_third(
    log: Seq<OpView>,
    a: ReplicaView,
    b: ReplicaView,
    c: ReplicaView,
)
    requires
        union(log, a.data.log, b.data.log),
        kin(a, c),
        kin(c, a),
        kin(b, c),
        kin(c, b),
    ensures
        laws::covers(log, c.data.log),
        laws::covers(c.data.log, log),
        agree(log, c.data.log),
        agree(c.data.log, log),
        at_home(c, log),
{
    let (la, lb, lc) = (a.data.log, b.data.log, c.data.log);
    assert forall|i: int, j: int|
        0 <= i < log.len() && 0 <= j < lc.len() && (#[trigger] log[i]).device == (
        #[trigger] lc[j]).device && lc[j].seq <= log[i].seq implies log.contains(lc[j]) by {
        assert(log.contains(log[i]));
        assert(lc.contains(lc[j]));
        if la.contains(log[i]) {
            lemma_covers_by_contents(la, lc, log[i], lc[j]);
        } else {
            lemma_covers_by_contents(lb, lc, log[i], lc[j]);
        }
    }
    assert forall|i: int, j: int|
        0 <= i < lc.len() && 0 <= j < log.len() && (#[trigger] lc[i]).device == (
        #[trigger] log[j]).device && log[j].seq <= lc[i].seq implies lc.contains(log[j]) by {
        assert(log.contains(log[j]));
        assert(lc.contains(lc[i]));
        if la.contains(log[j]) {
            lemma_covers_by_contents(lc, la, lc[i], log[j]);
        } else {
            lemma_covers_by_contents(lc, lb, lc[i], log[j]);
        }
    }
    assert forall|i: int, j: int|
        0 <= i < log.len() && 0 <= j < lc.len() && (#[trigger] log[i]).entity == (
        #[trigger] lc[j]).entity && log[i].hlc == lc[j].hlc && log[i].device
            == lc[j].device implies log[i].entry() == lc[j].entry() by {
        assert(log.contains(log[i]));
        assert(lc.contains(lc[j]));
        if la.contains(log[i]) {
            lemma_agree_by_contents(la, lc, log[i], lc[j]);
        } else {
            lemma_agree_by_contents(lb, lc, log[i], lc[j]);
        }
    }
    assert forall|i: int, j: int|
        0 <= i < lc.len() && 0 <= j < log.len() && (#[trigger] lc[i]).entity == (
        #[trigger] log[j]).entity && lc[i].hlc == log[j].hlc && lc[i].device
            == log[j].device implies lc[i].entry() == log[j].entry() by {
        assert(log[j].entry() == lc[i].entry());
    }
    assert forall|i: int|
        0 <= i < log.len() && (#[trigger] log[i]).device == c.device implies lc.contains(
        log[i],
    ) by {
        assert(log.contains(log[i]));
        if la.contains(log[i]) {
            let m = choose|m: int| 0 <= m < la.len() && la[m] == log[i];
            assert(la[m].device == c.device);
        } else {
            let m = choose|m: int| 0 <= m < lb.len() && lb[m] == log[i];
            assert(lb[m].device == c.device);
        }
    }
}

/// A replica that unites its log with another's stays kin to it, both ways.
proof fn lemma_united_with_source(a: ReplicaView, b: ReplicaView, after: ReplicaView)
    requires
        sound(a),
        sound(b),
        kin(a, b),
        kin(b, a),
        union(after.data.log, a.data.log, b.data.log),
        after.device == a.device,
    ensures
        kin(after, b),
        kin(b, after),
        agree(after.data.log, after.data.log),
{
    let (la, lb, lu) = (a.data.log, b.data.log, after.data.log);
    assert forall|x: OpView, y: OpView|
        (la.contains(x) || lb.contains(x)) && (la.contains(y) || lb.contains(y)) && x.entity
            == y.entity && x.hlc == y.hlc && x.device == y.device implies #[trigger] x.entry()
        == #[trigger] y.entry() by {
        if la.contains(x) {
            if la.contains(y) {
                lemma_agree_by_contents(la, la, x, y);
            } else {
                lemma_agree_by_contents(la, lb, x, y);
            }
        } else {
            if la.contains(y) {
                lemma_agree_by_contents(lb, la, x, y);
            } else {
                lemma_agree_by_contents(lb, lb, x, y);
            }
        }
    }
    assert forall|i: int| 0 <= i < lu.len() implies la.contains(#[trigger] lu[i]) || lb.contains(
        lu[i],
    ) by {
        assert(lu.contains(lu[i]));
    }
    assert forall|i: int| 0 <= i < lb.len() implies lb.contains(#[trigger] lb[i]) && lu.contains(
        lb[i],
    ) by {
        assert(lb.contains(lb[i]));
        assert(lu.contains(lb[i]));
    }
    assert(agree(lu, lu)) by {
        assert forall|i: int, j: int|
            0 <= i < lu.len() && 0 <= j < lu.len() && (#[trigger] lu[i]).entity == (
            #[trigger] lu[j]).entity && lu[i].hlc == lu[j].hlc && lu[i].device
                == lu[j].device implies lu[i].entry() == lu[j].entry() by {}
    }
    assert(agree(lu, lb)) by {
        assert forall|i: int, j: int|
            0 <= i < lu.len() && 0 <= j < lb.len() && (#[trigger] lu[i]).entity == (
            #[trigger] lb[j]).entity && lu[i].hlc == lb[j].hlc && lu[i].device
                == lb[j].device implies lu[i].entry() == lb[j].entry() by {}
    }
    assert(agree(lb, lu)) by {
        assert forall|i: int, j: int|
            0 <= i < lb.len() && 0 <= j < lu.len() && (#[trigger] lb[i]).entity == (
            #[trigger] lu[j]).entity && lb[i].hlc == lu[j].hlc && lb[i].device
                == lu[j].device implies lb[i].entry() == lu[j].entry() by {}
    }
    assert(laws::covers(lb, lu)) by {
        assert forall|i: int, j: int|
            0 <= i < lb.len() && 0 <= j < lu.len() && (#[trigger] lb[i]).device == (
            #[trigger] lu[j]).device && lu[j].seq <= lb[i].seq implies lb.contains(lu[j]) by {
            if la.contains(lu[j]) {
                lemma_covers_by_contents(lb, la, lb[i], lu[j]);
            }
        }
    }
    assert(at_home(b, lu)) by {
        assert forall|i: int|
            0 <= i < lu.len() && (#[trigger] lu[i]).device == b.device implies lb.contains(
            lu[i],
        ) by {
            if la.contains(lu[i]) {
                let m = choose|m: int| 0 <= m < la.len() && la[m] == lu[i];
                assert(la[m].device == b.device);
            }
        }
    }
}

/// A pull within a mesh keeps the mesh, in whatever order the operations
/// arrive, and every one of them is accepted.
pub proof fn law_pulls_keep_the_mesh(
    nodes: Seq<ReplicaView>,
    i: int,
    j: int,
    ops: Seq<OpView>,
    after: ReplicaView,
)
    requires
        mesh(nodes),
        0 <= i < nodes.len(),
        0 <= j < nodes.len(),
        i != j,
        laws::each_once(ops, nodes[j].data.ops_since(nodes[i].data.vv)),
        received(nodes[i], ops, after),
    ensures
        mesh(nodes.update(i, after)),
        nodes[i].data.news(ops) == ops,
        after.data.vv == dataset::pointwise_max(nodes[i].data.vv, nodes[j].data.vv),
{
    let a = nodes[i];
    let b = nodes[j];
    assert(sound(a) && sound(b) && kin(a, b) && kin(b, a));
    laws::law_pull_unites(a.data, b.data, ops);
    assert(union(after.data.log, a.data.log, b.data.log));
    lemma_united_with_source(a, b, after);
    let next = nodes.update(i, after);
    assert forall|k: int| 0 <= k < nodes.len() && k != i implies kin(after, #[trigger] nodes[k])
        && kin(nodes[k], after) by {
        if k != j {
            let c = nodes[k];
            assert(kin(a, c) && kin(c, a) && kin(b, c) && kin(c, b));
            lemma_union_and_third(after.data.log, a, b, c);
            assert(at_home(after, c.data.log)) by {
                assert forall|m: int|
                    0 <= m < c.data.log.len() && (#[trigger] c.data.log[m]).device
                        == after.device implies after.data.log.contains(c.data.log[m]) by {
                    assert(a.data.log.contains(c.data.log[m]));
                }
            }
        }
    }
    assert forall|k: int| 0 <= k < next.len() implies sound(#[trigger] next[k]) by {
        if k != i {
            assert(next[k] == nodes[k]);
        }
    }
    assert forall|k: int, m: int|
        0 <= k < next.len() && 0 <= m < next.len() && k != m implies kin(
        #[trigger] next[k],
        #[trigger] next[m],
    ) by {
        if k != i {
            assert(next[k] == nodes[k]);
        }
        if m != i {
            assert(next[m] == nodes[m]);
        }
    }
}

/// A restart keeps the mesh: a node that is replaced by a replay of its own
/// log has the same data, and goes on with the numbers of its device.
pub proof fn law_restarts_keep_the_mesh(
    nodes: Seq<ReplicaView>,
    k: int,
    intake: Intake,
    after: ReplicaView,
)
    requires
        mesh(nodes),
        0 <= k < nodes.len(),
        replica::took_in(
            ReplicaView::fresh(nodes[k].device),
            nodes[k].data.log,
            intake,
            after,
        ),
        intake.taken == nodes[k].data.log.len(),
        after.consistent(),
    ensures
        mesh(nodes.update(k, after)),
        after.data == nodes[k].data,
        after.seq == dataset::seen(nodes[k].data.vv, nodes[k].device),
{
    let node = nodes[k];
    let next = nodes.update(k, after);
    assert(sound(node));
    laws::law_restart_keeps_the_data(node.device, node.data, intake, after);
    assert forall|i: int| 0 <= i < nodes.len() && i != k implies kin(after, #[trigger] nodes[i])
        && kin(nodes[i], after) by {
        assert(kin(node, nodes[i]) && kin(nodes[i], node));
    }
    assert forall|i: int| 0 <= i < next.len() implies sound(#[trigger] next[i]) by {
        if i != k {
            assert(next[i] == nodes[i]);
        }
    }
    assert forall|i: int, j: int|
        0 <= i < next.len() && 0 <= j < next.len() && i != j implies kin(
        #[trigger] next[i],
        #[trigger] next[j],
    ) by {
        if i != k {
            assert(next[i] == nodes[i]);
        }
        if j != k {
            assert(next[j] == nodes[j]);
        }
    }
}

/// A sync round between two replicas of a mesh keeps the mesh, and leaves
/// the two with the same operations, entries, fingerprint and version
/// vector, in whatever order the operations arrive.
pub proof fn law_sync_rounds_keep_the_mesh(
    nodes: Seq<ReplicaView>,
    i: int,
    j: int,
    pulled: Seq<OpView>,
    pushed: Seq<OpView>,
    after_i: ReplicaView,
    after_j: ReplicaView,
)
    requires
        mesh(nodes),
        0 <= i < nodes.len(),
        0 <= j < nodes.len(),
        i != j,
        laws::each_once(pulled, nodes[j].data.ops_since(nodes[i].data.vv)),
        received(nodes[i], pulled, after_i),
        laws::each_once(pushed, after_i.data.ops_since(nodes[j].data.vv)),
        received(nodes[j], pushed, after_j),
    ensures
        mesh(nodes.update(i, after_i).update(j, after_j)),
        laws::same_ops(after_i.data.log, after_j.data.log),
        after_i.data.entries == after_j.data.entries,
        after_i.data.vv == dataset::pointwise_max(nodes[i].data.vv, nodes[j].data.vv),
        after_j.data.vv == dataset::pointwise_max(nodes[i].data.vv, nodes[j].data.vv),
        replica::fingerprint(dataset::live(after_i.data.entries)) == replica::fingerprint(
            dataset::live(after_j.data.entries),
        ),
        nodes[i].data.news(pulled) == pulled,
        nodes[j].data.news(pushed) == pushed,
{
    let a = nodes[i];
    let b = nodes[j];
    assert(sound(a) && sound(b) && kin(a, b) && kin(b, a));
    lemma_winners_agree(a, b);
    laws::law_sync_round_converges(a.data, b.data, pulled, pushed);
    law_pulls_keep_the_mesh(nodes, i, j, pulled, after_i);
    law_pulls_keep_the_mesh(nodes.update(i, after_i), j, i, pushed, after_j);
}

proof fn lemma_winners_agree(a: ReplicaView, b: ReplicaView)
    requires
        sound(a),
        sound(b),
        kin(a, b),
        kin(b, a),
    ensures
        laws::winners_agree(a.data.log + b.data.log),
{
    let both = a.data.log + b.data.log;
    let n = a.data.log.len() as int;
    assert forall|x: int, y: int|
        0 <= x < both.len() && 0 <= y < both.len() && (#[trigger] both[x]).entity == (
        #[trigger] both[y]).entity && both[x].hlc == both[y].hlc && both[x].device
            == both[y].device implies both[x].entry() == both[y].entry() by {
        let p = if x < n {
            a.data.log[x]
        } else {
            b.data.log[x - n]
        };
        let q = if y < n {
            a.data.log[y]
        } else {
            b.data.log[y - n]
        };
        assert(p == both[x] && q == both[y]);
    }
}

/// In a mesh an exchange of whole lists in the order of the logs, one way
/// and then the other, accepts every operation and leaves both sides with
/// the same entries, fingerprint and version vector.
pub proof fn law_exchanges_in_log_order_converge(nodes: Seq<ReplicaView>, i: int, j: int)
    requires
        mesh(nodes),
        0 <= i < nodes.len(),
        0 <= j < nodes.len(),
        i != j,
    ensures
        ({
            let (a, b) = (nodes[i].data, nodes[j].data);
            let x = a.ops_since(b.vv);
            let after_b = b.apply_all(x);
            let y = after_b.ops_since(a.vv);
            let after_a = a.apply_all(y);
            &&& b.news(x) == x
            &&& a.news(y) == y
            &&& after_a.entries == after_b.entries
            &&& after_a.vv == dataset::pointwise_max(a.vv, b.vv)
            &&& after_b.vv == dataset::pointwise_max(a.vv, b.vv)
            &&& replica::fingerprint(dataset::live(after_a.entries)) == replica::fingerprint(
                dataset::live(after_b.entries),
            )
        }),
{
    let a = nodes[i];
    let b = nodes[j];
    assert(sound(a) && sound(b) && kin(a, b) && kin(b, a));
    lemma_winners_agree(b, a);
    laws::law_exchange_in_log_order_converges(a.data, b.data);
}

/// The list that one replica of a mesh owes another can be applied as it
/// stands, or sorted first.
pub proof fn law_owed_lists_hold_each_op_once(
    nodes: Seq<ReplicaView>,
    i: int,
    vv: Map<Seq<char>, u64>,
    ops: Seq<OpView>,
)
    requires
        mesh(nodes),
        0 <= i < nodes.len(),
        ops == nodes[i].data.ops_since(vv) || op::is_arrangement(
            nodes[i].data.ops_since(vv),
            ops,
        ),
    ensures
        laws::each_once(ops, nodes[i].data.ops_since(vv)),
{
    assert(sound(nodes[i]));
    let list = nodes[i].data.ops_since(vv);
    laws::law_missing_is_what_was_not_seen(nodes[i].data.log, vv);
    if op::is_arrangement(list, ops) {
        laws::law_sorting_keeps_a_batch(list, ops);
        assert forall|o: OpView| #[trigger] ops.contains(o) <==> list.contains(o) by {
            assert(list.contains(o) <==> ops.contains(o));
        }
    }
}

/// A batch that was taken in whole has been received in some order by
/// device and number.
proof fn lemma_absorbed_whole(
    before: ReplicaView,
    arrival: Seq<OpView>,
    intake: Intake,
    after: ReplicaView,
) -> (arranged: Seq<OpView>)
    requires
        replica::absorbed(before, arrival, intake, after),
        intake.taken == arrival.len(),
        after.consistent(),
    ensures
        op::is_arrangement(arrival, arranged),
        received(before, arranged, after),
        op::ops_view(intake.accepted@) == before.data.news(arranged),
{
    let arranged = choose|arranged: Seq<OpView>|
        op::is_arrangement(arrival, arranged) && #[trigger] replica::took_in(
            before,
            arranged,
            intake,
            after,
        );
    let from = choose|from: Seq<int>| op::arranged_by(arrival, arranged, from);
    assert(op::arranged_by(arrival, arranged, from));
    assert(arranged.take(arranged.len() as int) =~= arranged);
    law_whole_intake_is_received(before, arranged, intake, after);
    arranged
}

/// What becomes of the asked node in a sync round: it takes in what is
/// pushed to it, if anything is.
pub open spec fn served(
    before: ReplicaView,
    request: Option<Request>,
    intake: Intake,
    after: ReplicaView,
) -> bool {
    match request {
        Some(Request::Push(ops)) => {
            &&& replica::absorbed(before, op::ops_view(ops@), intake, after)
            &&& intake.taken == ops@.len()
            &&& after.consistent()
        },
        _ => after == before,
    }
}

/// A sync round between two nodes of a mesh, move by move: the asking node
/// is answered with the operations that it is missing and then with the
/// version vector of the other, and the other takes in what it is sent. Both
/// then have the same entries, version vector and fingerprint, and the round
/// counts what each of them was missing.
pub proof fn law_moves_of_a_round_converge(
    asking: NodeView,
    asked: NodeView,
    ops: Vec<Op>,
    pull: Move,
    pulled: NodeView,
    vv: VersionVector,
    push: Move,
    after: NodeView,
    intake: Intake,
    served_after: ReplicaView,
)
    requires
        mesh(seq![asking.replica, asked.replica]),
        op::ops_view(ops@) == asked.replica.data.ops_since(asking.replica.data.vv),
        node::moved(asking, Round::Pulling, Answer::Ops(ops), pull, pulled),
        pull.intake.taken == ops@.len(),
        pulled.replica.consistent(),
        vv@ == asked.replica.data.vv,
        node::moved(pulled, pull.round, Answer::Version(vv), push, after),
        served(asked.replica, push.request, intake, served_after),
    ensures
        mesh(seq![after.replica, served_after]),
        after.replica.data.entries == served_after.data.entries,
        after.replica.data.vv == dataset::pointwise_max(
            asking.replica.data.vv,
            asked.replica.data.vv,
        ),
        served_after.data.vv == after.replica.data.vv,
        replica::fingerprint(dataset::live(after.replica.data.entries)) == replica::fingerprint(
            dataset::live(served_after.data.entries),
        ),
        pull.intake.accepted@.len() == ops@.len(),
        push.request matches Some(Request::Push(sent)) ==> intake.accepted@.len() == sent@.len(),
{
    let nodes = seq![asking.replica, asked.replica];
    let a = asking.replica;
    let b = asked.replica;
    assert(nodes[0] == a && nodes[1] == b);
    assert(sound(a) && sound(b) && kin(a, b) && kin(b, a));
    let arrived = lemma_absorbed_whole(a, op::ops_view(ops@), pull.intake, pulled.replica);
    let missing = pulled.replica.data.ops_since(b.data.vv);
    let sent = match push.request {
        Some(Request::Push(list)) => lemma_absorbed_whole(
            b,
            op::ops_view(list@),
            intake,
            served_after,
        ),
        _ => {
            assert(missing =~= Seq::empty());
            assert(op::arranged_by(missing, Seq::empty(), Seq::empty()));
            Seq::empty()
        },
    };
    law_owed_lists_hold_each_op_once(nodes, 1, a.data.vv, arrived);
    law_pulls_keep_the_mesh(nodes, 0, 1, arrived, pulled.replica);
    law_owed_lists_hold_each_op_once(
        nodes.update(0, pulled.replica),
        0,
        b.data.vv,
        sent,
    );
    law_sync_rounds_keep_the_mesh(nodes, 0, 1, arrived, sent, pulled.replica, served_after);
    assert(nodes.update(0, pulled.replica).update(1, served_after) =~= seq![
        after.replica,
        served_after,
    ]);
    laws::law_sorting_keeps_a_batch(op::ops_view(ops@), arrived);
    laws::law_sorting_keeps_a_batch(missing, sent);
}

} // verus!
