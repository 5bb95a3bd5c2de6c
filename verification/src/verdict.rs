//! What the checkers find is reproducible: alike runs are judged alike, with the same
//! property, instant and text of a failure.

use crate::alike;
use crate::checker::{self, Violation, ViolationView};
use crate::checker::kafka_parity::{self, ServedCatalogue};
use crate::checker::liveness::{self, WindowMap};
use crate::checker::raft_safety::{self, CommitMap, LeaderMap};
use crate::cluster::{SimNode, SimulatedCluster};
use crate::course::{self, Move};
use crate::drive::{self, Checkers};
use crate::history::{self, OpResponse, RecordedOp};
use crate::groups;
use crate::model::{self, GroupView};
use crate::output;
use crate::reproduce;
use crate::runtime::{self, FaultNote, Outcome, SimRuntime, CHECK_LOGS_INTERVAL};
use crate::scenario::RunConfig;
use crate::scheduler::{VirtualDuration, VirtualInstant};
use crate::workload::ConsumeLimits;
use vstd::prelude::*;

verus! {

proof fn lemma_node_seen_alike(m: SimNode, n: SimNode, with_log: bool)
    requires
        alike::node_alike(m, n),
        m.fleet.wf(),
        n.fleet.wf(),
        !m.fleet@.contains_key(model::meta_group()),
        !n.fleet@.contains_key(model::meta_group()),
    ensures
        raft_safety::node_seen(m, with_log) == raft_safety::node_seen(n, with_log),
{
    let meta = model::meta_group();
    assert(alike::replicas_alike(m.replica(meta), n.replica(meta)));
    assert(raft_safety::meta_seen(m, with_log) =~= raft_safety::meta_seen(n, with_log));
    let p = m.fleet@;
    let q = n.fleet@;
    assert forall|g: GroupView| p.contains_key(g) == q.contains_key(g) by {
        if g != meta {
            assert(alike::replicas_alike(m.replica(g), n.replica(g)));
        }
    }
    assert(p.dom() =~= q.dom());
    let list = groups::listing(p.dom());
    m.fleet.lemma_items();
    groups::lemma_listing(p.dom());
    let x = raft_safety::listed_seen(m.id@, p, list, with_log);
    let y = raft_safety::listed_seen(m.id@, q, list, with_log);
    assert forall|i: int| 0 <= i < list.len() implies x[i] == y[i] by {
        let g = list[i];
        assert(list.contains(g));
        assert(p.dom().contains(g));
        assert(alike::replicas_alike(m.replica(g), n.replica(g)));
    }
    assert(x =~= y);
}

proof fn lemma_nodes_seen_alike(p: Seq<SimNode>, q: Seq<SimNode>, with_log: bool)
    requires
        alike::nodes_alike(p, q),
        forall|i: int|
            0 <= i < p.len() ==> (#[trigger] p[i]).fleet.wf() && !p[i].fleet@.contains_key(
                model::meta_group(),
            ),
        forall|i: int|
            0 <= i < q.len() ==> (#[trigger] q[i]).fleet.wf() && !q[i].fleet@.contains_key(
                model::meta_group(),
            ),
    ensures
        raft_safety::nodes_seen(p, with_log) == raft_safety::nodes_seen(q, with_log),
    decreases p.len(),
{
    if p.len() > 0 {
        let x = p.drop_last();
        let y = q.drop_last();
        assert forall|i: int| 0 <= i < x.len() implies alike::node_alike(#[trigger] x[i], y[i]) by {
            assert(alike::node_alike(p[i], q[i]));
        }
        lemma_nodes_seen_alike(x, y, with_log);
        let l = p.len() - 1;
        assert(alike::node_alike(p[l], q[l]));
        lemma_node_seen_alike(p[l], q[l], with_log);
    }
}

/// Of alike clusters the same is seen, in the same order.
pub proof fn lemma_seen_alike<M>(
    a: SimulatedCluster<M>,
    b: SimulatedCluster<M>,
    with_log: bool,
)
    requires
        a.wf(),
        b.wf(),
        alike::clusters_alike(a, b),
    ensures
        raft_safety::nodes_seen(a.nodes@, with_log) == raft_safety::nodes_seen(b.nodes@, with_log),
{
    let p = a.nodes@;
    let q = b.nodes@;
    assert forall|i: int| 0 <= i < p.len() implies (#[trigger] p[i]).fleet.wf()
        && !p[i].fleet@.contains_key(model::meta_group()) by {
        assert(p[i].wf(a.topology));
    }
    assert forall|i: int| 0 <= i < q.len() implies (#[trigger] q[i]).fleet.wf()
        && !q[i].fleet@.contains_key(model::meta_group()) by {
        assert(q[i].wf(b.topology));
    }
    lemma_nodes_seen_alike(p, q, with_log);
}

/// In alike clusters the same groups are there.
proof fn lemma_present_alike<M>(
    a: SimulatedCluster<M>,
    b: SimulatedCluster<M>,
    g: GroupView,
)
    requires
        alike::clusters_alike(a, b),
    ensures
        liveness::present(a.nodes@, g) == liveness::present(b.nodes@, g),
{
    let p = a.nodes@;
    let q = b.nodes@;
    if g != model::meta_group() {
        assert forall|i: int| 0 <= i < p.len() implies (#[trigger] p[i]).running == q[i].running
            && p[i].fleet@.contains_key(g) == q[i].fleet@.contains_key(g) by {
            assert(alike::node_alike(p[i], q[i]));
            assert(alike::replicas_alike(p[i].replica(g), q[i].replica(g)));
        }
        if liveness::present(p, g) {
            let i = choose|i: int|
                0 <= i < p.len() && (#[trigger] p[i]).running && p[i].fleet@.contains_key(g);
            assert(q[i].running && q[i].fleet@.contains_key(g));
        }
        if liveness::present(q, g) {
            let i = choose|i: int|
                0 <= i < q.len() && (#[trigger] q[i]).running && q[i].fleet@.contains_key(g);
            assert(p[i].running && p[i].fleet@.contains_key(g));
        }
    }
}

/// Of a group of alike clusters the same is seen.
proof fn lemma_snapshot_alike<M>(
    a: SimulatedCluster<M>,
    b: SimulatedCluster<M>,
    g: GroupView,
)
    requires
        a.wf(),
        b.wf(),
        alike::clusters_alike(a, b),
    ensures
        liveness::snapshot_of(a, g) == liveness::snapshot_of(b, g),
{
    alike::lemma_sets_alike(a.topology, b.topology, g);
    let s = liveness::members(a.topology, g);
    let t = liveness::members(b.topology, g);
    assert(model::node_names(s) =~= model::node_names(t));
    assert(s.len() == model::node_names(s).len());
    assert(t.len() == model::node_names(t).len());
    let x = liveness::voters_of(a, g);
    let y = liveness::voters_of(b, g);
    assert forall|i: int| 0 <= i < x.len() implies x[i] == y[i] by {
        assert(model::node_names(s)[i] == model::node_names(t)[i]);
        assert(s[i]@ == t[i]@);
        alike::lemma_named_alike(a.topology, b.topology, s[i]@);
        if model::names(a.topology.nodes@, s[i]@) {
            let k = a.topology.index_named(s[i]@);
            assert(alike::node_alike(a.nodes@[k], b.nodes@[k]));
            assert(alike::replicas_alike(a.nodes@[k].replica(g), b.nodes@[k].replica(g)));
        }
    }
    assert(x =~= y);
    let m = liveness::matrix_of(x, a.network);
    let n = liveness::matrix_of(y, b.network);
    assert forall|i: int| 0 <= i < m.len() implies m[i] == n[i] by {
        assert forall|j: int| 0 <= j < m[i].len() implies m[i][j] == n[i][j] by {
            alike::lemma_stopped_alike(a.network, b.network, x[i].node, x[j].node);
            alike::lemma_stopped_alike(a.network, b.network, x[j].node, x[i].node);
        }
        assert(m[i] =~= n[i]);
    }
    assert(m =~= n);
}

/// Looking at alike clusters leaves the same known of their groups.
proof fn lemma_looked_alike<M>(
    a: SimulatedCluster<M>,
    b: SimulatedCluster<M>,
    before: WindowMap,
    after: WindowMap,
    other: WindowMap,
    now: VirtualInstant,
)
    requires
        a.wf(),
        b.wf(),
        alike::clusters_alike(a, b),
        liveness::looked_at(before, after, a, now),
        liveness::looked_at(before, other, b, now),
    ensures
        after == other,
{
    assert forall|g: GroupView| #[trigger]
        liveness::present(a.nodes@, g) == liveness::present(b.nodes@, g) by {
        lemma_present_alike(a, b, g);
    }
    assert forall|g: GroupView| #[trigger] after.contains_key(g) == other.contains_key(g) by {
        assert(liveness::present(a.nodes@, g) == liveness::present(b.nodes@, g));
    }
    assert forall|g: GroupView| #[trigger] after.contains_key(g) implies after[g] == other[g] by {
        assert(other.contains_key(g));
        assert(liveness::present(a.nodes@, g) == liveness::present(b.nodes@, g));
        lemma_snapshot_alike(a, b, g);
    }
    assert(after =~= other);
}

/// Whether two lists record the same operations.
spec fn ops_alike(x: Seq<RecordedOp>, y: Seq<RecordedOp>) -> bool {
    history::op_views(x) == history::op_views(y)
}

proof fn lemma_op_alike(x: Seq<RecordedOp>, y: Seq<RecordedOp>, i: int)
    requires
        ops_alike(x, y),
        0 <= i < x.len(),
    ensures
        x.len() == y.len(),
        x[i]@ == y[i]@,
        x[i].args.topic_text() == y[i].args.topic_text(),
        x[i].args.partition_index() == y[i].args.partition_index(),
{
    assert(history::op_views(x).len() == x.len());
    assert(history::op_views(y).len() == y.len());
    assert(history::op_views(x)[i] == x[i]@);
    assert(history::op_views(y)[i] == y[i]@);
    assert(x[i].args@ == y[i].args@);
}

proof fn lemma_ops_prefix(x: Seq<RecordedOp>, y: Seq<RecordedOp>)
    requires
        ops_alike(x, y),
        x.len() > 0,
    ensures
        y.len() == x.len(),
        ops_alike(x.drop_last(), y.drop_last()),
{
    lemma_op_alike(x, y, 0);
    assert forall|i: int| 0 <= i < x.drop_last().len() implies (#[trigger] x.drop_last()[i])@
        == y.drop_last()[i]@ by {
        lemma_op_alike(x, y, i);
    }
    assert(history::op_views(x.drop_last()) =~= history::op_views(y.drop_last()));
}

proof fn lemma_deletes_within(x: Seq<RecordedOp>, y: Seq<RecordedOp>, topic: Seq<char>)
    requires
        ops_alike(x, y),
        kafka_parity::deletes(x, topic),
    ensures
        kafka_parity::deletes(y, topic),
{
    let i = choose|i: int|
        0 <= i < x.len() && kafka_parity::is_delete_of(#[trigger] x[i], topic);
    lemma_op_alike(x, y, i);
    assert(x[i].response@ == y[i].response@);
    assert(kafka_parity::is_delete_of(y[i], topic));
}

proof fn lemma_mentions_within(x: Seq<RecordedOp>, y: Seq<RecordedOp>, g: GroupView)
    requires
        ops_alike(x, y),
        kafka_parity::mentions(x, g),
    ensures
        kafka_parity::mentions(y, g),
{
    let i = choose|i: int| 0 <= i < x.len() && (#[trigger] x[i]).on_partition(g.0, g.1);
    lemma_op_alike(x, y, i);
    assert(y[i].on_partition(g.0, g.1));
}

/// The same partitions are checked of histories that record the same.
proof fn lemma_checked_alike(x: Seq<RecordedOp>, y: Seq<RecordedOp>, g: GroupView)
    requires
        ops_alike(x, y),
    ensures
        kafka_parity::checked(x, g) == kafka_parity::checked(y, g),
{
    if kafka_parity::deletes(x, g.0) {
        lemma_deletes_within(x, y, g.0);
    }
    if kafka_parity::deletes(y, g.0) {
        lemma_deletes_within(y, x, g.0);
    }
    if kafka_parity::mentions(x, g) {
        lemma_mentions_within(x, y, g);
    }
    if kafka_parity::mentions(y, g) {
        lemma_mentions_within(y, x, g);
    }
}

proof fn lemma_told_alike(x: Seq<RecordedOp>, y: Seq<RecordedOp>, g: GroupView)
    requires
        ops_alike(x, y),
    ensures
        kafka_parity::acked_in(x, g.0, g.1) == kafka_parity::acked_in(y, g.0, g.1),
        kafka_parity::consumes_in(x, g.0, g.1) == kafka_parity::consumes_in(y, g.0, g.1),
    decreases x.len(),
{
    assert(history::op_views(x).len() == x.len());
    assert(history::op_views(y).len() == y.len());
    if x.len() > 0 {
        lemma_ops_prefix(x, y);
        lemma_told_alike(x.drop_last(), y.drop_last(), g);
        lemma_op_alike(x, y, x.len() - 1);
        let o = x.last();
        let p = y.last();
        assert(o.response@ == p.response@);
        match (o.response, p.response) {
            (
                OpResponse::ConsumeOk { topic, partition, start_offset, records: r },
                OpResponse::ConsumeOk { topic: t, partition: q, start_offset: u, records: s },
            ) => {
                let m = history::record_views(r@);
                let n = history::record_views(s@);
                assert(m == n);
                assert(m.len() == r@.len() && n.len() == s@.len());
                assert forall|i: int| 0 <= i < r@.len() implies (#[trigger] r@[i]).value@
                    == s@[i].value@ by {
                    assert(m[i] == r@[i]@ && n[i] == s@[i]@);
                }
                assert(kafka_parity::record_values(r@) =~= kafka_parity::record_values(s@));
            },
            _ => {},
        }
    }
}

proof fn lemma_longest_alike(p: Seq<SimNode>, q: Seq<SimNode>, g: GroupView)
    requires
        alike::nodes_alike(p, q),
        g != model::meta_group(),
    ensures
        kafka_parity::longest(p, g) == kafka_parity::longest(q, g),
    decreases p.len(),
{
    if p.len() > 0 {
        let x = p.drop_last();
        let y = q.drop_last();
        assert forall|i: int| 0 <= i < x.len() implies alike::node_alike(#[trigger] x[i], y[i]) by {
            assert(alike::node_alike(p[i], q[i]));
        }
        lemma_longest_alike(x, y, g);
        let m = p.last();
        let n = q.last();
        assert(alike::node_alike(p[p.len() - 1], q[p.len() - 1]));
        assert(alike::replicas_alike(m.replica(g), n.replica(g)));
        if m.fleet@.contains_key(g) {
            let s = m.fleet@[g].records@;
            let t = n.fleet@[g].records@;
            assert(kafka_parity::committed_views(s).len() == s.len());
            assert(kafka_parity::committed_views(t).len() == t.len());
        }
    }
}

/// No node has partition records of the metadata group.
proof fn lemma_longest_meta(p: Seq<SimNode>)
    requires
        forall|i: int|
            0 <= i < p.len() ==> !(#[trigger] p[i]).fleet@.contains_key(model::meta_group()),
    ensures
        kafka_parity::longest(p, model::meta_group()).len() == 0,
    decreases p.len(),
{
    if p.len() > 0 {
        let x = p.drop_last();
        assert forall|i: int| 0 <= i < x.len() implies !(#[trigger] x[i]).fleet@.contains_key(
            model::meta_group(),
        ) by {
            assert(x[i] == p[i]);
        }
        lemma_longest_meta(x);
        assert(!p[p.len() - 1].fleet@.contains_key(model::meta_group()));
    }
}

/// What the checks of a partition look at is the same in alike clusters.
proof fn lemma_partition_alike<M>(
    a: SimulatedCluster<M>,
    b: SimulatedCluster<M>,
    x: Seq<RecordedOp>,
    y: Seq<RecordedOp>,
    g: GroupView,
)
    requires
        a.wf(),
        b.wf(),
        alike::clusters_alike(a, b),
        ops_alike(x, y),
    ensures
        kafka_parity::partition_of(a.nodes@, x, g) == kafka_parity::partition_of(b.nodes@, y, g),
{
    lemma_told_alike(x, y, g);
    if g == model::meta_group() {
        assert forall|i: int| 0 <= i < a.nodes@.len() implies !(
        #[trigger] a.nodes@[i]).fleet@.contains_key(model::meta_group()) by {
            assert(a.nodes@[i].wf(a.topology));
        }
        assert forall|i: int| 0 <= i < b.nodes@.len() implies !(
        #[trigger] b.nodes@[i]).fleet@.contains_key(model::meta_group()) by {
            assert(b.nodes@[i].wf(b.topology));
        }
        lemma_longest_meta(a.nodes@);
        lemma_longest_meta(b.nodes@);
        assert(kafka_parity::longest(a.nodes@, g) =~= kafka_parity::longest(b.nodes@, g));
    } else {
        lemma_longest_alike(a.nodes@, b.nodes@, g);
    }
}

spec fn served_alike(x: Seq<ServedCatalogue>, y: Seq<ServedCatalogue>) -> bool {
    &&& x.len() == y.len()
    &&& forall|i: int|
        #![trigger x[i]]
        #![trigger y[i]]
        0 <= i < x.len() ==> x[i].node == y[i].node && x[i].commit == y[i].commit
            && alike::catalogues_alike(x[i].meta, y[i].meta)
}

proof fn lemma_served_alike(p: Seq<SimNode>, q: Seq<SimNode>)
    requires
        alike::nodes_alike(p, q),
    ensures
        served_alike(kafka_parity::served_catalogues(p), kafka_parity::served_catalogues(q)),
    decreases p.len(),
{
    if p.len() > 0 {
        let x = p.drop_last();
        let y = q.drop_last();
        assert forall|i: int| 0 <= i < x.len() implies alike::node_alike(#[trigger] x[i], y[i]) by {
            assert(alike::node_alike(p[i], q[i]));
        }
        lemma_served_alike(x, y);
        let m = p.last();
        let n = q.last();
        assert(alike::node_alike(p[p.len() - 1], q[p.len() - 1]));
        assert(alike::replicas_alike(
            m.replica(model::meta_group()),
            n.replica(model::meta_group()),
        ));
        assert(kafka_parity::meta_commit(m) == kafka_parity::meta_commit(n));
    }
}

proof fn lemma_diverge_alike(
    a: ServedCatalogue,
    b: ServedCatalogue,
    c: ServedCatalogue,
    d: ServedCatalogue,
)
    requires
        a.commit == c.commit,
        b.commit == d.commit,
        alike::catalogues_alike(a.meta, c.meta),
        alike::catalogues_alike(b.meta, d.meta),
        kafka_parity::diverge(a, b),
    ensures
        kafka_parity::diverge(c, d),
{
    let t = choose|t: Seq<char>| #[trigger] kafka_parity::differ_on(a.meta, b.meta, t);
    assert(kafka_parity::topic_at(a.meta, t) == kafka_parity::topic_at(c.meta, t));
    assert(kafka_parity::topic_at(b.meta, t) == kafka_parity::topic_at(d.meta, t));
    assert(kafka_parity::differ_on(c.meta, d.meta, t));
}

proof fn lemma_converged_alike(x: Seq<ServedCatalogue>, y: Seq<ServedCatalogue>)
    requires
        served_alike(x, y),
    ensures
        kafka_parity::converged(x) == kafka_parity::converged(y),
{
    if kafka_parity::converged(x) {
        assert forall|i: int, j: int| 0 <= i < j < y.len() implies !kafka_parity::diverge(
            #[trigger] y[i],
            #[trigger] y[j],
        ) by {
            if kafka_parity::diverge(y[i], y[j]) {
                lemma_diverge_alike(y[i], y[j], x[i], x[j]);
            }
        }
    }
    if kafka_parity::converged(y) {
        assert forall|i: int, j: int| 0 <= i < j < x.len() implies !kafka_parity::diverge(
            #[trigger] x[i],
            #[trigger] x[j],
        ) by {
            if kafka_parity::diverge(x[i], x[j]) {
                lemma_diverge_alike(x[i], x[j], y[i], y[j]);
            }
        }
    }
}

/// Of alike catalogues the same first divergence is reported.
proof fn lemma_divergence_alike(
    x: Seq<ServedCatalogue>,
    y: Seq<ServedCatalogue>,
    v: ViolationView,
    w: ViolationView,
    now: VirtualInstant,
)
    requires
        served_alike(x, y),
        kafka_parity::breaks_convergence(x, v, now),
        kafka_parity::breaks_convergence(y, w, now),
    ensures
        v == w,
{
    let (i, j, t) = choose|i: int, j: int, t: Seq<char>| #[trigger]
        kafka_parity::first_divergence(x, i, j, t) && v == kafka_parity::divergence_violation(
            x[i],
            x[j],
            t,
            now,
        );
    let (k, l, u) = choose|k: int, l: int, u: Seq<char>| #[trigger]
        kafka_parity::first_divergence(y, k, l, u) && w == kafka_parity::divergence_violation(
            y[k],
            y[l],
            u,
            now,
        );
    assert forall|c: int, d: int| 0 <= c < d < x.len() implies kafka_parity::diverge(
        #[trigger] x[c],
        #[trigger] x[d],
    ) == kafka_parity::diverge(y[c], y[d]) by {
        if kafka_parity::diverge(x[c], x[d]) {
            lemma_diverge_alike(x[c], x[d], y[c], y[d]);
        }
        if kafka_parity::diverge(y[c], y[d]) {
            lemma_diverge_alike(y[c], y[d], x[c], x[d]);
        }
    }
    assert forall|s: Seq<char>|
        #![trigger kafka_parity::differ_on(x[k].meta, x[l].meta, s)]
        #![trigger kafka_parity::differ_on(y[k].meta, y[l].meta, s)]
        kafka_parity::differ_on(x[k].meta, x[l].meta, s) == kafka_parity::differ_on(
            y[k].meta,
            y[l].meta,
            s,
        ) by {
        assert(kafka_parity::topic_at(x[k].meta, s) == kafka_parity::topic_at(y[k].meta, s));
        assert(kafka_parity::topic_at(x[l].meta, s) == kafka_parity::topic_at(y[l].meta, s));
    }
    assert(x[k].commit == y[k].commit && x[l].commit == y[l].commit);
    assert forall|c: int, d: int| 0 <= c < k && c < d < x.len() implies !kafka_parity::diverge(
        #[trigger] x[c],
        #[trigger] x[d],
    ) by {
        assert(!kafka_parity::diverge(y[c], y[d]));
    }
    assert forall|d: int| k < d < l implies !kafka_parity::diverge(x[k], #[trigger] x[d]) by {
        assert(!kafka_parity::diverge(y[k], y[d]));
    }
    assert(kafka_parity::first_divergence(x, k, l, u));
    kafka_parity::lemma_divergence_once(x, i, j, t, k, l, u);
    assert(x[i].node == y[i].node && x[j].node == y[j].node);
}

/// Checking alike clusters against histories that record the same comes to the same.
proof fn lemma_parity_alike<M>(
    a: SimulatedCluster<M>,
    b: SimulatedCluster<M>,
    x: Seq<RecordedOp>,
    y: Seq<RecordedOp>,
    r: Result<(), Violation>,
    s: Result<(), Violation>,
    now: VirtualInstant,
)
    requires
        a.wf(),
        b.wf(),
        alike::clusters_alike(a, b),
        ops_alike(x, y),
        kafka_parity::parity_verdict(a.nodes@, x, r, now),
        kafka_parity::parity_verdict(b.nodes@, y, s, now),
    ensures
        checker::results_alike(r, s),
{
    let p = a.nodes@;
    let q = b.nodes@;
    assert forall|g: GroupView|
        #![trigger kafka_parity::checked(x, g)]
        #![trigger kafka_parity::checked(y, g)]
        kafka_parity::checked(x, g) == kafka_parity::checked(y, g) by {
        lemma_checked_alike(x, y, g);
    }
    assert forall|g: GroupView|
        #![trigger kafka_parity::partition_of(p, x, g)]
        #![trigger kafka_parity::partition_of(q, y, g)]
        kafka_parity::partition_of(p, x, g) == kafka_parity::partition_of(q, y, g) by {
        lemma_partition_alike(a, b, x, y, g);
    }
    lemma_served_alike(p, q);
    lemma_converged_alike(
        kafka_parity::served_catalogues(p),
        kafka_parity::served_catalogues(q),
    );
    match (r, s) {
        (Err(v), Err(w)) => {
            if exists|g: GroupView| #[trigger]
                kafka_parity::checked(x, g) && !kafka_parity::sound(
                    kafka_parity::partition_of(p, x, g),
                ) {
                let g = choose|g: GroupView| #[trigger]
                    kafka_parity::checked(x, g) && !kafka_parity::sound(
                        kafka_parity::partition_of(p, x, g),
                    ) && kafka_parity::unsound(kafka_parity::partition_of(p, x, g), g, v@, now)
                        && forall|k: GroupView| #[trigger]
                        kafka_parity::checked(x, k) && model::group_before(k, g)
                            ==> kafka_parity::sound(kafka_parity::partition_of(p, x, k));
                let h = choose|h: GroupView| #[trigger]
                    kafka_parity::checked(y, h) && !kafka_parity::sound(
                        kafka_parity::partition_of(q, y, h),
                    ) && kafka_parity::unsound(kafka_parity::partition_of(q, y, h), h, w@, now)
                        && forall|k: GroupView| #[trigger]
                        kafka_parity::checked(y, k) && model::group_before(k, h)
                            ==> kafka_parity::sound(kafka_parity::partition_of(q, y, k));
                model::law_group_order(g, h, g);
                assert(kafka_parity::checked(x, h) == kafka_parity::checked(y, h));
                assert(kafka_parity::checked(x, g) == kafka_parity::checked(y, g));
                assert(g == h);
                kafka_parity::law_partition_checks_are_decided(
                    kafka_parity::partition_of(p, x, g),
                    g,
                    v@,
                    w@,
                    now,
                );
            } else {
                lemma_divergence_alike(
                    kafka_parity::served_catalogues(p),
                    kafka_parity::served_catalogues(q),
                    v@,
                    w@,
                    now,
                );
            }
        },
        _ => {},
    }
}

/// Whether two sets of checkers know the same.
pub open spec fn checkers_alike(c: Checkers, d: Checkers) -> bool {
    &&& c.raft_safety.leaders_seen() == d.raft_safety.leaders_seen()
    &&& c.raft_safety.commits_seen() == d.raft_safety.commits_seen()
    &&& c.liveness.windows@ == d.liveness.windows@
    &&& c.liveness.allowance == d.liveness.allowance
}

proof fn lemma_noted_alike(
    before: WindowMap,
    x: WindowMap,
    y: WindowMap,
    m: FaultNote,
    n: FaultNote,
)
    requires
        course::notes_alike(m, n),
        drive::windows_noted(before, x, m),
        drive::windows_noted(before, y, n),
    ensures
        x == y,
{
    if !(m is Calm) {
        assert forall|g: GroupView| #[trigger] x.contains_key(g) == y.contains_key(g) by {}
        assert forall|g: GroupView| #[trigger] x.contains_key(g) implies x[g] == y[g] by {
            assert(y.contains_key(g));
        }
        assert(x =~= y);
    }
}

proof fn lemma_commits_kept_alike(
    commits: CommitMap,
    p: Seq<SimNode>,
    q: Seq<SimNode>,
    m: FaultNote,
    n: FaultNote,
    deleted: Seq<Seq<char>>,
    partitions: u32,
)
    requires
        alike::nodes_alike(p, q),
        course::notes_alike(m, n),
    ensures
        drive::commits_kept(commits, p, m, deleted, partitions) == drive::commits_kept(
            commits,
            q,
            n,
            deleted,
            partitions,
        ),
{
    assert forall|name: Seq<char>| #[trigger]
        drive::crashed_by(p, m, name) == drive::crashed_by(q, n, name) by {
        match (m, n) {
            (FaultNote::Crash { nodes: x }, FaultNote::Crash { nodes: y }) => {
                alike::lemma_named_at_alike(p, q, x@, name);
            },
            _ => {},
        }
    }
    assert(drive::commits_kept(commits, p, m, deleted, partitions) =~= drive::commits_kept(
        commits,
        q,
        n,
        deleted,
        partitions,
    ));
}

/// The checks of an event come to the same in alike runs, and leave the same known.
pub proof fn law_checks_are_reproducible<M>(
    a: SimRuntime<M>,
    b: SimRuntime<M>,
    a1: SimRuntime<M>,
    b1: SimRuntime<M>,
    c: Checkers,
    d: Checkers,
    c1: Checkers,
    d1: Checkers,
    m: FaultNote,
    n: FaultNote,
    r: Result<(), Violation>,
    s: Result<(), Violation>,
)
    requires
        a1.wf(),
        b1.wf(),
        alike::runs_alike(a, b),
        alike::runs_alike(a1, b1),
        checkers_alike(c, d),
        course::notes_alike(m, n),
        a.checked_after(a1, c, c1, m, r),
        b.checked_after(b1, d, d1, n, s),
        c1.liveness.allowance == c.liveness.allowance,
        d1.liveness.allowance == d.liveness.allowance,
    ensures
        checker::results_alike(r, s),
        r is Ok ==> checkers_alike(c1, d1),
{
    let deleted = output::texts(a.deleted_topics@);
    let partitions = a.cluster.topology.partitions;
    let now = a.scheduler.time();
    let before = c.liveness.windows@;
    let leaders = drive::leaders_kept(c.raft_safety.leaders_seen(), deleted, partitions);
    let seen = c.raft_safety.commits_seen();
    let p = a.cluster.nodes@;
    let q = b.cluster.nodes@;
    lemma_commits_kept_alike(seen, p, q, m, n, deleted, partitions);
    let commits = drive::commits_kept(seen, p, m, deleted, partitions);
    let x = choose|x: WindowMap| #[trigger]
        drive::windows_noted(before, x, m) && drive::checked_to(
            a1.cluster,
            now,
            a.scheduler.fired(),
            leaders,
            commits,
            x,
            c1,
            r,
        );
    let y = choose|y: WindowMap| #[trigger]
        drive::windows_noted(before, y, n) && drive::checked_to(
            b1.cluster,
            now,
            b.scheduler.fired(),
            leaders,
            commits,
            y,
            d1,
            s,
        );
    lemma_noted_alike(before, x, y, m, n);
    lemma_checked_to_alike(
        a1.cluster,
        b1.cluster,
        now,
        a.scheduler.fired(),
        leaders,
        commits,
        x,
        c1,
        d1,
        r,
        s,
    );
}

proof fn lemma_checked_to_alike<M>(
    a: SimulatedCluster<M>,
    b: SimulatedCluster<M>,
    now: VirtualInstant,
    fired: u64,
    leaders: LeaderMap,
    commits: CommitMap,
    windows: WindowMap,
    c: Checkers,
    d: Checkers,
    r: Result<(), Violation>,
    s: Result<(), Violation>,
)
    requires
        a.wf(),
        b.wf(),
        alike::clusters_alike(a, b),
        drive::checked_to(a, now, fired, leaders, commits, windows, c, r),
        drive::checked_to(b, now, fired, leaders, commits, windows, d, s),
    ensures
        checker::results_alike(r, s),
        r is Ok ==> {
            &&& c.raft_safety.leaders_seen() == d.raft_safety.leaders_seen()
            &&& c.raft_safety.commits_seen() == d.raft_safety.commits_seen()
            &&& c.liveness.windows@ == d.liveness.windows@
        },
{
    let p = raft_safety::nodes_seen(a.nodes@, false);
    let q = raft_safety::nodes_seen(b.nodes@, false);
    lemma_seen_alike(a, b, false);
    lemma_seen_alike(a, b, true);
    let x = choose|x: Result<(), Violation>| #[trigger]
        raft_safety::observed_to(leaders, commits, p, c.raft_safety, x, now) && match x {
            Err(v) => r == Err::<(), Violation>(v) && c.liveness.windows@ == windows,
            Ok(ok) => {
                &&& liveness::looked_at(windows, c.liveness.windows@, a, now)
                &&& if fired % CHECK_LOGS_INTERVAL == 0 {
                    raft_safety::logs_verdict(raft_safety::nodes_seen(a.nodes@, true), r, now)
                } else {
                    r is Ok
                }
            },
        };
    let y = choose|y: Result<(), Violation>| #[trigger]
        raft_safety::observed_to(leaders, commits, q, d.raft_safety, y, now) && match y {
            Err(v) => s == Err::<(), Violation>(v) && d.liveness.windows@ == windows,
            Ok(ok) => {
                &&& liveness::looked_at(windows, d.liveness.windows@, b, now)
                &&& if fired % CHECK_LOGS_INTERVAL == 0 {
                    raft_safety::logs_verdict(raft_safety::nodes_seen(b.nodes@, true), s, now)
                } else {
                    s is Ok
                }
            },
        };
    raft_safety::law_observation_is_decided(
        leaders,
        commits,
        p,
        c.raft_safety,
        d.raft_safety,
        x,
        y,
        now,
    );
    if x is Ok {
        lemma_looked_alike(a, b, windows, c.liveness.windows@, d.liveness.windows@, now);
        if fired % CHECK_LOGS_INTERVAL == 0 {
            raft_safety::law_log_checks_are_decided(
                raft_safety::nodes_seen(a.nodes@, true),
                r,
                s,
                now,
            );
        }
    }
}

/// Whether two runs ended alike: both passed, or both failed by the same property at
/// the same instant with the same text, or both were invalid for the same reason.
pub open spec fn outcomes_alike(x: Outcome, y: Outcome) -> bool {
    match (x, y) {
        (Outcome::Passed, Outcome::Passed) => true,
        (
            Outcome::Failed { property: p, at: t, detail: d },
            Outcome::Failed { property: q, at: u, detail: e },
        ) => p == q && t == u && d@ == e@,
        (Outcome::Invalid { detail: d }, Outcome::Invalid { detail: e }) => d@ == e@,
        _ => false,
    }
}

/// The outcome that a check's result makes, once all later checks find nothing.
spec fn outcome_of(r: Result<(), Violation>) -> Outcome {
    match r {
        Ok(ok) => Outcome::Passed,
        Err(v) => drive::failed(v),
    }
}

proof fn lemma_concluded_alike<M>(
    a: SimulatedCluster<M>,
    b: SimulatedCluster<M>,
    x: Seq<RecordedOp>,
    y: Seq<RecordedOp>,
    windows: WindowMap,
    allowance: VirtualDuration,
    now: VirtualInstant,
    o: Outcome,
    u: Outcome,
)
    requires
        a.wf(),
        b.wf(),
        alike::clusters_alike(a, b),
        ops_alike(x, y),
        drive::concluded(a, x, windows, allowance, now, o),
        drive::concluded(b, y, windows, allowance, now, u),
    ensures
        outcomes_alike(o, u),
{
    let p = raft_safety::nodes_seen(a.nodes@, true);
    let q = raft_safety::nodes_seen(b.nodes@, true);
    lemma_seen_alike(a, b, true);
    let (l1, k1, v1) = lemma_conclusion(a, x, windows, allowance, now, o);
    let (l2, k2, v2) = lemma_conclusion(b, y, windows, allowance, now, u);
    raft_safety::law_log_checks_are_decided(p, l1, l2, now);
    if l1 is Ok {
        lemma_parity_alike(a, b, x, y, k1, k2, now);
        if k1 is Ok {
            liveness::law_liveness_verdict_is_decided(windows, allowance, v1, v2, now);
        }
    }
}

/// The three checks that make an outcome, each looked at where those before it found
/// nothing.
proof fn lemma_conclusion<M>(
    c: SimulatedCluster<M>,
    ops: Seq<RecordedOp>,
    windows: WindowMap,
    allowance: VirtualDuration,
    now: VirtualInstant,
    o: Outcome,
) -> (r: (Result<(), Violation>, Result<(), Violation>, Result<(), Violation>))
    requires
        drive::concluded(c, ops, windows, allowance, now, o),
    ensures
        raft_safety::logs_verdict(raft_safety::nodes_seen(c.nodes@, true), r.0, now),
        r.0 is Err ==> o == outcome_of(r.0),
        r.0 is Ok ==> kafka_parity::parity_verdict(c.nodes@, ops, r.1, now),
        r.0 is Ok && r.1 is Err ==> o == outcome_of(r.1),
        r.0 is Ok && r.1 is Ok ==> liveness::liveness_verdict(windows, allowance, r.2, now) && o
            == outcome_of(r.2),
{
    let obs = raft_safety::nodes_seen(c.nodes@, true);
    let logs = choose|logs: Result<(), Violation>| #[trigger]
        raft_safety::logs_verdict(obs, logs, now) && match logs {
            Err(v) => o == drive::failed(v),
            Ok(ok) => exists|parity: Result<(), Violation>| #[trigger]
                kafka_parity::parity_verdict(c.nodes@, ops, parity, now) && match parity {
                    Err(v) => o == drive::failed(v),
                    Ok(ok) => exists|live: Result<(), Violation>| #[trigger]
                        liveness::liveness_verdict(windows, allowance, live, now) && match live {
                            Err(v) => o == drive::failed(v),
                            Ok(ok) => o == Outcome::Passed,
                        },
                },
        };
    if logs is Ok {
        let parity = choose|parity: Result<(), Violation>| #[trigger]
            kafka_parity::parity_verdict(c.nodes@, ops, parity, now) && match parity {
                Err(v) => o == drive::failed(v),
                Ok(ok) => exists|live: Result<(), Violation>| #[trigger]
                    liveness::liveness_verdict(windows, allowance, live, now) && match live {
                        Err(v) => o == drive::failed(v),
                        Ok(ok) => o == Outcome::Passed,
                    },
            };
        if parity is Ok {
            let live = choose|live: Result<(), Violation>| #[trigger]
                liveness::liveness_verdict(windows, allowance, live, now) && match live {
                    Err(v) => o == drive::failed(v),
                    Ok(ok) => o == Outcome::Passed,
                };
            (logs, parity, live)
        } else {
            (logs, parity, parity)
        }
    } else {
        (logs, logs, logs)
    }
}

/// Alike runs end alike, with the same history.
pub proof fn law_conclusions_are_reproducible<M>(
    a: SimRuntime<M>,
    b: SimRuntime<M>,
    a1: SimRuntime<M>,
    b1: SimRuntime<M>,
    c: Checkers,
    d: Checkers,
    o: Outcome,
    u: Outcome,
)
    requires
        a.wf(),
        b.wf(),
        alike::runs_alike(a, b),
        checkers_alike(c, d),
        a.ended_to(a1, c, o),
        b.ended_to(b1, d, u),
    ensures
        outcomes_alike(o, u),
        history::op_views(a1.history.ops@) == history::op_views(b1.history.ops@),
{
    let now = a.scheduler.time();
    let s = runtime::all_abandoned(a.pending@, now);
    let t = runtime::all_abandoned(b.pending@, now);
    assert forall|i: int| 0 <= i < s.len() implies s[i] == t[i] by {
        assert(alike::pending_alike(a.pending@[i], b.pending@[i]));
    }
    assert(s =~= t);
    lemma_concluded_alike(
        a.cluster,
        b.cluster,
        a1.history.ops@,
        b1.history.ops@,
        c.liveness.windows@,
        c.liveness.allowance,
        now,
        o,
        u,
    );
}

/// `watch` are the checkers of a course that has found nothing: they look at each
/// event as it is done with.
pub open spec fn watched<M: Clone>(
    runs: Seq<SimRuntime<M>>,
    moves: Seq<Move<M>>,
    watch: Seq<Checkers>,
) -> bool {
    &&& watch.len() == runs.len()
    &&& forall|i: int|
        0 <= i < moves.len() ==> match #[trigger] moves[i] {
            Move::Check { note, at } => {
                &&& runs[i].checked_after(
                    runs[i + 1],
                    watch[i],
                    watch[i + 1],
                    note,
                    Ok::<(), Violation>(()),
                )
                &&& watch[i + 1].liveness.allowance == watch[i].liveness.allowance
            },
            _ => watch[i + 1] == watch[i],
        }
}

proof fn lemma_watches_stay_alike<M: Clone>(
    p: Seq<SimRuntime<M>>,
    q: Seq<SimRuntime<M>>,
    x: Seq<Move<M>>,
    y: Seq<Move<M>>,
    c: Seq<Checkers>,
    d: Seq<Checkers>,
    n: nat,
)
    requires
        reproduce::clones_are_equal::<M>(),
        course::is_course(p, x),
        course::is_course(q, y),
        x.len() == y.len(),
        forall|i: int| 0 <= i < x.len() ==> course::moves_alike(#[trigger] x[i], y[i]),
        alike::runs_alike(p[0], q[0]),
        watched(p, x, c),
        watched(q, y, d),
        checkers_alike(c[0], d[0]),
        n <= x.len(),
    ensures
        checkers_alike(c[n as int], d[n as int]),
    decreases n,
{
    if n > 0 {
        let i = n - 1;
        lemma_watches_stay_alike(p, q, x, y, c, d, i as nat);
        course::law_courses_stay_alike(p, q, x, y, i as nat);
        course::law_courses_stay_alike(p, q, x, y, n);
        assert(course::moves_alike(x[i], y[i]));
        match (x[i], y[i]) {
            (Move::Check { note: k, .. }, Move::Check { note: l, .. }) => {
                let ok = Ok::<(), Violation>(());
                law_checks_are_reproducible(
                    p[i],
                    q[i],
                    p[i + 1],
                    q[i + 1],
                    c[i],
                    d[i],
                    c[i + 1],
                    d[i + 1],
                    k,
                    l,
                    ok,
                    ok,
                );
            },
            _ => {},
        }
    }
}

/// The outcome of a run is a function of its configuration and of what its replicas
/// answer: two runs of one configuration in which the replicas answer alike are judged
/// alike at every check, and end alike with the same history.
pub proof fn law_outcomes_are_reproducible<M: Clone>(
    config: RunConfig,
    limits: ConsumeLimits,
    max_events: Option<u64>,
    a: (SimRuntime<M>, SimRuntime<M>, SimRuntime<M>),
    b: (SimRuntime<M>, SimRuntime<M>, SimRuntime<M>),
    p: Seq<SimRuntime<M>>,
    q: Seq<SimRuntime<M>>,
    x: Seq<Move<M>>,
    y: Seq<Move<M>>,
    c: Seq<Checkers>,
    d: Seq<Checkers>,
)
    requires
        reproduce::clones_are_equal::<M>(),
        course::is_course(p, x),
        course::is_course(q, y),
        drive::prepared(config, limits, max_events, a.0, a.1, a.2, p[0]),
        drive::prepared(config, limits, max_events, b.0, b.1, b.2, q[0]),
        x.len() == y.len(),
        forall|i: int| 0 <= i < x.len() ==> course::moves_alike(#[trigger] x[i], y[i]),
        watched(p, x, c),
        watched(q, y, d),
        c[0].is_new(),
        d[0].is_new(),
    ensures
        forall|a1: SimRuntime<M>, b1: SimRuntime<M>, o: Outcome, u: Outcome|
            #![trigger p.last().ended_to(a1, c.last(), o), q.last().ended_to(b1, d.last(), u)]
            p.last().ended_to(a1, c.last(), o) && q.last().ended_to(b1, d.last(), u)
                ==> outcomes_alike(o, u) && history::op_views(a1.history.ops@)
                == history::op_views(b1.history.ops@),
        forall|
            a1: SimRuntime<M>,
            b1: SimRuntime<M>,
            c1: Checkers,
            d1: Checkers,
            m: FaultNote,
            n: FaultNote,
            r: Result<(), Violation>,
            s: Result<(), Violation>,
            at: Seq<VirtualInstant>,
        |
            #![trigger p.last().checked_after(a1, c.last(), c1, m, r), q.last().checked_after(b1, d.last(), d1, n, s), p.last().upkept_at(a1, m, at)]
            {
                &&& a1.wf()
                &&& b1.wf()
                &&& p.last().upkept_at(a1, m, at)
                &&& q.last().upkept_at(b1, n, at)
                &&& p.last().checked_after(a1, c.last(), c1, m, r)
                &&& q.last().checked_after(b1, d.last(), d1, n, s)
                &&& c1.liveness.allowance == c.last().liveness.allowance
                &&& d1.liveness.allowance == d.last().liveness.allowance
                &&& course::notes_alike(m, n)
            } ==> checker::results_alike(r, s),
{
    let n = x.len();
    course::law_preparation_is_reproducible(
        config,
        limits,
        max_events,
        (a.0, a.1, a.2, p[0]),
        (b.0, b.1, b.2, q[0]),
    );
    course::law_courses_stay_alike(p, q, x, y, n);
    lemma_watches_stay_alike(p, q, x, y, c, d, n);
    assert(p.last() == p[n as int] && q.last() == q[n as int]);
    assert(c.last() == c[n as int] && d.last() == d[n as int]);
    assert forall|a1: SimRuntime<M>, b1: SimRuntime<M>, o: Outcome, u: Outcome|
        #![trigger p.last().ended_to(a1, c.last(), o), q.last().ended_to(b1, d.last(), u)]
        p.last().ended_to(a1, c.last(), o) && q.last().ended_to(
            b1,
            d.last(),
            u,
        ) implies outcomes_alike(o, u) && history::op_views(a1.history.ops@) == history::op_views(
        b1.history.ops@,
    ) by {
        law_conclusions_are_reproducible(p.last(), q.last(), a1, b1, c.last(), d.last(), o, u);
    }
    assert forall|
        a1: SimRuntime<M>,
        b1: SimRuntime<M>,
        c1: Checkers,
        d1: Checkers,
        m: FaultNote,
        k: FaultNote,
        r: Result<(), Violation>,
        s: Result<(), Violation>,
        at: Seq<VirtualInstant>,
    |
        #![trigger p.last().checked_after(a1, c.last(), c1, m, r), q.last().checked_after(b1, d.last(), d1, k, s), p.last().upkept_at(a1, m, at)]
        {
            &&& a1.wf()
            &&& b1.wf()
            &&& p.last().upkept_at(a1, m, at)
            &&& q.last().upkept_at(b1, k, at)
            &&& p.last().checked_after(a1, c.last(), c1, m, r)
            &&& q.last().checked_after(b1, d.last(), d1, k, s)
            &&& c1.liveness.allowance == c.last().liveness.allowance
            &&& d1.liveness.allowance == d.last().liveness.allowance
            &&& course::notes_alike(m, k)
        } implies checker::results_alike(r, s) by {
        course::law_moves_keep_runs_alike(
            p.last(),
            q.last(),
            a1,
            b1,
            Move::Check { note: m, at },
            Move::Check { note: k, at },
        );
        law_checks_are_reproducible(
            p.last(),
            q.last(),
            a1,
            b1,
            c.last(),
            d.last(),
            c1,
            d1,
            m,
            k,
            r,
            s,
        );
    }
}

} // verus!
