//! What keeps alike runs alike: scheduling and firing events, handling them, finishing
//! a replica's step, and arming first election timers.

use crate::alike;
use crate::checker::kafka_parity;
use crate::client::{self, LeaderResolution};
use crate::clock::{ArmedTimer, TimerView};
use crate::cluster::{self, ReplicaState, SimNode, SimulatedCluster};
use crate::dispatch::{self, Proposal};
use crate::history::{OpArgsView, RecordedOpView};
use crate::model::{self, GroupKey, GroupView, RaftNodeId, TimerKind};
use crate::network::{Cut, Envelope, PartitionDirection, SimNetwork, SimTransport};
use crate::rng::SplitMix64;
use crate::runtime::{self, Action, Item, SimRuntime};
use crate::scenario::ScenarioParameters;
use crate::scheduler::{Event, Fault, HealId, Scheduler, VirtualInstant};
use crate::timeline::{self, Replica};
use crate::topology::Topology;
use crate::workload::ClientOperationView;
use vstd::prelude::*;

verus! {

/// Scheduling alike events on alike schedulers leaves them alike.
pub proof fn law_scheduling_keeps_queues_alike<M>(
    a: Scheduler<M>,
    b: Scheduler<M>,
    a1: Scheduler<M>,
    b1: Scheduler<M>,
    at: VirtualInstant,
    e: Event<M>,
    f: Event<M>,
)
    requires
        alike::queues_alike(a, b),
        a1.wf(),
        b1.wf(),
        a.scheduled_to(a1, at, e),
        b.scheduled_to(b1, at, f),
        alike::events_alike(e, f),
    ensures
        alike::queues_alike(a1, b1),
{
    let x = a.entry(at, e);
    let y = b.entry(at, f);
    let j = choose|k: int|
        0 <= k <= a.pending().len() && #[trigger] a.pending().insert(k, x) == a1.pending();
    let k = choose|k: int|
        0 <= k <= b.pending().len() && #[trigger] b.pending().insert(k, y) == b1.pending();
    let p = a1.pending();
    let q = b1.pending();
    assert(x.at == y.at && x.tie_break == y.tie_break);
    if j < k {
        assert(p[j] == x);
        assert(p[j + 1] == a.pending()[j]);
        assert(p[j].before(p[j + 1]));
        assert(q[k] == y);
        assert(q[j] == b.pending()[j]);
        assert(q[j].before(q[k]));
        assert(a.pending()[j].at == b.pending()[j].at);
    } else if k < j {
        assert(q[k] == y);
        assert(q[k + 1] == b.pending()[k]);
        assert(q[k].before(q[k + 1]));
        assert(p[j] == x);
        assert(p[k] == a.pending()[k]);
        assert(p[k].before(p[j]));
        assert(a.pending()[k].at == b.pending()[k].at);
    }
    assert(j == k);
    assert forall|i: int| 0 <= i < p.len() implies {
        &&& (#[trigger] p[i]).at == (#[trigger] q[i]).at
        &&& p[i].tie_break == q[i].tie_break
        &&& alike::events_alike(p[i].event, q[i].event)
    } by {
        if i < j {
            assert(p[i] == a.pending()[i] && q[i] == b.pending()[i]);
        } else if i > j {
            assert(p[i] == a.pending()[i - 1] && q[i] == b.pending()[i - 1]);
        }
    }
}

/// Firing the next event of alike schedulers fires alike events, and leaves the
/// schedulers alike.
pub proof fn law_firing_keeps_queues_alike<M>(
    a: Scheduler<M>,
    b: Scheduler<M>,
    a1: Scheduler<M>,
    b1: Scheduler<M>,
)
    requires
        alike::queues_alike(a, b),
        a.ending() is None,
        a.fired_to(a1),
        b.fired_to(b1),
    ensures
        b.ending() is None,
        alike::events_alike(a.pending()[0].event, b.pending()[0].event),
        alike::queues_alike(a1, b1),
{
    assert(a.pending()[0].at == b.pending()[0].at);
    let p = a1.pending();
    let q = b1.pending();
    assert forall|i: int| 0 <= i < p.len() implies {
        &&& (#[trigger] p[i]).at == (#[trigger] q[i]).at
        &&& p[i].tie_break == q[i].tie_break
        &&& alike::events_alike(p[i].event, q[i].event)
    } by {
        assert(p[i] == a.pending()[i + 1] && q[i] == b.pending()[i + 1]);
    }
}

proof fn lemma_chains_alike<M>(
    c: Seq<Scheduler<M>>,
    d: Seq<Scheduler<M>>,
    items: Seq<Item<M>>,
    others: Seq<Item<M>>,
    n: nat,
)
    requires
        runtime::chained(c, items),
        runtime::chained(d, others),
        alike::items_alike(items, others),
        alike::queues_alike(c[0], d[0]),
        n <= items.len(),
    ensures
        alike::queues_alike(c[n as int], d[n as int]),
    decreases n,
{
    if n > 0 {
        let i = n - 1;
        lemma_chains_alike(c, d, items, others, i as nat);
        assert(c[i].scheduled_to(c[i + 1], items[i].0, items[i].1));
        assert(d[i].scheduled_to(d[i + 1], others[i].0, others[i].1));
        assert(c[i + 1].wf() && d[i + 1].wf());
        law_scheduling_keeps_queues_alike(
            c[i],
            d[i],
            c[i + 1],
            d[i + 1],
            items[i].0,
            items[i].1,
            others[i].1,
        );
    }
}

/// Scheduling alike timelines on alike schedulers leaves them alike.
pub proof fn law_timelines_keep_queues_alike<M>(
    a: Scheduler<M>,
    b: Scheduler<M>,
    a1: Scheduler<M>,
    b1: Scheduler<M>,
    items: Seq<Item<M>>,
    others: Seq<Item<M>>,
)
    requires
        alike::queues_alike(a, b),
        alike::items_alike(items, others),
        runtime::all_scheduled(a, a1, items),
        runtime::all_scheduled(b, b1, others),
    ensures
        alike::queues_alike(a1, b1),
{
    let c = choose|c: Seq<Scheduler<M>>| #[trigger]
        runtime::chained(c, items) && c[0] == a && c.last() == a1;
    let d = choose|d: Seq<Scheduler<M>>| #[trigger]
        runtime::chained(d, others) && d[0] == b && d.last() == b1;
    lemma_chains_alike(c, d, items, others, items.len());
}

/// The fault plan of a run is settled by its parameters and its fault stream.
pub proof fn law_fault_plan_is_settled<M>(
    items: Seq<Item<M>>,
    others: Seq<Item<M>>,
    s: Topology,
    t: Topology,
    params: ScenarioParameters,
    faults: SplitMix64,
)
    requires
        model::node_names(s.nodes@) == model::node_names(t.nodes@),
        s.replication == t.replication,
        s.nodes@.len() <= u64::MAX,
        timeline::is_fault_plan(items, s, params, faults),
        timeline::is_fault_plan(others, t, params, faults),
    ensures
        alike::items_alike(items, others),
{
    let m = s.nodes@;
    let n = t.nodes@;
    assert(m.len() == model::node_names(m).len());
    assert(n.len() == model::node_names(n).len());
    if timeline::can_lose_a_node(s) {
        let c = timeline::crash_count(params);
        if timeline::cut_count(params) > 0 {
            let later = timeline::after_crash_draw(params, faults, m.len());
            let v = later.below(m.len() as u64) as int;
            assert(items.skip(c)[0] == items[c] && items.skip(c)[1] == items[c + 1]);
            assert(others.skip(c)[0] == others[c] && others.skip(c)[1] == others[c + 1]);
            assert forall|i: int| 0 <= i < m.len() implies (#[trigger] m[i])@ == n[i]@ by {
                assert(model::node_names(m)[i] == model::node_names(n)[i]);
            }
            assert(model::node_names(seq![m[v]]) =~= model::node_names(seq![n[v]]));
            assert(model::node_names(m.remove(v)) =~= model::node_names(n.remove(v)));
        }
    }
}

/// Making alike replicas ready leaves alike runs alike.
proof fn lemma_readied_alike<M>(
    a: SimRuntime<M>,
    b: SimRuntime<M>,
    a1: SimRuntime<M>,
    b1: SimRuntime<M>,
    i: int,
    g: GroupKey,
    h: GroupKey,
)
    requires
        alike::runs_alike(a, b),
        g@ == h@,
        0 <= i < a.cluster.nodes@.len(),
        a.readied_to(a1, i, g),
        b.readied_to(b1, i, h),
    ensures
        alike::runs_alike(a1, b1),
{
    assert(alike::node_alike(a.cluster.nodes@[i], b.cluster.nodes@[i]));
    let x = a1.cluster.clock;
    let y = b1.cluster.clock;
    assert forall|id: TimerView| #[trigger] x.generation(id) == y.generation(id) by {
        assert(a.cluster.clock.generation(id) == b.cluster.clock.generation(id));
    }
    assert(alike::clocks_alike(x, y));
    assert(alike::networks_alike(a1.cluster.network, b1.cluster.network));
}

/// Recording one operation more leaves alike runs alike.
proof fn lemma_recorded_alike<M>(
    a: SimRuntime<M>,
    b: SimRuntime<M>,
    a1: SimRuntime<M>,
    b1: SimRuntime<M>,
    op: RecordedOpView,
)
    requires
        alike::runs_alike(a, b),
        a.recorded_to(a1, op),
        b.recorded_to(b1, op),
    ensures
        alike::runs_alike(a1, b1),
{
    runtime::lemma_gained_views(a.history, a1.history, op);
    runtime::lemma_gained_views(b.history, b1.history, op);
}

/// Issuing one proposal on alike runs asks for the same action, and leaves them alike.
proof fn lemma_proposes_alike<M>(
    a: SimRuntime<M>,
    b: SimRuntime<M>,
    a1: SimRuntime<M>,
    b1: SimRuntime<M>,
    x: Action<M>,
    y: Action<M>,
    p: Proposal,
)
    requires
        a.cluster.wf(),
        b.cluster.wf(),
        alike::runs_alike(a, b),
        a.proposes(a1, x, p),
        b.proposes(b1, y, p),
    ensures
        alike::runs_alike(a1, b1),
        alike::actions_alike(x, y),
{
    alike::lemma_resolution_alike(a.cluster, b.cluster, p.group);
    match client::resolution(a.cluster, p.group) {
        LeaderResolution::Leader(i) => {
            alike::lemma_live_alike(a.cluster, b.cluster, i as int, p.group);
            match (x, y) {
                (
                    Action::Propose { index, group: g, payload, op },
                    Action::Propose { index: j, group: h, payload: q, op: other },
                ) => {
                    lemma_readied_alike(a, b, a1, b1, i as int, g, h);
                },
                _ => {},
            }
        },
        found => {
            lemma_recorded_alike(
                a,
                b,
                a1,
                b1,
                dispatch::refusal(p.args, found, a.scheduler.time()),
            );
        },
    }
}

/// Alike replicas answer a consume alike.
proof fn lemma_consumption_alike(
    s: ReplicaState,
    t: ReplicaState,
    group: GroupView,
    start_offset: u64,
    max_records: u32,
    now: VirtualInstant,
)
    requires
        alike::states_alike(s, t),
    ensures
        dispatch::consumption(s, group, start_offset, max_records, now) == dispatch::consumption(
            t,
            group,
            start_offset,
            max_records,
            now,
        ),
{
    let m = kafka_parity::committed_views(s.records@);
    let n = kafka_parity::committed_views(t.records@);
    assert(m.len() == s.records@.len() && n.len() == t.records@.len());
    let start = client::clamped_start(s, start_offset);
    let p = client::consumed(s, start, max_records);
    let q = client::consumed(t, start, max_records);
    assert(p.len() == q.len());
    assert forall|i: int| 0 <= i < p.len() implies p[i] == q[i] by {
        assert(m[start + i] == n[start + i]);
    }
    assert(p =~= q);
}

proof fn lemma_create_alike(
    a: Topology,
    b: Topology,
    name: Seq<char>,
    partition_count: u32,
    replication_factor: usize,
)
    requires
        a.wf(),
        b.wf(),
        a.nodes@.len() == b.nodes@.len(),
        a.replication == b.replication,
        a.partitions == b.partitions,
    ensures
        dispatch::create_proposal(a, name, partition_count, replication_factor)
            == dispatch::create_proposal(b, name, partition_count, replication_factor),
{
    let count = if partition_count < a.partitions {
        partition_count
    } else {
        a.partitions
    };
    let s = Seq::new(count as nat, |p: int| client::new_partition(a, p));
    let t = Seq::new(count as nat, |p: int| client::new_partition(b, p));
    assert forall|p: int| 0 <= p < s.len() implies s[p] == t[p] by {
        alike::lemma_replica_set_alike(a, b, p);
    }
    assert(s =~= t);
}

/// Issuing one client operation on alike runs asks for the same action, and leaves
/// them alike.
proof fn lemma_issues_alike<M>(
    a: SimRuntime<M>,
    b: SimRuntime<M>,
    a1: SimRuntime<M>,
    b1: SimRuntime<M>,
    x: Action<M>,
    y: Action<M>,
    op: ClientOperationView,
)
    requires
        a.cluster.wf(),
        b.cluster.wf(),
        alike::runs_alike(a, b),
        a.issues(a1, x, op),
        b.issues(b1, y, op),
    ensures
        alike::runs_alike(a1, b1),
        alike::actions_alike(x, y),
{
    let s = a.cluster.topology;
    match op {
        ClientOperationView::CreateTopic { name, partition_count, replication_factor } => {
            lemma_create_alike(
                s,
                b.cluster.topology,
                name,
                partition_count,
                replication_factor,
            );
            let p = dispatch::create_proposal(s, name, partition_count, replication_factor);
            lemma_proposes_alike(a, b, a1, b1, x, y, p);
        },
        ClientOperationView::DeleteTopic { name } => {
            lemma_proposes_alike(a, b, a1, b1, x, y, dispatch::delete_proposal(name));
        },
        ClientOperationView::Produce { topic, partition, key, value } => {
            let p = dispatch::produce_proposal(topic, partition, key, value);
            lemma_proposes_alike(a, b, a1, b1, x, y, p);
        },
        ClientOperationView::Consume { topic, partition, start_offset, max_records } => {
            let g = (topic, partition);
            let now = a.scheduler.time();
            alike::lemma_resolution_alike(a.cluster, b.cluster, g);
            match client::resolution(a.cluster, g) {
                LeaderResolution::Leader(i) => {
                    client::law_resolved_leader_leads(a.cluster, g);
                    alike::lemma_live_alike(a.cluster, b.cluster, i as int, g);
                    let m = a.cluster.nodes@[i as int].replica(g)->0;
                    let n = b.cluster.nodes@[i as int].replica(g)->0;
                    lemma_consumption_alike(m, n, g, start_offset, max_records, now);
                    lemma_recorded_alike(
                        a,
                        b,
                        a1,
                        b1,
                        dispatch::consumption(m, g, start_offset, max_records, now),
                    );
                },
                found => {
                    let args = OpArgsView::Consume {
                        topic,
                        partition,
                        start_offset,
                        max_records,
                    };
                    lemma_recorded_alike(a, b, a1, b1, dispatch::refusal(args, found, now));
                },
            }
        },
    }
}

/// Crashing the same nodes leaves alike clusters alike.
proof fn lemma_downed_alike<M>(
    a: SimulatedCluster<M>,
    b: SimulatedCluster<M>,
    a1: SimulatedCluster<M>,
    b1: SimulatedCluster<M>,
    indices: Seq<usize>,
)
    requires
        a1.wf(),
        b1.wf(),
        alike::clusters_alike(a, b),
        a.downed_to(a1, indices),
        b.downed_to(b1, indices),
    ensures
        alike::clusters_alike(a1, b1),
{
    let p = a1.nodes@;
    let q = b1.nodes@;
    assert forall|i: int| 0 <= i < p.len() implies alike::node_alike(#[trigger] p[i], q[i]) by {
        assert(alike::node_alike(a.nodes@[i], b.nodes@[i]));
        assert(p[i].wf(a1.topology) && q[i].wf(b1.topology));
        assert(p[i].raft_id == q[i].raft_id);
        assert forall|g: GroupView| #[trigger]
            alike::replicas_alike(p[i].replica(g), q[i].replica(g)) by {
            assert(alike::replicas_alike(a.nodes@[i].replica(g), b.nodes@[i].replica(g)));
        }
    }
    assert forall|name: Seq<char>| #[trigger]
        a.downs(indices, name) == b.downs(indices, name) by {
        if a.downs(indices, name) {
            let i = choose|i: int|
                0 <= i < a.nodes@.len() && (#[trigger] a.nodes@[i]).running && cluster::indexed(
                    indices,
                    i,
                ) && a.nodes@[i].id@ == name;
            assert(b.nodes@[i].running && b.nodes@[i].id@ == name);
        }
        if b.downs(indices, name) {
            let i = choose|i: int|
                0 <= i < b.nodes@.len() && (#[trigger] b.nodes@[i]).running && cluster::indexed(
                    indices,
                    i,
                ) && b.nodes@[i].id@ == name;
            assert(a.nodes@[i].running && a.nodes@[i].id@ == name);
        }
    }
    assert forall|name: Seq<char>| #[trigger]
        a1.network.crashed@.contains_key(name) == b1.network.crashed@.contains_key(name) by {
        assert(a.downs(indices, name) == b.downs(indices, name));
    }
    assert(a1.network.crashed@ =~= b1.network.crashed@);
}

/// Changing the cuts alike leaves alike runs alike.
proof fn lemma_recut_alike<M>(
    a: SimRuntime<M>,
    b: SimRuntime<M>,
    a1: SimRuntime<M>,
    b1: SimRuntime<M>,
    m: Map<HealId, Cut>,
    n: Map<HealId, Cut>,
)
    requires
        alike::runs_alike(a, b),
        alike::cuts_alike(m, n),
        a.recut_to(a1, m),
        b.recut_to(b1, n),
    ensures
        alike::runs_alike(a1, b1),
{
}

/// Applying one fault to alike runs asks for the same action, and leaves them alike.
proof fn lemma_faulted_alike<M>(
    a: SimRuntime<M>,
    b: SimRuntime<M>,
    a1: SimRuntime<M>,
    b1: SimRuntime<M>,
    x: Action<M>,
    y: Action<M>,
    f: Fault,
    g: Fault,
)
    requires
        a1.cluster.wf(),
        b1.cluster.wf(),
        alike::runs_alike(a, b),
        alike::faults_alike(f, g),
        a.faulted_to(a1, x, f),
        b.faulted_to(b1, y, g),
    ensures
        alike::runs_alike(a1, b1),
        alike::actions_alike(x, y),
{
    match (f, g) {
        (Fault::Crash { nodes: m }, Fault::Crash { nodes: n }) => {
            lemma_downed_alike(a.cluster, b.cluster, a1.cluster, b1.cluster, m@);
        },
        (
            Fault::Partition { id, side_a: p, side_b: q },
            Fault::Partition { id: j, side_a: r, side_b: s },
        ) => {
            let direction = PartitionDirection::Symmetric;
            let c = Cut::Partition { side_a: p, side_b: q, direction };
            let d = Cut::Partition { side_a: r, side_b: s, direction };
            let m = a.cluster.network.cuts@.insert(id, c);
            let n = b.cluster.network.cuts@.insert(id, d);
            assert forall|k: HealId, from: Seq<char>, to: Seq<char>|
                m.contains_key(k) implies #[trigger] m[k].stops(from, to) == n[k].stops(
                from,
                to,
            ) by {
                if k == id {
                    alike::lemma_members_alike(p@, r@, from);
                    alike::lemma_members_alike(p@, r@, to);
                    alike::lemma_members_alike(q@, s@, from);
                    alike::lemma_members_alike(q@, s@, to);
                } else {
                    assert(a.cluster.network.cuts@[k].stops(from, to)
                        == b.cluster.network.cuts@[k].stops(from, to));
                }
            }
            assert(m.dom() =~= n.dom());
            lemma_recut_alike(a, b, a1, b1, m, n);
        },
        _ => {},
    }
}

/// What an event does is settled by the run and the event: alike events on alike runs
/// ask for the same action, and leave the runs alike.
pub proof fn law_dispatch_keeps_runs_alike<M>(
    a: SimRuntime<M>,
    b: SimRuntime<M>,
    a1: SimRuntime<M>,
    b1: SimRuntime<M>,
    x: Action<M>,
    y: Action<M>,
    e: Event<M>,
    f: Event<M>,
)
    requires
        a.cluster.wf(),
        b.cluster.wf(),
        a1.cluster.wf(),
        b1.cluster.wf(),
        alike::runs_alike(a, b),
        alike::events_alike(e, f),
        a.dispatched_to(a1, x, e),
        b.dispatched_to(b1, y, f),
    ensures
        alike::runs_alike(a1, b1),
        alike::actions_alike(x, y),
{
    match (e, f) {
        (
            Event::TimerFire { node: m, group: g, kind, generation },
            Event::TimerFire { node: n, group: h, kind: k, generation: j },
        ) => {
            lemma_up_named_alike(a, b, m@);
            match a.up_named(m@) {
                Some(i) => {
                    let id = ((m@, g@), kind);
                    assert(a.cluster.clock.generation(id) == b.cluster.clock.generation(id));
                    if a.cluster.clock.generation(id) == generation {
                        alike::lemma_live_alike(a.cluster, b.cluster, i, g@);
                        lemma_readied_alike(a, b, a1, b1, i, g, h);
                    }
                },
                None => {},
            }
        },
        (Event::MessageDeliver(d), Event::MessageDeliver(c)) => {
            lemma_up_named_alike(a, b, d.to@);
            match a.up_named(d.to@) {
                Some(i) => {
                    alike::lemma_live_alike(a.cluster, b.cluster, i, d.group@);
                    lemma_readied_alike(a, b, a1, b1, i, d.group, c.group);
                },
                None => {},
            }
        },
        (Event::ClientOp(p), Event::ClientOp(q)) => {
            assert(a.workload.ops@.len() == a.workload.views().len());
            assert(b.workload.ops@.len() == b.workload.views().len());
            if p.seq < a.workload.ops@.len() {
                let op = a.workload.ops@[p.seq as int]@;
                assert(a.workload.views()[p.seq as int] == b.workload.views()[p.seq as int]);
                lemma_issues_alike(a, b, a1, b1, x, y, op);
            }
        },
        (Event::FaultApply(p), Event::FaultApply(q)) => {
            lemma_faulted_alike(a, b, a1, b1, x, y, p, q);
        },
        (Event::FaultHeal(i), Event::FaultHeal(j)) => {
            let m = a.cluster.network.cuts@;
            let n = b.cluster.network.cuts@;
            assert forall|k: HealId, from: Seq<char>, to: Seq<char>|
                m.remove(i).contains_key(k) implies #[trigger] m.remove(i)[k].stops(from, to)
                == n.remove(i)[k].stops(from, to) by {
                assert(m[k].stops(from, to) == n[k].stops(from, to));
            }
            assert(m.remove(i).dom() =~= n.remove(i).dom());
            lemma_recut_alike(a, b, a1, b1, m.remove(i), n.remove(i));
        },
        _ => {},
    }
}

proof fn lemma_up_named_alike<M>(a: SimRuntime<M>, b: SimRuntime<M>, name: Seq<char>)
    requires
        a.cluster.wf(),
        b.cluster.wf(),
        alike::runs_alike(a, b),
    ensures
        a.up_named(name) == b.up_named(name),
        a.up_named(name) matches Some(i) ==> 0 <= i < a.cluster.nodes@.len(),
{
    alike::lemma_named_alike(a.cluster.topology, b.cluster.topology, name);
    if model::names(a.cluster.topology.nodes@, name) {
        let i = a.cluster.topology.index_named(name);
        assert(alike::node_alike(a.cluster.nodes@[i], b.cluster.nodes@[i]));
    }
}

/// Whether cloning a message makes an equal message.
pub open spec fn clones_are_equal<M: Clone>() -> bool {
    forall|m: M, n: M| #[trigger] cloned(m, n) ==> m == n
}

/// Sending one message through alike sending ends leaves alike networks alike.
proof fn lemma_sending_keeps_networks_alike<M: Clone>(
    a: SimNetwork<M>,
    b: SimNetwork<M>,
    a1: SimNetwork<M>,
    b1: SimNetwork<M>,
    t: SimTransport,
    u: SimTransport,
    to: RaftNodeId,
    msg: M,
)
    requires
        clones_are_equal::<M>(),
        alike::networks_alike(a, b),
        alike::transports_alike(t, u),
        runtime::sent_one(a, a1, t, to, msg),
        runtime::sent_one(b, b1, u, to, msg),
    ensures
        alike::networks_alike(a1, b1),
{
    assert(t.peers@.dom().contains(to) == u.peers@.dom().contains(to));
    if t.peers@.contains_key(to) {
        let e = t.addressed(to, msg);
        let f = u.addressed(to, msg);
        alike::lemma_stopped_alike(a, b, e.from@, e.to@);
        let n = a.pending@.len() as int;
        let p = a1.pending@;
        let q = b1.pending@;
        assert forall|i: int| 0 <= i < p.len() implies (#[trigger] p[i]).0 == q[i].0
            && alike::envelopes_alike(p[i].1, q[i].1) by {
            if i < n {
                assert(p[i] == a.pending@[i]) by {
                    if a.fate(e.from@, e.to@).0 is Twice {
                        assert(p.take(n)[i] == p[i]);
                    }
                }
                assert(q[i] == b.pending@[i]) by {
                    if b.fate(f.from@, f.to@).0 is Twice {
                        assert(q.take(n)[i] == q[i]);
                    }
                }
            }
        }
        assert(alike::deliveries_alike(p, q));
    }
}

proof fn lemma_send_chains_alike<M: Clone>(
    c: Seq<SimNetwork<M>>,
    d: Seq<SimNetwork<M>>,
    t: SimTransport,
    u: SimTransport,
    sends: Seq<(RaftNodeId, M)>,
    n: nat,
)
    requires
        clones_are_equal::<M>(),
        alike::transports_alike(t, u),
        runtime::sends_chained(c, t, sends),
        runtime::sends_chained(d, u, sends),
        alike::networks_alike(c[0], d[0]),
        n <= sends.len(),
    ensures
        alike::networks_alike(c[n as int], d[n as int]),
    decreases n,
{
    if n > 0 {
        let i = n - 1;
        lemma_send_chains_alike(c, d, t, u, sends, i as nat);
        assert(runtime::sent_one(c[i], c[i + 1], t, sends[i].0, sends[i].1));
        assert(runtime::sent_one(d[i], d[i + 1], u, sends[i].0, sends[i].1));
        lemma_sending_keeps_networks_alike(
            c[i],
            d[i],
            c[i + 1],
            d[i + 1],
            t,
            u,
            sends[i].0,
            sends[i].1,
        );
    }
}

/// Sending the same messages through alike sending ends leaves alike networks alike.
proof fn lemma_sends_alike<M: Clone>(
    a: SimNetwork<M>,
    b: SimNetwork<M>,
    a1: SimNetwork<M>,
    b1: SimNetwork<M>,
    t: Option<SimTransport>,
    u: Option<SimTransport>,
    sends: Seq<(RaftNodeId, M)>,
)
    requires
        clones_are_equal::<M>(),
        alike::networks_alike(a, b),
        alike::senders_alike(t, u),
        runtime::sent_from(a, a1, t, sends),
        runtime::sent_from(b, b1, u, sends),
    ensures
        alike::networks_alike(a1, b1),
{
    match (t, u) {
        (Some(x), Some(y)) => {
            let c = choose|c: Seq<SimNetwork<M>>| #[trigger]
                runtime::sends_chained(c, x, sends) && c[0] == a && c.last() == a1;
            let d = choose|d: Seq<SimNetwork<M>>| #[trigger]
                runtime::sends_chained(d, y, sends) && d[0] == b && d.last() == b1;
            lemma_send_chains_alike(c, d, x, y, sends, sends.len());
        },
        _ => {},
    }
}

/// Alike timers make alike timelines.
proof fn lemma_timer_items_alike<M>(s: Seq<ArmedTimer>, t: Seq<ArmedTimer>)
    requires
        alike::timers_alike(s, t),
    ensures
        alike::items_alike(runtime::timer_items::<M>(s), runtime::timer_items::<M>(t)),
{
    let x = runtime::timer_items::<M>(s);
    let y = runtime::timer_items::<M>(t);
    assert forall|i: int| 0 <= i < x.len() implies (#[trigger] x[i]).0 == (#[trigger] y[i]).0
        && alike::events_alike(x[i].1, y[i].1) by {
        assert(s[i].at == t[i].at && s[i].id() == t[i].id());
    }
}

/// Alike deliveries make alike timelines.
proof fn lemma_delivery_items_alike<M>(
    s: Seq<(VirtualInstant, Envelope<M>)>,
    t: Seq<(VirtualInstant, Envelope<M>)>,
)
    requires
        alike::deliveries_alike(s, t),
    ensures
        alike::items_alike(runtime::delivery_items(s), runtime::delivery_items(t)),
{
    let x = runtime::delivery_items(s);
    let y = runtime::delivery_items(t);
    assert forall|i: int| 0 <= i < x.len() implies (#[trigger] x[i]).0 == (#[trigger] y[i]).0
        && alike::events_alike(x[i].1, y[i].1) by {
        assert(s[i].0 == t[i].0 && alike::envelopes_alike(s[i].1, t[i].1));
    }
}

/// What follows from a replica's step is settled by the run and the messages sent:
/// finishing alike runs with the same messages, whose clones are equal, leaves them
/// alike.
pub proof fn law_output_keeps_runs_alike<M: Clone>(
    a: SimRuntime<M>,
    b: SimRuntime<M>,
    a1: SimRuntime<M>,
    b1: SimRuntime<M>,
    index: int,
    group: GroupView,
    sends: Seq<(RaftNodeId, M)>,
)
    requires
        clones_are_equal::<M>(),
        a.wf(),
        b.wf(),
        alike::runs_alike(a, b),
        a.finished_to(a1, index, group, sends),
        b.finished_to(b1, index, group, sends),
    ensures
        alike::runs_alike(a1, b1),
{
    let t = a.cluster.sender(index, group);
    let u = b.cluster.sender(index, group);
    let (m, s) = choose|m: SimNetwork<M>, s: Scheduler<M>| #[trigger]
        a.output_done(a1, m, s) && runtime::sent_from(a.cluster.network, m, t, sends);
    let (n, r) = choose|n: SimNetwork<M>, r: Scheduler<M>| #[trigger]
        b.output_done(b1, n, r) && runtime::sent_from(b.cluster.network, n, u, sends);
    alike::lemma_senders_alike(a.cluster, b.cluster, index, group);
    lemma_sends_alike(a.cluster.network, b.cluster.network, m, n, t, u, sends);
    alike::lemma_pendings_settle_alike(
        a.cluster.nodes@,
        b.cluster.nodes@,
        a.pending@,
        b.pending@,
        a.scheduler.time(),
    );
    let x = a.cluster.clock.pending@;
    let y = b.cluster.clock.pending@;
    lemma_timer_items_alike::<M>(x, y);
    law_timelines_keep_queues_alike(
        a.scheduler,
        b.scheduler,
        s,
        r,
        runtime::timer_items::<M>(x),
        runtime::timer_items::<M>(y),
    );
    lemma_delivery_items_alike(m.pending@, n.pending@);
    law_timelines_keep_queues_alike(
        s,
        r,
        a1.scheduler,
        b1.scheduler,
        runtime::delivery_items(m.pending@),
        runtime::delivery_items(n.pending@),
    );
    let c = a1.cluster.clock;
    let d = b1.cluster.clock;
    assert forall|id: TimerView| #[trigger] c.generation(id) == d.generation(id) by {
        assert(a.cluster.clock.generation(id) == b.cluster.clock.generation(id));
    }
    assert(alike::clocks_alike(c, d));
    assert(alike::networks_alike(a1.cluster.network, b1.cluster.network));
}

/// The order of arming has no ties and no circles.
proof fn lemma_seeds_before(a: Replica, b: Replica)
    ensures
        timeline::seeds_before(a, b) ==> !timeline::seeds_before(b, a),
        timeline::seeds_before(a, b) ==> a.0 != b.0 || a.1@ != b.1@,
{
    model::law_group_order(a.1@, b.1@, a.1@);
    model::law_group_order(b.1@, a.1@, b.1@);
}

/// Which replicas are armed, and in what order, is settled by the nodes and the
/// markers.
pub proof fn law_seeding_is_reproducible(
    list: Seq<Replica>,
    other: Seq<Replica>,
    nodes: Seq<SimNode>,
    seeded: Map<(Seq<char>, GroupView), ()>,
    k: int,
)
    requires
        timeline::is_seeding(list, nodes, seeded),
        timeline::is_seeding(other, nodes, seeded),
        0 <= k < list.len(),
    ensures
        k < other.len(),
        list[k].0 == other[k].0,
        list[k].1@ == other[k].1@,
    decreases k,
{
    let x = list[k];
    assert forall|j: int| 0 <= j < k implies j < other.len() && (#[trigger] list[j]).0
        == other[j].0 && list[j].1@ == other[j].1@ by {
        law_seeding_is_reproducible(list, other, nodes, seeded, j);
    }
    assert(timeline::seeds(list, x.0 as int, x.1@));
    assert(timeline::seeds(other, x.0 as int, x.1@));
    let m = choose|m: int|
        0 <= m < other.len() && (#[trigger] other[m]).0 == x.0 && other[m].1@ == x.1@;
    if m < k {
        assert(timeline::seeds_before(list[m], list[k]));
        lemma_seeds_before(list[m], list[k]);
        assert(list[m].0 == other[m].0 && list[m].1@ == other[m].1@);
    }
    if m > k {
        let y = other[k];
        assert(timeline::seeds_before(other[k], other[m]));
        assert(timeline::seeds_before(y, x));
        lemma_seeds_before(y, x);
        assert(timeline::seeds(other, y.0 as int, y.1@));
        assert(timeline::seeds(list, y.0 as int, y.1@));
        let p = choose|p: int|
            0 <= p < list.len() && (#[trigger] list[p]).0 == y.0 && list[p].1@ == y.1@;
        if p < k {
            assert(list[p].0 == other[p].0 && list[p].1@ == other[p].1@);
            assert(timeline::seeds_before(other[p], other[k]));
            lemma_seeds_before(other[p], other[k]);
        } else if p > k {
            assert(timeline::seeds_before(list[k], list[p]));
            assert(timeline::seeds_before(x, y));
        }
    }
}

/// Alike nodes are hosts alike, so the same replicas are to be armed.
proof fn lemma_unmarked_alike(
    p: Seq<SimNode>,
    q: Seq<SimNode>,
    seeded: Map<(Seq<char>, GroupView), ()>,
    i: int,
    g: GroupView,
)
    requires
        alike::nodes_alike(p, q),
    ensures
        timeline::unmarked(p, seeded, i, g) == timeline::unmarked(q, seeded, i, g),
{
    if 0 <= i < p.len() {
        assert(alike::node_alike(p[i], q[i]));
        assert(alike::replicas_alike(p[i].replica(g), q[i].replica(g)));
    }
}

proof fn lemma_pruned_alike(
    p: Seq<SimNode>,
    q: Seq<SimNode>,
    seeded: Map<(Seq<char>, GroupView), ()>,
)
    requires
        alike::nodes_alike(p, q),
    ensures
        timeline::pruned(p, seeded) == timeline::pruned(q, seeded),
{
    assert forall|k: (Seq<char>, GroupView)| #[trigger]
        timeline::unhosted(p, k) == timeline::unhosted(q, k) by {
        if timeline::unhosted(p, k) {
            let i = choose|i: int|
                0 <= i < p.len() && (#[trigger] p[i]).running && p[i].id@ == k.0 && !p[i].hosts(
                    k.1,
                );
            assert(alike::replicas_alike(p[i].replica(k.1), q[i].replica(k.1)));
            assert(q[i].running && q[i].id@ == k.0 && !q[i].hosts(k.1));
        }
        if timeline::unhosted(q, k) {
            let i = choose|i: int|
                0 <= i < q.len() && (#[trigger] q[i]).running && q[i].id@ == k.0 && !q[i].hosts(
                    k.1,
                );
            assert(alike::replicas_alike(p[i].replica(k.1), q[i].replica(k.1)));
            assert(p[i].running && p[i].id@ == k.0 && !p[i].hosts(k.1));
        }
    }
    assert(timeline::pruned(p, seeded) =~= timeline::pruned(q, seeded));
}

/// Lists of replicas are alike if they hold the same replicas in the same order.
spec fn lists_alike(list: Seq<Replica>, other: Seq<Replica>) -> bool {
    &&& list.len() == other.len()
    &&& forall|k: int|
        #![trigger list[k]]
        #![trigger other[k]]
        0 <= k < list.len() ==> list[k].0 == other[k].0 && list[k].1@ == other[k].1@
}

proof fn lemma_seedings_alike(
    list: Seq<Replica>,
    other: Seq<Replica>,
    p: Seq<SimNode>,
    q: Seq<SimNode>,
    seeded: Map<(Seq<char>, GroupView), ()>,
)
    requires
        alike::nodes_alike(p, q),
        timeline::is_seeding(list, p, seeded),
        timeline::is_seeding(other, q, seeded),
    ensures
        lists_alike(list, other),
        forall|k: int| 0 <= k < list.len() ==> (#[trigger] list[k]).0 < p.len(),
{
    assert forall|i: int, g: GroupView| #[trigger]
        timeline::seeds(other, i, g) == timeline::unmarked(p, seeded, i, g) by {
        lemma_unmarked_alike(p, q, seeded, i, g);
    }
    assert(timeline::is_seeding(other, p, seeded));
    assert forall|k: int| 0 <= k < list.len() implies k < other.len() && (
    #[trigger] list[k]).0 == other[k].0 && list[k].1@ == other[k].1@ by {
        law_seeding_is_reproducible(list, other, p, seeded, k);
    }
    assert forall|k: int| 0 <= k < other.len() implies k < list.len() && (
    #[trigger] other[k]).0 == list[k].0 by {
        law_seeding_is_reproducible(other, list, p, seeded, k);
    }
    if list.len() < other.len() {
        let k = list.len() as int;
        assert(other[k].0 == list[k].0);
    }
    if list.len() > other.len() {
        let k = other.len() as int;
        assert(list[k].0 == other[k].0);
    }
    assert forall|k: int| 0 <= k < list.len() implies (#[trigger] list[k]).0 < p.len() by {
        assert(timeline::seeds(list, list[k].0 as int, list[k].1@));
    }
}

proof fn lemma_marks_alike(
    list: Seq<Replica>,
    other: Seq<Replica>,
    p: Seq<SimNode>,
    q: Seq<SimNode>,
    key: (Seq<char>, GroupView),
)
    requires
        alike::nodes_alike(p, q),
        lists_alike(list, other),
        forall|k: int| 0 <= k < list.len() ==> (#[trigger] list[k]).0 < p.len(),
    ensures
        timeline::marks(list, p, key) == timeline::marks(other, q, key),
{
    if timeline::marks(list, p, key) {
        let k = choose|k: int|
            0 <= k < list.len() && timeline::marker(p, #[trigger] list[k]) == key;
        assert(alike::node_alike(p[list[k].0 as int], q[list[k].0 as int]));
        assert(timeline::marker(q, other[k]) == key);
    }
    if timeline::marks(other, q, key) {
        let k = choose|k: int|
            0 <= k < other.len() && timeline::marker(q, #[trigger] other[k]) == key;
        assert(list[k].0 == other[k].0);
        assert(alike::node_alike(p[list[k].0 as int], q[list[k].0 as int]));
        assert(timeline::marker(p, list[k]) == key);
    }
}

/// Arming the first election timers of alike runs to fire at the same instants arms the
/// same replicas in the same order, and leaves the runs alike.
pub proof fn law_seeding_keeps_runs_alike<M>(
    a: SimRuntime<M>,
    b: SimRuntime<M>,
    a1: SimRuntime<M>,
    b1: SimRuntime<M>,
    list: Seq<Replica>,
    other: Seq<Replica>,
    at: Seq<VirtualInstant>,
)
    requires
        alike::runs_alike(a, b),
        a.seeded_at(a1, list, at),
        b.seeded_at(b1, other, at),
    ensures
        alike::runs_alike(a1, b1),
{
    let p = a.cluster.nodes@;
    let q = b.cluster.nodes@;
    lemma_pruned_alike(p, q, a.seeded@);
    lemma_seedings_alike(list, other, p, q, timeline::pruned(p, a.seeded@));
    assert forall|key: (Seq<char>, GroupView)| #[trigger]
        a1.seeded@.contains_key(key) == b1.seeded@.contains_key(key) by {
        lemma_marks_alike(list, other, p, q, key);
    }
    assert(a1.seeded@ =~= b1.seeded@);
    if list.len() > 0 {
        let c = a.cluster.clock;
        let d = b.cluster.clock;
        let s = c.pending@ + timeline::seed_timers(c, p, list, at);
        let t = d.pending@ + timeline::seed_timers(d, q, other, at);
        assert forall|i: int| 0 <= i < s.len() implies (#[trigger] s[i]).at == t[i].at
            && s[i].id() == t[i].id() && s[i].generation == t[i].generation by {
            let n = c.pending@.len() as int;
            if i < n {
                assert(s[i] == c.pending@[i] && t[i] == d.pending@[i]);
            } else {
                let k = i - n;
                assert(list[k].0 == other[k].0 && list[k].1@ == other[k].1@);
                assert(s[i] == timeline::seed_timer(c, p, list, at, k));
                assert(t[i] == timeline::seed_timer(d, q, other, at, k));
                assert(alike::node_alike(p[list[k].0 as int], q[list[k].0 as int]));
                let id = ((p[list[k].0 as int].id@, list[k].1@), TimerKind::Election);
                assert(c.generation(id) == d.generation(id));
            }
        }
        assert(alike::timers_alike(s, t));
        lemma_timer_items_alike::<M>(s, t);
        law_timelines_keep_queues_alike(
            a.scheduler,
            b.scheduler,
            a1.scheduler,
            b1.scheduler,
            runtime::timer_items::<M>(s),
            runtime::timer_items::<M>(t),
        );
        let x = a1.cluster.clock;
        let y = b1.cluster.clock;
        assert forall|id: TimerView| #[trigger] x.generation(id) == y.generation(id) by {
            let (key, kind) = id;
            lemma_marks_alike(list, other, p, q, key);
            assert(x.generation((key, kind)) == y.generation((key, kind))) by {
                assert(c.generation((key, kind)) == d.generation((key, kind)));
            }
        }
        assert(alike::clocks_alike(x, y));
    }
}

/// On clocks that run true, the first election timers of alike runs fire at the same
/// instants, and arming them leaves the runs alike.
pub proof fn law_true_seeding_keeps_runs_alike<M>(
    a: SimRuntime<M>,
    b: SimRuntime<M>,
    a1: SimRuntime<M>,
    b1: SimRuntime<M>,
    list: Seq<Replica>,
    other: Seq<Replica>,
)
    requires
        alike::runs_alike(a, b),
        a.seeded_to(a1, list),
        b.seeded_to(b1, other),
    ensures
        alike::runs_alike(a1, b1),
{
    let p = a.cluster.nodes@;
    let q = b.cluster.nodes@;
    let now = a.scheduler.time();
    lemma_pruned_alike(p, q, a.seeded@);
    lemma_seedings_alike(list, other, p, q, timeline::pruned(p, a.seeded@));
    let at = timeline::true_instants(a.cluster.clock, now, list.len());
    assert(at =~= timeline::true_instants(b.cluster.clock, b.scheduler.time(), other.len()));
    law_seeding_keeps_runs_alike(a, b, a1, b1, list, other, at);
}

} // verus!
