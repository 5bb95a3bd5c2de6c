//! When two runs are the same, name by name and byte by byte, and that what is read of
//! them is then the same as well.

use crate::checker::{kafka_parity, raft_safety};
use crate::client::{self, Pending};
use crate::clock::{ArmedTimer, SimClock, TimerView};
use crate::cluster::{self, ClusterMetadata, ReplicaState, SimNode, SimulatedCluster};
use crate::history;
use crate::model::{self, GroupKey, GroupView, NodeId, RaftNodeId};
use crate::network::{Cut, Envelope, SimNetwork, SimTransport};
use crate::output;
use crate::runtime::{self, Action, Item, SimRuntime};
use crate::scheduler::{Event, Fault, HealId, Scheduler, VirtualInstant};
use crate::timeline;
use crate::topology::{self, Topology};
use vstd::prelude::*;

verus! {

/// Whether two replicas are observed to be the same.
pub open spec fn states_alike(a: ReplicaState, b: ReplicaState) -> bool {
    &&& a.role == b.role
    &&& a.term == b.term
    &&& a.leader_id == b.leader_id
    &&& a.commit_index == b.commit_index
    &&& a.last_index == b.last_index
    &&& raft_safety::entry_views(a.log@) == raft_safety::entry_views(b.log@)
    &&& kafka_parity::committed_views(a.records@) == kafka_parity::committed_views(b.records@)
}

pub open spec fn replicas_alike(a: Option<ReplicaState>, b: Option<ReplicaState>) -> bool {
    match (a, b) {
        (Some(x), Some(y)) => states_alike(x, y),
        (None, None) => true,
        _ => false,
    }
}

/// Whether two catalogues say the same of every topic.
pub open spec fn catalogues_alike(a: ClusterMetadata, b: ClusterMetadata) -> bool {
    forall|t: Seq<char>|
        #![trigger kafka_parity::topic_at(a, t)]
        #![trigger kafka_parity::topic_at(b, t)]
        kafka_parity::topic_at(a, t) == kafka_parity::topic_at(b, t)
}

/// Whether two nodes are in the same state.
pub open spec fn node_alike(a: SimNode, b: SimNode) -> bool {
    &&& a.id@ == b.id@
    &&& a.raft_id == b.raft_id
    &&& a.running == b.running
    &&& forall|g: GroupView|
        #![trigger a.replica(g)]
        #![trigger b.replica(g)]
        replicas_alike(a.replica(g), b.replica(g))
    &&& catalogues_alike(a.served, b.served)
    &&& a.storage@ == b.storage@
}

pub open spec fn nodes_alike(a: Seq<SimNode>, b: Seq<SimNode>) -> bool {
    &&& a.len() == b.len()
    &&& forall|i: int|
        #![trigger a[i]]
        #![trigger b[i]]
        0 <= i < a.len() ==> node_alike(a[i], b[i])
}

pub open spec fn envelopes_alike<M>(a: Envelope<M>, b: Envelope<M>) -> bool {
    &&& a.from@ == b.from@
    &&& a.to@ == b.to@
    &&& a.to_raft == b.to_raft
    &&& a.group@ == b.group@
    &&& a.msg == b.msg
}

pub open spec fn deliveries_alike<M>(
    a: Seq<(VirtualInstant, Envelope<M>)>,
    b: Seq<(VirtualInstant, Envelope<M>)>,
) -> bool {
    &&& a.len() == b.len()
    &&& forall|i: int|
        #![trigger a[i]]
        #![trigger b[i]]
        0 <= i < a.len() ==> a[i].0 == b[i].0 && envelopes_alike(a[i].1, b[i].1)
}

/// Whether the same cuts are in place, by the same names.
pub open spec fn cuts_alike(a: Map<HealId, Cut>, b: Map<HealId, Cut>) -> bool {
    &&& a.dom() == b.dom()
    &&& forall|id: HealId, from: Seq<char>, to: Seq<char>|
        #![trigger a[id].stops(from, to)]
        #![trigger b[id].stops(from, to)]
        a.contains_key(id) ==> a[id].stops(from, to) == b[id].stops(from, to)
}

/// Whether two networks are in the same state.
pub open spec fn networks_alike<M>(a: SimNetwork<M>, b: SimNetwork<M>) -> bool {
    &&& a.now == b.now
    &&& a.config == b.config
    &&& a.rng == b.rng
    &&& deliveries_alike(a.pending@, b.pending@)
    &&& cuts_alike(a.cuts@, b.cuts@)
    &&& a.crashed@ == b.crashed@
    &&& a.dropped_count == b.dropped_count
    &&& a.cut_dropped_count == b.cut_dropped_count
    &&& a.duplicated_count == b.duplicated_count
    &&& a.delivered_count == b.delivered_count
}

pub open spec fn timers_alike(a: Seq<ArmedTimer>, b: Seq<ArmedTimer>) -> bool {
    &&& a.len() == b.len()
    &&& forall|i: int|
        #![trigger a[i]]
        #![trigger b[i]]
        0 <= i < a.len() ==> a[i].at == b[i].at && a[i].id() == b[i].id() && a[i].generation
            == b[i].generation
}

/// Whether two replicas are named the same.
pub open spec fn names_alike(a: Option<(NodeId, GroupKey)>, b: Option<(NodeId, GroupKey)>) -> bool {
    match (a, b) {
        (Some(x), Some(y)) => x.0@ == y.0@ && x.1@ == y.1@,
        (None, None) => true,
        _ => false,
    }
}

/// Whether two clocks are in the same state.
pub open spec fn clocks_alike(a: SimClock, b: SimClock) -> bool {
    &&& a.now == b.now
    &&& names_alike(a.active, b.active)
    &&& a.election == b.election
    &&& forall|id: TimerView|
        #![trigger a.generation(id)]
        #![trigger b.generation(id)]
        a.generation(id) == b.generation(id)
    &&& timers_alike(a.pending@, b.pending@)
}

/// Whether two clusters are in the same state.
pub open spec fn clusters_alike<M>(a: SimulatedCluster<M>, b: SimulatedCluster<M>) -> bool {
    &&& nodes_alike(a.nodes@, b.nodes@)
    &&& a.topology.replication == b.topology.replication
    &&& a.topology.partitions == b.topology.partitions
    &&& networks_alike(a.network, b.network)
    &&& clocks_alike(a.clock, b.clock)
    &&& a.storage_stream == b.storage_stream
    &&& a.faults_stream == b.faults_stream
    &&& a.workload_stream == b.workload_stream
    &&& a.tiebreak_stream == b.tiebreak_stream
}

/// Whether two faults are the same.
pub open spec fn faults_alike(a: Fault, b: Fault) -> bool {
    match (a, b) {
        (Fault::Crash { nodes: m }, Fault::Crash { nodes: n }) => m@ == n@,
        (Fault::Restart { nodes: m }, Fault::Restart { nodes: n }) => m@ == n@,
        (
            Fault::Partition { id: i, side_a: a1, side_b: b1 },
            Fault::Partition { id: j, side_a: a2, side_b: b2 },
        ) => {
            &&& i == j
            &&& model::node_names(a1@) == model::node_names(a2@)
            &&& model::node_names(b1@) == model::node_names(b2@)
        },
        _ => false,
    }
}

/// Whether two events are the same.
pub open spec fn events_alike<M>(a: Event<M>, b: Event<M>) -> bool {
    match (a, b) {
        (
            Event::TimerFire { node: n1, group: g1, kind: k1, generation: x1 },
            Event::TimerFire { node: n2, group: g2, kind: k2, generation: x2 },
        ) => n1@ == n2@ && g1@ == g2@ && k1 == k2 && x1 == x2,
        (Event::MessageDeliver(e), Event::MessageDeliver(f)) => envelopes_alike(e, f),
        (Event::ClientOp(p), Event::ClientOp(q)) => p == q,
        (Event::FaultApply(f), Event::FaultApply(g)) => faults_alike(f, g),
        (Event::FaultHeal(i), Event::FaultHeal(j)) => i == j,
        _ => false,
    }
}

/// Whether two timelines are the same.
pub open spec fn items_alike<M>(a: Seq<Item<M>>, b: Seq<Item<M>>) -> bool {
    &&& a.len() == b.len()
    &&& forall|i: int|
        0 <= i < a.len() ==> (#[trigger] a[i]).0 == (#[trigger] b[i]).0 && events_alike(
            a[i].1,
            b[i].1,
        )
}

/// Whether two schedulers will fire the same events at the same instants in the same
/// order, and order what is scheduled later alike.
pub open spec fn queues_alike<M>(a: Scheduler<M>, b: Scheduler<M>) -> bool {
    &&& a.time() == b.time()
    &&& a.ties() == b.ties()
    &&& a.scheduled_count() == b.scheduled_count()
    &&& a.fired() == b.fired()
    &&& a.limits() == b.limits()
    &&& a.pending().len() == b.pending().len()
    &&& forall|i: int|
        0 <= i < a.pending().len() ==> {
            &&& (#[trigger] a.pending()[i]).at == (#[trigger] b.pending()[i]).at
            &&& a.pending()[i].tie_break == b.pending()[i].tie_break
            &&& events_alike(a.pending()[i].event, b.pending()[i].event)
        }
}

/// Whether two pending operations are the same.
pub open spec fn pending_alike(a: Pending, b: Pending) -> bool {
    &&& a.group@ == b.group@
    &&& a.target == b.target
    &&& a.args@ == b.args@
    &&& a.invoked_at == b.invoked_at
    &&& a.expected@ == b.expected@
    &&& a.kind@ == b.kind@
}

pub open spec fn pendings_alike(a: Seq<Pending>, b: Seq<Pending>) -> bool {
    &&& a.len() == b.len()
    &&& forall|i: int|
        #![trigger a[i]]
        #![trigger b[i]]
        0 <= i < a.len() ==> pending_alike(a[i], b[i])
}

/// Whether two actions are the same.
pub open spec fn actions_alike<M>(a: Action<M>, b: Action<M>) -> bool {
    match (a, b) {
        (Action::Idle, Action::Idle) => true,
        (
            Action::Step { index: i, group: g, input: x },
            Action::Step { index: j, group: h, input: y },
        ) => i == j && g@ == h@ && x == y,
        (
            Action::Propose { index: i, group: g, payload: x, op: p },
            Action::Propose { index: j, group: h, payload: y, op: q },
        ) => i == j && g@ == h@ && x@ == y@ && pending_alike(p, q),
        (Action::Restart { nodes: m }, Action::Restart { nodes: n }) => m@ == n@,
        _ => false,
    }
}

/// Whether two runs are in the same state.
pub open spec fn runs_alike<M>(a: SimRuntime<M>, b: SimRuntime<M>) -> bool {
    &&& clusters_alike(a.cluster, b.cluster)
    &&& queues_alike(a.scheduler, b.scheduler)
    &&& a.workload.views() == b.workload.views()
    &&& history::op_views(a.history.ops@) == history::op_views(b.history.ops@)
    &&& pendings_alike(a.pending@, b.pending@)
    &&& a.seeded@ == b.seeded@
    &&& output::texts(a.deleted_topics@) == output::texts(b.deleted_topics@)
}

/// Lists of the same names name the same nodes.
pub proof fn lemma_members_alike(s: Seq<NodeId>, t: Seq<NodeId>, name: Seq<char>)
    requires
        model::node_names(s) == model::node_names(t),
    ensures
        model::names(s, name) == model::names(t, name),
{
    assert(s.len() == model::node_names(s).len());
    assert(t.len() == model::node_names(t).len());
    if model::names(s, name) {
        let i = choose|i: int| 0 <= i < s.len() && #[trigger] s[i]@ == name;
        assert(model::node_names(s)[i] == model::node_names(t)[i]);
        assert(t[i]@ == name);
    }
    if model::names(t, name) {
        let i = choose|i: int| 0 <= i < t.len() && #[trigger] t[i]@ == name;
        assert(model::node_names(s)[i] == model::node_names(t)[i]);
        assert(s[i]@ == name);
    }
}

/// Topologies of one size name the same nodes at the same places.
pub proof fn lemma_named_alike(a: Topology, b: Topology, name: Seq<char>)
    requires
        a.wf(),
        b.wf(),
        a.nodes@.len() == b.nodes@.len(),
    ensures
        model::names(a.nodes@, name) == model::names(b.nodes@, name),
        model::names(a.nodes@, name) ==> a.index_named(name) == b.index_named(name)
            && 0 <= a.index_named(name) < a.nodes@.len(),
{
    assert forall|i: int| 0 <= i < a.nodes@.len() implies (#[trigger] a.nodes@[i])@
        == b.nodes@[i]@ by {
        assert(b.nodes@[i]@ == topology::node_name(i as nat));
    }
    if model::names(a.nodes@, name) {
        let i = choose|i: int| 0 <= i < a.nodes@.len() && #[trigger] a.nodes@[i]@ == name;
        a.lemma_index(i);
        b.lemma_index(i);
    }
    if model::names(b.nodes@, name) {
        let i = choose|i: int| 0 <= i < b.nodes@.len() && #[trigger] b.nodes@[i]@ == name;
        assert(a.nodes@[i]@ == name);
    }
}

/// Topologies of one shape replicate a partition to the same nodes.
pub proof fn lemma_replica_set_alike(a: Topology, b: Topology, p: int)
    requires
        a.wf(),
        b.wf(),
        a.nodes@.len() == b.nodes@.len(),
        a.replication == b.replication,
        a.partitions == b.partitions,
        0 <= p < a.partitions,
    ensures
        model::node_names(a.replica_sets@[p]@) == model::node_names(b.replica_sets@[p]@),
{
    let s = a.replica_sets@[p]@;
    let t = b.replica_sets@[p]@;
    assert(a.is_set_of(s, p));
    assert(b.is_set_of(t, p));
    assert forall|k: int| 0 <= k < s.len() implies (#[trigger] s[k])@ == t[k]@ by {
        let n = a.nodes@.len() as int;
        let j = (p + k) % n;
        assert(s[k] == a.nodes@[j]);
        assert(t[k] == b.nodes@[j]);
        assert(0 <= (p + k) % n < n) by (nonlinear_arith)
            requires
                n > 0,
        ;
        assert(a.nodes@[j]@ == topology::node_name(j as nat));
        assert(b.nodes@[j]@ == topology::node_name(j as nat));
    }
    assert(model::node_names(s) =~= model::node_names(t));
}

/// Topologies of one shape have the same replica sets.
pub proof fn lemma_sets_alike(a: Topology, b: Topology, g: GroupView)
    requires
        a.wf(),
        b.wf(),
        a.nodes@.len() == b.nodes@.len(),
        a.replication == b.replication,
        a.partitions == b.partitions,
    ensures
        match (a.set_of(g), b.set_of(g)) {
            (Some(s), Some(t)) => model::node_names(s) == model::node_names(t),
            (None, None) => true,
            _ => false,
        },
{
    if g == model::meta_group() {
        assert forall|i: int| 0 <= i < a.nodes@.len() implies (#[trigger] a.nodes@[i])@
            == b.nodes@[i]@ by {
            assert(b.nodes@[i]@ == topology::node_name(i as nat));
        }
        assert(model::node_names(a.nodes@) =~= model::node_names(b.nodes@));
    } else if g.1.0 < a.partitions {
        lemma_replica_set_alike(a, b, g.1.0 as int);
    }
}

/// In alike clusters the same replicas are live, and in the same state.
pub proof fn lemma_live_alike<M>(
    a: SimulatedCluster<M>,
    b: SimulatedCluster<M>,
    i: int,
    g: GroupView,
)
    requires
        clusters_alike(a, b),
    ensures
        a.live(i, g) == b.live(i, g),
        a.live(i, g) ==> states_alike(a.nodes@[i].replica(g)->0, b.nodes@[i].replica(g)->0),
{
    if 0 <= i < a.nodes@.len() {
        assert(node_alike(a.nodes@[i], b.nodes@[i]));
        assert(replicas_alike(a.nodes@[i].replica(g), b.nodes@[i].replica(g)));
    }
}

proof fn lemma_contact_alike<M>(
    a: SimulatedCluster<M>,
    b: SimulatedCluster<M>,
    s: Seq<NodeId>,
    t: Seq<NodeId>,
    g: GroupView,
)
    requires
        a.wf(),
        b.wf(),
        clusters_alike(a, b),
        model::node_names(s) == model::node_names(t),
    ensures
        client::contact(a, s, g) == client::contact(b, t, g),
    decreases s.len(),
{
    assert(s.len() == model::node_names(s).len());
    assert(t.len() == model::node_names(t).len());
    if s.len() > 0 {
        assert(model::node_names(s)[0] == model::node_names(t)[0]);
        lemma_named_alike(a.topology, b.topology, s[0]@);
        lemma_live_alike(a, b, a.topology.index_named(s[0]@), g);
        assert forall|i: int| 0 <= i < s.drop_first().len() implies (
        #[trigger] s.drop_first()[i])@ == t.drop_first()[i]@ by {
            assert(model::node_names(s)[i + 1] == model::node_names(t)[i + 1]);
        }
        assert(model::node_names(s.drop_first()) =~= model::node_names(t.drop_first()));
        lemma_contact_alike(a, b, s.drop_first(), t.drop_first(), g);
    }
}

proof fn lemma_follow_alike<M>(
    a: SimulatedCluster<M>,
    b: SimulatedCluster<M>,
    g: GroupView,
    current: int,
    left: nat,
)
    requires
        clusters_alike(a, b),
    ensures
        client::follow(a, g, current, left) == client::follow(b, g, current, left),
    decreases left,
{
    if left > 0 {
        lemma_live_alike(a, b, current, g);
        if a.live(current, g) {
            match a.nodes@[current].replica(g)->0.leader_id {
                Some(id) => {
                    lemma_live_alike(a, b, id.0 as int, g);
                    lemma_follow_alike(a, b, g, id.0 as int, (left - 1) as nat);
                },
                None => {},
            }
        }
    }
}

/// In alike clusters the same node answers for a group.
pub proof fn lemma_resolution_alike<M>(
    a: SimulatedCluster<M>,
    b: SimulatedCluster<M>,
    g: GroupView,
)
    requires
        a.wf(),
        b.wf(),
        clusters_alike(a, b),
    ensures
        client::resolution(a, g) == client::resolution(b, g),
{
    lemma_sets_alike(a.topology, b.topology, g);
    match (a.topology.set_of(g), b.topology.set_of(g)) {
        (Some(s), Some(t)) => {
            lemma_contact_alike(a, b, s, t, g);
            match client::contact(a, s, g) {
                Some(first) => {
                    lemma_follow_alike(a, b, g, first, 6);
                },
                None => {},
            }
        },
        _ => {},
    }
}

proof fn lemma_first_committed_alike(
    p: Seq<SimNode>,
    q: Seq<SimNode>,
    g: GroupView,
    target: u64,
)
    requires
        nodes_alike(p, q),
    ensures
        replicas_alike(
            client::first_committed(p, g, target),
            client::first_committed(q, g, target),
        ),
    decreases p.len(),
{
    if p.len() > 0 {
        assert(node_alike(p[0], q[0]));
        assert(replicas_alike(p[0].replica(g), q[0].replica(g)));
        let x = p.drop_first();
        let y = q.drop_first();
        assert forall|i: int| 0 <= i < x.len() implies node_alike(#[trigger] x[i], y[i]) by {
            assert(node_alike(p[i + 1], q[i + 1]));
        }
        lemma_first_committed_alike(x, y, g, target);
    }
}

/// What is recorded of alike pending operations on alike nodes is the same.
pub proof fn lemma_settlement_alike(
    p: Seq<SimNode>,
    q: Seq<SimNode>,
    x: Pending,
    y: Pending,
    now: VirtualInstant,
)
    requires
        nodes_alike(p, q),
        pending_alike(x, y),
        x.wf(),
        y.wf(),
    ensures
        client::settlement(p, x, now) == client::settlement(q, y, now),
{
    lemma_first_committed_alike(p, q, x.group@, x.target);
    match (
        client::first_committed(p, x.group@, x.target),
        client::first_committed(q, x.group@, x.target),
    ) {
        (Some(s), Some(t)) => {
            assert(s.log@.len() == raft_safety::entry_views(s.log@).len());
            assert(t.log@.len() == raft_safety::entry_views(t.log@).len());
        },
        _ => {},
    }
}

proof fn lemma_pending_alike_n(
    p: Seq<SimNode>,
    q: Seq<SimNode>,
    x: Seq<Pending>,
    y: Seq<Pending>,
    now: VirtualInstant,
    n: nat,
)
    requires
        nodes_alike(p, q),
        pendings_alike(x, y),
        forall|i: int| 0 <= i < x.len() ==> (#[trigger] x[i]).wf(),
        forall|i: int| 0 <= i < y.len() ==> (#[trigger] y[i]).wf(),
        n <= x.len(),
    ensures
        pendings_alike(
            runtime::still_pending(p, x, now, n),
            runtime::still_pending(q, y, now, n),
        ),
        runtime::settled(p, x, now, n) == runtime::settled(q, y, now, n),
    decreases n,
{
    if n > 0 {
        lemma_pending_alike_n(p, q, x, y, now, (n - 1) as nat);
        assert(pending_alike(x[n - 1], y[n - 1]));
        lemma_settlement_alike(p, q, x[n - 1], y[n - 1], now);
    }
}

/// On alike nodes the same pending operations are answered, and alike.
pub proof fn lemma_pendings_settle_alike(
    p: Seq<SimNode>,
    q: Seq<SimNode>,
    x: Seq<Pending>,
    y: Seq<Pending>,
    now: VirtualInstant,
)
    requires
        nodes_alike(p, q),
        pendings_alike(x, y),
        forall|i: int| 0 <= i < x.len() ==> (#[trigger] x[i]).wf(),
        forall|i: int| 0 <= i < y.len() ==> (#[trigger] y[i]).wf(),
    ensures
        pendings_alike(
            runtime::still_pending(p, x, now, x.len()),
            runtime::still_pending(q, y, now, y.len()),
        ),
        runtime::settled(p, x, now, x.len()) == runtime::settled(q, y, now, y.len()),
{
    lemma_pending_alike_n(p, q, x, y, now, x.len());
}

/// Alike networks stop the same messages.
pub proof fn lemma_stopped_alike<M>(
    a: SimNetwork<M>,
    b: SimNetwork<M>,
    from: Seq<char>,
    to: Seq<char>,
)
    requires
        networks_alike(a, b),
    ensures
        a.stopped(from, to) == b.stopped(from, to),
{
    if exists|id: HealId| #[trigger]
        a.cuts@.contains_key(id) && a.cuts@[id].stops(from, to) {
        let id = choose|id: HealId| #[trigger]
            a.cuts@.contains_key(id) && a.cuts@[id].stops(from, to);
        assert(b.cuts@.contains_key(id) && b.cuts@[id].stops(from, to));
    }
    if exists|id: HealId| #[trigger]
        b.cuts@.contains_key(id) && b.cuts@[id].stops(from, to) {
        let id = choose|id: HealId| #[trigger]
            b.cuts@.contains_key(id) && b.cuts@[id].stops(from, to);
        assert(a.cuts@.contains_key(id) && a.cuts@[id].stops(from, to));
    }
}

/// Whether two sending ends reach the same nodes by the same names.
pub open spec fn senders_alike(a: Option<SimTransport>, b: Option<SimTransport>) -> bool {
    match (a, b) {
        (Some(t), Some(u)) => transports_alike(t, u),
        (None, None) => true,
        _ => false,
    }
}

pub open spec fn transports_alike(a: SimTransport, b: SimTransport) -> bool {
    &&& a.from@ == b.from@
    &&& a.group@ == b.group@
    &&& a.peers@.dom() == b.peers@.dom()
    &&& forall|id: RaftNodeId| #[trigger]
        a.peers@.contains_key(id) ==> a.peers@[id]@ == b.peers@[id]@
}

proof fn lemma_transports_alike(
    x: SimTransport,
    y: SimTransport,
    m: NodeId,
    n: NodeId,
    g: GroupView,
    a: Topology,
    b: Topology,
)
    requires
        a.wf(),
        b.wf(),
        a.nodes@.len() == b.nodes@.len(),
        a.replication == b.replication,
        a.partitions == b.partitions,
        m@ == n@,
        cluster::is_transport(x, m, g, a),
        cluster::is_transport(y, n, g, b),
    ensures
        transports_alike(x, y),
{
    lemma_sets_alike(a, b, g);
    assert forall|i: int| 0 <= i < a.nodes@.len() implies (#[trigger] a.nodes@[i])@
        == b.nodes@[i]@ by {
        assert(b.nodes@[i]@ == topology::node_name(i as nat));
    }
    match (a.set_of(g), b.set_of(g)) {
        (Some(s), Some(t)) => {
            assert forall|name: Seq<char>| #[trigger]
                model::names(s, name) == model::names(t, name) by {
                lemma_members_alike(s, t, name);
            }
            assert(x.peers@.dom() =~= y.peers@.dom());
        },
        _ => {},
    }
}

/// In alike clusters the sending ends are alike.
pub proof fn lemma_senders_alike<M>(
    a: SimulatedCluster<M>,
    b: SimulatedCluster<M>,
    i: int,
    g: GroupView,
)
    requires
        a.wf(),
        b.wf(),
        clusters_alike(a, b),
    ensures
        senders_alike(a.sender(i, g), b.sender(i, g)),
{
    if 0 <= i < a.nodes@.len() {
        let m = a.nodes@[i];
        let n = b.nodes@[i];
        assert(node_alike(m, n));
        assert(m.wf(a.topology) && n.wf(b.topology));
        if g == model::meta_group() {
            lemma_transports_alike(
                a.meta_transports@[i],
                b.meta_transports@[i],
                a.topology.nodes@[i],
                b.topology.nodes@[i],
                g,
                a.topology,
                b.topology,
            );
        } else {
            assert(replicas_alike(m.replica(g), n.replica(g)));
            assert(m.fleet@.dom().contains(g) == m.transports@.dom().contains(g));
            assert(n.fleet@.dom().contains(g) == n.transports@.dom().contains(g));
            if m.transports@.contains_key(g) {
                lemma_transports_alike(
                    m.transports@[g],
                    n.transports@[g],
                    m.id,
                    n.id,
                    g,
                    a.topology,
                    b.topology,
                );
            }
        }
    }
}

/// The same places of alike nodes have the same names.
pub proof fn lemma_named_at_alike(
    p: Seq<SimNode>,
    q: Seq<SimNode>,
    indices: Seq<usize>,
    name: Seq<char>,
)
    requires
        nodes_alike(p, q),
    ensures
        timeline::named_at(p, indices, name) == timeline::named_at(q, indices, name),
{
    if timeline::named_at(p, indices, name) {
        let j = choose|j: int|
            0 <= j < indices.len() && #[trigger] indices[j] < p.len() && p[indices[j] as int].id@
                == name;
        assert(node_alike(p[indices[j] as int], q[indices[j] as int]));
        assert(indices[j] < q.len() && q[indices[j] as int].id@ == name);
    }
    if timeline::named_at(q, indices, name) {
        let j = choose|j: int|
            0 <= j < indices.len() && #[trigger] indices[j] < q.len() && q[indices[j] as int].id@
                == name;
        assert(node_alike(p[indices[j] as int], q[indices[j] as int]));
        assert(indices[j] < p.len() && p[indices[j] as int].id@ == name);
    }
}

} // verus!
