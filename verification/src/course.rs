//! The course of a whole run: one move after the other, each the work of one operation
//! of the library, with what the replicas answered in between. Two courses of one
//! configuration in which the replicas answer alike stay alike to the end.

use crate::alike;
use crate::checker::{kafka_parity, raft_safety};
use crate::client::Pending;
use crate::clock::TimerView;
use crate::cluster::{
    self, NodeUpdate, ReconcilePlan, RecoveredNode, ReplicaState, SimNode, SimulatedCluster,
};
use crate::drive;
use crate::groups;
use crate::history;
use crate::model::{self, GroupView, LogEntry, RaftNodeId, TimerKind};
use crate::output;
use crate::reproduce;
use crate::rng::SeedStreams;
use crate::runtime::{self, Action, FaultNote, Item, SimRuntime};
use crate::scenario::RunConfig;
use crate::scheduler::VirtualInstant;
use crate::timeline::{self, Replica};
use crate::topology;
use crate::workload::ConsumeLimits;
use vstd::prelude::*;

verus! {

/// One move of a run.
pub enum Move<M> {
    /// The next event fired and its handling began, which asked for `action`.
    Fire { action: Action<M> },
    /// The active replica armed a timer to fire at `at`.
    Arm { kind: TimerKind, base_nanos: u64, at: VirtualInstant },
    /// A replica was observed after it stepped.
    Observe { index: int, group: GroupView, state: ReplicaState },
    /// The entries were seen that a step of a replica of `group` committed.
    Commit { group: GroupView, committed: Seq<LogEntry> },
    /// A committed catalogue change was carried out.
    Update { updates: Seq<NodeUpdate> },
    /// The handling of a step was finished.
    Output { index: int, group: GroupView, sends: Seq<(RaftNodeId, M)> },
    /// A proposal is kept until it is committed.
    Keep { op: Pending },
    /// Nodes came back with what they recovered.
    Restart { recovered: Seq<(usize, RecoveredNode)> },
    /// The bookkeeping of an event was done, with first election timers that fire at the
    /// instants given in `at`.
    Check { note: FaultNote, at: Seq<VirtualInstant> },
}

/// `after` is `before` one move later.
pub open spec fn moved<M: Clone>(before: SimRuntime<M>, after: SimRuntime<M>, m: Move<M>) -> bool {
    match m {
        Move::Fire { action } => {
            &&& before.scheduler.ending() is None
            &&& before.turned_to(after, action)
        },
        Move::Arm { kind, base_nanos, at } => {
            &&& before.cluster.clock.can_arm(kind)
            &&& before.cluster.clock.armed_to(after.cluster.clock, kind, base_nanos, at)
            &&& after == (SimRuntime {
                cluster: SimulatedCluster { clock: after.cluster.clock, ..before.cluster },
                ..before
            })
        },
        Move::Observe { index, group, state } => {
            &&& before.only_cluster(after)
            &&& before.cluster.observed_to(after.cluster, index, group, state)
        },
        Move::Commit { group, committed } => before.noted_to(after, group, committed),
        Move::Update { updates } => {
            &&& before.only_cluster(after)
            &&& updates.len() == before.cluster.nodes@.len()
            &&& before.cluster.updated_to(after.cluster, updates)
        },
        Move::Output { index, group, sends } => before.finished_to(after, index, group, sends),
        Move::Keep { op } => {
            &&& after.pending@ == before.pending@.push(op)
            &&& after == (SimRuntime { pending: after.pending, ..before })
        },
        Move::Restart { recovered } => {
            &&& before.only_cluster(after)
            &&& before.cluster.all_restarted(after.cluster, recovered)
        },
        Move::Check { note, at } => before.upkept_at(after, note, at),
    }
}

/// Whether two plans start and stop the same replicas.
pub open spec fn plans_alike(a: ReconcilePlan, b: ReconcilePlan) -> bool {
    forall|g: GroupView|
        #![trigger groups::lists(a.spawn@, g)]
        #![trigger groups::lists(b.spawn@, g)]
        #![trigger groups::lists(a.stop@, g)]
        #![trigger groups::lists(b.stop@, g)]
        groups::lists(a.spawn@, g) == groups::lists(b.spawn@, g) && groups::lists(a.stop@, g)
            == groups::lists(b.stop@, g)
}

pub open spec fn updates_alike(a: Seq<NodeUpdate>, b: Seq<NodeUpdate>) -> bool {
    &&& a.len() == b.len()
    &&& forall|i: int|
        #![trigger a[i]]
        #![trigger b[i]]
        0 <= i < a.len() ==> alike::catalogues_alike(a[i].served, b[i].served) && plans_alike(
            a[i].plan,
            b[i].plan,
        )
}

/// Whether two nodes come back with the same catalogue and the same replicas.
pub open spec fn recoveries_alike(a: RecoveredNode, b: RecoveredNode) -> bool {
    &&& alike::states_alike(a.meta, b.meta)
    &&& alike::catalogues_alike(a.served, b.served)
    &&& forall|g: GroupView|
        #![trigger cluster::recovers(a.replicas@, g)]
        #![trigger cluster::recovers(b.replicas@, g)]
        cluster::recovers(a.replicas@, g) == cluster::recovers(b.replicas@, g)
    &&& forall|i: int, j: int|
        0 <= i < a.replicas@.len() && 0 <= j < b.replicas@.len() && (
        #[trigger] a.replicas@[i]).0@ == (#[trigger] b.replicas@[j]).0@ ==> alike::states_alike(
            a.replicas@[i].1,
            b.replicas@[j].1,
        )
}

pub open spec fn restarts_alike(
    a: Seq<(usize, RecoveredNode)>,
    b: Seq<(usize, RecoveredNode)>,
) -> bool {
    &&& a.len() == b.len()
    &&& forall|k: int|
        #![trigger a[k]]
        #![trigger b[k]]
        0 <= k < a.len() ==> a[k].0 == b[k].0 && recoveries_alike(a[k].1, b[k].1)
}

pub open spec fn notes_alike(a: FaultNote, b: FaultNote) -> bool {
    match (a, b) {
        (FaultNote::Calm, FaultNote::Calm) => true,
        (FaultNote::Crash { nodes: m }, FaultNote::Crash { nodes: n }) => m@ == n@,
        (FaultNote::Restart { nodes: m }, FaultNote::Restart { nodes: n }) => m@ == n@,
        (FaultNote::Struck, FaultNote::Struck) => true,
        (FaultNote::Healed, FaultNote::Healed) => true,
        _ => false,
    }
}

/// Whether two moves are of one sort and bring the same from outside. What an event
/// asks for does not come from outside.
pub open spec fn moves_alike<M>(a: Move<M>, b: Move<M>) -> bool {
    match (a, b) {
        (Move::Fire { action: x }, Move::Fire { action: y }) => true,
        (
            Move::Arm { kind: k1, base_nanos: n1, at: t1 },
            Move::Arm { kind: k2, base_nanos: n2, at: t2 },
        ) => k1 == k2 && n1 == n2 && t1 == t2,
        (
            Move::Observe { index: i, group: g, state: s },
            Move::Observe { index: j, group: h, state: t },
        ) => i == j && g == h && alike::states_alike(s, t),
        (Move::Commit { group: g, committed: c }, Move::Commit { group: h, committed: d }) => g == h
            && raft_safety::entry_views(c) == raft_safety::entry_views(d),
        (Move::Update { updates: u }, Move::Update { updates: v }) => updates_alike(u, v),
        (
            Move::Output { index: i, group: g, sends: s },
            Move::Output { index: j, group: h, sends: t },
        ) => i == j && g == h && s == t,
        (Move::Keep { op: p }, Move::Keep { op: q }) => alike::pending_alike(p, q),
        (Move::Restart { recovered: r }, Move::Restart { recovered: s }) => restarts_alike(r, s),
        (Move::Check { note: m, at: s }, Move::Check { note: n, at: t }) => notes_alike(m, n) && s
            == t,
        _ => false,
    }
}

/// `runs` leads from run to run by the moves, one by one.
pub open spec fn is_course<M: Clone>(runs: Seq<SimRuntime<M>>, moves: Seq<Move<M>>) -> bool {
    &&& runs.len() == moves.len() + 1
    &&& forall|i: int| 0 <= i < runs.len() ==> (#[trigger] runs[i]).wf()
    &&& forall|i: int|
        0 <= i < moves.len() ==> moved(runs[i], runs[i + 1], #[trigger] moves[i])
}

proof fn lemma_fire_alike<M>(
    a: SimRuntime<M>,
    b: SimRuntime<M>,
    a1: SimRuntime<M>,
    b1: SimRuntime<M>,
    x: Action<M>,
    y: Action<M>,
)
    requires
        a.wf(),
        b.wf(),
        a1.wf(),
        b1.wf(),
        alike::runs_alike(a, b),
        a.scheduler.ending() is None,
        a.turned_to(a1, x),
        b.turned_to(b1, y),
    ensures
        alike::runs_alike(a1, b1),
        alike::actions_alike(x, y),
{
    let e = a.scheduler.pending()[0].event;
    let f = b.scheduler.pending()[0].event;
    let s = choose|s: SimRuntime<M>| #[trigger] a.fired_to(s) && s.dispatched_to(a1, x, e);
    let t = choose|t: SimRuntime<M>| #[trigger] b.fired_to(t) && t.dispatched_to(b1, y, f);
    reproduce::law_firing_keeps_queues_alike(a.scheduler, b.scheduler, s.scheduler, t.scheduler);
    assert(alike::runs_alike(s, t));
    reproduce::law_dispatch_keeps_runs_alike(s, t, a1, b1, x, y, e, f);
}

proof fn lemma_arm_alike<M: Clone>(
    a: SimRuntime<M>,
    b: SimRuntime<M>,
    a1: SimRuntime<M>,
    b1: SimRuntime<M>,
    kind: TimerKind,
    base_nanos: u64,
    at: VirtualInstant,
)
    requires
        alike::runs_alike(a, b),
        moved(a, a1, Move::Arm { kind, base_nanos, at }),
        moved(b, b1, Move::Arm { kind, base_nanos, at }),
    ensures
        alike::runs_alike(a1, b1),
{
    let c = a.cluster.clock;
    let d = b.cluster.clock;
    let x = a1.cluster.clock;
    let y = b1.cluster.clock;
    let timer = c.active_timer(kind);
    assert(timer == d.active_timer(kind));
    assert(c.generation(timer) == d.generation(timer));
    assert forall|id: TimerView| #[trigger] x.generation(id) == y.generation(id) by {
        assert(c.generation(id) == d.generation(id));
    }
    assert forall|i: int| 0 <= i < x.pending@.len() implies (#[trigger] x.pending@[i]).at
        == y.pending@[i].at && x.pending@[i].id() == y.pending@[i].id()
        && x.pending@[i].generation == y.pending@[i].generation by {
        if i < c.pending@.len() {
            assert(x.pending@[i] == c.pending@[i] && y.pending@[i] == d.pending@[i]);
        }
    }
    assert(alike::clocks_alike(x, y));
}

proof fn lemma_observe_alike<M>(
    a: SimulatedCluster<M>,
    b: SimulatedCluster<M>,
    a1: SimulatedCluster<M>,
    b1: SimulatedCluster<M>,
    index: int,
    group: GroupView,
    s: ReplicaState,
    t: ReplicaState,
)
    requires
        alike::clusters_alike(a, b),
        alike::states_alike(s, t),
        a.observed_to(a1, index, group, s),
        b.observed_to(b1, index, group, t),
    ensures
        alike::clusters_alike(a1, b1),
{
    alike::lemma_live_alike(a, b, index, group);
    let p = a1.nodes@;
    let q = b1.nodes@;
    assert forall|i: int| 0 <= i < p.len() implies alike::node_alike(#[trigger] p[i], q[i]) by {
        assert(alike::node_alike(a.nodes@[i], b.nodes@[i]));
        if i == index && a.live(index, group) {
            assert forall|g: GroupView| #[trigger]
                alike::replicas_alike(p[i].replica(g), q[i].replica(g)) by {
                assert(alike::replicas_alike(a.nodes@[i].replica(g), b.nodes@[i].replica(g)));
            }
        } else {
            assert(p[i] == a.nodes@[i] && q[i] == b.nodes@[i]);
        }
    }
}

/// Replicas that have just started are alike.
proof fn lemma_fresh_alike(s: ReplicaState, t: ReplicaState)
    requires
        s.is_fresh(),
        t.is_fresh(),
    ensures
        alike::states_alike(s, t),
{
    assert(raft_safety::entry_views(s.log@) =~= raft_safety::entry_views(t.log@));
    assert(kafka_parity::committed_views(s.records@) =~= kafka_parity::committed_views(t.records@));
}

proof fn lemma_reconcile_alike(
    m: SimNode,
    n: SimNode,
    m1: SimNode,
    n1: SimNode,
    u: NodeUpdate,
    v: NodeUpdate,
)
    requires
        alike::node_alike(m, n),
        alike::catalogues_alike(u.served, v.served),
        plans_alike(u.plan, v.plan),
        m.reconciled_to(m1, u.served, u.plan),
        n.reconciled_to(n1, v.served, v.plan),
    ensures
        alike::node_alike(m1, n1),
{
    assert forall|g: GroupView| #[trigger]
        alike::replicas_alike(m1.replica(g), n1.replica(g)) by {
        assert(alike::replicas_alike(m.replica(g), n.replica(g)));
        assert(groups::lists(u.plan.spawn@, g) == groups::lists(v.plan.spawn@, g));
        if g != model::meta_group() {
            assert(m1.fleet@.contains_key(g) == n1.fleet@.contains_key(g)) by {
                assert(m.fleet@.contains_key(g) == n.fleet@.contains_key(g));
            }
            if m1.fleet@.contains_key(g) && groups::lists(u.plan.spawn@, g) {
                lemma_fresh_alike(m1.fleet@[g], n1.fleet@[g]);
            }
        }
    }
    assert forall|g: GroupView| #[trigger]
        m1.storage@.contains_key(g) == n1.storage@.contains_key(g) by {
        assert(groups::lists(u.plan.spawn@, g) == groups::lists(v.plan.spawn@, g));
        assert(m.storage@.contains_key(g) == n.storage@.contains_key(g));
    }
    assert(m1.storage@ =~= n1.storage@);
}

proof fn lemma_update_alike<M>(
    a: SimulatedCluster<M>,
    b: SimulatedCluster<M>,
    a1: SimulatedCluster<M>,
    b1: SimulatedCluster<M>,
    u: Seq<NodeUpdate>,
    v: Seq<NodeUpdate>,
)
    requires
        alike::clusters_alike(a, b),
        updates_alike(u, v),
        u.len() == a.nodes@.len(),
        a.updated_to(a1, u),
        b.updated_to(b1, v),
    ensures
        alike::clusters_alike(a1, b1),
{
    let p = a1.nodes@;
    let q = b1.nodes@;
    assert forall|i: int| 0 <= i < p.len() implies alike::node_alike(#[trigger] p[i], q[i]) by {
        assert(alike::node_alike(a.nodes@[i], b.nodes@[i]));
        if a.nodes@[i].running {
            assert(alike::catalogues_alike(u[i].served, v[i].served));
            lemma_reconcile_alike(a.nodes@[i], b.nodes@[i], p[i], q[i], u[i], v[i]);
        }
    }
}

proof fn lemma_restart_step_alike<M>(
    a: SimulatedCluster<M>,
    b: SimulatedCluster<M>,
    a1: SimulatedCluster<M>,
    b1: SimulatedCluster<M>,
    index: usize,
    r: RecoveredNode,
    s: RecoveredNode,
)
    requires
        alike::clusters_alike(a, b),
        recoveries_alike(r, s),
        a.restart_step(a1, index, r),
        b.restart_step(b1, index, s),
    ensures
        alike::clusters_alike(a1, b1),
{
    let k = index as int;
    if k < a.nodes@.len() {
        assert(alike::node_alike(a.nodes@[k], b.nodes@[k]));
    }
    if a.is_down(k) {
        let p = a1.nodes@;
        let q = b1.nodes@;
        assert forall|i: int| 0 <= i < p.len() implies alike::node_alike(#[trigger] p[i], q[i]) by {
            assert(alike::node_alike(a.nodes@[i], b.nodes@[i]));
            if i == k {
                lemma_back_alike(a.nodes@[k], b.nodes@[k], p[k], q[k], r, s);
            } else {
                assert(p[i] == a.nodes@[i] && q[i] == b.nodes@[i]);
            }
        }
    }
}

/// What a node hosts that came back with `r`.
spec fn came_back_with(before: SimNode, up: SimNode, r: RecoveredNode) -> bool {
    &&& up.id == before.id
    &&& up.raft_id == before.raft_id
    &&& up.running
    &&& up.controller == Some(r.meta)
    &&& up.served == r.served
    &&& forall|g: GroupView| #[trigger]
        up.fleet@.contains_key(g) ==> cluster::recovers(r.replicas@, g)
    &&& forall|k: int|
        0 <= k < r.replicas@.len() ==> up.fleet@.contains_key((#[trigger] r.replicas@[k]).0@)
            && up.fleet@[r.replicas@[k].0@] == r.replicas@[k].1
    &&& forall|g: GroupView|
        #![trigger up.storage@.contains_key(g)]
        #![trigger before.storage@.contains_key(g)]
        up.storage@.contains_key(g) == (before.storage@.contains_key(g)
            || up.fleet@.contains_key(g))
}

proof fn lemma_back_alike(
    m: SimNode,
    n: SimNode,
    m1: SimNode,
    n1: SimNode,
    r: RecoveredNode,
    s: RecoveredNode,
)
    requires
        alike::node_alike(m, n),
        recoveries_alike(r, s),
        came_back_with(m, m1, r),
        came_back_with(n, n1, s),
    ensures
        alike::node_alike(m1, n1),
{
    assert forall|g: GroupView| #[trigger]
        m1.fleet@.contains_key(g) == cluster::recovers(r.replicas@, g) by {
        if cluster::recovers(r.replicas@, g) {
            let i = choose|i: int|
                0 <= i < r.replicas@.len() && (#[trigger] r.replicas@[i]).0@ == g;
            assert(m1.fleet@.contains_key(r.replicas@[i].0@));
        }
    }
    assert forall|g: GroupView| #[trigger]
        n1.fleet@.contains_key(g) == cluster::recovers(s.replicas@, g) by {
        if cluster::recovers(s.replicas@, g) {
            let j = choose|j: int|
                0 <= j < s.replicas@.len() && (#[trigger] s.replicas@[j]).0@ == g;
            assert(n1.fleet@.contains_key(s.replicas@[j].0@));
        }
    }
    assert forall|g: GroupView| #[trigger]
        alike::replicas_alike(m1.replica(g), n1.replica(g)) by {
        assert(cluster::recovers(r.replicas@, g) == cluster::recovers(s.replicas@, g));
        if g != model::meta_group() && m1.fleet@.contains_key(g) {
            assert(n1.fleet@.contains_key(g));
            let i = choose|i: int|
                0 <= i < r.replicas@.len() && (#[trigger] r.replicas@[i]).0@ == g;
            let j = choose|j: int|
                0 <= j < s.replicas@.len() && (#[trigger] s.replicas@[j]).0@ == g;
            assert(r.replicas@[i].0@ == s.replicas@[j].0@);
        } else if g != model::meta_group() {
            assert(!n1.fleet@.contains_key(g));
        }
    }
    assert forall|g: GroupView| #[trigger]
        m1.storage@.contains_key(g) == n1.storage@.contains_key(g) by {
        assert(m.storage@.contains_key(g) == n.storage@.contains_key(g));
        assert(m1.fleet@.contains_key(g) == cluster::recovers(r.replicas@, g));
        assert(n1.fleet@.contains_key(g) == cluster::recovers(s.replicas@, g));
    }
    assert(m1.storage@ =~= n1.storage@);
}

proof fn lemma_restarts_alike<M>(
    c: Seq<SimulatedCluster<M>>,
    d: Seq<SimulatedCluster<M>>,
    r: Seq<(usize, RecoveredNode)>,
    s: Seq<(usize, RecoveredNode)>,
    n: nat,
)
    requires
        restarts_alike(r, s),
        cluster::restarts_chained(c, r),
        cluster::restarts_chained(d, s),
        alike::clusters_alike(c[0], d[0]),
        n <= r.len(),
    ensures
        alike::clusters_alike(c[n as int], d[n as int]),
    decreases n,
{
    if n > 0 {
        let i = n - 1;
        lemma_restarts_alike(c, d, r, s, i as nat);
        assert(c[i].restart_step(c[i + 1], r[i].0, r[i].1));
        assert(d[i].restart_step(d[i + 1], s[i].0, s[i].1));
        lemma_restart_step_alike(c[i], d[i], c[i + 1], d[i + 1], r[i].0, r[i].1, s[i].1);
    }
}

proof fn lemma_commands_alike(c: Seq<LogEntry>, d: Seq<LogEntry>, n: nat)
    requires
        raft_safety::entry_views(c) == raft_safety::entry_views(d),
        n <= c.len(),
    ensures
        output::commands_in(c, n) == output::commands_in(d, n),
    decreases n,
{
    if n > 0 {
        lemma_commands_alike(c, d, (n - 1) as nat);
        assert(c.len() == raft_safety::entry_views(c).len());
        assert(d.len() == raft_safety::entry_views(d).len());
        let i = n - 1;
        assert(raft_safety::entry_views(c)[i] == c[i]@);
        assert(raft_safety::entry_views(d)[i] == d[i]@);
        assert(c[i]@.payload == d[i]@.payload);
        assert(c[i].payload.bytes@ == c[i]@.payload.bytes);
        assert(d[i].payload.bytes@ == d[i]@.payload.bytes);
    }
}

proof fn lemma_check_alike<M>(
    a: SimRuntime<M>,
    b: SimRuntime<M>,
    a1: SimRuntime<M>,
    b1: SimRuntime<M>,
    m: FaultNote,
    n: FaultNote,
    at: Seq<VirtualInstant>,
)
    requires
        alike::runs_alike(a, b),
        notes_alike(m, n),
        a.upkept_at(a1, m, at),
        b.upkept_at(b1, n, at),
    ensures
        alike::runs_alike(a1, b1),
{
    let (s, list) = choose|s: SimRuntime<M>, list: Seq<Replica>| #[trigger]
        a.kept_up(a1, s, m, list, at);
    let (t, other) = choose|t: SimRuntime<M>, other: Seq<Replica>| #[trigger]
        b.kept_up(b1, t, n, other, at);
    let p = a.cluster.nodes@;
    let q = b.cluster.nodes@;
    match (m, n) {
        (FaultNote::Restart { nodes: x }, FaultNote::Restart { nodes: y }) => {
            assert forall|name: Seq<char>| #[trigger]
                timeline::named_at(p, x@, name) == timeline::named_at(q, y@, name) by {
                alike::lemma_named_at_alike(p, q, x@, name);
            }
        },
        _ => {},
    }
    assert(drive::markers_kept(p, a.seeded@, m) =~= drive::markers_kept(q, b.seeded@, n));
    assert(alike::runs_alike(s, t));
    let s1 = SimRuntime { deleted_topics: a.deleted_topics, ..a1 };
    let t1 = SimRuntime { deleted_topics: b.deleted_topics, ..b1 };
    reproduce::law_seeding_keeps_runs_alike(s, t, s1, t1, list, other, at);
    assert(output::texts(a1.deleted_topics@) =~= output::texts(b1.deleted_topics@));
}

/// Alike moves leave alike runs alike, and what an event asks for is the same in both.
pub proof fn law_moves_keep_runs_alike<M: Clone>(
    a: SimRuntime<M>,
    b: SimRuntime<M>,
    a1: SimRuntime<M>,
    b1: SimRuntime<M>,
    x: Move<M>,
    y: Move<M>,
)
    requires
        reproduce::clones_are_equal::<M>(),
        a.wf(),
        b.wf(),
        a1.wf(),
        b1.wf(),
        alike::runs_alike(a, b),
        moved(a, a1, x),
        moved(b, b1, y),
        moves_alike(x, y),
    ensures
        alike::runs_alike(a1, b1),
        x matches Move::Fire { action: p } ==> (y matches Move::Fire { action: q }
            && alike::actions_alike(p, q)),
{
    match (x, y) {
        (Move::Fire { action: p }, Move::Fire { action: q }) => {
            lemma_fire_alike(a, b, a1, b1, p, q);
        },
        (Move::Arm { kind, base_nanos, at }, Move::Arm { .. }) => {
            lemma_arm_alike(a, b, a1, b1, kind, base_nanos, at);
        },
        (
            Move::Observe { index, group, state: s },
            Move::Observe { index: j, group: h, state: t },
        ) => {
            lemma_observe_alike(
                a.cluster,
                b.cluster,
                a1.cluster,
                b1.cluster,
                index,
                group,
                s,
                t,
            );
        },
        (Move::Commit { group, committed: c }, Move::Commit { group: h, committed: d }) => {
            assert(c.len() == raft_safety::entry_views(c).len());
            assert(d.len() == raft_safety::entry_views(d).len());
            lemma_commands_alike(c, d, c.len());
        },
        (Move::Update { updates: u }, Move::Update { updates: v }) => {
            lemma_update_alike(a.cluster, b.cluster, a1.cluster, b1.cluster, u, v);
        },
        (Move::Output { index, group, sends }, Move::Output { .. }) => {
            reproduce::law_output_keeps_runs_alike(a, b, a1, b1, index, group, sends);
        },
        (Move::Keep { op: p }, Move::Keep { op: q }) => {
            assert(alike::pendings_alike(a1.pending@, b1.pending@));
        },
        (Move::Restart { recovered: r }, Move::Restart { recovered: s }) => {
            let c = choose|c: Seq<SimulatedCluster<M>>| #[trigger]
                cluster::restarts_chained(c, r) && c[0] == a.cluster && c.last() == a1.cluster;
            let d = choose|d: Seq<SimulatedCluster<M>>| #[trigger]
                cluster::restarts_chained(d, s) && d[0] == b.cluster && d.last() == b1.cluster;
            lemma_restarts_alike(c, d, r, s, r.len());
        },
        (Move::Check { note: m, at }, Move::Check { note: n, .. }) => {
            lemma_check_alike(a, b, a1, b1, m, n, at);
        },
        _ => {},
    }
}

/// Two courses that start alike, and in which the replicas answer alike, are alike
/// after every move.
pub proof fn law_courses_stay_alike<M: Clone>(
    p: Seq<SimRuntime<M>>,
    q: Seq<SimRuntime<M>>,
    x: Seq<Move<M>>,
    y: Seq<Move<M>>,
    n: nat,
)
    requires
        reproduce::clones_are_equal::<M>(),
        is_course(p, x),
        is_course(q, y),
        x.len() == y.len(),
        forall|i: int| 0 <= i < x.len() ==> moves_alike(#[trigger] x[i], y[i]),
        alike::runs_alike(p[0], q[0]),
        n <= x.len(),
    ensures
        alike::runs_alike(p[n as int], q[n as int]),
        n > 0 && x[n - 1] is Fire ==> y[n - 1] is Fire && alike::actions_alike(
            x[n - 1]->action,
            y[n - 1]->action,
        ),
    decreases n,
{
    if n > 0 {
        let i = n - 1;
        law_courses_stay_alike(p, q, x, y, i as nat);
        assert(moves_alike(x[i], y[i]));
        assert(moved(p[i], p[i + 1], x[i]));
        assert(moved(q[i], q[i + 1], y[i]));
        law_moves_keep_runs_alike(p[i], q[i], p[i + 1], q[i + 1], x[i], y[i]);
    }
}

/// Two clusters that have just been built from one configuration are alike.
proof fn lemma_initial_alike<M>(
    a: SimulatedCluster<M>,
    b: SimulatedCluster<M>,
    config: RunConfig,
)
    requires
        a.wf(),
        b.wf(),
        a.is_initial(config),
        b.is_initial(config),
    ensures
        alike::clusters_alike(a, b),
{
    let p = a.nodes@;
    let q = b.nodes@;
    assert forall|i: int| 0 <= i < p.len() implies alike::node_alike(#[trigger] p[i], q[i]) by {
        assert(p[i].id == a.topology.nodes@[i] && q[i].id == b.topology.nodes@[i]);
        assert(p[i].id@ == topology::node_name(i as nat));
        assert(q[i].id@ == topology::node_name(i as nat));
        lemma_fresh_alike(p[i].controller->0, q[i].controller->0);
        assert forall|g: GroupView| #[trigger]
            alike::replicas_alike(p[i].replica(g), q[i].replica(g)) by {
            assert(q[i].fleet@ == Map::<GroupView, ReplicaState>::empty());
        }
    }
    assert(alike::nodes_alike(p, q));
    assert(alike::networks_alike(a.network, b.network));
    assert(alike::clocks_alike(a.clock, b.clock));
}

/// Two runs prepared from one configuration are alike.
pub proof fn law_preparation_is_reproducible<M>(
    config: RunConfig,
    limits: ConsumeLimits,
    max_events: Option<u64>,
    a: (SimRuntime<M>, SimRuntime<M>, SimRuntime<M>, SimRuntime<M>),
    b: (SimRuntime<M>, SimRuntime<M>, SimRuntime<M>, SimRuntime<M>),
)
    requires
        drive::prepared(config, limits, max_events, a.0, a.1, a.2, a.3),
        drive::prepared(config, limits, max_events, b.0, b.1, b.2, b.3),
    ensures
        alike::runs_alike(a.3, b.3),
{
    let streams = SeedStreams::of(config.seed);
    lemma_initial_alike(a.0.cluster, b.0.cluster, config);
    let m = a.0.cluster.topology.nodes@;
    let n = b.0.cluster.topology.nodes@;
    assert forall|i: int| 0 <= i < m.len() implies (#[trigger] m[i])@ == n[i]@ by {
        assert(n[i]@ == topology::node_name(i as nat));
    }
    assert(model::node_names(m) =~= model::node_names(n));
    assert(history::op_views(a.0.history.ops@) =~= history::op_views(b.0.history.ops@));
    assert(output::texts(a.0.deleted_topics@) =~= output::texts(b.0.deleted_topics@));
    assert(alike::runs_alike(a.0, b.0));
    let size = config.params.workload_size as nat;
    let ops = timeline::op_items::<M>(size);
    assert(alike::items_alike(ops, ops));
    reproduce::law_timelines_keep_queues_alike(
        a.0.scheduler,
        b.0.scheduler,
        a.1.scheduler,
        b.1.scheduler,
        ops,
        ops,
    );
    let items = choose|items: Seq<Item<M>>| #[trigger]
        timeline::is_fault_plan(items, a.0.cluster.topology, config.params, streams.faults)
            && runtime::all_scheduled(a.1.scheduler, a.2.scheduler, items);
    let others = choose|items: Seq<Item<M>>| #[trigger]
        timeline::is_fault_plan(items, b.0.cluster.topology, config.params, streams.faults)
            && runtime::all_scheduled(b.1.scheduler, b.2.scheduler, items);
    reproduce::law_fault_plan_is_settled(
        items,
        others,
        a.0.cluster.topology,
        b.0.cluster.topology,
        config.params,
        streams.faults,
    );
    reproduce::law_timelines_keep_queues_alike(
        a.1.scheduler,
        b.1.scheduler,
        a.2.scheduler,
        b.2.scheduler,
        items,
        others,
    );
    let list = choose|list: Seq<Replica>| #[trigger] a.2.seeded_to(a.3, list);
    let other = choose|list: Seq<Replica>| #[trigger] b.2.seeded_to(b.3, list);
    assert(alike::runs_alike(a.2, b.2));
    reproduce::law_true_seeding_keeps_runs_alike(a.2, b.2, a.3, b.3, list, other);
}

/// A run is a function of its configuration and of what its replicas answer: two
/// courses of one configuration in which the replicas answer alike are alike after
/// every move. They fire the same events at the same instants in the same order, ask
/// for the same of the replicas, and record the same history.
pub proof fn law_runs_are_reproducible<M: Clone>(
    config: RunConfig,
    limits: ConsumeLimits,
    max_events: Option<u64>,
    a: (SimRuntime<M>, SimRuntime<M>, SimRuntime<M>),
    b: (SimRuntime<M>, SimRuntime<M>, SimRuntime<M>),
    p: Seq<SimRuntime<M>>,
    q: Seq<SimRuntime<M>>,
    x: Seq<Move<M>>,
    y: Seq<Move<M>>,
    n: nat,
)
    requires
        reproduce::clones_are_equal::<M>(),
        is_course(p, x),
        is_course(q, y),
        drive::prepared(config, limits, max_events, a.0, a.1, a.2, p[0]),
        drive::prepared(config, limits, max_events, b.0, b.1, b.2, q[0]),
        x.len() == y.len(),
        forall|i: int| 0 <= i < x.len() ==> moves_alike(#[trigger] x[i], y[i]),
        n <= x.len(),
    ensures
        alike::runs_alike(p[n as int], q[n as int]),
        n > 0 && x[n - 1] is Fire ==> y[n - 1] is Fire && alike::actions_alike(
            x[n - 1]->action,
            y[n - 1]->action,
        ),
        p[n as int].scheduler.ending() == q[n as int].scheduler.ending(),
        history::op_views(p[n as int].history.ops@) == history::op_views(
            q[n as int].history.ops@,
        ),
{
    law_preparation_is_reproducible(
        config,
        limits,
        max_events,
        (a.0, a.1, a.2, p[0]),
        (b.0, b.1, b.2, q[0]),
    );
    law_courses_stay_alike(p, q, x, y, n);
}

} // verus!
