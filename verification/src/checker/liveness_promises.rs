//! What the liveness checker looks at and reports, in the words of the replicas and the
//! network alone.

use super::liveness::{self, GroupWindow, SnapshotView, VoterView, WindowMap};
use super::Violation;
use crate::cluster::{ReplicaState, SimulatedCluster};
use crate::model::{GroupView, NodeId};
use crate::network;
use crate::scheduler::{VirtualDuration, VirtualInstant};
use crate::topology;
use vstd::prelude::*;

verus! {

/// The nodes that hold replicas of a group: all of them for the metadata group, and for a
/// partition those of its replica set.
pub open spec fn membership<M>(cluster: SimulatedCluster<M>, g: GroupView) -> Seq<NodeId> {
    if g.0 == "__meta"@ && g.1.0 == 0 {
        cluster.topology.nodes@
    } else if g.1.0 < cluster.topology.replica_sets@.len() {
        cluster.topology.replica_sets@[g.1.0 as int]@
    } else {
        Seq::empty()
    }
}

/// Whether the i-th node runs and holds `state` as its replica of `g`.
pub open spec fn holds<M>(
    cluster: SimulatedCluster<M>,
    i: int,
    g: GroupView,
    state: ReplicaState,
) -> bool {
    &&& 0 <= i < cluster.nodes@.len()
    &&& cluster.nodes@[i].running
    &&& if g.0 == "__meta"@ && g.1.0 == 0 {
        cluster.nodes@[i].controller == Some(state)
    } else {
        cluster.nodes@[i].fleet@.contains_key(g) && cluster.nodes@[i].fleet@[g] == state
    }
}

proof fn lemma_index<M>(cluster: SimulatedCluster<M>, i: int, name: Seq<char>)
    requires
        cluster.wf(),
        0 <= i < cluster.nodes@.len(),
        cluster.nodes@[i].id.0@ == name,
    ensures
        crate::model::names(cluster.topology.nodes@, name),
        cluster.topology.index_named(name) == i,
{
    let t = cluster.topology;
    assert(t.nodes@[i]@ == name);
    let j = t.index_named(name);
    assert(0 <= j < t.nodes@.len() && t.nodes@[j]@ == name);
    topology::law_node_names_are_distinct(i as nat, j as nat);
}

/// A snapshot of a group has one voter for each member, in order. A member that is up and
/// holds a replica is shown with the role, the commit index and the last log index of that
/// replica.
pub proof fn law_voters_show_their_replicas<M>(
    cluster: SimulatedCluster<M>,
    g: GroupView,
    k: int,
    i: int,
    state: ReplicaState,
)
    requires
        cluster.wf(),
        0 <= k < membership(cluster, g).len(),
        holds(cluster, i, g, state),
        cluster.nodes@[i].id.0@ == membership(cluster, g)[k].0@,
    ensures
        liveness::snapshot_of(cluster, g).voters.len() == membership(cluster, g).len(),
        ({
            let voter = liveness::snapshot_of(cluster, g).voters[k];
            &&& voter.node == cluster.nodes@[i].id.0@
            &&& voter.up
            &&& voter.role == state.role
            &&& voter.commit_index == state.commit_index
            &&& voter.last_index == state.last_index
        }),
{
    lemma_index(cluster, i, cluster.nodes@[i].id.0@);
    assert(liveness::members(cluster.topology, g) == membership(cluster, g));
}

/// A member that is down, or holds no replica, is shown as down.
pub proof fn law_voters_without_a_replica_are_down<M>(
    cluster: SimulatedCluster<M>,
    g: GroupView,
    k: int,
)
    requires
        cluster.wf(),
        0 <= k < membership(cluster, g).len(),
        forall|i: int, state: ReplicaState|
            cluster.nodes@[i].id.0@ == membership(cluster, g)[k].0@ ==> !(#[trigger] holds(
                cluster,
                i,
                g,
                state,
            )),
    ensures
        liveness::snapshot_of(cluster, g).voters[k].node == membership(cluster, g)[k].0@,
        !liveness::snapshot_of(cluster, g).voters[k].up,
{
    let member = membership(cluster, g)[k];
    assert(liveness::members(cluster.topology, g) == membership(cluster, g));
    if crate::model::names(cluster.topology.nodes@, member@) {
        let i = cluster.topology.index_named(member@);
        assert(cluster.topology.nodes@[i]@ == member@);
        let node = cluster.nodes@[i];
        if node.running && node.hosts(g) {
            assert(holds(cluster, i, g, node.replica(g)->0));
        }
    }
}

/// Two voters reach each other exactly where both are up, neither is cut off by a crash,
/// and no cut stops a message either way. Every voter reaches itself.
pub proof fn law_voters_reach_each_other_both_ways<M>(
    cluster: SimulatedCluster<M>,
    g: GroupView,
    i: int,
    j: int,
)
    requires
        0 <= i < liveness::snapshot_of(cluster, g).voters.len(),
        0 <= j < liveness::snapshot_of(cluster, g).voters.len(),
    ensures
        ({
            let snap = liveness::snapshot_of(cluster, g);
            let a = snap.voters[i];
            let b = snap.voters[j];
            &&& snap.group == g
            &&& snap.reachable[i][i]
            &&& i != j ==> (snap.reachable[i][j] <==> {
                &&& a.up && b.up
                &&& !cluster.network.crashed@.contains_key(a.node)
                &&& !cluster.network.crashed@.contains_key(b.node)
                &&& forall|id: crate::scheduler::HealId| #[trigger]
                    cluster.network.cuts@.contains_key(id) ==> !network::severs(
                        cluster.network.cuts@[id],
                        a.node,
                        b.node,
                    ) && !network::severs(cluster.network.cuts@[id], b.node, a.node)
            })
        }),
{
    let snap = liveness::snapshot_of(cluster, g);
    let a = snap.voters[i].node;
    let b = snap.voters[j].node;
    network::law_what_stops_a_message(cluster.network, a, b);
    network::law_what_stops_a_message(cluster.network, b, a);
}

/// The voters that are up, counted: their places in order, each once and no other.
pub proof fn law_the_up_are_counted(voters: Seq<VoterView>)
    ensures
        forall|k: int|
            0 <= k < liveness::ups(voters).len() ==> 0 <= #[trigger] liveness::ups(voters)[k]
                < voters.len() && voters[liveness::ups(voters)[k]].up,
        forall|j: int, k: int|
            0 <= j < k < liveness::ups(voters).len() ==> #[trigger] liveness::ups(voters)[j]
                < #[trigger] liveness::ups(voters)[k],
        forall|i: int|
            0 <= i < voters.len() && (#[trigger] voters[i]).up ==> liveness::ups(voters).contains(
                i,
            ),
    decreases voters.len(),
{
    if voters.len() > 0 {
        let fore = voters.drop_last();
        let n = voters.len() - 1;
        law_the_up_are_counted(fore);
        let rest = liveness::ups(fore);
        let all = liveness::ups(voters);
        assert forall|i: int| 0 <= i < n implies #[trigger] voters[i] == fore[i] by {}
        assert forall|k: int| 0 <= k < rest.len() implies all[k] == #[trigger] rest[k] by {}
        assert forall|i: int| 0 <= i < voters.len() && (#[trigger] voters[i]).up implies all.contains(
            i,
        ) by {
            if i < n {
                assert(fore[i].up);
                let k = choose|k: int| 0 <= k < rest.len() && rest[k] == i;
                assert(all[k] == i);
            } else {
                assert(all[rest.len() as int] == i);
            }
        }
    }
}

/// A group is favorable exactly where more than half of its voters are up and any two of
/// those reach each other.
pub proof fn law_a_connected_majority_is_favorable(snap: SnapshotView)
    ensures
        snap.is_favorable() <==> {
            &&& 2 * liveness::ups(snap.voters).len() > snap.voters.len()
            &&& forall|i: int, j: int|
                #![trigger snap.reachable[i][j]]
                0 <= i < j < snap.voters.len() && snap.voters[i].up && snap.voters[j].up
                    ==> snap.reachable[i][j]
        },
{
}

/// Whether the i-th voter is up and leads.
pub open spec fn leading(snap: SnapshotView, i: int) -> bool {
    0 <= i < snap.voters.len() && snap.voters[i].up && snap.voters[i].role is Leader
}

/// A group with one leader has elected one. It has converged exactly where that leader
/// has committed all of its log and every voter that is up has committed as much.
pub proof fn law_one_leader_that_all_follow(snap: SnapshotView, i: int)
    requires
        leading(snap, i),
        forall|j: int| #[trigger] leading(snap, j) ==> j == i,
    ensures
        snap.progress_made().leader_elected,
        snap.progress_made().converged <==> {
            &&& snap.voters[i].commit_index == snap.voters[i].last_index
            &&& forall|j: int|
                0 <= j < snap.voters.len() && (#[trigger] snap.voters[j]).up
                    ==> snap.voters[j].commit_index == snap.voters[i].commit_index
        },
{
    assert forall|j: int| #[trigger] snap.leads(j) implies j == i by {
        assert(leading(snap, j));
    }
    assert(snap.leads(i));
    assert(snap.sole_leader(i));
    let k = choose|k: int| snap.sole_leader(k);
    assert(snap.sole_leader(k));
    assert(k == i);
    if snap.is_converged(i) {
        assert forall|j: int|
            0 <= j < snap.voters.len() && (
            #[trigger] snap.voters[j]).up implies snap.voters[j].commit_index
            == snap.voters[i].commit_index by {
            assert(snap.is_up(j));
        }
    }
}

/// A group with no leader, or with two, has made no progress.
pub proof fn law_no_leader_no_progress(snap: SnapshotView)
    requires
        forall|i: int| #[trigger]
            leading(snap, i) ==> exists|j: int| j != i && #[trigger] leading(snap, j),
    ensures
        !snap.progress_made().leader_elected,
        !snap.progress_made().converged,
{
    assert forall|i: int| !snap.sole_leader(i) by {
        if snap.sole_leader(i) {
            assert(leading(snap, i));
            let j = choose|j: int| j != i && #[trigger] leading(snap, j);
            assert(snap.leads(j));
        }
    }
}

/// A leader with log entries that it has not committed keeps its group from converging,
/// whatever the others have done.
pub proof fn law_a_backlog_is_no_convergence<M>(
    cluster: SimulatedCluster<M>,
    g: GroupView,
    k: int,
    i: int,
    state: ReplicaState,
)
    requires
        cluster.wf(),
        0 <= k < membership(cluster, g).len(),
        holds(cluster, i, g, state),
        cluster.nodes@[i].id.0@ == membership(cluster, g)[k].0@,
        state.role is Leader,
        state.commit_index != state.last_index,
    ensures
        !liveness::snapshot_of(cluster, g).progress_made().converged,
{
    let snap = liveness::snapshot_of(cluster, g);
    law_voters_show_their_replicas(cluster, g, k, i, state);
    assert(leading(snap, k));
    if forall|j: int| #[trigger] leading(snap, j) ==> j == k {
        law_one_leader_that_all_follow(snap, k);
    } else {
        let j = choose|j: int| #[trigger] leading(snap, j) && j != k;
        assert forall|x: int| #[trigger] leading(snap, x) implies exists|y: int|
            y != x && #[trigger] leading(snap, y) by {
            if x == k {
                assert(leading(snap, j));
            } else {
                assert(leading(snap, k));
            }
        }
        law_no_leader_no_progress(snap);
    }
}

/// How a look changes what is remembered of a group: nothing is kept of one that is not
/// favorable; one that was not favorable before is so since now; and a leader elected or
/// a convergence seen is remembered.
pub proof fn law_a_look_is_remembered(w: GroupWindow, snap: SnapshotView, now: VirtualInstant)
    ensures
        !snap.is_favorable() ==> w.after(snap, now).since is None && !w.after(
            snap,
            now,
        ).leader_elected && !w.after(snap, now).satisfied,
        snap.is_favorable() ==> {
            let next = w.after(snap, now);
            &&& w.since is Some ==> next.since == w.since
            &&& w.since is None ==> next.since == Some(now)
            &&& next.satisfied <==> (w.since is Some && w.satisfied)
                || snap.progress_made().converged
            &&& next.leader_elected <==> (w.since is Some && w.leader_elected)
                || snap.progress_made().leader_elected
        },
{
}

/// A group is overdue exactly where it has stayed favorable for longer than the budget
/// and was never seen converged.
pub proof fn law_overdue_is_past_the_budget(
    w: GroupWindow,
    now: VirtualInstant,
    budget: VirtualDuration,
)
    ensures
        w.overdue(now, budget) <==> {
            &&& w.since is Some
            &&& !w.satisfied
            &&& now.0 > (w.since->0).0 + budget.0
        },
{
}

/// The checker fails exactly where some group it remembers has stayed favorable for longer
/// than the budget with no convergence; it reports liveness, dated now.
pub proof fn law_the_overdue_are_reported(
    windows: WindowMap,
    budget: VirtualDuration,
    r: Result<(), Violation>,
    now: VirtualInstant,
)
    requires
        liveness::liveness_verdict(windows, budget, r, now),
    ensures
        r is Err <==> exists|g: GroupView|
            {
                &&& #[trigger] windows.contains_key(g)
                &&& windows[g].since is Some
                &&& !windows[g].satisfied
                &&& now.0 > (windows[g].since->0).0 + budget.0
            },
        r matches Err(v) ==> v.property is Liveness && v.at.0 == now.0,
{
    match r {
        Ok(ok) => {
            assert forall|g: GroupView| #[trigger] windows.contains_key(g) implies !(
            windows[g].since is Some && !windows[g].satisfied && now.0 > (windows[g].since->0).0
                + budget.0) by {
                law_overdue_is_past_the_budget(windows[g], now, budget);
            }
        },
        Err(v) => {
            let g = choose|g: GroupView| #[trigger]
                windows.contains_key(g) && windows[g].overdue(now, budget) && v@
                    == liveness::liveness_violation(g, windows[g], budget, now);
            law_overdue_is_past_the_budget(windows[g], now, budget);
        },
    }
}

/// A group is looked at exactly where it is the metadata group or some running node holds
/// a replica of it; a group that is remembered and not there is favorable no longer.
pub proof fn law_every_present_group_is_looked_at<M>(
    before: WindowMap,
    after: WindowMap,
    cluster: SimulatedCluster<M>,
    now: VirtualInstant,
    g: GroupView,
)
    requires
        liveness::looked_at(before, after, cluster, now),
    ensures
        ({
            let there = (g.0 == "__meta"@ && g.1.0 == 0) || exists|i: int|
                0 <= i < cluster.nodes@.len() && (#[trigger] cluster.nodes@[i]).running
                    && cluster.nodes@[i].fleet@.contains_key(g);
            &&& after.contains_key(g) <==> there || before.contains_key(g)
            &&& there ==> after[g] == (if before.contains_key(g) {
                before[g]
            } else {
                GroupWindow { since: None, leader_elected: false, satisfied: false }
            }).after(liveness::snapshot_of(cluster, g), now)
            &&& !there && before.contains_key(g) ==> after[g].since is None
                && !after[g].leader_elected && !after[g].satisfied
        }),
{
}

/// A fault that strikes or is healed starts every clock anew: no group is favorable since
/// before it.
pub proof fn law_a_fault_forgets_the_windows(before: WindowMap, after: WindowMap, g: GroupView)
    requires
        liveness::all_closed(before, after),
    ensures
        after.contains_key(g) == before.contains_key(g),
        after.contains_key(g) ==> after[g].since is None && !after[g].satisfied
            && !after[g].leader_elected,
{
}

/// A majority is the least number that is more than half.
pub proof fn law_a_majority_is_more_than_half(snap: SnapshotView)
    ensures
        2 * snap.majority_size() > snap.voters.len(),
        2 * (snap.majority_size() - 1) <= snap.voters.len(),
{
}

/// The leader of a group is the one voter that is up and leads, where there is one.
pub proof fn law_the_leader_is_the_only_one(snap: SnapshotView, i: int)
    ensures
        snap.sole_leader(i) <==> {
            &&& leading(snap, i)
            &&& forall|j: int| #[trigger] leading(snap, j) ==> j == i
        },
{
    assert forall|j: int| leading(snap, j) == #[trigger] snap.leads(j) by {}
    if snap.sole_leader(i) {
        assert forall|j: int| #[trigger] leading(snap, j) implies j == i by {
            assert(snap.leads(j));
        }
    }
    if leading(snap, i) && forall|j: int| #[trigger] leading(snap, j) ==> j == i {
        assert forall|j: int| #[trigger] snap.leads(j) implies j == i by {
            assert(leading(snap, j));
        }
    }
}

/// A group has converged on a leader exactly where that has committed all of its log and
/// every voter that is up has committed as much.
pub proof fn law_who_has_converged(snap: SnapshotView, i: int)
    ensures
        snap.is_converged(i) <==> {
            &&& snap.voters[i].commit_index == snap.voters[i].last_index
            &&& forall|j: int|
                0 <= j < snap.voters.len() && (#[trigger] snap.voters[j]).up
                    ==> snap.voters[j].commit_index == snap.voters[i].commit_index
        },
{
    if snap.is_converged(i) {
        assert forall|j: int|
            0 <= j < snap.voters.len() && (
            #[trigger] snap.voters[j]).up implies snap.voters[j].commit_index
            == snap.voters[i].commit_index by {
            assert(snap.is_up(j));
        }
    }
}

/// A window is opened with nothing seen yet, and closed with nothing at all.
pub proof fn law_windows_open_and_close(now: VirtualInstant)
    ensures
        GroupWindow::opened(now).since == Some(now),
        !GroupWindow::opened(now).leader_elected,
        !GroupWindow::opened(now).satisfied,
        GroupWindow::closed().since is None,
        !GroupWindow::closed().leader_elected,
        !GroupWindow::closed().satisfied,
{
}

/// What is said of a group that is overdue: since when it has been favorable, and whether
/// a leader was elected.
pub proof fn law_the_overdue_are_named(
    g: GroupView,
    w: GroupWindow,
    budget: VirtualDuration,
    now: VirtualInstant,
)
    requires
        w.since is Some,
    ensures
        ({
            let head = "group "@ + crate::model::group_text(g) + " stayed favorable since t="@
                + crate::text::decimal((w.since->0).0 as nat)
                + "ns but made no progress within the "@ + crate::text::decimal(budget.0 as nat)
                + "ns budget: "@;
            let detail = liveness::liveness_violation(g, w, budget, now).detail;
            &&& !w.leader_elected ==> detail == head + "no leader was elected"@
            &&& w.leader_elected ==> detail == head
                + "a leader was elected but the group has not converged (leader backlog uncommitted or a voter is lagging)"@
        }),
{
}

} // verus!
