//! What a run does with its events, its clients and its checks, in the words of the nodes,
//! the history and the timeline alone.

use crate::checker::kafka_parity;
use crate::checker::liveness::{self, WindowMap};
use crate::checker::raft_safety::{self, CommitMap, LeaderMap};
use crate::checker::Violation;
use crate::client::{self, LeaderResolution, Pending};
use crate::clock::ArmedTimer;
use crate::cluster::{self, ReplicaState, SimNode, SimulatedCluster};
use crate::codec;
use crate::drive::{self, Checkers};
use crate::history::{OpArgsView, RecordedOp};
use crate::model::{
    CommandView, GroupKey, GroupView, LogEntry, NodeId, PartitionIndex, RaftNodeId, TimerKind,
};
use crate::network::{Cut, Envelope, PartitionDirection, SimTransport};
use crate::output;
use crate::runtime::{self, Action, FaultNote, Item, Outcome, ReplicaInput, SimRuntime};
use crate::scenario::{RunConfig, ScenarioParameters};
use crate::scheduler::{Event, Fault, HealId, VirtualDuration, VirtualInstant};
use crate::rng::SplitMix64;
use crate::timeline;
use crate::topology::{self, Topology};
use crate::workload::ClientOperationView;
use vstd::prelude::*;

verus! {

/// The replica of a group on a node: its controller's for the metadata group, and the one
/// of its fleet for any other.
pub proof fn law_replicas_are_found_by_group(node: SimNode, g: GroupView)
    ensures
        g.0 == "__meta"@ && g.1.0 == 0 ==> node.replica(g) == node.controller,
        !(g.0 == "__meta"@ && g.1.0 == 0) ==> (node.replica(g) is Some
            <==> node.fleet@.contains_key(g)),
        !(g.0 == "__meta"@ && g.1.0 == 0) && node.fleet@.contains_key(g) ==> node.replica(g)
            == Some(node.fleet@[g]),
        node.hosts(g) <==> node.replica(g) is Some,
{
}

/// A consume that finds a leader is answered at once, from the leader's committed records:
/// no more than were asked for, from the start asked for or the end, in order. One more
/// operation is recorded, and nothing else changes.
pub proof fn law_consumes_are_answered_from_the_leader<M>(
    before: SimRuntime<M>,
    after: SimRuntime<M>,
    action: Action<M>,
    topic: Seq<char>,
    partition: PartitionIndex,
    start_offset: u64,
    max_records: u32,
    i: usize,
    records: Seq<crate::model::CommittedRecord>,
)
    requires
        before.issues(
            after,
            action,
            ClientOperationView::Consume { topic, partition, start_offset, max_records },
        ),
        client::resolution(before.cluster, (topic, partition)) == LeaderResolution::Leader(i),
        before.cluster.nodes@[i as int].replica((topic, partition)) is Some,
        records == before.cluster.nodes@[i as int].replica((topic, partition))->0.records@,
        records.len() <= u64::MAX,
    ensures
        action is Idle,
        after == (SimRuntime { history: after.history, ..before }),
        after.history.ops@.len() == before.history.ops@.len() + 1,
        after.history.ops@.drop_last() == before.history.ops@,
        ({
            let op = after.history.ops@.last()@;
            let start = vstd::math::min(start_offset as int, records.len() as int);
            &&& op.kind is Consume
            &&& op.invoked_at.0 == before.scheduler.time().0
            &&& op.responded_at.0 == before.scheduler.time().0
            &&& op.args is Consume && op.args->Consume_topic == topic && op.args->Consume_partition
                == partition && op.args->start_offset == start && op.args->max_records
                == max_records
            &&& op.response is ConsumeOk && op.response->ConsumeOk_topic == topic
                && op.response->ConsumeOk_partition == partition
                && op.response->ConsumeOk_start_offset == start
            &&& op.response->ConsumeOk_records.len() == vstd::math::min(
                max_records as int,
                records.len() - start,
            )
            &&& forall|k: int|
                0 <= k < op.response->ConsumeOk_records.len() ==> (
                #[trigger] op.response->ConsumeOk_records[k]).value == records[start + k].value@
        }),
{
    let state = before.cluster.nodes@[i as int].replica((topic, partition))->0;
    client::law_a_consume_returns_what_it_asks_for(state, start_offset, max_records);
}

/// A produce that finds a leader is proposed to it: its value as a record of its
/// partition's group. It is to be found behind the leader's log, and is recorded only once
/// it is answered.
pub proof fn law_produces_are_proposed_to_the_leader<M>(
    before: SimRuntime<M>,
    after: SimRuntime<M>,
    action: Action<M>,
    topic: Seq<char>,
    partition: PartitionIndex,
    key: Option<Seq<u8>>,
    value: Seq<u8>,
    i: usize,
)
    requires
        before.issues(
            after,
            action,
            ClientOperationView::Produce { topic, partition, key, value },
        ),
        client::resolution(before.cluster, (topic, partition)) == LeaderResolution::Leader(i),
    ensures
        action is Propose,
        ({
            let state = before.cluster.nodes@[i as int].replica((topic, partition))->0;
            let payload = action->payload;
            let op = action->op;
            &&& action->Propose_index == i
            &&& action->Propose_group@ == (topic, partition)
            &&& payload.kind is Record
            &&& payload.bytes@ == value
            &&& op.group@ == (topic, partition)
            &&& op.kind is Produce
            &&& op.expected@ == value
            &&& op.invoked_at.0 == before.scheduler.time().0
            &&& op.args@ is Produce && op.args@->Produce_topic == topic
                && op.args@->Produce_partition == partition && op.args@->Produce_key == key
                && op.args@->Produce_value == value
            &&& state.last_index is None ==> op.target == 0
            &&& state.last_index matches Some(last) ==> last < u64::MAX ==> op.target == last + 1
        }),
        after.history == before.history,
        after.pending == before.pending,
        after.scheduler == before.scheduler,
        after.cluster.nodes == before.cluster.nodes,
{
    let state = before.cluster.nodes@[i as int].replica((topic, partition))->0;
    client::law_proposals_go_behind_the_log(state);
}

/// A topic is created or deleted by a command proposed to the leader of the metadata
/// group, which says exactly that.
pub proof fn law_topics_are_changed_by_command<M>(
    before: SimRuntime<M>,
    after: SimRuntime<M>,
    action: Action<M>,
    op: ClientOperationView,
    i: usize,
)
    requires
        before.issues(after, action, op),
        op is CreateTopic || op is DeleteTopic,
        client::resolution(before.cluster, ("__meta"@, PartitionIndex(0)))
            == LeaderResolution::Leader(i),
    ensures
        action is Propose,
        action->Propose_index == i,
        action->Propose_group@ == ("__meta"@, PartitionIndex(0)),
        action->op.group@ == ("__meta"@, PartitionIndex(0)),
        action->payload.kind is Cluster,
        action->op.expected@ == action->payload.bytes@,
        action->op.invoked_at.0 == before.scheduler.time().0,
        op matches ClientOperationView::DeleteTopic { name } ==> {
            &&& action->payload.bytes@ == codec::encoded(CommandView::DeleteTopic { name })
            &&& action->op.kind@ == client::PendingKindView::DeleteTopic { name }
            &&& action->op.args@ == OpArgsView::DeleteTopic { topic: name }
        },
        op matches ClientOperationView::CreateTopic { name, partition_count, replication_factor }
            ==> {
            let command = client::create_command(before.cluster.topology, name, partition_count);
            &&& action->payload.bytes@ == codec::encoded(command)
            &&& action->op.kind@ == client::PendingKindView::CreateTopic { name }
            &&& action->op.args@ is CreateTopic
            &&& action->op.args@->CreateTopic_topic == name
            &&& action->op.args@->partitions == partition_count
        },
        after.history == before.history,
{
}

/// An operation that finds no leader is answered at once, as it was asked: that the
/// redirects did not end where those were used up, and that there is no leader otherwise.
pub proof fn law_operations_without_a_leader_are_refused<M>(
    before: SimRuntime<M>,
    after: SimRuntime<M>,
    action: Action<M>,
    op: ClientOperationView,
    g: GroupView,
)
    requires
        before.issues(after, action, op),
        g == match op {
            ClientOperationView::Produce { topic, partition, .. } => (topic, partition),
            ClientOperationView::Consume { topic, partition, .. } => (topic, partition),
            _ => ("__meta"@, PartitionIndex(0)),
        },
        !(client::resolution(before.cluster, g) is Leader),
    ensures
        action is Idle,
        after == (SimRuntime { history: after.history, ..before }),
        after.history.ops@.len() == before.history.ops@.len() + 1,
        after.history.ops@.drop_last() == before.history.ops@,
        ({
            let seen = after.history.ops@.last()@;
            &&& seen.invoked_at.0 == before.scheduler.time().0
            &&& seen.responded_at.0 == before.scheduler.time().0
            &&& client::resolution(before.cluster, g) is Exhausted
                ==> seen.response is UnresolvedRedirection
            &&& client::resolution(before.cluster, g) is NoLeader ==> seen.response is NoLeader
            &&& match op {
                ClientOperationView::Produce { topic, partition, key, value } => {
                    &&& seen.kind is Produce && seen.args is Produce
                    &&& seen.args->Produce_topic == topic && seen.args->Produce_partition
                        == partition && seen.args->Produce_key == key && seen.args->Produce_value
                        == value
                },
                ClientOperationView::Consume { topic, partition, start_offset, max_records } => {
                    &&& seen.kind is Consume && seen.args is Consume
                    &&& seen.args->Consume_topic == topic && seen.args->Consume_partition
                        == partition && seen.args->start_offset == start_offset
                        && seen.args->max_records == max_records
                },
                ClientOperationView::CreateTopic { name, partition_count, .. } => {
                    &&& seen.kind is CreateTopic && seen.args is CreateTopic
                    &&& seen.args->CreateTopic_topic == name && seen.args->partitions
                        == partition_count
                },
                ClientOperationView::DeleteTopic { name } => {
                    &&& seen.kind is DeleteTopic && seen.args is DeleteTopic
                    &&& seen.args->DeleteTopic_topic == name
                },
            }
        }),
{
}

/// The client operation of an event is the one of the workload with that number.
pub proof fn law_client_events_issue_their_operation<M>(
    before: SimRuntime<M>,
    after: SimRuntime<M>,
    action: Action<M>,
    seq: u64,
)
    requires
        before.dispatched_to(
            after,
            action,
            Event::ClientOp(crate::scheduler::ClientOp { seq }),
        ),
    ensures
        seq < before.workload.ops@.len() ==> before.issues(
            after,
            action,
            before.workload.ops@[seq as int]@,
        ),
        seq >= before.workload.ops@.len() ==> action is Idle && after == before,
{
}

/// A timer of the current generation ticks the replica it was armed for, and a message is
/// given to the replica it is addressed to, where the node runs and holds the group; that
/// replica is made the active one, and every clock is set to now.
pub proof fn law_events_reach_their_replica<M>(
    before: SimRuntime<M>,
    after: SimRuntime<M>,
    action: Action<M>,
    event: Event<M>,
    i: int,
    group: GroupKey,
    input: ReplicaInput<M>,
)
    requires
        before.wf(),
        before.dispatched_to(after, action, event),
        0 <= i < before.cluster.nodes@.len(),
        before.cluster.nodes@[i].running,
        before.cluster.nodes@[i].replica(group@) is Some,
        match event {
            Event::TimerFire { node, group: g, kind, generation } => {
                &&& node.0@ == before.cluster.nodes@[i].id.0@
                &&& g == group
                &&& before.cluster.clock.generation(((node.0@, g@), kind)) == generation
                &&& input == ReplicaInput::<M>::Tick(kind)
            },
            Event::MessageDeliver(e) => {
                &&& e.to.0@ == before.cluster.nodes@[i].id.0@
                &&& e.group == group
                &&& input == ReplicaInput::<M>::Message(e.msg)
            },
            _ => false,
        },
    ensures
        action == (Action::Step { index: i as usize, group, input }),
        after.cluster.clock.active == Some((before.cluster.nodes@[i].id, group)),
        after.cluster.clock.now == before.scheduler.time(),
        after.cluster.network.now == before.scheduler.time(),
        after.cluster.nodes == before.cluster.nodes,
        after.history == before.history,
        after.pending == before.pending,
        after.scheduler == before.scheduler,
{
    let name = before.cluster.nodes@[i].id.0@;
    lemma_index_named(before.cluster, i, name);
}

proof fn lemma_index_named<M>(cluster: SimulatedCluster<M>, i: int, name: Seq<char>)
    requires
        cluster.wf(),
        0 <= i < cluster.nodes@.len(),
        cluster.nodes@[i].id.0@ == name,
    ensures
        crate::model::names(cluster.topology.nodes@, name),
        cluster.topology.index_named(name) == i,
{
    let t = cluster.topology;
    assert(t.nodes@[i]@ == name);
    let j = t.index_named(name);
    assert(0 <= j < t.nodes@.len() && t.nodes@[j]@ == name);
    topology::law_node_names_are_distinct(i as nat, j as nat);
}

/// What an event for a node or a replica that is not there comes to: nothing.
pub proof fn law_events_for_no_replica_come_to_nothing<M>(
    before: SimRuntime<M>,
    after: SimRuntime<M>,
    action: Action<M>,
    event: Event<M>,
    name: Seq<char>,
    g: GroupView,
)
    requires
        before.wf(),
        before.dispatched_to(after, action, event),
        match event {
            Event::TimerFire { node, group, .. } => node.0@ == name && group@ == g,
            Event::MessageDeliver(e) => e.to.0@ == name && e.group@ == g,
            _ => false,
        },
        forall|i: int|
            0 <= i < before.cluster.nodes@.len() && (#[trigger] before.cluster.nodes@[i]).id.0@
                == name ==> !(before.cluster.nodes@[i].running && before.cluster.nodes@[i].replica(
                g,
            ) is Some),
    ensures
        action is Idle,
        after.cluster.nodes == before.cluster.nodes,
        after.history == before.history,
        after.pending == before.pending,
        after.scheduler == before.scheduler,
{
    if crate::model::names(before.cluster.topology.nodes@, name) {
        let i = before.cluster.topology.index_named(name);
        assert(before.cluster.topology.nodes@[i]@ == name);
        assert(before.cluster.nodes@[i].id.0@ == name);
    }
}

/// A crash takes down the nodes it names and no other; a partition cuts its two sides from
/// each other until it is healed by its own number; a restart is left to be done outside.
pub proof fn law_faults_do_what_they_say<M>(
    before: SimRuntime<M>,
    after: SimRuntime<M>,
    action: Action<M>,
    event: Event<M>,
    i: int,
    other: HealId,
)
    requires
        before.dispatched_to(after, action, event),
        0 <= i < before.cluster.nodes@.len(),
    ensures
        event matches Event::FaultApply(Fault::Crash { nodes }) ==> {
            let hit = exists|j: int| 0 <= j < nodes@.len() && #[trigger] nodes@[j] == i;
            &&& action is Idle
            &&& after.cluster.nodes@[i].running <==> before.cluster.nodes@[i].running && !hit
            &&& !hit ==> after.cluster.nodes@[i] == before.cluster.nodes@[i]
            &&& after.cluster.network.cuts == before.cluster.network.cuts
        },
        event matches Event::FaultApply(Fault::Restart { nodes }) ==> action == (
        Action::<M>::Restart { nodes }) && after == before,
        event matches Event::FaultApply(Fault::Partition { id, side_a, side_b }) ==> {
            let cuts = after.cluster.network.cuts@;
            &&& action is Idle
            &&& cuts.contains_key(id)
            &&& cuts[id] == (Cut::Partition {
                side_a,
                side_b,
                direction: PartitionDirection::Symmetric,
            })
            &&& other != id ==> cuts.contains_key(other)
                == before.cluster.network.cuts@.contains_key(other)
            &&& after.cluster.nodes == before.cluster.nodes
        },
        event matches Event::FaultHeal(id) ==> {
            let cuts = after.cluster.network.cuts@;
            &&& action is Idle
            &&& !cuts.contains_key(id)
            &&& other != id ==> cuts.contains_key(other)
                == before.cluster.network.cuts@.contains_key(other)
            &&& after.cluster.nodes == before.cluster.nodes
        },
{
}

/// The checkers are told of each fault as it is: of a crash and a restart with the nodes,
/// of a partition that something struck, of a heal that something was healed, and of any
/// other event nothing.
pub proof fn law_checkers_are_told_of_faults<M>(event: Event<M>, note: FaultNote)
    requires
        drive::notes(event, note),
    ensures
        match event {
            Event::FaultApply(Fault::Crash { nodes }) => note is Crash && note->Crash_nodes@
                == nodes@,
            Event::FaultApply(Fault::Restart { nodes }) => note is Restart && note->Restart_nodes@
                == nodes@,
            Event::FaultApply(Fault::Partition { .. }) => note is Struck,
            Event::FaultHeal(id) => note is Healed,
            Event::TimerFire { .. } => note is Calm,
            Event::MessageDeliver(e) => note is Calm,
            Event::ClientOp(op) => note is Calm,
        },
{
}

/// The operations that stay pending are those that no node has committed, in their order.
pub proof fn law_uncommitted_operations_stay_pending(
    nodes: Seq<SimNode>,
    ops: Seq<Pending>,
    now: VirtualInstant,
    n: nat,
)
    requires
        n <= ops.len(),
    ensures
        runtime::still_pending(nodes, ops, now, n) == ops.take(n as int).filter(
            |p: Pending| client::committed_at(nodes, p.group@, p.target) is None,
        ),
    decreases n,
{
    reveal(Seq::filter);
    if n > 0 {
        law_uncommitted_operations_stay_pending(nodes, ops, now, (n - 1) as nat);
        assert(ops.take(n as int).drop_last() =~= ops.take(n - 1));
        assert(ops.take(n as int).last() == ops[n - 1]);
    }
}

/// The others are answered, each once and in their order. The result tells for each
/// answer the place of its operation.
pub proof fn law_committed_operations_are_answered(
    nodes: Seq<SimNode>,
    ops: Seq<Pending>,
    now: VirtualInstant,
    n: nat,
) -> (places: Seq<int>)
    requires
        n <= ops.len(),
    ensures
        places.len() == runtime::settled(nodes, ops, now, n).len(),
        forall|k: int| 0 <= k < places.len() ==> 0 <= #[trigger] places[k] < n,
        forall|j: int, k: int|
            0 <= j < k < places.len() ==> #[trigger] places[j] < #[trigger] places[k],
        forall|k: int|
            0 <= k < places.len() ==> {
                let p = ops[#[trigger] places[k]];
                let op = runtime::settled(nodes, ops, now, n)[k];
                &&& client::committed_at(nodes, p.group@, p.target) is Some
                &&& op.args == p.args@
                &&& op.invoked_at == p.invoked_at
                &&& op.responded_at == now
                &&& op.response == client::answer_to(
                    nodes,
                    p,
                    client::committed_at(nodes, p.group@, p.target)->0,
                )
            },
        forall|i: int|
            0 <= i < n && client::committed_at(
                nodes,
                (#[trigger] ops[i]).group@,
                ops[i].target,
            ) is Some ==> places.contains(i),
    decreases n,
{
    if n == 0 {
        Seq::empty()
    } else {
        let m = n - 1;
        let rest = law_committed_operations_are_answered(nodes, ops, now, m as nat);
        let p = ops[m];
        if client::committed_at(nodes, p.group@, p.target) is Some {
            let places = rest.push(m);
            assert(places[rest.len() as int] == m);
            assert forall|i: int|
                0 <= i < n && client::committed_at(
                    nodes,
                    (#[trigger] ops[i]).group@,
                    ops[i].target,
                ) is Some implies places.contains(i) by {
                if i < m {
                    let k = choose|k: int| 0 <= k < rest.len() && rest[k] == i;
                    assert(places[k] == i);
                }
            }
            places
        } else {
            rest
        }
    }
}

/// What is still pending at the end is recorded as it was asked, with the answer that it
/// did not commit within the run.
pub proof fn law_the_rest_is_abandoned(ops: Seq<Pending>, now: VirtualInstant, i: int)
    requires
        0 <= i < ops.len(),
    ensures
        runtime::all_abandoned(ops, now).len() == ops.len(),
        ({
            let op = runtime::all_abandoned(ops, now)[i];
            &&& op.args == ops[i].args@
            &&& op.invoked_at == ops[i].invoked_at
            &&& op.responded_at == now
            &&& op.response is Error
            &&& op.response->Error_message == "operation did not commit within the run budget"@
        }),
{
}

/// Of the entries that a metadata replica commits, the cluster commands are carried out,
/// each as it was encoded and in the order of the log; of those that any other replica
/// commits, none is. The topics that they delete are noted.
pub proof fn law_committed_commands_are_carried_out(
    group: GroupView,
    committed: Seq<LogEntry>,
    n: nat,
) -> (places: Seq<int>)
    requires
        n <= committed.len(),
    ensures
        !(group.0 == "__meta"@ && group.1.0 == 0) ==> output::committed_in(
            group,
            committed,
        ).len() == 0,
        group.0 == "__meta"@ && group.1.0 == 0 ==> output::committed_in(group, committed)
            == output::commands_in(committed, committed.len()),
        places.len() == output::commands_in(committed, n).len(),
        forall|k: int| 0 <= k < places.len() ==> 0 <= #[trigger] places[k] < n,
        forall|j: int, k: int|
            0 <= j < k < places.len() ==> #[trigger] places[j] < #[trigger] places[k],
        forall|k: int|
            0 <= k < places.len() ==> {
                let e = committed[#[trigger] places[k]];
                &&& e.payload.kind is Cluster
                &&& codec::parsed(e.payload.bytes@) is Some ==> codec::parsed(e.payload.bytes@)
                    == Some(output::commands_in(committed, n)[k])
            },
        forall|i: int|
            0 <= i < n && (#[trigger] committed[i]).payload.kind is Cluster ==> places.contains(i),
    decreases n,
{
    if n == 0 {
        Seq::empty()
    } else {
        let m = n - 1;
        let rest = law_committed_commands_are_carried_out(group, committed, m as nat);
        if committed[m].payload.kind is Cluster {
            let places = rest.push(m);
            assert(places[rest.len() as int] == m);
            assert forall|i: int|
                0 <= i < n && (
                #[trigger] committed[i]).payload.kind is Cluster implies places.contains(i) by {
                if i < m {
                    let k = choose|k: int| 0 <= k < rest.len() && rest[k] == i;
                    assert(places[k] == i);
                }
            }
            places
        } else {
            rest
        }
    }
}

/// A topic is noted as deleted exactly where a command deletes it.
pub proof fn law_deletions_are_noted(commands: Seq<CommandView>, name: Seq<char>)
    ensures
        output::deletions(commands).contains(name) <==> commands.contains(
            CommandView::DeleteTopic { name },
        ),
    decreases commands.len(),
{
    if commands.len() > 0 {
        let fore = commands.drop_last();
        let last = commands.last();
        let rest = output::deletions(fore);
        let all = output::deletions(commands);
        let command = CommandView::DeleteTopic { name };
        law_deletions_are_noted(fore, name);
        if fore.contains(command) {
            let i = choose|i: int| 0 <= i < fore.len() && fore[i] == command;
            assert(commands[i] == command);
        }
        if rest.contains(name) {
            let k = choose|k: int| 0 <= k < rest.len() && rest[k] == name;
            assert(all[k] == name);
        }
        if last == command {
            assert(commands[commands.len() - 1] == command);
            assert(all[rest.len() as int] == name);
        }
        if commands.contains(command) && last != command {
            let i = choose|i: int| 0 <= i < commands.len() && commands[i] == command;
            assert(fore[i] == command);
        }
        if all.contains(name) && !rest.contains(name) {
            let k = choose|k: int| 0 <= k < all.len() && all[k] == name;
            if k < rest.len() {
                assert(rest[k] == name);
            }
            assert(last == command);
            assert(commands[commands.len() - 1] == command);
        }
    }
}

/// Timers are scheduled to fire when they are armed for, and messages to be delivered when
/// they arrive, each as it is.
pub proof fn law_timers_and_messages_become_events<M>(
    armed: Seq<ArmedTimer>,
    pending: Seq<(VirtualInstant, Envelope<M>)>,
    i: int,
)
    ensures
        runtime::timer_items::<M>(armed).len() == armed.len(),
        0 <= i < armed.len() ==> {
            let item = runtime::timer_items::<M>(armed)[i];
            &&& item.0.0 == armed[i].at.0
            &&& item.1 is TimerFire
            &&& item.1->TimerFire_node == armed[i].node
            &&& item.1->TimerFire_group == armed[i].group
            &&& item.1->TimerFire_kind == armed[i].kind
            &&& item.1->TimerFire_generation == armed[i].generation
        },
        runtime::delivery_items(pending).len() == pending.len(),
        0 <= i < pending.len() ==> {
            let item = runtime::delivery_items(pending)[i];
            &&& item.0.0 == pending[i].0.0
            &&& item.1 is MessageDeliver
            &&& item.1->MessageDeliver_0 == pending[i].1
        },
{
}

/// A replica sends to the other members of its group, each by its number, and a message
/// carries where it comes from, where it goes and what it says.
pub proof fn law_replicas_send_to_their_peers<M>(
    cluster: SimulatedCluster<M>,
    i: int,
    g: GroupView,
    to: RaftNodeId,
    msg: M,
)
    requires
        cluster.wf(),
        cluster.sender(i, g) is Some,
    ensures
        ({
            let t = cluster.sender(i, g)->0;
            let set = cluster.topology.set_of(g);
            &&& t.from == cluster.nodes@[i].id
            &&& t.group@ == g
            &&& t.peers@.contains_key(to) <==> {
                &&& set is Some
                &&& to.0 < cluster.nodes@.len()
                &&& to.0 != i
                &&& exists|k: int|
                    0 <= k < (set->0).len() && (#[trigger] (set->0)[k]).0@
                        == cluster.nodes@[to.0 as int].id.0@
            }
            &&& t.peers@.contains_key(to) ==> {
                let e = t.addressed(to, msg);
                &&& e.from == cluster.nodes@[i].id
                &&& e.to == cluster.nodes@[to.0 as int].id
                &&& e.to_raft == to
                &&& e.group@ == g
                &&& e.msg == msg
            }
        }),
{
    let t = cluster.sender(i, g)->0;
    let top = cluster.topology;
    assert(cluster.nodes@[i].wf(top));
    assert(cluster.nodes@[i].id == top.nodes@[i]);
    assert(crate::cluster::is_transport(t, cluster.nodes@[i].id, g, top));
    if to.0 < top.nodes@.len() {
        assert(cluster.nodes@[to.0 as int].wf(top));
        assert(cluster.nodes@[to.0 as int].id == top.nodes@[to.0 as int]);
        if top.nodes@[to.0 as int]@ == top.nodes@[i]@ {
            topology::law_node_names_are_distinct(i as nat, to.0 as nat);
        }
        if top.set_of(g) is Some {
            let set = top.set_of(g)->0;
            let name = top.nodes@[to.0 as int]@;
            if crate::model::names(set, name) {
                let k = choose|k: int| 0 <= k < set.len() && #[trigger] set[k]@ == name;
                assert(set[k].0@ == name);
            }
            if exists|k: int| 0 <= k < set.len() && (#[trigger] set[k]).0@ == name {
                let k = choose|k: int| 0 <= k < set.len() && (#[trigger] set[k]).0@ == name;
                assert(set[k]@ == name);
            }
        }
    }
}

/// Nodes are named by number, and the replicas of a partition stand on as many nodes as
/// asked for, one after the other from the node of the partition's own number on, around.
pub proof fn law_replicas_go_around(topology: Topology, p: int, k: int)
    requires
        topology.wf(),
        0 <= p < topology.partitions,
        0 <= k < topology.replication,
    ensures
        topology.replica_sets@[p]@.len() == topology.replication,
        topology.replica_sets@[p]@[k].0@ == "node-"@ + crate::text::decimal(
            ((p + k) % (topology.nodes@.len() as int)) as nat,
        ),
{
    let set = topology.replica_sets@[p]@;
    assert(topology.is_set_of(set, p));
    let n = topology.nodes@.len() as int;
    assert(0 <= (p + k) % n < n) by {
        vstd::arithmetic::div_mod::lemma_mod_bound(p + k, n);
    }
    assert(set[k] == topology.nodes@[(p + k) % n]);
    assert(topology.nodes@[(p + k) % n]@ == topology::node_name(((p + k) % n) as nat));
}

/// The set of a group: every node for the metadata group, and for a partition of a topic
/// the replica set of its number, where there is one.
pub proof fn law_groups_have_their_sets(topology: Topology, g: GroupView)
    ensures
        g.0 == "__meta"@ && g.1.0 == 0 ==> topology.set_of(g) == Some(topology.nodes@),
        !(g.0 == "__meta"@ && g.1.0 == 0) && g.1.0 < topology.partitions ==> topology.set_of(g)
            == Some(topology.replica_sets@[g.1.0 as int]@),
        !(g.0 == "__meta"@ && g.1.0 == 0) && g.1.0 >= topology.partitions ==> topology.set_of(
            g,
        ) is None,
{
}

/// The operations of a workload are issued one by one, the first 400 milliseconds into the
/// run and the others 20 milliseconds apart.
pub proof fn law_operations_are_issued_in_turn<M>(n: nat, i: int)
    requires
        0 <= i < n,
        400_000_000 + n * 20_000_000 <= u64::MAX,
    ensures
        timeline::op_items::<M>(n).len() == n,
        timeline::op_items::<M>(n)[i].0.0 == 400_000_000 + i * 20_000_000,
        timeline::op_items::<M>(n)[i].1 is ClientOp,
        timeline::op_items::<M>(n)[i].1->ClientOp_0.seq == i,
{
}

/// The faults of a run. There are none unless three nodes run and every partition has
/// three replicas. Where crashes are on, one node, the next word modulo their number, goes
/// down after one second and comes back after two. Where partitions are on, one node, by
/// the word after, is cut off from all others after three seconds, until after four.
pub proof fn law_the_fault_plan<M>(
    items: Seq<Item<M>>,
    topology: Topology,
    params: ScenarioParameters,
    faults: SplitMix64,
)
    requires
        timeline::is_fault_plan(items, topology, params, faults),
    ensures
        ({
            let n = topology.nodes@.len();
            let able = n >= 3 && topology.replication >= 3;
            let crash = able && params.faults.crash_prob.ticks > 0;
            let cut = able && params.faults.partition_prob.ticks > 0;
            let first = if crash {
                2int
            } else {
                0int
            };
            let next = if crash {
                faults.advanced()
            } else {
                faults
            };
            &&& items.len() == first + if cut {
                2int
            } else {
                0int
            }
            &&& crash ==> {
                let victim = (faults.word() as int) % (n as int);
                &&& items[0].0.0 == 1_000_000_000
                &&& items[0].1 matches Event::FaultApply(Fault::Crash { nodes }) && nodes@.len()
                    == 1 && nodes@[0] == victim
                &&& items[1].0.0 == 2_000_000_000
                &&& items[1].1 matches Event::FaultApply(Fault::Restart { nodes }) && nodes@.len()
                    == 1 && nodes@[0] == victim
            }
            &&& cut ==> {
                let victim = (next.word() as int) % (n as int);
                &&& items[first].0.0 == 3_000_000_000
                &&& items[first].1 matches Event::FaultApply(
                    Fault::Partition { id, side_a, side_b },
                ) && id.0 == 1 && side_a@.len() == 1 && side_a@[0] == topology.nodes@[victim]
                    && side_b@ == topology.nodes@.remove(victim)
                &&& items[first + 1].0.0 == 4_000_000_000
                &&& items[first + 1].1 matches Event::FaultHeal(id) && id.0 == 1
            }
        }),
{
    let n = topology.nodes@.len() as int;
    assert(topology.nodes.len() == n);
    if timeline::can_lose_a_node(topology) {
        let first = timeline::crash_count(params);
        assert(0 <= (faults.word() as int) % n < n);
        assert(0 <= (faults.advanced().word() as int) % n < n);
        if params.faults.partition_prob.ticks > 0 {
            let rest = items.skip(first);
            assert(rest[0] == items[first]);
            assert(rest[1] == items[first + 1]);
        }
    }
}

/// A replica keeps its mark only while its node, if it runs, holds it.
pub proof fn law_marks_go_with_their_replica(
    nodes: Seq<SimNode>,
    seeded: Map<(Seq<char>, GroupView), ()>,
    name: Seq<char>,
    g: GroupView,
)
    ensures
        timeline::pruned(nodes, seeded).contains_key((name, g)) <==> seeded.contains_key((name, g))
            && !(exists|i: int|
            0 <= i < nodes.len() && (#[trigger] nodes[i]).running && nodes[i].id.0@ == name
                && nodes[i].replica(g) is None),
{
    if timeline::unhosted(nodes, (name, g)) {
        let i = choose|i: int|
            0 <= i < nodes.len() && (#[trigger] nodes[i]).running && nodes[i].id@ == name
                && !nodes[i].hosts(g);
        assert(nodes[i].id.0@ == name && nodes[i].replica(g) is None);
    }
    if exists|i: int|
        0 <= i < nodes.len() && (#[trigger] nodes[i]).running && nodes[i].id.0@ == name
            && nodes[i].replica(g) is None {
        let i = choose|i: int|
            0 <= i < nodes.len() && (#[trigger] nodes[i]).running && nodes[i].id.0@ == name
                && nodes[i].replica(g) is None;
        assert(nodes[i].id@ == name && !nodes[i].hosts(g));
    }
}

/// First election timers wait 150 milliseconds and as much again at most, by one word each
/// of the election stream in turn; each is of its replica's next generation.
pub proof fn law_first_election_timers(
    clock: crate::clock::SimClock,
    nodes: Seq<SimNode>,
    list: Seq<timeline::Replica>,
    k: int,
)
    requires
        0 <= k < list.len(),
        clock.generation(
            ((nodes[list[k].0 as int].id.0@, list[k].1@), TimerKind::Election),
        ) < u64::MAX,
    ensures
        ({
            let r = timeline::seed_request(clock, nodes, list, k);
            &&& r.node == nodes[list[k].0 as int].id
            &&& r.group == list[k].1
            &&& r.kind is Election
            &&& r.generation == clock.generation(
                ((nodes[list[k].0 as int].id.0@, list[k].1@), TimerKind::Election),
            ) + 1
            &&& r.delay.0 == 150_000_000 + (clock.election.advanced_by(k as nat).word() as int)
                % 150_000_000
        }),
{
    crate::clock::law_election_timers_are_jittered(
        150_000_000,
        clock.election.advanced_by(k as nat),
    );
}

/// After each event roles, terms and commit indices are checked, and after every two
/// thousandth the logs: what passes has passed those, and a failure on the logs comes only
/// then.
pub proof fn law_logs_are_checked_at_intervals<M>(
    cluster: SimulatedCluster<M>,
    now: VirtualInstant,
    fired: u64,
    leaders: LeaderMap,
    commits: CommitMap,
    windows: WindowMap,
    after: Checkers,
    r: Result<(), Violation>,
)
    requires
        drive::checked_to(cluster, now, fired, leaders, commits, windows, after, r),
    ensures
        r is Ok ==> raft_safety::observed_to(
            leaders,
            commits,
            raft_safety::nodes_seen(cluster.nodes@, false),
            after.raft_safety,
            Ok::<(), Violation>(()),
            now,
        ),
        r is Ok ==> liveness::looked_at(windows, after.liveness.windows@, cluster, now),
        r is Ok && fired % 2_000 == 0 ==> raft_safety::logs_verdict(
            raft_safety::nodes_seen(cluster.nodes@, true),
            Ok::<(), Violation>(()),
            now,
        ),
        r matches Err(v) ==> {
            ||| raft_safety::observed_to(
                leaders,
                commits,
                raft_safety::nodes_seen(cluster.nodes@, false),
                after.raft_safety,
                Err::<(), Violation>(v),
                now,
            )
            ||| fired % 2_000 == 0 && raft_safety::logs_verdict(
                raft_safety::nodes_seen(cluster.nodes@, true),
                Err::<(), Violation>(v),
                now,
            )
        },
{
    let seen = choose|seen: Result<(), Violation>| #[trigger]
        raft_safety::observed_to(
            leaders,
            commits,
            raft_safety::nodes_seen(cluster.nodes@, false),
            after.raft_safety,
            seen,
            now,
        ) && match seen {
            Err(v) => r == Err::<(), Violation>(v) && after.liveness.windows@ == windows,
            Ok(ok) => {
                &&& liveness::looked_at(windows, after.liveness.windows@, cluster, now)
                &&& if fired % crate::runtime::CHECK_LOGS_INTERVAL == 0 {
                    raft_safety::logs_verdict(
                        raft_safety::nodes_seen(cluster.nodes@, true),
                        r,
                        now,
                    )
                } else {
                    r is Ok
                }
            },
        };
    match seen {
        Ok(ok) => {
            assert(seen == Ok::<(), Violation>(()));
            match r {
                Ok(done) => {
                    assert(r == Ok::<(), Violation>(()));
                },
                Err(v) => {},
            }
        },
        Err(v) => {},
    }
}

/// How a run ends. It has passed exactly where the logs, the clients' view and the
/// liveness of the groups all pass; otherwise it has failed by the first of them that does
/// not, with what that reports.
pub proof fn law_a_run_ends_as_its_checks_do<M>(
    cluster: SimulatedCluster<M>,
    ops: Seq<RecordedOp>,
    windows: WindowMap,
    allowance: VirtualDuration,
    now: VirtualInstant,
    outcome: Outcome,
)
    requires
        drive::concluded(cluster, ops, windows, allowance, now, outcome),
    ensures
        ({
            let obs = raft_safety::nodes_seen(cluster.nodes@, true);
            let passed = Ok::<(), Violation>(());
            match outcome {
                Outcome::Passed => {
                    &&& raft_safety::logs_verdict(obs, passed, now)
                    &&& kafka_parity::parity_verdict(cluster.nodes@, ops, passed, now)
                    &&& liveness::liveness_verdict(windows, allowance, passed, now)
                },
                Outcome::Failed { property, at, detail } => {
                    let v = Violation { property, at, detail };
                    let broken = Err::<(), Violation>(v);
                    ||| raft_safety::logs_verdict(obs, broken, now)
                    ||| raft_safety::logs_verdict(obs, passed, now) && kafka_parity::parity_verdict(
                        cluster.nodes@,
                        ops,
                        broken,
                        now,
                    )
                    ||| raft_safety::logs_verdict(obs, passed, now) && kafka_parity::parity_verdict(
                        cluster.nodes@,
                        ops,
                        passed,
                        now,
                    ) && liveness::liveness_verdict(windows, allowance, broken, now)
                },
                Outcome::Invalid { detail } => false,
            }
        }),
{
    let obs = raft_safety::nodes_seen(cluster.nodes@, true);
    let logs = choose|logs: Result<(), Violation>| #[trigger]
        raft_safety::logs_verdict(obs, logs, now) && match logs {
            Err(v) => outcome == drive::failed(v),
            Ok(ok) => exists|parity: Result<(), Violation>| #[trigger]
                kafka_parity::parity_verdict(cluster.nodes@, ops, parity, now) && match parity {
                    Err(v) => outcome == drive::failed(v),
                    Ok(ok) => exists|live: Result<(), Violation>| #[trigger]
                        liveness::liveness_verdict(windows, allowance, live, now) && match live {
                            Err(v) => outcome == drive::failed(v),
                            Ok(ok) => outcome == Outcome::Passed,
                        },
                },
        };
    match logs {
        Err(v) => {
            assert(outcome->Failed_property == v.property);
            assert(logs == Err::<(), Violation>(v));
        },
        Ok(ok) => {
            assert(logs == Ok::<(), Violation>(()));
            let parity = choose|parity: Result<(), Violation>| #[trigger]
                kafka_parity::parity_verdict(cluster.nodes@, ops, parity, now) && match parity {
                    Err(v) => outcome == drive::failed(v),
                    Ok(ok) => exists|live: Result<(), Violation>| #[trigger]
                        liveness::liveness_verdict(windows, allowance, live, now) && match live {
                            Err(v) => outcome == drive::failed(v),
                            Ok(ok) => outcome == Outcome::Passed,
                        },
                };
            match parity {
                Err(v) => {
                    assert(parity == Err::<(), Violation>(v));
                },
                Ok(ok) => {
                    assert(parity == Ok::<(), Violation>(()));
                    let live = choose|live: Result<(), Violation>| #[trigger]
                        liveness::liveness_verdict(windows, allowance, live, now) && match live {
                            Err(v) => outcome == drive::failed(v),
                            Ok(ok) => outcome == Outcome::Passed,
                        };
                    match live {
                        Err(v) => {
                            assert(live == Err::<(), Violation>(v));
                        },
                        Ok(ok) => {
                            assert(live == Ok::<(), Violation>(()));
                        },
                    }
                },
            }
        },
    }
}

/// What a crash and a deletion make the checkers forget: of a crashed node what it had
/// committed, of a deleted topic's partitions its leaders and what was committed of them;
/// and nothing else.
pub proof fn law_what_the_checkers_forget(
    leaders: LeaderMap,
    commits: CommitMap,
    nodes: Seq<SimNode>,
    note: FaultNote,
    deleted: Seq<Seq<char>>,
    partitions: u32,
    g: GroupView,
    term: u64,
    name: Seq<char>,
)
    ensures
        ({
            let gone = deleted.contains(g.0) && g.1.0 < partitions;
            let crashed = note is Crash && exists|j: int|
                0 <= j < note->Crash_nodes@.len() && #[trigger] note->Crash_nodes@[j] < nodes.len()
                    && nodes[note->Crash_nodes@[j] as int].id.0@ == name;
            let kept = drive::commits_kept(commits, nodes, note, deleted, partitions);
            let led = drive::leaders_kept(leaders, deleted, partitions);
            &&& led.contains_key((g, term)) <==> leaders.contains_key((g, term)) && !gone
            &&& led.contains_key((g, term)) ==> led[(g, term)] == leaders[(g, term)]
            &&& kept.contains_key((g, name)) <==> commits.contains_key((g, name)) && !gone
                && !crashed
            &&& kept.contains_key((g, name)) ==> kept[(g, name)] == commits[(g, name)]
        }),
{
    if drive::crashed_by(nodes, note, name) {
        let indices = note->Crash_nodes@;
        let j = choose|j: int|
            0 <= j < indices.len() && #[trigger] indices[j] < nodes.len()
                && nodes[indices[j] as int].id@ == name;
        assert(note->Crash_nodes@[j] < nodes.len());
    }
    if note is Crash && exists|j: int|
        0 <= j < note->Crash_nodes@.len() && #[trigger] note->Crash_nodes@[j] < nodes.len()
            && nodes[note->Crash_nodes@[j] as int].id.0@ == name {
        let indices = note->Crash_nodes@;
        let j = choose|j: int|
            0 <= j < note->Crash_nodes@.len() && #[trigger] note->Crash_nodes@[j] < nodes.len()
                && nodes[note->Crash_nodes@[j] as int].id.0@ == name;
        assert(indices[j] < nodes.len() && nodes[indices[j] as int].id@ == name);
    }
}

/// A fault of any kind closes every window of the liveness checker; any other event leaves
/// them as they are.
pub proof fn law_only_faults_close_windows(before: WindowMap, after: WindowMap, note: FaultNote)
    requires
        drive::windows_noted(before, after, note),
    ensures
        note is Calm ==> after == before,
        !(note is Calm) ==> forall|g: GroupView| #[trigger]
            after.contains_key(g) ==> before.contains_key(g) && after[g].since is None,
{
}

/// A restart takes the marks of its nodes' replicas, so that they are armed anew; no other
/// event takes any.
pub proof fn law_restarts_take_the_marks(
    nodes: Seq<SimNode>,
    seeded: Map<(Seq<char>, GroupView), ()>,
    note: FaultNote,
    name: Seq<char>,
    g: GroupView,
)
    ensures
        ({
            let restarted = note is Restart && exists|j: int|
                0 <= j < note->Restart_nodes@.len() && #[trigger] note->Restart_nodes@[j]
                    < nodes.len() && nodes[note->Restart_nodes@[j] as int].id.0@ == name;
            drive::markers_kept(nodes, seeded, note).contains_key((name, g))
                <==> seeded.contains_key((name, g)) && !restarted
        }),
{
    if note is Restart {
        let indices = note->Restart_nodes@;
        if timeline::named_at(nodes, indices, name) {
            let j = choose|j: int|
                0 <= j < indices.len() && #[trigger] indices[j] < nodes.len()
                    && nodes[indices[j] as int].id@ == name;
            assert(note->Restart_nodes@[j] < nodes.len());
        }
        if exists|j: int|
            0 <= j < note->Restart_nodes@.len() && #[trigger] note->Restart_nodes@[j]
                < nodes.len() && nodes[note->Restart_nodes@[j] as int].id.0@ == name {
            let j = choose|j: int|
                0 <= j < note->Restart_nodes@.len() && #[trigger] note->Restart_nodes@[j]
                    < nodes.len() && nodes[note->Restart_nodes@[j] as int].id.0@ == name;
            assert(indices[j] < nodes.len() && nodes[indices[j] as int].id@ == name);
        }
    }
}

/// A run has the budget of its scenario, but for the number of events where one is given.
pub proof fn law_the_budget_of_a_run(config: RunConfig, max_events: Option<u64>)
    ensures
        drive::budget_of(config, max_events).max_virtual_nanos
            == config.params.budget.max_virtual_nanos,
        max_events matches Some(n) ==> drive::budget_of(config, max_events).max_events == n,
        max_events is None ==> drive::budget_of(config, max_events).max_events
            == config.params.budget.max_events,
{
}

/// The checkers of a new run remember nothing, and allow a group five seconds.
pub proof fn law_new_checkers_remember_nothing(checkers: Checkers)
    requires
        checkers.is_new(),
    ensures
        forall|g: GroupView, term: u64|
            !(#[trigger] checkers.raft_safety.leaders_seen().contains_key((g, term))),
        forall|g: GroupView, name: Seq<char>|
            !(#[trigger] checkers.raft_safety.commits_seen().contains_key((g, name))),
        forall|g: GroupView| !(#[trigger] checkers.liveness.windows@.contains_key(g)),
        checkers.liveness.allowance.0 == 5 * 1_000_000_000,
{
}

/// A failed run says what was violated, when and how.
pub proof fn law_failures_say_what_was_violated(v: Violation)
    ensures
        drive::failed(v) is Failed,
        drive::failed(v)->Failed_property == v.property,
        drive::failed(v)->Failed_at.0 == v.at.0,
        drive::failed(v)->Failed_detail == v.detail,
{
}

/// The nodes that a list names and that run, or do not.
pub open spec fn named(nodes: Seq<SimNode>, indices: Seq<usize>, running: bool) -> Set<int> {
    Set::new(
        |i: int|
            0 <= i < nodes.len() && nodes[i].running == running && exists|j: int|
                0 <= j < indices.len() && #[trigger] indices[j] == i,
    )
}

/// A crash counts the running nodes that it names, each once, and a restart the others.
pub proof fn law_struck_nodes_are_counted_once(nodes: Seq<SimNode>, indices: Seq<usize>)
    ensures
        named(nodes, indices, true).finite(),
        named(nodes, indices, true).len() == crate::cluster::went_down(nodes, indices),
        named(nodes, indices, false).finite(),
        named(nodes, indices, false).len() == crate::cluster::came_back(nodes, indices),
    decreases indices.len(),
{
    if indices.len() == 0 {
        assert(named(nodes, indices, true) =~= Set::empty());
        assert(named(nodes, indices, false) =~= Set::empty());
    } else {
        let earlier = indices.drop_last();
        let x = indices.last() as int;
        law_struck_nodes_are_counted_once(nodes, earlier);
        lemma_named_step(nodes, indices, true);
        lemma_named_step(nodes, indices, false);
        let seen = crate::cluster::indexed(earlier, x);
        assert(seen <==> exists|j: int| 0 <= j < earlier.len() && #[trigger] earlier[j] == x);
    }
}

proof fn lemma_named_step(nodes: Seq<SimNode>, indices: Seq<usize>, running: bool)
    requires
        indices.len() > 0,
    ensures
        ({
            let x = indices.last() as int;
            let before = named(nodes, indices.drop_last(), running);
            named(nodes, indices, running) == if x < nodes.len() && nodes[x].running == running {
                before.insert(x)
            } else {
                before
            }
        }),
        ({
            let x = indices.last() as int;
            named(nodes, indices.drop_last(), running).contains(x) <==> x < nodes.len()
                && nodes[x].running == running && crate::cluster::indexed(indices.drop_last(), x)
        }),
{
    let earlier = indices.drop_last();
    let x = indices.last() as int;
    let n = indices.len() - 1;
    let before = named(nodes, earlier, running);
    let after = named(nodes, indices, running);
    assert forall|i: int| #[trigger] after.contains(i) implies before.contains(i) || i == x by {
        let j = choose|j: int| 0 <= j < indices.len() && #[trigger] indices[j] == i;
        if j < n {
            assert(earlier[j] == i);
        }
    }
    assert forall|i: int| #[trigger] before.contains(i) implies after.contains(i) by {
        let j = choose|j: int| 0 <= j < earlier.len() && #[trigger] earlier[j] == i;
        assert(indices[j] == i);
    }
    if x < nodes.len() && nodes[x].running == running {
        assert(indices[n] == x);
        assert(after.contains(x));
        assert(after =~= before.insert(x));
    } else {
        assert(after =~= before);
    }
}

/// Nodes are restarted one after the other: of each that is down, what was recovered for
/// it comes back, and one that runs is left as it is.
pub proof fn law_restarts_go_one_by_one<M>(
    chain: Seq<SimulatedCluster<M>>,
    recovered: Seq<(usize, crate::cluster::RecoveredNode)>,
    k: int,
)
    requires
        crate::cluster::restarts_chained(chain, recovered),
        0 <= k < recovered.len(),
    ensures
        chain.len() == recovered.len() + 1,
        ({
            let i = recovered[k].0 as int;
            let down = i < chain[k].nodes@.len() && !chain[k].nodes@[i].running;
            &&& down ==> chain[k].restarted_to(chain[k + 1], i, recovered[k].1)
            &&& !down ==> chain[k + 1] == chain[k]
        }),
{
    let before = chain[k];
}

/// A message to a peer is enqueued, addressed to it; one to any other number is not sent.
pub proof fn law_only_peers_are_sent_to<M: Clone>(
    before: crate::network::SimNetwork<M>,
    after: crate::network::SimNetwork<M>,
    t: SimTransport,
    to: RaftNodeId,
    msg: M,
)
    requires
        runtime::sent_one(before, after, t, to, msg),
    ensures
        t.peers@.contains_key(to) ==> before.enqueued_to(
            after,
            Envelope { from: t.from, to: t.peers@[to], to_raft: to, group: t.group, msg },
        ),
        !t.peers@.contains_key(to) ==> after == before,
{
}

/// What a step puts out is carried out. What it sends goes out from its own replica, or
/// nowhere where that is gone; every timer armed and every message under way is scheduled,
/// so that none is left; what was committed is answered, and the others stay pending; no
/// replica is active any more, and no node has changed.
pub proof fn law_output_is_carried_out<M: Clone>(
    before: SimRuntime<M>,
    after: SimRuntime<M>,
    index: int,
    group: GroupView,
    sends: Seq<(RaftNodeId, M)>,
)
    requires
        before.finished_to(after, index, group, sends),
    ensures
        after.cluster.clock.pending@.len() == 0,
        after.cluster.network.pending@.len() == 0,
        after.cluster.clock.active is None,
        after.cluster.nodes == before.cluster.nodes,
        after.workload == before.workload,
        after.seeded == before.seeded,
        after.scheduler.time() == before.scheduler.time(),
        after.scheduler.fired() == before.scheduler.fired(),
        after.pending@ == before.pending@.filter(
            |p: Pending| client::committed_at(before.cluster.nodes@, p.group@, p.target) is None,
        ),
        before.cluster.sender(index, group) is None ==> after.cluster.network.rng
            == before.cluster.network.rng && after.scheduler.pending().len()
            == before.scheduler.pending().len() + before.cluster.clock.pending@.len()
            + before.cluster.network.pending@.len(),
{
    let (sent, timers) = choose|
        sent: crate::network::SimNetwork<M>,
        timers: crate::scheduler::Scheduler<M>,
    | #[trigger]
        before.output_done(after, sent, timers) && runtime::sent_from(
            before.cluster.network,
            sent,
            before.cluster.sender(index, group),
            sends,
        );
    let n = before.pending@.len();
    law_uncommitted_operations_stay_pending(
        before.cluster.nodes@,
        before.pending@,
        before.scheduler.time(),
        n,
    );
    assert(before.pending@.take(n as int) =~= before.pending@);
    runtime::law_scheduling_is_not_firing(
        before.scheduler,
        timers,
        runtime::timer_items(before.cluster.clock.pending@),
    );
    runtime::law_scheduling_is_not_firing(
        timers,
        after.scheduler,
        runtime::delivery_items(sent.pending@),
    );
}

/// A turn fires the earliest event: the clock is set to its instant, one more event has
/// fired, and it is dispatched. Nothing else comes between. The result is the run once it
/// has fired.
pub proof fn law_a_turn_dispatches_the_earliest<M>(
    before: SimRuntime<M>,
    after: SimRuntime<M>,
    action: Action<M>,
) -> (mid: SimRuntime<M>)
    requires
        before.turned_to(after, action),
    ensures
        mid.cluster == before.cluster,
        mid.history == before.history,
        mid.pending == before.pending,
        mid.workload == before.workload,
        mid.scheduler.time().0 == before.scheduler.pending()[0].at.0,
        mid.scheduler.fired() == before.scheduler.fired() + 1,
        mid.scheduler.pending() == before.scheduler.pending().drop_first(),
        mid.dispatched_to(after, action, before.scheduler.pending()[0].event),
{
    let mid = choose|mid: SimRuntime<M>| #[trigger]
        before.fired_to(mid) && mid.dispatched_to(
            after,
            action,
            before.scheduler.pending()[0].event,
        );
    mid
}

/// The replicas whose first election timers are armed: those on running nodes that have no
/// mark, each once, by node, the metadata group first on each and the others in order.
pub proof fn law_first_timers_are_armed_in_order(
    list: Seq<timeline::Replica>,
    nodes: Seq<SimNode>,
    seeded: Map<(Seq<char>, GroupView), ()>,
    a: int,
    b: int,
)
    requires
        timeline::is_seeding(list, nodes, seeded),
        0 <= a < b < list.len(),
    ensures
        ({
            let i = list[a].0 as int;
            let g = list[a].1@;
            let meta = ("__meta"@, PartitionIndex(0));
            &&& i < nodes.len()
            &&& nodes[i].running
            &&& nodes[i].replica(g) is Some
            &&& !seeded.contains_key((nodes[i].id.0@, g))
            &&& list[a].0 <= list[b].0
            &&& list[a].0 == list[b].0 ==> list[b].1@ != meta && (g == meta
                || crate::model::group_before(g, list[b].1@))
        }),
{
    assert(timeline::seeds_before(list[a], list[b]));
    assert(timeline::seeds(list, list[a].0 as int, list[a].1@));
    assert(timeline::unmarked(nodes, seeded, list[a].0 as int, list[a].1@));
}

/// Every replica on a running node that has no mark is armed.
pub proof fn law_no_unmarked_replica_is_left_out(
    list: Seq<timeline::Replica>,
    nodes: Seq<SimNode>,
    seeded: Map<(Seq<char>, GroupView), ()>,
    i: int,
    g: GroupView,
) -> (k: int)
    requires
        timeline::is_seeding(list, nodes, seeded),
        0 <= i < nodes.len(),
        nodes[i].running,
        nodes[i].replica(g) is Some,
        !seeded.contains_key((nodes[i].id.0@, g)),
    ensures
        0 <= k < list.len(),
        list[k].0 == i,
        list[k].1@ == g,
{
    assert(timeline::unmarked(nodes, seeded, i, g));
    assert(timeline::seeds(list, i, g));
    choose|k: int| 0 <= k < list.len() && (#[trigger] list[k]).0 == i && list[k].1@ == g
}

/// Arming first election timers: each replica of the list is marked, its timer is
/// scheduled to fire at its instant, and as many words are drawn; the clocks' other timers
/// armed before are scheduled first, and no node changes.
pub proof fn law_seeding_arms_the_list<M>(
    before: SimRuntime<M>,
    after: SimRuntime<M>,
    list: Seq<timeline::Replica>,
    at: Seq<VirtualInstant>,
    k: int,
)
    requires
        before.seeded_at(after, list, at),
        0 <= k < list.len(),
    ensures
        ({
            let i = list[k].0 as int;
            let armed = before.cluster.clock.pending@ + timeline::seed_timers(
                before.cluster.clock,
                before.cluster.nodes@,
                list,
                at,
            );
            let timer = armed[before.cluster.clock.pending@.len() + k];
            &&& at.len() == list.len()
            &&& after.seeded@.contains_key((before.cluster.nodes@[i].id.0@, list[k].1@))
            &&& armed.len() == before.cluster.clock.pending@.len() + list.len()
            &&& timer.at.0 == at[k].0
            &&& timer.node == before.cluster.nodes@[i].id
            &&& timer.group == list[k].1
            &&& timer.kind is Election
            &&& runtime::all_scheduled(
                before.scheduler,
                after.scheduler,
                runtime::timer_items(armed),
            )
            &&& after.cluster.clock.election == before.cluster.clock.election.advanced_by(
                list.len(),
            )
            &&& after.cluster.clock.pending@.len() == 0
            &&& after.cluster.nodes == before.cluster.nodes
            &&& after.history == before.history
        }),
{
    assert(timeline::marks(
        list,
        before.cluster.nodes@,
        timeline::marker(before.cluster.nodes@, list[k]),
    ));
}

/// Faults are drawn from their own stream: one word for a crash and one for a partition,
/// of those that are on, and none where no node can be lost.
pub proof fn law_words_drawn_for_faults(
    params: ScenarioParameters,
    faults: SplitMix64,
    topology: Topology,
)
    ensures
        ({
            let able = topology.nodes@.len() >= 3 && topology.replication >= 3;
            let crash = params.faults.crash_prob.ticks > 0;
            let cut = params.faults.partition_prob.ticks > 0;
            let after = timeline::after_fault_draws(params, faults, topology);
            &&& !able || (!crash && !cut) ==> after == faults
            &&& able && crash && cut ==> after == faults.advanced().advanced()
            &&& able && crash != cut ==> after == faults.advanced()
        }),
{
    assert(topology.nodes.len() == topology.nodes@.len());
}

/// A prepared run: a new cluster of the scenario's size with the budget of the run, the
/// workload drawn from the seed's own stream, its operations scheduled in turn and then
/// the faults drawn from theirs.
pub proof fn law_prepared_runs_follow_their_seed<M>(
    config: RunConfig,
    limits: crate::workload::ConsumeLimits,
    max_events: Option<u64>,
    runs: (SimRuntime<M>, SimRuntime<M>, SimRuntime<M>, SimRuntime<M>),
)
    requires
        drive::prepared(config, limits, max_events, runs.0, runs.1, runs.2, runs.3),
    ensures
        ({
            let stream = SplitMix64 { state: config.seed ^ 0x5555_5555_5555_5555u64 };
            let n = config.params.workload_size as nat;
            let shape = crate::workload::shape_of(config.params, limits);
            &&& runs.0.workload.views() == crate::workload::drawn_ops(stream, shape, n).0
            &&& runs.0.cluster.is_initial(config)
            &&& runs.0.scheduler.fired() == 0
            &&& runs.0.scheduler.time().0 == 0
            &&& runs.0.history.ops@.len() == 0
            &&& runs.1.scheduler.pending().len() == n
            &&& runs.3.workload == runs.0.workload
            &&& runs.3.history.ops@.len() == 0
            &&& runs.3.pending@.len() == 0
            &&& runs.3.cluster.nodes == runs.0.cluster.nodes
            &&& max_events matches Some(m) ==> runs.0.scheduler.limits().max_events == m
            &&& max_events is None ==> runs.0.scheduler.limits().max_events
                == config.params.budget.max_events
            &&& runs.0.scheduler.limits().max_virtual_nanos
                == config.params.budget.max_virtual_nanos
        }),
{
    let n = config.params.workload_size as nat;
    runtime::law_scheduling_is_not_firing(
        runs.0.scheduler,
        runs.1.scheduler,
        timeline::op_items(n),
    );
}

/// After an event the deletions noted are forgotten, and every replica on a running node
/// is marked by then: of those without a mark each is armed at its instant.
pub proof fn law_upkeep_forgets_and_arms<M>(
    before: SimRuntime<M>,
    after: SimRuntime<M>,
    note: FaultNote,
    at: Seq<VirtualInstant>,
)
    requires
        before.upkept_at(after, note, at),
    ensures
        after.deleted_topics@.len() == 0,
        after.history == before.history,
        after.pending == before.pending,
        after.workload == before.workload,
        after.cluster.nodes == before.cluster.nodes,
        after.cluster.network == before.cluster.network,
        exists|mid: SimRuntime<M>, list: Seq<timeline::Replica>|
            {
                &&& #[trigger] mid.seeded_at(
                    SimRuntime { deleted_topics: before.deleted_topics, ..after },
                    list,
                    at,
                )
                &&& mid.cluster == before.cluster
                &&& mid.scheduler == before.scheduler
                &&& mid.seeded@ == drive::markers_kept(
                    before.cluster.nodes@,
                    before.seeded@,
                    note,
                )
            },
{
    let (mid, list) = choose|mid: SimRuntime<M>, list: Seq<timeline::Replica>| #[trigger]
        before.kept_up(after, mid, note, list, at);
    assert(mid.seeded_at(
        SimRuntime { deleted_topics: before.deleted_topics, ..after },
        list,
        at,
    ));
}

/// On clocks that run true, a first election timer fires its delay after now.
pub proof fn law_true_instants_are_now_and_the_delay(
    clock: crate::clock::SimClock,
    now: VirtualInstant,
    n: nat,
    k: int,
)
    requires
        0 <= k < n,
        now.0 + 300_000_000 <= u64::MAX,
    ensures
        timeline::true_instants(clock, now, n).len() == n,
        timeline::true_instants(clock, now, n)[k].0 == now.0 + 150_000_000 + (
        clock.election.advanced_by(k as nat).word() as int) % 150_000_000,
{
    crate::clock::law_election_timers_are_jittered(
        150_000_000,
        clock.election.advanced_by(k as nat),
    );
}

/// The peers of a node in a set are its other members, by their numbers.
pub proof fn law_peers_are_the_other_members(
    topology: Topology,
    set: Seq<NodeId>,
    node: Seq<char>,
    id: RaftNodeId,
)
    ensures
        topology.is_peer(set, node, id) <==> {
            &&& id.0 < topology.nodes@.len()
            &&& topology.nodes@[id.0 as int].0@ != node
            &&& exists|k: int|
                0 <= k < set.len() && (#[trigger] set[k]).0@ == topology.nodes@[id.0 as int].0@
        },
{
    let name = topology.nodes@[id.0 as int]@;
    if crate::model::names(set, name) {
        let k = choose|k: int| 0 <= k < set.len() && #[trigger] set[k]@ == name;
        assert(set[k].0@ == name);
    }
    if exists|k: int| 0 <= k < set.len() && (#[trigger] set[k]).0@ == name {
        let k = choose|k: int| 0 <= k < set.len() && (#[trigger] set[k]).0@ == name;
        assert(set[k]@ == name);
    }
}

/// A listing of groups has each of them once, in order, and no other.
pub proof fn law_listings_are_complete_and_in_order(all: Set<GroupView>, g: GroupView, i: int, j: int)
    requires
        all.finite(),
    ensures
        ({
            let list = crate::groups::listing(all);
            &&& all.contains(g) <==> exists|k: int| 0 <= k < list.len() && #[trigger] list[k] == g
            &&& 0 <= i < j < list.len() ==> crate::model::group_before(list[i], list[j])
        }),
{
    crate::groups::lemma_listing(all);
    let list = crate::groups::listing(all);
    assert(list.contains(g) == all.contains(g));
    if exists|k: int| 0 <= k < list.len() && #[trigger] list[k] == g {
        assert(list.contains(g));
    }
}

/// What is gained is one operation, behind all that was there.
pub proof fn law_gained_operations_come_last(
    before: crate::history::History,
    after: crate::history::History,
    op: crate::history::RecordedOpView,
    k: int,
)
    requires
        before.gained(after, op),
        0 <= k < before.ops@.len(),
    ensures
        after.ops@.len() == before.ops@.len() + 1,
        after.ops@[k] == before.ops@[k],
        after.ops@[before.ops@.len() as int]@ == op,
{
    assert(after.ops@.drop_last()[k] == after.ops@[k]);
}

/// Parameters that no cluster can be built from are refused by the first thing wrong with
/// them: no replicas, more replicas than nodes, or no partition.
pub proof fn law_what_is_wrong_with_a_scenario(config: RunConfig)
    requires
        !config.params.consistent(),
    ensures
        ({
            let fault = drive::fault_in(config);
            let p = config.params;
            &&& p.replication_factor == 0 ==> fault is ReplicationFactorZero
            &&& p.replication_factor > p.node_count && p.replication_factor > 0 ==> {
                &&& fault is ReplicationFactorTooHigh
                &&& fault->replication_factor == p.replication_factor
                &&& fault->node_count == p.node_count
            }
            &&& 0 < p.replication_factor <= p.node_count ==> fault is PartitionCountZero
                && p.partition_count == 0
        }),
{
}

/// Commands and names are seen one for one.
pub proof fn law_commands_are_seen_one_for_one(
    commands: Seq<crate::model::ClusterCommand>,
    names: Seq<String>,
    i: int,
)
    ensures
        output::command_views(commands).len() == commands.len(),
        0 <= i < commands.len() ==> output::command_views(commands)[i] == commands[i]@,
        output::texts(names).len() == names.len(),
        0 <= i < names.len() ==> output::texts(names)[i] == names[i]@,
{
}

/// A replica that is spawned is there in the state given, with its disk, and the node is
/// otherwise as it was.
pub proof fn law_spawned_replicas_are_there(
    node: SimNode,
    after: SimNode,
    g: GroupView,
    state: ReplicaState,
    h: GroupView,
)
    requires
        node.spawned_to(after, g, state),
    ensures
        after.fleet@.contains_key(g),
        after.fleet@[g] == state,
        after.storage@.contains_key(g),
        h != g ==> after.fleet@.contains_key(h) == node.fleet@.contains_key(h),
        h != g && node.fleet@.contains_key(h) ==> after.fleet@[h] == node.fleet@[h],
        after.controller == node.controller,
        after.served == node.served,
        after.running == node.running,
{
}

/// On clocks that run true, the bookkeeping of an event arms first election timers by the
/// delays drawn, from now on. The result is the instants.
pub proof fn law_upkeep_on_true_clocks<M>(
    before: SimRuntime<M>,
    after: SimRuntime<M>,
    note: FaultNote,
) -> (at: Seq<VirtualInstant>)
    requires
        before.upkept_to(after, note),
        before.scheduler.time().0 + 300_000_000 <= u64::MAX,
    ensures
        before.upkept_at(after, note, at),
        forall|k: int|
            0 <= k < at.len() ==> (#[trigger] at[k]).0 == before.scheduler.time().0 + 150_000_000
                + (before.cluster.clock.election.advanced_by(k as nat).word() as int) % 150_000_000,
{
    let at = choose|at: Seq<VirtualInstant>|
        {
            &&& #[trigger] before.upkept_at(after, note, at)
            &&& at == timeline::true_instants(
                before.cluster.clock,
                before.scheduler.time(),
                at.len(),
            )
        };
    assert forall|k: int| 0 <= k < at.len() implies (#[trigger] at[k]).0
        == before.scheduler.time().0 + 150_000_000 + (before.cluster.clock.election.advanced_by(
        k as nat,
    ).word() as int) % 150_000_000 by {
        law_true_instants_are_now_and_the_delay(
            before.cluster.clock,
            before.scheduler.time(),
            at.len(),
            k,
        );
    }
    at
}

/// Handling an event schedules nothing by itself and draws no word; the workload, the
/// topology, the traffic's faults and counts, and what was seeded and deleted stay as they
/// are.
pub proof fn law_handling_an_event_draws_nothing<M>(
    before: SimRuntime<M>,
    after: SimRuntime<M>,
    action: Action<M>,
    event: Event<M>,
)
    requires
        before.dispatched_to(after, action, event),
    ensures
        after.scheduler == before.scheduler,
        after.workload == before.workload,
        after.seeded == before.seeded,
        after.deleted_topics == before.deleted_topics,
        after.cluster.nodes@.len() == before.cluster.nodes@.len(),
        after.cluster.topology == before.cluster.topology,
        after.cluster.meta_transports == before.cluster.meta_transports,
        after.cluster.storage_stream == before.cluster.storage_stream,
        after.cluster.faults_stream == before.cluster.faults_stream,
        after.cluster.workload_stream == before.cluster.workload_stream,
        after.cluster.tiebreak_stream == before.cluster.tiebreak_stream,
        after.cluster.network.rng == before.cluster.network.rng,
        after.cluster.network.config == before.cluster.network.config,
        after.cluster.network.pending == before.cluster.network.pending,
        after.cluster.network.dropped_count == before.cluster.network.dropped_count,
        after.cluster.network.cut_dropped_count == before.cluster.network.cut_dropped_count,
        after.cluster.network.duplicated_count == before.cluster.network.duplicated_count,
        after.cluster.network.delivered_count == before.cluster.network.delivered_count,
{
}

/// A fault and its healing touch what they are about and nothing else: a crash leaves the
/// cuts, a cut and its healing leave the nodes and who has crashed, and none of them moves
/// a clock, answers a client or records anything.
pub proof fn law_faults_touch_nothing_else<M>(
    before: SimRuntime<M>,
    after: SimRuntime<M>,
    action: Action<M>,
    event: Event<M>,
)
    requires
        before.dispatched_to(after, action, event),
        event is FaultApply || event is FaultHeal,
    ensures
        after.history == before.history,
        after.pending == before.pending,
        after.cluster.clock == before.cluster.clock,
        after.cluster.network.now == before.cluster.network.now,
        event matches Event::FaultApply(Fault::Crash { nodes }) ==> after.cluster.network.cuts
            == before.cluster.network.cuts,
        event matches Event::FaultApply(Fault::Restart { nodes }) ==> after.cluster
            == before.cluster,
        event matches Event::FaultApply(Fault::Partition { id, side_a, side_b }) ==> {
            &&& after.cluster.nodes == before.cluster.nodes
            &&& after.cluster.network.crashed == before.cluster.network.crashed
        },
        event matches Event::FaultHeal(id) ==> {
            &&& after.cluster.nodes == before.cluster.nodes
            &&& after.cluster.network.crashed == before.cluster.network.crashed
        },
{
}

/// A node that comes back changes nothing but itself and who is cut off as crashed.
pub proof fn law_a_restart_touches_nothing_else<M>(
    before: SimulatedCluster<M>,
    after: SimulatedCluster<M>,
    index: usize,
    recovered: cluster::RecoveredNode,
    i: int,
)
    requires
        before.restart_step(after, index, recovered),
    ensures
        after.nodes@.len() == before.nodes@.len(),
        0 <= i < before.nodes@.len() && i != index ==> after.nodes@[i] == before.nodes@[i],
        after.topology == before.topology,
        after.clock == before.clock,
        after.meta_transports == before.meta_transports,
        after.storage_stream == before.storage_stream,
        after.faults_stream == before.faults_stream,
        after.workload_stream == before.workload_stream,
        after.tiebreak_stream == before.tiebreak_stream,
        after.network.now == before.network.now,
        after.network.config == before.network.config,
        after.network.rng == before.network.rng,
        after.network.pending == before.network.pending,
        after.network.cuts == before.network.cuts,
        after.network.dropped_count == before.network.dropped_count,
        after.network.cut_dropped_count == before.network.cut_dropped_count,
        after.network.duplicated_count == before.network.duplicated_count,
        after.network.delivered_count == before.network.delivered_count,
{
}

/// What a step commits is noted and nothing more: the topics noted before stay in front,
/// and only entries of the metadata group add to them.
pub proof fn law_committing_notes_deletions_alone<M>(
    before: SimRuntime<M>,
    after: SimRuntime<M>,
    group: GroupView,
    committed: Seq<LogEntry>,
    i: int,
)
    requires
        before.noted_to(after, group, committed),
    ensures
        after.cluster == before.cluster,
        after.scheduler == before.scheduler,
        after.workload == before.workload,
        after.history == before.history,
        after.pending == before.pending,
        after.seeded == before.seeded,
        after.deleted_topics@.len() >= before.deleted_topics@.len(),
        0 <= i < before.deleted_topics@.len() ==> after.deleted_topics@[i]@
            == before.deleted_topics@[i]@,
        !(group.0 == "__meta"@ && group.1.0 == 0) ==> after.deleted_topics@.len()
            == before.deleted_topics@.len(),
{
    let old_texts = output::texts(before.deleted_topics@);
    let new_texts = output::texts(after.deleted_topics@);
    assert(new_texts.len() == after.deleted_topics@.len());
    assert(old_texts.len() == before.deleted_topics@.len());
    if 0 <= i < before.deleted_topics@.len() {
        assert(new_texts[i] == old_texts[i]);
    }
}

/// Every node has a sending end in the metadata group, and one in any other group exactly
/// where it was given one; where there is no node there is none.
pub proof fn law_where_sending_ends_are_found<M>(cluster: SimulatedCluster<M>, i: int, g: GroupView)
    ensures
        !(0 <= i < cluster.nodes@.len()) ==> cluster.sender(i, g) is None,
        0 <= i < cluster.nodes@.len() && g.0 == "__meta"@ && g.1.0 == 0 ==> cluster.sender(i, g)
            == Some(cluster.meta_transports@[i]),
        0 <= i < cluster.nodes@.len() && !(g.0 == "__meta"@ && g.1.0 == 0) ==> {
            let given = cluster.nodes@[i].transports@;
            &&& cluster.sender(i, g) is Some <==> given.contains_key(g)
            &&& given.contains_key(g) ==> cluster.sender(i, g) == Some(given[g])
        },
{
}

} // verus!
