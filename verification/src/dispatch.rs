//! What each event does to a run.

use crate::checker::kafka_parity;
use crate::client::{self, LeaderResolution, Pending, PendingKind, PendingKindView};
use crate::clock::SimClock;
use crate::cluster::SimulatedCluster;
use crate::codec;
use crate::history::{
    self, History, OpArgs, OpArgsView, OpKind, OpResponse, OpResponseView, RecordedOpView,
};
use crate::model::{
    self, ClusterCommand, CommandView, EntryPayload, GroupKey, GroupView, NodeId, Offset,
    PartitionIndex, PayloadKind, PayloadView, TimerKind,
};
use crate::network::{Cut, PartitionDirection, SimNetwork};
use crate::runtime::{Action, ReplicaInput, SimRuntime};
use crate::scheduler::{Event, Fault, HealId, VirtualInstant};
use crate::topology::Topology;
use crate::workload::{ClientOperation, ClientOperationView};
use vstd::prelude::*;

verus! {

/// What is proposed for a client operation.
pub struct Proposal {
    pub group: GroupView,
    pub args: OpArgsView,
    pub payload: PayloadView,
    pub kind: PendingKindView,
}

/// The kind of an operation that asks for `args`.
pub open spec fn kind_of(args: OpArgsView) -> OpKind {
    match args {
        OpArgsView::CreateTopic { .. } => OpKind::CreateTopic,
        OpArgsView::DeleteTopic { .. } => OpKind::DeleteTopic,
        OpArgsView::Produce { .. } => OpKind::Produce,
        OpArgsView::Consume { .. } => OpKind::Consume,
    }
}

/// The proposal of the metadata command `command`.
pub open spec fn metadata_proposal(
    command: CommandView,
    args: OpArgsView,
    kind: PendingKindView,
) -> Proposal {
    Proposal {
        group: model::meta_group(),
        args,
        payload: PayloadView { kind: PayloadKind::Cluster, bytes: codec::encoded(command) },
        kind,
    }
}

pub open spec fn create_proposal(
    topology: Topology,
    name: Seq<char>,
    partition_count: u32,
    replication_factor: usize,
) -> Proposal {
    metadata_proposal(
        client::create_command(topology, name, partition_count),
        OpArgsView::CreateTopic {
            topic: name,
            partitions: partition_count,
            replication_factor: replication_factor as u32,
        },
        PendingKindView::CreateTopic { name },
    )
}

pub open spec fn delete_proposal(name: Seq<char>) -> Proposal {
    metadata_proposal(
        CommandView::DeleteTopic { name },
        OpArgsView::DeleteTopic { topic: name },
        PendingKindView::DeleteTopic { name },
    )
}

pub open spec fn produce_proposal(
    topic: Seq<char>,
    partition: PartitionIndex,
    key: Option<Seq<u8>>,
    value: Seq<u8>,
) -> Proposal {
    Proposal {
        group: (topic, partition),
        args: OpArgsView::Produce { topic, partition, key, value },
        payload: PayloadView { kind: PayloadKind::Record, bytes: value },
        kind: PendingKindView::Produce,
    }
}

/// What is recorded of an operation for which no leader was found.
pub open spec fn refusal(
    args: OpArgsView,
    found: LeaderResolution,
    now: VirtualInstant,
) -> RecordedOpView {
    RecordedOpView {
        kind: kind_of(args),
        args,
        invoked_at: now,
        responded_at: now,
        response: if found is Exhausted {
            OpResponseView::UnresolvedRedirection
        } else {
            OpResponseView::NoLeader
        },
    }
}

/// What is recorded of a consume that a leader in `state` answers.
pub open spec fn consumption(
    state: crate::cluster::ReplicaState,
    group: GroupView,
    start_offset: Offset,
    max_records: u32,
    now: VirtualInstant,
) -> RecordedOpView {
    let start = client::clamped_start(state, start_offset);
    RecordedOpView {
        kind: OpKind::Consume,
        args: OpArgsView::Consume {
            topic: group.0,
            partition: group.1,
            start_offset: start,
            max_records,
        },
        invoked_at: now,
        responded_at: now,
        response: OpResponseView::ConsumeOk {
            topic: group.0,
            partition: group.1,
            start_offset: start,
            records: client::consumed(state, start, max_records),
        },
    }
}

impl<M> SimRuntime<M> {
    /// `after` is this run with the replica of `group` on the node at `index` ready to
    /// step now: messages are sent and timers armed as of now, and timers are that
    /// replica's.
    pub open spec fn readied_to(self, after: SimRuntime<M>, index: int, group: GroupKey) -> bool {
        &&& self.same_records(after)
        &&& after.scheduler == self.scheduler
        &&& after.cluster == (SimulatedCluster {
            network: SimNetwork { now: self.scheduler.time(), ..self.cluster.network },
            clock: SimClock {
                now: self.scheduler.time(),
                active: Some((self.cluster.nodes@[index].id, group)),
                ..self.cluster.clock
            },
            ..self.cluster
        })
    }

    /// Make ready for a step of the replica of `group` on the node at `index`; whether
    /// there is such a replica.
    fn ready(&mut self, index: usize, group: &GroupKey) -> (r: bool)
        requires
            old(self).wf(),
            old(self).cluster.is_up(index as int),
        ensures
            final(self).wf(),
            r == old(self).cluster.live(index as int, group@),
            old(self).readied_to(*final(self), index as int, *group),
    {
        let now = self.scheduler.now();
        self.cluster.network.set_now(now);
        self.cluster.step_replica(index, group, now)
    }

    /// `after` is this run with one operation more in its history.
    pub open spec fn recorded_to(self, after: SimRuntime<M>, op: RecordedOpView) -> bool {
        &&& after.cluster == self.cluster
        &&& after.scheduler == self.scheduler
        &&& after.workload == self.workload
        &&& after.pending == self.pending
        &&& after.seeded == self.seeded
        &&& after.deleted_topics == self.deleted_topics
        &&& self.history.gained(after.history, op)
    }

    /// `after` and `action` are what comes of issuing `p`: where a leader is found, it
    /// is made ready and `p` is to be proposed to it, to be committed at the end of its
    /// log; where none is, that is recorded.
    pub open spec fn proposes(self, after: SimRuntime<M>, action: Action<M>, p: Proposal) -> bool {
        match client::resolution(self.cluster, p.group) {
            LeaderResolution::Leader(i) => {
                &&& action matches Action::Propose { index, group, payload, op }
                &&& index == i
                &&& group@ == p.group
                &&& payload@ == p.payload
                &&& op.group@ == p.group
                &&& op.target == client::next_index(
                    self.cluster.nodes@[i as int].replica(p.group)->0,
                )
                &&& op.args@ == p.args
                &&& op.invoked_at == self.scheduler.time()
                &&& op.expected@ == p.payload.bytes
                &&& op.kind@ == p.kind
                &&& op.wf()
                &&& self.cluster.live(index as int, p.group)
                &&& self.readied_to(after, index as int, group)
            },
            found => {
                &&& action is Idle
                &&& self.recorded_to(after, refusal(p.args, found, self.scheduler.time()))
            },
        }
    }

    fn refuse(&mut self, args: OpArgs, found: LeaderResolution)
        requires
            old(self).wf(),
            found !is Leader,
        ensures
            final(self).wf(),
            old(self).recorded_to(
                *final(self),
                refusal(args@, found, old(self).scheduler.time()),
            ),
    {
        let now = self.scheduler.now();
        let response = match found {
            LeaderResolution::Exhausted => OpResponse::UnresolvedRedirection,
            _ => OpResponse::NoLeader,
        };
        self.history.record_failure(args, now, now, response);
        assert(self.history.ops@.drop_last() =~= old(self).history.ops@);
    }

    /// Have `payload` proposed to the leader of `group`, or record that there is none.
    fn propose(&mut self, group: GroupKey, args: OpArgs, payload: EntryPayload, kind: PendingKind) -> (r:
        Action<M>)
        requires
            old(self).wf(),
            kind is Produce ==> args is Produce,
        ensures
            final(self).wf(),
            old(self).proposes(
                *final(self),
                r,
                Proposal { group: group@, args: args@, payload: payload@, kind: kind@ },
            ),
    {
        let now = self.scheduler.now();
        match client::resolve_leader(&self.cluster, &group) {
            LeaderResolution::Leader(index) => {
                let target = client::leader_next_index(&self.cluster, index, &group);
                let live = self.ready(index, &group);
                let expected = model::clone_bytes(payload.bytes.as_slice());
                let op = Pending {
                    group: model::clone_group(&group),
                    target,
                    args,
                    invoked_at: now,
                    expected,
                    kind,
                };
                Action::Propose { index, group, payload, op }
            },
            found => {
                self.refuse(args, found);
                Action::Idle
            },
        }
    }

    /// Produce `value` to `partition` of `topic`.
    pub fn issue_produce(
        &mut self,
        topic: String,
        partition: PartitionIndex,
        key: Option<Vec<u8>>,
        value: Vec<u8>,
    ) -> (r: Action<M>)
        requires
            old(self).wf(),
        ensures
            final(self).wf(),
            old(self).proposes(
                *final(self),
                r,
                produce_proposal(topic@, partition, model::optional_bytes(key), value@),
            ),
    {
        let group: GroupKey = (topic.clone(), partition);
        let payload = EntryPayload::new(
            PayloadKind::Record,
            model::clone_bytes(value.as_slice()),
        );
        let args = OpArgs::Produce { topic, partition, key, value };
        self.propose(group, args, payload, PendingKind::Produce)
    }

    /// Have the metadata command `command` proposed.
    pub fn issue_metadata_command(
        &mut self,
        args: OpArgs,
        command: ClusterCommand,
        kind: PendingKind,
    ) -> (r: Action<M>)
        requires
            old(self).wf(),
            kind !is Produce,
        ensures
            final(self).wf(),
            old(self).proposes(
                *final(self),
                r,
                metadata_proposal(command@, args@, kind@),
            ),
    {
        let bytes = codec::encode_cluster_command(&command);
        let payload = EntryPayload::new(PayloadKind::Cluster, bytes);
        self.propose(model::metadata_group_key(), args, payload, kind)
    }

    /// Create the topic `name`.
    pub fn issue_create_topic(
        &mut self,
        name: String,
        partition_count: u32,
        replication_factor: usize,
    ) -> (r: Action<M>)
        requires
            old(self).wf(),
        ensures
            final(self).wf(),
            old(self).proposes(
                *final(self),
                r,
                create_proposal(
                    old(self).cluster.topology,
                    name@,
                    partition_count,
                    replication_factor,
                ),
            ),
    {
        let command = client::build_create_topic(
            &self.cluster.topology,
            name.as_str(),
            partition_count,
        );
        let args = OpArgs::CreateTopic {
            topic: name.clone(),
            partitions: partition_count,
            replication_factor: replication_factor as u32,
        };
        self.issue_metadata_command(args, command, PendingKind::CreateTopic { name })
    }

    /// Delete the topic `name`.
    pub fn issue_delete_topic(&mut self, name: String) -> (r: Action<M>)
        requires
            old(self).wf(),
        ensures
            final(self).wf(),
            old(self).proposes(*final(self), r, delete_proposal(name@)),
    {
        let command = ClusterCommand::DeleteTopic { name: name.clone() };
        let args = OpArgs::DeleteTopic { topic: name.clone() };
        self.issue_metadata_command(args, command, PendingKind::DeleteTopic { name })
    }

    /// `after` is this run once a consume was issued: where a leader is found, what it
    /// has committed is recorded; where none is, that is.
    pub open spec fn consumes(
        self,
        after: SimRuntime<M>,
        group: GroupView,
        start_offset: Offset,
        max_records: u32,
    ) -> bool {
        let now = self.scheduler.time();
        match client::resolution(self.cluster, group) {
            LeaderResolution::Leader(i) => self.recorded_to(
                after,
                consumption(
                    self.cluster.nodes@[i as int].replica(group)->0,
                    group,
                    start_offset,
                    max_records,
                    now,
                ),
            ),
            found => self.recorded_to(
                after,
                refusal(
                    OpArgsView::Consume {
                        topic: group.0,
                        partition: group.1,
                        start_offset,
                        max_records,
                    },
                    found,
                    now,
                ),
            ),
        }
    }

    /// Consume at most `max_records` records from `start_offset` on.
    pub fn issue_consume(
        &mut self,
        topic: String,
        partition: PartitionIndex,
        start_offset: Offset,
        max_records: u32,
    )
        requires
            old(self).wf(),
        ensures
            final(self).wf(),
            old(self).consumes(*final(self), (topic@, partition), start_offset, max_records),
    {
        let now = self.scheduler.now();
        let group: GroupKey = (topic.clone(), partition);
        match client::resolve_leader(&self.cluster, &group) {
            LeaderResolution::Leader(index) => {
                let (start, records) = match self.cluster.nodes[index].replica_of(&group) {
                    Some(state) => client::read_records(state, start_offset, max_records),
                    None => (start_offset, Vec::new()),
                };
                let args = OpArgs::Consume { topic, partition, start_offset: start, max_records };
                let ghost before = self.history;
                let ghost count = records@.len();
                self.history.record_consume_success(args, now, now, records);
                proof {
                    lemma_consume_fits(before, self.history, start, count);
                }
            },
            found => {
                let args = OpArgs::Consume { topic, partition, start_offset, max_records };
                self.refuse(args, found);
            },
        }
    }

    /// `after` and `action` are what comes of issuing `op`.
    pub open spec fn issues(
        self,
        after: SimRuntime<M>,
        action: Action<M>,
        op: ClientOperationView,
    ) -> bool {
        match op {
            ClientOperationView::CreateTopic { name, partition_count, replication_factor } => {
                self.proposes(
                    after,
                    action,
                    create_proposal(
                        self.cluster.topology,
                        name,
                        partition_count,
                        replication_factor,
                    ),
                )
            },
            ClientOperationView::DeleteTopic { name } => self.proposes(
                after,
                action,
                delete_proposal(name),
            ),
            ClientOperationView::Produce { topic, partition, key, value } => self.proposes(
                after,
                action,
                produce_proposal(topic, partition, key, value),
            ),
            ClientOperationView::Consume { topic, partition, start_offset, max_records } => {
                &&& action is Idle
                &&& self.consumes(after, (topic, partition), start_offset, max_records)
            },
        }
    }

    /// Issue the client operation numbered `seq`; a number past the workload's end is
    /// ignored.
    pub fn dispatch_client_op(&mut self, seq: u64) -> (r: Action<M>)
        requires
            old(self).wf(),
        ensures
            final(self).wf(),
            if seq < old(self).workload.ops@.len() {
                old(self).issues(*final(self), r, old(self).workload.ops@[seq as int]@)
            } else {
                r is Idle && *final(self) == *old(self)
            },
    {
        let op = match self.workload.op(seq) {
            Some(op) => op.clone(),
            None => {
                return Action::Idle;
            },
        };
        match op {
            ClientOperation::CreateTopic { name, partition_count, replication_factor } => {
                self.issue_create_topic(name, partition_count, replication_factor)
            },
            ClientOperation::DeleteTopic { name } => self.issue_delete_topic(name),
            ClientOperation::Produce { topic, partition, key, value } => self.issue_produce(
                topic,
                partition,
                key,
                value,
            ),
            ClientOperation::Consume { topic, partition, start_offset, max_records } => {
                self.issue_consume(topic, partition, start_offset, max_records);
                Action::Idle
            },
        }
    }

    /// Keep a proposal that was made until its target index is committed.
    pub fn finish_proposal(&mut self, op: Pending)
        requires
            old(self).wf(),
            op.wf(),
        ensures
            final(self).wf(),
            final(self).pending@ == old(self).pending@.push(op),
            *final(self) == (SimRuntime { pending: final(self).pending, ..*old(self) }),
    {
        self.pending.push(op);
    }

    /// `after` differs from this run in its cluster alone.
    pub open spec fn only_cluster(self, after: SimRuntime<M>) -> bool {
        after == (SimRuntime { cluster: after.cluster, ..self })
    }

    /// `after` differs from this run in its network's cuts alone, which are `cuts`.
    pub open spec fn recut_to(self, after: SimRuntime<M>, cuts: Map<HealId, Cut>) -> bool {
        &&& self.only_cluster(after)
        &&& after.cluster == (SimulatedCluster {
            network: after.cluster.network,
            ..self.cluster
        })
        &&& self.cluster.network.same_traffic(after.cluster.network)
        &&& after.cluster.network.crashed == self.cluster.network.crashed
        &&& after.cluster.network.cuts@ == cuts
    }

    /// `after` and `action` are what comes of `fault`. Nodes that restart are recovered
    /// outside first.
    pub open spec fn faulted_to(self, after: SimRuntime<M>, action: Action<M>, fault: Fault) -> bool {
        match fault {
            Fault::Crash { nodes } => {
                &&& action is Idle
                &&& self.only_cluster(after)
                &&& self.cluster.downed_to(after.cluster, nodes@)
            },
            Fault::Restart { nodes } => {
                &&& action == Action::<M>::Restart { nodes }
                &&& after == self
            },
            Fault::Partition { id, side_a, side_b } => {
                &&& action is Idle
                &&& self.recut_to(
                    after,
                    self.cluster.network.cuts@.insert(
                        id,
                        Cut::Partition {
                            side_a,
                            side_b,
                            direction: PartitionDirection::Symmetric,
                        },
                    ),
                )
            },
        }
    }

    /// Apply a fault.
    pub fn apply_fault(&mut self, fault: Fault) -> (r: Action<M>)
        requires
            old(self).wf(),
        ensures
            final(self).wf(),
            old(self).faulted_to(*final(self), r, fault),
    {
        match fault {
            Fault::Crash { nodes } => {
                let count: usize = self.cluster.crash_nodes(nodes.as_slice());
                Action::Idle
            },
            Fault::Restart { nodes } => Action::Restart { nodes },
            Fault::Partition { id, side_a, side_b } => {
                self.cluster.network.install_partition(id, side_a, side_b);
                Action::Idle
            },
        }
    }

    /// The position of the node named `node` that is up.
    pub open spec fn up_named(self, node: Seq<char>) -> Option<int> {
        let i = self.cluster.topology.index_named(node);
        if model::names(self.cluster.topology.nodes@, node) && self.cluster.is_up(i) {
            Some(i)
        } else {
            None
        }
    }

    fn find_up(&self, node: &NodeId) -> (r: Option<usize>)
        requires
            self.wf(),
        ensures
            match r {
                Some(i) => self.up_named(node@) == Some(i as int),
                None => self.up_named(node@) is None,
            },
    {
        match self.cluster.index_of(node) {
            Some(i) => {
                proof {
                    self.cluster.topology.lemma_index(i as int);
                }
                if self.cluster.nodes[i].is_running() {
                    Some(i)
                } else {
                    None
                }
            },
            None => None,
        }
    }

    /// `after` and `action` are what comes of stepping the replica of `group` at
    /// `index`, if it is there, on `input`.
    pub open spec fn steps(
        self,
        after: SimRuntime<M>,
        action: Action<M>,
        index: int,
        group: GroupKey,
        input: ReplicaInput<M>,
    ) -> bool {
        &&& self.readied_to(after, index, group)
        &&& if self.cluster.live(index, group@) {
            action == (Action::Step { index: index as usize, group, input })
        } else {
            action is Idle
        }
    }

    /// `after` and `action` are what comes of `event`. A timer that was armed again
    /// since, and anything for a node that is unknown or down, is dropped.
    pub open spec fn dispatched_to(
        self,
        after: SimRuntime<M>,
        action: Action<M>,
        event: Event<M>,
    ) -> bool {
        match event {
            Event::TimerFire { node, group, kind, generation } => match self.up_named(node@) {
                Some(i) => if self.cluster.clock.generation(((node@, group@), kind))
                    == generation {
                    self.steps(after, action, i, group, ReplicaInput::Tick(kind))
                } else {
                    action is Idle && after == self
                },
                None => action is Idle && after == self,
            },
            Event::MessageDeliver(e) => match self.up_named(e.to@) {
                Some(i) => self.steps(after, action, i, e.group, ReplicaInput::Message(e.msg)),
                None => action is Idle && after == self,
            },
            Event::ClientOp(op) => if op.seq < self.workload.ops@.len() {
                self.issues(after, action, self.workload.ops@[op.seq as int]@)
            } else {
                action is Idle && after == self
            },
            Event::FaultApply(fault) => self.faulted_to(after, action, fault),
            Event::FaultHeal(id) => {
                &&& action is Idle
                &&& self.recut_to(after, self.cluster.network.cuts@.remove(id))
            },
        }
    }

    /// Begin the handling of an event that has just fired; what comes back is to be
    /// done before the next event.
    pub fn dispatch_event(&mut self, event: Event<M>) -> (r: Action<M>)
        requires
            old(self).wf(),
        ensures
            final(self).wf(),
            old(self).dispatched_to(*final(self), r, event),
    {
        match event {
            Event::TimerFire { node, group, kind, generation } => {
                match self.find_up(&node) {
                    Some(index) => {
                        if !self.cluster.clock.is_current(&node, &group, kind, generation) {
                            return Action::Idle;
                        }
                        if self.ready(index, &group) {
                            Action::Step { index, group, input: ReplicaInput::Tick(kind) }
                        } else {
                            Action::Idle
                        }
                    },
                    None => Action::Idle,
                }
            },
            Event::MessageDeliver(envelope) => {
                match self.find_up(&envelope.to) {
                    Some(index) => {
                        if self.ready(index, &envelope.group) {
                            Action::Step {
                                index,
                                group: envelope.group,
                                input: ReplicaInput::Message(envelope.msg),
                            }
                        } else {
                            Action::Idle
                        }
                    },
                    None => Action::Idle,
                }
            },
            Event::ClientOp(op) => self.dispatch_client_op(op.seq),
            Event::FaultApply(fault) => self.apply_fault(fault),
            Event::FaultHeal(id) => {
                let healed = self.cluster.network.heal(id);
                Action::Idle
            },
        }
    }
}

/// A consume that ends within the committed records keeps consumes within the range of
/// offsets.
proof fn lemma_consume_fits(before: History, after: History, start: Offset, count: nat)
    requires
        kafka_parity::consumes_fit(before.ops@),
        after.ops@.len() == before.ops@.len() + 1,
        after.ops@.drop_last() == before.ops@,
        start + count <= u64::MAX,
        after.ops@.last()@.response matches OpResponseView::ConsumeOk { start_offset, records, .. }
            && start_offset == start && records.len() == count,
    ensures
        kafka_parity::consumes_fit(after.ops@),
{
    assert forall|i: int| 0 <= i < after.ops@.len() implies ((
    #[trigger] after.ops@[i]).response matches OpResponse::ConsumeOk { start_offset, records, .. }
        ==> start_offset + records@.len() <= u64::MAX) by {
        if i < before.ops@.len() {
            assert(after.ops@[i] == after.ops@.drop_last()[i]);
            assert(after.ops@[i] == before.ops@[i]);
        } else {
            assert(after.ops@[i] == after.ops@.last());
        }
    }
}

/// A timer that was armed again since it was scheduled does nothing when it fires.
pub proof fn law_stale_timer_is_dropped<M>(
    before: SimRuntime<M>,
    after: SimRuntime<M>,
    action: Action<M>,
    node: NodeId,
    group: GroupKey,
    kind: TimerKind,
    generation: u64,
)
    requires
        before.dispatched_to(
            after,
            action,
            Event::TimerFire { node, group, kind, generation },
        ),
        before.cluster.clock.generation(((node@, group@), kind)) != generation,
    ensures
        action is Idle,
        after == before,
{
}

/// A node that is down steps on nothing: neither its timers nor messages to it do
/// anything.
pub proof fn law_crashed_node_processes_nothing<M>(
    before: SimRuntime<M>,
    after: SimRuntime<M>,
    action: Action<M>,
    event: Event<M>,
    index: int,
)
    requires
        before.wf(),
        before.cluster.is_down(index),
        before.dispatched_to(after, action, event),
        (event matches Event::TimerFire { node, .. } && node@ == before.cluster.nodes@[index].id@)
            || (event matches Event::MessageDeliver(e) && e.to@
            == before.cluster.nodes@[index].id@),
    ensures
        action is Idle,
        after == before,
{
    before.cluster.topology.lemma_index(index);
}

/// Every client operation is answered or proposed: issuing one either records one
/// answer, or asks for one proposal and records nothing.
pub proof fn law_client_op_is_answered_or_proposed<M>(
    before: SimRuntime<M>,
    after: SimRuntime<M>,
    action: Action<M>,
    op: ClientOperationView,
)
    requires
        before.issues(after, action, op),
    ensures
        action is Propose || action is Idle,
        action is Propose ==> after.history == before.history,
        action is Idle ==> after.history.ops@.len() == before.history.ops@.len() + 1,
        after.pending == before.pending,
{
}

} // verus!
