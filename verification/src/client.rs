//! What becomes of client operations: who answers them, and with what.

use crate::checker::kafka_parity;
use crate::checker::raft_safety;
use crate::cluster::{ReplicaState, SimNode, SimulatedCluster};
use crate::history::{
    self, History, OpArgs, OpResponse, OpResponseView, RecordedOp, RecordedOpView,
};
use crate::model::{
    self, ClusterCommand, CommandView, GroupKey, GroupView, LogBackend, LogEntry, LogEntryView,
    NodeId, Offset, Partition, PartitionIndex, PartitionView, PayloadKind, Record, RecordView,
    Role,
};
use crate::scheduler::VirtualInstant;
use crate::topology::Topology;
use crate::workload::MAX_REDIRECT_HOPS;
use vstd::prelude::*;

verus! {

/// What a proposal under way will do once it is committed.
#[derive(Debug)]
pub enum PendingKind {
    Produce,
    CreateTopic { name: String },
    DeleteTopic { name: String },
}

/// What a proposal will do, as a mathematical value.
pub enum PendingKindView {
    Produce,
    CreateTopic { name: Seq<char> },
    DeleteTopic { name: Seq<char> },
}

impl View for PendingKind {
    type V = PendingKindView;

    open spec fn view(&self) -> PendingKindView {
        match self {
            PendingKind::Produce => PendingKindView::Produce,
            PendingKind::CreateTopic { name } => PendingKindView::CreateTopic { name: name@ },
            PendingKind::DeleteTopic { name } => PendingKindView::DeleteTopic { name: name@ },
        }
    }
}

impl PendingKind {
    pub open spec fn payload(self) -> PayloadKind {
        match self {
            PendingKind::Produce => PayloadKind::Record,
            PendingKind::CreateTopic { .. } => PayloadKind::Cluster,
            PendingKind::DeleteTopic { .. } => PayloadKind::Cluster,
        }
    }

    /// The kind of payload that is proposed.
    pub fn payload_kind(&self) -> (r: PayloadKind)
        ensures
            r == self.payload(),
    {
        match self {
            PendingKind::Produce => PayloadKind::Record,
            PendingKind::CreateTopic { .. } => PayloadKind::Cluster,
            PendingKind::DeleteTopic { .. } => PayloadKind::Cluster,
        }
    }
}

/// A client operation whose proposal is under way.
#[derive(Debug)]
pub struct Pending {
    pub group: GroupKey,
    /// The index at which the proposal is expected to be committed.
    pub target: u64,
    pub args: OpArgs,
    pub invoked_at: VirtualInstant,
    /// The bytes proposed.
    pub expected: Vec<u8>,
    pub kind: PendingKind,
}

impl Pending {
    /// Only produces are answered as produces.
    pub open spec fn wf(self) -> bool {
        self.kind is Produce ==> self.args is Produce
    }
}

/// Who answers for a group.
#[derive(Clone, Copy, Debug, PartialEq, Eq, Structural)]
pub enum LeaderResolution {
    Leader(usize),
    NoLeader,
    Exhausted,
}

/// The first member of `set` that is up and hosts `g`.
pub open spec fn contact<M>(c: SimulatedCluster<M>, set: Seq<NodeId>, g: GroupView) -> Option<int>
    decreases set.len(),
{
    if set.len() == 0 {
        None
    } else {
        let i = c.topology.index_named(set[0]@);
        if model::names(c.topology.nodes@, set[0]@) && c.live(i, g) {
            Some(i)
        } else {
            contact(c, set.drop_first(), g)
        }
    }
}

/// Follow leader hints from the node at `current`, asking at most `left` nodes.
pub open spec fn follow<M>(
    c: SimulatedCluster<M>,
    g: GroupView,
    current: int,
    left: nat,
) -> LeaderResolution
    decreases left,
{
    if left == 0 {
        LeaderResolution::Exhausted
    } else if !c.live(current, g) {
        LeaderResolution::NoLeader
    } else {
        let state = c.nodes@[current].replica(g)->0;
        if state.role == Role::Leader {
            LeaderResolution::Leader(current as usize)
        } else {
            match state.leader_id {
                Some(id) => if c.live(id.0 as int, g) && id.0 != current {
                    follow(c, g, id.0 as int, (left - 1) as nat)
                } else {
                    LeaderResolution::NoLeader
                },
                None => LeaderResolution::NoLeader,
            }
        }
    }
}

/// Who answers for `g`: a client asks the first member of the replica set that is up,
/// and follows up to five leader hints from there.
pub open spec fn resolution<M>(c: SimulatedCluster<M>, g: GroupView) -> LeaderResolution {
    match c.topology.set_of(g) {
        Some(set) => match contact(c, set, g) {
            Some(first) => follow(c, g, first, 6),
            None => LeaderResolution::NoLeader,
        },
        None => LeaderResolution::NoLeader,
    }
}

/// The first member of `set` that is up and hosts `group`.
fn first_contact<M>(cluster: &SimulatedCluster<M>, set: &[NodeId], group: &GroupKey) -> (r: Option<
    usize,
>)
    requires
        cluster.wf(),
    ensures
        match r {
            Some(i) => contact(*cluster, set@, group@) == Some(i as int) && cluster.live(
                i as int,
                group@,
            ),
            None => contact(*cluster, set@, group@) is None,
        },
{
    let mut k: usize = 0;
    assert(set@.skip(0) =~= set@);
    while k < set.len()
        invariant
            k <= set@.len(),
            cluster.wf(),
            contact(*cluster, set@, group@) == contact(*cluster, set@.skip(k as int), group@),
        decreases set@.len() - k,
    {
        assert(set@.skip(k as int)[0] == set@[k as int]);
        assert(set@.skip(k as int).drop_first() =~= set@.skip(k + 1));
        match cluster.index_of(&set[k]) {
            Some(i) => {
                assert(cluster.nodes@[i as int].wf(cluster.topology));
                assert(cluster.topology.index_named(set@[k as int]@) == i);
                if cluster.nodes[i].running {
                    match cluster.nodes[i].replica_of(group) {
                        Some(state) => {
                            return Some(i);
                        },
                        None => {},
                    }
                }
            },
            None => {},
        }
        k += 1;
    }
    None
}

/// Who answers for `group`.
pub fn resolve_leader<M>(cluster: &SimulatedCluster<M>, group: &GroupKey) -> (r: LeaderResolution)
    requires
        cluster.wf(),
    ensures
        r == resolution(*cluster, group@),
        r matches LeaderResolution::Leader(i) ==> cluster.live(i as int, group@)
            && cluster.nodes@[i as int].replica(group@)->0.role == Role::Leader,
{
    let set = match cluster.topology.replica_set_for_group(group) {
        Some(set) => set,
        None => {
            return LeaderResolution::NoLeader;
        },
    };
    let mut current: usize = match first_contact(cluster, set, group) {
        Some(i) => i,
        None => {
            return LeaderResolution::NoLeader;
        },
    };
    let mut left: u8 = MAX_REDIRECT_HOPS + 1;
    while left > 0
        invariant
            left <= 6,
            cluster.wf(),
            cluster.live(current as int, group@),
            resolution(*cluster, group@) == follow(
                *cluster,
                group@,
                current as int,
                left as nat,
            ),
        decreases left,
    {
        assert(cluster.nodes@[current as int].wf(cluster.topology));
        let state = match cluster.nodes[current].replica_of(group) {
            Some(state) => state,
            None => {
                return LeaderResolution::NoLeader;
            },
        };
        if state.role == Role::Leader {
            return LeaderResolution::Leader(current);
        }
        let hint = match state.leader_id {
            Some(id) => id,
            None => {
                return LeaderResolution::NoLeader;
            },
        };
        let name = match cluster.topology.domain_id(hint) {
            Some(name) => name,
            None => {
                return LeaderResolution::NoLeader;
            },
        };
        let next: usize = match cluster.index_of(name) {
            Some(next) => next,
            None => {
                proof {
                    cluster.topology.lemma_index(hint.0 as int);
                }
                return LeaderResolution::NoLeader;
            },
        };
        proof {
            cluster.topology.lemma_index(hint.0 as int);
            assert(next == hint.0);
        }
        assert(cluster.nodes@[next as int].wf(cluster.topology));
        if !cluster.nodes[next].running || next == current {
            return LeaderResolution::NoLeader;
        }
        match cluster.nodes[next].replica_of(group) {
            Some(s) => {},
            None => {
                return LeaderResolution::NoLeader;
            },
        }
        current = next;
        left = left - 1;
    }
    LeaderResolution::Exhausted
}

/// A leader that is found leads its group on a node that is up.
pub proof fn law_resolved_leader_leads<M>(c: SimulatedCluster<M>, g: GroupView)
    ensures
        resolution(c, g) matches LeaderResolution::Leader(i) ==> exists|k: int| #[trigger]
            c.live(k, g) && i == k as usize && c.nodes@[k].replica(g)->0.role == Role::Leader,
{
    match c.topology.set_of(g) {
        Some(set) => match contact(c, set, g) {
            Some(first) => {
                lemma_follow_leads(c, g, first, 6);
            },
            None => {},
        },
        None => {},
    }
}

proof fn lemma_follow_leads<M>(c: SimulatedCluster<M>, g: GroupView, current: int, left: nat)
    ensures
        follow(c, g, current, left) matches LeaderResolution::Leader(i) ==> exists|k: int| #[trigger]
            c.live(k, g) && i == k as usize && c.nodes@[k].replica(g)->0.role == Role::Leader,
    decreases left,
{
    if left > 0 && c.live(current, g) {
        let state = c.nodes@[current].replica(g)->0;
        match state.leader_id {
            Some(id) => {
                lemma_follow_leads(c, g, id.0 as int, (left - 1) as nat);
            },
            None => {},
        }
    }
}

/// The index of the entry that a replica in `state` would append next.
pub open spec fn next_index(state: ReplicaState) -> u64 {
    match state.last_index {
        Some(last) => crate::scheduler::capped(last + 1),
        None => 0,
    }
}

/// The index of the entry that the replica of `group` at `index` would append next.
pub fn leader_next_index<M>(cluster: &SimulatedCluster<M>, index: usize, group: &GroupKey) -> (r:
    u64)
    requires
        cluster.wf(),
    ensures
        r == (if index < cluster.nodes@.len() && cluster.nodes@[index as int].hosts(group@) {
            next_index(cluster.nodes@[index as int].replica(group@)->0)
        } else {
            0
        }),
{
    if index >= cluster.nodes.len() {
        return 0;
    }
    assert(cluster.nodes@[index as int].wf(cluster.topology));
    match cluster.nodes[index].replica_of(group) {
        Some(state) => match state.last_index {
            Some(last) => last.saturating_add(1),
            None => 0,
        },
        None => 0,
    }
}

/// The first entry at `target`.
pub open spec fn entry_in(log: Seq<LogEntryView>, target: u64) -> Option<LogEntryView>
    decreases log.len(),
{
    if log.len() == 0 {
        None
    } else if log[0].index == target {
        Some(log[0])
    } else {
        entry_in(log.drop_first(), target)
    }
}

proof fn lemma_entry_in(log: Seq<LogEntryView>, target: u64, i: int)
    requires
        0 <= i <= log.len(),
        forall|k: int| 0 <= k < i ==> (#[trigger] log[k]).index != target,
    ensures
        i == log.len() ==> entry_in(log, target) is None,
        i < log.len() && log[i].index == target ==> entry_in(log, target) == Some(log[i]),
    decreases i,
{
    if i > 0 {
        let rest = log.drop_first();
        assert(log[0].index != target);
        assert forall|k: int| 0 <= k < i - 1 implies (#[trigger] rest[k]).index != target by {
            assert(rest[k] == log[k + 1]);
        }
        lemma_entry_in(rest, target, i - 1);
    }
}

/// Whether a node is up with a replica of `g` that has committed up to `target`.
pub open spec fn has_committed(node: SimNode, g: GroupView, target: u64) -> bool {
    &&& node.running
    &&& node.replica(g) matches Some(s) && s.commit_index matches Some(c) && c >= target
}

/// The first node that is up with a replica of `g` that has committed up to `target`.
pub open spec fn first_committed(nodes: Seq<SimNode>, g: GroupView, target: u64) -> Option<
    ReplicaState,
>
    decreases nodes.len(),
{
    if nodes.len() == 0 {
        None
    } else if has_committed(nodes[0], g, target) {
        nodes[0].replica(g)
    } else {
        first_committed(nodes.drop_first(), g, target)
    }
}

/// The first replica of `group`, in node order, that has committed up to `target`.
fn find_committed<'a, M>(cluster: &'a SimulatedCluster<M>, group: &GroupKey, target: u64) -> (r:
    Option<&'a ReplicaState>)
    requires
        cluster.wf(),
    ensures
        match r {
            Some(s) => first_committed(cluster.nodes@, group@, target) == Some(*s),
            None => first_committed(cluster.nodes@, group@, target) is None,
        },
{
    let ghost nodes = cluster.nodes@;
    let mut i: usize = 0;
    assert(nodes.skip(0) =~= nodes);
    while i < cluster.nodes.len()
        invariant
            i <= nodes.len(),
            nodes == cluster.nodes@,
            cluster.wf(),
            first_committed(nodes, group@, target) == first_committed(
                nodes.skip(i as int),
                group@,
                target,
            ),
        decreases nodes.len() - i,
    {
        assert(nodes.skip(i as int)[0] == nodes[i as int]);
        assert(nodes.skip(i as int).drop_first() =~= nodes.skip(i + 1));
        assert(nodes[i as int].wf(cluster.topology));
        let node = &cluster.nodes[i];
        if node.running {
            match node.replica_of(group) {
                Some(state) => match state.commit_index {
                    Some(c) => {
                        if c >= target {
                            return Some(state);
                        }
                    },
                    None => {},
                },
                None => {},
            }
        }
        i += 1;
    }
    None
}

/// The entry committed at `target` in `g`, as the first replica that has committed so
/// far shows it.
pub open spec fn committed_at(nodes: Seq<SimNode>, g: GroupView, target: u64) -> Option<
    LogEntryView,
> {
    match first_committed(nodes, g, target) {
        Some(state) => entry_in(raft_safety::entry_views(state.log@), target),
        None => None,
    }
}

/// The entry committed at `target` in `group`.
pub fn committed_entry_at<'a, M>(
    cluster: &'a SimulatedCluster<M>,
    group: &GroupKey,
    target: u64,
) -> (r: Option<&'a LogEntry>)
    requires
        cluster.wf(),
    ensures
        match r {
            Some(e) => committed_at(cluster.nodes@, group@, target) == Some(e@),
            None => committed_at(cluster.nodes@, group@, target) is None,
        },
{
    let state = match find_committed(cluster, group, target) {
        Some(state) => state,
        None => {
            return None;
        },
    };
    let ghost log = raft_safety::entry_views(state.log@);
    let mut i: usize = 0;
    while i < state.log.len()
        invariant
            i <= state.log@.len(),
            log == raft_safety::entry_views(state.log@),
            first_committed(cluster.nodes@, group@, target) == Some(*state),
            forall|k: int| 0 <= k < i ==> (#[trigger] log[k]).index != target,
        decreases state.log@.len() - i,
    {
        assert(log[i as int] == state.log@[i as int]@);
        if state.log[i].index == target {
            proof {
                lemma_entry_in(log, target, i as int);
            }
            return Some(&state.log[i]);
        }
        i += 1;
    }
    proof {
        lemma_entry_in(log, target, i as int);
    }
    None
}

/// How many of the first `n` entries are records at or below `target`.
pub open spec fn records_upto(log: Seq<LogEntryView>, target: u64, n: nat) -> nat
    decreases n,
{
    if n == 0 {
        0
    } else {
        records_upto(log, target, (n - 1) as nat) + if log[n - 1].index <= target && log[n
            - 1].payload.kind == PayloadKind::Record {
            1nat
        } else {
            0nat
        }
    }
}

/// The offset of the record committed at `target` in `g`: the number of records before
/// it.
pub open spec fn offset_of(nodes: Seq<SimNode>, g: GroupView, target: u64) -> u64 {
    match first_committed(nodes, g, target) {
        Some(state) => {
            let n = records_upto(raft_safety::entry_views(state.log@), target, state.log@.len());
            if n == 0 {
                0
            } else {
                (n - 1) as u64
            }
        },
        None => 0,
    }
}

/// The offset of the record committed at `target` in `group`.
pub fn offset_at<M>(cluster: &SimulatedCluster<M>, group: &GroupKey, target: u64) -> (r: Offset)
    requires
        cluster.wf(),
    ensures
        r == offset_of(cluster.nodes@, group@, target),
{
    let state = match find_committed(cluster, group, target) {
        Some(state) => state,
        None => {
            return 0;
        },
    };
    let ghost log = raft_safety::entry_views(state.log@);
    let mut count: u64 = 0;
    let mut i: usize = 0;
    while i < state.log.len()
        invariant
            i <= state.log@.len(),
            log == raft_safety::entry_views(state.log@),
            count == records_upto(log, target, i as nat),
            count <= i,
        decreases state.log@.len() - i,
    {
        assert(log[i as int] == state.log@[i as int]@);
        if state.log[i].index <= target && state.log[i].payload.kind == PayloadKind::Record {
            count += 1;
        }
        i += 1;
    }
    if count == 0 {
        0
    } else {
        count - 1
    }
}

/// What a pending operation is answered once its target index is committed: success
/// where what was proposed is what is committed there.
pub open spec fn answer_to(nodes: Seq<SimNode>, p: Pending, e: LogEntryView) -> OpResponseView {
    if e.payload.kind != p.kind.payload() || e.payload.bytes != p.expected@ {
        OpResponseView::Error { message: "proposal superseded before commit"@ }
    } else {
        match p.kind {
            PendingKind::Produce => OpResponseView::ProduceOk {
                topic: p.args.topic_text(),
                partition: p.args.partition_index()->0,
                value: p.args@->Produce_value,
                offset: offset_of(nodes, p.group@, p.target),
            },
            PendingKind::CreateTopic { name } => OpResponseView::CreateTopicOk { topic: name@ },
            PendingKind::DeleteTopic { name } => OpResponseView::DeleteTopicOk { topic: name@ },
        }
    }
}

/// What is recorded of a pending operation at `now`; nothing while its target index is
/// not committed.
pub open spec fn settlement(nodes: Seq<SimNode>, p: Pending, now: VirtualInstant) -> Option<
    RecordedOpView,
> {
    match committed_at(nodes, p.group@, p.target) {
        Some(e) => Some(
            RecordedOpView {
                kind: p.args.op_kind(),
                args: p.args@,
                invoked_at: p.invoked_at,
                responded_at: now,
                response: answer_to(nodes, p, e),
            },
        ),
        None => None,
    }
}

/// Record the answer of a pending operation whose target index is committed, at its
/// place among the operations recorded since it was invoked; the operation comes back
/// where the index is not committed.
pub fn settle<M>(
    cluster: &SimulatedCluster<M>,
    history: &mut History,
    op: Pending,
    now: VirtualInstant,
) -> (r: Option<Pending>)
    requires
        cluster.wf(),
        op.wf(),
        kafka_parity::consumes_fit(old(history).ops@),
    ensures
        kafka_parity::consumes_fit(final(history).ops@),
        match settlement(cluster.nodes@, op, now) {
            Some(view) => r is None && old(history).admitted(*final(history), view),
            None => r == Some(op) && *final(history) == *old(history),
        },
{
    let proposed = match committed_entry_at(cluster, &op.group, op.target) {
        Some(entry) => entry.payload.kind == op.kind.payload_kind() && model::same_bytes(
            entry.payload.bytes.as_slice(),
            op.expected.as_slice(),
        ),
        None => {
            return Some(op);
        },
    };
    let response = if !proposed {
        OpResponse::Error { message: "proposal superseded before commit".to_owned() }
    } else {
        match op.kind {
            PendingKind::Produce => {
                let offset = offset_at(cluster, &op.group, op.target);
                produce_ok(&op.args, offset)
            },
            PendingKind::CreateTopic { name } => OpResponse::CreateTopicOk { topic: name },
            PendingKind::DeleteTopic { name } => OpResponse::DeleteTopicOk { topic: name },
        }
    };
    let ghost before = history.ops@;
    let recorded = RecordedOp::new(op.args, op.invoked_at, now, response);
    history.place(recorded);
    proof {
        history::lemma_place_is_within(history::op_views(before), recorded.invoked_at);
        kafka_parity::lemma_consumes_fit_with(
            before,
            history::place_of(history::op_views(before), recorded.invoked_at),
            recorded,
        );
    }
    None
}

/// What a produce is answered that was acknowledged at `offset`.
fn produce_ok(args: &OpArgs, offset: Offset) -> (r: OpResponse)
    requires
        args is Produce,
    ensures
        r@ == (OpResponseView::ProduceOk {
            topic: args.topic_text(),
            partition: args.partition_index()->0,
            value: args@->Produce_value,
            offset,
        }),
{
    match args {
        OpArgs::Produce { topic, partition, key, value } => OpResponse::ProduceOk {
            topic: topic.clone(),
            partition: *partition,
            value: model::clone_bytes(value.as_slice()),
            offset,
        },
        _ => {
            assert(false);
            OpResponse::NoLeader
        },
    }
}

/// The `p`-th partition of a new topic: its replica set, and no leader yet.
pub open spec fn new_partition(topology: Topology, p: int) -> PartitionView {
    PartitionView {
        index: PartitionIndex(p as u32),
        replicas: model::node_names(topology.replica_sets@[p]@),
        leader: None,
    }
}

/// The command that creates `name`, with at most as many partitions as the cluster
/// has replica sets.
pub open spec fn create_command(
    topology: Topology,
    name: Seq<char>,
    partition_count: u32,
) -> CommandView {
    let count = if partition_count < topology.partitions {
        partition_count
    } else {
        topology.partitions
    };
    CommandView::CreateTopic {
        name,
        partitions: Seq::new(count as nat, |p: int| new_partition(topology, p)),
        backend: LogBackend::InMemory,
    }
}

/// The command that creates `name`.
pub fn build_create_topic(topology: &Topology, name: &str, partition_count: u32) -> (r:
    ClusterCommand)
    requires
        topology.wf(),
    ensures
        r@ == create_command(*topology, name@, partition_count),
{
    let count: u32 = if partition_count < topology.partitions {
        partition_count
    } else {
        topology.partitions
    };
    let mut partitions: Vec<Partition> = Vec::new();
    let mut p: u32 = 0;
    while p < count
        invariant
            p <= count,
            count <= topology.partitions,
            topology.wf(),
            partitions@.len() == p,
            forall|k: int|
                0 <= k < p ==> (#[trigger] partitions@[k])@ == new_partition(*topology, k),
        decreases count - p,
    {
        let replicas = match topology.replica_set_for(PartitionIndex(p)) {
            Some(set) => model::clone_nodes(set),
            None => Vec::new(),
        };
        let partition = Partition { index: PartitionIndex(p), replicas, leader: None };
        partitions.push(partition);
        p += 1;
    }
    let ghost wanted = create_command(*topology, name@, partition_count);
    assert(model::partition_views(partitions@) =~= wanted->CreateTopic_partitions);
    ClusterCommand::CreateTopic {
        name: name.to_owned(),
        partitions,
        backend: LogBackend::InMemory,
    }
}

/// The records that a consume of at most `max` records from `start` returns: what is
/// committed from there on, without keys.
pub open spec fn consumed(state: ReplicaState, start: u64, max: u32) -> Seq<RecordView> {
    let len = state.records@.len();
    let end = if start + max < len {
        start + max
    } else {
        len as int
    };
    Seq::new(
        (end - start) as nat,
        |i: int| RecordView { key: None, value: state.records@[start + i].value@ },
    )
}

/// Where a consume that asks for `start_offset` starts: no further than the end of the
/// committed records.
pub open spec fn clamped_start(state: ReplicaState, start_offset: u64) -> u64 {
    if start_offset < state.records@.len() {
        start_offset
    } else {
        state.records@.len() as u64
    }
}

/// Read at most `max` committed records from `start_offset` on.
pub fn read_records(state: &ReplicaState, start_offset: Offset, max: u32) -> (r: (Offset, Vec<
    Record,
>))
    ensures
        r.0 == clamped_start(*state, start_offset),
        history::record_views(r.1@) == consumed(*state, r.0, max),
        r.0 + r.1@.len() <= state.records@.len() <= u64::MAX,
        r.0 as int == vstd::math::min(start_offset as int, state.records@.len() as int),
        r.1@.len() == vstd::math::min(max as int, state.records@.len() - r.0),
        forall|i: int|
            0 <= i < r.1@.len() ==> (#[trigger] r.1@[i]).key is None && r.1@[i].value@
                == state.records@[r.0 + i].value@,
{
    let len: usize = state.records.len();
    let start: usize = if start_offset < len as u64 {
        start_offset as usize
    } else {
        len
    };
    let end: usize = if (max as u64) < (len - start) as u64 {
        start + max as usize
    } else {
        len
    };
    let mut records: Vec<Record> = Vec::new();
    let mut i: usize = start;
    while i < end
        invariant
            start <= i <= end,
            end <= len,
            len == state.records@.len(),
            records@.len() == i - start,
            forall|k: int|
                0 <= k < i - start ==> (#[trigger] records@[k])@ == (RecordView {
                    key: None,
                    value: state.records@[start + k].value@,
                }),
        decreases end - i,
    {
        let value = model::clone_bytes(state.records[i].value.as_slice());
        records.push(Record { key: None, value });
        i += 1;
    }
    assert forall|k: int| 0 <= k < records@.len() implies (#[trigger] records@[k]).key is None
        && records@[k].value@ == state.records@[start + k].value@ by {
        assert(records@[k]@.key is None);
    }
    assert(history::record_views(records@) =~= consumed(*state, start as u64, max));
    (start as u64, records)
}

/// A consume starts where it asks to, or at the end where that is past it; it returns no
/// more records than it asks for, and all there are where those are fewer: the committed
/// ones from its start on, in order, without their keys.
pub proof fn law_a_consume_returns_what_it_asks_for(state: ReplicaState, start: u64, max: u32)
    requires
        state.records@.len() <= u64::MAX,
    ensures
        ({
            let from = clamped_start(state, start);
            let read = consumed(state, from, max);
            let len = state.records@.len();
            &&& start <= len ==> from == start
            &&& start > len ==> from == len
            &&& read.len() <= max
            &&& from + read.len() <= len
            &&& read.len() < max ==> from + read.len() == len
            &&& forall|i: int|
                0 <= i < read.len() ==> (#[trigger] read[i]).key is None && read[i].value
                    == state.records@[from + i].value@
        }),
{
}

/// Two consumes, the second from where the first left off, return what one consume of
/// both sizes does.
pub proof fn law_consumes_go_on_where_they_left_off(
    state: ReplicaState,
    start: u64,
    first: u32,
    second: u32,
)
    requires
        start <= state.records@.len() <= u64::MAX,
        first + second <= u32::MAX,
    ensures
        ({
            let read = consumed(state, start, first);
            consumed(state, start, (first + second) as u32) == read + consumed(
                state,
                (start + read.len()) as u64,
                second,
            )
        }),
{
    let read = consumed(state, start, first);
    let rest = consumed(state, (start + read.len()) as u64, second);
    assert(consumed(state, start, (first + second) as u32) =~= read + rest);
}

/// An entry is taken to be committed by the first node that runs, holds the group and has
/// committed that far; where no node has, there is none. The result is that node.
pub proof fn law_the_first_that_committed_answers(
    nodes: Seq<SimNode>,
    g: GroupView,
    target: u64,
) -> (i: int)
    ensures
        match first_committed(nodes, g, target) {
            Some(state) => {
                &&& 0 <= i < nodes.len()
                &&& nodes[i].running
                &&& nodes[i].replica(g) == Some(state)
                &&& state.commit_index is Some
                &&& state.commit_index->0 >= target
                &&& forall|j: int|
                    0 <= j < i && (#[trigger] nodes[j]).running && (nodes[j].replica(
                        g,
                    ) matches Some(s) && s.commit_index is Some)
                        ==> nodes[j].replica(g)->0.commit_index->0 < target
            },
            None => forall|j: int|
                0 <= j < nodes.len() && (#[trigger] nodes[j]).running && (nodes[j].replica(
                    g,
                ) matches Some(s) && s.commit_index is Some)
                    ==> nodes[j].replica(g)->0.commit_index->0 < target,
        },
    decreases nodes.len(),
{
    if nodes.len() == 0 {
        -1
    } else if nodes[0].running && (nodes[0].replica(g) matches Some(s) && s.commit_index matches Some(
        c,
    ) && c >= target) {
        assert(has_committed(nodes[0], g, target));
        0
    } else {
        let rest = nodes.drop_first();
        let i = law_the_first_that_committed_answers(rest, g, target);
        assert forall|j: int| 1 <= j < nodes.len() implies #[trigger] nodes[j] == rest[j - 1] by {}
        i + 1
    }
}

/// The entry at an index is the first of the log that has it; there is none where no entry
/// has the index. The result is its place.
pub proof fn law_the_first_entry_at_an_index(log: Seq<LogEntryView>, target: u64) -> (k: int)
    ensures
        match entry_in(log, target) {
            Some(e) => {
                &&& 0 <= k < log.len()
                &&& e == log[k]
                &&& e.index == target
                &&& forall|j: int| 0 <= j < k ==> (#[trigger] log[j]).index != target
            },
            None => forall|j: int| 0 <= j < log.len() ==> (#[trigger] log[j]).index != target,
        },
    decreases log.len(),
{
    if log.len() == 0 {
        -1
    } else if log[0].index == target {
        0
    } else {
        let rest = log.drop_first();
        let k = law_the_first_entry_at_an_index(rest, target);
        assert forall|j: int| 1 <= j < log.len() implies #[trigger] log[j] == rest[j - 1] by {}
        k + 1
    }
}

/// Whether an entry is a client's record at an index up to `target`.
pub open spec fn record_upto(e: LogEntryView, target: u64) -> bool {
    e.payload.kind is Record && e.index <= target
}

/// The records counted up to an index are the client records of the log there, each once.
pub proof fn law_records_are_counted(log: Seq<LogEntryView>, target: u64, n: nat)
    requires
        n <= log.len(),
    ensures
        records_upto(log, target, n) == log.take(n as int).filter(
            |e: LogEntryView| record_upto(e, target),
        ).len(),
    decreases n,
{
    let keep = |e: LogEntryView| record_upto(e, target);
    reveal(Seq::filter);
    if n > 0 {
        law_records_are_counted(log, target, (n - 1) as nat);
        assert(log.take(n as int).drop_last() =~= log.take(n - 1));
        assert(log.take(n as int).last() == log[n - 1]);
    }
}

/// The offset of a committed record is the number of client records before it in the log
/// of the node that answers for it.
pub proof fn law_offsets_count_the_records_before(
    nodes: Seq<SimNode>,
    g: GroupView,
    target: u64,
    k: int,
)
    requires
        first_committed(nodes, g, target) is Some,
        first_committed(nodes, g, target)->0.log@.len() <= u64::MAX,
        ({
            let log = raft_safety::entry_views(first_committed(nodes, g, target)->0.log@);
            &&& 0 <= k < log.len()
            &&& log[k].index == target
            &&& log[k].payload.kind is Record
            &&& forall|i: int, j: int|
                0 <= i < j < log.len() ==> (#[trigger] log[i]).index < (#[trigger] log[j]).index
        }),
    ensures
        ({
            let log = raft_safety::entry_views(first_committed(nodes, g, target)->0.log@);
            offset_of(nodes, g, target) == log.take(k).filter(
                |e: LogEntryView| e.payload.kind is Record,
            ).len()
        }),
{
    let log = raft_safety::entry_views(first_committed(nodes, g, target)->0.log@);
    let all = |e: LogEntryView| e.payload.kind is Record;
    lemma_records_before(log, target, k, k as nat);
    lemma_records_after(log, target, k, log.len());
    assert(records_upto(log, target, (k + 1) as nat) == records_upto(log, target, k as nat) + 1);
    lemma_count_bound(log, target, k as nat);
}

proof fn lemma_count_bound(log: Seq<LogEntryView>, target: u64, n: nat)
    ensures
        records_upto(log, target, n) <= n,
    decreases n,
{
    if n > 0 {
        lemma_count_bound(log, target, (n - 1) as nat);
    }
}

proof fn lemma_records_before(log: Seq<LogEntryView>, target: u64, k: int, n: nat)
    requires
        n <= k < log.len(),
        log[k].index == target,
        forall|i: int, j: int|
            0 <= i < j < log.len() ==> (#[trigger] log[i]).index < (#[trigger] log[j]).index,
    ensures
        records_upto(log, target, n) == log.take(n as int).filter(
            |e: LogEntryView| e.payload.kind is Record,
        ).len(),
    decreases n,
{
    reveal(Seq::filter);
    if n > 0 {
        lemma_records_before(log, target, k, (n - 1) as nat);
        assert(log.take(n as int).drop_last() =~= log.take(n - 1));
        assert(log.take(n as int).last() == log[n - 1]);
        assert(log[n - 1].index < log[k].index);
    }
}

proof fn lemma_records_after(log: Seq<LogEntryView>, target: u64, k: int, n: nat)
    requires
        0 <= k < n <= log.len(),
        log[k].index == target,
        forall|i: int, j: int|
            0 <= i < j < log.len() ==> (#[trigger] log[i]).index < (#[trigger] log[j]).index,
    ensures
        records_upto(log, target, n) == records_upto(log, target, (k + 1) as nat),
    decreases n,
{
    if n > k + 1 {
        lemma_records_after(log, target, k, (n - 1) as nat);
        assert(log[k].index < log[n - 1].index);
    }
}

/// What a pending operation is answered. While no node has its entry committed it waits.
/// Where the entry there is not what was proposed, it was superseded; otherwise it is told
/// that it succeeded: a produce with its own topic, partition and value and the offset of
/// its record, a create or a delete with its topic. It is recorded as it was invoked, and
/// answered now.
pub proof fn law_pending_operations_are_answered(
    nodes: Seq<SimNode>,
    p: Pending,
    now: VirtualInstant,
)
    requires
        p.wf(),
    ensures
        settlement(nodes, p, now) is None <==> committed_at(nodes, p.group@, p.target) is None,
        settlement(nodes, p, now) matches Some(op) ==> {
            let e = committed_at(nodes, p.group@, p.target)->0;
            let same = e.payload.bytes == p.expected@ && (e.payload.kind is Record
                <==> p.kind is Produce);
            &&& op.args == p.args@
            &&& op.invoked_at == p.invoked_at
            &&& op.responded_at == now
            &&& !same ==> op.response == OpResponseView::Error {
                message: "proposal superseded before commit"@,
            }
            &&& same && p.kind is Produce ==> {
                &&& op.response is ProduceOk
                &&& p.args matches OpArgs::Produce { topic, partition, value, .. } && {
                    &&& op.response->ProduceOk_topic == topic@
                    &&& op.response->ProduceOk_partition == partition
                    &&& op.response->ProduceOk_value == value@
                }
                &&& op.response->ProduceOk_offset == offset_of(nodes, p.group@, p.target)
            }
            &&& same && p.kind is CreateTopic ==> op.response == OpResponseView::CreateTopicOk {
                topic: p.kind->CreateTopic_name@,
            }
            &&& same && p.kind is DeleteTopic ==> op.response == OpResponseView::DeleteTopicOk {
                topic: p.kind->DeleteTopic_name@,
            }
        },
{
}

/// The next index of a log is the one after its last, and zero for an empty one.
pub proof fn law_proposals_go_behind_the_log(state: ReplicaState)
    ensures
        state.last_index is None ==> next_index(state) == 0,
        state.last_index matches Some(last) ==> last < u64::MAX ==> next_index(state) == last + 1,
{
}

/// A topic is created with as many partitions as asked for, or as the topology has where
/// those are fewer; each is held by its replica set, in order, and has no leader yet.
pub proof fn law_topics_are_created_on_their_replica_sets(
    topology: Topology,
    name: Seq<char>,
    partition_count: u32,
)
    ensures
        ({
            let command = create_command(topology, name, partition_count);
            let partitions = command->CreateTopic_partitions;
            &&& command is CreateTopic
            &&& command->CreateTopic_name == name
            &&& command->CreateTopic_backend is InMemory
            &&& partitions.len() == vstd::math::min(
                partition_count as int,
                topology.partitions as int,
            )
            &&& forall|p: int|
                0 <= p < partitions.len() ==> {
                    let set = topology.replica_sets@[p]@;
                    &&& (#[trigger] partitions[p]).index.0 == p
                    &&& partitions[p].leader is None
                    &&& partitions[p].replicas.len() == set.len()
                    &&& forall|r: int|
                        0 <= r < set.len() ==> #[trigger] partitions[p].replicas[r] == set[r].0@
                }
        }),
{
}

/// Whether a node runs a replica of the group.
pub open spec fn answers<M>(c: SimulatedCluster<M>, i: int, g: GroupView) -> bool {
    0 <= i < c.nodes@.len() && c.nodes@[i].running && c.nodes@[i].replica(g) is Some
}

/// The first member of a group's set that runs a replica of it is contacted; none is where
/// no member does. The result is its place in the set.
pub proof fn law_the_first_running_member_is_contacted<M>(
    c: SimulatedCluster<M>,
    set: Seq<NodeId>,
    g: GroupView,
) -> (k: int)
    ensures
        match contact(c, set, g) {
            Some(i) => {
                &&& 0 <= k < set.len()
                &&& answers(c, i, g)
                &&& i == c.topology.index_named(set[k].0@)
                &&& forall|j: int|
                    0 <= j < k ==> !(model::names(c.topology.nodes@, (#[trigger] set[j]).0@)
                        && answers(c, c.topology.index_named(set[j].0@), g))
            },
            None => forall|j: int|
                0 <= j < set.len() ==> !(model::names(c.topology.nodes@, (#[trigger] set[j]).0@)
                    && answers(c, c.topology.index_named(set[j].0@), g)),
        },
    decreases set.len(),
{
    if set.len() == 0 {
        -1
    } else if model::names(c.topology.nodes@, set[0].0@) && answers(
        c,
        c.topology.index_named(set[0].0@),
        g,
    ) {
        0
    } else {
        let rest = set.drop_first();
        let k = law_the_first_running_member_is_contacted(c, rest, g);
        assert forall|j: int| 1 <= j < set.len() implies #[trigger] set[j] == rest[j - 1] by {}
        k + 1
    }
}

/// From the first contact on, each node that does not lead is asked for the leader it
/// knows of, as long as hints are left. The search ends at a node that leads; at one that
/// knows of no other that runs a replica; or when the hints are used up. The result is the
/// nodes asked, in turn.
pub proof fn law_hints_are_followed_to_the_leader<M>(
    c: SimulatedCluster<M>,
    g: GroupView,
    current: int,
    left: nat,
) -> (path: Seq<int>)
    requires
        answers(c, current, g),
        c.nodes@.len() <= usize::MAX,
    ensures
        left > 0 ==> path.len() > 0 && path[0] == current,
        path.len() <= left,
        forall|t: int| 0 <= t < path.len() ==> answers(c, #[trigger] path[t], g),
        forall|t: int|
            0 <= t < path.len() - 1 ==> {
                let state = c.nodes@[#[trigger] path[t]].replica(g)->0;
                &&& !(state.role is Leader)
                &&& state.leader_id is Some
                &&& (state.leader_id->0).0 == path[t + 1]
                &&& path[t + 1] != path[t]
            },
        match follow(c, g, current, left) {
            LeaderResolution::Leader(i) => {
                &&& path.len() > 0
                &&& path.last() == i
                &&& c.nodes@[i as int].replica(g)->0.role is Leader
            },
            LeaderResolution::NoLeader => {
                let state = c.nodes@[path.last()].replica(g)->0;
                &&& path.len() > 0
                &&& !(state.role is Leader)
                &&& state.leader_id matches Some(id) ==> id.0 == path.last() || !answers(
                    c,
                    id.0 as int,
                    g,
                )
            },
            LeaderResolution::Exhausted => {
                &&& path.len() == left
                &&& left > 0 ==> !(c.nodes@[path.last()].replica(g)->0.role is Leader)
            },
        },
    decreases left,
{
    if left == 0 {
        Seq::empty()
    } else {
        let state = c.nodes@[current].replica(g)->0;
        assert(c.live(current, g));
        if state.role is Leader {
            seq![current]
        } else if state.leader_id is Some && c.live((state.leader_id->0).0 as int, g) && (
        state.leader_id->0).0 != current {
            let next = (state.leader_id->0).0 as int;
            let rest = law_hints_are_followed_to_the_leader(c, g, next, (left - 1) as nat);
            let path = seq![current] + rest;
            assert forall|t: int| 0 <= t < path.len() implies answers(c, #[trigger] path[t], g) by {
                if t > 0 {
                    assert(path[t] == rest[t - 1]);
                }
            }
            assert forall|t: int| 0 <= t < path.len() - 1 implies {
                let state = c.nodes@[#[trigger] path[t]].replica(g)->0;
                &&& !(state.role is Leader)
                &&& state.leader_id is Some
                &&& (state.leader_id->0).0 == path[t + 1]
                &&& path[t + 1] != path[t]
            } by {
                if t > 0 {
                    assert(path[t] == rest[t - 1]);
                    assert(path[t + 1] == rest[t]);
                } else {
                    assert(path[1] == rest[0]);
                }
            }
            if rest.len() > 0 {
                assert(path.last() == rest.last());
            } else {
                assert(path.last() == current);
            }
            path
        } else {
            seq![current]
        }
    }
}

/// A leader is looked for among the members of its group, by at most five redirects.
pub proof fn law_a_leader_is_looked_for<M>(c: SimulatedCluster<M>, g: GroupView)
    ensures
        ({
            let set = if g.0 == "__meta"@ && g.1.0 == 0 {
                c.topology.nodes@
            } else {
                c.topology.replica_sets@[g.1.0 as int]@
            };
            let known = (g.0 == "__meta"@ && g.1.0 == 0) || g.1.0 < c.topology.partitions;
            &&& !known ==> resolution(c, g) is NoLeader
            &&& known && contact(c, set, g) is None ==> resolution(c, g) is NoLeader
            &&& known && contact(c, set, g) is Some ==> resolution(c, g) == follow(
                c,
                g,
                contact(c, set, g)->0,
                1 + 5,
            )
        }),
{
}

} // verus!
