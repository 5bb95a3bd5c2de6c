//! The simulated cluster: its nodes, what each of them hosts, and what crashes,
//! restarts and catalogue changes do to that.
//!
//! The consensus state machines themselves run outside; this module keeps what was
//! last observed of each of them, and decides which of them exist.

use crate::clock::SimClock;
use crate::groups;
use crate::keyed::KeyedMap;
use crate::model::{
    self, CommittedRecord, GroupKey, GroupView, LogBackend, LogEntry, NodeId, Partition,
    PartitionView, RaftNodeId, Role,
};
use crate::network::{SimNetwork, SimTransport};
use crate::rng::{SeedStreams, SplitMix64};
use crate::scenario::{RunConfig, ScenarioError};
use crate::scheduler::VirtualInstant;
pub use crate::topology::{peers_map_for, Topology};
use vstd::prelude::*;

verus! {

/// What is observed of one replica.
#[derive(Debug)]
pub struct ReplicaState {
    pub role: Role,
    pub term: u64,
    /// The leader that the replica last learned of.
    pub leader_id: Option<RaftNodeId>,
    pub commit_index: Option<u64>,
    pub last_index: Option<u64>,
    /// The whole log, in ascending order of index.
    pub log: Vec<LogEntry>,
    /// The committed records.
    pub records: Vec<CommittedRecord>,
}

impl ReplicaState {
    /// A replica over an empty log that has not taken a step.
    pub open spec fn is_fresh(self) -> bool {
        &&& self.role == Role::Follower
        &&& self.term == 0
        &&& self.leader_id is None
        &&& self.commit_index is None
        &&& self.last_index is None
        &&& self.log@.len() == 0
        &&& self.records@.len() == 0
    }

    pub fn fresh() -> (r: Self)
        ensures
            r.is_fresh(),
    {
        ReplicaState {
            role: Role::Follower,
            term: 0,
            leader_id: None,
            commit_index: None,
            last_index: None,
            log: Vec::new(),
            records: Vec::new(),
        }
    }
}

/// The state of a topic.
#[derive(Clone, Copy, Debug, PartialEq, Eq, Structural)]
pub enum TopicState {
    Active,
    /// Any other state, told apart by its number.
    Other(u8),
}

/// A topic of the catalogue.
#[derive(Debug, PartialEq, Eq)]
pub struct Topic {
    pub name: String,
    pub partitions: Vec<Partition>,
    pub state: TopicState,
    pub backend: LogBackend,
}

/// A topic as a mathematical value.
#[verifier::ext_equal]
pub struct TopicView {
    pub name: Seq<char>,
    pub partitions: Seq<PartitionView>,
    pub state: TopicState,
    pub backend: LogBackend,
}

impl View for Topic {
    type V = TopicView;

    open spec fn view(&self) -> TopicView {
        TopicView {
            name: self.name@,
            partitions: model::partition_views(self.partitions@),
            state: self.state,
            backend: self.backend,
        }
    }
}

fn same_names(a: &Vec<NodeId>, b: &Vec<NodeId>) -> (r: bool)
    ensures
        r == (model::node_names(a@) == model::node_names(b@)),
{
    if a.len() != b.len() {
        assert(model::node_names(a@).len() != model::node_names(b@).len());
        return false;
    }
    let mut i: usize = 0;
    while i < a.len()
        invariant
            i <= a@.len(),
            a@.len() == b@.len(),
            forall|k: int| 0 <= k < i ==> (#[trigger] a@[k])@ == b@[k]@,
        decreases a@.len() - i,
    {
        if !a[i].same(&b[i]) {
            assert(model::node_names(a@)[i as int] != model::node_names(b@)[i as int]);
            return false;
        }
        i += 1;
    }
    assert(model::node_names(a@) =~= model::node_names(b@));
    true
}

fn same_partition(a: &Partition, b: &Partition) -> (r: bool)
    ensures
        r == (a@ == b@),
{
    let leaders = match (&a.leader, &b.leader) {
        (Some(x), Some(y)) => x.same(y),
        (None, None) => true,
        _ => false,
    };
    a.index.0 == b.index.0 && leaders && same_names(&a.replicas, &b.replicas)
}

impl Topic {
    /// Whether two topics are equal.
    pub fn same(&self, other: &Topic) -> (r: bool)
        ensures
            r == (self@ == other@),
    {
        if !(self.name == other.name && self.state == other.state && self.backend
            == other.backend) {
            return false;
        }
        if self.partitions.len() != other.partitions.len() {
            assert(self@.partitions.len() != other@.partitions.len());
            return false;
        }
        let mut i: usize = 0;
        while i < self.partitions.len()
            invariant
                i <= self.partitions@.len(),
                self.partitions@.len() == other.partitions@.len(),
                forall|k: int|
                    0 <= k < i ==> (#[trigger] self.partitions@[k])@ == other.partitions@[k]@,
            decreases self.partitions@.len() - i,
        {
            if !same_partition(&self.partitions[i], &other.partitions[i]) {
                assert(self@.partitions[i as int] != other@.partitions[i as int]);
                return false;
            }
            i += 1;
        }
        assert(self@.partitions =~= other@.partitions);
        true
    }
}

/// The catalogue that a node serves.
#[derive(Debug)]
pub struct ClusterMetadata {
    pub topics: KeyedMap<String, Topic>,
}

impl ClusterMetadata {
    pub open spec fn wf(self) -> bool {
        self.topics.wf()
    }

    pub fn new() -> (r: Self)
        ensures
            r.wf(),
            r.topics@ == Map::<Seq<char>, Topic>::empty(),
    {
        ClusterMetadata { topics: KeyedMap::new() }
    }
}

/// Which replicas a catalogue change starts and stops on a node. The metadata group
/// is in neither list.
#[derive(Debug)]
pub struct ReconcilePlan {
    pub spawn: Vec<GroupKey>,
    pub stop: Vec<GroupKey>,
}

impl ReconcilePlan {
    pub open spec fn wf(self) -> bool {
        &&& !groups::lists(self.spawn@, model::meta_group())
        &&& !groups::lists(self.stop@, model::meta_group())
    }
}

/// One node of the cluster.
#[derive(Debug)]
pub struct SimNode {
    pub id: NodeId,
    pub raft_id: RaftNodeId,
    pub running: bool,
    /// The replica of the metadata group.
    pub controller: Option<ReplicaState>,
    /// The partition replicas.
    pub fleet: KeyedMap<GroupKey, ReplicaState>,
    pub served: ClusterMetadata,
    /// The groups whose disks the node keeps; disks outlive a crash.
    pub storage: KeyedMap<GroupKey, ()>,
    pub transports: KeyedMap<GroupKey, SimTransport>,
}

impl SimNode {
    /// The replica of `group`, if the node hosts one.
    pub open spec fn replica(self, group: GroupView) -> Option<ReplicaState> {
        if group == model::meta_group() {
            self.controller
        } else if self.fleet@.contains_key(group) {
            Some(self.fleet@[group])
        } else {
            None
        }
    }

    pub open spec fn hosts(self, group: GroupView) -> bool {
        self.replica(group) is Some
    }

    /// A node keeps the metadata disk always; a node that is up hosts the metadata
    /// group, and one that is down hosts nothing. Every partition replica has a disk
    /// and a sending end that reaches the rest of its replica set.
    pub open spec fn wf(self, topology: Topology) -> bool {
        &&& self.fleet.wf()
        &&& self.storage.wf()
        &&& self.transports.wf()
        &&& self.served.wf()
        &&& self.storage@.contains_key(model::meta_group())
        &&& self.running == self.controller is Some
        &&& !self.running ==> self.fleet@ == Map::<GroupView, ReplicaState>::empty()
        &&& !self.fleet@.contains_key(model::meta_group())
        &&& self.fleet@.dom() == self.transports@.dom()
        &&& forall|g: GroupView| #[trigger]
            self.fleet@.contains_key(g) ==> self.storage@.contains_key(g)
        &&& forall|g: GroupView| #[trigger]
            self.transports@.contains_key(g) ==> is_transport(
                self.transports@[g],
                self.id,
                g,
                topology,
            )
    }

    /// A node that has just joined.
    pub fn new(id: NodeId, raft_id: RaftNodeId, controller: ReplicaState) -> (r: Self)
        ensures
            r.id == id,
            r.raft_id == raft_id,
            r.running,
            r.controller == Some(controller),
            r.fleet.wf(),
            r.fleet@ == Map::<GroupView, ReplicaState>::empty(),
            r.served.wf(),
            r.served.topics@ == Map::<Seq<char>, Topic>::empty(),
            r.storage.wf(),
            r.storage@ == Map::<GroupView, ()>::empty(),
            r.transports.wf(),
            r.transports@ == Map::<GroupView, SimTransport>::empty(),
    {
        SimNode {
            id,
            raft_id,
            running: true,
            controller: Some(controller),
            fleet: KeyedMap::new(),
            served: ClusterMetadata::new(),
            storage: KeyedMap::new(),
            transports: KeyedMap::new(),
        }
    }

    pub fn id(&self) -> (r: &NodeId)
        ensures
            *r == self.id,
    {
        &self.id
    }

    pub fn raft_id(&self) -> (r: RaftNodeId)
        ensures
            r == self.raft_id,
    {
        self.raft_id
    }

    pub fn is_running(&self) -> (r: bool)
        ensures
            r == self.running,
    {
        self.running
    }

    pub fn controller(&self) -> (r: Option<&ReplicaState>)
        ensures
            match r {
                Some(c) => self.controller == Some(*c),
                None => self.controller is None,
            },
    {
        self.controller.as_ref()
    }

    pub fn served(&self) -> (r: &ClusterMetadata)
        ensures
            *r == self.served,
    {
        &self.served
    }

    pub fn fleet_len(&self) -> (r: usize)
        ensures
            r == self.fleet.items().len(),
    {
        self.fleet.len()
    }

    /// The partition replicas.
    pub fn fleet_replicas(&self) -> (r: &KeyedMap<GroupKey, ReplicaState>)
        ensures
            *r == self.fleet,
    {
        &self.fleet
    }

    pub fn transport(&self, group: &GroupKey) -> (r: Option<&SimTransport>)
        requires
            self.transports.wf(),
        ensures
            match r {
                Some(t) => self.transports@.contains_key(group@) && self.transports@[group@] == *t,
                None => !self.transports@.contains_key(group@),
            },
    {
        self.transports.get(group)
    }

    /// The replica of `group`, if the node hosts one.
    pub fn replica_of(&self, group: &GroupKey) -> (r: Option<&ReplicaState>)
        requires
            self.fleet.wf(),
        ensures
            match r {
                Some(s) => self.replica(group@) == Some(*s),
                None => self.replica(group@) is None,
            },
    {
        if model::is_metadata_group(group) {
            self.controller.as_ref()
        } else {
            self.fleet.get(group)
        }
    }

    /// `after` is this node with a replica of `g` in state `state`.
    pub open spec fn spawned_to(self, after: SimNode, g: GroupView, state: ReplicaState) -> bool {
        &&& after.fleet@ == self.fleet@.insert(g, state)
        &&& after.storage@ == self.storage@.insert(g, ())
        &&& after.id == self.id
        &&& after.raft_id == self.raft_id
        &&& after.running == self.running
        &&& after.controller == self.controller
        &&& after.served == self.served
    }

    /// Host a replica of `group`, with a disk and a sending end.
    fn spawn(&mut self, topology: &Topology, group: GroupKey, state: ReplicaState)
        requires
            topology.wf(),
            old(self).fleet.wf(),
            old(self).storage.wf(),
            old(self).transports.wf(),
        ensures
            final(self).fleet.wf(),
            final(self).storage.wf(),
            final(self).transports.wf(),
            old(self).spawned_to(*final(self), group@, state),
            final(self).transports@.dom() == old(self).transports@.dom().insert(group@),
            forall|g: GroupView| #[trigger]
                final(self).transports@.contains_key(g) ==> if g == group@ {
                    is_transport(final(self).transports@[g], final(self).id, g, *topology)
                } else {
                    final(self).transports@[g] == old(self).transports@[g]
                },
    {
        let peers = peers_map_for(topology, &self.id, &group);
        let transport = SimTransport {
            from: self.id.clone(),
            group: model::clone_group(&group),
            peers,
        };
        self.fleet.insert(model::clone_group(&group), state);
        self.storage.insert(model::clone_group(&group), ());
        self.transports.insert(group, transport);
        assert(self.transports@.dom() =~= old(self).transports@.dom().insert(group@));
    }

    /// Drop the replica of `group`, its disk and its sending end.
    fn stop(&mut self, group: &GroupKey)
        requires
            old(self).fleet.wf(),
            old(self).storage.wf(),
            old(self).transports.wf(),
        ensures
            final(self).fleet.wf(),
            final(self).storage.wf(),
            final(self).transports.wf(),
            final(self).fleet@ == old(self).fleet@.remove(group@),
            final(self).storage@ == old(self).storage@.remove(group@),
            final(self).transports@ == old(self).transports@.remove(group@),
            final(self).id == old(self).id,
            final(self).raft_id == old(self).raft_id,
            final(self).running == old(self).running,
            final(self).controller == old(self).controller,
            final(self).served == old(self).served,
    {
        let gone = self.fleet.remove(group);
        let disk = self.storage.remove(group);
        let end = self.transports.remove(group);
    }

    /// `after` is this node once `plan` was carried out under the catalogue `served`:
    /// the replicas to spawn are there, fresh; those to stop are not; the others are
    /// as they were.
    pub open spec fn reconciled_to(
        self,
        after: SimNode,
        served: ClusterMetadata,
        plan: ReconcilePlan,
    ) -> bool {
        &&& after.id == self.id
        &&& after.raft_id == self.raft_id
        &&& after.running == self.running
        &&& after.controller == self.controller
        &&& after.served == served
        &&& forall|g: GroupView|
            #![trigger after.fleet@.contains_key(g)]
            #![trigger self.fleet@.contains_key(g)]
            after.fleet@.contains_key(g) == ((self.fleet@.contains_key(g) || groups::lists(plan.spawn@, g))
                && !groups::lists(plan.stop@, g))
        &&& forall|g: GroupView| #[trigger]
            after.fleet@.contains_key(g) ==> if groups::lists(plan.spawn@, g) {
                after.fleet@[g].is_fresh()
            } else {
                after.fleet@[g] == self.fleet@[g]
            }
        &&& forall|g: GroupView|
            #![trigger after.storage@.contains_key(g)]
            #![trigger self.storage@.contains_key(g)]
            after.storage@.contains_key(g) == ((self.storage@.contains_key(g) || groups::lists(
                plan.spawn@,
                g,
            )) && !groups::lists(plan.stop@, g))
    }

    /// Serve `served`, and start and stop replicas as `plan` says.
    fn reconcile(&mut self, topology: &Topology, served: ClusterMetadata, plan: &ReconcilePlan)
        requires
            topology.wf(),
            old(self).wf(*topology),
            old(self).running,
            served.wf(),
            plan.wf(),
        ensures
            final(self).wf(*topology),
            old(self).reconciled_to(*final(self), served, *plan),
    {
        let ghost before = *self;
        self.served = served;
        let mut i: usize = 0;
        while i < plan.spawn.len()
            invariant
                i <= plan.spawn@.len(),
                topology.wf(),
                plan.wf(),
                served.wf(),
                before == *old(self),
                before.wf(*topology),
                before.running,
                self.wf(*topology),
                self.id == before.id,
                self.raft_id == before.raft_id,
                self.running == before.running,
                self.controller == before.controller,
                self.served == served,
                forall|g: GroupView|
                    #![trigger self.fleet@.contains_key(g)]
                    #![trigger before.fleet@.contains_key(g)]
                    self.fleet@.contains_key(g) == (before.fleet@.contains_key(g) || groups::lists(
                        plan.spawn@.take(i as int),
                        g,
                    )),
                forall|g: GroupView| #[trigger]
                    self.fleet@.contains_key(g) ==> if groups::lists(plan.spawn@.take(i as int), g) {
                        self.fleet@[g].is_fresh()
                    } else {
                        self.fleet@[g] == before.fleet@[g]
                    },
                forall|g: GroupView|
                    #![trigger self.storage@.contains_key(g)]
                    #![trigger before.storage@.contains_key(g)]
                    self.storage@.contains_key(g) == (before.storage@.contains_key(g) || groups::lists(
                        plan.spawn@.take(i as int),
                        g,
                    )),
            decreases plan.spawn@.len() - i,
        {
            let group = model::clone_group(&plan.spawn[i]);
            proof {
                groups::lemma_lists_step(plan.spawn@, i as int);
            }
            self.spawn(topology, group, ReplicaState::fresh());
            assert(self.fleet@.dom() =~= self.transports@.dom());
            i += 1;
        }
        assert(plan.spawn@.take(i as int) =~= plan.spawn@);
        let ghost mid = *self;
        let mut j: usize = 0;
        while j < plan.stop.len()
            invariant
                j <= plan.stop@.len(),
                topology.wf(),
                plan.wf(),
                mid.wf(*topology),
                mid.running,
                self.wf(*topology),
                self.id == mid.id,
                self.raft_id == mid.raft_id,
                self.running == mid.running,
                self.controller == mid.controller,
                self.served == mid.served,
                forall|g: GroupView|
                    #![trigger self.fleet@.contains_key(g)]
                    #![trigger mid.fleet@.contains_key(g)]
                    self.fleet@.contains_key(g) == (mid.fleet@.contains_key(g) && !groups::lists(
                        plan.stop@.take(j as int),
                        g,
                    )),
                forall|g: GroupView| #[trigger]
                    self.fleet@.contains_key(g) ==> self.fleet@[g] == mid.fleet@[g],
                forall|g: GroupView|
                    #![trigger self.storage@.contains_key(g)]
                    #![trigger mid.storage@.contains_key(g)]
                    self.storage@.contains_key(g) == (mid.storage@.contains_key(g) && !groups::lists(
                        plan.stop@.take(j as int),
                        g,
                    )),
            decreases plan.stop@.len() - j,
        {
            proof {
                groups::lemma_lists_step(plan.stop@, j as int);
            }
            self.stop(&plan.stop[j]);
            assert(self.fleet@.dom() =~= self.transports@.dom());
            j += 1;
        }
        assert(plan.stop@.take(j as int) =~= plan.stop@);
    }
}

/// Whether `t` is the sending end of `node` in `group`.
pub open spec fn is_transport(
    t: SimTransport,
    node: NodeId,
    group: GroupView,
    topology: Topology,
) -> bool {
    &&& t.from == node
    &&& t.group@ == group
    &&& t.peers.wf()
    &&& t.peers@ == topology.peers_map(node@, group)
}

/// What a node comes back with after a restart.
#[derive(Debug)]
pub struct RecoveredNode {
    /// The replica of the metadata group.
    pub meta: ReplicaState,
    /// The catalogue recovered from it.
    pub served: ClusterMetadata,
    /// The partition replicas that the catalogue assigns to the node.
    pub replicas: Vec<(GroupKey, ReplicaState)>,
}

/// Whether `replicas` holds a replica of `g`.
pub open spec fn recovers(replicas: Seq<(GroupKey, ReplicaState)>, g: GroupView) -> bool {
    exists|i: int| 0 <= i < replicas.len() && (#[trigger] replicas[i]).0@ == g
}

impl RecoveredNode {
    /// Partition groups only, each at most once.
    pub open spec fn wf(self) -> bool {
        &&& self.served.wf()
        &&& !recovers(self.replicas@, model::meta_group())
        &&& forall|i: int, j: int|
            0 <= i < j < self.replicas@.len() ==> (#[trigger] self.replicas@[i]).0@ != (
            #[trigger] self.replicas@[j]).0@
    }
}

/// What a committed catalogue change does to one node.
#[derive(Debug)]
pub struct NodeUpdate {
    pub served: ClusterMetadata,
    pub plan: ReconcilePlan,
}

impl NodeUpdate {
    pub open spec fn wf(self) -> bool {
        self.served.wf() && self.plan.wf()
    }
}

/// The simulated cluster.
#[derive(Debug)]
pub struct SimulatedCluster<M> {
    pub nodes: Vec<SimNode>,
    pub topology: Topology,
    pub network: SimNetwork<M>,
    pub clock: SimClock,
    pub meta_transports: Vec<SimTransport>,
    pub storage_stream: SplitMix64,
    pub faults_stream: SplitMix64,
    pub workload_stream: SplitMix64,
    pub tiebreak_stream: SplitMix64,
}

impl<M> SimulatedCluster<M> {
    pub open spec fn wf(self) -> bool {
        &&& self.topology.wf()
        &&& self.network.wf()
        &&& self.clock.wf()
        &&& self.nodes@.len() == self.topology.nodes@.len()
        &&& self.meta_transports@.len() == self.nodes@.len()
        &&& forall|i: int|
            0 <= i < self.nodes@.len() ==> {
                &&& (#[trigger] self.nodes@[i]).wf(self.topology)
                &&& self.nodes@[i].id == self.topology.nodes@[i]
                &&& self.nodes@[i].raft_id == RaftNodeId(i as u64)
            }
        &&& forall|i: int|
            0 <= i < self.meta_transports@.len() ==> is_transport(
                #[trigger] self.meta_transports@[i],
                self.topology.nodes@[i],
                model::meta_group(),
                self.topology,
            )
    }

    /// `after` differs from this cluster at most in its nodes, network and clock.
    pub open spec fn same_frame(self, after: SimulatedCluster<M>) -> bool {
        &&& after.topology == self.topology
        &&& after.meta_transports == self.meta_transports
        &&& after.storage_stream == self.storage_stream
        &&& after.faults_stream == self.faults_stream
        &&& after.workload_stream == self.workload_stream
        &&& after.tiebreak_stream == self.tiebreak_stream
    }

    /// Whether this is the cluster of `config` before anything happened: every node is
    /// up, hosts the metadata group over an empty disk, and hosts nothing else.
    pub open spec fn is_initial(self, config: RunConfig) -> bool {
        &&& self.nodes@.len() == config.params.node_count
        &&& self.topology.replication == config.params.replication_factor
        &&& self.topology.partitions == config.params.partition_count
        &&& forall|i: int|
            0 <= i < self.nodes@.len() ==> {
                &&& (#[trigger] self.nodes@[i]).running
                &&& self.nodes@[i].controller matches Some(s) && s.is_fresh()
                &&& self.nodes@[i].fleet@ == Map::<GroupView, ReplicaState>::empty()
                &&& self.nodes@[i].served.topics@ == Map::<Seq<char>, Topic>::empty()
                &&& self.nodes@[i].storage@ == Map::<GroupView, ()>::empty().insert(
                    model::meta_group(),
                    (),
                )
            }
        &&& self.network.now == VirtualInstant(0)
        &&& self.network.config == crate::network::NetworkConfig::of(config.params.faults)
        &&& self.network.rng == SeedStreams::of(config.seed).network
        &&& self.network.pending@.len() == 0
        &&& self.network.cuts@ == Map::<
            crate::scheduler::HealId,
            crate::network::Cut,
        >::empty()
        &&& self.network.crashed@ == Map::<Seq<char>, ()>::empty()
        &&& self.network.dropped_count == 0
        &&& self.network.cut_dropped_count == 0
        &&& self.network.duplicated_count == 0
        &&& self.network.delivered_count == 0
        &&& self.clock.now == VirtualInstant(0)
        &&& self.clock.election == SeedStreams::of(config.seed).election
        &&& self.clock.generations@ == Map::<crate::clock::TimerView, u64>::empty()
        &&& self.clock.pending@.len() == 0
        &&& self.clock.active is None
        &&& self.storage_stream == SeedStreams::of(config.seed).storage
        &&& self.faults_stream == SeedStreams::of(config.seed).faults
        &&& self.workload_stream == SeedStreams::of(config.seed).workload
        &&& self.tiebreak_stream == SeedStreams::of(config.seed).tiebreak
    }

    /// Build the cluster of `config`: every node is up, hosts the metadata group over
    /// an empty disk, and hosts nothing else.
    pub fn new(config: RunConfig) -> (r: Result<Self, ScenarioError>)
        ensures
            r is Ok == config.params.consistent(),
            r matches Err(e) ==> e == (if config.params.replication_factor == 0 {
                ScenarioError::ReplicationFactorZero
            } else if config.params.replication_factor > config.params.node_count {
                ScenarioError::ReplicationFactorTooHigh {
                    replication_factor: config.params.replication_factor,
                    node_count: config.params.node_count,
                }
            } else {
                ScenarioError::PartitionCountZero
            }),
            r matches Ok(c) ==> c.wf() && c.is_initial(config),
    {
        match config.params.validate() {
            Ok(ok) => {},
            Err(e) => {
                return Err(e);
            },
        }
        let topology = Topology::from_params(&config.params);
        let streams = SeedStreams::new(config.seed);
        let clock = SimClock::new(streams.election);
        let network: SimNetwork<M> = SimNetwork::new(&config.params.faults, streams.network);
        let mut nodes: Vec<SimNode> = Vec::new();
        let mut meta_transports: Vec<SimTransport> = Vec::new();
        let n: usize = topology.node_count();
        let mut i: usize = 0;
        while i < n
            invariant
                i <= n,
                n == topology.nodes@.len(),
                topology.wf(),
                nodes@.len() == i,
                meta_transports@.len() == i,
                forall|k: int|
                    0 <= k < i ==> {
                        &&& (#[trigger] nodes@[k]).wf(topology)
                        &&& nodes@[k].id == topology.nodes@[k]
                        &&& nodes@[k].raft_id == RaftNodeId(k as u64)
                        &&& nodes@[k].running
                        &&& nodes@[k].controller matches Some(s) && s.is_fresh()
                        &&& nodes@[k].fleet@ == Map::<GroupView, ReplicaState>::empty()
                        &&& nodes@[k].served.topics@ == Map::<Seq<char>, Topic>::empty()
                        &&& nodes@[k].storage@ == Map::<GroupView, ()>::empty().insert(
                            model::meta_group(),
                            (),
                        )
                    },
                forall|k: int|
                    0 <= k < i ==> is_transport(
                        #[trigger] meta_transports@[k],
                        topology.nodes@[k],
                        model::meta_group(),
                        topology,
                    ),
            decreases n - i,
        {
            let id = topology.nodes[i].clone();
            let raft_id = RaftNodeId(i as u64);
            let meta = model::metadata_group_key();
            let peers = peers_map_for(&topology, &id, &meta);
            meta_transports.push(
                SimTransport { from: id.clone(), group: model::clone_group(&meta), peers },
            );
            let mut node = SimNode::new(id, raft_id, ReplicaState::fresh());
            node.storage.insert(meta, ());
            assert(node.fleet@.dom() =~= node.transports@.dom());
            nodes.push(node);
            i += 1;
        }
        Ok(
            SimulatedCluster {
                nodes,
                topology,
                network,
                clock,
                meta_transports,
                storage_stream: streams.storage,
                faults_stream: streams.faults,
                workload_stream: streams.workload,
                tiebreak_stream: streams.tiebreak,
            },
        )
    }

    pub fn topology(&self) -> (r: &Topology)
        ensures
            *r == self.topology,
    {
        &self.topology
    }

    pub fn network(&self) -> (r: &SimNetwork<M>)
        ensures
            *r == self.network,
    {
        &self.network
    }

    pub fn clock(&self) -> (r: &SimClock)
        ensures
            *r == self.clock,
    {
        &self.clock
    }

    pub fn clock_mut(&mut self) -> (r: &mut SimClock)
        ensures
            *r == old(self).clock,
            *final(self) == (SimulatedCluster { clock: *final(r), ..*old(self) }),
    {
        &mut self.clock
    }

    pub fn network_mut(&mut self) -> (r: &mut SimNetwork<M>)
        ensures
            *r == old(self).network,
            *final(self) == (SimulatedCluster { network: *final(r), ..*old(self) }),
    {
        &mut self.network
    }

    pub fn tiebreak_stream(&self) -> (r: SplitMix64)
        ensures
            r == self.tiebreak_stream,
    {
        self.tiebreak_stream
    }

    pub fn nodes(&self) -> (r: &[SimNode])
        ensures
            r@ == self.nodes@,
    {
        self.nodes.as_slice()
    }

    pub fn nodes_mut(&mut self) -> (r: &mut Vec<SimNode>)
        ensures
            *r == old(self).nodes,
            *final(self) == (SimulatedCluster { nodes: *final(r), ..*old(self) }),
    {
        &mut self.nodes
    }

    pub fn node_count(&self) -> (r: usize)
        ensures
            r == self.nodes@.len(),
    {
        self.nodes.len()
    }

    pub fn node(&self, index: usize) -> (r: Option<&SimNode>)
        ensures
            match r {
                Some(node) => index < self.nodes@.len() && *node == self.nodes@[index as int],
                None => index >= self.nodes@.len(),
            },
    {
        if index < self.nodes.len() {
            Some(&self.nodes[index])
        } else {
            None
        }
    }

    pub fn meta_transport(&self, index: usize) -> (r: Option<&SimTransport>)
        ensures
            match r {
                Some(t) => index < self.meta_transports@.len() && *t
                    == self.meta_transports@[index as int],
                None => index >= self.meta_transports@.len(),
            },
    {
        if index < self.meta_transports.len() {
            Some(&self.meta_transports[index])
        } else {
            None
        }
    }

    /// The sending end of a node in `group`, if it has one.
    pub open spec fn sender(self, index: int, group: GroupView) -> Option<SimTransport> {
        if !(0 <= index < self.nodes@.len()) {
            None
        } else if group == model::meta_group() {
            Some(self.meta_transports@[index])
        } else if self.nodes@[index].transports@.contains_key(group) {
            Some(self.nodes@[index].transports@[group])
        } else {
            None
        }
    }

    pub fn transport_for(&self, index: usize, group: &GroupKey) -> (r: Option<&SimTransport>)
        requires
            self.wf(),
        ensures
            match r {
                Some(t) => self.sender(index as int, group@) == Some(*t),
                None => self.sender(index as int, group@) is None,
            },
    {
        if model::is_metadata_group(group) {
            self.meta_transport(index)
        } else {
            match self.node(index) {
                Some(node) => node.transport(group),
                None => None,
            }
        }
    }

    /// The position of the node named `id`.
    pub fn index_of(&self, id: &NodeId) -> (r: Option<usize>)
        requires
            self.wf(),
        ensures
            match r {
                Some(i) => i < self.nodes@.len() && self.nodes@[i as int].id@ == id@
                    && self.topology.number_of(id@) == Some(RaftNodeId(i as u64)),
                None => !model::names(self.topology.nodes@, id@),
            },
    {
        let mut i: usize = 0;
        while i < self.nodes.len()
            invariant
                self.wf(),
                i <= self.nodes@.len(),
                forall|k: int| 0 <= k < i ==> #[trigger] self.topology.nodes@[k]@ != id@,
            decreases self.nodes@.len() - i,
        {
            if self.nodes[i].id.same(id) {
                proof {
                    self.topology.lemma_index(i as int);
                }
                return Some(i);
            }
            assert(self.nodes@[i as int].id == self.topology.nodes@[i as int]);
            i += 1;
        }
        None
    }

    /// Whether the node at `index` is up and hosts `group`.
    pub open spec fn live(self, index: int, group: GroupView) -> bool {
        &&& 0 <= index < self.nodes@.len()
        &&& self.nodes@[index].running
        &&& self.nodes@[index].hosts(group)
    }

    /// Make ready for a step of the replica of `group` on the node at `index`: timers
    /// armed from here on are that replica's. Whether there is such a replica on a
    /// node that is up.
    pub fn step_replica(&mut self, index: usize, group: &GroupKey, now: VirtualInstant) -> (r: bool)
        requires
            old(self).wf(),
        ensures
            final(self).wf(),
            r == old(self).live(index as int, group@),
            old(self).same_frame(*final(self)),
            final(self).nodes == old(self).nodes,
            final(self).network == old(self).network,
            final(self).clock == (if old(self).is_up(index as int) {
                SimClock {
                    now,
                    active: Some((old(self).nodes@[index as int].id, *group)),
                    ..old(self).clock
                }
            } else {
                old(self).clock
            }),
    {
        if index >= self.nodes.len() || !self.nodes[index].running {
            return false;
        }
        self.clock.set_now(now);
        let id = self.nodes[index].id.clone();
        self.clock.set_active(id, model::clone_group(group));
        match self.nodes[index].replica_of(group) {
            Some(state) => true,
            None => false,
        }
    }

    /// `after` is this cluster once `state` was observed of the replica of `group` on
    /// the node at `index`; nothing changes where there is no such replica on a node
    /// that is up.
    pub open spec fn observed_to(
        self,
        after: SimulatedCluster<M>,
        index: int,
        group: GroupView,
        state: ReplicaState,
    ) -> bool {
        &&& self.same_frame(after)
        &&& after.network == self.network
        &&& after.clock == self.clock
        &&& after.nodes@.len() == self.nodes@.len()
        &&& forall|i: int|
            0 <= i < self.nodes@.len() && (i != index || !self.live(index, group))
                ==> #[trigger] after.nodes@[i] == self.nodes@[i]
        &&& self.live(index, group) ==> {
            let before = self.nodes@[index];
            let now = after.nodes@[index];
            &&& now.id == before.id
            &&& now.raft_id == before.raft_id
            &&& now.running == before.running
            &&& now.served == before.served
            &&& now.storage == before.storage
            &&& now.transports == before.transports
            &&& now.replica(group) == Some(state)
            &&& if group == model::meta_group() {
                now.fleet == before.fleet
            } else {
                now.controller == before.controller && now.fleet@ == before.fleet@.insert(
                    group,
                    state,
                )
            }
        }
    }

    /// Note what is now observed of the replica of `group` on the node at `index`;
    /// whether there is such a replica on a node that is up.
    pub fn observe_replica(&mut self, index: usize, group: &GroupKey, state: ReplicaState) -> (r:
        bool)
        requires
            old(self).wf(),
        ensures
            final(self).wf(),
            r == old(self).live(index as int, group@),
            old(self).observed_to(*final(self), index as int, group@, state),
    {
        if index >= self.nodes.len() || !self.nodes[index].running {
            return false;
        }
        let hosted = match self.nodes[index].replica_of(group) {
            Some(s) => true,
            None => false,
        };
        if !hosted {
            return false;
        }
        if model::is_metadata_group(group) {
            self.nodes[index].controller = Some(state);
        } else {
            let key = model::clone_group(group);
            self.nodes[index].fleet.insert(key, state);
            assert(self.nodes@[index as int].fleet@.dom() =~= old(
                self,
            ).nodes@[index as int].fleet@.dom());
        }
        assert(self.nodes@[index as int].wf(self.topology));
        true
    }

    /// `after` is this cluster once a catalogue change was carried out: every node that
    /// is up serves its new catalogue and has carried out its plan.
    pub open spec fn updated_to(self, after: SimulatedCluster<M>, updates: Seq<NodeUpdate>) -> bool {
        &&& self.same_frame(after)
        &&& after.network == self.network
        &&& after.clock == self.clock
        &&& after.nodes@.len() == self.nodes@.len()
        &&& forall|i: int|
            0 <= i < self.nodes@.len() ==> if self.nodes@[i].running {
                self.nodes@[i].reconciled_to(
                    #[trigger] after.nodes@[i],
                    updates[i].served,
                    updates[i].plan,
                )
            } else {
                after.nodes@[i] == self.nodes@[i]
            }
    }

    /// Carry out a committed catalogue change: every node that is up serves its new
    /// catalogue and carries out its plan. A node that is down is not touched.
    pub fn apply_committed_metadata(&mut self, updates: Vec<NodeUpdate>)
        requires
            old(self).wf(),
            updates@.len() == old(self).nodes@.len(),
            forall|i: int| 0 <= i < updates@.len() ==> (#[trigger] updates@[i]).wf(),
        ensures
            final(self).wf(),
            old(self).updated_to(*final(self), updates@),
    {
        let mut rest = updates;
        let n: usize = self.nodes.len();
        let mut i: usize = n;
        while i > 0
            invariant
                i <= n,
                n == self.nodes@.len(),
                n == old(self).nodes@.len(),
                updates@.len() == n,
                rest@ == updates@.take(i as int),
                forall|k: int| 0 <= k < updates@.len() ==> (#[trigger] updates@[k]).wf(),
                old(self).wf(),
                self.wf(),
                old(self).same_frame(*self),
                self.network == old(self).network,
                self.clock == old(self).clock,
                forall|k: int|
                    0 <= k < i ==> #[trigger] self.nodes@[k] == old(self).nodes@[k],
                forall|k: int|
                    i <= k < n ==> if old(self).nodes@[k].running {
                        old(self).nodes@[k].reconciled_to(
                            #[trigger] self.nodes@[k],
                            updates@[k].served,
                            updates@[k].plan,
                        )
                    } else {
                        self.nodes@[k] == old(self).nodes@[k]
                    },
            decreases i,
        {
            i -= 1;
            let ghost prior = *self;
            match rest.pop() {
                Some(update) => {
                    assert(update == updates@[i as int]);
                    assert(rest@ =~= updates@.take(i as int));
                    if self.nodes[i].running {
                        self.nodes[i].reconcile(&self.topology, update.served, &update.plan);
                        assert forall|k: int| 0 <= k < n && k != i implies #[trigger] self.nodes@[k]
                            == prior.nodes@[k] by {}
                    }
                },
                None => {
                    assert(false);
                },
            }
        }
    }

    /// `after` is this cluster with the node at `index` crashed: it hosts nothing,
    /// keeps its disks, and is cut off the network.
    pub open spec fn crashed_to(self, after: SimulatedCluster<M>, index: int) -> bool {
        let before = self.nodes@[index];
        let down = after.nodes@[index];
        &&& after.nodes@.len() == self.nodes@.len()
        &&& forall|i: int|
            0 <= i < self.nodes@.len() && i != index ==> #[trigger] after.nodes@[i]
                == self.nodes@[i]
        &&& down.id == before.id
        &&& down.raft_id == before.raft_id
        &&& !down.running
        &&& down.controller is None
        &&& down.fleet@ == Map::<GroupView, ReplicaState>::empty()
        &&& down.transports@ == Map::<GroupView, SimTransport>::empty()
        &&& down.served == before.served
        &&& down.storage == before.storage
        &&& after.network.crashed@ == self.network.crashed@.insert(before.id@, ())
        &&& after.network.cuts == self.network.cuts
        &&& self.network.same_traffic(after.network)
        &&& after.clock == self.clock
        &&& self.same_frame(after)
    }

    /// Whether there is a node at `index` that is up.
    pub open spec fn is_up(self, index: int) -> bool {
        0 <= index < self.nodes@.len() && self.nodes@[index].running
    }

    /// Whether there is a node at `index` that is down.
    pub open spec fn is_down(self, index: int) -> bool {
        0 <= index < self.nodes@.len() && !self.nodes@[index].running
    }

    /// Crash the node at `index`; whether there was one that was up.
    pub fn crash_node(&mut self, index: usize) -> (r: bool)
        requires
            old(self).wf(),
        ensures
            final(self).wf(),
            r == old(self).is_up(index as int),
            r ==> old(self).crashed_to(*final(self), index as int),
            !r ==> *final(self) == *old(self),
    {
        if index >= self.nodes.len() || !self.nodes[index].running {
            return false;
        }
        let ghost before = *self;
        let id = self.nodes[index].id.clone();
        self.nodes[index].running = false;
        self.nodes[index].controller = None;
        self.nodes[index].fleet.clear();
        self.nodes[index].transports.clear();
        self.network.crash_node(id);
        proof {
            let down = self.nodes@[index as int];
            assert(down.fleet@.dom() =~= down.transports@.dom());
            assert(down.wf(self.topology));
            assert forall|i: int| 0 <= i < before.nodes@.len() && i != index implies
                #[trigger] self.nodes@[i] == before.nodes@[i] by {}
        }
        true
    }

    /// Whether a node named `name` is up and among those at `indices`.
    pub open spec fn downs(self, indices: Seq<usize>, name: Seq<char>) -> bool {
        exists|i: int|
            0 <= i < self.nodes@.len() && (#[trigger] self.nodes@[i]).running && indexed(indices, i)
                && self.nodes@[i].id@ == name
    }

    /// `after` is this cluster once the nodes at `indices` crashed: those of them that
    /// were up are down and cut off the network, with their disks and catalogues as
    /// they were; no other node is touched.
    pub open spec fn downed_to(self, after: SimulatedCluster<M>, indices: Seq<usize>) -> bool {
        &&& self.same_frame(after)
        &&& after.clock == self.clock
        &&& self.network.same_traffic(after.network)
        &&& after.network.cuts == self.network.cuts
        &&& forall|name: Seq<char>| #[trigger]
            after.network.crashed@.contains_key(name) == (self.network.crashed@.contains_key(name)
                || self.downs(indices, name))
        &&& after.nodes@.len() == self.nodes@.len()
        &&& forall|i: int|
            0 <= i < self.nodes@.len() ==> {
                &&& (#[trigger] after.nodes@[i]).running == (self.nodes@[i].running && !indexed(
                    indices,
                    i,
                ))
                &&& !(self.nodes@[i].running && indexed(indices, i)) ==> after.nodes@[i]
                    == self.nodes@[i]
                &&& after.nodes@[i].id == self.nodes@[i].id
                &&& after.nodes@[i].storage == self.nodes@[i].storage
                &&& after.nodes@[i].served == self.nodes@[i].served
            }
    }

    /// Crash each of the nodes; how many went down.
    pub fn crash_nodes(&mut self, indices: &[usize]) -> (r: usize)
        requires
            old(self).wf(),
        ensures
            final(self).wf(),
            old(self).downed_to(*final(self), indices@),
            r == went_down(old(self).nodes@, indices@),
    {
        let mut count: usize = 0;
        let mut k: usize = 0;
        assert(indices@.take(0) =~= Seq::<usize>::empty());
        while k < indices.len()
            invariant
                k <= indices@.len(),
                old(self).wf(),
                self.wf(),
                old(self).downed_to(*self, indices@.take(k as int)),
                count == went_down(old(self).nodes@, indices@.take(k as int)),
                count <= k,
            decreases indices@.len() - k,
        {
            let ghost prior = *self;
            let ghost seen = indices@.take(k as int);
            let ghost next = indices@.take(k + 1);
            assert(next.drop_last() =~= seen);
            assert(next =~= seen.push(indices@[k as int]));
            let crashed = self.crash_node(indices[k]);
            if crashed {
                count += 1;
            }
            proof {
                let x = indices@[k as int];
                lemma_indexed_step(indices@, k as int);
                if (x as int) < old(self).nodes@.len() {
                    assert(prior.nodes@[x as int].running == (old(self).nodes@[x as int].running
                        && !indexed(seen, x as int)));
                }
                assert forall|name: Seq<char>| #[trigger]
                    self.network.crashed@.contains_key(name) == (
                    old(self).network.crashed@.contains_key(name) || old(self).downs(
                        next,
                        name,
                    )) by {
                    if old(self).downs(next, name) && !old(self).downs(seen, name) {
                        let i = choose|i: int|
                            0 <= i < old(self).nodes@.len() && (#[trigger] old(
                                self).nodes@[i]).running && indexed(next, i) && old(
                                self).nodes@[i].id@ == name;
                        assert(indexed(next, i) == (indexed(seen, i) || i == x));
                        assert(!indexed(seen, i));
                        assert(prior.nodes@[i].running);
                    }
                    if old(self).downs(seen, name) {
                        let i = choose|i: int|
                            0 <= i < old(self).nodes@.len() && (#[trigger] old(
                                self).nodes@[i]).running && indexed(seen, i) && old(
                                self).nodes@[i].id@ == name;
                        assert(indexed(next, i));
                    }
                    if crashed && name == prior.nodes@[x as int].id@ {
                        assert(old(self).nodes@[x as int].running && indexed(next, x as int));
                    }
                }
            }
            k += 1;
        }
        assert(indices@.take(k as int) =~= indices@);
        count
    }

    /// Bring the node at `index` back with what it recovered; whether there was one
    /// that was down.
    pub fn restart_node(&mut self, index: usize, recovered: RecoveredNode) -> (r: bool)
        requires
            old(self).wf(),
            recovered.wf(),
        ensures
            final(self).wf(),
            r == old(self).is_down(index as int),
            !r ==> *final(self) == *old(self),
            r ==> old(self).restarted_to(*final(self), index as int, recovered),
    {
        if index >= self.nodes.len() || self.nodes[index].running {
            return false;
        }
        let ghost before = *self;
        let id = self.nodes[index].id.clone();
        self.nodes[index].served = recovered.served;
        self.nodes[index].controller = Some(recovered.meta);
        self.nodes[index].fleet.clear();
        self.nodes[index].transports.clear();
        self.nodes[index].running = true;
        let mut replicas = recovered.replicas;
        let ghost all = replicas@;
        let mut i: usize = replicas.len();
        assert(all.skip(i as int) =~= Seq::empty());
        assert(self.nodes@[index as int].fleet@.dom()
            =~= self.nodes@[index as int].transports@.dom());
        assert(self.nodes@[index as int].wf(self.topology));
        while i > 0
            invariant
                i <= all.len(),
                replicas@ == all.take(i as int),
                index < self.nodes@.len(),
                before.wf(),
                recovered.wf(),
                all == recovered.replicas@,
                self.topology == before.topology,
                self.network == before.network,
                self.clock == before.clock,
                before.same_frame(*self),
                self.nodes@.len() == before.nodes@.len(),
                forall|k: int|
                    0 <= k < before.nodes@.len() && k != index ==> #[trigger] self.nodes@[k]
                        == before.nodes@[k],
                self.nodes@[index as int].wf(self.topology),
                self.nodes@[index as int].id == before.nodes@[index as int].id,
                self.nodes@[index as int].raft_id == before.nodes@[index as int].raft_id,
                self.nodes@[index as int].running,
                self.nodes@[index as int].controller == Some(recovered.meta),
                self.nodes@[index as int].served == recovered.served,
                forall|g: GroupView| #[trigger]
                    self.nodes@[index as int].fleet@.contains_key(g) ==> recovers(
                        all.skip(i as int),
                        g,
                    ),
                forall|k: int|
                    i <= k < all.len() ==> self.nodes@[index as int].fleet@.contains_key(
                        (#[trigger] all[k]).0@,
                    ) && self.nodes@[index as int].fleet@[all[k].0@] == all[k].1,
                forall|g: GroupView|
                    #![trigger self.nodes@[index as int].storage@.contains_key(g)]
                    #![trigger before.nodes@[index as int].storage@.contains_key(g)]
                    self.nodes@[index as int].storage@.contains_key(g) == (
                    before.nodes@[index as int].storage@.contains_key(g)
                        || self.nodes@[index as int].fleet@.contains_key(g)),
            decreases i,
        {
            i -= 1;
            match replicas.pop() {
                Some((group, state)) => {
                    assert(all[i as int] == (group, state));
                    assert(replicas@ =~= all.take(i as int));
                    proof {
                        assert(recovers(all, group@));
                        assert forall|g: GroupView| recovers(all.skip(i + 1), g) implies recovers(
                            all.skip(i as int),
                            g,
                        ) by {
                            let k = choose|k: int|
                                0 <= k < all.skip(i + 1).len() && (#[trigger] all.skip(i + 1)[k]).0@
                                    == g;
                            assert(all.skip(i as int)[k + 1].0@ == g);
                        }
                        assert(all.skip(i as int)[0].0@ == group@);
                    }
                    self.nodes[index].spawn(&self.topology, group, state);
                    assert(self.nodes@[index as int].fleet@.dom()
                        =~= self.nodes@[index as int].transports@.dom());
                },
                None => {
                    assert(false);
                },
            }
        }
        let back = self.network.restart_node(&id);
        assert(all.skip(0) =~= all);
        true
    }

    /// `after` is this cluster with the node at `index` back: it serves the recovered
    /// catalogue, hosts what it recovered and nothing else, kept its disks, and is on
    /// the network again.
    pub open spec fn restarted_to(
        self,
        after: SimulatedCluster<M>,
        index: int,
        recovered: RecoveredNode,
    ) -> bool {
        let before = self.nodes@[index];
        let up = after.nodes@[index];
        &&& after.nodes@.len() == self.nodes@.len()
        &&& forall|i: int|
            0 <= i < self.nodes@.len() && i != index ==> #[trigger] after.nodes@[i]
                == self.nodes@[i]
        &&& up.id == before.id
        &&& up.raft_id == before.raft_id
        &&& up.running
        &&& up.controller == Some(recovered.meta)
        &&& up.served == recovered.served
        &&& forall|g: GroupView| #[trigger]
            up.fleet@.contains_key(g) ==> recovers(recovered.replicas@, g)
        &&& forall|k: int|
            0 <= k < recovered.replicas@.len() ==> up.fleet@.contains_key(
                (#[trigger] recovered.replicas@[k]).0@,
            ) && up.fleet@[recovered.replicas@[k].0@] == recovered.replicas@[k].1
        &&& forall|g: GroupView|
            #![trigger up.storage@.contains_key(g)]
            #![trigger before.storage@.contains_key(g)]
            up.storage@.contains_key(g) == (before.storage@.contains_key(g)
                || up.fleet@.contains_key(g))
        &&& after.network.crashed@ == self.network.crashed@.remove(before.id@)
        &&& after.network.cuts == self.network.cuts
        &&& self.network.same_traffic(after.network)
        &&& after.clock == self.clock
        &&& self.same_frame(after)
    }

    /// `after` is this cluster once the node at `index`, if it was down, came back.
    pub open spec fn restart_step(
        self,
        after: SimulatedCluster<M>,
        index: usize,
        recovered: RecoveredNode,
    ) -> bool {
        if self.is_down(index as int) {
            self.restarted_to(after, index as int, recovered)
        } else {
            after == self
        }
    }

    /// `after` is this cluster once the nodes came back one after the other.
    pub open spec fn all_restarted(
        self,
        after: SimulatedCluster<M>,
        recovered: Seq<(usize, RecoveredNode)>,
    ) -> bool {
        exists|chain: Seq<SimulatedCluster<M>>| #[trigger]
            restarts_chained(chain, recovered) && chain[0] == self && chain.last() == after
    }

    /// Bring each of the nodes back with what it recovered, in order; how many came
    /// back. A node that is up, or that there is not, is passed over.
    pub fn restart_nodes(&mut self, mut recovered: Vec<(usize, RecoveredNode)>) -> (r: usize)
        requires
            old(self).wf(),
            forall|k: int| 0 <= k < recovered@.len() ==> (#[trigger] recovered@[k]).1.wf(),
        ensures
            final(self).wf(),
            r == came_back(old(self).nodes@, restart_indices(recovered@)),
            old(self).all_restarted(*final(self), recovered@),
    {
        let ghost all = recovered@;
        let ghost indices = restart_indices(all);
        let ghost mut chain = seq![*self];
        let n: usize = recovered.len();
        let mut count: usize = 0;
        let mut k: usize = 0;
        assert(all.skip(0) =~= all);
        assert(indices.take(0) =~= Seq::<usize>::empty());
        assert(all.take(0) =~= Seq::empty());
        while k < n
            invariant
                k <= n,
                n == all.len(),
                recovered@ == all.skip(k as int),
                indices == restart_indices(all),
                forall|k: int| 0 <= k < all.len() ==> (#[trigger] all[k]).1.wf(),
                self.wf(),
                self.nodes@.len() == old(self).nodes@.len(),
                forall|i: int|
                    0 <= i < old(self).nodes@.len() ==> (#[trigger] self.nodes@[i]).running == (
                    old(self).nodes@[i].running || indexed(indices.take(k as int), i)),
                count == came_back(old(self).nodes@, indices.take(k as int)),
                count <= k,
                restarts_chained(chain, all.take(k as int)),
                chain[0] == *old(self),
                chain.last() == *self,
            decreases n - k,
        {
            let ghost prior = *self;
            let ghost seen = indices.take(k as int);
            let ghost next = indices.take(k + 1);
            let ghost done = all.take(k as int);
            let (index, node) = recovered.remove(0);
            assert((index, node) == all[k as int]);
            assert(recovered@ =~= all.skip(k + 1));
            assert(next.drop_last() =~= seen);
            let back = self.restart_node(index, node);
            if back {
                count += 1;
            }
            proof {
                lemma_indexed_step(indices, k as int);
                let longer = chain.push(*self);
                let more = all.take(k + 1);
                assert(more =~= done.push(all[k as int]));
                assert forall|j: int| 0 <= j < more.len() implies (#[trigger] longer[j]).restart_step(
                    longer[j + 1],
                    more[j].0,
                    more[j].1,
                ) by {
                    if j < done.len() {
                        assert(chain[j].restart_step(chain[j + 1], done[j].0, done[j].1));
                    }
                }
                assert(restarts_chained(longer, more));
                chain = longer;
                if (index as int) < old(self).nodes@.len() {
                    assert(prior.nodes@[index as int].running == (
                    old(self).nodes@[index as int].running || indexed(seen, index as int)));
                }
                assert forall|i: int| 0 <= i < old(self).nodes@.len() implies (
                #[trigger] self.nodes@[i]).running == (old(self).nodes@[i].running || indexed(
                    next,
                    i,
                )) by {
                    assert(prior.nodes@[i].running == (old(self).nodes@[i].running || indexed(
                        seen,
                        i,
                    )));
                }
            }
            k += 1;
        }
        assert(indices.take(k as int) =~= indices);
        assert(all.take(k as int) =~= all);
        count
    }
}

/// Whether `indices` holds `i`.
pub open spec fn indexed(indices: Seq<usize>, i: int) -> bool {
    exists|j: int| 0 <= j < indices.len() && #[trigger] indices[j] == i
}

/// One index more adds that index and no other.
proof fn lemma_indexed_step(indices: Seq<usize>, k: int)
    requires
        0 <= k < indices.len(),
    ensures
        forall|i: int| #[trigger]
            indexed(indices.take(k + 1), i) == (indexed(indices.take(k), i) || i == indices[k]),
{
    assert forall|i: int| #[trigger]
        indexed(indices.take(k + 1), i) == (indexed(indices.take(k), i) || i == indices[k]) by {
        if indexed(indices.take(k + 1), i) {
            let j = choose|j: int|
                0 <= j < indices.take(k + 1).len() && #[trigger] indices.take(k + 1)[j] == i;
            if j < k {
                assert(indices.take(k)[j] == i);
            }
        }
        if indexed(indices.take(k), i) {
            let j = choose|j: int|
                0 <= j < indices.take(k).len() && #[trigger] indices.take(k)[j] == i;
            assert(indices.take(k + 1)[j] == i);
        }
        if i == indices[k] {
            assert(indices.take(k + 1)[k] == i);
        }
    }
}

/// The node positions of a list of restarts.
pub open spec fn restart_indices(recovered: Seq<(usize, RecoveredNode)>) -> Seq<usize> {
    Seq::new(recovered.len(), |k: int| recovered[k].0)
}

/// `chain` leads from cluster to cluster by one restart after the other.
pub open spec fn restarts_chained<M>(
    chain: Seq<SimulatedCluster<M>>,
    recovered: Seq<(usize, RecoveredNode)>,
) -> bool {
    &&& chain.len() == recovered.len() + 1
    &&& forall|k: int|
        0 <= k < recovered.len() ==> (#[trigger] chain[k]).restart_step(
            chain[k + 1],
            recovered[k].0,
            recovered[k].1,
        )
}

/// How many of the nodes come back when those at `indices` restart in turn: those that
/// were down, each counted once.
pub open spec fn came_back(nodes: Seq<SimNode>, indices: Seq<usize>) -> nat
    decreases indices.len(),
{
    if indices.len() == 0 {
        0
    } else {
        let earlier = indices.drop_last();
        let x = indices.last();
        if x < nodes.len() && !nodes[x as int].running && !indexed(earlier, x as int) {
            came_back(nodes, earlier) + 1
        } else {
            came_back(nodes, earlier)
        }
    }
}

/// How many of the nodes go down when those at `indices` crash in turn: those that
/// were up, each counted once.
pub open spec fn went_down(nodes: Seq<SimNode>, indices: Seq<usize>) -> nat
    decreases indices.len(),
{
    if indices.len() == 0 {
        0
    } else {
        let earlier = indices.drop_last();
        let x = indices.last();
        if x < nodes.len() && nodes[x as int].running && !indexed(earlier, x as int) {
            went_down(nodes, earlier) + 1
        } else {
            went_down(nodes, earlier)
        }
    }
}

/// Crashing a node and bringing it back with nothing but its metadata replica leaves
/// every other node, every cut and every message as they were, and the node's own
/// disks in place.
pub proof fn law_crash_then_restart<M>(
    before: SimulatedCluster<M>,
    down: SimulatedCluster<M>,
    after: SimulatedCluster<M>,
    index: int,
    recovered: RecoveredNode,
    other: int,
    group: GroupView,
)
    requires
        before.wf(),
        before.is_up(index),
        before.crashed_to(down, index),
        down.restarted_to(after, index, recovered),
        0 <= other < before.nodes@.len(),
        !before.network.crashed@.contains_key(before.nodes@[index].id@),
    ensures
        down.is_down(index),
        other != index ==> after.nodes@[other] == before.nodes@[other],
        after.network.crashed@ == before.network.crashed@,
        after.network.cuts@ == before.network.cuts@,
        before.network.same_traffic(after.network),
        before.nodes@[index].storage@.contains_key(group)
            ==> after.nodes@[index].storage@.contains_key(group),
{
    assert(after.network.crashed@ =~= before.network.crashed@);
    if other != index {
        assert(down.nodes@[other] == before.nodes@[other]);
        assert(after.nodes@[other] == down.nodes@[other]);
    }
}

/// Whether `plan` brings the replicas of `node` to those of `wanted`: it starts those
/// that are missing and stops those that are too many, and no others.
pub open spec fn is_exact(plan: ReconcilePlan, node: SimNode, wanted: Set<GroupView>) -> bool {
    forall|g: GroupView|
        #![trigger groups::lists(plan.spawn@, g)]
        #![trigger groups::lists(plan.stop@, g)]
        #![trigger node.fleet@.contains_key(g)]
        {
            &&& groups::lists(plan.spawn@, g) == (wanted.contains(g) && !node.fleet@.contains_key(
                g,
            ))
            &&& groups::lists(plan.stop@, g) == (node.fleet@.contains_key(g) && !wanted.contains(g))
        }
}

/// Where plans bring a node to the replicas that its catalogue assigns to it, carrying one
/// out leaves exactly these, with those that were there before untouched; the next plan
/// for the same catalogue is empty, and changes neither catalogue nor replicas.
pub proof fn law_exact_plans_settle(
    before: SimNode,
    once: SimNode,
    twice: SimNode,
    served: ClusterMetadata,
    plan: ReconcilePlan,
    again: ReconcilePlan,
    wanted: Set<GroupView>,
)
    requires
        before.reconciled_to(once, served, plan),
        is_exact(plan, before, wanted),
        once.reconciled_to(twice, served, again),
        is_exact(again, once, wanted),
    ensures
        once.served == served,
        once.fleet@.dom() == wanted,
        forall|g: GroupView| #[trigger]
            before.fleet@.contains_key(g) && wanted.contains(g) ==> once.fleet@[g]
                == before.fleet@[g],
        again.spawn@.len() == 0,
        again.stop@.len() == 0,
        twice.served == once.served,
        twice.fleet@ == once.fleet@,
        twice.storage@.dom() == once.storage@.dom(),
        twice.controller == once.controller,
{
    assert forall|g: GroupView| once.fleet@.dom().contains(g) == wanted.contains(g) by {
        assert(once.fleet@.contains_key(g) == ((before.fleet@.contains_key(g) || groups::lists(
            plan.spawn@,
            g,
        )) && !groups::lists(plan.stop@, g)));
    }
    assert(once.fleet@.dom() =~= wanted);
    assert forall|g: GroupView| #[trigger]
        before.fleet@.contains_key(g) && wanted.contains(g) implies once.fleet@[g]
        == before.fleet@[g] by {
        assert(once.fleet@.dom().contains(g));
        assert(!groups::lists(plan.spawn@, g));
    }
    if again.spawn@.len() > 0 {
        assert(groups::lists(again.spawn@, again.spawn@[0]@));
    }
    if again.stop@.len() > 0 {
        assert(groups::lists(again.stop@, again.stop@[0]@));
    }
    assert forall|g: GroupView| #[trigger]
        twice.fleet@.contains_key(g) == once.fleet@.contains_key(g) by {
        assert(!groups::lists(again.spawn@, g) && !groups::lists(again.stop@, g));
    }
    assert forall|g: GroupView| #[trigger] twice.fleet@.contains_key(g) implies twice.fleet@[g]
        == once.fleet@[g] by {
        assert(!groups::lists(again.spawn@, g));
    }
    assert(twice.fleet@ =~= once.fleet@);
    assert forall|g: GroupView| twice.storage@.dom().contains(g) == once.storage@.dom().contains(
        g,
    ) by {
        assert(!groups::lists(again.spawn@, g) && !groups::lists(again.stop@, g));
        assert(twice.storage@.contains_key(g) == once.storage@.contains_key(g));
    }
    assert(twice.storage@.dom() =~= once.storage@.dom());
}

/// Carrying out one plan twice is the same as carrying it out once, as to which
/// replicas run and which disks are kept.
pub proof fn law_reconcile_is_idempotent(
    before: SimNode,
    once: SimNode,
    twice: SimNode,
    served: ClusterMetadata,
    plan: ReconcilePlan,
)
    requires
        before.reconciled_to(once, served, plan),
        once.reconciled_to(twice, served, plan),
    ensures
        twice.fleet@.dom() == once.fleet@.dom(),
        twice.storage@.dom() == once.storage@.dom(),
        twice.served == once.served,
        twice.controller == once.controller,
{
    assert forall|g: GroupView| twice.fleet@.dom().contains(g) == once.fleet@.dom().contains(g) by {
        assert(twice.fleet@.contains_key(g) == ((once.fleet@.contains_key(g) || groups::lists(
            plan.spawn@,
            g,
        )) && !groups::lists(plan.stop@, g)));
        assert(once.fleet@.contains_key(g) == ((before.fleet@.contains_key(g) || groups::lists(
            plan.spawn@,
            g,
        )) && !groups::lists(plan.stop@, g)));
    }
    assert forall|g: GroupView|
        twice.storage@.dom().contains(g) == once.storage@.dom().contains(g) by {
        assert(twice.storage@.contains_key(g) == ((once.storage@.contains_key(g) || groups::lists(
            plan.spawn@,
            g,
        )) && !groups::lists(plan.stop@, g)));
        assert(once.storage@.contains_key(g) == ((before.storage@.contains_key(g) || groups::lists(
            plan.spawn@,
            g,
        )) && !groups::lists(plan.stop@, g)));
    }
    assert(twice.fleet@.dom() =~= once.fleet@.dom());
    assert(twice.storage@.dom() =~= once.storage@.dom());
}

/// A plan is carried out on a running node: it holds afterwards what it held or was to
/// spawn, and was not to stop; what it spawned starts from nothing, what it kept is as it
/// was, and it serves the catalogue it was given.
pub proof fn law_plans_are_carried_out(
    node: SimNode,
    after: SimNode,
    served: ClusterMetadata,
    plan: ReconcilePlan,
    g: GroupView,
)
    requires
        node.reconciled_to(after, served, plan),
    ensures
        ({
            let spawned = exists|i: int| 0 <= i < plan.spawn@.len() && #[trigger] plan.spawn@[i]@ == g;
            let stopped = exists|i: int| 0 <= i < plan.stop@.len() && #[trigger] plan.stop@[i]@ == g;
            &&& after.fleet@.contains_key(g) <==> (node.fleet@.contains_key(g) || spawned)
                && !stopped
            &&& after.fleet@.contains_key(g) && spawned ==> {
                let s = after.fleet@[g];
                &&& s.role is Follower && s.term == 0 && s.leader_id is None
                &&& s.commit_index is None && s.last_index is None
                &&& s.log@.len() == 0 && s.records@.len() == 0
            }
            &&& after.fleet@.contains_key(g) && !spawned ==> after.fleet@[g] == node.fleet@[g]
            &&& after.storage@.contains_key(g) <==> (node.storage@.contains_key(g) || spawned)
                && !stopped
            &&& after.served == served
            &&& after.controller == node.controller
            &&& after.running == node.running
        }),
{
    assert(groups::lists(plan.spawn@, g) <==> exists|i: int|
        0 <= i < plan.spawn@.len() && #[trigger] plan.spawn@[i]@ == g);
    assert(groups::lists(plan.stop@, g) <==> exists|i: int|
        0 <= i < plan.stop@.len() && #[trigger] plan.stop@[i]@ == g);
}

/// A committed change reaches every node that runs, each by its own plan, and no other.
pub proof fn law_changes_reach_the_running<M>(
    before: SimulatedCluster<M>,
    after: SimulatedCluster<M>,
    updates: Seq<NodeUpdate>,
    i: int,
)
    requires
        before.updated_to(after, updates),
        0 <= i < before.nodes@.len(),
    ensures
        after.nodes@.len() == before.nodes@.len(),
        before.nodes@[i].running ==> before.nodes@[i].reconciled_to(
            after.nodes@[i],
            updates[i].served,
            updates[i].plan,
        ),
        !before.nodes@[i].running ==> after.nodes@[i] == before.nodes@[i],
        after.network == before.network,
        after.clock == before.clock,
        after.topology == before.topology,
{
    let x = after.nodes@[i];
}

/// A crash takes a node's replicas and leaves its disks and its catalogue; it is cut off
/// from the network. Nothing else changes.
pub proof fn law_a_crash_leaves_the_disks<M>(
    before: SimulatedCluster<M>,
    after: SimulatedCluster<M>,
    index: int,
    i: int,
    g: GroupView,
)
    requires
        before.crashed_to(after, index),
        0 <= index < before.nodes@.len(),
        0 <= i < before.nodes@.len(),
    ensures
        i != index ==> after.nodes@[i] == before.nodes@[i],
        !after.nodes@[index].running,
        after.nodes@[index].controller is None,
        !after.nodes@[index].fleet@.contains_key(g),
        after.nodes@[index].storage@ == before.nodes@[index].storage@,
        after.nodes@[index].served == before.nodes@[index].served,
        after.nodes@[index].id == before.nodes@[index].id,
        after.network.crashed@.contains_key(before.nodes@[index].id.0@),
        after.network.cuts == before.network.cuts,
        after.network.pending == before.network.pending,
        after.clock == before.clock,
{
}

/// A restart brings a node back with what was recovered, each replica as it was, and none
/// besides; it is in the network again. Nothing else changes.
pub proof fn law_a_restart_brings_back_what_was_recovered<M>(
    before: SimulatedCluster<M>,
    after: SimulatedCluster<M>,
    index: int,
    recovered: RecoveredNode,
    i: int,
    k: int,
    g: GroupView,
)
    requires
        before.restarted_to(after, index, recovered),
        0 <= index < before.nodes@.len(),
        0 <= i < before.nodes@.len(),
    ensures
        i != index ==> after.nodes@[i] == before.nodes@[i],
        after.nodes@[index].running,
        after.nodes@[index].controller == Some(recovered.meta),
        after.nodes@[index].served == recovered.served,
        0 <= k < recovered.replicas@.len() ==> {
            let name = recovered.replicas@[k].0@;
            &&& after.nodes@[index].fleet@.contains_key(name)
            &&& after.nodes@[index].fleet@[name] == recovered.replicas@[k].1
        },
        after.nodes@[index].fleet@.contains_key(g) ==> exists|j: int|
            0 <= j < recovered.replicas@.len() && (#[trigger] recovered.replicas@[j]).0@ == g,
        before.nodes@[index].storage@.contains_key(g)
            ==> after.nodes@[index].storage@.contains_key(g),
        !after.network.crashed@.contains_key(before.nodes@[index].id.0@),
        after.network.cuts == before.network.cuts,
{
    if after.nodes@[index].fleet@.contains_key(g) {
        assert(recovers(recovered.replicas@, g));
    }
}

/// What a replica has come to replaces what was known of it, where its node runs and holds
/// it; nothing else changes.
pub proof fn law_an_observed_state_replaces_the_last<M>(
    before: SimulatedCluster<M>,
    after: SimulatedCluster<M>,
    index: int,
    g: GroupView,
    state: ReplicaState,
    i: int,
    h: GroupView,
)
    requires
        before.observed_to(after, index, g, state),
        0 <= i < before.nodes@.len(),
    ensures
        0 <= index < before.nodes@.len() && before.nodes@[index].running
            && before.nodes@[index].replica(g) is Some ==> after.nodes@[index].replica(g) == Some(
            state,
        ),
        i != index ==> after.nodes@[i] == before.nodes@[i],
        i == index && h != g ==> after.nodes@[i].replica(h) == before.nodes@[i].replica(h),
        after.nodes@[i].running == before.nodes@[i].running,
        after.network == before.network,
        after.clock == before.clock,
{
}

/// A new cluster: every node runs, with a fresh metadata replica and nothing else, no cut
/// is in place and nothing waits; each subsystem draws from its stream of the seed.
pub proof fn law_new_clusters_start_from_nothing<M>(
    cluster: SimulatedCluster<M>,
    config: RunConfig,
    i: int,
    g: GroupView,
)
    requires
        cluster.is_initial(config),
        0 <= i < cluster.nodes@.len(),
    ensures
        cluster.nodes@.len() == config.params.node_count,
        cluster.topology.replication == config.params.replication_factor,
        cluster.topology.partitions == config.params.partition_count,
        cluster.nodes@[i].running,
        cluster.nodes@[i].controller is Some,
        ({
            let s = cluster.nodes@[i].controller->0;
            &&& s.role is Follower && s.term == 0 && s.leader_id is None
            &&& s.commit_index is None && s.last_index is None
            &&& s.log@.len() == 0 && s.records@.len() == 0
        }),
        !cluster.nodes@[i].fleet@.contains_key(g),
        cluster.network.pending@.len() == 0,
        forall|id: crate::scheduler::HealId| !(#[trigger] cluster.network.cuts@.contains_key(id)),
        forall|name: Seq<char>| !(#[trigger] cluster.network.crashed@.contains_key(name)),
        cluster.clock.pending@.len() == 0,
        cluster.clock.active is None,
        cluster.clock.now.0 == 0,
        cluster.network.rng.state ^ config.seed == 0x2222_2222_2222_2222u64,
        cluster.clock.election.state ^ config.seed == 0x1111_1111_1111_1111u64,
        cluster.storage_stream.state ^ config.seed == 0x3333_3333_3333_3333u64,
        cluster.faults_stream.state ^ config.seed == 0x4444_4444_4444_4444u64,
        cluster.workload_stream.state ^ config.seed == 0x5555_5555_5555_5555u64,
        cluster.tiebreak_stream.state ^ config.seed == 0x6666_6666_6666_6666u64,
{
    crate::rng::law_each_subsystem_has_its_stream(config.seed);
}

} // verus!
