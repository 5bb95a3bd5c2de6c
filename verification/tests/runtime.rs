use std::collections::BTreeMap;
use vela_sim::checker::liveness::collect_snapshots;
use vela_sim::checker::PropertyId;
use vela_sim::client::Pending;
use vela_sim::clock::ELECTION_TIMEOUT_BASE_NANOS;
use vela_sim::cluster::{
    ClusterMetadata, NodeUpdate, ReconcilePlan, RecoveredNode, ReplicaState, SimulatedCluster,
    Topic, TopicState,
};
use vela_sim::drive::{note_of, prepare_run, Checkers, Turn};
use vela_sim::history::{History, OpArgs, OpResponse};
use vela_sim::model::{
    metadata_group_key, ClusterCommand, CommittedRecord, EntryPayload, GroupKey, LogBackend,
    LogEntry, NodeId, Partition, PartitionIndex, PayloadKind, RaftNodeId, Role, TimerKind,
};
use vela_sim::codec::encode_cluster_command;
use vela_sim::rng::Probability;
use vela_sim::runtime::{Action, FaultNote, Outcome, ReplicaInput, SimRuntime};
use vela_sim::scenario::{Budget, FaultIntensities, RunConfig, ScenarioParameters};
use vela_sim::scheduler::{ClientOp, EndReason, Event, Fault, HealId, VirtualInstant};
use vela_sim::timeline::instants_of;
use vela_sim::workload::{ClientOperation, ConsumeLimits, Workload};

const HEARTBEAT_NANOS: u64 = 50_000_000;

const LIMITS: ConsumeLimits = ConsumeLimits { min: 1, max: 10_000 };

/// Messages of a small consensus protocol, enough to drive a run.
#[derive(Clone, Debug)]
enum Msg {
    Ask { term: u64, from: u64, last: Option<(u64, u64)> },
    Grant { term: u64, from: u64 },
    Append { term: u64, from: u64, after: Option<(u64, u64)>, entries: Vec<LogEntry>, commit: Option<u64> },
    Ack { term: u64, from: u64, matched: Option<u64>, ok: bool },
}

#[derive(Default)]
struct Output {
    sends: Vec<(RaftNodeId, Msg)>,
    committed: Vec<LogEntry>,
    arms: Vec<(TimerKind, u64)>,
}

/// One replica of a group.
struct Replica {
    id: u64,
    peers: Vec<u64>,
    term: u64,
    voted: Option<u64>,
    role: Role,
    leader: Option<u64>,
    log: Vec<LogEntry>,
    commit: Option<u64>,
    votes: Vec<u64>,
    next: BTreeMap<u64, u64>,
    matched: BTreeMap<u64, Option<u64>>,
}

impl Replica {
    fn new(id: u64, peers: Vec<u64>) -> Self {
        Replica {
            id,
            peers,
            term: 0,
            voted: None,
            role: Role::Follower,
            leader: None,
            log: Vec::new(),
            commit: None,
            votes: Vec::new(),
            next: BTreeMap::new(),
            matched: BTreeMap::new(),
        }
    }

    /// Come back from disk: the log, the term and the vote are kept.
    fn recover(&mut self) {
        self.role = Role::Follower;
        self.leader = None;
        self.votes.clear();
    }

    fn last(&self) -> Option<(u64, u64)> {
        self.log.last().map(|e| (e.index, e.term))
    }

    fn majority(&self) -> usize {
        (self.peers.len() + 1) / 2 + 1
    }

    fn state(&self) -> ReplicaState {
        let mut records = Vec::new();
        if let Some(commit) = self.commit {
            for e in &self.log {
                if e.index <= commit && e.payload.kind == PayloadKind::Record {
                    records.push(CommittedRecord {
                        offset: records.len() as u64,
                        value: e.payload.bytes.clone(),
                    });
                }
            }
        }
        ReplicaState {
            role: self.role,
            term: self.term,
            leader_id: self.leader.map(RaftNodeId),
            commit_index: self.commit,
            last_index: self.last().map(|(i, _)| i),
            log: self.log.clone(),
            records,
        }
    }

    fn advance(&mut self, to: Option<u64>, out: &mut Output) {
        let from = self.commit.map_or(0, |c| c + 1);
        if let Some(to) = to {
            for e in &self.log {
                if from <= e.index && e.index <= to {
                    out.committed.push(e.clone());
                }
            }
            if self.commit.map_or(true, |c| c < to) {
                self.commit = Some(to);
            }
        }
    }

    fn append_to(&self, peer: u64) -> Msg {
        let next = self.next.get(&peer).copied().unwrap_or(0);
        let after = if next == 0 { None } else { Some((next - 1, self.log[next as usize - 1].term)) };
        Msg::Append {
            term: self.term,
            from: self.id,
            after,
            entries: self.log[next as usize..].to_vec(),
            commit: self.commit,
        }
    }

    fn broadcast(&self, out: &mut Output) {
        for &p in &self.peers {
            out.sends.push((RaftNodeId(p), self.append_to(p)));
        }
    }

    fn try_commit(&mut self, out: &mut Output) {
        for e in self.log.iter().rev() {
            if e.term != self.term {
                break;
            }
            let have = 1 + self
                .peers
                .iter()
                .filter(|p| self.matched.get(p).copied().flatten().map_or(false, |m| m >= e.index))
                .count();
            if have >= self.majority() {
                let to = Some(e.index);
                self.advance(to, out);
                break;
            }
        }
    }

    fn lead(&mut self, out: &mut Output) {
        self.role = Role::Leader;
        self.leader = Some(self.id);
        self.next = self.peers.iter().map(|&p| (p, self.log.len() as u64)).collect();
        self.matched = self.peers.iter().map(|&p| (p, None)).collect();
        self.broadcast(out);
        out.arms.push((TimerKind::Heartbeat, HEARTBEAT_NANOS));
    }

    fn see(&mut self, term: u64) {
        if term > self.term {
            self.term = term;
            self.voted = None;
            self.role = Role::Follower;
            self.leader = None;
        }
    }

    fn tick(&mut self, kind: TimerKind) -> Output {
        let mut out = Output::default();
        match kind {
            TimerKind::Election if self.role != Role::Leader => {
                self.term += 1;
                self.role = Role::Candidate;
                self.voted = Some(self.id);
                self.leader = None;
                self.votes = vec![self.id];
                out.arms.push((TimerKind::Election, ELECTION_TIMEOUT_BASE_NANOS));
                for &p in &self.peers {
                    let ask = Msg::Ask { term: self.term, from: self.id, last: self.last() };
                    out.sends.push((RaftNodeId(p), ask));
                }
                if self.votes.len() >= self.majority() {
                    self.lead(&mut out);
                }
            }
            TimerKind::Heartbeat if self.role == Role::Leader => {
                self.broadcast(&mut out);
                out.arms.push((TimerKind::Heartbeat, HEARTBEAT_NANOS));
            }
            _ => {}
        }
        out
    }

    fn receive(&mut self, msg: Msg) -> Output {
        let mut out = Output::default();
        match msg {
            Msg::Ask { term, from, last } => {
                self.see(term);
                let key = |l: Option<(u64, u64)>| l.map(|(i, t)| (t, i));
                if term == self.term
                    && self.voted.map_or(true, |v| v == from)
                    && key(last) >= key(self.last())
                {
                    self.voted = Some(from);
                    out.sends.push((RaftNodeId(from), Msg::Grant { term, from: self.id }));
                    out.arms.push((TimerKind::Election, ELECTION_TIMEOUT_BASE_NANOS));
                }
            }
            Msg::Grant { term, from } => {
                self.see(term);
                if term == self.term && self.role == Role::Candidate {
                    if !self.votes.contains(&from) {
                        self.votes.push(from);
                    }
                    if self.votes.len() >= self.majority() {
                        self.lead(&mut out);
                    }
                }
            }
            Msg::Append { term, from, after, entries, commit } => {
                self.see(term);
                if term < self.term {
                    return out;
                }
                self.role = Role::Follower;
                self.leader = Some(from);
                out.arms.push((TimerKind::Election, ELECTION_TIMEOUT_BASE_NANOS));
                let fits = match after {
                    None => true,
                    Some((i, t)) => self.log.get(i as usize).map_or(false, |e| e.term == t),
                };
                if !fits {
                    let ack = Msg::Ack { term, from: self.id, matched: self.commit, ok: false };
                    out.sends.push((RaftNodeId(from), ack));
                    return out;
                }
                let mut matched = after.map(|(i, _)| i);
                for e in entries {
                    let i = e.index as usize;
                    if self.log.get(i).map_or(true, |own| own.term != e.term) {
                        self.log.truncate(i);
                        self.log.push(e);
                    }
                    matched = Some(i as u64);
                }
                let known = match (commit, matched) {
                    (Some(c), Some(m)) => Some(c.min(m)),
                    _ => None,
                };
                self.advance(known, &mut out);
                let ack = Msg::Ack { term, from: self.id, matched, ok: true };
                out.sends.push((RaftNodeId(from), ack));
            }
            Msg::Ack { term, from, matched, ok } => {
                self.see(term);
                if self.role != Role::Leader || term != self.term {
                    return out;
                }
                self.next.insert(from, matched.map_or(0, |m| m + 1));
                if ok {
                    self.matched.insert(from, matched);
                    self.try_commit(&mut out);
                } else {
                    out.sends.push((RaftNodeId(from), self.append_to(from)));
                }
            }
        }
        out
    }

    fn propose(&mut self, payload: EntryPayload) -> Output {
        let mut out = Output::default();
        if self.role == Role::Leader {
            let index = self.log.len() as u64;
            self.log.push(LogEntry { index, term: self.term, payload });
            self.try_commit(&mut out);
            self.broadcast(&mut out);
        }
        out
    }
}

/// The replicas that run outside the library, with their disks.
struct World {
    replicas: BTreeMap<(usize, GroupKey), Replica>,
}

fn copy(p: &Partition) -> Partition {
    Partition { index: p.index, replicas: p.replicas.clone(), leader: p.leader.clone() }
}

fn copy_catalogue(meta: &ClusterMetadata) -> ClusterMetadata {
    let mut out = ClusterMetadata::new();
    for i in 0..meta.topics.len() {
        let (name, t) = meta.topics.entry(i);
        out.topics.insert(
            name.clone(),
            Topic {
                name: t.name.clone(),
                partitions: t.partitions.iter().map(copy).collect(),
                state: t.state,
                backend: t.backend,
            },
        );
    }
    out
}

fn fold(meta: &mut ClusterMetadata, command: &ClusterCommand) {
    match command {
        ClusterCommand::CreateTopic { name, partitions, backend } => {
            if !meta.topics.contains(name) {
                meta.topics.insert(
                    name.clone(),
                    Topic {
                        name: name.clone(),
                        partitions: partitions.iter().map(copy).collect(),
                        state: TopicState::Active,
                        backend: *backend,
                    },
                );
            }
        }
        ClusterCommand::DeleteTopic { name } => {
            meta.topics.remove(name);
        }
        ClusterCommand::SetAvailability { .. } => {}
    }
}

fn assigned(meta: &ClusterMetadata, node: &NodeId) -> Vec<GroupKey> {
    let mut groups = Vec::new();
    for i in 0..meta.topics.len() {
        let (name, topic) = meta.topics.entry(i);
        for p in &topic.partitions {
            if p.replicas.contains(node) {
                groups.push((name.clone(), p.index));
            }
        }
    }
    groups
}

impl World {
    fn new(rt: &SimRuntime<Msg>) -> Self {
        let mut world = World { replicas: BTreeMap::new() };
        for i in 0..rt.cluster().node_count() {
            world.spawn(rt, i, metadata_group_key());
        }
        world
    }

    fn spawn(&mut self, rt: &SimRuntime<Msg>, index: usize, group: GroupKey) {
        let node = rt.cluster().node(index).unwrap().id();
        let peers = rt.cluster().topology().peers_for(node, &group);
        let replica = Replica::new(index as u64, peers.into_iter().map(|p| p.0).collect());
        self.replicas.insert((index, group), replica);
    }

    fn apply(&mut self, rt: &mut SimRuntime<Msg>, command: &ClusterCommand) {
        let mut updates = Vec::new();
        for i in 0..rt.cluster().node_count() {
            let node = rt.cluster().node(i).unwrap();
            let mut served = copy_catalogue(node.served());
            let fleet = node.fleet_replicas();
            let hosted: Vec<GroupKey> =
                (0..fleet.len()).map(|k| fleet.entry(k).0.clone()).collect();
            let running = node.is_running();
            fold(&mut served, command);
            let wanted = assigned(&served, node.id());
            let spawn: Vec<GroupKey> =
                wanted.iter().filter(|g| !hosted.contains(g)).cloned().collect();
            let stop: Vec<GroupKey> =
                hosted.iter().filter(|g| !wanted.contains(g)).cloned().collect();
            if running {
                for g in &spawn {
                    self.spawn(rt, i, g.clone());
                }
                for g in &stop {
                    self.replicas.remove(&(i, g.clone()));
                }
            }
            updates.push(NodeUpdate { served, plan: ReconcilePlan { spawn, stop } });
        }
        rt.cluster_mut().apply_committed_metadata(updates);
    }

    fn complete(&mut self, rt: &mut SimRuntime<Msg>, index: usize, group: &GroupKey, out: Output) {
        for (kind, base) in out.arms {
            rt.cluster_mut().clock_mut().arm(kind, base);
        }
        let state = self.replicas[&(index, group.clone())].state();
        assert!(rt.cluster_mut().observe_replica(index, group, state));
        for command in rt.committed_commands(group, &out.committed) {
            self.apply(rt, &command);
        }
        rt.finish_output(index, group, out.sends);
    }

    fn recover(&mut self, rt: &SimRuntime<Msg>, index: usize) -> RecoveredNode {
        let node = rt.cluster().node(index).unwrap();
        let served = copy_catalogue(node.served());
        let meta = self.replicas.get_mut(&(index, metadata_group_key())).unwrap();
        meta.recover();
        let meta = meta.state();
        let mut replicas = Vec::new();
        for g in assigned(&served, node.id()) {
            let key = (index, g.clone());
            if !self.replicas.contains_key(&key) {
                self.spawn(rt, index, g.clone());
            }
            let replica = self.replicas.get_mut(&key).unwrap();
            replica.recover();
            replicas.push((g, replica.state()));
        }
        RecoveredNode { meta, served, replicas }
    }

    fn perform(&mut self, rt: &mut SimRuntime<Msg>, action: Action<Msg>) {
        match action {
            Action::Idle => {}
            Action::Step { index, group, input } => {
                let replica = self.replicas.get_mut(&(index, group.clone())).unwrap();
                let out = match input {
                    ReplicaInput::Tick(kind) => replica.tick(kind),
                    ReplicaInput::Message(msg) => replica.receive(msg),
                };
                self.complete(rt, index, &group, out);
            }
            Action::Propose { index, group, payload, op } => {
                let replica = self.replicas.get_mut(&(index, group.clone())).unwrap();
                let out = replica.propose(payload);
                self.complete(rt, index, &group, out);
                rt.finish_proposal(op);
            }
            Action::Restart { nodes } => {
                let back: Vec<(usize, RecoveredNode)> = nodes
                    .iter()
                    .filter(|&&i| !rt.cluster().node(i).unwrap().is_running())
                    .map(|&i| (i, self.recover(rt, i)))
                    .collect();
                rt.cluster_mut().restart_nodes(back);
            }
        }
    }

    /// One event of the run, to completion.
    fn step(&mut self, rt: &mut SimRuntime<Msg>) -> Result<FaultNote, EndReason> {
        match rt.step() {
            Turn::Event { note, action } => {
                self.perform(rt, action);
                Ok(note)
            }
            Turn::Done(reason) => Err(reason),
        }
    }
}

/// A whole run.
fn run(config: RunConfig) -> (Outcome, History, u64) {
    let mut rt: SimRuntime<Msg> = match prepare_run(config, LIMITS, None) {
        Ok(rt) => rt,
        Err(outcome) => return (outcome, History::new(), 0),
    };
    let mut world = World::new(&rt);
    let mut checkers = Checkers::new();
    while let Ok(note) = world.step(&mut rt) {
        assert!(rt.can_seed_elections());
        if let Err(v) = rt.after_event(&mut checkers, &note) {
            return (Outcome::from(v), rt.history.clone(), rt.scheduler().events_processed());
        }
    }
    let outcome = rt.finish_run(&checkers);
    (outcome, rt.history.clone(), rt.scheduler().events_processed())
}

fn params(node_count: usize) -> ScenarioParameters {
    ScenarioParameters {
        node_count,
        replication_factor: node_count,
        partition_count: 1,
        ..ScenarioParameters::default()
    }
}

fn runtime(node_count: usize, seed: u64, max_events: u64) -> SimRuntime<Msg> {
    let cluster = SimulatedCluster::new(RunConfig { seed, params: params(node_count) })
        .expect("valid scenario assembles");
    let budget = Budget { max_events, max_virtual_nanos: u64::MAX };
    SimRuntime::new(cluster, budget)
}

fn seed_meta_elections(rt: &mut SimRuntime<Msg>) {
    let meta = metadata_group_key();
    let now = VirtualInstant::origin();
    let node_ids: Vec<_> = rt.cluster().nodes().iter().map(|n| n.id().clone()).collect();
    for node in node_ids {
        rt.cluster_mut().clock_mut().set_now(now);
        rt.cluster_mut().clock_mut().set_active(node, meta.clone());
        rt.cluster_mut().clock_mut().arm(TimerKind::Election, ELECTION_TIMEOUT_BASE_NANOS);
    }
    for armed in rt.cluster_mut().clock_mut().drain_armed() {
        rt.scheduler_mut().schedule(armed.at, armed.to_event());
    }
    rt.cluster_mut().clock_mut().clear_active();
}

fn meta_leader_index(rt: &SimRuntime<Msg>) -> Option<usize> {
    rt.cluster()
        .nodes()
        .iter()
        .position(|n| n.controller().map(|c| c.role) == Some(Role::Leader))
}

fn meta_leaders(rt: &SimRuntime<Msg>) -> usize {
    rt.cluster()
        .nodes()
        .iter()
        .filter(|n| n.controller().map(|c| c.role) == Some(Role::Leader))
        .count()
}

fn any_node_serves(rt: &SimRuntime<Msg>, topic: &str) -> bool {
    rt.cluster().nodes().iter().any(|n| n.served().topics.contains(&topic.to_string()))
}

#[test]
fn metadata_group_elects_a_single_leader_through_dispatch() {
    let mut rt = runtime(3, 0xD57_u64, 50_000);
    seed_meta_elections(&mut rt);
    let mut world = World::new(&rt);
    assert_eq!(meta_leaders(&rt), 0);
    let mut elected = false;
    while world.step(&mut rt).is_ok() {
        if meta_leaders(&rt) == 1 {
            elected = true;
            break;
        }
    }
    assert!(elected, "the metadata group should elect a leader");
    assert_eq!(meta_leaders(&rt), 1);
    assert!(rt.cluster().network().delivered() > 0);
}

fn elect(rt: &mut SimRuntime<Msg>, world: &mut World) -> usize {
    loop {
        world.step(rt).expect("a metadata leader is elected");
        if let Some(index) = meta_leader_index(rt) {
            return index;
        }
    }
}

fn propose_orders(rt: &mut SimRuntime<Msg>, world: &mut World, leader: usize) {
    let meta = metadata_group_key();
    let replicas = rt
        .cluster()
        .topology()
        .replica_set_for(PartitionIndex(0))
        .expect("partition 0 has a replica set")
        .to_vec();
    let create = ClusterCommand::CreateTopic {
        name: "orders".to_string(),
        partitions: vec![Partition { index: PartitionIndex(0), replicas, leader: None }],
        backend: LogBackend::InMemory,
    };
    let now = rt.scheduler().now();
    rt.cluster_mut().network_mut().set_now(now);
    let payload = EntryPayload::new(PayloadKind::Cluster, encode_cluster_command(&create));
    assert!(rt.cluster_mut().step_replica(leader, &meta, now));
    let out = world.replicas.get_mut(&(leader, meta.clone())).unwrap().propose(payload);
    world.complete(rt, leader, &meta, out);
}

#[test]
fn committed_metadata_is_applied_and_reconciled() {
    let mut rt = runtime(3, 0xD57_u64, 200_000);
    seed_meta_elections(&mut rt);
    let mut world = World::new(&rt);
    let leader = elect(&mut rt, &mut world);
    propose_orders(&mut rt, &mut world, leader);
    let mut applied = false;
    loop {
        if any_node_serves(&rt, "orders") {
            applied = true;
            break;
        }
        if world.step(&mut rt).is_err() {
            break;
        }
    }
    assert!(applied, "the committed CreateTopic must reach a served catalogue");
    for node in rt.cluster().nodes() {
        assert!(node.served().topics.contains(&"orders".to_string()));
        assert_eq!(node.fleet_len(), 1);
    }
}

#[test]
fn stale_timer_fire_is_dropped() {
    let mut rt = runtime(3, 7, 50_000);
    let mut world = World::new(&rt);
    let meta = metadata_group_key();
    let node = rt.cluster().nodes()[0].id().clone();
    rt.cluster_mut().clock_mut().set_now(VirtualInstant::origin());
    rt.cluster_mut().clock_mut().set_active(node.clone(), meta.clone());
    rt.cluster_mut().clock_mut().arm(TimerKind::Election, ELECTION_TIMEOUT_BASE_NANOS);
    for armed in rt.cluster_mut().clock_mut().drain_armed() {
        assert_eq!(armed.generation, 1);
        rt.scheduler_mut().schedule(armed.at, armed.to_event());
    }
    rt.cluster_mut().clock_mut().arm(TimerKind::Election, ELECTION_TIMEOUT_BASE_NANOS);
    let _ = rt.cluster_mut().clock_mut().drain_armed();
    rt.cluster_mut().clock_mut().clear_active();
    assert_eq!(rt.scheduler().pending_events(), 1);
    assert!(world.step(&mut rt).is_ok());
    assert_eq!(meta_leaders(&rt), 0);
    assert_eq!(rt.scheduler().pending_events(), 0);
}

#[test]
fn empty_timeline_is_quiescent() {
    let mut rt = runtime(3, 1, 50_000);
    assert!(matches!(rt.step(), Turn::Done(EndReason::Quiescent)));
}

#[test]
fn step_processes_exactly_one_event_and_enqueues_sends_within_the_step() {
    let mut rt = runtime(3, 0xD57_u64, 50_000);
    seed_meta_elections(&mut rt);
    let mut world = World::new(&rt);
    assert_eq!(rt.scheduler().events_processed(), 0);
    assert_eq!(rt.cluster().network().delivered(), 0);
    let pending_before = rt.scheduler().pending_events();
    assert!(world.step(&mut rt).is_ok());
    assert_eq!(rt.scheduler().events_processed(), 1);
    assert!(rt.cluster().network().delivered() > 0);
    assert!(rt.scheduler().pending_events() > pending_before);
    let mut prev_processed = rt.scheduler().events_processed();
    let mut elected = false;
    while world.step(&mut rt).is_ok() {
        let processed = rt.scheduler().events_processed();
        assert_eq!(processed, prev_processed + 1);
        prev_processed = processed;
        if meta_leaders(&rt) == 1 {
            elected = true;
            break;
        }
    }
    assert!(elected, "the metadata group should elect a leader");
}

#[test]
fn committed_effects_apply_within_the_single_step_before_the_next() {
    let mut rt = runtime(3, 0xD57_u64, 200_000);
    seed_meta_elections(&mut rt);
    let mut world = World::new(&rt);
    let leader = elect(&mut rt, &mut world);
    propose_orders(&mut rt, &mut world, leader);
    assert!(!any_node_serves(&rt, "orders"));
    let mut applied_in_one_step = false;
    loop {
        let served_before = any_node_serves(&rt, "orders");
        let processed_before = rt.scheduler().events_processed();
        if world.step(&mut rt).is_err() {
            break;
        }
        if !served_before && any_node_serves(&rt, "orders") {
            assert_eq!(rt.scheduler().events_processed(), processed_before + 1);
            applied_in_one_step = true;
            break;
        }
    }
    assert!(applied_in_one_step);
}

fn run_config(seed: u64, workload_size: usize, max_events: u64) -> RunConfig {
    RunConfig {
        seed,
        params: ScenarioParameters {
            node_count: 3,
            replication_factor: 3,
            partition_count: 2,
            workload_size,
            budget: Budget { max_events, max_virtual_nanos: u64::MAX },
            ..ScenarioParameters::default()
        },
    }
}

#[test]
fn run_is_deterministic_for_a_config() {
    let config = run_config(0xD57_5EED, 20, 20_000);
    let first = run(config);
    let second = run(config);
    assert_eq!(first, second);
}

#[test]
fn healthy_run_passes() {
    let (outcome, history, events) = run(run_config(0xC0FFEE, 20, 30_000));
    assert_eq!(outcome, Outcome::Passed);
    assert_eq!(history.len(), 20);
    assert_eq!(events, 30_000);
}

#[test]
fn faulty_run_is_deterministic_and_passes() {
    let config = RunConfig {
        seed: 0xFA17_7EED,
        params: ScenarioParameters {
            node_count: 3,
            replication_factor: 3,
            partition_count: 1,
            workload_size: 20,
            faults: FaultIntensities {
                crash_prob: Probability { ticks: 4_503_599_627_370_496 },
                partition_prob: Probability { ticks: 4_503_599_627_370_496 },
                ..FaultIntensities::default()
            },
            budget: Budget { max_events: 60_000, max_virtual_nanos: u64::MAX },
        },
    };
    let first = run(config);
    let second = run(config);
    assert_eq!(first, second);
    assert_eq!(first.0, Outcome::Passed);
}

/// A long run through a crash and a partition, under lost, late and doubled messages,
/// still answers clients and passes.
#[test]
fn a_long_faulty_run_serves_clients() {
    let tenth = Probability { ticks: 900_719_925_474_100 };
    let config = RunConfig {
        seed: 0x10A6,
        params: ScenarioParameters {
            node_count: 5,
            replication_factor: 3,
            partition_count: 3,
            workload_size: 200,
            faults: FaultIntensities {
                crash_prob: tenth,
                partition_prob: tenth,
                reorder_prob: tenth,
                duplicate_prob: tenth,
                drop_prob: Probability { ticks: 90_071_992_547_410 },
                ..FaultIntensities::default()
            },
            budget: Budget { max_events: 20_000, max_virtual_nanos: 20_000_000_000 },
        },
    };
    let (outcome, history, _) = run(config);
    assert_eq!(outcome, Outcome::Passed);
    assert_eq!(history.len(), 200);
    let count = |f: fn(&OpResponse) -> bool| {
        history.iter().iter().filter(|op| f(&op.response)).count()
    };
    assert!(count(|r| matches!(r, OpResponse::CreateTopicOk { .. })) > 0);
    assert!(count(|r| matches!(r, OpResponse::ProduceOk { .. })) > 10);
    assert!(count(|r| matches!(r, OpResponse::ConsumeOk { .. })) > 10);
    assert!(count(|r| matches!(r, OpResponse::ConsumeOk { records, .. } if !records.is_empty())) > 0);
}

#[test]
fn invalid_params_return_invalid_without_panicking() {
    let config = RunConfig {
        seed: 1,
        params: ScenarioParameters {
            node_count: 3,
            replication_factor: 4,
            ..ScenarioParameters::default()
        },
    };
    let (outcome, _, _) = run(config);
    assert_eq!(
        outcome,
        Outcome::Invalid {
            detail: "replication factor 4 exceeds node count 3 (must be in 1..=3)".to_string(),
        }
    );
}

#[test]
fn recreated_topic_election_safety_false_positive_regression() {
    let config = RunConfig {
        seed: 9_395_142_653_185_630_679,
        params: ScenarioParameters {
            node_count: 3,
            replication_factor: 2,
            partition_count: 2,
            workload_size: 22,
            faults: FaultIntensities::default(),
            budget: Budget { max_events: 4_000, max_virtual_nanos: 6_000_000_000 },
        },
    };
    let (outcome, _, _) = run(config);
    assert!(!matches!(outcome, Outcome::Failed { .. }), "{outcome:?}");
}

#[test]
fn recreated_topic_commit_monotonicity_false_positive_regression() {
    let config = RunConfig {
        seed: 4_680_881_932_535_480_163,
        params: ScenarioParameters {
            node_count: 3,
            replication_factor: 2,
            partition_count: 2,
            workload_size: 16,
            faults: FaultIntensities::default(),
            budget: Budget { max_events: 4_000, max_virtual_nanos: 6_000_000_000 },
        },
    };
    let (outcome, _, _) = run(config);
    assert!(!matches!(outcome, Outcome::Failed { .. }), "{outcome:?}");
}

/// An event count given from outside takes the place of the budget's.
#[test]
fn an_event_count_from_outside_bounds_the_run() {
    let config = run_config(3, 10, 5_000);
    let mut rt: SimRuntime<Msg> = prepare_run(config, LIMITS, Some(17)).expect("valid parameters");
    let mut world = World::new(&rt);
    let mut steps = 0;
    let reason = loop {
        match world.step(&mut rt) {
            Ok(_) => steps += 1,
            Err(reason) => break reason,
        }
    };
    assert_eq!(reason, EndReason::EventBudget);
    assert_eq!(steps, 17);
    assert_eq!(rt.scheduler().events_processed(), 17);
}

/// Before any leader is elected, every operation is refused and recorded.
#[test]
fn operations_without_a_leader_are_recorded() {
    let mut rt = runtime(3, 5, 100);
    rt.workload = Workload {
        ops: vec![
            ClientOperation::Produce {
                topic: "orders".to_string(),
                partition: PartitionIndex(0),
                key: None,
                value: b"v".to_vec(),
            },
            ClientOperation::Consume {
                topic: "orders".to_string(),
                partition: PartitionIndex(0),
                start_offset: 4,
                max_records: 2,
            },
            ClientOperation::DeleteTopic { name: "orders".to_string() },
        ],
    };
    rt.seed_workload_timeline();
    assert_eq!(rt.scheduler().next_instant(), Some(VirtualInstant::from_nanos(400_000_000)));
    for k in 0..3u64 {
        assert!(matches!(rt.step(), Turn::Event { action: Action::Idle, .. }));
        assert_eq!(rt.scheduler().now().as_nanos(), 400_000_000 + k * 20_000_000);
    }
    assert_eq!(rt.history().len(), 3);
    assert!(rt.history().iter().iter().all(|op| op.response == OpResponse::NoLeader));
    assert!(matches!(rt.dispatch_event(Event::ClientOp(ClientOp { seq: 3 })), Action::Idle));
    assert_eq!(rt.history().len(), 3);
}

/// A leader is asked to propose; where it never commits, the operation is abandoned.
#[test]
fn an_uncommitted_proposal_is_abandoned() {
    let mut rt = runtime(3, 5, 100);
    let meta = metadata_group_key();
    let mut state = ReplicaState::fresh();
    state.role = Role::Leader;
    state.term = 1;
    assert!(rt.cluster_mut().observe_replica(1, &meta, state));
    let mut hint = ReplicaState::fresh();
    hint.leader_id = Some(RaftNodeId(1));
    assert!(rt.cluster_mut().observe_replica(0, &meta, hint));
    match rt.issue_delete_topic("orders".to_string()) {
        Action::Propose { index, group, payload, op } => {
            assert_eq!(index, 1);
            assert_eq!(group, meta);
            assert_eq!(payload.kind, PayloadKind::Cluster);
            assert_eq!(op.target, 0);
            assert_eq!(op.expected, payload.bytes);
            rt.finish_proposal(op);
        }
        other => panic!("expected a proposal, got {other:?}"),
    }
    rt.resolve_pending();
    assert_eq!(rt.history().len(), 0);
    rt.flush_pending();
    assert_eq!(rt.history().len(), 1);
    assert_eq!(
        rt.history().iter()[0].response,
        OpResponse::Error {
            message: "operation did not commit within the run budget".to_string(),
        }
    );
}

/// A proposal whose place another entry took is answered with an error, and one that
/// was committed as proposed with success.
#[test]
fn committed_proposals_are_settled() {
    for (bytes, ok) in [(b"v".to_vec(), true), (b"w".to_vec(), false)] {
        let mut rt = runtime(1, 5, 100);
        let group = ("orders".to_string(), PartitionIndex(0));
        let spawn = ReconcilePlan { spawn: vec![group.clone()], stop: Vec::new() };
        rt.cluster_mut()
            .apply_committed_metadata(vec![NodeUpdate { served: ClusterMetadata::new(), plan: spawn }]);
        let mut state = ReplicaState::fresh();
        state.role = Role::Leader;
        state.term = 1;
        assert!(rt.cluster_mut().observe_replica(0, &group, state));
        let action = rt.issue_produce("orders".to_string(), PartitionIndex(0), None, b"v".to_vec());
        match action {
            Action::Propose { op, .. } => rt.finish_proposal(op),
            other => panic!("expected a proposal, got {other:?}"),
        }
        let mut state = ReplicaState::fresh();
        state.role = Role::Leader;
        state.term = 1;
        state.commit_index = Some(0);
        state.last_index = Some(0);
        state.log = vec![LogEntry {
            index: 0,
            term: 1,
            payload: EntryPayload::new(PayloadKind::Record, bytes),
        }];
        assert!(rt.cluster_mut().observe_replica(0, &group, state));
        rt.resolve_pending();
        assert_eq!(rt.history().len(), 1);
        let response = &rt.history().iter()[0].response;
        if ok {
            assert!(matches!(response, OpResponse::ProduceOk { offset: 0, .. }));
        } else {
            assert_eq!(
                *response,
                OpResponse::Error { message: "proposal superseded before commit".to_string() }
            );
        }
    }
}

/// Leader hints that lead in a circle are followed five times and no further.
#[test]
fn hints_in_a_circle_are_given_up() {
    let mut rt = runtime(3, 5, 100);
    let meta = metadata_group_key();
    for i in 0..3u64 {
        let mut state = ReplicaState::fresh();
        state.leader_id = Some(RaftNodeId((i + 1) % 3));
        assert!(rt.cluster_mut().observe_replica(i as usize, &meta, state));
    }
    assert!(matches!(rt.issue_create_topic("t".to_string(), 1, 1), Action::Idle));
    assert_eq!(rt.history().iter()[0].response, OpResponse::UnresolvedRedirection);
}

/// A consume reads what is committed, from no further than its end.
#[test]
fn a_consume_reads_what_is_committed() {
    let mut rt = runtime(1, 5, 100);
    let group = ("orders".to_string(), PartitionIndex(0));
    let spawn = ReconcilePlan { spawn: vec![group.clone()], stop: Vec::new() };
    rt.cluster_mut()
        .apply_committed_metadata(vec![NodeUpdate { served: ClusterMetadata::new(), plan: spawn }]);
    let mut state = ReplicaState::fresh();
    state.role = Role::Leader;
    state.records = (0..3u64)
        .map(|i| CommittedRecord { offset: i, value: vec![i as u8] })
        .collect();
    assert!(rt.cluster_mut().observe_replica(0, &group, state));
    rt.issue_consume("orders".to_string(), PartitionIndex(0), 1, 5);
    rt.issue_consume("orders".to_string(), PartitionIndex(0), 40, 5);
    let seen: Vec<(u64, Vec<Vec<u8>>)> = rt
        .history()
        .iter()
        .iter()
        .map(|op| match &op.response {
            OpResponse::ConsumeOk { start_offset, records, .. } => {
                (*start_offset, records.iter().map(|r| r.value.clone()).collect())
            }
            other => panic!("expected records, got {other:?}"),
        })
        .collect();
    assert_eq!(seen, vec![(1, vec![vec![1], vec![2]]), (3, vec![])]);
}

/// The faults of a run: one crash and its restart, one partition and its healing.
#[test]
fn faults_come_one_after_the_other() {
    let faults = FaultIntensities {
        crash_prob: Probability::always(),
        partition_prob: Probability::always(),
        ..FaultIntensities::default()
    };
    let params = ScenarioParameters { faults, workload_size: 0, ..params(5) };
    let mut rt = runtime(5, 9, 1_000);
    let mut stream = vela_sim::rng::SeedStreams::new(9).faults;
    let mut words = stream;
    rt.seed_fault_schedule(&params, &mut stream);
    let first = (words.next_u64() % 5) as usize;
    let second = (words.next_u64() % 5) as usize;
    assert_eq!(stream.state, words.state);

    let mut turn = rt.step();
    assert!(matches!(&turn, Turn::Event { note: FaultNote::Crash { nodes }, .. } if *nodes == vec![first]));
    assert_eq!(rt.scheduler().now().as_nanos(), 1_000_000_000);
    assert!(!rt.cluster().node(first).unwrap().is_running());
    turn = rt.step();
    assert!(matches!(
        &turn,
        Turn::Event { note: FaultNote::Restart { nodes }, action: Action::Restart { .. } } if *nodes == vec![first]
    ));
    assert_eq!(rt.scheduler().now().as_nanos(), 2_000_000_000);
    assert!(matches!(rt.step(), Turn::Event { note: FaultNote::Struck, .. }));
    assert_eq!(rt.scheduler().now().as_nanos(), 3_000_000_000);
    let victim = rt.cluster().node(second).unwrap().id().clone();
    let other = rt.cluster().node((second + 1) % 5).unwrap().id().clone();
    assert!(rt.cluster().network().is_cut(&victim, &other));
    assert!(rt.cluster().network().is_cut(&other, &victim));
    assert!(matches!(rt.step(), Turn::Event { note: FaultNote::Healed, .. }));
    assert_eq!(rt.scheduler().now().as_nanos(), 4_000_000_000);
    assert_eq!(rt.cluster().network().cuts.len(), 0);
    assert!(matches!(rt.step(), Turn::Done(EndReason::Quiescent)));
}

/// Fewer than three nodes are spared.
#[test]
fn two_nodes_get_no_faults() {
    let faults = FaultIntensities {
        crash_prob: Probability::always(),
        partition_prob: Probability::always(),
        ..FaultIntensities::default()
    };
    let params = ScenarioParameters { faults, ..params(2) };
    let mut rt = runtime(2, 9, 1_000);
    let mut stream = vela_sim::rng::SeedStreams::new(9).faults;
    let before = stream.state;
    rt.seed_fault_schedule(&params, &mut stream);
    assert!(rt.scheduler().is_idle());
    assert_eq!(stream.state, before);
}

/// Where a partition has fewer than three replicas, one node less could cost it its
/// majority: no fault is planned, however many nodes there are.
#[test]
fn small_replica_sets_get_no_faults() {
    let faults = FaultIntensities {
        crash_prob: Probability::always(),
        partition_prob: Probability::always(),
        ..FaultIntensities::default()
    };
    for (factor, events) in [(1usize, 0usize), (2, 0), (3, 4)] {
        let params = ScenarioParameters { faults, replication_factor: factor, ..params(5) };
        let cluster =
            SimulatedCluster::new(RunConfig { seed: 9, params }).expect("valid scenario assembles");
        let budget = Budget { max_events: 1_000, max_virtual_nanos: u64::MAX };
        let mut rt: SimRuntime<Msg> = SimRuntime::new(cluster, budget);
        let mut stream = vela_sim::rng::SeedStreams::new(9).faults;
        let before = stream.state;
        rt.seed_fault_schedule(&params, &mut stream);
        assert_eq!(rt.scheduler().pending_events(), events);
        assert_eq!(stream.state == before, events == 0);
    }
}

/// The snapshots of a cluster's groups come in the order of their keys.
#[test]
fn snapshots_come_in_the_order_of_groups() {
    let mut rt = runtime(3, 11, 1_000);
    let groups: Vec<GroupKey> =
        ["zebra", "orders", "abc"].iter().map(|t| (t.to_string(), PartitionIndex(0))).collect();
    let updates = |k: usize| {
        (0..3)
            .map(|i| NodeUpdate {
                served: ClusterMetadata::new(),
                plan: ReconcilePlan {
                    spawn: if i == k { vec![groups[k].clone()] } else { Vec::new() },
                    stop: Vec::new(),
                },
            })
            .collect::<Vec<NodeUpdate>>()
    };
    for k in 0..3 {
        rt.cluster_mut().apply_committed_metadata(updates(k));
    }
    let seen: Vec<String> =
        collect_snapshots(rt.cluster()).into_iter().map(|s| s.group.0).collect();
    let mut sorted = seen.clone();
    sorted.sort();
    assert_eq!(seen, sorted);
    assert_eq!(seen.len(), 4);
}

/// A proposal that commits after a later operation was answered is recorded before it.
#[test]
fn a_late_commit_is_recorded_in_invocation_order() {
    let mut rt = runtime(1, 5, 100);
    let group = ("orders".to_string(), PartitionIndex(0));
    let spawn = ReconcilePlan { spawn: vec![group.clone()], stop: Vec::new() };
    rt.cluster_mut()
        .apply_committed_metadata(vec![NodeUpdate { served: ClusterMetadata::new(), plan: spawn }]);
    let leader = |commit: Option<u64>| {
        let mut state = ReplicaState::fresh();
        state.role = Role::Leader;
        state.term = 1;
        state.commit_index = commit;
        state.last_index = commit;
        if commit.is_some() {
            state.log = vec![LogEntry {
                index: 0,
                term: 1,
                payload: EntryPayload::new(PayloadKind::Record, b"v".to_vec()),
            }];
        }
        state
    };
    assert!(rt.cluster_mut().observe_replica(0, &group, leader(None)));
    rt.workload = Workload {
        ops: vec![
            ClientOperation::Produce {
                topic: "orders".to_string(),
                partition: PartitionIndex(0),
                key: None,
                value: b"v".to_vec(),
            },
            ClientOperation::Consume {
                topic: "orders".to_string(),
                partition: PartitionIndex(0),
                start_offset: 0,
                max_records: 5,
            },
            ClientOperation::Produce {
                topic: "orders".to_string(),
                partition: PartitionIndex(0),
                key: None,
                value: b"w".to_vec(),
            },
            ClientOperation::DeleteTopic { name: "orders".to_string() },
        ],
    };
    rt.seed_workload_timeline();
    let mut kept = Vec::new();
    for _ in 0..4 {
        match rt.step() {
            Turn::Event { action: Action::Propose { op, .. }, .. } => kept.push(op),
            Turn::Event { action: Action::Idle, .. } => {}
            other => panic!("unexpected turn {other:?}"),
        }
    }
    assert_eq!(kept.len(), 2);
    let last = kept.pop().unwrap();
    rt.finish_proposal(kept.pop().unwrap());
    assert_eq!(rt.history().len(), 2);
    assert!(rt.cluster_mut().observe_replica(0, &group, leader(Some(0))));
    rt.resolve_pending();
    rt.finish_proposal(Pending { target: 7, ..last });
    rt.flush_pending();
    let order: Vec<(u64, bool)> = rt
        .history()
        .iter()
        .iter()
        .map(|op| {
            assert!(op.invoked_at.as_nanos() <= op.responded_at.as_nanos());
            (op.invoked_at.as_nanos(), matches!(op.response, OpResponse::ProduceOk { .. }))
        })
        .collect();
    assert_eq!(
        order,
        vec![
            (400_000_000, true),
            (420_000_000, false),
            (440_000_000, false),
            (460_000_000, false),
        ]
    );
}

/// Whatever becomes of them, the operations of a run are recorded once each, in the
/// order and at the instants they were invoked.
#[test]
fn every_operation_of_a_run_is_recorded_once() {
    let (_, history, _) = run(run_config(0xB00C, 60, 30_000));
    let at: Vec<u64> = history.iter().iter().map(|op| op.invoked_at.as_nanos()).collect();
    let expected: Vec<u64> = (0..60u64).map(|i| 400_000_000 + i * 20_000_000).collect();
    assert_eq!(at, expected);
}

/// The first election timer of a replica is armed once per incarnation.
#[test]
fn first_election_timers_are_armed_once() {
    let mut rt = runtime(3, 11, 1_000);
    rt.seed_initial_elections();
    assert_eq!(rt.scheduler().pending_events(), 3);
    rt.seed_initial_elections();
    assert_eq!(rt.scheduler().pending_events(), 3);

    let group = ("orders".to_string(), PartitionIndex(0));
    let plan = |spawn: bool| {
        (0..3)
            .map(|_| NodeUpdate {
                served: ClusterMetadata::new(),
                plan: ReconcilePlan {
                    spawn: if spawn { vec![group.clone()] } else { Vec::new() },
                    stop: if spawn { Vec::new() } else { vec![group.clone()] },
                },
            })
            .collect::<Vec<NodeUpdate>>()
    };
    rt.cluster_mut().apply_committed_metadata(plan(true));
    rt.seed_initial_elections();
    assert_eq!(rt.scheduler().pending_events(), 6);
    rt.cluster_mut().apply_committed_metadata(plan(false));
    rt.seed_initial_elections();
    assert_eq!(rt.scheduler().pending_events(), 6);
    rt.cluster_mut().apply_committed_metadata(plan(true));
    rt.seed_initial_elections();
    assert_eq!(rt.scheduler().pending_events(), 9);

    rt.cluster_mut().crash_node(1);
    rt.seed_initial_elections();
    assert_eq!(rt.scheduler().pending_events(), 9);
    rt.cluster_mut().restart_node(
        1,
        RecoveredNode {
            meta: ReplicaState::fresh(),
            served: ClusterMetadata::new(),
            replicas: Vec::new(),
        },
    );
    rt.clear_seeded_for(&[1]);
    rt.seed_initial_elections();
    assert_eq!(rt.scheduler().pending_events(), 10);
}

/// Every kind of event has its note.
#[test]
fn events_are_noted() {
    let crash: Event<()> = Event::FaultApply(Fault::Crash { nodes: vec![1, 2] });
    assert!(matches!(note_of(&crash), FaultNote::Crash { nodes } if nodes == vec![1, 2]));
    let restart: Event<()> = Event::FaultApply(Fault::Restart { nodes: vec![2] });
    assert!(matches!(note_of(&restart), FaultNote::Restart { nodes } if nodes == vec![2]));
    let cut: Event<()> = Event::FaultApply(Fault::Partition {
        id: HealId(1),
        side_a: Vec::new(),
        side_b: Vec::new(),
    });
    assert!(matches!(note_of(&cut), FaultNote::Struck));
    assert!(matches!(note_of::<()>(&Event::FaultHeal(HealId(1))), FaultNote::Healed));
    assert!(matches!(note_of::<()>(&Event::ClientOp(ClientOp { seq: 0 })), FaultNote::Calm));
}

/// Two runs prepared from one configuration fire alike.
#[test]
fn preparation_is_reproducible() {
    let config = run_config(77, 30, 1_000);
    let mut a: SimRuntime<Msg> = prepare_run(config, LIMITS, None).expect("valid parameters");
    let mut b: SimRuntime<Msg> = prepare_run(config, LIMITS, None).expect("valid parameters");
    assert_eq!(a.workload, b.workload);
    assert_eq!(a.scheduler().pending_events(), 33);
    for _ in 0..33 {
        assert_eq!(a.scheduler().next_instant(), b.scheduler().next_instant());
        let x = a.scheduler_mut().step();
        let y = b.scheduler_mut().step();
        assert_eq!(format!("{x:?}"), format!("{y:?}"));
    }
}

/// A produce that the history holds and no replica does is a lost record, whatever its
/// instants.
#[test]
fn a_record_from_ahead_of_the_clock_is_checked() {
    let mut rt = runtime(3, 11, 1_000);
    rt.history.record_produce_success(
        OpArgs::Produce {
            topic: "orders".to_string(),
            partition: PartitionIndex(0),
            key: None,
            value: b"lost".to_vec(),
        },
        VirtualInstant::from_nanos(1),
        VirtualInstant::from_nanos(2),
        0,
    );
    assert!(matches!(rt.step(), Turn::Done(EndReason::Quiescent)));
    let outcome = rt.finish_run(&Checkers::new());
    assert!(matches!(
        &outcome,
        Outcome::Failed { property: PropertyId::AcknowledgedRecordDurability, at, .. }
            if *at == VirtualInstant::origin()
    ));
    assert_eq!(outcome.clone(), outcome);
}

/// First election timers fire when the caller's clocks say so.
#[test]
fn first_election_timers_follow_the_clocks_given() {
    let mut rt = runtime(3, 11, 1_000);
    let now = rt.scheduler().now();
    let mut checkers = Checkers::new();
    let requests = rt.begin_upkeep(&mut checkers, &FaultNote::Calm);
    assert_eq!(requests.len(), 3);
    assert!(requests.iter().all(|r| r.kind == TimerKind::Election));
    assert!(requests.iter().all(|r| r.group == metadata_group_key()));
    assert_eq!(rt.scheduler().pending_events(), 0);
    let at: Vec<VirtualInstant> = requests
        .iter()
        .map(|r| VirtualInstant::from_nanos(now.as_nanos() + 2 * r.delay.as_nanos() + 5))
        .collect();
    assert!(rt.finish_upkeep(&mut checkers, requests, &at).is_ok());
    assert_eq!(rt.scheduler().pending_events(), 3);
    assert_eq!(rt.scheduler().next_instant(), at.iter().min().copied());
    assert!(rt.begin_upkeep(&mut checkers, &FaultNote::Calm).is_empty());
}

/// On clocks that run true, the two steps come to the one.
#[test]
fn true_clocks_need_no_steps() {
    let mut one = runtime(3, 11, 1_000);
    let mut two = runtime(3, 11, 1_000);
    let mut checkers = Checkers::new();
    assert!(one.after_event(&mut checkers, &FaultNote::Calm).is_ok());
    let now = two.scheduler().now();
    let requests = two.begin_upkeep(&mut checkers, &FaultNote::Calm);
    let at = instants_of(&requests, now);
    assert!(two.finish_upkeep(&mut checkers, requests, &at).is_ok());
    assert_eq!(one.scheduler().pending_events(), two.scheduler().pending_events());
    assert_eq!(one.scheduler().next_instant(), two.scheduler().next_instant());
}
