use vela_sim::cluster::{
    peers_map_for, ClusterMetadata, NodeUpdate, ReconcilePlan, RecoveredNode, ReplicaState, SimNode,
    SimulatedCluster, Topic, TopicState, Topology,
};
use vela_sim::keyed::KeyedMap;
use vela_sim::model::{
    metadata_group_key, ClusterCommand, GroupKey, LogBackend, NodeId, Partition, PartitionIndex,
    RaftNodeId,
};
use vela_sim::network::Envelope;
use vela_sim::scenario::{RunConfig, ScenarioError, ScenarioParameters, DEFAULT_NODE_COUNT};
use vela_sim::scheduler::VirtualInstant;
use vela_sim::storage::data_dir_for;

#[derive(Clone, Debug, PartialEq)]
struct Vote {
    term: u64,
}

fn params(
    node_count: usize,
    replication_factor: usize,
    partition_count: u32,
) -> ScenarioParameters {
    ScenarioParameters {
        node_count,
        replication_factor,
        partition_count,
        ..ScenarioParameters::default()
    }
}

#[test]
fn topology_node_ids_are_node_index_in_order() {
    let topo = Topology::from_params(&params(3, 2, 4));
    assert_eq!(topo.node_count(), 3);
    assert_eq!(
        topo.nodes(),
        &[
            NodeId::new("node-0"),
            NodeId::new("node-1"),
            NodeId::new("node-2"),
        ]
    );
}

#[test]
fn topology_construction_is_deterministic() {
    let p = params(5, 3, 7);
    assert_eq!(Topology::from_params(&p), Topology::from_params(&p));
}

#[test]
fn replica_sets_have_replication_factor_distinct_nodes() {
    let topo = Topology::from_params(&params(5, 3, 5));
    for p in 0..topo.partition_count() {
        let set = topo
            .replica_set_for(PartitionIndex(p))
            .expect("partition index within range has a replica set");
        assert_eq!(set.len(), 3);
        let mut seen = set.to_vec();
        seen.sort();
        seen.dedup();
        assert_eq!(seen.len(), 3, "replica set must hold distinct nodes");
        assert!(set.iter().all(|n| topo.nodes().contains(n)));
    }
}

#[test]
fn replica_sets_are_contiguous_round_robin_by_partition_index() {
    let topo = Topology::from_params(&params(3, 2, 4));
    assert_eq!(
        topo.replica_set_for(PartitionIndex(0)).unwrap(),
        &[NodeId::new("node-0"), NodeId::new("node-1")]
    );
    assert_eq!(
        topo.replica_set_for(PartitionIndex(1)).unwrap(),
        &[NodeId::new("node-1"), NodeId::new("node-2")]
    );
    assert_eq!(
        topo.replica_set_for(PartitionIndex(2)).unwrap(),
        &[NodeId::new("node-2"), NodeId::new("node-0")]
    );
    assert_eq!(
        topo.replica_set_for(PartitionIndex(3)).unwrap(),
        &[NodeId::new("node-0"), NodeId::new("node-1")]
    );
}

#[test]
fn replica_set_for_out_of_range_partition_is_none() {
    let topo = Topology::from_params(&params(3, 2, 2));
    assert!(topo.replica_set_for(PartitionIndex(2)).is_none());
}

#[test]
fn metadata_group_is_replicated_by_every_node() {
    let topo = Topology::from_params(&params(4, 2, 3));
    let meta = topo.replica_set_for_group(&metadata_group_key()).unwrap();
    assert_eq!(meta, topo.nodes());
}

#[test]
fn replica_set_for_client_group_ignores_topic_name() {
    let topo = Topology::from_params(&params(3, 2, 3));
    let orders = ("orders".to_string(), PartitionIndex(1));
    let events = ("events".to_string(), PartitionIndex(1));
    assert_eq!(
        topo.replica_set_for_group(&orders),
        topo.replica_set_for_group(&events)
    );
}

#[test]
fn raft_id_and_domain_id_round_trip() {
    let topo = Topology::from_params(&params(4, 2, 2));
    for (i, node) in topo.nodes().iter().enumerate() {
        let raft = topo.raft_id(node).expect("member has a raft id");
        assert_eq!(raft, RaftNodeId(i as u64));
        assert_eq!(topo.domain_id(raft), Some(node));
    }
    assert!(topo.raft_id(&NodeId::new("ghost")).is_none());
    assert!(topo.domain_id(RaftNodeId(99)).is_none());
}

#[test]
fn peers_for_excludes_self_and_handles_non_members() {
    let topo = Topology::from_params(&params(3, 3, 1));
    let group = ("orders".to_string(), PartitionIndex(0));
    assert_eq!(
        topo.peers_for(&NodeId::new("node-0"), &group),
        vec![RaftNodeId(1), RaftNodeId(2)]
    );
    assert_eq!(
        topo.peers_for(&NodeId::new("node-1"), &group),
        vec![RaftNodeId(0), RaftNodeId(2)]
    );
    let topo = Topology::from_params(&params(3, 1, 1));
    assert!(topo.peers_for(&NodeId::new("node-1"), &group).is_empty());
    assert!(topo.peers_for(&NodeId::new("node-0"), &group).is_empty());
}

#[test]
fn group_contains_reflects_replica_set_membership() {
    let topo = Topology::from_params(&params(3, 2, 3));
    let group = ("orders".to_string(), PartitionIndex(0)); // { node-0, node-1 }
    assert!(topo.group_contains(&group, &NodeId::new("node-0")));
    assert!(topo.group_contains(&group, &NodeId::new("node-1")));
    assert!(!topo.group_contains(&group, &NodeId::new("node-2")));
    let meta = metadata_group_key();
    assert!(topo.group_contains(&meta, &NodeId::new("node-2")));
}

#[test]
fn sim_node_starts_running_with_empty_fleet_and_storage() {
    let topo = Topology::from_params(&params(3, 3, 1));
    let id = NodeId::new("node-0");
    let raft_id = topo.raft_id(&id).unwrap();
    let node = SimNode::new(id.clone(), raft_id, ReplicaState::fresh());

    assert_eq!(node.id(), &id);
    assert_eq!(node.raft_id(), RaftNodeId(0));
    assert!(node.is_running());
    assert_eq!(node.fleet_len(), 0);
    assert!(node.served().topics.len() == 0);
    assert!(node.storage.len() == 0);
    assert!(node.controller().is_some());
}

fn cluster(
    node_count: usize,
    replication_factor: usize,
    partition_count: u32,
) -> SimulatedCluster<Vote> {
    SimulatedCluster::new(RunConfig {
        seed: 0,
        params: params(node_count, replication_factor, partition_count),
    })
    .expect("valid parameters assemble a cluster")
}

#[test]
fn new_builds_one_running_node_per_id_each_hosting_meta_group() {
    let cluster = cluster(3, 3, 4);
    assert_eq!(cluster.node_count(), 3);

    let meta = metadata_group_key();
    for (i, node) in cluster.nodes().iter().enumerate() {
        assert_eq!(node.id(), &NodeId::new(&format!("node-{i}")));
        assert_eq!(node.raft_id(), RaftNodeId(i as u64));
        assert!(node.is_running());
        assert!(node.controller().is_some());
        assert_eq!(node.controller().unwrap().commit_index, None);
        assert!(node.served().topics.len() == 0);
        assert_eq!(node.fleet_len(), 0);
        assert!(node.storage.contains(&meta));
        assert_eq!(node.storage.len(), 1);
    }
}

#[test]
fn new_accepts_the_default_run_config() {
    let cluster: SimulatedCluster<Vote> = SimulatedCluster::new(RunConfig::default())
        .expect("default config assembles a cluster");
    assert_eq!(cluster.node_count(), DEFAULT_NODE_COUNT);
}

#[test]
fn new_rejects_invalid_parameters_before_building() {
    let bad = RunConfig {
        seed: 0,
        params: ScenarioParameters {
            node_count: 3,
            replication_factor: 4,
            ..ScenarioParameters::default()
        },
    };
    assert!(matches!(
        SimulatedCluster::<Vote>::new(bad),
        Err(ScenarioError::ReplicationFactorTooHigh { .. })
    ));
}

#[test]
fn assembly_is_deterministic_for_a_config() {
    let a = cluster(5, 3, 7);
    let b = cluster(5, 3, 7);
    assert_eq!(a.topology(), b.topology());
    assert_eq!(a.node_count(), b.node_count());
    for (na, nb) in a.nodes().iter().zip(b.nodes()) {
        assert_eq!(na.id(), nb.id());
        assert_eq!(na.raft_id(), nb.raft_id());
        assert!(na.controller().is_some());
        assert!(nb.controller().is_some());
    }
}

#[test]
fn topology_network_and_clock_accessors_are_exposed() {
    let cluster = cluster(3, 2, 4);
    assert_eq!(cluster.topology().node_count(), 3);
    assert_eq!(cluster.network().pending_len(), 0);
    assert_eq!(cluster.clock().virtual_now(), VirtualInstant::origin());
    assert!(cluster.node(2).is_some());
    assert!(cluster.node(3).is_none());
}

#[test]
fn each_node_has_a_meta_transport_routing_through_the_shared_network() {
    let mut cluster = cluster(3, 3, 1);
    for i in 0..cluster.node_count() {
        assert!(cluster.meta_transport(i).is_some());
    }
    assert!(cluster.meta_transport(3).is_none());

    let tx = cluster.meta_transport(0).expect("node-0 has a meta transport");
    assert_eq!(tx.from, NodeId::new("node-0"));
    assert_eq!(tx.group, metadata_group_key());
    let pending = send(&mut cluster, 0, &metadata_group_key(), RaftNodeId(1), 1_000);
    assert_eq!(pending.len(), 1, "the message is routed through the bus");
    let (_, envelope) = &pending[0];
    assert_eq!(envelope.from, NodeId::new("node-0"));
    assert_eq!(envelope.to, NodeId::new("node-1"));
    assert_eq!(envelope.to_raft, RaftNodeId(1));
    assert_eq!(envelope.group, metadata_group_key());
}

#[test]
fn meta_group_storage_disks_are_distinct_per_node() {
    let cluster = cluster(3, 3, 1);
    let meta = metadata_group_key();
    let dirs: Vec<_> = cluster
        .nodes()
        .iter()
        .map(|n| {
            assert!(n.storage.contains(&meta));
            data_dir_for(n.id(), &meta)
        })
        .collect();
    assert_eq!(dirs.len(), 3);
    assert_ne!(dirs[0], dirs[1]);
    assert_ne!(dirs[1], dirs[2]);
    assert_ne!(dirs[0], dirs[2]);
}

fn create_topic_for(topo: &Topology, name: &str) -> ClusterCommand {
    let partitions = (0..topo.partition_count())
        .map(|p| {
            let index = PartitionIndex(p);
            Partition {
                index,
                replicas: topo
                    .replica_set_for(index)
                    .expect("partition index within range")
                    .to_vec(),
                leader: None,
            }
        })
        .collect();
    ClusterCommand::CreateTopic {
        name: name.to_string(),
        partitions,
        backend: LogBackend::Durable,
    }
}

fn keys<V>(map: &KeyedMap<GroupKey, V>) -> Vec<GroupKey> {
    let mut keys: Vec<GroupKey> = (0..map.len()).map(|i| map.entry(i).0.clone()).collect();
    keys.sort();
    keys
}

fn fleet_keys(node: &SimNode) -> Vec<GroupKey> {
    keys(&node.fleet)
}

/// A catalogue with one topic, or without it.
fn catalogue_after(command: &ClusterCommand) -> ClusterMetadata {
    let mut meta = ClusterMetadata::new();
    if let ClusterCommand::CreateTopic { name, partitions, backend } = command {
        let partitions = partitions
            .iter()
            .map(|p| Partition {
                index: p.index,
                replicas: p.replicas.clone(),
                leader: p.leader.clone(),
            })
            .collect();
        meta.topics.insert(
            name.clone(),
            Topic { name: name.clone(), partitions, state: TopicState::Active, backend: *backend },
        );
    }
    meta
}

/// The groups that a catalogue assigns to a node.
fn assigned(meta: &ClusterMetadata, node: &NodeId) -> Vec<GroupKey> {
    let mut groups = Vec::new();
    for i in 0..meta.topics.len() {
        let (name, topic) = meta.topics.entry(i);
        for p in &topic.partitions {
            if p.replicas.contains(node) {
                groups.push((name.clone(), p.index));
            }
        }
    }
    groups
}

/// Every node serves the catalogue after `command`, and hosts what it assigns to it.
fn updates_for(cluster: &SimulatedCluster<Vote>, command: &ClusterCommand) -> Vec<NodeUpdate> {
    cluster
        .nodes()
        .iter()
        .map(|node| {
            let served = catalogue_after(command);
            let wanted = assigned(&served, node.id());
            let hosted = fleet_keys(node);
            NodeUpdate {
                plan: ReconcilePlan {
                    spawn: wanted.iter().filter(|g| !hosted.contains(g)).cloned().collect(),
                    stop: hosted.iter().filter(|g| !wanted.contains(g)).cloned().collect(),
                },
                served,
            }
        })
        .collect()
}

fn apply(cluster: &mut SimulatedCluster<Vote>, command: &ClusterCommand) {
    let updates = updates_for(cluster, command);
    cluster.apply_committed_metadata(updates);
}

/// What a node comes back with that has recovered `command`, or nothing.
fn recovered(node: &SimNode, command: Option<&ClusterCommand>) -> RecoveredNode {
    let served = match command {
        Some(command) => catalogue_after(command),
        None => ClusterMetadata::new(),
    };
    let replicas = assigned(&served, node.id())
        .into_iter()
        .map(|g| (g, ReplicaState::fresh()))
        .collect();
    RecoveredNode { meta: ReplicaState::fresh(), served, replicas }
}

fn restart(cluster: &mut SimulatedCluster<Vote>, index: usize) -> bool {
    let node = RecoveredNode {
        meta: ReplicaState::fresh(),
        served: ClusterMetadata::new(),
        replicas: Vec::new(),
    };
    cluster.restart_node(index, node)
}

/// Send a vote from the node at `index` in `group`; what the network makes of it.
fn send(
    cluster: &mut SimulatedCluster<Vote>,
    index: usize,
    group: &GroupKey,
    to: RaftNodeId,
    now: u64,
) -> Vec<(VirtualInstant, Envelope<Vote>)> {
    let from = cluster.node(index).unwrap().id().clone();
    let peers = peers_map_for(cluster.topology(), &from, group);
    let tx = cluster.network().transport(from, group.clone(), peers);
    cluster.network_mut().set_now(VirtualInstant::from_nanos(now));
    tx.send(cluster.network_mut(), to, Vote { term: 1 });
    cluster.network_mut().drain_pending()
}

#[test]
fn create_topic_spawns_a_replica_on_exactly_the_assigned_nodes() {
    let mut cluster = cluster(3, 2, 3);
    let command = create_topic_for(cluster.topology(), "orders");

    apply(&mut cluster, &command);

    let topo = cluster.topology();
    for node in cluster.nodes() {
        let expected: Vec<GroupKey> = (0..topo.partition_count())
            .map(PartitionIndex)
            .filter(|p| topo.replica_set_for(*p).unwrap().contains(node.id()))
            .map(|p| ("orders".to_string(), p))
            .collect();
        assert_eq!(fleet_keys(node), expected, "node {:?}", node.id());

        for key in &expected {
            assert!(node.storage.contains(key));
            assert!(node.transports.contains(key));
        }
        assert_eq!(node.transports.len(), expected.len());
        assert_eq!(node.storage.len(), expected.len() + 1);
        assert!(node.storage.contains(&metadata_group_key()));

        assert!(node.served().topics.contains(&"orders".to_string()));
    }
}

#[test]
fn delete_topic_stops_every_replica_it_started() {
    let mut cluster = cluster(3, 2, 3);
    let create = create_topic_for(cluster.topology(), "orders");
    apply(&mut cluster, &create);
    assert!(cluster.nodes().iter().any(|n| n.fleet_len() > 0));

    let delete = ClusterCommand::DeleteTopic {
        name: "orders".to_string(),
    };
    apply(&mut cluster, &delete);

    for node in cluster.nodes() {
        assert_eq!(node.fleet_len(), 0);
        assert!(node.transports.len() == 0);
        assert_eq!(node.storage.len(), 1);
        assert!(node.storage.contains(&metadata_group_key()));
        assert!(!node.served().topics.contains(&"orders".to_string()));
    }
}

#[test]
fn applying_the_same_create_twice_is_idempotent() {
    let mut cluster = cluster(3, 2, 3);
    let command = create_topic_for(cluster.topology(), "orders");

    apply(&mut cluster, &command);
    let first: Vec<Vec<GroupKey>> = cluster.nodes().iter().map(fleet_keys).collect();

    apply(&mut cluster, &command);
    let second: Vec<Vec<GroupKey>> = cluster.nodes().iter().map(fleet_keys).collect();

    assert_eq!(first, second);
}

#[test]
fn reconcile_never_starts_or_stops_the_metadata_group() {
    let mut cluster = cluster(3, 3, 2);
    let meta = metadata_group_key();
    let create = create_topic_for(cluster.topology(), "a");

    apply(&mut cluster, &create);
    for node in cluster.nodes() {
        assert!(!node.fleet.contains(&meta));
        assert!(!node.transports.contains(&meta));
        assert!(node.controller().is_some());
    }

    apply(&mut cluster, &ClusterCommand::DeleteTopic { name: "a".to_string() });
    for node in cluster.nodes() {
        assert!(node.controller().is_some());
        assert!(node.storage.contains(&meta));
    }
}

#[test]
fn transport_for_resolves_partition_and_meta_groups() {
    let mut cluster = cluster(3, 2, 3);
    let create = create_topic_for(cluster.topology(), "orders");
    apply(&mut cluster, &create);

    let group: GroupKey = ("orders".to_string(), PartitionIndex(0));
    let tx = cluster.transport_for(0, &group).expect("node-0 hosts orders/p0");
    assert_eq!(tx.group, group);
    let pending = send(&mut cluster, 0, &group, RaftNodeId(1), 500);
    assert_eq!(pending.len(), 1);
    let (_, env) = &pending[0];
    assert_eq!(env.from, NodeId::new("node-0"));
    assert_eq!(env.to, NodeId::new("node-1"));
    assert_eq!(env.group, group);

    assert!(cluster.transport_for(0, &metadata_group_key()).is_some());
    let unhosted: GroupKey = ("orders".to_string(), PartitionIndex(1));
    assert!(cluster.transport_for(0, &unhosted).is_none());
}

#[test]
fn reconcile_outcome_is_deterministic_for_a_config() {
    let mut a = cluster(5, 3, 7);
    let mut b = cluster(5, 3, 7);
    let command = create_topic_for(a.topology(), "orders");
    apply(&mut a, &command);
    apply(&mut b, &command);

    for (na, nb) in a.nodes().iter().zip(b.nodes()) {
        assert_eq!(fleet_keys(na), fleet_keys(nb));
    }
}

#[test]
fn crash_clears_running_drops_volatile_state_and_cuts_the_network() {
    let mut cluster = cluster(3, 2, 3);
    let create = create_topic_for(cluster.topology(), "orders");
    apply(&mut cluster, &create);

    assert!(cluster.node(0).unwrap().fleet_len() > 0);
    let retained_disks = cluster.node(0).unwrap().storage.len();

    assert!(cluster.crash_node(0));

    let node = cluster.node(0).unwrap();
    assert!(!node.is_running());
    assert!(node.controller().is_none());
    assert_eq!(node.fleet_len(), 0);
    assert!(node.transports.len() == 0);
    assert_eq!(node.storage.len(), retained_disks);
    assert!(node.storage.contains(&metadata_group_key()));

    let pending = send(&mut cluster, 1, &metadata_group_key(), RaftNodeId(0), 10);
    assert_eq!(
        pending.len(),
        0,
        "a crashed node receives nothing until it is restarted"
    );
}

#[test]
fn crash_is_idempotent_and_bounds_checked() {
    let mut cluster = cluster(3, 3, 1);
    assert!(cluster.crash_node(0));
    assert!(!cluster.crash_node(0));
    assert!(!cluster.crash_node(99));
}

#[test]
fn restart_recovers_meta_group_sets_running_and_restores_delivery() {
    let mut cluster = cluster(3, 3, 1);
    assert!(cluster.crash_node(1));
    assert!(restart(&mut cluster, 1));

    let node = cluster.node(1).unwrap();
    assert!(node.is_running());
    assert!(node.controller().is_some());
    assert!(node.served().topics.len() == 0);
    assert_eq!(node.fleet_len(), 0);
    assert!(node.storage.contains(&metadata_group_key()));

    let pending = send(&mut cluster, 0, &metadata_group_key(), RaftNodeId(1), 20);
    assert_eq!(
        pending.len(),
        1,
        "a restarted node receives messages again"
    );
}

#[test]
fn restart_is_idempotent_and_bounds_checked() {
    let mut cluster = cluster(3, 3, 1);
    assert!(!restart(&mut cluster, 0));
    assert!(!restart(&mut cluster, 99));
}

#[test]
fn restart_recovers_the_durable_catalogue_and_restarts_assigned_replicas() {
    let mut cluster = cluster(1, 1, 2);
    let create = create_topic_for(cluster.topology(), "orders");

    assert!(cluster.crash_node(0));
    assert!(cluster.node(0).unwrap().controller().is_none());

    let back = recovered(cluster.node(0).unwrap(), Some(&create));
    assert!(cluster.restart_node(0, back));

    let topo = cluster.topology();
    let node = cluster.node(0).unwrap();
    assert!(node.is_running());
    assert!(node.controller().is_some());
    assert!(node.served().topics.contains(&"orders".to_string()));
    let expected: Vec<GroupKey> = (0..topo.partition_count())
        .map(PartitionIndex)
        .filter(|p| topo.replica_set_for(*p).unwrap().contains(node.id()))
        .map(|p| ("orders".to_string(), p))
        .collect();
    assert_eq!(fleet_keys(node), expected);
    for key in &expected {
        assert!(node.storage.contains(key));
        assert!(node.transports.contains(key));
    }
}

#[test]
fn apply_committed_metadata_skips_crashed_nodes() {
    let mut cluster = cluster(3, 2, 3);
    assert!(cluster.crash_node(0));

    let create = create_topic_for(cluster.topology(), "orders");
    apply(&mut cluster, &create);

    let crashed = cluster.node(0).unwrap();
    assert!(!crashed.is_running());
    assert!(crashed.served().topics.len() == 0);
    assert_eq!(crashed.fleet_len(), 0);
    assert!(cluster
        .node(1)
        .unwrap()
        .served()
        .topics.contains(&"orders".to_string()));
}

#[test]
fn crash_and_restart_a_minority_subset() {
    let mut cluster = cluster(5, 5, 1);
    assert_eq!(cluster.crash_nodes(&[1, 3]), 2);
    assert!(!cluster.node(1).unwrap().is_running());
    assert!(!cluster.node(3).unwrap().is_running());
    assert_eq!(cluster.nodes().iter().filter(|n| n.is_running()).count(), 3);

    let back = [1, 3]
        .into_iter()
        .map(|i| (i, recovered(cluster.node(i).unwrap(), None)))
        .collect();
    assert_eq!(cluster.restart_nodes(back), 2);
    assert!(cluster.nodes().iter().all(SimNode::is_running));
}

#[test]
fn index_of_maps_node_ids_to_indices() {
    let cluster = cluster(3, 2, 1);
    assert_eq!(cluster.index_of(&NodeId::new("node-0")), Some(0));
    assert_eq!(cluster.index_of(&NodeId::new("node-2")), Some(2));
    assert_eq!(cluster.index_of(&NodeId::new("ghost")), None);
}

#[test]
fn crash_restart_is_deterministic_for_a_config() {
    let build = || {
        let mut c = cluster(1, 1, 2);
        let create = create_topic_for(c.topology(), "orders");
        c.crash_node(0);
        let back = recovered(c.node(0).unwrap(), Some(&create));
        c.restart_node(0, back);
        c
    };
    let a = build();
    let b = build();
    let (one, two) = (a.node(0).unwrap().served(), b.node(0).unwrap().served());
    assert_eq!(one.topics.get(&"orders".to_string()), two.topics.get(&"orders".to_string()));
    assert_eq!(one.topics.len(), two.topics.len());
    assert_eq!(
        fleet_keys(a.node(0).unwrap()),
        fleet_keys(b.node(0).unwrap())
    );
}

/// A crash and a restart leave every other node and every cut as they were.
#[test]
fn crash_and_restart_touch_one_node() {
    let mut cluster = cluster(3, 3, 2);
    let create = create_topic_for(cluster.topology(), "orders");
    apply(&mut cluster, &create);
    let before: Vec<Vec<GroupKey>> = cluster.nodes().iter().map(fleet_keys).collect();
    assert!(cluster.crash_node(2));
    let back = recovered(cluster.node(2).unwrap(), Some(&create));
    assert!(cluster.restart_node(2, back));
    let after: Vec<Vec<GroupKey>> = cluster.nodes().iter().map(fleet_keys).collect();
    assert_eq!(before, after);
    assert_eq!(cluster.network().crashed.len(), 0);
}

/// A node that is named twice counts once, and one that there is not does not count.
#[test]
fn crashes_and_restarts_count_nodes_once() {
    let mut cluster = cluster(3, 3, 1);
    assert_eq!(cluster.crash_nodes(&[0, 0, 7, 1]), 2);
    let back = [0, 2, 0, 9]
        .into_iter()
        .map(|i| (i, recovered(cluster.node(0).unwrap(), None)))
        .collect();
    assert_eq!(cluster.restart_nodes(back), 1);
    assert!(cluster.node(0).unwrap().is_running());
    assert!(!cluster.node(1).unwrap().is_running());
}

#[test]
fn peers_come_in_the_order_of_their_numbers() {
    let topo = Topology::from_params(&ScenarioParameters {
        node_count: 3,
        replication_factor: 3,
        partition_count: 2,
        ..ScenarioParameters::default()
    });
    let group: GroupKey = ("orders".to_string(), PartitionIndex(1));
    assert_eq!(
        topo.peers_for(&NodeId::new("node-1"), &group),
        vec![RaftNodeId(0), RaftNodeId(2)]
    );
    assert_eq!(
        topo.peers_for(&NodeId::new("node-2"), &group),
        vec![RaftNodeId(0), RaftNodeId(1)]
    );
}
