use vela_sim::checker::kafka_parity::{
    acked_produces, check_consume_validity, check_durability, check_linearizability,
    check_offset_integrity, convergence_over_views, deleted_topics, first_topic_divergence,
    AckedProduce, CatalogueView, CommittedLog, ConsumeObs, KafkaParityChecker,
};
use vela_sim::checker::PropertyId;
use vela_sim::cluster::{ClusterMetadata, SimulatedCluster, Topic, TopicState};
use vela_sim::history::{History, OpArgs, OpResponse, RecordedOp};
use vela_sim::model::{
    CommittedRecord, GroupKey, LogBackend, NodeId, Offset, Partition, PartitionIndex,
};
use vela_sim::scenario::RunConfig;
use vela_sim::scheduler::VirtualInstant;

fn now() -> VirtualInstant {
    VirtualInstant::from_nanos(4_096)
}

fn group(topic: &str, partition: u32) -> GroupKey {
    (topic.to_string(), PartitionIndex(partition))
}

fn log(values: &[&[u8]]) -> CommittedLog {
    CommittedLog::from_records(
        values
            .iter()
            .enumerate()
            .map(|(i, v)| CommittedRecord {
                offset: i as Offset,
                value: v.to_vec(),
            })
            .collect(),
    )
}

fn acked(offset: Offset, value: &[u8], invoked: u64, responded: u64) -> AckedProduce {
    AckedProduce {
        offset,
        value: value.to_vec(),
        invoked_at: VirtualInstant::from_nanos(invoked),
        responded_at: VirtualInstant::from_nanos(responded),
    }
}

fn consumed(start_offset: Offset, values: &[&[u8]]) -> ConsumeObs {
    ConsumeObs {
        start_offset,
        values: values.iter().map(|v| v.to_vec()).collect(),
    }
}

#[test]
fn durability_passes_when_every_acked_record_is_present() {
    let g = group("orders", 0);
    let committed = log(&[b"a", b"b", b"c"]);
    let acks = vec![acked(0, b"a", 1, 2), acked(2, b"c", 3, 4)];
    assert!(check_durability(&g, &committed, &acks, now()).is_ok());
}

#[test]
fn durability_flags_a_lost_acknowledged_record() {
    let g = group("orders", 0);
    let committed = log(&[b"a", b"b"]);
    let acks = vec![acked(2, b"c", 3, 4)];
    let err = check_durability(&g, &committed, &acks, now())
        .expect_err("a lost acknowledged record must be flagged");
    assert_eq!(err.property, PropertyId::AcknowledgedRecordDurability);
    assert_eq!(err.at, now());
}

#[test]
fn durability_flags_an_overwritten_acknowledged_record() {
    let g = group("orders", 0);
    let committed = log(&[b"a", b"different"]);
    let acks = vec![acked(1, b"b", 3, 4)];
    let err = check_durability(&g, &committed, &acks, now())
        .expect_err("an overwritten acknowledged record must be flagged");
    assert_eq!(err.property, PropertyId::AcknowledgedRecordDurability);
}

#[test]
fn deleted_topics_collects_only_successful_deletes() {
    let mut history = History::new();
    history.record_produce_success(
        OpArgs::Produce {
            topic: "gone".to_string(),
            partition: PartitionIndex(0),
            key: None,
            value: b"v".to_vec(),
        },
        VirtualInstant::from_nanos(1),
        VirtualInstant::from_nanos(2),
        0,
    );
    history.record(RecordedOp::new(
        OpArgs::DeleteTopic {
            topic: "gone".to_string(),
        },
        VirtualInstant::from_nanos(3),
        VirtualInstant::from_nanos(4),
        OpResponse::DeleteTopicOk {
            topic: "gone".to_string(),
        },
    ));
    history.record(RecordedOp::new(
        OpArgs::DeleteTopic {
            topic: "stays".to_string(),
        },
        VirtualInstant::from_nanos(5),
        VirtualInstant::from_nanos(6),
        OpResponse::Error {
            message: "boom".to_string(),
        },
    ));

    let deleted = deleted_topics(&history);
    assert!(deleted.contains(&"gone".to_string()));
    assert!(!deleted.contains(&"stays".to_string()));
}

#[test]
fn check_skips_a_deleted_topic_but_still_flags_a_live_lost_record() {
    let mut history = History::new();
    history.record_produce_success(
        OpArgs::Produce {
            topic: "deleted".to_string(),
            partition: PartitionIndex(0),
            key: None,
            value: b"a".to_vec(),
        },
        VirtualInstant::from_nanos(1),
        VirtualInstant::from_nanos(2),
        0,
    );
    history.record(RecordedOp::new(
        OpArgs::DeleteTopic {
            topic: "deleted".to_string(),
        },
        VirtualInstant::from_nanos(3),
        VirtualInstant::from_nanos(4),
        OpResponse::DeleteTopicOk {
            topic: "deleted".to_string(),
        },
    ));
    history.record_produce_success(
        OpArgs::Produce {
            topic: "live".to_string(),
            partition: PartitionIndex(0),
            key: None,
            value: b"b".to_vec(),
        },
        VirtualInstant::from_nanos(5),
        VirtualInstant::from_nanos(6),
        0,
    );

    let deleted = deleted_topics(&history);
    assert!(deleted.contains(&"deleted".to_string()));
    assert!(!deleted.contains(&"live".to_string()));

    let empty = CommittedLog::from_records(Vec::new());
    let deleted_acks = acked_produces(&history, "deleted", PartitionIndex(0));
    let live_acks = acked_produces(&history, "live", PartitionIndex(0));

    assert!(deleted.contains(&"deleted".to_string()));

    let live_group = group("live", 0);
    let err = check_durability(&live_group, &empty, &live_acks, now())
        .expect_err("a live topic's lost acknowledged record must still fail");
    assert_eq!(err.property, PropertyId::AcknowledgedRecordDurability);

    let deleted_group = group("deleted", 0);
    assert!(
        check_durability(&deleted_group, &empty, &deleted_acks, now()).is_err(),
        "the deleted topic's record is absent; only the delete-exemption \
         makes `check` pass"
    );
}

#[test]
fn offset_integrity_passes_for_a_contiguous_log() {
    let g = group("orders", 0);
    let committed = log(&[b"a", b"b", b"c"]);
    let acks = vec![acked(0, b"a", 1, 2), acked(1, b"b", 3, 4)];
    assert!(check_offset_integrity(&g, &committed, &acks, now()).is_ok());
}

#[test]
fn offset_integrity_flags_a_gap_in_the_committed_log() {
    let g = group("orders", 0);
    let committed = CommittedLog::from_records(vec![
        CommittedRecord {
            offset: 0,
            value: b"a".to_vec(),
        },
        CommittedRecord {
            offset: 2,
            value: b"c".to_vec(),
        },
    ]);
    let err = check_offset_integrity(&g, &committed, &[], now())
        .expect_err("a gap in committed offsets must be flagged");
    assert_eq!(err.property, PropertyId::OffsetIntegrity);
    assert_eq!(err.at, now());
}

#[test]
fn offset_integrity_flags_one_offset_acknowledged_for_two_distinct_records() {
    let g = group("orders", 0);
    let committed = log(&[b"a", b"b"]);
    let acks = vec![acked(0, b"a", 1, 2), acked(0, b"x", 3, 4)];
    let err = check_offset_integrity(&g, &committed, &acks, now())
        .expect_err("an offset reused for two distinct records must be flagged");
    assert_eq!(err.property, PropertyId::OffsetIntegrity);
}

#[test]
fn consume_validity_passes_for_a_committed_range() {
    let g = group("orders", 0);
    let committed = log(&[b"a", b"b", b"c", b"d"]);
    let consumes = vec![consumed(1, &[b"b", b"c"])];
    assert!(check_consume_validity(&g, &committed, &consumes, now()).is_ok());
}

#[test]
fn consume_validity_flags_a_phantom_read() {
    let g = group("orders", 0);
    let committed = log(&[b"a", b"b"]);
    let consumes = vec![consumed(1, &[b"b", b"phantom"])];
    let err = check_consume_validity(&g, &committed, &consumes, now())
        .expect_err("a phantom read must be flagged");
    assert_eq!(err.property, PropertyId::ConsumeReadValidity);
    assert_eq!(err.at, now());
}

#[test]
fn consume_validity_flags_a_value_mismatch() {
    let g = group("orders", 0);
    let committed = log(&[b"a", b"b", b"c"]);
    let consumes = vec![consumed(0, &[b"a", b"wrong"])];
    let err = check_consume_validity(&g, &committed, &consumes, now())
        .expect_err("a consume value mismatch must be flagged");
    assert_eq!(err.property, PropertyId::ConsumeReadValidity);
}

#[test]
fn linearizability_passes_when_offsets_respect_real_time_order() {
    let g = group("orders", 0);
    let committed = log(&[b"a", b"b", b"c"]);
    let acks = vec![acked(0, b"a", 1, 2), acked(1, b"b", 3, 4)];
    let consumes = vec![consumed(0, &[b"a", b"b", b"c"])];
    assert!(check_linearizability(&g, &committed, &acks, &consumes, now()).is_ok());
}

#[test]
fn linearizability_flags_offsets_that_invert_real_time_order() {
    let g = group("orders", 0);
    let committed = log(&[b"a", b"b"]);
    let acks = vec![acked(1, b"a", 1, 2), acked(0, b"b", 3, 4)];
    let err = check_linearizability(&g, &committed, &acks, &[], now())
        .expect_err("an offset inverting real-time order must be flagged");
    assert_eq!(err.property, PropertyId::PerPartitionLinearizability);
    assert_eq!(err.at, now());
}

#[test]
fn linearizability_flags_a_consume_beyond_the_committed_log() {
    let g = group("orders", 0);
    let committed = log(&[b"a", b"b"]);
    let consumes = vec![consumed(1, &[b"b", b"c", b"d"])];
    let err = check_linearizability(&g, &committed, &[], &consumes, now())
        .expect_err("a consume past the committed log must be flagged");
    assert_eq!(err.property, PropertyId::PerPartitionLinearizability);
}

fn catalogue_with_topics(topics: &[&str]) -> ClusterMetadata {
    let mut meta = ClusterMetadata::new();
    for name in topics {
        meta.topics.insert(
            (*name).to_string(),
            Topic {
                name: (*name).to_string(),
                partitions: vec![Partition {
                    index: PartitionIndex(0),
                    replicas: vec![NodeId::new("node-0")],
                    leader: Some(NodeId::new("node-0")),
                }],
                state: TopicState::Active,
                backend: LogBackend::Durable,
            },
        );
    }
    meta
}

#[test]
fn convergence_passes_for_equal_catalogues_at_the_same_commit_index() {
    let a = catalogue_with_topics(&["orders", "payments"]);
    let b = catalogue_with_topics(&["orders", "payments"]);
    let node_a = NodeId::new("node-0");
    let node_b = NodeId::new("node-1");
    let views = vec![CatalogueView { node: &node_a, commit: 5, meta: &a }, CatalogueView { node: &node_b, commit: 5, meta: &b }];
    assert!(convergence_over_views(&views, now()).is_ok());
}

#[test]
fn convergence_ignores_nodes_at_different_commit_indices() {
    let a = catalogue_with_topics(&["orders"]);
    let b = catalogue_with_topics(&["orders", "payments"]);
    let node_a = NodeId::new("node-0");
    let node_b = NodeId::new("node-1");
    let views = vec![CatalogueView { node: &node_a, commit: 5, meta: &a }, CatalogueView { node: &node_b, commit: 6, meta: &b }];
    assert!(convergence_over_views(&views, now()).is_ok());
}

#[test]
fn convergence_flags_divergent_catalogues_at_the_same_commit_index() {
    let a = catalogue_with_topics(&["orders"]);
    let b = catalogue_with_topics(&["orders", "payments"]);
    let node_a = NodeId::new("node-0");
    let node_b = NodeId::new("node-1");
    let views = vec![CatalogueView { node: &node_a, commit: 7, meta: &a }, CatalogueView { node: &node_b, commit: 7, meta: &b }];
    let err = convergence_over_views(&views, now())
        .expect_err("divergent catalogues at the same commit index must be flagged");
    assert_eq!(err.property, PropertyId::MetadataConvergence);
    assert_eq!(err.at, now());
    assert!(err.detail.contains("payments"));
}

#[test]
fn first_topic_divergence_finds_the_sorted_first_difference() {
    let a = catalogue_with_topics(&["alpha", "gamma"]);
    let b = catalogue_with_topics(&["alpha", "beta", "gamma"]);
    assert_eq!(first_topic_divergence(&a, &b), Some("beta".to_string()));
}

/// Clients that were told of a record on a cluster that has none are found out, and a
/// topic that was deleted is let pass.
#[test]
fn whole_check_reads_the_cluster_and_the_history() {
    let cluster: SimulatedCluster<()> = SimulatedCluster::new(RunConfig::default()).unwrap();
    let checker = KafkaParityChecker::new();
    let mut history = History::new();
    assert!(checker.check(&cluster, &history, now()).is_ok());
    history.record_produce_success(
        OpArgs::Produce {
            topic: "orders".to_string(),
            partition: PartitionIndex(0),
            key: None,
            value: b"v".to_vec(),
        },
        VirtualInstant::from_nanos(1),
        VirtualInstant::from_nanos(2),
        0,
    );
    let err = checker.check(&cluster, &history, now()).expect_err("the record is lost");
    assert_eq!(err.property, PropertyId::AcknowledgedRecordDurability);
    assert_eq!(err.at, now());
    history.record(RecordedOp::new(
        OpArgs::DeleteTopic { topic: "orders".to_string() },
        VirtualInstant::from_nanos(3),
        VirtualInstant::from_nanos(4),
        OpResponse::DeleteTopicOk { topic: "orders".to_string() },
    ));
    assert!(checker.check(&cluster, &history, now()).is_ok());
}

/// A checker by default finds nothing to say of a run without operations.
#[test]
fn a_default_checker_passes_an_empty_history() {
    let cluster: SimulatedCluster<()> = SimulatedCluster::new(RunConfig::default())
        .expect("valid scenario assembles");
    let checker = KafkaParityChecker::default();
    assert!(checker.check(&cluster, &History::new(), now()).is_ok());
}
