use vela_sim::history::{History, OpArgs, OpKind, OpResponse, RecordedOp};
use vela_sim::model::{NodeId, Offset, PartitionIndex, Record};
use vela_sim::scheduler::VirtualInstant;


fn t(nanos: u64) -> VirtualInstant {
    VirtualInstant::from_nanos(nanos)
}

fn produce_args(topic: &str, partition: u32, value: &[u8]) -> OpArgs {
    OpArgs::Produce {
        topic: topic.to_string(),
        partition: PartitionIndex(partition),
        key: None,
        value: value.to_vec(),
    }
}

#[test]
fn produce_success_records_topic_partition_value_and_offset() {
    let mut history = History::new();
    let args = produce_args("orders", 2, b"hello");
    history.record_produce_success(args.clone(), t(10), t(15), 7);

    assert_eq!(history.len(), 1);
    let op = &history.ops[0];
    assert_eq!(op.kind, OpKind::Produce);
    assert_eq!(op.args, args);
    assert_eq!(op.invoked_at, t(10));
    assert_eq!(op.responded_at, t(15));
    assert_eq!(
        op.response,
        OpResponse::ProduceOk {
            topic: "orders".to_string(),
            partition: PartitionIndex(2),
            value: b"hello".to_vec(),
            offset: 7,
        }
    );
}

#[test]
fn consume_success_records_start_offset_and_ordered_records() {
    let mut history = History::new();
    let args = OpArgs::Consume {
        topic: "orders".to_string(),
        partition: PartitionIndex(1),
        start_offset: 3,
        max_records: 10,
    };
    let records = vec![
        Record {
            key: None,
            value: b"a".to_vec(),
        },
        Record {
            key: Some(b"k".to_vec()),
            value: b"b".to_vec(),
        },
    ];
    history.record_consume_success(args.clone(), t(20), t(25), records.clone());

    let op = &history.ops[0];
    assert_eq!(op.kind, OpKind::Consume);
    assert_eq!(op.args, args);
    match &op.response {
        OpResponse::ConsumeOk {
            topic,
            partition,
            start_offset,
            records: returned,
        } => {
            assert_eq!(topic, "orders");
            assert_eq!(*partition, PartitionIndex(1));
            assert_eq!(*start_offset, 3);
            // Ordering is preserved exactly as returned.
            assert_eq!(returned, &records);
        }
        other => panic!("expected ConsumeOk, got {other:?}"),
    }
}

#[test]
fn redirect_is_recorded_as_the_response() {
    let mut history = History::new();
    let args = produce_args("orders", 0, b"v");
    history.record_redirect(args.clone(), t(1), t(2), NodeId("node-3".to_string()));

    assert_eq!(history.len(), 1, "redirected op must not be dropped");
    assert_eq!(
        history.ops[0].response,
        OpResponse::Redirect {
            leader: NodeId("node-3".to_string()),
        }
    );
    // The original arguments are retained alongside the redirect response.
    assert_eq!(history.ops[0].args, args);
}

#[test]
fn failures_are_recorded_rather_than_discarded() {
    let mut history = History::new();
    history.record_failure(
        produce_args("t", 0, b"x"),
        t(1),
        t(2),
        OpResponse::UnresolvedRedirection,
    );
    history.record_failure(produce_args("t", 0, b"x"), t(3), t(4), OpResponse::NoLeader);
    history.record_failure(
        produce_args("t", 0, b"x"),
        t(5),
        t(6),
        OpResponse::IoError {
            message: "disk full".to_string(),
        },
    );
    history.record_failure(
        OpArgs::CreateTopic {
            topic: "t".to_string(),
            partitions: 1,
            replication_factor: 1,
        },
        t(7),
        t(8),
        OpResponse::Error {
            message: "already exists".to_string(),
        },
    );

    assert_eq!(history.len(), 4, "every failed op is retained");
    assert_eq!(history.ops[0].response, OpResponse::UnresolvedRedirection);
    assert_eq!(history.ops[1].response, OpResponse::NoLeader);
    assert!(matches!(
        history.ops[2].response,
        OpResponse::IoError { .. }
    ));
    assert!(matches!(history.ops[3].response, OpResponse::Error { .. }));
}

#[test]
fn ops_are_recorded_in_invocation_order() {
    let mut history = History::new();
    // Record with deliberately interleaved instants; order must follow the
    // call order, not the instants.
    history.record_produce_success(produce_args("t", 0, b"0"), t(100), t(101), 0);
    history.record_produce_success(produce_args("t", 0, b"1"), t(10), t(11), 1);
    history.record_produce_success(produce_args("t", 0, b"2"), t(50), t(51), 2);

    let offsets: Vec<Offset> = history
        .iter()
        .iter()
        .map(|op| match &op.response {
            OpResponse::ProduceOk { offset, .. } => *offset,
            other => panic!("expected ProduceOk, got {other:?}"),
        })
        .collect();
    assert_eq!(offsets, vec![0, 1, 2], "iteration follows invocation order");
}

#[test]
fn record_appends_prebuilt_op_with_kind_derived_from_args() {
    let mut history = History::new();
    let op = RecordedOp::new(
        OpArgs::DeleteTopic {
            topic: "gone".to_string(),
        },
        t(1),
        t(2),
        OpResponse::DeleteTopicOk {
            topic: "gone".to_string(),
        },
    );
    assert_eq!(op.kind, OpKind::DeleteTopic);
    history.record(op);
    assert_eq!(history.ops[0].kind, OpKind::DeleteTopic);
}

#[test]
fn filters_select_by_topic_and_partition() {
    let mut history = History::new();
    history.record(RecordedOp::new(
        OpArgs::CreateTopic {
            topic: "orders".to_string(),
            partitions: 2,
            replication_factor: 3,
        },
        t(1),
        t(2),
        OpResponse::CreateTopicOk {
            topic: "orders".to_string(),
        },
    ));
    history.record_produce_success(produce_args("orders", 0, b"a"), t(3), t(4), 0);
    history.record_produce_success(produce_args("orders", 1, b"b"), t(5), t(6), 0);
    history.record_produce_success(produce_args("other", 0, b"c"), t(7), t(8), 0);

    // By topic: the create plus the two "orders" produces (not "other").
    assert_eq!(history.iter_for_topic("orders").len(), 3);
    assert_eq!(history.iter_for_topic("other").len(), 1);

    // By topic + partition: only the partition-0 produce on "orders"; the
    // create (no partition) is excluded.
    let p0: Vec<&RecordedOp> = history.iter_for_partition("orders", PartitionIndex(0));
    assert_eq!(p0.len(), 1);
    assert_eq!(p0[0].kind, OpKind::Produce);
    assert_eq!(p0[0].partition(), Some(PartitionIndex(0)));
}

#[test]
fn empty_history_is_empty() {
    let history = History::default();
    assert!(history.is_empty());
    assert_eq!(history.len(), 0);
    assert_eq!(history.iter().len(), 0);
}

/// An operation that is answered late takes its place among those invoked after it.
#[test]
fn a_late_answer_takes_its_place() {
    let mut history = History::new();
    let at = |invoked: u64, responded: u64| {
        RecordedOp::new(
            produce_args("orders", 0, b"v"),
            t(invoked),
            t(responded),
            OpResponse::NoLeader,
        )
    };
    history.record(at(10, 10));
    history.record(at(40, 40));
    history.place(at(20, 50));
    history.place(at(5, 60));
    history.place(at(20, 70));
    history.place(at(90, 90));
    let order: Vec<(u64, u64)> = history
        .iter()
        .iter()
        .map(|op| (op.invoked_at.as_nanos(), op.responded_at.as_nanos()))
        .collect();
    assert_eq!(order, vec![(5, 60), (10, 10), (20, 50), (20, 70), (40, 40), (90, 90)]);
}
