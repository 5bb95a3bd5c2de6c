use vela_sim::artifact::{
    artifact_dir, run_reports, FailureArtifact, FaultTexts, HistoryStats, RunSummary,
    DEFAULT_ARTIFACT_DIR,
};
use vela_sim::checker::PropertyId;
use vela_sim::history::{History, OpArgs, OpResponse};
use vela_sim::model::{NodeId, PartitionIndex};
use vela_sim::runtime::Outcome;
use vela_sim::scenario::ScenarioParameters;
use vela_sim::scheduler::VirtualInstant;

fn t(nanos: u64) -> VirtualInstant {
    VirtualInstant::from_nanos(nanos)
}

fn produce_args(topic: &str, partition: u32, value: &[u8]) -> OpArgs {
    OpArgs::Produce {
        topic: topic.to_string(),
        partition: PartitionIndex(partition),
        key: None,
        value: value.to_vec(),
    }
}

fn sample_history() -> History {
    let mut history = History::new();
    history.record_produce_success(produce_args("orders", 1, b"hello"), t(10), t(20), 0);
    history.record_failure(
        produce_args("orders", 1, b"again"),
        t(30),
        t(40),
        OpResponse::NoLeader,
    );
    history
}

fn failing_outcome() -> Outcome {
    Outcome::Failed {
        property: PropertyId::ElectionSafety,
        at: t(1_234_567),
        detail: "group=orders/0 term=4 has two leaders: node-0 and node-2".to_string(),
    }
}

#[test]
fn failing_outcome_yields_artifact_with_property_instant_seed_params_and_detail() {
    let seed = 0xABCD_1234_5678_9ABC;
    let params = ScenarioParameters::default();
    let history = sample_history();
    let outcome = failing_outcome();

    let artifact = FailureArtifact::from_outcome(seed, params, &outcome, &history)
        .expect("a failing outcome must yield a FailureArtifact");

    assert_eq!(artifact.seed, seed);
    assert_eq!(artifact.params, params);
    assert_eq!(artifact.property, PropertyId::ElectionSafety);
    assert_eq!(artifact.detected_at, t(1_234_567));
    assert!(
        !artifact.detail.is_empty(),
        "the artifact must carry a non-empty structured diagnostic"
    );
    assert_eq!(artifact.history, history);

    let rendered = artifact.render(&texts());
    assert!(rendered.contains("Election Safety"));
    assert!(rendered.contains("1234567"));
    assert!(rendered.contains(&format!("0x{seed:016x}")));
    assert!(rendered.contains("two leaders"));
    assert!(rendered.contains("SimRuntime::run"));
}

#[test]
fn passing_and_invalid_outcomes_have_no_artifact() {
    let params = ScenarioParameters::default();
    let history = History::new();
    assert!(
        FailureArtifact::from_outcome(1, params, &Outcome::Passed, &history).is_none(),
        "a passing run has no failure artifact"
    );
    let invalid = Outcome::Invalid {
        detail: "replication factor 4 exceeds node count 3".to_string(),
    };
    assert!(
        FailureArtifact::from_outcome(1, params, &invalid, &history).is_none(),
        "an invalid run has no failure artifact"
    );
}

#[test]
fn run_summary_is_produced_for_a_passing_outcome() {
    let seed = 7;
    let params = ScenarioParameters::default();
    let history = sample_history();

    let summary = RunSummary::from_outcome(seed, params, &Outcome::Passed, &history);

    assert_eq!(summary.seed, seed);
    assert_eq!(summary.outcome, "PASSED");
    assert_eq!(summary.property, None);
    assert_eq!(summary.detected_at, None);
    assert_eq!(summary.history.total_ops, 2);
    assert_eq!(summary.history.produce_ok, 1);
    assert_eq!(summary.history.no_leader, 1);

    let rendered = summary.render(&texts());
    assert!(rendered.contains("outcome  = PASSED"));
    assert!(rendered.contains("total_ops              = 2"));
    assert!(!rendered.contains("property ="));
}

#[test]
fn run_summary_for_a_failing_outcome_records_property_and_instant() {
    let summary = RunSummary::from_outcome(
        3,
        ScenarioParameters::default(),
        &failing_outcome(),
        &sample_history(),
    );

    assert_eq!(summary.outcome, "FAILED");
    assert_eq!(summary.property, Some(PropertyId::ElectionSafety));
    assert_eq!(summary.detected_at, Some(t(1_234_567)));

    let rendered = summary.render(&texts());
    assert!(rendered.contains("outcome  = FAILED"));
    assert!(rendered.contains("property = Election Safety"));
    assert!(rendered.contains("detected_at_nanos = 1234567"));
}

#[test]
fn history_stats_tally_every_response_kind() {
    let mut history = History::new();
    history.record_produce_success(produce_args("t", 0, b"v"), t(1), t(2), 0);
    history.record_consume_success(
        OpArgs::Consume {
            topic: "t".to_string(),
            partition: PartitionIndex(0),
            start_offset: 0,
            max_records: 1,
        },
        t(3),
        t(4),
        Vec::new(),
    );
    history.record_redirect(
        produce_args("t", 0, b"v"),
        t(5),
        t(6),
        NodeId("node-1".to_string()),
    );
    history.record_failure(produce_args("t", 0, b"v"), t(7), t(8), OpResponse::NoLeader);
    history.record_failure(
        produce_args("t", 0, b"v"),
        t(9),
        t(10),
        OpResponse::IoError {
            message: "disk".to_string(),
        },
    );

    let stats = HistoryStats::from_history(&history);
    assert_eq!(stats.total_ops, 5);
    assert_eq!(stats.produce_ok, 1);
    assert_eq!(stats.consume_ok, 1);
    assert_eq!(stats.redirects, 1);
    assert_eq!(stats.no_leader, 1);
    assert_eq!(stats.io_errors, 1);

    let sum = stats.produce_ok
        + stats.consume_ok
        + stats.create_topic_ok
        + stats.delete_topic_ok
        + stats.redirects
        + stats.unresolved_redirections
        + stats.no_leader
        + stats.io_errors
        + stats.other_errors;
    assert_eq!(sum, stats.total_ops, "every op falls in exactly one bucket");
}


fn texts() -> FaultTexts {
    FaultTexts {
        reorder_prob: "0".to_string(),
        drop_prob: "0".to_string(),
        duplicate_prob: "0".to_string(),
        partition_prob: "0".to_string(),
        crash_prob: "0.4".to_string(),
        max_skew_rate: "0".to_string(),
        torn_write_prob: "0".to_string(),
        io_error_prob: "0".to_string(),
    }
}

/// A blank override counts as none; any other is taken as it is.
#[test]
fn a_blank_directory_is_no_override() {
    assert_eq!(artifact_dir(None), DEFAULT_ARTIFACT_DIR);
    assert_eq!(artifact_dir(Some("  \t\n".to_string())), DEFAULT_ARTIFACT_DIR);
    assert_eq!(artifact_dir(Some(" /tmp/custom ".to_string())), " /tmp/custom ");
}

#[test]
fn reports_are_named_after_the_seed() {
    let params = ScenarioParameters::default();
    let history = sample_history();
    let (summary, failure) = run_reports(0xAB, params, &texts(), &failing_outcome(), &history);
    assert_eq!(summary.name, "dst-run-00000000000000ab.summary.txt");
    let failure = failure.expect("a failed run leaves a report");
    assert_eq!(failure.name, "dst-failure-00000000000000ab.txt");
    assert!(failure.text.contains("Election Safety"));
    let (_, none) = run_reports(0xAB, params, &texts(), &Outcome::Passed, &history);
    assert!(none.is_none());
}

/// The recorded operations are listed one by one.
#[test]
fn recorded_operations_are_listed() {
    let artifact = FailureArtifact::from_outcome(
        1,
        ScenarioParameters::default(),
        &failing_outcome(),
        &sample_history(),
    )
    .expect("a failed run has an artifact");
    let rendered = artifact.render(&texts());
    assert!(rendered.contains("  [1] t[30..40] produce topic=orders p=1 key_len=0 value_len=5 -> "));
}

#[test]
fn printed_chances_appear_in_the_parameters() {
    let summary = RunSummary::from_outcome(
        3,
        ScenarioParameters::default(),
        &Outcome::Passed,
        &sample_history(),
    );
    assert!(summary.render(&texts()).contains("0.4"));
}

/// The history follows the parameters with no line between.
#[test]
fn the_history_follows_the_parameters() {
    let params = ScenarioParameters::default();
    let history = sample_history();
    let summary = RunSummary::from_outcome(3, params, &Outcome::Passed, &history);
    assert!(summary
        .render(&texts())
        .contains("  faults.io_error_prob   = 0\n## history\n  total_ops              = 2\n"));
    let artifact = FailureArtifact::from_outcome(3, params, &failing_outcome(), &history)
        .expect("a failed run has an artifact");
    assert!(artifact
        .render(&texts())
        .contains("  faults.io_error_prob   = 0\n## history (2 ops)\n  total_ops              = 2\n"));
}

/// A copy of a report equals it.
#[test]
fn reports_are_copied_whole() {
    let params = ScenarioParameters::default();
    let history = sample_history();
    let summary = RunSummary::from_outcome(3, params, &failing_outcome(), &history);
    assert_eq!(summary.clone(), summary);
    assert_ne!(
        summary,
        RunSummary::from_outcome(3, params, &Outcome::Passed, &history),
    );
    let artifact = FailureArtifact::from_outcome(3, params, &failing_outcome(), &history)
        .expect("a failed run has an artifact");
    assert_eq!(artifact.clone(), artifact);
    let other = FailureArtifact::from_outcome(4, params, &failing_outcome(), &history)
        .expect("a failed run has an artifact");
    assert_ne!(artifact, other);
}
