use vela_sim::rng::Probability;
use vela_sim::scenario::{
    Budget, FaultIntensities, RunConfig, ScenarioError, ScenarioParameters,
    DEFAULT_BASE_LATENCY_NANOS, DEFAULT_MAX_EVENTS, DEFAULT_MAX_REORDER_NANOS,
    DEFAULT_MAX_VIRTUAL_NANOS, DEFAULT_NODE_COUNT, DEFAULT_PARTITION_COUNT,
    DEFAULT_REPLICATION_FACTOR, DEFAULT_WORKLOAD_SIZE,
};

/// The probability that a count of ticks stands for.
fn as_f64(p: Probability) -> f64 {
    p.ticks as f64 / 9_007_199_254_740_992.0
}

#[test]
fn fault_intensities_default_is_healthy_cluster() {
    let faults = FaultIntensities::default();
    assert_eq!(faults.base_latency_nanos, DEFAULT_BASE_LATENCY_NANOS);
    assert_eq!(faults.base_latency_nanos, 1_000_000);
    assert_eq!(faults.max_reorder_nanos, DEFAULT_MAX_REORDER_NANOS);
    assert_eq!(faults.max_reorder_nanos, 5_000_000);
    assert_eq!(as_f64(faults.reorder_prob), 0.0);
    assert_eq!(as_f64(faults.drop_prob), 0.0);
    assert_eq!(as_f64(faults.duplicate_prob), 0.0);
    assert_eq!(as_f64(faults.partition_prob), 0.0);
    assert_eq!(as_f64(faults.crash_prob), 0.0);
    assert_eq!(faults.max_clock_skew_nanos, 0);
    assert_eq!(f64::from_bits(faults.max_clock_skew_rate_bits), 0.0);
    assert_eq!(as_f64(faults.torn_write_prob), 0.0);
    assert_eq!(as_f64(faults.io_error_prob), 0.0);
}

#[test]
fn budget_default_matches_documented_constants() {
    let budget = Budget::default();
    assert_eq!(budget.max_events, DEFAULT_MAX_EVENTS);
    assert_eq!(budget.max_events, 200_000);
    assert_eq!(budget.max_virtual_nanos, DEFAULT_MAX_VIRTUAL_NANOS);
    assert_eq!(budget.max_virtual_nanos, 60_000_000_000);
}

#[test]
fn scenario_parameters_default_matches_documented_constants() {
    let params = ScenarioParameters::default();
    assert_eq!(params.node_count, DEFAULT_NODE_COUNT);
    assert_eq!(params.node_count, 3);
    assert_eq!(params.replication_factor, DEFAULT_REPLICATION_FACTOR);
    assert_eq!(params.replication_factor, 3);
    assert_eq!(params.partition_count, DEFAULT_PARTITION_COUNT);
    assert_eq!(params.partition_count, 4);
    assert_eq!(params.workload_size, DEFAULT_WORKLOAD_SIZE);
    assert_eq!(params.workload_size, 100);
    assert_eq!(params.faults, FaultIntensities::default());
    assert_eq!(params.budget, Budget::default());
}

#[test]
fn default_replication_factor_equals_default_node_count() {
    assert_eq!(DEFAULT_REPLICATION_FACTOR, DEFAULT_NODE_COUNT);
}

#[test]
fn scenario_parameters_default_is_valid() {
    assert!(ScenarioParameters::default().validate().is_ok());
}

#[test]
fn run_config_default_is_seed_zero_and_default_params() {
    let config = RunConfig::default();
    assert_eq!(config.seed, 0);
    assert_eq!(config.params, ScenarioParameters::default());
}

#[test]
fn all_presets_are_valid_and_meet_minimum_cluster_shape() {
    let presets = ScenarioParameters::all_presets();
    assert!(!presets.is_empty(), "expected at least one preset");
    for (name, params) in &presets {
        assert!(params.validate().is_ok(), "preset `{name}`");
        assert!(params.node_count >= 3, "preset `{name}`");
        assert!(params.replication_factor >= 3, "preset `{name}`");
        assert!(params.replication_factor <= params.node_count, "preset `{name}`");
    }
}

#[test]
fn all_presets_cover_the_required_behaviors() {
    let names: Vec<&str> = ScenarioParameters::all_presets()
        .into_iter()
        .map(|(name, _)| name)
        .collect();
    assert_eq!(
        names,
        vec![
            "leader_failover",
            "log_replication_catch_up",
            "network_partition_heal",
            "crash_durable_restart",
            "concurrent_topic_admin",
        ]
    );
}

#[test]
fn presets_arm_the_fault_their_behavior_targets() {
    let failover = ScenarioParameters::leader_failover();
    assert!(as_f64(failover.faults.crash_prob) > 0.0);
    let catch_up = ScenarioParameters::log_replication_catch_up();
    assert!(as_f64(catch_up.faults.crash_prob) > 0.0);
    assert!(catch_up.workload_size > 0);
    let partition = ScenarioParameters::network_partition_heal();
    assert!(as_f64(partition.faults.partition_prob) > 0.0);
    let crash = ScenarioParameters::crash_durable_restart();
    assert!(as_f64(crash.faults.crash_prob) > 0.0);
    assert_eq!(as_f64(crash.faults.torn_write_prob), 0.0);
    assert_eq!(as_f64(crash.faults.io_error_prob), 0.0);
    let admin = ScenarioParameters::concurrent_topic_admin();
    assert_eq!(admin.faults, FaultIntensities::default());
    assert!(admin.partition_count >= DEFAULT_PARTITION_COUNT);
}

/// How many of the 2^53 evenly spaced draws in [0, 1) lie below `p`.
fn draws_below(p: f64) -> u64 {
    (p * 9_007_199_254_740_992.0).ceil() as u64
}

/// Each preset's chances are those of the doubles they are named after, draw for draw.
#[test]
fn preset_ticks_are_exact() {
    let failover = ScenarioParameters::leader_failover().faults;
    assert_eq!(failover.crash_prob.ticks, draws_below(0.4));
    assert_eq!(failover.drop_prob.ticks, draws_below(0.05));
    let catch_up = ScenarioParameters::log_replication_catch_up().faults;
    assert_eq!(catch_up.crash_prob.ticks, draws_below(0.25));
    let restart = ScenarioParameters::crash_durable_restart().faults;
    assert_eq!(restart.crash_prob.ticks, draws_below(0.35));
}

#[test]
fn each_inconsistency_has_its_error() {
    let base = ScenarioParameters::default();
    let zero = ScenarioParameters { replication_factor: 0, ..base };
    assert_eq!(zero.validate(), Err(ScenarioError::ReplicationFactorZero));
    let high = ScenarioParameters { node_count: 3, replication_factor: 5, ..base };
    assert_eq!(
        high.validate(),
        Err(ScenarioError::ReplicationFactorTooHigh { replication_factor: 5, node_count: 3 })
    );
    let bare = ScenarioParameters { partition_count: 0, ..base };
    assert_eq!(bare.validate(), Err(ScenarioError::PartitionCountZero));
}

#[test]
fn errors_read_as_documented() {
    assert_eq!(
        ScenarioError::ReplicationFactorTooHigh { replication_factor: 5, node_count: 3 }.message(),
        "replication factor 5 exceeds node count 3 (must be in 1..=3)"
    );
    assert_eq!(
        ScenarioError::ReplicationFactorZero.message(),
        "replication factor must be at least 1"
    );
    assert_eq!(
        ScenarioError::PartitionCountZero.message(),
        "partition count must be at least 1"
    );
}
