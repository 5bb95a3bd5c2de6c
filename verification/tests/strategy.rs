use vela_sim::rng::Probability;
use vela_sim::scenario::FaultIntensities;
use vela_sim::strategy::{
    budget, fault_intensities, run_config, scenario_params, Chances, MAX_NODE_COUNT,
    MIN_NODE_COUNT, MIN_REPLICATION_FACTOR,
};

/// Every shape in the input space is valid.
#[test]
fn generated_scenario_params_are_always_valid() {
    let even = Probability { ticks: 1 };
    let chances = Chances {
        crash: even,
        partition: even,
        drop: Probability::never(),
        duplicate: Probability::never(),
        reorder: Probability::never(),
    };
    let faults = fault_intensities(300_000, chances, 2_000_000);
    assert_eq!(faults.base_latency_nanos, 300_000);
    assert_eq!(faults.max_reorder_nanos, 2_000_000);
    assert_eq!(faults.crash_prob, even);
    assert_eq!(faults.io_error_prob, FaultIntensities::default().io_error_prob);
    for nodes in MIN_NODE_COUNT..=MAX_NODE_COUNT {
        for replication in MIN_REPLICATION_FACTOR..=nodes {
            let params = scenario_params(nodes, replication, 1, 5, faults, budget(4_000, 1));
            assert!(params.validate().is_ok());
            assert!(params.replication_factor >= 1);
            assert!(params.replication_factor <= params.node_count);
            assert!(params.partition_count >= 1);
        }
    }
}

#[test]
fn generated_run_config_carries_valid_params() {
    let params = scenario_params(3, 2, 1, 5, FaultIntensities::default(), budget(4_000, 1));
    let config = run_config(9, params);
    assert_eq!(config.seed, 9);
    assert!(config.params.validate().is_ok());
}
