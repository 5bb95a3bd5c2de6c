//! The input space that runs are generated from: its bounds, and how generated values
//! make up a run's configuration.
//!
//! A replication factor is generated within the node count already generated, so every
//! configuration is consistent, and none is turned down.

use crate::rng::Probability;
use crate::scenario::{Budget, FaultIntensities, RunConfig, ScenarioParameters};
use vstd::prelude::*;

verus! {

/// The fewest nodes whose groups survive the loss of one.
pub const MIN_NODE_COUNT: usize = 3;

pub const MAX_NODE_COUNT: usize = 5;

pub const MIN_REPLICATION_FACTOR: usize = 1;

pub const MIN_PARTITION_COUNT: u32 = 1;

pub const MAX_PARTITION_COUNT: u32 = 3;

pub const MIN_WORKLOAD_SIZE: usize = 5;

pub const MAX_WORKLOAD_SIZE: usize = 25;

pub const MIN_BASE_LATENCY_NANOS: u64 = 250_000;

pub const MAX_BASE_LATENCY_NANOS: u64 = 2_000_000;

pub const MIN_REORDER_NANOS: u64 = 1_000_000;

pub const MAX_REORDER_NANOS: u64 = 5_000_000;

pub const MIN_EVENTS: u64 = 4_000;

pub const MAX_EVENTS: u64 = 12_000;

pub const MIN_VIRTUAL_NANOS: u64 = 6_000_000_000;

pub const MAX_VIRTUAL_NANOS: u64 = 12_000_000_000;

/// The chances that are generated for a run.
#[derive(Clone, Copy, Debug)]
pub struct Chances {
    pub crash: Probability,
    pub partition: Probability,
    pub drop: Probability,
    pub duplicate: Probability,
    pub reorder: Probability,
}

/// The fault intensities made up of generated values: no clock skew, and no storage
/// faults.
pub fn fault_intensities(
    base_latency_nanos: u64,
    chances: Chances,
    max_reorder_nanos: u64,
) -> (r: FaultIntensities)
    ensures
        r == (FaultIntensities {
            base_latency_nanos,
            crash_prob: chances.crash,
            partition_prob: chances.partition,
            drop_prob: chances.drop,
            duplicate_prob: chances.duplicate,
            reorder_prob: chances.reorder,
            max_reorder_nanos,
            ..FaultIntensities::none()
        }),
{
    let none = FaultIntensities::default();
    FaultIntensities {
        base_latency_nanos,
        crash_prob: chances.crash,
        partition_prob: chances.partition,
        drop_prob: chances.drop,
        duplicate_prob: chances.duplicate,
        reorder_prob: chances.reorder,
        max_reorder_nanos,
        max_clock_skew_nanos: none.max_clock_skew_nanos,
        max_clock_skew_rate_bits: none.max_clock_skew_rate_bits,
        torn_write_prob: none.torn_write_prob,
        io_error_prob: none.io_error_prob,
    }
}

/// The budget made up of generated values.
pub fn budget(max_events: u64, max_virtual_nanos: u64) -> (r: Budget)
    ensures
        r == (Budget { max_events, max_virtual_nanos }),
{
    Budget { max_events, max_virtual_nanos }
}

/// The parameters made up of generated values.
pub fn scenario_params(
    node_count: usize,
    replication_factor: usize,
    partition_count: u32,
    workload_size: usize,
    faults: FaultIntensities,
    budget: Budget,
) -> (r: ScenarioParameters)
    ensures
        r == (ScenarioParameters {
            node_count,
            replication_factor,
            partition_count,
            faults,
            workload_size,
            budget,
        }),
{
    ScenarioParameters {
        node_count,
        replication_factor,
        partition_count,
        faults,
        workload_size,
        budget,
    }
}

/// The configuration of a run with `seed` and `params`.
pub fn run_config(seed: u64, params: ScenarioParameters) -> (r: RunConfig)
    ensures
        r == (RunConfig { seed, params }),
{
    RunConfig { seed, params }
}

/// Whether parameters lie in the generated input space.
pub open spec fn generated(params: ScenarioParameters) -> bool {
    &&& MIN_NODE_COUNT <= params.node_count <= MAX_NODE_COUNT
    &&& MIN_REPLICATION_FACTOR <= params.replication_factor <= params.node_count
    &&& MIN_PARTITION_COUNT <= params.partition_count <= MAX_PARTITION_COUNT
    &&& MIN_WORKLOAD_SIZE <= params.workload_size <= MAX_WORKLOAD_SIZE
    &&& MIN_BASE_LATENCY_NANOS <= params.faults.base_latency_nanos <= MAX_BASE_LATENCY_NANOS
    &&& MIN_REORDER_NANOS <= params.faults.max_reorder_nanos <= MAX_REORDER_NANOS
    &&& MIN_EVENTS <= params.budget.max_events <= MAX_EVENTS
    &&& MIN_VIRTUAL_NANOS <= params.budget.max_virtual_nanos <= MAX_VIRTUAL_NANOS
}

/// Every generated parameter set is consistent, so a generated run is never invalid.
pub proof fn law_generated_params_are_consistent(params: ScenarioParameters)
    requires
        generated(params),
    ensures
        params.consistent(),
{
}

/// What is generated: three nodes to five, a replica to as many, a partition to three, and
/// five operations to twenty-five; with latencies of a quarter of a millisecond to two and
/// reorder delays of one to five, over 4,000 events to 12,000 and six seconds to twelve.
pub proof fn law_what_is_generated(params: ScenarioParameters)
    ensures
        generated(params) <==> {
            &&& 3 <= params.node_count <= 5
            &&& 1 <= params.replication_factor <= params.node_count
            &&& 1 <= params.partition_count <= 3
            &&& 5 <= params.workload_size <= 25
            &&& 250_000 <= params.faults.base_latency_nanos <= 2_000_000
            &&& 1_000_000 <= params.faults.max_reorder_nanos <= 5_000_000
            &&& 4_000 <= params.budget.max_events <= 12_000
            &&& 6_000_000_000 <= params.budget.max_virtual_nanos <= 12_000_000_000
        },
{
}

} // verus!
