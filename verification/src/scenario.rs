//! What a run is parameterised by: cluster shape, fault intensities, workload
//! size and budget, with the named presets.

use crate::rng::Probability;
use crate::text;
use vstd::prelude::*;

verus! {

pub const DEFAULT_NODE_COUNT: usize = 3;

pub const DEFAULT_REPLICATION_FACTOR: usize = DEFAULT_NODE_COUNT;

pub const DEFAULT_PARTITION_COUNT: u32 = 4;

pub const DEFAULT_WORKLOAD_SIZE: usize = 100;

pub const DEFAULT_MAX_EVENTS: u64 = 200_000;

pub const DEFAULT_MAX_VIRTUAL_NANOS: u64 = 60_000_000_000;

pub const DEFAULT_BASE_LATENCY_NANOS: u64 = 1_000_000;

pub const DEFAULT_MAX_REORDER_NANOS: u64 = 5_000_000;

/// The ticks of probability 0.4.
pub const TICKS_0_40: u64 = 3_602_879_701_896_397;

/// The ticks of probability 0.35.
pub const TICKS_0_35: u64 = 3_152_519_739_159_347;

/// The ticks of probability 0.25.
pub const TICKS_0_25: u64 = 2_251_799_813_685_248;

/// The ticks of probability 0.05.
pub const TICKS_0_05: u64 = 450_359_962_737_050;

/// How often and how hard each kind of fault strikes.
#[derive(Clone, Copy, Debug, PartialEq, Eq)]
pub struct FaultIntensities {
    /// Delay of every delivered message.
    pub base_latency_nanos: u64,
    /// Chance that a message gets an extra delay.
    pub reorder_prob: Probability,
    /// Bound, exclusive, on that extra delay.
    pub max_reorder_nanos: u64,
    /// Chance that a message is lost.
    pub drop_prob: Probability,
    /// Chance that a message is delivered twice.
    pub duplicate_prob: Probability,
    /// Chance of a network partition; any chance at all schedules one.
    pub partition_prob: Probability,
    /// Chance of a node crash; any chance at all schedules one.
    pub crash_prob: Probability,
    /// Bound on a node clock's constant offset.
    pub max_clock_skew_nanos: u64,
    /// Bound on a node clock's rate deviation, as the bits of a double.
    pub max_clock_skew_rate_bits: u64,
    /// Chance that a restart finds its log's tail torn.
    pub torn_write_prob: Probability,
    /// Chance that one storage operation fails.
    pub io_error_prob: Probability,
}

impl FaultIntensities {
    /// No fault of any kind, over the default latency.
    pub open spec fn none() -> FaultIntensities {
        let never = Probability { ticks: 0 };
        FaultIntensities {
            base_latency_nanos: DEFAULT_BASE_LATENCY_NANOS,
            reorder_prob: never,
            max_reorder_nanos: DEFAULT_MAX_REORDER_NANOS,
            drop_prob: never,
            duplicate_prob: never,
            partition_prob: never,
            crash_prob: never,
            max_clock_skew_nanos: 0,
            max_clock_skew_rate_bits: 0,
            torn_write_prob: never,
            io_error_prob: never,
        }
    }
}

impl Default for FaultIntensities {
    fn default() -> (r: Self)
        ensures
            r == FaultIntensities::none(),
    {
        FaultIntensities {
            base_latency_nanos: DEFAULT_BASE_LATENCY_NANOS,
            reorder_prob: Probability::never(),
            max_reorder_nanos: DEFAULT_MAX_REORDER_NANOS,
            drop_prob: Probability::never(),
            duplicate_prob: Probability::never(),
            partition_prob: Probability::never(),
            crash_prob: Probability::never(),
            max_clock_skew_nanos: 0,
            max_clock_skew_rate_bits: 0,
            torn_write_prob: Probability::never(),
            io_error_prob: Probability::never(),
        }
    }
}

/// How long a run may get.
#[derive(Clone, Copy, Debug, PartialEq, Eq, Structural)]
pub struct Budget {
    pub max_events: u64,
    pub max_virtual_nanos: u64,
}

impl Budget {
    pub open spec fn standard() -> Budget {
        Budget { max_events: DEFAULT_MAX_EVENTS, max_virtual_nanos: DEFAULT_MAX_VIRTUAL_NANOS }
    }
}

impl Default for Budget {
    fn default() -> (r: Self)
        ensures
            r == Budget::standard(),
    {
        Budget { max_events: DEFAULT_MAX_EVENTS, max_virtual_nanos: DEFAULT_MAX_VIRTUAL_NANOS }
    }
}

/// The parameters of a run.
#[derive(Clone, Copy, Debug, PartialEq, Eq)]
pub struct ScenarioParameters {
    pub node_count: usize,
    pub replication_factor: usize,
    pub partition_count: u32,
    pub faults: FaultIntensities,
    pub workload_size: usize,
    pub budget: Budget,
}

impl Default for ScenarioParameters {
    fn default() -> (r: Self)
        ensures
            r == ScenarioParameters::standard(),
    {
        ScenarioParameters {
            node_count: DEFAULT_NODE_COUNT,
            replication_factor: DEFAULT_REPLICATION_FACTOR,
            partition_count: DEFAULT_PARTITION_COUNT,
            faults: FaultIntensities::default(),
            workload_size: DEFAULT_WORKLOAD_SIZE,
            budget: Budget::default(),
        }
    }
}

impl ScenarioParameters {
    /// The default parameters.
    pub open spec fn standard() -> ScenarioParameters {
        ScenarioParameters {
            node_count: DEFAULT_NODE_COUNT,
            replication_factor: DEFAULT_REPLICATION_FACTOR,
            partition_count: DEFAULT_PARTITION_COUNT,
            faults: FaultIntensities::none(),
            workload_size: DEFAULT_WORKLOAD_SIZE,
            budget: Budget::standard(),
        }
    }

    /// Whether a cluster of this shape can be built: every partition has between
    /// one and `node_count` replicas, and there is a partition.
    pub open spec fn consistent(self) -> bool {
        1 <= self.replication_factor <= self.node_count && self.partition_count >= 1
    }

    /// Accept a consistent parameter set, or name the first thing wrong with it.
    pub fn validate(&self) -> (r: Result<(), ScenarioError>)
        ensures
            r is Ok == self.consistent(),
            r matches Err(e) ==> e == (if self.replication_factor == 0 {
                ScenarioError::ReplicationFactorZero
            } else if self.replication_factor > self.node_count {
                ScenarioError::ReplicationFactorTooHigh {
                    replication_factor: self.replication_factor,
                    node_count: self.node_count,
                }
            } else {
                ScenarioError::PartitionCountZero
            }),
    {
        if self.replication_factor == 0 {
            return Err(ScenarioError::ReplicationFactorZero);
        }
        if self.replication_factor > self.node_count {
            return Err(
                ScenarioError::ReplicationFactorTooHigh {
                    replication_factor: self.replication_factor,
                    node_count: self.node_count,
                },
            );
        }
        if self.partition_count < 1 {
            return Err(ScenarioError::PartitionCountZero);
        }
        Ok(())
    }

    pub open spec fn leader_failover_spec() -> ScenarioParameters {
        ScenarioParameters {
            node_count: 5,
            replication_factor: 5,
            partition_count: 3,
            faults: FaultIntensities {
                crash_prob: Probability { ticks: TICKS_0_40 },
                drop_prob: Probability { ticks: TICKS_0_05 },
                ..FaultIntensities::none()
            },
            ..ScenarioParameters::standard()
        }
    }

    /// Crashes and lost messages on five nodes, to force elections.
    pub fn leader_failover() -> (r: Self)
        ensures
            r == ScenarioParameters::leader_failover_spec(),
    {
        ScenarioParameters {
            node_count: 5,
            replication_factor: 5,
            partition_count: 3,
            faults: FaultIntensities {
                crash_prob: Probability { ticks: TICKS_0_40 },
                drop_prob: Probability { ticks: TICKS_0_05 },
                ..FaultIntensities::default()
            },
            ..ScenarioParameters::default()
        }
    }

    pub open spec fn log_replication_catch_up_spec() -> ScenarioParameters {
        ScenarioParameters {
            node_count: 3,
            replication_factor: 3,
            partition_count: 2,
            faults: FaultIntensities {
                crash_prob: Probability { ticks: TICKS_0_25 },
                ..FaultIntensities::none()
            },
            workload_size: 250,
            ..ScenarioParameters::standard()
        }
    }

    /// A crash under a long workload, to leave a follower behind.
    pub fn log_replication_catch_up() -> (r: Self)
        ensures
            r == ScenarioParameters::log_replication_catch_up_spec(),
    {
        ScenarioParameters {
            node_count: 3,
            replication_factor: 3,
            partition_count: 2,
            faults: FaultIntensities {
                crash_prob: Probability { ticks: TICKS_0_25 },
                ..FaultIntensities::default()
            },
            workload_size: 250,
            ..ScenarioParameters::default()
        }
    }

    pub open spec fn network_partition_heal_spec() -> ScenarioParameters {
        ScenarioParameters {
            node_count: 5,
            replication_factor: 5,
            partition_count: 3,
            faults: FaultIntensities {
                partition_prob: Probability { ticks: TICKS_0_40 },
                reorder_prob: Probability { ticks: TICKS_0_05 },
                ..FaultIntensities::none()
            },
            ..ScenarioParameters::standard()
        }
    }

    /// A partition that heals, with reordered messages.
    pub fn network_partition_heal() -> (r: Self)
        ensures
            r == ScenarioParameters::network_partition_heal_spec(),
    {
        ScenarioParameters {
            node_count: 5,
            replication_factor: 5,
            partition_count: 3,
            faults: FaultIntensities {
                partition_prob: Probability { ticks: TICKS_0_40 },
                reorder_prob: Probability { ticks: TICKS_0_05 },
                ..FaultIntensities::default()
            },
            ..ScenarioParameters::default()
        }
    }

    pub open spec fn crash_durable_restart_spec() -> ScenarioParameters {
        ScenarioParameters {
            node_count: 3,
            replication_factor: 3,
            partition_count: 2,
            faults: FaultIntensities {
                crash_prob: Probability { ticks: TICKS_0_35 },
                ..FaultIntensities::none()
            },
            workload_size: 200,
            ..ScenarioParameters::standard()
        }
    }

    /// A crash and a restart from disk.
    pub fn crash_durable_restart() -> (r: Self)
        ensures
            r == ScenarioParameters::crash_durable_restart_spec(),
    {
        ScenarioParameters {
            node_count: 3,
            replication_factor: 3,
            partition_count: 2,
            faults: FaultIntensities {
                crash_prob: Probability { ticks: TICKS_0_35 },
                ..FaultIntensities::default()
            },
            workload_size: 200,
            ..ScenarioParameters::default()
        }
    }

    pub open spec fn concurrent_topic_admin_spec() -> ScenarioParameters {
        ScenarioParameters {
            node_count: 5,
            replication_factor: 5,
            partition_count: 8,
            workload_size: 200,
            ..ScenarioParameters::standard()
        }
    }

    /// Many topic creations and deletions, with no faults.
    pub fn concurrent_topic_admin() -> (r: Self)
        ensures
            r == ScenarioParameters::concurrent_topic_admin_spec(),
    {
        ScenarioParameters {
            node_count: 5,
            replication_factor: 5,
            partition_count: 8,
            workload_size: 200,
            ..ScenarioParameters::default()
        }
    }

    /// The presets in order, without their names.
    pub open spec fn presets() -> Seq<ScenarioParameters> {
        seq![
            ScenarioParameters::leader_failover_spec(),
            ScenarioParameters::log_replication_catch_up_spec(),
            ScenarioParameters::network_partition_heal_spec(),
            ScenarioParameters::crash_durable_restart_spec(),
            ScenarioParameters::concurrent_topic_admin_spec(),
        ]
    }

    /// The presets' names in order.
    pub open spec fn preset_names() -> Seq<Seq<char>> {
        seq![
            "leader_failover"@,
            "log_replication_catch_up"@,
            "network_partition_heal"@,
            "crash_durable_restart"@,
            "concurrent_topic_admin"@,
        ]
    }

    /// Every preset, with its name.
    pub fn all_presets() -> (r: Vec<(&'static str, ScenarioParameters)>)
        ensures
            r@.len() == 5,
            forall|i: int|
                0 <= i < 5 ==> (#[trigger] r@[i]).0@ == ScenarioParameters::preset_names()[i]
                    && r@[i].1 == ScenarioParameters::presets()[i],
    {
        let mut r: Vec<(&'static str, ScenarioParameters)> = Vec::new();
        r.push(("leader_failover", ScenarioParameters::leader_failover()));
        r.push(("log_replication_catch_up", ScenarioParameters::log_replication_catch_up()));
        r.push(("network_partition_heal", ScenarioParameters::network_partition_heal()));
        r.push(("crash_durable_restart", ScenarioParameters::crash_durable_restart()));
        r.push(("concurrent_topic_admin", ScenarioParameters::concurrent_topic_admin()));
        r
    }
}

/// Every preset is consistent.
pub proof fn law_presets_are_consistent(i: int)
    requires
        0 <= i < ScenarioParameters::presets().len(),
    ensures
        ScenarioParameters::presets()[i].consistent(),
        ScenarioParameters::standard().consistent(),
{
}

/// A run's seed and parameters: all that its outcome depends on.
#[derive(Clone, Copy, Debug, PartialEq, Eq)]
pub struct RunConfig {
    pub seed: u64,
    pub params: ScenarioParameters,
}

impl Default for RunConfig {
    fn default() -> (r: Self)
        ensures
            r.seed == 0,
            r.params == ScenarioParameters::standard(),
    {
        RunConfig { seed: 0, params: ScenarioParameters::default() }
    }
}

/// Why a parameter set was refused.
#[derive(Clone, Copy, Debug, PartialEq, Eq, Structural)]
pub enum ScenarioError {
    ReplicationFactorTooHigh { replication_factor: usize, node_count: usize },
    ReplicationFactorZero,
    PartitionCountZero,
}

impl ScenarioError {
    pub open spec fn text(self) -> Seq<char> {
        match self {
            ScenarioError::ReplicationFactorTooHigh { replication_factor, node_count } => {
                "replication factor "@ + text::decimal(replication_factor as nat)
                    + " exceeds node count "@ + text::decimal(node_count as nat)
                    + " (must be in 1..="@ + text::decimal(node_count as nat) + ")"@
            },
            ScenarioError::ReplicationFactorZero => "replication factor must be at least 1"@,
            ScenarioError::PartitionCountZero => "partition count must be at least 1"@,
        }
    }

    /// The error in words.
    pub fn message(&self) -> (r: String)
        ensures
            r@ == self.text(),
    {
        match self {
            ScenarioError::ReplicationFactorTooHigh { replication_factor, node_count } => {
                let mut out = "replication factor ".to_owned();
                text::push_decimal(&mut out, *replication_factor as u64);
                text::push_str(&mut out, " exceeds node count ");
                text::push_decimal(&mut out, *node_count as u64);
                text::push_str(&mut out, " (must be in 1..=");
                text::push_decimal(&mut out, *node_count as u64);
                text::push_str(&mut out, ")");
                out
            },
            ScenarioError::ReplicationFactorZero => {
                "replication factor must be at least 1".to_owned()
            },
            ScenarioError::PartitionCountZero => "partition count must be at least 1".to_owned(),
        }
    }
}

/// Parameters are consistent exactly where there is a partition and each has a replica or
/// more, but no more than there are nodes.
pub proof fn law_consistent_parameters(params: ScenarioParameters)
    ensures
        params.consistent() <==> {
            &&& params.partition_count > 0
            &&& params.replication_factor > 0
            &&& params.replication_factor <= params.node_count
        },
{
}

/// A scenario by default has no faults: nothing is lost, doubled, reordered, cut or torn,
/// nothing crashes or fails, and every clock runs true. Messages take a millisecond.
pub proof fn law_nothing_fails_by_default()
    ensures
        ({
            let f = FaultIntensities::none();
            &&& f.base_latency_nanos == 1_000_000
            &&& f.max_reorder_nanos == 5_000_000
            &&& f.reorder_prob.ticks == 0 && f.drop_prob.ticks == 0 && f.duplicate_prob.ticks == 0
            &&& f.partition_prob.ticks == 0 && f.crash_prob.ticks == 0
            &&& f.torn_write_prob.ticks == 0 && f.io_error_prob.ticks == 0
            &&& f.max_clock_skew_nanos == 0 && f.max_clock_skew_rate_bits == 0
        }),
        ({
            let p = ScenarioParameters::standard();
            &&& p.node_count == 3 && p.replication_factor == 3 && p.partition_count == 4
            &&& p.workload_size == 100
            &&& p.budget.max_events == 200_000
            &&& p.budget.max_virtual_nanos == 60 * 1_000_000_000
            &&& p.faults == FaultIntensities::none()
        }),
{
}

/// Whether a chance of `ticks` in 2^53 is within a tick of `percent` in a hundred.
pub open spec fn is_percent(ticks: u64, percent: int) -> bool {
    -100 < 100 * ticks - percent * 0x20_0000_0000_0000 < 100
}

/// What the presets strike with: a failover with crashes and lost messages, a catch-up and
/// a restart with crashes, a partition with cuts and reordering, and the administration of
/// topics with nothing.
pub proof fn law_presets_strike_where_they_say()
    ensures
        ({
            let p = ScenarioParameters::leader_failover_spec();
            &&& p.node_count == 5 && p.replication_factor == 5 && p.partition_count == 3
            &&& is_percent(p.faults.crash_prob.ticks, 40) && is_percent(p.faults.drop_prob.ticks, 5)
            &&& p.faults.partition_prob.ticks == 0 && p.faults.reorder_prob.ticks == 0
            &&& p.workload_size == 100
        }),
        ({
            let p = ScenarioParameters::log_replication_catch_up_spec();
            &&& p.node_count == 3 && p.replication_factor == 3 && p.partition_count == 2
            &&& is_percent(p.faults.crash_prob.ticks, 25)
            &&& p.faults.partition_prob.ticks == 0 && p.faults.drop_prob.ticks == 0
            &&& p.workload_size == 250
        }),
        ({
            let p = ScenarioParameters::network_partition_heal_spec();
            &&& p.node_count == 5 && p.replication_factor == 5 && p.partition_count == 3
            &&& is_percent(p.faults.partition_prob.ticks, 40)
            &&& is_percent(p.faults.reorder_prob.ticks, 5)
            &&& p.faults.crash_prob.ticks == 0 && p.faults.drop_prob.ticks == 0
        }),
        ({
            let p = ScenarioParameters::crash_durable_restart_spec();
            &&& p.node_count == 3 && p.replication_factor == 3 && p.partition_count == 2
            &&& is_percent(p.faults.crash_prob.ticks, 35)
            &&& p.faults.partition_prob.ticks == 0 && p.faults.drop_prob.ticks == 0
            &&& p.workload_size == 200
        }),
        ({
            let p = ScenarioParameters::concurrent_topic_admin_spec();
            &&& p.node_count == 5 && p.replication_factor == 5 && p.partition_count == 8
            &&& p.faults == FaultIntensities::none()
            &&& p.workload_size == 200
        }),
{
}

} // verus!
