use vela_sim::model::{GroupKey, NodeId, PartitionIndex};
use vela_sim::rng::{Probability, SeedStreams};
use vela_sim::scenario::FaultIntensities;
use vela_sim::storage::{data_dir_for, manifest_path_for, StorageFaultPlan, MAX_TORN_BYTES};

/// The chance `p`, as the count of draws that fire.
fn chance(p: f64) -> Probability {
    Probability { ticks: (p * 9_007_199_254_740_992.0).ceil() as u64 }
}

fn group(topic: &str, partition: u32) -> GroupKey {
    (topic.to_string(), PartitionIndex(partition))
}

#[test]
fn data_dir_is_deterministic_per_node_and_group() {
    let node = NodeId::new("node-a");
    let g = group("orders", 2);
    assert_eq!(data_dir_for(&node, &g), data_dir_for(&node, &g));
    assert_eq!(
        data_dir_for(&node, &g),
        "/sim/node-a/orders/2"
    );
    assert_ne!(
        data_dir_for(&node, &g),
        data_dir_for(&node, &group("orders", 3))
    );
    assert_ne!(
        data_dir_for(&node, &g),
        data_dir_for(&NodeId::new("node-b"), &g)
    );
}

fn storage_faults(torn: f64, io: f64) -> FaultIntensities {
    FaultIntensities {
        torn_write_prob: chance(torn),
        io_error_prob: chance(io),
        ..FaultIntensities::default()
    }
}

#[test]
fn seed_derived_selection_is_reproducible_for_a_seed() {
    let faults = storage_faults(0.5, 0.5);

    let plan_a = {
        let mut rng = SeedStreams::new(0xABCD_1234).storage;
        StorageFaultPlan::draw(&mut rng, &faults)
    };
    let plan_b = {
        let mut rng = SeedStreams::new(0xABCD_1234).storage;
        StorageFaultPlan::draw(&mut rng, &faults)
    };

    assert_eq!(plan_a, plan_b);
}

#[test]
fn healthy_intensities_arm_no_faults_and_draw_no_randomness() {
    let faults = FaultIntensities::default();

    let mut rng = SeedStreams::new(7).storage;
    let mut witness = SeedStreams::new(7).storage;

    let plan = StorageFaultPlan::draw(&mut rng, &faults);

    assert!(plan.is_empty());
    assert_eq!(
        rng.next_u64(),
        witness.next_u64(),
        "no randomness must be drawn when both storage intensities are zero"
    );
}

#[test]
fn certain_intensities_arm_both_fault_classes() {
    let faults = storage_faults(1.0, 1.0);

    let mut rng = SeedStreams::new(99).storage;
    let plan = StorageFaultPlan::draw(&mut rng, &faults);

    let bytes = plan.torn_tail.expect("torn-tail armed at probability 1.0");
    assert!(
        (1..=MAX_TORN_BYTES).contains(&bytes),
        "torn-tail byte count {bytes} must be in 1..={MAX_TORN_BYTES}"
    );
    assert!(
        plan.io_fault.is_some(),
        "an I/O error must be armed at probability 1.0"
    );
}


/// A topic that starts with a slash is a path of its own.
#[test]
fn an_absolute_topic_replaces_the_path_before_it() {
    let node = NodeId::new("node-a");
    assert_eq!(data_dir_for(&node, &group("/elsewhere", 1)), "/elsewhere/1");
}

#[test]
fn the_manifest_lies_in_the_data_directory() {
    let node = NodeId::new("node-a");
    assert_eq!(
        manifest_path_for(&node, &group("orders", 2)),
        "/sim/node-a/orders/2/wal.manifest"
    );
}
