use vela_sim::model::PartitionIndex;
use vela_sim::rng::{SeedStreams, SplitMix64};
use vela_sim::scenario::ScenarioParameters;
use vela_sim::topology::Topology;
use vela_sim::workload::{
    fill_bytes, generate, pick_topic, topic_pool, ClientOperation, ConsumeLimits, PartitionRouter,
    MAX_KEY_LEN, MAX_REDIRECT_HOPS, MAX_VALUE_LEN, MIN_KEY_LEN,
};

const LIMITS: ConsumeLimits = ConsumeLimits { min: 1, max: 10_000 };


fn workload_stream(seed: u64) -> SplitMix64 {
    SeedStreams::new(seed).workload
}

#[test]
fn generates_exactly_workload_size_ops() {
    for &size in &[0usize, 1, 7, 100, 250] {
        let params = ScenarioParameters {
            workload_size: size,
            ..ScenarioParameters::default()
        };
        let mut stream = workload_stream(0xA11CE);
        let workload = generate(&params, LIMITS, &mut stream);
        assert_eq!(workload.len(), size);
        assert_eq!(workload.ops().len(), size);
        assert_eq!(workload.is_empty(), size == 0);
    }
}

#[test]
fn same_seed_reproduces_identical_workload() {
    let params = ScenarioParameters::default();

    let first = generate(&params, LIMITS, &mut workload_stream(0xDEAD_BEEF));
    let second = generate(&params, LIMITS, &mut workload_stream(0xDEAD_BEEF));

    assert_eq!(first, second);
}

#[test]
fn different_seeds_produce_different_workloads() {
    let params = ScenarioParameters::default();

    let a = generate(&params, LIMITS, &mut workload_stream(1));
    let b = generate(&params, LIMITS, &mut workload_stream(2));

    assert_ne!(a, b);
}

#[test]
fn produce_ops_respect_length_bounds() {
    let params = ScenarioParameters {
        workload_size: 500,
        ..ScenarioParameters::default()
    };
    let workload = generate(&params, LIMITS, &mut workload_stream(0x5EED));

    let mut saw_keyed = false;
    let mut saw_keyless = false;
    for op in workload.ops() {
        if let ClientOperation::Produce { key, value, .. } = op {
            assert!(value.len() <= MAX_VALUE_LEN, "value length out of range");
            match key {
                Some(k) => {
                    assert!(
                        (MIN_KEY_LEN..=MAX_KEY_LEN).contains(&k.len()),
                        "key length {} out of range",
                        k.len()
                    );
                    saw_keyed = true;
                }
                None => saw_keyless = true,
            }
        }
    }
    // A 500-op workload exercises both keyed and keyless produces.
    assert!(saw_keyed, "expected at least one keyed produce");
    assert!(saw_keyless, "expected at least one keyless produce");
}

#[test]
fn keyed_produce_matches_partition_router() {
    let params = ScenarioParameters {
        workload_size: 500,
        ..ScenarioParameters::default()
    };
    let partition_count = params.partition_count;
    let workload = generate(&params, LIMITS, &mut workload_stream(0xC0DE));

    let router = PartitionRouter::new();
    let mut checked = 0;
    for op in workload.ops() {
        if let ClientOperation::Produce {
            partition,
            key: Some(key),
            ..
        } = op
        {
            let expected = router.resolve(key, partition_count);
            assert_eq!(*partition, expected, "keyed routing diverged from router");
            checked += 1;
        }
    }
    assert!(checked > 0, "expected at least one keyed produce to check");
}

#[test]
fn all_partitions_are_in_range() {
    let params = ScenarioParameters {
        workload_size: 500,
        partition_count: 7,
        ..ScenarioParameters::default()
    };
    let workload = generate(&params, LIMITS, &mut workload_stream(0xBEEF));

    for op in workload.ops() {
        let PartitionIndex(idx) = match op {
            ClientOperation::Produce { partition, .. } => *partition,
            ClientOperation::Consume { partition, .. } => *partition,
            _ => continue,
        };
        assert!(idx < params.partition_count, "partition {idx} out of range");
    }
}

#[test]
fn consume_ops_have_valid_max_records() {
    let params = ScenarioParameters {
        workload_size: 500,
        ..ScenarioParameters::default()
    };
    let workload = generate(&params, LIMITS, &mut workload_stream(0xF00D));

    let mut checked = 0;
    for op in workload.ops() {
        if let ClientOperation::Consume { max_records, .. } = op {
            assert!(
                (LIMITS.min..=LIMITS.max).contains(max_records),
                "max_records {max_records} out of range"
            );
            checked += 1;
        }
    }
    assert!(checked > 0, "expected at least one consume to check");
}

#[test]
fn create_topic_ops_use_scenario_shape() {
    let params = ScenarioParameters {
        workload_size: 500,
        partition_count: 5,
        ..ScenarioParameters::default()
    };
    let workload = generate(&params, LIMITS, &mut workload_stream(0x1234));

    let pool = topic_pool();
    let mut checked = 0;
    for op in workload.ops() {
        if let ClientOperation::CreateTopic {
            name,
            partition_count,
            replication_factor,
        } = op
        {
            assert_eq!(*partition_count, params.partition_count);
            assert_eq!(*replication_factor, params.replication_factor);
            assert!(pool.contains(name), "created topic outside the pool");
            checked += 1;
        }
    }
    assert!(checked > 0, "expected at least one create-topic to check");
}

#[test]
fn workload_contains_all_op_kinds() {
    let params = ScenarioParameters {
        workload_size: 1000,
        ..ScenarioParameters::default()
    };
    let workload = generate(&params, LIMITS, &mut workload_stream(0xABCD));

    let (mut creates, mut deletes, mut produces, mut consumes) = (0, 0, 0, 0);
    for op in workload.ops() {
        match op {
            ClientOperation::CreateTopic { .. } => creates += 1,
            ClientOperation::DeleteTopic { .. } => deletes += 1,
            ClientOperation::Produce { .. } => produces += 1,
            ClientOperation::Consume { .. } => consumes += 1,
        }
    }
    assert!(creates > 0, "no create-topic ops generated");
    assert!(deletes > 0, "no delete-topic ops generated");
    assert!(produces > 0, "no produce ops generated");
    assert!(consumes > 0, "no consume ops generated");
}

#[test]
fn op_accessor_indexes_by_seq() {
    let params = ScenarioParameters {
        workload_size: 10,
        ..ScenarioParameters::default()
    };
    let workload = generate(&params, LIMITS, &mut workload_stream(0x42));

    for (i, op) in workload.ops().iter().enumerate() {
        assert_eq!(workload.op(i as u64), Some(op));
    }
    assert_eq!(workload.op(workload.len() as u64), None);
}

#[test]
fn max_redirect_hops_is_five() {
    assert_eq!(MAX_REDIRECT_HOPS, 5);
}

#[test]
fn shape_bounds_match_requirement() {
    assert_eq!(MAX_VALUE_LEN, 65_536);
    assert_eq!(MIN_KEY_LEN, 1);
    assert_eq!(MAX_KEY_LEN, 256);
}

#[test]
fn fill_bytes_is_exact_and_deterministic() {
    for &len in &[0usize, 1, 7, 8, 9, 64, 65_536] {
        let a = fill_bytes(&mut workload_stream(7), len);
        let b = fill_bytes(&mut workload_stream(7), len);
        assert_eq!(a.len(), len);
        assert_eq!(a, b);
    }
}

/// Bytes are the words of the stream, lowest byte first.
#[test]
fn bytes_are_the_words_little_endian() {
    let mut words = workload_stream(11);
    let mut expected = Vec::new();
    expected.extend_from_slice(&words.next_u64().to_le_bytes());
    expected.extend_from_slice(&words.next_u64().to_le_bytes()[..5]);
    let mut stream = workload_stream(11);
    assert_eq!(fill_bytes(&mut stream, 13), expected);
    assert_eq!(stream.state, words.state);
}

/// The 64-bit hash of a key, modulo the partition count.
#[test]
fn router_hashes_keys() {
    let router = PartitionRouter::new();
    assert_eq!(router.resolve(b"", 1_000_000_007).0 as u64, 0xCBF2_9CE4_8422_2325 % 1_000_000_007);
    assert_eq!(router.resolve(b"a", 1_000_000_007).0 as u64, 0xAF63_DC4C_8601_EC8C % 1_000_000_007);
    assert_eq!(
        router.resolve(b"foobar", 1_000_000_007).0 as u64,
        0x8594_4171_F739_67E8 % 1_000_000_007
    );
}

#[test]
fn topics_are_named_and_drawn_from_the_pool() {
    let pool = topic_pool();
    assert_eq!(pool, vec!["dst-topic-0", "dst-topic-1", "dst-topic-2", "dst-topic-3"]);
    let mut words = workload_stream(3);
    let mut stream = workload_stream(3);
    for _ in 0..20 {
        let expected = &pool[(words.next_u64() % 4) as usize];
        assert_eq!(&pick_topic(&mut stream, &pool), expected);
    }
}

/// A copy of a workload holds the same operations.
#[test]
fn workloads_are_copied_whole() {
    let params = ScenarioParameters { workload_size: 20, ..ScenarioParameters::default() };
    let workload = generate(&params, LIMITS, &mut workload_stream(9));
    assert_eq!(workload.clone().ops(), workload.ops());
    let topology = Topology::from_params(&params);
    assert_eq!(topology.clone().nodes(), topology.nodes());
    assert_eq!(
        topology.clone().replica_set_for(PartitionIndex(0)),
        topology.replica_set_for(PartitionIndex(0)),
    );
}
