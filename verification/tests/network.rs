use vela_sim::keyed::KeyedMap;
use vela_sim::model::{GroupKey, NodeId, PartitionIndex, RaftNodeId};
use vela_sim::network::SimNetwork;
use vela_sim::rng::{Probability, SeedStreams};
use vela_sim::scenario::FaultIntensities;
use vela_sim::scheduler::{HealId, VirtualInstant};

/// The chance `p`, as the count of draws that fire.
fn chance(p: f64) -> Probability {
    Probability { ticks: (p * 9_007_199_254_740_992.0).ceil() as u64 }
}

fn node(name: &str) -> NodeId {
    NodeId::new(name)
}

fn group() -> GroupKey {
    ("orders".to_string(), PartitionIndex(0))
}

#[derive(Clone, Debug, PartialEq)]
struct Vote {
    term: u64,
}

fn msg(term: u64) -> Vote {
    Vote { term }
}

fn peers() -> KeyedMap<RaftNodeId, NodeId> {
    let mut map = KeyedMap::new();
    map.insert(RaftNodeId(1), node("node-b"));
    map.insert(RaftNodeId(2), node("node-c"));
    map
}

fn net_with(faults: FaultIntensities, seed: u64) -> SimNetwork<Vote> {
    SimNetwork::new(&faults, SeedStreams::new(seed).network)
}

fn healthy() -> FaultIntensities {
    FaultIntensities::default()
}

#[test]
fn base_latency_is_added_to_every_message() {
    let faults = healthy();
    let mut net = net_with(faults, 1);
    let tx = net.transport(node("node-a"), group(), peers());

    net.set_now(VirtualInstant::from_nanos(1_000));
    tx.send(&mut net, RaftNodeId(1), msg(7));

    let pending = net.drain_pending();
    assert_eq!(
        pending.len(),
        1,
        "exactly one copy with no fault but latency"
    );
    let (at, env) = &pending[0];
    assert_eq!(
        *at,
        VirtualInstant::from_nanos(1_000 + faults.base_latency_nanos),
        "delivery instant must be now + base latency"
    );
    assert_eq!(env.from, node("node-a"));
    assert_eq!(env.to, node("node-b"));
    assert_eq!(env.to_raft, RaftNodeId(1));
    assert_eq!(env.group, group());
    assert_eq!(env.msg, msg(7));
    assert_eq!(net.delivered(), 1);
    assert_eq!(net.dropped(), 0);
    assert_eq!(net.duplicated(), 0);
}

#[test]
fn transport_stamps_sender_group_and_resolves_destination() {
    let mut net = net_with(healthy(), 2);
    let tx = net.transport(node("node-a"), group(), peers());

    net.set_now(VirtualInstant::origin());
    tx.send(&mut net, RaftNodeId(2), msg(3));

    let pending = net.drain_pending();
    let (_, env) = &pending[0];
    assert_eq!(env.from, node("node-a"), "stamped with the handle's sender");
    assert_eq!(env.group, group(), "stamped with the handle's group");
    assert_eq!(env.to, node("node-c"), "raft id 2 resolves to node-c");
    assert_eq!(env.to_raft, RaftNodeId(2));
}

#[test]
fn unknown_destination_is_not_delivered() {
    let mut net = net_with(healthy(), 3);
    let tx = net.transport(node("node-a"), group(), peers());

    net.set_now(VirtualInstant::origin());
    tx.send(&mut net, RaftNodeId(999), msg(1));

    assert_eq!(net.pending_len(), 0);
    assert_eq!(net.delivered(), 0);
    assert!(net.drain_pending().is_empty());
}

#[test]
fn certain_drop_never_delivers() {
    let faults = FaultIntensities {
        drop_prob: Probability::always(),
        ..healthy()
    };
    let mut net = net_with(faults, 4);
    let tx = net.transport(node("node-a"), group(), peers());

    net.set_now(VirtualInstant::origin());
    for _ in 0..16 {
        tx.send(&mut net, RaftNodeId(1), msg(1));
    }

    assert_eq!(net.pending_len(), 0, "no message survives a 1.0 drop prob");
    assert_eq!(net.dropped(), 16);
    assert_eq!(net.delivered(), 0);
}

#[test]
fn zero_drop_delivers_everything() {
    let mut net = net_with(healthy(), 5);
    let tx = net.transport(node("node-a"), group(), peers());

    net.set_now(VirtualInstant::origin());
    for _ in 0..16 {
        tx.send(&mut net, RaftNodeId(1), msg(1));
    }

    assert_eq!(net.pending_len(), 16);
    assert_eq!(net.dropped(), 0);
    assert_eq!(net.delivered(), 16);
}

#[test]
fn certain_duplication_delivers_two_copies() {
    let faults = FaultIntensities {
        duplicate_prob: Probability::always(),
        ..healthy()
    };
    let mut net = net_with(faults, 6);
    let tx = net.transport(node("node-a"), group(), peers());

    net.set_now(VirtualInstant::origin());
    tx.send(&mut net, RaftNodeId(1), msg(2));

    let pending = net.drain_pending();
    assert_eq!(pending.len(), 2, "original plus one duplicate");
    assert!(pending.iter().all(|(_, e)| e.msg == msg(2)));
    assert_eq!(net.duplicated(), 1);
    assert_eq!(net.delivered(), 2);
}

#[test]
fn zero_duplication_delivers_one_copy() {
    let mut net = net_with(healthy(), 7);
    let tx = net.transport(node("node-a"), group(), peers());

    net.set_now(VirtualInstant::origin());
    tx.send(&mut net, RaftNodeId(1), msg(2));

    assert_eq!(net.pending_len(), 1);
    assert_eq!(net.duplicated(), 0);
    assert_eq!(net.delivered(), 1);
}

#[test]
fn reorder_delay_is_bounded_and_can_perturb_order() {
    let faults = FaultIntensities {
        reorder_prob: Probability::always(),
        max_reorder_nanos: 5_000,
        ..healthy()
    };
    let base = faults.base_latency_nanos;
    let mut net = net_with(faults, 8);
    let tx = net.transport(node("node-a"), group(), peers());

    net.set_now(VirtualInstant::origin());
    let count = 64;
    for _ in 0..count {
        tx.send(&mut net, RaftNodeId(1), msg(1));
    }

    let pending = net.drain_pending();
    assert_eq!(pending.len() as u64, count);

    let mut saw_extra = false;
    for (at, _) in &pending {
        let nanos = at.as_nanos();
        assert!(nanos >= base, "below base latency: {nanos}");
        assert!(
            nanos < base + 5_000,
            "extra reorder delay exceeded the bound: {nanos}"
        );
        if nanos > base {
            saw_extra = true;
        }
    }
    assert!(
        saw_extra,
        "with reorder_prob 1.0 some message should receive a non-zero extra delay"
    );

    let instants: Vec<u64> = pending.iter().map(|(at, _)| at.as_nanos()).collect();
    let first = instants[0];
    assert!(
        instants.iter().any(|&n| n != first),
        "reorder should produce differing delivery instants"
    );
}

#[test]
fn fault_decisions_are_deterministic_for_a_seed() {
    let faults = FaultIntensities {
        drop_prob: chance(0.3),
        duplicate_prob: chance(0.3),
        reorder_prob: chance(0.5),
        max_reorder_nanos: 4_000,
        ..healthy()
    };

    let trace = |seed: u64| -> Vec<(u64, u64)> {
        let mut net = net_with(faults, seed);
        let tx = net.transport(node("node-a"), group(), peers());
        net.set_now(VirtualInstant::from_nanos(10));
        for term in 0..64 {
            tx.send(&mut net, RaftNodeId(1), msg(term));
        }
        net.drain_pending()
            .into_iter()
            .map(|(at, env)| (at.as_nanos(), env.msg.term))
            .collect()
    };

    let a = trace(0xABCD);
    let b = trace(0xABCD);
    assert_eq!(a, b, "same seed must reproduce identical fault decisions");

    let c = trace(0x1234);
    assert_ne!(
        a, c,
        "a different seed should produce different fault decisions"
    );
}

#[test]
fn delivery_instant_tracks_set_now() {
    let faults = healthy();
    let base = faults.base_latency_nanos;
    let mut net = net_with(faults, 9);
    let tx = net.transport(node("node-a"), group(), peers());

    net.set_now(VirtualInstant::from_nanos(100));
    tx.send(&mut net, RaftNodeId(1), msg(1));
    net.set_now(VirtualInstant::from_nanos(500));
    tx.send(&mut net, RaftNodeId(1), msg(2));

    let pending = net.drain_pending();
    assert_eq!(pending[0].0, VirtualInstant::from_nanos(100 + base));
    assert_eq!(pending[1].0, VirtualInstant::from_nanos(500 + base));
}

fn peers_to(target: &str) -> KeyedMap<RaftNodeId, NodeId> {
    let mut map = KeyedMap::new();
    map.insert(RaftNodeId(1), node(target));
    map
}

#[test]
fn directed_cut_blocks_one_direction_only() {
    let mut net = net_with(healthy(), 10);
    let a_to_b = net.transport(node("node-a"), group(), peers_to("node-b"));
    let b_to_a = net.transport(node("node-b"), group(), peers_to("node-a"));

    net.install_cut(HealId(1), node("node-a"), node("node-b"));
    net.set_now(VirtualInstant::origin());

    a_to_b.send(&mut net, RaftNodeId(1), msg(1)); // node-a -> node-b: cut
    b_to_a.send(&mut net, RaftNodeId(1), msg(2)); // node-b -> node-a: still delivered

    let pending = net.drain_pending();
    assert_eq!(pending.len(), 1, "only the reverse direction survives");
    assert_eq!(pending[0].1.from, node("node-b"));
    assert_eq!(pending[0].1.to, node("node-a"));
    assert_eq!(net.cut_dropped(), 1);
    assert_eq!(net.dropped(), 0, "a cut is not a probabilistic drop");
}

#[test]
fn symmetric_partition_blocks_both_directions_across_the_split() {
    let mut net = net_with(healthy(), 11);
    net.install_partition(
        HealId(7),
        vec![node("node-a"), node("node-b")],
        vec![node("node-c"), node("node-d")],
    );
    net.set_now(VirtualInstant::origin());

    let a_to_c = net.transport(node("node-a"), group(), peers_to("node-c"));
    let c_to_a = net.transport(node("node-c"), group(), peers_to("node-a"));
    let a_to_b = net.transport(node("node-a"), group(), peers_to("node-b"));

    a_to_c.send(&mut net, RaftNodeId(1), msg(1)); // cross-side: cut
    c_to_a.send(&mut net, RaftNodeId(1), msg(2)); // cross-side (reverse): cut
    a_to_b.send(&mut net, RaftNodeId(1), msg(3)); // same side: delivered

    let pending = net.drain_pending();
    assert_eq!(pending.len(), 1, "only the same-side message survives");
    assert_eq!(pending[0].1.to, node("node-b"));
    assert_eq!(net.cut_dropped(), 2);
}

#[test]
fn asymmetric_partition_blocks_only_the_specified_direction() {
    let mut net = net_with(healthy(), 12);
    net.install_asymmetric_partition(HealId(3), vec![node("node-a")], vec![node("node-b")]);
    net.set_now(VirtualInstant::origin());

    let a_to_b = net.transport(node("node-a"), group(), peers_to("node-b"));
    let b_to_a = net.transport(node("node-b"), group(), peers_to("node-a"));

    a_to_b.send(&mut net, RaftNodeId(1), msg(1)); // blocked direction
    b_to_a.send(&mut net, RaftNodeId(1), msg(2)); // open direction

    let pending = net.drain_pending();
    assert_eq!(pending.len(), 1, "reverse direction still delivers");
    assert_eq!(pending[0].1.from, node("node-b"));
    assert_eq!(pending[0].1.to, node("node-a"));
    assert_eq!(net.cut_dropped(), 1);
}

#[test]
fn heal_restores_delivery_for_messages_sent_at_or_after() {
    let mut net = net_with(healthy(), 13);
    let tx = net.transport(node("node-a"), group(), peers_to("node-b"));

    net.install_cut(HealId(9), node("node-a"), node("node-b"));
    net.set_now(VirtualInstant::origin());
    tx.send(&mut net, RaftNodeId(1), msg(1)); // sent before heal: cut, stays cut

    assert!(net.heal(HealId(9)), "heal removes the installed cut");
    assert!(!net.heal(HealId(9)), "healing again is a no-op");

    tx.send(&mut net, RaftNodeId(1), msg(2)); // sent after heal: delivered

    let pending = net.drain_pending();
    assert_eq!(pending.len(), 1, "only the post-heal message is delivered");
    assert_eq!(pending[0].1.msg, msg(2));
    assert_eq!(
        net.cut_dropped(),
        1,
        "the pre-heal message kept its cut fate"
    );
}

#[test]
fn heal_leaves_other_configured_faults_in_effect() {
    let faults = FaultIntensities {
        drop_prob: Probability::always(),
        ..healthy()
    };
    let mut net = net_with(faults, 14);
    let tx = net.transport(node("node-a"), group(), peers_to("node-b"));

    net.install_cut(HealId(2), node("node-a"), node("node-b"));
    net.set_now(VirtualInstant::origin());
    tx.send(&mut net, RaftNodeId(1), msg(1)); // cut (no RNG consumed)

    net.heal(HealId(2));
    tx.send(&mut net, RaftNodeId(1), msg(2)); // passes cut check, then drop_prob 1.0 drops

    assert_eq!(net.pending_len(), 0, "drop fault still applies post-heal");
    assert_eq!(net.cut_dropped(), 1);
    assert_eq!(net.dropped(), 1);
    assert_eq!(net.delivered(), 0);
}

#[test]
fn crashed_node_is_cut_both_ways_until_restart() {
    let mut net = net_with(healthy(), 15);
    let a_to_b = net.transport(node("node-a"), group(), peers_to("node-b"));
    let b_to_a = net.transport(node("node-b"), group(), peers_to("node-a"));

    net.crash_node(node("node-b"));
    net.set_now(VirtualInstant::origin());

    a_to_b.send(&mut net, RaftNodeId(1), msg(1)); // to crashed node: cut
    b_to_a.send(&mut net, RaftNodeId(1), msg(2)); // from crashed node: cut
    assert_eq!(net.pending_len(), 0, "no traffic to or from a crashed node");
    assert_eq!(net.cut_dropped(), 2);

    assert!(net.restart_node(&node("node-b")), "node-b was crashed");
    assert!(
        !net.restart_node(&node("node-b")),
        "restarting a live node is a no-op"
    );
    a_to_b.send(&mut net, RaftNodeId(1), msg(3)); // delivered after restart
    b_to_a.send(&mut net, RaftNodeId(1), msg(4)); // delivered after restart

    let pending = net.drain_pending();
    assert_eq!(pending.len(), 2, "both directions deliver after restart");
}

#[test]
fn cut_check_consumes_no_rng() {
    let faults = FaultIntensities {
        drop_prob: chance(0.3),
        duplicate_prob: chance(0.3),
        reorder_prob: chance(0.5),
        max_reorder_nanos: 4_000,
        ..healthy()
    };

    let trace = |install_unmatched_cut: bool| -> Vec<(u64, u64)> {
        let mut net = net_with(faults, 0xFEED);
        if install_unmatched_cut {
            net.install_cut(HealId(1), node("node-a"), node("node-c"));
            net.crash_node(node("node-z"));
        }
        let tx = net.transport(node("node-a"), group(), peers_to("node-b"));
        net.set_now(VirtualInstant::from_nanos(10));
        for term in 0..64 {
            tx.send(&mut net, RaftNodeId(1), msg(term));
        }
        net.drain_pending()
            .into_iter()
            .map(|(at, env)| (at.as_nanos(), env.msg.term))
            .collect()
    };

    assert_eq!(
        trace(false),
        trace(true),
        "an unmatched cut must not perturb any seed-derived decision"
    );
}

/// Healing one cut leaves the other cuts standing.
#[test]
fn healing_one_cut_leaves_the_others() {
    let mut net = net_with(healthy(), 16);
    net.install_cut(HealId(1), node("node-a"), node("node-b"));
    net.install_cut(HealId(2), node("node-a"), node("node-c"));
    assert!(net.heal(HealId(1)));
    assert!(!net.is_cut(&node("node-a"), &node("node-b")));
    assert!(net.is_cut(&node("node-a"), &node("node-c")));
}

/// Installing a cut under a name that is in use replaces the cut.
#[test]
fn a_reused_name_replaces_the_cut() {
    let mut net = net_with(healthy(), 17);
    net.install_cut(HealId(1), node("node-a"), node("node-b"));
    net.install_cut(HealId(1), node("node-b"), node("node-c"));
    assert!(!net.is_cut(&node("node-a"), &node("node-b")));
    assert!(net.is_cut(&node("node-b"), &node("node-c")));
}

/// A message that a cut stops moves the stream not at all.
#[test]
fn a_stopped_message_draws_nothing() {
    let faults = FaultIntensities { drop_prob: chance(0.5), ..healthy() };
    let mut net = net_with(faults, 18);
    let tx = net.transport(node("node-a"), group(), peers_to("node-b"));
    net.install_cut(HealId(1), node("node-a"), node("node-b"));
    let before = net.rng.state;
    tx.send(&mut net, RaftNodeId(1), msg(1));
    assert_eq!(net.rng.state, before);
    assert_eq!(net.cut_dropped(), 1);
}
