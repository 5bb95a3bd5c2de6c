use vela_sim::clock::{
    ArmedTimer, SimClock, SkewDraw, ELECTION_TIMEOUT_BASE_NANOS, RATE_RESOLUTION,
};
use vela_sim::model::{GroupKey, NodeId, PartitionIndex, TimerKind};
use vela_sim::rng::SeedStreams;
use vela_sim::scenario::FaultIntensities;
use vela_sim::scheduler::{Event, VirtualDuration, VirtualInstant};

const ELECTION_BASE_NANOS: u64 = 150_000_000;
const HEARTBEAT_NANOS: u64 = 50_000_000;

fn node(id: &str) -> NodeId {
    NodeId::new(id)
}

fn group(topic: &str, p: u32) -> GroupKey {
    (topic.to_string(), PartitionIndex(p))
}

fn clock(seed: u64) -> SimClock {
    SimClock::new(SeedStreams::new(seed).election)
}

fn arm_one(
    clock: &mut SimClock,
    now: VirtualInstant,
    n: &NodeId,
    g: &GroupKey,
    kind: TimerKind,
    dur: u64,
) -> ArmedTimer {
    clock.set_now(now);
    clock.set_active(n.clone(), g.clone());
    clock.arm(kind, dur);
    let mut armed = clock.drain_armed();
    assert_eq!(armed.len(), 1, "exactly one timer should be armed");
    armed.pop().unwrap()
}

#[test]
fn heartbeat_fires_at_exact_interval() {
    for seed in [1u64, 7, 42, 9999] {
        let mut c = clock(seed);
        let n = node("node-a");
        let g = group("orders", 0);
        let armed = arm_one(
            &mut c,
            VirtualInstant::from_nanos(2_000),
            &n,
            &g,
            TimerKind::Heartbeat,
            HEARTBEAT_NANOS,
        );
        assert_eq!(
            armed.at,
            VirtualInstant::from_nanos(2_000 + HEARTBEAT_NANOS),
            "heartbeat must fire at exactly now + interval"
        );
        assert_eq!(armed.kind, TimerKind::Heartbeat);
    }
}

#[test]
fn election_fires_within_the_jitter_window() {
    let now = VirtualInstant::from_nanos(1_000);
    for seed in 0..200u64 {
        let mut c = clock(seed);
        let n = node("node-a");
        let g = group("orders", 0);
        let armed = arm_one(
            &mut c,
            now,
            &n,
            &g,
            TimerKind::Election,
            ELECTION_TIMEOUT_BASE_NANOS,
        );
        let delay = armed.at.as_nanos() - now.as_nanos();
        assert!(
            (ELECTION_BASE_NANOS..2 * ELECTION_BASE_NANOS).contains(&delay),
            "seed {seed}: election delay {delay} outside [150ms, 300ms)"
        );
    }
}

#[test]
fn election_jitter_is_deterministic_and_heartbeat_does_not_consume_rng() {
    let n = node("node-a");
    let g = group("orders", 0);

    let draw_three = |seed: u64| {
        let mut c = clock(seed);
        let mut delays = Vec::new();
        for i in 0..3 {
            let now = VirtualInstant::from_nanos(i * 1_000_000_000);
            let armed = arm_one(
                &mut c,
                now,
                &n,
                &g,
                TimerKind::Election,
                ELECTION_TIMEOUT_BASE_NANOS,
            );
            delays.push(armed.at.as_nanos() - now.as_nanos());
        }
        delays
    };
    assert_eq!(draw_three(123), draw_three(123), "same seed, same jitter");

    let mut c = clock(123);
    let now0 = VirtualInstant::from_nanos(0);
    let e0 = arm_one(
        &mut c,
        now0,
        &n,
        &g,
        TimerKind::Election,
        ELECTION_TIMEOUT_BASE_NANOS,
    );
    let _hb = arm_one(
        &mut c,
        VirtualInstant::from_nanos(10),
        &n,
        &g,
        TimerKind::Heartbeat,
        HEARTBEAT_NANOS,
    );
    let e1 = arm_one(
        &mut c,
        VirtualInstant::from_nanos(20),
        &n,
        &g,
        TimerKind::Election,
        ELECTION_TIMEOUT_BASE_NANOS,
    );
    let expected = draw_three(123);
    assert_eq!(e0.at.as_nanos(), expected[0]);
    assert_eq!(e1.at.as_nanos() - 20, expected[1]);
}

#[test]
fn re_arming_bumps_generation_and_supersedes() {
    let mut c = clock(5);
    let n = node("node-a");
    let g = group("orders", 0);

    assert!(c.is_current(&n, &g, TimerKind::Election, 0));
    assert!(!c.is_current(&n, &g, TimerKind::Election, 1));

    let first = arm_one(
        &mut c,
        VirtualInstant::from_nanos(0),
        &n,
        &g,
        TimerKind::Election,
        ELECTION_TIMEOUT_BASE_NANOS,
    );
    assert_eq!(first.generation, 1);
    assert!(c.is_current(&n, &g, TimerKind::Election, 1));

    let second = arm_one(
        &mut c,
        VirtualInstant::from_nanos(0),
        &n,
        &g,
        TimerKind::Election,
        ELECTION_TIMEOUT_BASE_NANOS,
    );
    assert_eq!(second.generation, 2);
    assert!(!c.is_current(&n, &g, TimerKind::Election, 1));
    assert!(c.is_current(&n, &g, TimerKind::Election, 2));

    let hb = arm_one(
        &mut c,
        VirtualInstant::from_nanos(0),
        &n,
        &g,
        TimerKind::Heartbeat,
        HEARTBEAT_NANOS,
    );
    assert_eq!(hb.generation, 1, "heartbeat generation is independent");
    let other = arm_one(
        &mut c,
        VirtualInstant::from_nanos(0),
        &n,
        &group("orders", 1),
        TimerKind::Election,
        ELECTION_TIMEOUT_BASE_NANOS,
    );
    assert_eq!(other.generation, 1, "a different group is independent");
    assert!(c.is_current(&n, &g, TimerKind::Election, 2));
}

/// The offset and rate that a draw stands for.
fn skew(draw: SkewDraw, max_offset: u64, max_rate: f64) -> (f64, f64) {
    let offset = match draw.offset {
        Some(d) => d as f64 - max_offset as f64,
        None => 0.0,
    };
    let rate = match draw.rate {
        Some(d) => 1.0 - max_rate + 2.0 * max_rate * (d as f64 / RATE_RESOLUTION as f64),
        None => 1.0,
    };
    (offset, rate)
}

#[test]
fn sampled_skew_respects_bounds() {
    let mut stream = SeedStreams::new(0).faults;
    let healthy = SkewDraw::sample(&FaultIntensities::default(), &mut stream);
    assert_eq!(skew(healthy, 0, 0.0), (0.0, 1.0));

    let faults = FaultIntensities {
        max_clock_skew_nanos: 1_000,
        max_clock_skew_rate_bits: 0.05f64.to_bits(),
        ..FaultIntensities::default()
    };
    let mut stream = SeedStreams::new(99).faults;
    for _ in 0..1_000 {
        let (offset, rate) = skew(SkewDraw::sample(&faults, &mut stream), 1_000, 0.05);
        assert!(offset.abs() <= 1_000.0, "offset {offset} out of bounds");
        assert!((0.95..=1.05).contains(&rate), "rate {rate} outside [0.95, 1.05]");
    }
}

/// What is turned off draws nothing.
#[test]
fn skew_that_is_off_draws_nothing() {
    let mut stream = SeedStreams::new(4).faults;
    let before = stream.state;
    let draw = SkewDraw::sample(&FaultIntensities::default(), &mut stream);
    assert_eq!(draw, SkewDraw { offset: None, rate: None });
    assert_eq!(stream.state, before);
}

/// A timer is armed in two parts: the draw first, the instant when it is known.
#[test]
fn arming_in_two_parts_is_arming() {
    let n = node("node-a");
    let g = group("orders", 0);
    let mut whole = clock(8);
    let mut parts = clock(8);
    for c in [&mut whole, &mut parts] {
        c.set_now(VirtualInstant::from_nanos(77));
        c.set_active(n.clone(), g.clone());
    }
    whole.arm(TimerKind::Election, ELECTION_BASE_NANOS);
    let request = parts.begin_arm(TimerKind::Election, ELECTION_BASE_NANOS);
    let at = VirtualInstant::from_nanos(77).saturating_add(request.delay);
    parts.finish_arm(request, at);
    let a = whole.drain_armed().pop().unwrap();
    let b = parts.drain_armed().pop().unwrap();
    assert_eq!((a.at, a.kind, a.generation), (b.at, b.kind, b.generation));
}

#[test]
fn now_tracks_logical_time_monotonically() {
    let mut c = clock(1);
    let t0 = c.virtual_now();
    c.set_now(VirtualInstant::from_nanos(1_000_000));
    let t1 = c.virtual_now();
    c.set_now(VirtualInstant::from_nanos(2_000_000));
    let t2 = c.virtual_now();

    assert!(t1 > t0, "now must advance with logical time");
    assert!(t2 > t1);
    assert_eq!(t1.duration_since(t0), VirtualDuration::from_nanos(1_000_000));
    assert_eq!(t2.duration_since(t1), VirtualDuration::from_nanos(1_000_000));
}

#[test]
fn armed_timer_becomes_a_timer_fire_event() {
    let mut c = clock(1);
    let n = node("node-a");
    let g = group("orders", 2);
    let armed = arm_one(
        &mut c,
        VirtualInstant::from_nanos(0),
        &n,
        &g,
        TimerKind::Election,
        ELECTION_TIMEOUT_BASE_NANOS,
    );
    match armed.to_event::<()>() {
        Event::TimerFire {
            node,
            group,
            kind,
            generation,
        } => {
            assert_eq!(node, n);
            assert_eq!(group, g);
            assert_eq!(kind, TimerKind::Election);
            assert_eq!(generation, armed.generation);
        }
        other => panic!("expected TimerFire, got {other:?}"),
    }
}
