use vela_sim::rng::SeedStreams;
use vela_sim::scenario::Budget;
use vela_sim::scheduler::{
    ClientOp, EndReason, Event, Scheduled, Scheduler, Step, VirtualDuration, VirtualInstant,
};

fn unbounded() -> Budget {
    Budget { max_events: u64::MAX, max_virtual_nanos: u64::MAX }
}

fn client_op(seq: u64) -> Event<()> {
    Event::ClientOp(ClientOp { seq })
}

fn expect_event(sched: &mut Scheduler<()>) -> Scheduled<()> {
    match sched.step() {
        Step::Event(s) => s,
        Step::Done(reason) => panic!("expected an event, got Done({reason:?})"),
    }
}

#[test]
fn events_are_delivered_in_instant_order() {
    let streams = SeedStreams::new(1);
    let mut sched = Scheduler::new(unbounded(), streams.tiebreak);
    sched.schedule(VirtualInstant::from_nanos(30), client_op(0));
    sched.schedule(VirtualInstant::from_nanos(10), client_op(1));
    sched.schedule(VirtualInstant::from_nanos(20), client_op(2));

    let mut last = VirtualInstant::origin();
    let mut seen = Vec::new();
    loop {
        match sched.step() {
            Step::Event(s) => {
                assert!(s.at >= last, "time moved backward: {:?} < {:?}", s.at, last);
                last = s.at;
                assert_eq!(sched.now(), s.at);
                seen.push(s.at.as_nanos());
            }
            Step::Done(EndReason::Quiescent) => break,
            Step::Done(other) => panic!("unexpected end: {other:?}"),
        }
    }
    assert_eq!(seen, vec![10, 20, 30]);
}

#[test]
fn scheduling_in_the_past_is_clamped_to_now() {
    let streams = SeedStreams::new(2);
    let mut sched = Scheduler::new(unbounded(), streams.tiebreak);
    sched.schedule(VirtualInstant::from_nanos(100), client_op(0));
    let first = expect_event(&mut sched);
    assert_eq!(first.at, VirtualInstant::from_nanos(100));
    assert_eq!(sched.now(), VirtualInstant::from_nanos(100));
    sched.schedule(VirtualInstant::from_nanos(10), client_op(1));
    let second = expect_event(&mut sched);
    assert_eq!(second.at, VirtualInstant::from_nanos(100));
    assert!(sched.now() >= first.at);
}

fn order_for_seed(seed: u64) -> Vec<u64> {
    let streams = SeedStreams::new(seed);
    let mut sched: Scheduler<()> = Scheduler::new(unbounded(), streams.tiebreak);
    for seq in 0..10 {
        sched.schedule(VirtualInstant::from_nanos(42), client_op(seq));
    }
    let mut order = Vec::new();
    while let Step::Event(s) = sched.step() {
        match s.event {
            Event::ClientOp(op) => order.push(op.seq),
            other => panic!("unexpected event {other:?}"),
        }
    }
    order
}

#[test]
fn equal_instant_tie_break_is_deterministic_for_a_seed() {
    let a = order_for_seed(0xABCD);
    let b = order_for_seed(0xABCD);
    assert_eq!(a, b);
    let insertion: Vec<u64> = (0..10).collect();
    assert_ne!(a, insertion);
    let mut sorted = a.clone();
    sorted.sort_unstable();
    assert_eq!(sorted, insertion);
}

#[test]
fn event_budget_ends_after_processing_the_bounding_event() {
    let streams = SeedStreams::new(3);
    let budget = Budget { max_events: 3, max_virtual_nanos: u64::MAX };
    let mut sched = Scheduler::new(budget, streams.tiebreak);
    for i in 0..10 {
        sched.schedule(VirtualInstant::from_nanos(i + 1), client_op(i));
    }
    let mut processed = 0;
    loop {
        match sched.step() {
            Step::Event(_) => processed += 1,
            Step::Done(EndReason::EventBudget) => break,
            Step::Done(other) => panic!("expected EventBudget, got {other:?}"),
        }
    }
    assert_eq!(processed, 3);
    assert_eq!(sched.events_processed(), 3);
    assert!(sched.pending_events() > 0);
}

#[test]
fn virtual_time_budget_ends_after_the_bounding_event() {
    let streams = SeedStreams::new(4);
    let budget = Budget { max_events: u64::MAX, max_virtual_nanos: 50 };
    let mut sched = Scheduler::new(budget, streams.tiebreak);
    sched.schedule(VirtualInstant::from_nanos(20), client_op(0));
    sched.schedule(VirtualInstant::from_nanos(50), client_op(1));
    sched.schedule(VirtualInstant::from_nanos(80), client_op(2));
    let mut reached = Vec::new();
    loop {
        match sched.step() {
            Step::Event(s) => reached.push(s.at.as_nanos()),
            Step::Done(EndReason::VirtualTimeBudget) => break,
            Step::Done(other) => panic!("expected VirtualTimeBudget, got {other:?}"),
        }
    }
    assert_eq!(reached, vec![20, 50]);
    assert_eq!(sched.now(), VirtualInstant::from_nanos(50));
}

#[test]
fn empty_scheduler_is_quiescent() {
    let streams = SeedStreams::new(5);
    let mut sched: Scheduler<()> = Scheduler::new(unbounded(), streams.tiebreak);
    assert!(sched.is_idle());
    assert_eq!(sched.next_instant(), None);
    assert!(matches!(sched.step(), Step::Done(EndReason::Quiescent)));
}

#[test]
fn virtual_time_arithmetic_is_saturating_and_consistent() {
    let t = VirtualInstant::from_nanos(1_000);
    assert_eq!(t.saturating_add(VirtualDuration::from_nanos(500)).as_nanos(), 1_500);
    assert_eq!(VirtualDuration::from_millis(1).as_nanos(), 1_000_000);
    assert_eq!(VirtualDuration::from_secs(1).as_nanos(), 1_000_000_000);
    let max = VirtualInstant::from_nanos(u64::MAX);
    assert_eq!(
        max.saturating_add(VirtualDuration::from_nanos(1)),
        VirtualInstant::from_nanos(u64::MAX)
    );
    assert_eq!(
        VirtualInstant::from_nanos(30)
            .duration_since(VirtualInstant::from_nanos(10))
            .as_nanos(),
        20
    );
    assert_eq!(
        VirtualInstant::from_nanos(10).duration_since(VirtualInstant::from_nanos(30)),
        VirtualDuration::zero()
    );
}

#[test]
fn unit_conversions_saturate() {
    assert_eq!(VirtualDuration::from_millis(u64::MAX).as_nanos(), u64::MAX);
    assert_eq!(VirtualDuration::from_secs(u64::MAX).as_nanos(), u64::MAX);
    assert_eq!(
        VirtualDuration::from_nanos(u64::MAX)
            .saturating_add(VirtualDuration::from_nanos(1))
            .as_nanos(),
        u64::MAX
    );
}

/// An event that ties is placed by its drawn key: the order is that of the stream's
/// words.
#[test]
fn ties_fire_in_the_order_of_their_keys() {
    let mut keys = SeedStreams::new(0x5EED).tiebreak;
    let mut expected: Vec<(u64, u64)> = (0..20).map(|seq| (keys.next_u64(), seq)).collect();
    expected.sort_unstable();
    let mut sched = Scheduler::new(unbounded(), SeedStreams::new(0x5EED).tiebreak);
    for seq in 0..20 {
        sched.schedule(VirtualInstant::from_nanos(7), client_op(seq));
    }
    for (key, seq) in expected {
        let s = expect_event(&mut sched);
        assert_eq!((s.tie_break.key, s.tie_break.seq), (key, seq));
    }
}

/// All that was scheduled fires once, each event at its own instant, and then the run is
/// over; the same stream of tie-breaks gives the same order.
#[test]
fn all_that_is_scheduled_fires_once() {
    let asked = [90u64, 10, 50, 10, 0, 50, 50];
    let drained = |seed: u64| {
        let streams = SeedStreams::new(seed);
        let mut sched: Scheduler<()> = Scheduler::new(unbounded(), streams.tiebreak);
        for (seq, nanos) in asked.iter().enumerate() {
            sched.schedule(VirtualInstant::from_nanos(*nanos), client_op(seq as u64));
        }
        let mut fired: Vec<(u64, u64)> = Vec::new();
        for _ in 0..asked.len() {
            match expect_event(&mut sched) {
                Scheduled { at, event: Event::ClientOp(op), .. } => {
                    assert_eq!(sched.now(), at);
                    fired.push((at.as_nanos(), op.seq));
                }
                other => panic!("unexpected event {other:?}"),
            }
        }
        assert!(matches!(sched.step(), Step::Done(EndReason::Quiescent)));
        fired
    };
    let fired = drained(7);
    assert_eq!(fired, drained(7));
    assert!(fired.windows(2).all(|w| w[0].0 <= w[1].0));
    assert!(fired.iter().all(|(at, seq)| *at == asked[*seq as usize]));
    let mut seqs: Vec<u64> = fired.iter().map(|(_, seq)| *seq).collect();
    seqs.sort_unstable();
    assert_eq!(seqs, (0..asked.len() as u64).collect::<Vec<u64>>());
}
