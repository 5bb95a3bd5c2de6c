//! Virtual time and the event queue that moves it.
//!
//! Events fire in the order of their instants. Events that share an instant fire
//! in the order of a key drawn from the run's tie-break stream, and then in the
//! order in which they were scheduled.

use crate::keyed::Key;
use crate::model::{self, GroupKey, NodeId, TimerKind};
use crate::network::Envelope;
use crate::rng::SplitMix64;
use crate::scenario::Budget;
use vstd::prelude::*;

verus! {

/// A point of virtual time, in nanoseconds since the run began.
#[derive(Clone, Copy, Debug, PartialEq, Eq, PartialOrd, Ord, Hash, Structural)]
pub struct VirtualInstant(pub u64);

/// The sum of two `u64`, or the greatest `u64` where it does not fit.
pub open spec fn capped(n: int) -> u64 {
    if n > u64::MAX {
        u64::MAX
    } else {
        n as u64
    }
}

impl VirtualInstant {
    /// The instant at which every run begins.
    pub fn origin() -> (r: Self)
        ensures
            r.0 == 0,
    {
        VirtualInstant(0)
    }

    pub fn from_nanos(nanos: u64) -> (r: Self)
        ensures
            r.0 == nanos,
    {
        VirtualInstant(nanos)
    }

    pub fn as_nanos(self) -> (r: u64)
        ensures
            r == self.0,
    {
        self.0
    }

    /// The instant `dur` after this one, as spec.
    pub open spec fn plus(self, dur: VirtualDuration) -> VirtualInstant {
        VirtualInstant(capped(self.0 + dur.0))
    }

    /// The instant `dur` after this one, or the last instant there is.
    pub fn saturating_add(self, dur: VirtualDuration) -> (r: Self)
        ensures
            r == self.plus(dur),
    {
        VirtualInstant(self.0.saturating_add(dur.0))
    }

    /// The time from `earlier` to this instant, or zero where `earlier` is later.
    pub fn duration_since(self, earlier: VirtualInstant) -> (r: VirtualDuration)
        ensures
            r.0 == (if self.0 >= earlier.0 {
                self.0 - earlier.0
            } else {
                0
            }),
    {
        VirtualDuration(self.0.saturating_sub(earlier.0))
    }
}

impl Default for VirtualInstant {
    fn default() -> (r: Self)
        ensures
            r.0 == 0,
    {
        VirtualInstant(0)
    }
}

/// A span of virtual time, in nanoseconds.
#[derive(Clone, Copy, Debug, PartialEq, Eq, PartialOrd, Ord, Hash, Structural)]
pub struct VirtualDuration(pub u64);

impl Default for VirtualDuration {
    fn default() -> (r: Self)
        ensures
            r.0 == 0,
    {
        VirtualDuration(0)
    }
}

/// `n * unit`, or the greatest `u64` where it does not fit.
fn saturating_mul(n: u64, unit: u64) -> (r: u64)
    requires
        unit > 0,
    ensures
        r == capped(n * unit),
{
    match n.checked_mul(unit) {
        Some(v) => v,
        None => u64::MAX,
    }
}

impl VirtualDuration {
    /// The empty span.
    pub fn zero() -> (r: Self)
        ensures
            r.0 == 0,
    {
        VirtualDuration(0)
    }

    pub fn from_nanos(nanos: u64) -> (r: Self)
        ensures
            r.0 == nanos,
    {
        VirtualDuration(nanos)
    }

    /// `millis` milliseconds, or the longest span there is.
    pub fn from_millis(millis: u64) -> (r: Self)
        ensures
            r.0 == capped(millis * 1_000_000),
    {
        VirtualDuration(saturating_mul(millis, 1_000_000))
    }

    /// `secs` seconds, or the longest span there is.
    pub fn from_secs(secs: u64) -> (r: Self)
        ensures
            r.0 == capped(secs * 1_000_000_000),
    {
        VirtualDuration(saturating_mul(secs, 1_000_000_000))
    }

    pub fn as_nanos(self) -> (r: u64)
        ensures
            r == self.0,
    {
        self.0
    }

    pub open spec fn plus(self, other: VirtualDuration) -> VirtualDuration {
        VirtualDuration(capped(self.0 + other.0))
    }

    /// The sum of two spans, or the longest span there is.
    pub fn saturating_add(self, other: VirtualDuration) -> (r: Self)
        ensures
            r == self.plus(other),
    {
        VirtualDuration(self.0.saturating_add(other.0))
    }
}

/// Adding a span never moves an instant back, and where nothing is cut off the
/// span comes back out.
pub proof fn law_time_arithmetic(at: VirtualInstant, dur: VirtualDuration)
    ensures
        at.plus(dur).0 >= at.0,
        at.0 + dur.0 <= u64::MAX ==> at.plus(dur).0 - at.0 == dur.0,
{
}

/// The client operation numbered `seq` in the workload.
#[derive(Clone, Copy, Debug, PartialEq, Eq, Structural)]
pub struct ClientOp {
    pub seq: u64,
}

/// The name under which a network cut is installed and healed.
#[derive(Clone, Copy, Debug, PartialEq, Eq, Hash, Structural)]
pub struct HealId(pub u64);

impl View for HealId {
    type V = HealId;

    open spec fn view(&self) -> HealId {
        *self
    }
}

impl Key for HealId {
    fn same_key(&self, other: &Self) -> (r: bool) {
        self.0 == other.0
    }
}

/// A fault to apply.
#[derive(Debug)]
pub enum Fault {
    Crash { nodes: Vec<usize> },
    Restart { nodes: Vec<usize> },
    Partition { id: HealId, side_a: Vec<NodeId>, side_b: Vec<NodeId> },
}

impl Fault {
    /// Whether `copy` strikes the same nodes in the same way.
    pub open spec fn copied(self, copy: Fault) -> bool {
        match (self, copy) {
            (Fault::Crash { nodes: a }, Fault::Crash { nodes: b }) => a@ == b@,
            (Fault::Restart { nodes: a }, Fault::Restart { nodes: b }) => a@ == b@,
            (
                Fault::Partition { id: i, side_a: a, side_b: b },
                Fault::Partition { id: j, side_a: c, side_b: d },
            ) => i == j && a@ == c@ && b@ == d@,
            _ => false,
        }
    }
}

impl Clone for Fault {
    fn clone(&self) -> (r: Self)
        ensures
            self.copied(r),
    {
        match self {
            Fault::Crash { nodes } => Fault::Crash { nodes: model::clone_indices(nodes) },
            Fault::Restart { nodes } => Fault::Restart { nodes: model::clone_indices(nodes) },
            Fault::Partition { id, side_a, side_b } => Fault::Partition {
                id: *id,
                side_a: model::clone_nodes(side_a.as_slice()),
                side_b: model::clone_nodes(side_b.as_slice()),
            },
        }
    }
}

/// What happens at an instant. Messages of the consensus protocol are of type `M`.
#[derive(Debug)]
pub enum Event<M> {
    TimerFire { node: NodeId, group: GroupKey, kind: TimerKind, generation: u64 },
    MessageDeliver(Envelope<M>),
    ClientOp(ClientOp),
    FaultApply(Fault),
    FaultHeal(HealId),
}

impl<M: Clone> Event<M> {
    /// Whether `copy` is this event, with the message that it delivers cloned.
    pub open spec fn copied(self, copy: Event<M>) -> bool {
        match (self, copy) {
            (Event::MessageDeliver(a), Event::MessageDeliver(b)) => a.copied(b),
            (Event::FaultApply(a), Event::FaultApply(b)) => a.copied(b),
            (Event::MessageDeliver(_), _) => false,
            (Event::FaultApply(_), _) => false,
            _ => copy == self,
        }
    }
}

impl<M: Clone> Clone for Event<M> {
    fn clone(&self) -> (r: Self)
        ensures
            self.copied(r),
    {
        match self {
            Event::TimerFire { node, group, kind, generation } => Event::TimerFire {
                node: node.clone(),
                group: model::clone_group(group),
                kind: *kind,
                generation: *generation,
            },
            Event::MessageDeliver(envelope) => Event::MessageDeliver(envelope.clone()),
            Event::ClientOp(op) => Event::ClientOp(*op),
            Event::FaultApply(fault) => Event::FaultApply(fault.clone()),
            Event::FaultHeal(id) => Event::FaultHeal(*id),
        }
    }
}

/// The order of events that share an instant.
#[derive(Clone, Copy, Debug, PartialEq, Eq, PartialOrd, Ord, Structural)]
pub struct TieBreak {
    pub key: u64,
    pub seq: u64,
}

/// An event with its place in the firing order.
#[derive(Debug)]
pub struct Scheduled<M> {
    pub at: VirtualInstant,
    pub tie_break: TieBreak,
    pub event: Event<M>,
}

impl<M: Clone> Clone for Scheduled<M> {
    fn clone(&self) -> (r: Self)
        ensures
            r.at == self.at,
            r.tie_break == self.tie_break,
            self.event.copied(r.event),
    {
        Scheduled { at: self.at, tie_break: self.tie_break, event: self.event.clone() }
    }
}

impl<M> Scheduled<M> {
    /// Whether this entry fires before `other`.
    pub open spec fn before(self, other: Scheduled<M>) -> bool {
        ||| self.at.0 < other.at.0
        ||| self.at == other.at && self.tie_break.key < other.tie_break.key
        ||| self.at == other.at && self.tie_break.key == other.tie_break.key && self.tie_break.seq
            < other.tie_break.seq
    }

    pub fn fires_before(&self, other: &Scheduled<M>) -> (r: bool)
        ensures
            r == self.before(*other),
    {
        if self.at.0 != other.at.0 {
            self.at.0 < other.at.0
        } else if self.tie_break.key != other.tie_break.key {
            self.tie_break.key < other.tie_break.key
        } else {
            self.tie_break.seq < other.tie_break.seq
        }
    }
}

/// Why a run ended.
#[derive(Clone, Copy, Debug, PartialEq, Eq, Structural)]
pub enum EndReason {
    Quiescent,
    EventBudget,
    VirtualTimeBudget,
}

/// What a step of the scheduler did.
#[derive(Debug)]
pub enum Step<M> {
    Event(Scheduled<M>),
    Done(EndReason),
}

impl<M: Clone> Clone for Step<M> {
    fn clone(&self) -> (r: Self)
        ensures
            match *self {
                Step::Event(a) => r matches Step::Event(b) && b.at == a.at && b.tie_break
                    == a.tie_break && a.event.copied(b.event),
                Step::Done(reason) => r == *self,
            },
    {
        match self {
            Step::Event(scheduled) => Step::Event(scheduled.clone()),
            Step::Done(reason) => Step::Done(*reason),
        }
    }
}

/// The event queue of a run, and its clock.
#[derive(Debug)]
pub struct Scheduler<M> {
    now: VirtualInstant,
    /// Latest first.
    queue: Vec<Scheduled<M>>,
    next_seq: u64,
    events_processed: u64,
    budget: Budget,
    tiebreak: SplitMix64,
}

/// The entries of `s`, last to first.
pub open spec fn backwards<T>(s: Seq<T>) -> Seq<T> {
    Seq::new(s.len(), |i: int| s[s.len() - 1 - i])
}

impl<M> Scheduler<M> {
    /// The present instant.
    pub closed spec fn time(self) -> VirtualInstant {
        self.now
    }

    /// The pending entries in the order in which they will fire.
    pub closed spec fn pending(self) -> Seq<Scheduled<M>> {
        backwards(self.queue@)
    }

    /// How many events were ever scheduled.
    pub closed spec fn scheduled_count(self) -> u64 {
        self.next_seq
    }

    /// How many events have fired.
    pub closed spec fn fired(self) -> u64 {
        self.events_processed
    }

    pub closed spec fn limits(self) -> Budget {
        self.budget
    }

    /// The stream that orders events that share an instant.
    pub closed spec fn ties(self) -> SplitMix64 {
        self.tiebreak
    }

    /// Pending entries stand in strict firing order, none lies in the past, and
    /// every event ever scheduled has fired or is pending.
    pub open spec fn wf(self) -> bool {
        &&& forall|i: int, j: int|
            0 <= i < j < self.pending().len() ==> (#[trigger] self.pending()[i]).before(
                #[trigger] self.pending()[j],
            )
        &&& forall|i: int|
            0 <= i < self.pending().len() ==> {
                &&& (#[trigger] self.pending()[i]).at.0 >= self.time().0
                &&& self.pending()[i].tie_break.seq < self.scheduled_count()
            }
        &&& self.fired() <= self.limits().max_events
        &&& self.fired() + self.pending().len() == self.scheduled_count()
    }

    /// Whether `other` has the same events pending, at the same instant, with the same
    /// counts, bounds and stream of tie-breaks.
    pub open spec fn same_queue(self, other: Scheduler<M>) -> bool {
        &&& self.pending() == other.pending()
        &&& self.time() == other.time()
        &&& self.scheduled_count() == other.scheduled_count()
        &&& self.fired() == other.fired()
        &&& self.limits() == other.limits()
        &&& self.ties() == other.ties()
    }

    /// Whether `n` more events can be numbered.
    pub open spec fn has_room(self, n: int) -> bool {
        self.scheduled_count() + n <= u64::MAX
    }

    pub fn new(budget: Budget, tiebreak: SplitMix64) -> (r: Self)
        ensures
            r.wf(),
            r.time() == VirtualInstant(0),
            r.pending() == Seq::<Scheduled<M>>::empty(),
            r.scheduled_count() == 0,
            r.fired() == 0,
            r.limits() == budget,
            r.ties() == tiebreak,
    {
        let r = Scheduler {
            now: VirtualInstant::origin(),
            queue: Vec::new(),
            next_seq: 0,
            events_processed: 0,
            budget,
            tiebreak,
        };
        assert(r.pending() =~= Seq::<Scheduled<M>>::empty());
        r
    }

    pub fn now(&self) -> (r: VirtualInstant)
        ensures
            r == self.time(),
    {
        self.now
    }

    pub fn events_processed(&self) -> (r: u64)
        ensures
            r == self.fired(),
    {
        self.events_processed
    }

    pub fn pending_events(&self) -> (r: usize)
        ensures
            r == self.pending().len(),
    {
        self.queue.len()
    }

    pub fn is_idle(&self) -> (r: bool)
        ensures
            r == (self.pending().len() == 0),
    {
        self.queue.len() == 0
    }

    /// The instant of the next event to fire.
    pub fn next_instant(&self) -> (r: Option<VirtualInstant>)
        ensures
            r == (if self.pending().len() == 0 {
                None
            } else {
                Some(self.pending()[0].at)
            }),
    {
        let n: usize = self.queue.len();
        if n == 0 {
            None
        } else {
            Some(self.queue[n - 1].at)
        }
    }

    /// Whether `n` more events can be scheduled.
    pub fn can_schedule(&self, n: u64) -> (r: bool)
        ensures
            r == self.has_room(n as int),
    {
        self.next_seq <= u64::MAX - n
    }

    /// The instant at which an event asked for at `at` fires: never in the past.
    pub open spec fn clamped(self, at: VirtualInstant) -> VirtualInstant {
        if at.0 < self.time().0 {
            self.time()
        } else {
            at
        }
    }

    /// The entry that scheduling `event` at `at` makes.
    pub open spec fn entry(self, at: VirtualInstant, event: Event<M>) -> Scheduled<M> {
        Scheduled {
            at: self.clamped(at),
            tie_break: TieBreak { key: self.ties().word(), seq: self.scheduled_count() },
            event,
        }
    }

    /// `after` is `self` with `event` scheduled at `at`.
    pub open spec fn scheduled_to(
        self,
        after: Scheduler<M>,
        at: VirtualInstant,
        event: Event<M>,
    ) -> bool {
        &&& exists|k: int|
            0 <= k <= self.pending().len() && #[trigger] self.pending().insert(
                k,
                self.entry(at, event),
            ) == after.pending()
        &&& after.time() == self.time()
        &&& after.scheduled_count() == self.scheduled_count() + 1
        &&& after.fired() == self.fired()
        &&& after.limits() == self.limits()
        &&& after.ties() == self.ties().advanced()
    }

    /// Schedule `event` at `at`, or now where `at` has passed.
    pub fn schedule(&mut self, at: VirtualInstant, event: Event<M>)
        requires
            old(self).wf(),
            old(self).has_room(1),
        ensures
            final(self).wf(),
            old(self).scheduled_to(*final(self), at, event),
    {
        let ghost before = *self;
        let at = if at.0 < self.now.0 {
            self.now
        } else {
            at
        };
        let key: u64 = self.tiebreak.next_u64();
        let tie_break = TieBreak { key, seq: self.next_seq };
        self.next_seq = self.next_seq + 1;
        let entry = Scheduled { at, tie_break, event };
        let n: usize = self.queue.len();
        let mut lo: usize = 0;
        let mut hi: usize = n;
        assert forall|i: int, j: int| 0 <= i < j < n implies (#[trigger] self.queue@[j]).before(
            #[trigger] self.queue@[i],
        ) by {
            assert(before.pending()[n - 1 - j].before(before.pending()[n - 1 - i]));
        }
        while lo < hi
            invariant
                lo <= hi <= n,
                n == self.queue@.len(),
                forall|i: int, j: int|
                    0 <= i < j < n ==> (#[trigger] self.queue@[j]).before(
                        #[trigger] self.queue@[i],
                    ),
                forall|i: int| 0 <= i < lo ==> entry.before(#[trigger] self.queue@[i]),
                forall|i: int| hi <= i < n ==> !entry.before(#[trigger] self.queue@[i]),
            decreases hi - lo,
        {
            let mid: usize = lo + (hi - lo) / 2;
            if entry.fires_before(&self.queue[mid]) {
                lo = mid + 1;
            } else {
                hi = mid;
            }
        }
        self.queue.insert(lo, entry);
        proof {
            let k = n - lo;
            assert(entry == before.entry(at, event));
            let after = self.pending();
            assert(after =~= before.pending().insert(k as int, entry));
            assert(before.pending().insert(k as int, before.entry(at, event)) == after);
            assert forall|i: int| 0 <= i < before.pending().len() implies (
            #[trigger] before.pending()[i]).tie_break.seq < entry.tie_break.seq by {}
            assert forall|i: int, j: int| 0 <= i < j < after.len() implies (
            #[trigger] after[i]).before(#[trigger] after[j]) by {
                let bi = if i < k {
                    i
                } else {
                    i - 1
                };
                let bj = if j < k {
                    j
                } else {
                    j - 1
                };
                if i == k {
                    assert(after[j] == before.queue@[n - 1 - bj]);
                } else if j == k {
                    assert(after[i] == before.pending()[bi]);
                    assert(after[i] == before.queue@[n - 1 - bi]);
                    assert(!entry.before(before.queue@[n - 1 - bi]));
                } else {
                    assert(before.pending()[bi].before(before.pending()[bj]));
                }
            }
            assert forall|i: int| 0 <= i < after.len() implies (#[trigger] after[i]).at.0
                >= self.time().0 && after[i].tie_break.seq < self.scheduled_count() by {
                if i != k {
                    let bi = if i < k {
                        i
                    } else {
                        i - 1
                    };
                    assert(after[i] == before.pending()[bi]);
                }
            }
        }
    }

    /// Why no event can fire, if none can: a bound of the budget was reached, or nothing
    /// is pending.
    pub open spec fn ending(self) -> Option<EndReason> {
        if self.fired() >= self.limits().max_events {
            Some(EndReason::EventBudget)
        } else if self.time().0 >= self.limits().max_virtual_nanos {
            Some(EndReason::VirtualTimeBudget)
        } else if self.pending().len() == 0 {
            Some(EndReason::Quiescent)
        } else {
            None
        }
    }

    /// `after` is this scheduler once its next event fired.
    pub open spec fn fired_to(self, after: Scheduler<M>) -> bool {
        &&& after.pending() == self.pending().drop_first()
        &&& after.time() == self.pending()[0].at
        &&& after.fired() == self.fired() + 1
        &&& after.limits() == self.limits()
        &&& after.ties() == self.ties()
        &&& after.scheduled_count() == self.scheduled_count()
    }

    /// Fire the next event, unless a bound of the budget was reached or nothing is
    /// pending.
    pub fn step(&mut self) -> (r: Step<M>)
        requires
            old(self).wf(),
        ensures
            final(self).wf(),
            final(self).time().0 >= old(self).time().0,
            match old(self).ending() {
                Some(reason) => r == Step::<M>::Done(reason) && *final(self) == *old(self),
                None => r == Step::Event(old(self).pending()[0]) && old(self).fired_to(
                    *final(self),
                ),
            },
    {
        let ghost before = *self;
        if self.events_processed >= self.budget.max_events {
            return Step::Done(EndReason::EventBudget);
        }
        if self.now.0 >= self.budget.max_virtual_nanos {
            return Step::Done(EndReason::VirtualTimeBudget);
        }
        if self.queue.len() == 0 {
            return Step::Done(EndReason::Quiescent);
        }
        match self.queue.pop() {
            None => Step::Done(EndReason::Quiescent),
            Some(scheduled) => {
                self.now = scheduled.at;
                self.events_processed = self.events_processed + 1;
                proof {
                    assert(scheduled == before.pending()[0]);
                    assert(self.pending() =~= before.pending().drop_first());
                    assert forall|i: int| 0 <= i < self.pending().len() implies (
                    #[trigger] self.pending()[i]).at.0 >= self.time().0 && self.pending()[i].tie_break.seq
                        < self.scheduled_count() by {
                        assert(before.pending()[0].before(before.pending()[i + 1]));
                    }
                }
                Step::Event(scheduled)
            },
        }
    }
}

/// Where an event lands in the firing order is settled by the scheduler's state, the
/// instant asked for and the event: there is one way to schedule it.
pub proof fn law_scheduling_is_deterministic<M>(
    before: Scheduler<M>,
    other: Scheduler<M>,
    one: Scheduler<M>,
    two: Scheduler<M>,
    at: VirtualInstant,
    event: Event<M>,
)
    requires
        before.same_queue(other),
        one.wf(),
        two.wf(),
        before.scheduled_to(one, at, event),
        other.scheduled_to(two, at, event),
    ensures
        one.same_queue(two),
{
    let e = before.entry(at, event);
    let p = before.pending();
    assert(other.entry(at, event) == e);
    let j = choose|k: int| 0 <= k <= p.len() && #[trigger] p.insert(k, e) == one.pending();
    let k = choose|k: int| 0 <= k <= p.len() && #[trigger] p.insert(k, e) == two.pending();
    if j < k {
        assert(one.pending()[j].before(one.pending()[k]));
        assert(two.pending()[k - 1].before(two.pending()[k]));
        assert(one.pending()[k] == two.pending()[k - 1]);
    } else if k < j {
        assert(two.pending()[k].before(two.pending()[j]));
        assert(one.pending()[j - 1].before(one.pending()[j]));
        assert(two.pending()[j] == one.pending()[j - 1]);
    }
}

/// Time stops at its last instant: what would go past it is there.
pub proof fn law_time_stops_at_its_end(at: VirtualInstant, dur: VirtualDuration, more: VirtualDuration)
    ensures
        at.plus(dur).0 as int == vstd::math::min(at.0 + dur.0, u64::MAX as int),
        dur.plus(more).0 as int == vstd::math::min(dur.0 + more.0, u64::MAX as int),
{
}

/// What fires is the earliest of what was scheduled: nothing left is due before it, and
/// among what is due at its instant none drew a lower key, nor drew its key and came
/// first. The clock is set to its instant and never goes back; the others stay.
pub proof fn law_the_earliest_fires<M>(before: Scheduler<M>, after: Scheduler<M>, k: int)
    requires
        before.wf(),
        before.fired_to(after),
        0 < k < before.pending().len(),
    ensures
        ({
            let first = before.pending()[0];
            let other = before.pending()[k];
            &&& first.at.0 <= other.at.0
            &&& first.at.0 == other.at.0 ==> first.tie_break.key <= other.tie_break.key
            &&& first.at.0 == other.at.0 && first.tie_break.key == other.tie_break.key
                ==> first.tie_break.seq < other.tie_break.seq
            &&& after.time().0 == first.at.0
            &&& after.time().0 >= before.time().0
            &&& after.fired() == before.fired() + 1
            &&& after.pending().len() == before.pending().len() - 1
            &&& after.pending()[k - 1] == other
        }),
{
    assert(before.pending()[0].before(before.pending()[k]));
}

/// An event that is scheduled is among what is pending, due at the instant asked for or
/// now where that has passed, with the next word of the tie-break stream for its key and
/// the count of events before it for its number. What was pending stays, in its order.
/// The result is the event's place.
pub proof fn law_what_is_scheduled_is_pending<M>(
    before: Scheduler<M>,
    after: Scheduler<M>,
    at: VirtualInstant,
    event: Event<M>,
) -> (k: int)
    requires
        before.scheduled_to(after, at, event),
    ensures
        0 <= k <= before.pending().len(),
        after.pending().len() == before.pending().len() + 1,
        ({
            let new = after.pending()[k];
            &&& new.event == event
            &&& new.at.0 as int == vstd::math::max(at.0 as int, before.time().0 as int)
            &&& new.tie_break.key == before.ties().word()
            &&& new.tie_break.seq == before.scheduled_count()
        }),
        forall|j: int| 0 <= j < k ==> after.pending()[j] == before.pending()[j],
        forall|j: int|
            k <= j < before.pending().len() ==> after.pending()[j + 1] == #[trigger] before.pending()[j],
        after.time() == before.time(),
        after.fired() == before.fired(),
        after.ties() == before.ties().advanced(),
{
    let k = choose|k: int|
        0 <= k <= before.pending().len() && #[trigger] before.pending().insert(
            k,
            before.entry(at, event),
        ) == after.pending();
    k
}

/// A run ends by its event budget once so many events have fired; else by its time budget
/// once the clock has come so far; else where nothing is pending; and else it goes on.
pub proof fn law_budgets_end_a_run<M>(s: Scheduler<M>)
    ensures
        s.ending() == Some(EndReason::EventBudget) <==> s.fired() >= s.limits().max_events,
        s.ending() == Some(EndReason::VirtualTimeBudget) <==> s.fired() < s.limits().max_events
            && s.time().0 >= s.limits().max_virtual_nanos,
        s.ending() == Some(EndReason::Quiescent) <==> s.fired() < s.limits().max_events
            && s.time().0 < s.limits().max_virtual_nanos && s.pending().len() == 0,
        s.ending() is None <==> s.fired() < s.limits().max_events && s.time().0
            < s.limits().max_virtual_nanos && s.pending().len() > 0,
{
}

} // verus!
