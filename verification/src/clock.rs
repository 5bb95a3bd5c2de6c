//! Timers over virtual time.
//!
//! A replica arms a timer by kind and base duration. Election timers get a jitter
//! from the election stream; heartbeat timers do not. Arming a timer again
//! supersedes the one armed before: each arming has a generation, and only the
//! latest is current.

use crate::keyed::{Key, KeyedMap};
use crate::model::{self, GroupKey, GroupView, NodeId, TimerKind};
use crate::rng::SplitMix64;
use crate::scenario::FaultIntensities;
use crate::scheduler::{self, Event, VirtualDuration, VirtualInstant};
use vstd::prelude::*;

verus! {

/// The base of the election timeout: 150 milliseconds.
pub const ELECTION_TIMEOUT_BASE_NANOS: u64 = 150_000_000;

/// The resolution of a clock-rate draw.
pub const RATE_RESOLUTION: u64 = 1_000_000;

/// The bits of the double `-0.0`.
const NEGATIVE_ZERO_BITS: u64 = 0x8000_0000_0000_0000;

impl View for TimerKind {
    type V = TimerKind;

    open spec fn view(&self) -> TimerKind {
        *self
    }
}

impl Key for TimerKind {
    fn same_key(&self, other: &Self) -> (r: bool) {
        *self == *other
    }
}

/// One timer of one replica.
pub type TimerId = ((NodeId, GroupKey), TimerKind);

/// A timer identity as a mathematical value.
pub type TimerView = ((Seq<char>, GroupView), TimerKind);

/// A timer that was armed, with the instant at which it fires.
#[derive(Debug, PartialEq, Eq)]
pub struct ArmedTimer {
    pub at: VirtualInstant,
    pub node: NodeId,
    pub group: GroupKey,
    pub kind: TimerKind,
    pub generation: u64,
}

impl Clone for ArmedTimer {
    fn clone(&self) -> (r: Self)
        ensures
            r == *self,
    {
        ArmedTimer {
            at: self.at,
            node: self.node.clone(),
            group: model::clone_group(&self.group),
            kind: self.kind,
            generation: self.generation,
        }
    }
}

impl ArmedTimer {
    pub open spec fn id(self) -> TimerView {
        ((self.node@, self.group@), self.kind)
    }

    pub open spec fn event<M>(self) -> Event<M> {
        Event::TimerFire {
            node: self.node,
            group: self.group,
            kind: self.kind,
            generation: self.generation,
        }
    }

    /// The event of this timer's firing.
    pub fn to_event<M>(&self) -> (r: Event<M>)
        ensures
            r == self.event::<M>(),
    {
        Event::TimerFire {
            node: self.node.clone(),
            group: model::clone_group(&self.group),
            kind: self.kind,
            generation: self.generation,
        }
    }
}

/// A timer that has its delay and generation but not yet its instant.
#[derive(Debug)]
pub struct ArmRequest {
    pub node: NodeId,
    pub group: GroupKey,
    pub kind: TimerKind,
    pub generation: u64,
    pub delay: VirtualDuration,
}

/// The integer draws behind a node clock's skew.
#[derive(Clone, Copy, Debug, PartialEq, Eq, Structural)]
pub struct SkewDraw {
    /// A value in `[0, 2 * max]`, for an offset of that value less `max`; nothing
    /// where offsets are off.
    pub offset: Option<u64>,
    /// A value in `[0, RATE_RESOLUTION]`, for a rate that far from the slowest to
    /// the fastest; nothing where rates are off.
    pub rate: Option<u64>,
}

impl SkewDraw {
    /// How many offsets there are to choose from.
    pub open spec fn offset_bound(max: u64) -> u64 {
        scheduler::capped(scheduler::capped(max * 2) + 1)
    }

    /// Whether a rate bound, given by its bits, is zero.
    pub open spec fn rate_is_zero(bits: u64) -> bool {
        bits == 0 || bits == 0x8000_0000_0000_0000
    }

    /// The stream after the offset draw.
    pub open spec fn after_offset(faults: FaultIntensities, stream: SplitMix64) -> SplitMix64 {
        if faults.max_clock_skew_nanos == 0 {
            stream
        } else {
            stream.advanced()
        }
    }

    /// Draw a skew; nothing is drawn for what the intensities turn off.
    pub fn sample(faults: &FaultIntensities, stream: &mut SplitMix64) -> (r: Self)
        ensures
            r.offset == (if faults.max_clock_skew_nanos == 0 {
                None
            } else {
                Some(old(stream).below(SkewDraw::offset_bound(faults.max_clock_skew_nanos)))
            }),
            r.rate == (if SkewDraw::rate_is_zero(faults.max_clock_skew_rate_bits) {
                None
            } else {
                Some(SkewDraw::after_offset(*faults, *old(stream)).below(1_000_001))
            }),
            *final(stream) == (if SkewDraw::rate_is_zero(faults.max_clock_skew_rate_bits) {
                SkewDraw::after_offset(*faults, *old(stream))
            } else {
                SkewDraw::after_offset(*faults, *old(stream)).advanced()
            }),
    {
        let offset = if faults.max_clock_skew_nanos == 0 {
            None
        } else {
            let span: u64 = faults.max_clock_skew_nanos;
            let doubled: u64 = span.saturating_add(span);
            Some(stream.next_below(doubled.saturating_add(1)))
        };
        let bits: u64 = faults.max_clock_skew_rate_bits;
        let rate = if bits == 0 || bits == NEGATIVE_ZERO_BITS {
            None
        } else {
            Some(stream.next_below(RATE_RESOLUTION + 1))
        };
        SkewDraw { offset, rate }
    }
}

/// The virtual clock of a run.
#[derive(Debug)]
pub struct SimClock {
    pub now: VirtualInstant,
    pub active: Option<(NodeId, GroupKey)>,
    pub election: SplitMix64,
    pub generations: KeyedMap<TimerId, u64>,
    pub pending: Vec<ArmedTimer>,
}

/// The delay of a timer of `kind` with base `base`, drawn from `election`.
pub open spec fn drawn_delay(kind: TimerKind, base: u64, election: SplitMix64) -> VirtualDuration {
    match kind {
        TimerKind::Heartbeat => VirtualDuration(base),
        TimerKind::Election => VirtualDuration(scheduler::capped(base + election.below(base))),
    }
}

/// The election stream after that draw.
pub open spec fn after_delay(kind: TimerKind, base: u64, election: SplitMix64) -> SplitMix64 {
    match kind {
        TimerKind::Heartbeat => election,
        TimerKind::Election => election.advanced_below(base),
    }
}

impl SimClock {
    pub open spec fn wf(self) -> bool {
        self.generations.wf()
    }

    /// The generation of a timer's latest arming; 0 where it was never armed.
    pub open spec fn generation(self, id: TimerView) -> u64 {
        if self.generations@.contains_key(id) {
            self.generations@[id]
        } else {
            0
        }
    }

    pub fn new(election: SplitMix64) -> (r: Self)
        ensures
            r.wf(),
            r.now == VirtualInstant(0),
            r.active is None,
            r.election == election,
            r.generations@ == Map::<TimerView, u64>::empty(),
            r.pending@.len() == 0,
    {
        SimClock {
            now: VirtualInstant::origin(),
            active: None,
            election,
            generations: KeyedMap::new(),
            pending: Vec::new(),
        }
    }

    pub fn set_now(&mut self, now: VirtualInstant)
        ensures
            *final(self) == (SimClock { now, ..*old(self) }),
    {
        self.now = now;
    }

    pub fn virtual_now(&self) -> (r: VirtualInstant)
        ensures
            r == self.now,
    {
        self.now
    }

    /// Let the timers armed from here on be those of `node` in `group`.
    pub fn set_active(&mut self, node: NodeId, group: GroupKey)
        ensures
            *final(self) == (SimClock { active: Some((node, group)), ..*old(self) }),
    {
        self.active = Some((node, group));
    }

    pub fn clear_active(&mut self)
        ensures
            *final(self) == (SimClock { active: None, ..*old(self) }),
    {
        self.active = None;
    }

    /// Whether `generation` is that of the timer's latest arming.
    pub fn is_current(
        &self,
        node: &NodeId,
        group: &GroupKey,
        kind: TimerKind,
        generation: u64,
    ) -> (r: bool)
        requires
            self.wf(),
        ensures
            r == (self.generation(((node@, group@), kind)) == generation),
    {
        let key = ((node.clone(), model::clone_group(group)), kind);
        match self.generations.get(&key) {
            Some(latest) => *latest == generation,
            None => generation == 0,
        }
    }

    /// Hand over the timers armed so far, in the order of their arming.
    pub fn drain_armed(&mut self) -> (r: Vec<ArmedTimer>)
        ensures
            r == old(self).pending,
            final(self).pending@.len() == 0,
            *final(self) == (SimClock { pending: final(self).pending, ..*old(self) }),
    {
        let mut taken: Vec<ArmedTimer> = Vec::new();
        std::mem::swap(&mut taken, &mut self.pending);
        taken
    }

    pub fn pending_armed(&self) -> (r: usize)
        ensures
            r == self.pending@.len(),
    {
        self.pending.len()
    }

    fn bump_generation(&mut self, node: &NodeId, group: &GroupKey, kind: TimerKind) -> (r: u64)
        requires
            old(self).wf(),
            old(self).generation(((node@, group@), kind)) < u64::MAX,
        ensures
            final(self).wf(),
            r == old(self).generation(((node@, group@), kind)) + 1,
            final(self).generations@ == old(self).generations@.insert(((node@, group@), kind), r),
            *final(self) == (SimClock { generations: final(self).generations, ..*old(self) }),
    {
        let key = ((node.clone(), model::clone_group(group)), kind);
        let latest: u64 = match self.generations.get(&key) {
            Some(latest) => *latest,
            None => 0,
        };
        let next: u64 = latest + 1;
        self.generations.insert(key, next);
        next
    }

    fn delay_for(&mut self, kind: TimerKind, base_nanos: u64) -> (r: VirtualDuration)
        ensures
            r == drawn_delay(kind, base_nanos, old(self).election),
            *final(self) == (SimClock {
                election: after_delay(kind, base_nanos, old(self).election),
                ..*old(self)
            }),
    {
        match kind {
            TimerKind::Heartbeat => VirtualDuration::from_nanos(base_nanos),
            TimerKind::Election => {
                let jitter: u64 = self.election.next_below(base_nanos);
                VirtualDuration::from_nanos(base_nanos.saturating_add(jitter))
            },
        }
    }

    /// The identity of a timer of the active replica.
    pub open spec fn active_timer(self, kind: TimerKind) -> TimerView {
        (((self.active->0).0@, (self.active->0).1@), kind)
    }

    /// Whether every timer can be armed once more.
    pub open spec fn all_armable(self) -> bool {
        forall|id: TimerView| #[trigger] self.generation(id) < u64::MAX
    }

    /// Whether every timer can be armed once more.
    pub fn can_arm_all(&self) -> (r: bool)
        requires
            self.wf(),
        ensures
            r == self.all_armable(),
    {
        let mut i: usize = 0;
        proof {
            self.generations.lemma_items();
        }
        while i < self.generations.len()
            invariant
                i <= self.generations.items().len(),
                self.wf(),
                forall|j: int|
                    0 <= j < self.generations.items().len() ==> self.generations@.contains_key(
                        (#[trigger] self.generations.items()[j]).0@,
                    ) && self.generations@[self.generations.items()[j].0@]
                        == self.generations.items()[j].1,
                forall|j: int|
                    0 <= j < i ==> (#[trigger] self.generations.items()[j]).1 < u64::MAX,
            decreases self.generations.items().len() - i,
        {
            if self.generations.entry(i).1 == u64::MAX {
                proof {
                    let id = self.generations.items()[i as int].0@;
                    assert(self.generation(id) == u64::MAX);
                }
                return false;
            }
            i += 1;
        }
        proof {
            assert forall|id: TimerView| #[trigger] self.generation(id) < u64::MAX by {
                if self.generations@.contains_key(id) {
                    let j = choose|j: int|
                        0 <= j < self.generations.items().len() && (
                        #[trigger] self.generations.items()[j]).0@ == id;
                    assert(self.generations.items()[j].1 < u64::MAX);
                }
            }
        }
        true
    }

    /// Whether the active replica's timer of `kind` can be armed once more.
    pub open spec fn can_arm(self, kind: TimerKind) -> bool {
        self.active is Some && self.generation(self.active_timer(kind)) < u64::MAX
    }

    /// `after` is this clock once the active replica armed its timer of `kind` to fire at
    /// `at`.
    pub open spec fn armed_to(
        self,
        after: SimClock,
        kind: TimerKind,
        base_nanos: u64,
        at: VirtualInstant,
    ) -> bool {
        let timer = ArmedTimer { at, ..self.armed(kind, base_nanos) };
        &&& after.now == self.now
        &&& after.active == self.active
        &&& after.election == after_delay(kind, base_nanos, self.election)
        &&& after.generations@ == self.generations@.insert(
            self.active_timer(kind),
            timer.generation,
        )
        &&& after.pending@ == self.pending@.push(timer)
    }

    /// `after` is this clock once the arming of the active replica's timer of `kind` has
    /// begun: the delay is drawn and the generation given, as `request` says.
    pub open spec fn begun_to(
        self,
        after: SimClock,
        request: ArmRequest,
        kind: TimerKind,
        base_nanos: u64,
    ) -> bool {
        &&& request.node == (self.active->0).0
        &&& request.group == (self.active->0).1
        &&& request.kind == kind
        &&& request.delay == drawn_delay(kind, base_nanos, self.election)
        &&& request.generation == self.generation(self.active_timer(kind)) + 1
        &&& after.generations@ == self.generations@.insert(
            self.active_timer(kind),
            request.generation,
        )
        &&& after == (SimClock {
            election: after_delay(kind, base_nanos, self.election),
            generations: after.generations,
            ..self
        })
    }

    /// `after` is this clock once the timer of `request` was set to fire at `at`.
    pub open spec fn ended_to(self, after: SimClock, request: ArmRequest, at: VirtualInstant) -> bool {
        &&& after.pending@ == self.pending@.push(
            ArmedTimer {
                at,
                node: request.node,
                group: request.group,
                kind: request.kind,
                generation: request.generation,
            },
        )
        &&& after == (SimClock { pending: after.pending, ..self })
    }

    /// Draw the delay of the active replica's timer and give it its generation. The
    /// draw comes first and does not depend on how the instant is then computed.
    pub fn begin_arm(&mut self, kind: TimerKind, base_nanos: u64) -> (r: ArmRequest)
        requires
            old(self).wf(),
            old(self).can_arm(kind),
        ensures
            final(self).wf(),
            old(self).begun_to(*final(self), r, kind, base_nanos),
    {
        let (node, group) = match &self.active {
            Some((n, g)) => (n.clone(), model::clone_group(g)),
            None => {
                assert(false);
                (NodeId::new(""), model::metadata_group_key())
            },
        };
        let delay = self.delay_for(kind, base_nanos);
        let generation = self.bump_generation(&node, &group, kind);
        ArmRequest { node, group, kind, generation, delay }
    }

    /// Let a timer fire at `at`.
    pub fn finish_arm(&mut self, request: ArmRequest, at: VirtualInstant)
        ensures
            old(self).ended_to(*final(self), request, at),
    {
        self.pending.push(
            ArmedTimer {
                at,
                node: request.node,
                group: request.group,
                kind: request.kind,
                generation: request.generation,
            },
        );
    }

    /// The timer that arming makes on a clock that runs true.
    pub open spec fn armed(self, kind: TimerKind, base_nanos: u64) -> ArmedTimer {
        ArmedTimer {
            at: self.now.plus(drawn_delay(kind, base_nanos, self.election)),
            node: (self.active->0).0,
            group: (self.active->0).1,
            kind,
            generation: (self.generation(self.active_timer(kind)) + 1) as u64,
        }
    }

    /// Arm the active replica's timer of `kind`, on a clock that runs true.
    pub fn arm(&mut self, kind: TimerKind, base_nanos: u64)
        requires
            old(self).wf(),
            old(self).can_arm(kind),
        ensures
            final(self).wf(),
            old(self).armed_to(
                *final(self),
                kind,
                base_nanos,
                old(self).armed(kind, base_nanos).at,
            ),
    {
        let request = self.begin_arm(kind, base_nanos);
        let at = self.now.saturating_add(request.delay);
        self.finish_arm(request, at);
    }
}

/// Arming in two steps, with the instant computed in between, is arming.
pub proof fn law_two_steps_arm(
    before: SimClock,
    mid: SimClock,
    after: SimClock,
    request: ArmRequest,
    kind: TimerKind,
    base_nanos: u64,
    at: VirtualInstant,
)
    requires
        before.begun_to(mid, request, kind, base_nanos),
        mid.ended_to(after, request, at),
    ensures
        before.armed_to(after, kind, base_nanos, at),
{
}

/// After an arming, its generation is the current one, no earlier one is, and every
/// other timer keeps the generation it had.
pub proof fn law_rearm_supersedes(
    before: SimClock,
    after: SimClock,
    kind: TimerKind,
    base_nanos: u64,
    at: VirtualInstant,
    stale: u64,
    other: TimerView,
)
    requires
        before.can_arm(kind),
        before.armed_to(after, kind, base_nanos, at),
    ensures
        after.generation(before.active_timer(kind)) == before.generation(
            before.active_timer(kind),
        ) + 1,
        stale <= before.generation(before.active_timer(kind)) ==> after.generation(
            before.active_timer(kind),
        ) != stale,
        other != before.active_timer(kind) ==> after.generation(other) == before.generation(other),
{
}

/// An election timer waits at least its base and less than twice its base; the
/// election stream moves by one draw.
pub proof fn law_election_delay_range(base: u64, election: SplitMix64)
    requires
        base > 0,
        2 * base <= u64::MAX,
    ensures
        base <= drawn_delay(TimerKind::Election, base, election).0 < 2 * base,
        after_delay(TimerKind::Election, base, election) == election.advanced(),
{
    assert(election.word() % base < base);
}

/// A heartbeat timer waits exactly its base, and never moves the election stream.
pub proof fn law_heartbeat_is_exact(base: u64, election: SplitMix64)
    ensures
        drawn_delay(TimerKind::Heartbeat, base, election).0 == base,
        after_delay(TimerKind::Heartbeat, base, election) == election,
{
}

/// An election timer waits its base and, on top, the next word of its stream modulo the
/// base; any other waits its base and draws nothing.
pub proof fn law_election_timers_are_jittered(base: u64, election: SplitMix64)
    requires
        2 * base <= u64::MAX,
    ensures
        base > 0 ==> drawn_delay(TimerKind::Election, base, election).0 == base + (
        election.word() as int) % (base as int),
        base > 0 ==> after_delay(TimerKind::Election, base, election) == election.advanced(),
        drawn_delay(TimerKind::Heartbeat, base, election).0 == base,
        after_delay(TimerKind::Heartbeat, base, election) == election,
{
    if base > 0 {
        assert((election.word() as int) % (base as int) < base);
    }
}

/// A timer is armed for the active replica, behind those armed before it, to fire once at
/// the instant given; it is of the generation after that replica's last of its kind, or
/// of the first. No other replica's timers are touched.
pub proof fn law_timers_are_armed_for_the_active_replica(
    before: SimClock,
    after: SimClock,
    kind: TimerKind,
    base_nanos: u64,
    at: VirtualInstant,
)
    requires
        before.can_arm(kind),
        before.armed_to(after, kind, base_nanos, at),
    ensures
        ({
            let node = (before.active->0).0;
            let group = (before.active->0).1;
            let id = ((node.0@, (group.0@, group.1)), kind);
            let timer = after.pending@.last();
            &&& after.pending@.len() == before.pending@.len() + 1
            &&& after.pending@.drop_last() == before.pending@
            &&& timer.at.0 == at.0
            &&& timer.node == node
            &&& timer.group == group
            &&& timer.kind == kind
            &&& !before.generations@.contains_key(id) ==> timer.generation == 1
            &&& before.generations@.contains_key(id) ==> timer.generation
                == before.generations@[id] + 1
            &&& after.generations@ == before.generations@.insert(id, timer.generation)
            &&& after.now == before.now
            &&& after.active == before.active
        }),
{
    assert(after.pending@.drop_last() =~= before.pending@);
}

/// On a clock that runs true, a timer fires its delay after now.
pub proof fn law_true_clocks_wait_the_delay(clock: SimClock, kind: TimerKind, base_nanos: u64)
    requires
        clock.now.0 + drawn_delay(kind, base_nanos, clock.election).0 <= u64::MAX,
    ensures
        clock.armed(kind, base_nanos).at.0 - clock.now.0 == drawn_delay(
            kind,
            base_nanos,
            clock.election,
        ).0,
{
}

/// An armed timer becomes an event for its own replica, kind and generation.
pub proof fn law_armed_timers_fire_for_their_replica<M>(timer: ArmedTimer)
    ensures
        timer.event::<M>() is TimerFire,
        timer.event::<M>()->TimerFire_node == timer.node,
        timer.event::<M>()->TimerFire_group == timer.group,
        timer.event::<M>()->TimerFire_kind == timer.kind,
        timer.event::<M>()->TimerFire_generation == timer.generation,
{
}

/// A skew is drawn around zero: where offsets are on, of the values up to twice the
/// greatest offset each by a word, so that less the greatest it lies between that and its
/// opposite.
pub proof fn law_offsets_are_drawn_around_zero(max: u64, stream: SplitMix64)
    requires
        2 * max + 1 <= u64::MAX,
    ensures
        SkewDraw::offset_bound(max) == 2 * max + 1,
        stream.below(SkewDraw::offset_bound(max)) as int == (stream.word() as int) % (2 * max + 1),
        -max <= stream.below(SkewDraw::offset_bound(max)) - max <= max,
        SkewDraw::rate_is_zero(0),
{
}

/// A bound on the rate is zero exactly where nothing but its sign is set, and an offset
/// draws one word exactly where its bound is not zero.
pub proof fn law_zero_bounds_draw_nothing(
    bits: u64,
    faults: FaultIntensities,
    stream: SplitMix64,
)
    ensures
        SkewDraw::rate_is_zero(bits) <==> bits % 0x8000_0000_0000_0000 == 0,
        faults.max_clock_skew_nanos == 0 ==> SkewDraw::after_offset(faults, stream) == stream,
        faults.max_clock_skew_nanos > 0 ==> SkewDraw::after_offset(faults, stream)
            == stream.advanced_by(1),
{
    reveal_with_fuel(SplitMix64::advanced_by, 2);
}

} // verus!
