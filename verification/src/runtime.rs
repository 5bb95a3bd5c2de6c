//! The run itself: what each event does, which replica steps it asks for, and how the
//! checkers follow along.
//!
//! The replicas' consensus code runs outside. [`SimRuntime::dispatch_event`] says what
//! has to be done for an event; what came of it is handed to
//! [`SimRuntime::committed_commands`] and [`SimRuntime::finish_output`], and
//! [`SimRuntime::after_event`] then runs the checks of that event.

use crate::checker::{kafka_parity, PropertyId, Violation};
use crate::client::{self, Pending};
use crate::clock::{ArmedTimer, SimClock};
use crate::cluster::{SimNode, SimulatedCluster};
use crate::history::{self, History, OpResponse, RecordedOp, RecordedOpView};
use crate::keyed::KeyedMap;
use crate::model::{EntryPayload, GroupKey, GroupView, NodeId, RaftNodeId, TimerKind};
use crate::network::{Envelope, SimNetwork, SimTransport};
use crate::scenario::Budget;
use crate::scheduler::{Event, Scheduler, VirtualInstant};
use crate::workload::Workload;
use vstd::prelude::*;

verus! {

/// When the first client operation is issued.
pub const CLIENT_OP_START_NANOS: u64 = 400_000_000;

/// The time from one client operation to the next.
pub const CLIENT_OP_INTERVAL_NANOS: u64 = 20_000_000;

/// How long a favorable group may take to converge.
pub const LIVENESS_BUDGET_SECS: u64 = 5;

/// Whole logs are checked whenever this many events have passed.
pub const CHECK_LOGS_INTERVAL: u64 = 2_000;

pub const CRASH_AT_NANOS: u64 = 1_000_000_000;

pub const RESTART_AT_NANOS: u64 = 2_000_000_000;

pub const PARTITION_AT_NANOS: u64 = 3_000_000_000;

pub const PARTITION_HEAL_AT_NANOS: u64 = 4_000_000_000;

/// The name of the scheduled partition.
pub const PARTITION_HEAL_ID: u64 = 1;

/// How a run ended.
#[derive(Debug, PartialEq, Eq)]
pub enum Outcome {
    Passed,
    Failed { property: PropertyId, at: VirtualInstant, detail: String },
    Invalid { detail: String },
}

impl Clone for Outcome {
    fn clone(&self) -> (r: Self)
        ensures
            r == *self,
    {
        match self {
            Outcome::Passed => Outcome::Passed,
            Outcome::Failed { property, at, detail } => Outcome::Failed {
                property: *property,
                at: *at,
                detail: detail.clone(),
            },
            Outcome::Invalid { detail } => Outcome::Invalid { detail: detail.clone() },
        }
    }
}

impl From<Violation> for Outcome {
    fn from(v: Violation) -> (r: Self) {
        Outcome::Failed { property: v.property, at: v.at, detail: v.detail }
    }
}

impl vstd::std_specs::convert::FromSpecImpl<Violation> for Outcome {
    open spec fn obeys_from_spec() -> bool {
        true
    }

    open spec fn from_spec(v: Violation) -> Outcome {
        Outcome::Failed { property: v.property, at: v.at, detail: v.detail }
    }
}

/// What a replica is given to step on.
#[derive(Debug)]
pub enum ReplicaInput<M> {
    Tick(TimerKind),
    Message(M),
}

/// What has to be done outside for an event.
#[derive(Debug)]
pub enum Action<M> {
    /// Nothing.
    Idle,
    /// Step the replica of `group` on the node at `index`.
    Step { index: usize, group: GroupKey, input: ReplicaInput<M> },
    /// Propose `payload` to the replica of `group` on the node at `index`, and then
    /// hand `op` to [`SimRuntime::finish_proposal`].
    Propose { index: usize, group: GroupKey, payload: EntryPayload, op: Pending },
    /// Recover the nodes and restart them.
    Restart { nodes: Vec<usize> },
}

/// What the checkers have to know of an event.
#[derive(Debug)]
pub enum FaultNote {
    /// The event is no fault.
    Calm,
    Crash { nodes: Vec<usize> },
    Restart { nodes: Vec<usize> },
    /// Another fault was applied.
    Struck,
    /// A fault was healed.
    Healed,
}

/// A run under way.
#[derive(Debug)]
pub struct SimRuntime<M> {
    pub cluster: SimulatedCluster<M>,
    pub scheduler: Scheduler<M>,
    pub workload: Workload,
    pub history: History,
    pub pending: Vec<Pending>,
    /// The replicas whose first election timer was armed.
    pub seeded: KeyedMap<(NodeId, GroupKey), ()>,
    /// The topics deleted by commands that were committed since the last check.
    pub deleted_topics: Vec<String>,
}

/// What is scheduled: an event, and when it is asked for.
pub type Item<M> = (VirtualInstant, Event<M>);

/// `chain` leads from scheduler to scheduler by scheduling the items one by one.
pub open spec fn chained<M>(chain: Seq<Scheduler<M>>, items: Seq<Item<M>>) -> bool {
    &&& chain.len() == items.len() + 1
    &&& forall|i: int| 0 <= i < chain.len() ==> (#[trigger] chain[i]).wf()
    &&& forall|i: int|
        0 <= i < items.len() ==> #[trigger] chain[i].scheduled_to(
            chain[i + 1],
            items[i].0,
            items[i].1,
        )
}

/// `after` is `before` with the items scheduled in order.
pub open spec fn all_scheduled<M>(
    before: Scheduler<M>,
    after: Scheduler<M>,
    items: Seq<Item<M>>,
) -> bool {
    exists|chain: Seq<Scheduler<M>>| #[trigger]
        chained(chain, items) && chain[0] == before && chain.last() == after
}

/// Scheduling one item more.
pub proof fn lemma_schedule_next<M>(
    before: Scheduler<M>,
    mid: Scheduler<M>,
    after: Scheduler<M>,
    items: Seq<Item<M>>,
    at: VirtualInstant,
    event: Event<M>,
)
    requires
        all_scheduled(before, mid, items),
        mid.scheduled_to(after, at, event),
        after.wf(),
    ensures
        all_scheduled(before, after, items.push((at, event))),
{
    let chain = choose|chain: Seq<Scheduler<M>>| #[trigger]
        chained(chain, items) && chain[0] == before && chain.last() == mid;
    let longer = chain.push(after);
    let more = items.push((at, event));
    assert forall|i: int| 0 <= i < more.len() implies #[trigger] longer[i].scheduled_to(
        longer[i + 1],
        more[i].0,
        more[i].1,
    ) by {
        if i < items.len() {
            assert(chain[i].scheduled_to(chain[i + 1], items[i].0, items[i].1));
        }
    }
    assert(chained(longer, more));
}

pub proof fn lemma_schedule_none<M>(before: Scheduler<M>)
    requires
        before.wf(),
    ensures
        all_scheduled(before, before, Seq::<Item<M>>::empty()),
{
    let chain = seq![before];
    assert(chained(chain, Seq::<Item<M>>::empty()));
}

/// Scheduling leaves the present, the events fired and the budget alone, and numbers
/// one event per item.
pub proof fn law_scheduling_is_not_firing<M>(
    before: Scheduler<M>,
    after: Scheduler<M>,
    items: Seq<Item<M>>,
)
    requires
        all_scheduled(before, after, items),
    ensures
        after.time() == before.time(),
        after.fired() == before.fired(),
        after.limits() == before.limits(),
        after.scheduled_count() == before.scheduled_count() + items.len(),
        after.pending().len() == before.pending().len() + items.len(),
{
    let chain = choose|chain: Seq<Scheduler<M>>| #[trigger]
        chained(chain, items) && chain[0] == before && chain.last() == after;
    lemma_chain(chain, items, items.len());
}

proof fn lemma_chain<M>(chain: Seq<Scheduler<M>>, items: Seq<Item<M>>, n: nat)
    requires
        chained(chain, items),
        n <= items.len(),
    ensures
        chain[n as int].time() == chain[0].time(),
        chain[n as int].fired() == chain[0].fired(),
        chain[n as int].limits() == chain[0].limits(),
        chain[n as int].scheduled_count() == chain[0].scheduled_count() + n,
        chain[n as int].pending().len() == chain[0].pending().len() + n,
    decreases n,
{
    if n > 0 {
        lemma_chain(chain, items, (n - 1) as nat);
        let i = n - 1;
        assert(chain[i].scheduled_to(chain[i + 1], items[i].0, items[i].1));
    }
}

/// The events of armed timers.
pub open spec fn timer_items<M>(armed: Seq<ArmedTimer>) -> Seq<Item<M>> {
    Seq::new(armed.len(), |i: int| (armed[i].at, armed[i].event::<M>()))
}

/// The events of deliveries.
pub open spec fn delivery_items<M>(pending: Seq<(VirtualInstant, Envelope<M>)>) -> Seq<Item<M>> {
    Seq::new(pending.len(), |i: int| (pending[i].0, Event::MessageDeliver(pending[i].1)))
}

/// `after` is `before` once `msg` was sent through `t`.
pub open spec fn sent_one<M: Clone>(
    before: SimNetwork<M>,
    after: SimNetwork<M>,
    t: SimTransport,
    to: RaftNodeId,
    msg: M,
) -> bool {
    if t.peers@.contains_key(to) {
        before.enqueued_to(after, t.addressed(to, msg))
    } else {
        after == before
    }
}

/// `chain` leads from network to network by sending the messages one by one.
pub open spec fn sends_chained<M: Clone>(
    chain: Seq<SimNetwork<M>>,
    t: SimTransport,
    sends: Seq<(RaftNodeId, M)>,
) -> bool {
    &&& chain.len() == sends.len() + 1
    &&& forall|i: int|
        0 <= i < sends.len() ==> #[trigger] sent_one(
            chain[i],
            chain[i + 1],
            t,
            sends[i].0,
            sends[i].1,
        )
}

/// `after` is `before` once the messages were sent through `t` in order.
pub open spec fn all_sent<M: Clone>(
    before: SimNetwork<M>,
    after: SimNetwork<M>,
    t: SimTransport,
    sends: Seq<(RaftNodeId, M)>,
) -> bool {
    exists|chain: Seq<SimNetwork<M>>| #[trigger]
        sends_chained(chain, t, sends) && chain[0] == before && chain.last() == after
}

/// `after` is `before` once the messages were sent through `t` in order; without a
/// sending end nothing is sent.
pub open spec fn sent_from<M: Clone>(
    before: SimNetwork<M>,
    after: SimNetwork<M>,
    t: Option<SimTransport>,
    sends: Seq<(RaftNodeId, M)>,
) -> bool {
    match t {
        Some(t) => all_sent(before, after, t, sends),
        None => after == before,
    }
}

/// The pending operations of the first `n` that stay pending.
pub open spec fn still_pending(
    nodes: Seq<SimNode>,
    ops: Seq<Pending>,
    now: VirtualInstant,
    n: nat,
) -> Seq<Pending>
    decreases n,
{
    if n == 0 {
        Seq::empty()
    } else {
        let rest = still_pending(nodes, ops, now, (n - 1) as nat);
        if client::settlement(nodes, ops[n - 1], now) is None {
            rest.push(ops[n - 1])
        } else {
            rest
        }
    }
}

/// What is recorded of the first `n` pending operations.
pub open spec fn settled(
    nodes: Seq<SimNode>,
    ops: Seq<Pending>,
    now: VirtualInstant,
    n: nat,
) -> Seq<RecordedOpView>
    decreases n,
{
    if n == 0 {
        Seq::empty()
    } else {
        let rest = settled(nodes, ops, now, (n - 1) as nat);
        match client::settlement(nodes, ops[n - 1], now) {
            Some(view) => rest.push(view),
            None => rest,
        }
    }
}

/// What is recorded of an operation that never committed.
pub open spec fn abandoned(p: Pending, now: VirtualInstant) -> RecordedOpView {
    RecordedOpView {
        kind: p.args.op_kind(),
        args: p.args@,
        invoked_at: p.invoked_at,
        responded_at: now,
        response: history::OpResponseView::Error {
            message: "operation did not commit within the run budget"@,
        },
    }
}

/// What is recorded of operations that never committed.
pub open spec fn all_abandoned(ops: Seq<Pending>, now: VirtualInstant) -> Seq<RecordedOpView> {
    Seq::new(ops.len(), |i: int| abandoned(ops[i], now))
}

impl<M> SimRuntime<M> {
    pub open spec fn wf(self) -> bool {
        &&& self.cluster.wf()
        &&& self.scheduler.wf()
        &&& self.seeded.wf()
        &&& forall|i: int| 0 <= i < self.pending@.len() ==> (#[trigger] self.pending@[i]).wf()
        &&& kafka_parity::consumes_fit(self.history.ops@)
    }

    /// Whether the run's records fit its clock: the history is in the order of
    /// invocations with every answer given by now, and what is pending was invoked by
    /// now.
    pub open spec fn timely(self) -> bool {
        &&& history::timely(history::op_views(self.history.ops@), self.scheduler.time())
        &&& forall|i: int|
            0 <= i < self.pending@.len() ==> (#[trigger] self.pending@[i]).invoked_at.0
                <= self.scheduler.time().0
    }

    /// Whether this is a run over `cluster` in which nothing has happened.
    pub open spec fn is_new(self, cluster: SimulatedCluster<M>, budget: Budget) -> bool {
        &&& self.cluster == cluster
        &&& self.scheduler.time() == VirtualInstant(0)
        &&& self.scheduler.pending().len() == 0
        &&& self.scheduler.scheduled_count() == 0
        &&& self.scheduler.fired() == 0
        &&& self.scheduler.limits() == budget
        &&& self.scheduler.ties() == cluster.tiebreak_stream
        &&& self.history.ops@.len() == 0
        &&& self.pending@.len() == 0
        &&& self.seeded@ == Map::<(Seq<char>, GroupView), ()>::empty()
        &&& self.deleted_topics@.len() == 0
    }

    pub fn new(cluster: SimulatedCluster<M>, budget: Budget) -> (r: Self)
        requires
            cluster.wf(),
        ensures
            r.wf(),
            r.is_new(cluster, budget),
            r.workload.ops@.len() == 0,
    {
        let scheduler = Scheduler::new(budget, cluster.tiebreak_stream());
        SimRuntime {
            cluster,
            scheduler,
            workload: Workload::default(),
            history: History::new(),
            pending: Vec::new(),
            seeded: KeyedMap::new(),
            deleted_topics: Vec::new(),
        }
    }

    pub fn cluster(&self) -> (r: &SimulatedCluster<M>)
        ensures
            *r == self.cluster,
    {
        &self.cluster
    }

    pub fn cluster_mut(&mut self) -> (r: &mut SimulatedCluster<M>)
        ensures
            *r == old(self).cluster,
            *final(self) == (SimRuntime { cluster: *final(r), ..*old(self) }),
    {
        &mut self.cluster
    }

    pub fn history(&self) -> (r: &History)
        ensures
            *r == self.history,
    {
        &self.history
    }

    pub fn scheduler(&self) -> (r: &Scheduler<M>)
        ensures
            *r == self.scheduler,
    {
        &self.scheduler
    }

    pub fn scheduler_mut(&mut self) -> (r: &mut Scheduler<M>)
        ensures
            *r == old(self).scheduler,
            *final(self) == (SimRuntime { scheduler: *final(r), ..*old(self) }),
    {
        &mut self.scheduler
    }

    /// `after` differs from this run at most in its cluster's clock and network and in
    /// its scheduler.
    pub open spec fn same_records(self, after: SimRuntime<M>) -> bool {
        &&& after.workload == self.workload
        &&& after.history == self.history
        &&& after.pending == self.pending
        &&& after.seeded == self.seeded
        &&& after.deleted_topics == self.deleted_topics
    }

    /// Schedule the timers armed so far.
    pub(crate) fn schedule_armed(&mut self)
        requires
            old(self).wf(),
            old(self).scheduler.has_room(old(self).cluster.clock.pending@.len() as int),
        ensures
            final(self).wf(),
            old(self).same_records(*final(self)),
            final(self).cluster.clock.pending@.len() == 0,
            final(self).cluster == (SimulatedCluster {
                clock: SimClock {
                    pending: final(self).cluster.clock.pending,
                    ..old(self).cluster.clock
                },
                ..old(self).cluster
            }),
            all_scheduled(
                old(self).scheduler,
                final(self).scheduler,
                timer_items(old(self).cluster.clock.pending@),
            ),
    {
        let armed = self.cluster.clock.drain_armed();
        let ghost start = self.scheduler;
        let ghost items = timer_items::<M>(armed@);
        let ghost mid = *self;
        proof {
            lemma_schedule_none(start);
        }
        assert(items.take(0) =~= Seq::empty());
        let mut i: usize = 0;
        while i < armed.len()
            invariant
                i <= armed@.len(),
                items == timer_items::<M>(armed@),
                start == old(self).scheduler,
                armed == old(self).cluster.clock.pending,
                self.scheduler.wf(),
                self.scheduler.scheduled_count() == start.scheduled_count() + i,
                start.has_room(armed@.len() as int),
                all_scheduled(start, self.scheduler, items.take(i as int)),
                self.cluster == mid.cluster,
                mid.same_records(*self),
                mid.cluster.wf(),
            decreases armed@.len() - i,
        {
            let ghost before = self.scheduler;
            let at = armed[i].at;
            let event = armed[i].to_event();
            self.scheduler.schedule(at, event);
            proof {
                lemma_schedule_next(start, before, self.scheduler, items.take(i as int), at, event);
                assert(items.take(i + 1) =~= items.take(i as int).push((at, event)));
            }
            i += 1;
        }
        assert(items.take(i as int) =~= items);
    }

    /// Schedule the deliveries decided so far.
    pub(crate) fn schedule_deliveries(&mut self)
        requires
            old(self).wf(),
            old(self).scheduler.has_room(old(self).cluster.network.pending@.len() as int),
        ensures
            final(self).wf(),
            old(self).same_records(*final(self)),
            final(self).cluster.network.pending@.len() == 0,
            final(self).cluster == (SimulatedCluster {
                network: SimNetwork {
                    pending: final(self).cluster.network.pending,
                    ..old(self).cluster.network
                },
                ..old(self).cluster
            }),
            all_scheduled(
                old(self).scheduler,
                final(self).scheduler,
                delivery_items(old(self).cluster.network.pending@),
            ),
    {
        let mut rest = self.cluster.network.drain_pending();
        let ghost all = rest@;
        let n: usize = rest.len();
        let ghost start = self.scheduler;
        let ghost items = delivery_items::<M>(all);
        let ghost mid = *self;
        proof {
            lemma_schedule_none(start);
        }
        assert(items.take(0) =~= Seq::empty());
        assert(all.skip(0) =~= all);
        let mut i: usize = 0;
        while i < n
            invariant
                i <= n,
                n == all.len(),
                rest@ == all.skip(i as int),
                items == delivery_items::<M>(all),
                start == old(self).scheduler,
                self.scheduler.wf(),
                self.scheduler.scheduled_count() == start.scheduled_count() + i,
                start.has_room(n as int),
                all_scheduled(start, self.scheduler, items.take(i as int)),
                self.cluster == mid.cluster,
                mid.same_records(*self),
                mid.cluster.wf(),
            decreases n - i,
        {
            let ghost before = self.scheduler;
            let (at, envelope) = rest.remove(0);
            assert((at, envelope) == all[i as int]);
            assert(rest@ =~= all.skip(i + 1));
            self.scheduler.schedule(at, Event::MessageDeliver(envelope));
            proof {
                lemma_schedule_next(
                    start,
                    before,
                    self.scheduler,
                    items.take(i as int),
                    at,
                    Event::MessageDeliver(envelope),
                );
                assert(items.take(i + 1) =~= items.take(i as int).push(
                    (at, Event::MessageDeliver(envelope)),
                ));
            }
            i += 1;
        }
        assert(items.take(i as int) =~= items);
    }

    /// Record the answers of the pending operations whose target index is committed.
    pub fn resolve_pending(&mut self)
        requires
            old(self).wf(),
        ensures
            final(self).wf(),
            old(self).timely() ==> final(self).timely(),
            final(self).cluster == old(self).cluster,
            final(self).scheduler == old(self).scheduler,
            final(self).workload == old(self).workload,
            final(self).seeded == old(self).seeded,
            final(self).deleted_topics == old(self).deleted_topics,
            final(self).pending@ == still_pending(
                old(self).cluster.nodes@,
                old(self).pending@,
                old(self).scheduler.time(),
                old(self).pending@.len(),
            ),
            history::op_views(final(self).history.ops@) == history::all_placed(
                history::op_views(old(self).history.ops@),
                settled(
                    old(self).cluster.nodes@,
                    old(self).pending@,
                    old(self).scheduler.time(),
                    old(self).pending@.len(),
                ),
            ),
    {
        let now = self.scheduler.now();
        let mut rest: Vec<Pending> = Vec::new();
        std::mem::swap(&mut rest, &mut self.pending);
        let ghost all = rest@;
        let ghost nodes = self.cluster.nodes@;
        let ghost past = history::op_views(self.history.ops@);
        let mut kept: Vec<Pending> = Vec::new();
        let n: usize = rest.len();
        let mut i: usize = 0;
        assert(all.skip(0) =~= all);
        while i < n
            invariant
                i <= n,
                n == all.len(),
                rest@ == all.skip(i as int),
                all == old(self).pending@,
                forall|k: int| 0 <= k < all.len() ==> (#[trigger] all[k]).wf(),
                forall|k: int| 0 <= k < kept@.len() ==> (#[trigger] kept@[k]).wf(),
                self.cluster == old(self).cluster,
                self.cluster.wf(),
                self.scheduler == old(self).scheduler,
                self.workload == old(self).workload,
                self.seeded == old(self).seeded,
                self.deleted_topics == old(self).deleted_topics,
                nodes == self.cluster.nodes@,
                now == self.scheduler.time(),
                kafka_parity::consumes_fit(self.history.ops@),
                kept@ == still_pending(nodes, all, now, i as nat),
                history::op_views(self.history.ops@) == history::all_placed(
                    past,
                    settled(nodes, all, now, i as nat),
                ),
            decreases n - i,
        {
            let op = rest.remove(0);
            assert(op == all[i as int]);
            assert(rest@ =~= all.skip(i + 1));
            match client::settle(&self.cluster, &mut self.history, op, now) {
                Some(op) => {
                    kept.push(op);
                },
                None => {
                    proof {
                        let view = client::settlement(nodes, all[i as int], now)->0;
                        let answered = settled(nodes, all, now, i as nat);
                        assert(answered.push(view).drop_last() =~= answered);
                    }
                },
            }
            i += 1;
        }
        self.pending = kept;
        proof {
            if old(self).timely() {
                lemma_settled_in_time(nodes, all, now, n as nat);
                history::law_all_placed_keeps_order(past, settled(nodes, all, now, n as nat), now);
            }
        }
    }

    /// Record that no pending operation committed in time.
    pub fn flush_pending(&mut self)
        requires
            old(self).wf(),
        ensures
            final(self).wf(),
            old(self).timely() ==> final(self).timely(),
            final(self).cluster == old(self).cluster,
            final(self).scheduler == old(self).scheduler,
            final(self).workload == old(self).workload,
            final(self).seeded == old(self).seeded,
            final(self).deleted_topics == old(self).deleted_topics,
            final(self).pending@.len() == 0,
            history::op_views(final(self).history.ops@) == history::all_placed(
                history::op_views(old(self).history.ops@),
                all_abandoned(old(self).pending@, old(self).scheduler.time()),
            ),
    {
        let now = self.scheduler.now();
        let mut rest: Vec<Pending> = Vec::new();
        std::mem::swap(&mut rest, &mut self.pending);
        let ghost all = rest@;
        let ghost past = history::op_views(self.history.ops@);
        let ghost lost = all_abandoned(all, now);
        let n: usize = rest.len();
        let mut i: usize = 0;
        assert(all.skip(0) =~= all);
        while i < n
            invariant
                i <= n,
                n == all.len(),
                rest@ == all.skip(i as int),
                all == old(self).pending@,
                lost == all_abandoned(all, now),
                self.pending@.len() == 0,
                self.cluster == old(self).cluster,
                self.cluster.wf(),
                self.scheduler == old(self).scheduler,
                self.scheduler.wf(),
                self.workload == old(self).workload,
                self.seeded == old(self).seeded,
                self.seeded.wf(),
                self.deleted_topics == old(self).deleted_topics,
                now == self.scheduler.time(),
                kafka_parity::consumes_fit(self.history.ops@),
                history::op_views(self.history.ops@) == history::all_placed(
                    past,
                    lost.take(i as int),
                ),
            decreases n - i,
        {
            let op = rest.remove(0);
            assert(op == all[i as int]);
            assert(rest@ =~= all.skip(i + 1));
            let ghost before = self.history.ops@;
            let response = OpResponse::Error {
                message: "operation did not commit within the run budget".to_owned(),
            };
            let recorded = RecordedOp::new(op.args, op.invoked_at, now, response);
            self.history.place(recorded);
            proof {
                let views = history::op_views(before);
                history::lemma_place_is_within(views, recorded.invoked_at);
                kafka_parity::lemma_consumes_fit_with(
                    before,
                    history::place_of(views, recorded.invoked_at),
                    recorded,
                );
                assert(lost.take(i + 1).drop_last() =~= lost.take(i as int));
                assert(lost.take(i + 1).last() == abandoned(all[i as int], now));
                assert(recorded@ == abandoned(all[i as int], now));
            }
            i += 1;
        }
        assert(lost.take(i as int) =~= lost);
        proof {
            if old(self).timely() {
                history::law_all_placed_keeps_order(past, lost, now);
            }
        }
    }
}

/// Every answer to a pending operation is given now, to an operation invoked before.
pub proof fn lemma_settled_in_time(
    nodes: Seq<SimNode>,
    ops: Seq<Pending>,
    now: VirtualInstant,
    n: nat,
)
    requires
        n <= ops.len(),
        forall|i: int| 0 <= i < ops.len() ==> (#[trigger] ops[i]).invoked_at.0 <= now.0,
    ensures
        forall|i: int|
            0 <= i < settled(nodes, ops, now, n).len() ==> (#[trigger] settled(
                nodes,
                ops,
                now,
                n,
            )[i]).invoked_at.0 <= now.0 && settled(nodes, ops, now, n)[i].responded_at == now,
        forall|i: int|
            0 <= i < still_pending(nodes, ops, now, n).len() ==> (#[trigger] still_pending(
                nodes,
                ops,
                now,
                n,
            )[i]).invoked_at.0 <= now.0,
    decreases n,
{
    if n > 0 {
        lemma_settled_in_time(nodes, ops, now, (n - 1) as nat);
        assert(ops[n - 1].invoked_at.0 <= now.0);
    }
}

/// A history with one operation more has one view more.
pub proof fn lemma_gained_views(before: History, after: History, view: RecordedOpView)
    requires
        before.gained(after, view),
    ensures
        history::op_views(after.ops@) == history::op_views(before.ops@).push(view),
{
    let a = history::op_views(after.ops@);
    let b = history::op_views(before.ops@).push(view);
    assert forall|i: int| 0 <= i < a.len() implies a[i] == b[i] by {
        if i < before.ops@.len() {
            assert(after.ops@[i] == after.ops@.drop_last()[i]);
        } else {
            assert(after.ops@[i] == after.ops@.last());
        }
    }
    assert(a =~= b);
}

/// A history stays in order where an operation that is answered at once is appended.
pub proof fn lemma_gained_in_time(
    before: History,
    after: History,
    view: RecordedOpView,
    now: VirtualInstant,
)
    requires
        before.gained(after, view),
        history::timely(history::op_views(before.ops@), now),
        view.invoked_at == now,
        view.responded_at == now,
    ensures
        history::timely(history::op_views(after.ops@), now),
{
    let views = history::op_views(before.ops@);
    lemma_gained_views(before, after, view);
    history::law_the_newest_is_appended(views, view);
    history::law_placing_keeps_order(views, view, now);
}

/// Looking through the pending operations loses none and answers none twice: each of
/// them stays pending or is answered.
pub proof fn law_pending_is_kept_or_answered(
    nodes: Seq<SimNode>,
    ops: Seq<Pending>,
    now: VirtualInstant,
    n: nat,
)
    requires
        n <= ops.len(),
    ensures
        still_pending(nodes, ops, now, n).len() + settled(nodes, ops, now, n).len() == n,
    decreases n,
{
    if n > 0 {
        law_pending_is_kept_or_answered(nodes, ops, now, (n - 1) as nat);
    }
}

} // verus!
