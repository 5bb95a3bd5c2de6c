//! The simulated network: latency, loss, reordering, duplication, cuts and
//! crashed endpoints.
//!
//! Everything random is drawn from the network stream, in a fixed order, and only
//! where the fault in question is possible at all. A cut is decided without a
//! draw.

use crate::keyed::{Key, KeyedMap};
use crate::model::{self, GroupKey, NodeId, RaftNodeId};
use crate::rng::{self, Probability, SplitMix64};
use crate::scenario::FaultIntensities;
use crate::scheduler::{HealId, VirtualDuration, VirtualInstant};
use vstd::prelude::*;

verus! {

/// A message in flight.
#[derive(Debug)]
pub struct Envelope<M> {
    pub from: NodeId,
    pub to: NodeId,
    pub to_raft: RaftNodeId,
    pub group: GroupKey,
    pub msg: M,
}

impl<M: Clone> Clone for Envelope<M> {
    fn clone(&self) -> (r: Self)
        ensures
            self.copied(r),
    {
        Envelope {
            from: self.from.clone(),
            to: self.to.clone(),
            to_raft: self.to_raft,
            group: model::clone_group(&self.group),
            msg: self.msg.clone(),
        }
    }
}

impl<M: Clone> Envelope<M> {
    /// Whether `copy` is this envelope with its message cloned.
    pub open spec fn copied(self, copy: Envelope<M>) -> bool {
        &&& copy.from == self.from
        &&& copy.to == self.to
        &&& copy.to_raft == self.to_raft
        &&& copy.group == self.group
        &&& cloned(self.msg, copy.msg)
    }
}

impl Key for RaftNodeId {
    fn same_key(&self, other: &Self) -> (r: bool) {
        self.0 == other.0
    }
}

impl View for RaftNodeId {
    type V = RaftNodeId;

    open spec fn view(&self) -> RaftNodeId {
        *self
    }
}

/// The fault intensities that the network reads.
#[derive(Clone, Copy, Debug)]
pub struct NetworkConfig {
    pub base_latency: VirtualDuration,
    pub reorder_prob: Probability,
    pub max_reorder: VirtualDuration,
    pub drop_prob: Probability,
    pub duplicate_prob: Probability,
}

impl NetworkConfig {
    pub open spec fn of(faults: FaultIntensities) -> NetworkConfig {
        NetworkConfig {
            base_latency: VirtualDuration(faults.base_latency_nanos),
            reorder_prob: faults.reorder_prob,
            max_reorder: VirtualDuration(faults.max_reorder_nanos),
            drop_prob: faults.drop_prob,
            duplicate_prob: faults.duplicate_prob,
        }
    }

    pub fn from_faults(faults: &FaultIntensities) -> (r: Self)
        ensures
            r == NetworkConfig::of(*faults),
    {
        NetworkConfig {
            base_latency: VirtualDuration::from_nanos(faults.base_latency_nanos),
            reorder_prob: faults.reorder_prob,
            max_reorder: VirtualDuration::from_nanos(faults.max_reorder_nanos),
            drop_prob: faults.drop_prob,
            duplicate_prob: faults.duplicate_prob,
        }
    }
}

/// Which way a partition blocks.
#[derive(Clone, Copy, Debug, PartialEq, Eq, Structural)]
pub enum PartitionDirection {
    Symmetric,
    AToB,
}

/// A standing block on messages between nodes.
#[derive(Debug)]
pub enum Cut {
    Directed { from: NodeId, to: NodeId },
    Partition { side_a: Vec<NodeId>, side_b: Vec<NodeId>, direction: PartitionDirection },
}

impl Cut {
    /// Whether the cut stops messages from `from` to `to`.
    pub open spec fn stops(self, from: Seq<char>, to: Seq<char>) -> bool {
        match self {
            Cut::Directed { from: f, to: t } => from == f@ && to == t@,
            Cut::Partition { side_a, side_b, direction } => {
                ||| model::names(side_a@, from) && model::names(side_b@, to)
                ||| direction == PartitionDirection::Symmetric && model::names(side_b@, from)
                    && model::names(side_a@, to)
            },
        }
    }

    pub fn blocks(&self, from: &NodeId, to: &NodeId) -> (r: bool)
        ensures
            r == self.stops(from@, to@),
    {
        match self {
            Cut::Directed { from: f, to: t } => from.same(f) && to.same(t),
            Cut::Partition { side_a, side_b, direction } => {
                let a_to_b = model::contains_node(side_a.as_slice(), from) && model::contains_node(
                    side_b.as_slice(),
                    to,
                );
                match direction {
                    PartitionDirection::Symmetric => a_to_b || (model::contains_node(
                        side_b.as_slice(),
                        from,
                    ) && model::contains_node(side_a.as_slice(), to)),
                    PartitionDirection::AToB => a_to_b,
                }
            },
        }
    }
}

/// What becomes of a message handed to the network.
pub enum Fate {
    /// Stopped by a cut or a crashed endpoint.
    Stopped,
    /// Lost at random.
    Lost,
    /// Delivered once, at the instant given.
    Once { at: VirtualInstant },
    /// Delivered twice, at the instants given.
    Twice { first: VirtualInstant, second: VirtualInstant },
}

/// One delay draw: the instant of delivery, and the stream after it.
pub open spec fn delay_draw(
    now: VirtualInstant,
    config: NetworkConfig,
    rng: SplitMix64,
) -> (VirtualInstant, SplitMix64) {
    if config.reorder_prob.possible() {
        if rng.fires(config.reorder_prob) {
            let bound = config.max_reorder.0;
            (
                now.plus(
                    config.base_latency.plus(VirtualDuration(rng.advanced().below(bound))),
                ),
                rng.advanced().advanced_below(bound),
            )
        } else {
            (now.plus(config.base_latency), rng.advanced())
        }
    } else {
        (now.plus(config.base_latency), rng)
    }
}

/// The fate of a message that no cut stops, and the stream after deciding it.
pub open spec fn open_fate(
    now: VirtualInstant,
    config: NetworkConfig,
    rng: SplitMix64,
) -> (Fate, SplitMix64) {
    if config.drop_prob.possible() && rng.fires(config.drop_prob) {
        (Fate::Lost, rng.advanced())
    } else {
        let kept = if config.drop_prob.possible() {
            rng.advanced()
        } else {
            rng
        };
        let (first, sent) = delay_draw(now, config, kept);
        if config.duplicate_prob.possible() {
            if sent.fires(config.duplicate_prob) {
                let (second, done) = delay_draw(now, config, sent.advanced());
                (Fate::Twice { first, second }, done)
            } else {
                (Fate::Once { at: first }, sent.advanced())
            }
        } else {
            (Fate::Once { at: first }, sent)
        }
    }
}

/// The network's state. The counters stop at their greatest value.
#[derive(Debug)]
pub struct SimNetwork<M> {
    pub now: VirtualInstant,
    pub config: NetworkConfig,
    pub rng: SplitMix64,
    pub pending: Vec<(VirtualInstant, Envelope<M>)>,
    pub cuts: KeyedMap<HealId, Cut>,
    pub crashed: KeyedMap<NodeId, ()>,
    pub dropped_count: u64,
    pub cut_dropped_count: u64,
    pub duplicated_count: u64,
    pub delivered_count: u64,
}

impl<M> SimNetwork<M> {
    pub open spec fn wf(self) -> bool {
        self.cuts.wf() && self.crashed.wf()
    }

    /// Whether messages from `from` to `to` are stopped now.
    pub open spec fn stopped(self, from: Seq<char>, to: Seq<char>) -> bool {
        ||| self.crashed@.contains_key(from)
        ||| self.crashed@.contains_key(to)
        ||| exists|id: HealId| #[trigger]
            self.cuts@.contains_key(id) && self.cuts@[id].stops(from, to)
    }

    /// The fate of a message sent now, and the stream after deciding it.
    pub open spec fn fate(self, from: Seq<char>, to: Seq<char>) -> (Fate, SplitMix64) {
        if self.stopped(from, to) {
            (Fate::Stopped, self.rng)
        } else {
            open_fate(self.now, self.config, self.rng)
        }
    }

    /// Whether `after` differs from this network in nothing but its clock, its
    /// stream, its pending deliveries and its counters.
    pub open spec fn same_faults(self, after: SimNetwork<M>) -> bool {
        &&& after.config == self.config
        &&& after.cuts == self.cuts
        &&& after.crashed == self.crashed
    }

    pub open spec fn same_traffic(self, after: SimNetwork<M>) -> bool {
        &&& after.now == self.now
        &&& after.config == self.config
        &&& after.rng == self.rng
        &&& after.pending == self.pending
        &&& after.dropped_count == self.dropped_count
        &&& after.cut_dropped_count == self.cut_dropped_count
        &&& after.duplicated_count == self.duplicated_count
        &&& after.delivered_count == self.delivered_count
    }

    pub fn new(faults: &FaultIntensities, network_rng: SplitMix64) -> (r: Self)
        ensures
            r.wf(),
            r.now == VirtualInstant(0),
            r.config == NetworkConfig::of(*faults),
            r.rng == network_rng,
            r.pending@.len() == 0,
            r.cuts@ == Map::<HealId, Cut>::empty(),
            r.crashed@ == Map::<Seq<char>, ()>::empty(),
            r.dropped_count == 0,
            r.cut_dropped_count == 0,
            r.duplicated_count == 0,
            r.delivered_count == 0,
    {
        SimNetwork {
            now: VirtualInstant::origin(),
            config: NetworkConfig::from_faults(faults),
            rng: network_rng,
            pending: Vec::new(),
            cuts: KeyedMap::new(),
            crashed: KeyedMap::new(),
            dropped_count: 0,
            cut_dropped_count: 0,
            duplicated_count: 0,
            delivered_count: 0,
        }
    }

    /// The sending end of `from` in `group`, with the peers it can name.
    pub fn transport(
        &self,
        from: NodeId,
        group: GroupKey,
        peers: KeyedMap<RaftNodeId, NodeId>,
    ) -> (r: SimTransport)
        ensures
            r.from == from,
            r.group == group,
            r.peers == peers,
    {
        SimTransport { from, group, peers }
    }

    pub fn set_now(&mut self, now: VirtualInstant)
        ensures
            *final(self) == (SimNetwork { now, ..*old(self) }),
    {
        self.now = now;
    }

    /// Stop messages from `from` to `to` until `id` is healed.
    pub fn install_cut(&mut self, id: HealId, from: NodeId, to: NodeId)
        requires
            old(self).wf(),
        ensures
            final(self).wf(),
            final(self).cuts@ == old(self).cuts@.insert(id, Cut::Directed { from, to }),
            final(self).crashed == old(self).crashed,
            old(self).same_traffic(*final(self)),
    {
        self.cuts.insert(id, Cut::Directed { from, to });
    }

    /// Stop messages between the two sides until `id` is healed.
    pub fn install_partition(&mut self, id: HealId, side_a: Vec<NodeId>, side_b: Vec<NodeId>)
        requires
            old(self).wf(),
        ensures
            final(self).wf(),
            final(self).cuts@ == old(self).cuts@.insert(
                id,
                Cut::Partition { side_a, side_b, direction: PartitionDirection::Symmetric },
            ),
            final(self).crashed == old(self).crashed,
            old(self).same_traffic(*final(self)),
    {
        self.cuts.insert(
            id,
            Cut::Partition { side_a, side_b, direction: PartitionDirection::Symmetric },
        );
    }

    /// Stop messages from one side to the other until `id` is healed.
    pub fn install_asymmetric_partition(
        &mut self,
        id: HealId,
        from_side: Vec<NodeId>,
        to_side: Vec<NodeId>,
    )
        requires
            old(self).wf(),
        ensures
            final(self).wf(),
            final(self).cuts@ == old(self).cuts@.insert(
                id,
                Cut::Partition {
                    side_a: from_side,
                    side_b: to_side,
                    direction: PartitionDirection::AToB,
                },
            ),
            final(self).crashed == old(self).crashed,
            old(self).same_traffic(*final(self)),
    {
        self.cuts.insert(
            id,
            Cut::Partition {
                side_a: from_side,
                side_b: to_side,
                direction: PartitionDirection::AToB,
            },
        );
    }

    /// Lift the cut installed under `id`; whether there was one.
    pub fn heal(&mut self, id: HealId) -> (r: bool)
        requires
            old(self).wf(),
        ensures
            final(self).wf(),
            r == old(self).cuts@.contains_key(id),
            final(self).cuts@ == old(self).cuts@.remove(id),
            final(self).crashed == old(self).crashed,
            old(self).same_traffic(*final(self)),
    {
        match self.cuts.remove(&id) {
            Some(cut) => true,
            None => false,
        }
    }

    /// Cut `node` off in both directions until it restarts.
    pub fn crash_node(&mut self, node: NodeId)
        requires
            old(self).wf(),
        ensures
            final(self).wf(),
            final(self).crashed@ == old(self).crashed@.insert(node@, ()),
            final(self).cuts == old(self).cuts,
            old(self).same_traffic(*final(self)),
    {
        self.crashed.insert(node, ());
    }

    /// Bring `node` back; whether it was down.
    pub fn restart_node(&mut self, node: &NodeId) -> (r: bool)
        requires
            old(self).wf(),
        ensures
            final(self).wf(),
            r == old(self).crashed@.contains_key(node@),
            final(self).crashed@ == old(self).crashed@.remove(node@),
            final(self).cuts == old(self).cuts,
            old(self).same_traffic(*final(self)),
    {
        match self.crashed.remove(node) {
            Some(unit) => true,
            None => false,
        }
    }

    /// Hand over the deliveries decided so far, in the order of their sending.
    pub fn drain_pending(&mut self) -> (r: Vec<(VirtualInstant, Envelope<M>)>)
        ensures
            r == old(self).pending,
            final(self).pending@.len() == 0,
            *final(self) == (SimNetwork { pending: final(self).pending, ..*old(self) }),
    {
        let mut taken: Vec<(VirtualInstant, Envelope<M>)> = Vec::new();
        std::mem::swap(&mut taken, &mut self.pending);
        taken
    }

    pub fn pending_len(&self) -> (r: usize)
        ensures
            r == self.pending@.len(),
    {
        self.pending.len()
    }

    /// Messages lost at random.
    pub fn dropped(&self) -> (r: u64)
        ensures
            r == self.dropped_count,
    {
        self.dropped_count
    }

    /// Messages stopped by a cut or a crashed endpoint.
    pub fn cut_dropped(&self) -> (r: u64)
        ensures
            r == self.cut_dropped_count,
    {
        self.cut_dropped_count
    }

    /// Messages delivered twice.
    pub fn duplicated(&self) -> (r: u64)
        ensures
            r == self.duplicated_count,
    {
        self.duplicated_count
    }

    /// Deliveries decided.
    pub fn delivered(&self) -> (r: u64)
        ensures
            r == self.delivered_count,
    {
        self.delivered_count
    }

    /// Whether messages from `from` to `to` are stopped now.
    pub fn is_cut(&self, from: &NodeId, to: &NodeId) -> (r: bool)
        requires
            self.wf(),
        ensures
            r == self.stopped(from@, to@),
    {
        if self.crashed.contains(from) || self.crashed.contains(to) {
            return true;
        }
        proof {
            self.cuts.lemma_items();
        }
        let mut i: usize = 0;
        while i < self.cuts.len()
            invariant
                i <= self.cuts.items().len(),
                forall|k: int|
                    0 <= k < self.cuts.items().len() ==> self.cuts@.contains_key(
                        (#[trigger] self.cuts.items()[k]).0@,
                    ) && self.cuts@[self.cuts.items()[k].0@] == self.cuts.items()[k].1,
                forall|id: HealId| #[trigger]
                    self.cuts@.contains_key(id) ==> exists|k: int|
                        0 <= k < self.cuts.items().len() && (#[trigger] self.cuts.items()[k]).0@
                            == id,
                forall|k: int|
                    0 <= k < i ==> !(#[trigger] self.cuts.items()[k]).1.stops(from@, to@),
                !self.crashed@.contains_key(from@),
                !self.crashed@.contains_key(to@),
            decreases self.cuts.items().len() - i,
        {
            let entry = self.cuts.entry(i);
            if entry.1.blocks(from, to) {
                assert(self.cuts@.contains_key(self.cuts.items()[i as int].0@));
                return true;
            }
            i += 1;
        }
        false
    }

    fn extra_reorder_delay(&mut self) -> (r: VirtualDuration)
        ensures
            final(self).now == old(self).now,
            old(self).now.plus(old(self).config.base_latency.plus(r)) == delay_draw(
                old(self).now,
                old(self).config,
                old(self).rng,
            ).0,
            *final(self) == (SimNetwork {
                rng: delay_draw(old(self).now, old(self).config, old(self).rng).1,
                ..*old(self)
            }),
    {
        if self.config.reorder_prob.is_possible() && self.rng.next_chance(
            self.config.reorder_prob,
        ) {
            VirtualDuration::from_nanos(self.rng.next_below(self.config.max_reorder.as_nanos()))
        } else {
            VirtualDuration::zero()
        }
    }

    /// Decide the instant of one delivery.
    fn delivery_instant(&mut self) -> (r: VirtualInstant)
        ensures
            r == delay_draw(old(self).now, old(self).config, old(self).rng).0,
            *final(self) == (SimNetwork {
                rng: delay_draw(old(self).now, old(self).config, old(self).rng).1,
                ..*old(self)
            }),
    {
        let base = self.config.base_latency;
        let delay = base.saturating_add(self.extra_reorder_delay());
        self.now.saturating_add(delay)
    }

    fn push_one(&mut self, at: VirtualInstant, envelope: Envelope<M>)
        ensures
            final(self).pending@ == old(self).pending@.push((at, envelope)),
            final(self).delivered_count == old(self).delivered_count.saturating_add(1),
            *final(self) == (SimNetwork {
                pending: final(self).pending,
                delivered_count: final(self).delivered_count,
                ..*old(self)
            }),
    {
        self.pending.push((at, envelope));
        self.delivered_count = self.delivered_count.saturating_add(1);
    }
}

impl<M: Clone> SimNetwork<M> {
    /// `after` is this network once `envelope` was handed to it.
    pub open spec fn enqueued_to(self, after: SimNetwork<M>, envelope: Envelope<M>) -> bool {
        let (fate, rng) = self.fate(envelope.from@, envelope.to@);
        &&& self.same_faults(after)
        &&& after.now == self.now
        &&& after.rng == rng
        &&& match fate {
            Fate::Stopped => {
                &&& after.pending@ == self.pending@
                &&& after.cut_dropped_count == self.cut_dropped_count.saturating_add(1)
                &&& after.dropped_count == self.dropped_count
                &&& after.duplicated_count == self.duplicated_count
                &&& after.delivered_count == self.delivered_count
            },
            Fate::Lost => {
                &&& after.pending@ == self.pending@
                &&& after.cut_dropped_count == self.cut_dropped_count
                &&& after.dropped_count == self.dropped_count.saturating_add(1)
                &&& after.duplicated_count == self.duplicated_count
                &&& after.delivered_count == self.delivered_count
            },
            Fate::Once { at } => {
                &&& after.pending@ == self.pending@.push((at, envelope))
                &&& after.cut_dropped_count == self.cut_dropped_count
                &&& after.dropped_count == self.dropped_count
                &&& after.duplicated_count == self.duplicated_count
                &&& after.delivered_count == self.delivered_count.saturating_add(1)
            },
            Fate::Twice { first, second } => {
                &&& after.pending@.len() == self.pending@.len() + 2
                &&& after.pending@.take(self.pending@.len() as int) == self.pending@
                &&& after.pending@[self.pending@.len() as int].0 == first
                &&& envelope.copied(after.pending@[self.pending@.len() as int].1)
                &&& after.pending@[self.pending@.len() as int + 1] == (second, envelope)
                &&& after.cut_dropped_count == self.cut_dropped_count
                &&& after.dropped_count == self.dropped_count
                &&& after.duplicated_count == self.duplicated_count.saturating_add(1)
                &&& after.delivered_count == self.delivered_count.saturating_add(1).saturating_add(
                    1,
                )
            },
        }
    }

    /// Decide the fate of a message.
    pub fn enqueue(&mut self, envelope: Envelope<M>)
        requires
            old(self).wf(),
        ensures
            final(self).wf(),
            old(self).enqueued_to(*final(self), envelope),
    {
        let ghost before = *self;
        if self.is_cut(&envelope.from, &envelope.to) {
            self.cut_dropped_count = self.cut_dropped_count.saturating_add(1);
            return;
        }
        if self.config.drop_prob.is_possible() && self.rng.next_chance(self.config.drop_prob) {
            self.dropped_count = self.dropped_count.saturating_add(1);
            return;
        }
        let first = self.delivery_instant();
        if self.config.duplicate_prob.is_possible() && self.rng.next_chance(
            self.config.duplicate_prob,
        ) {
            self.duplicated_count = self.duplicated_count.saturating_add(1);
            let copy = envelope.clone();
            self.push_one(first, copy);
            let second = self.delivery_instant();
            self.push_one(second, envelope);
            assert(self.pending@.take(before.pending@.len() as int) =~= before.pending@);
        } else {
            self.push_one(first, envelope);
        }
    }
}

/// The sending end of one node in one group.
#[derive(Debug)]
pub struct SimTransport {
    pub from: NodeId,
    pub group: GroupKey,
    pub peers: KeyedMap<RaftNodeId, NodeId>,
}

impl SimTransport {
    /// The envelope that a message to `to` travels in.
    pub open spec fn addressed<M>(self, to: RaftNodeId, msg: M) -> Envelope<M> {
        Envelope {
            from: self.from,
            to: self.peers@[to],
            to_raft: to,
            group: self.group,
            msg,
        }
    }

    /// Send `msg` to the peer named `to`; a name that is no peer is ignored.
    pub fn send<M: Clone>(&self, network: &mut SimNetwork<M>, to: RaftNodeId, msg: M)
        requires
            old(network).wf(),
            self.peers.wf(),
        ensures
            final(network).wf(),
            if self.peers@.contains_key(to) {
                old(network).enqueued_to(*final(network), self.addressed(to, msg))
            } else {
                *final(network) == *old(network)
            },
    {
        let to_node = match self.peers.get(&to) {
            Some(node) => node.clone(),
            None => {
                return;
            },
        };
        let envelope = Envelope {
            from: self.from.clone(),
            to: to_node,
            to_raft: to,
            group: model::clone_group(&self.group),
            msg,
        };
        network.enqueue(envelope);
    }
}

/// A symmetric partition stops both directions alike; so does a crashed endpoint.
pub proof fn law_symmetric_partition<M>(
    network: SimNetwork<M>,
    id: HealId,
    side_a: Vec<NodeId>,
    side_b: Vec<NodeId>,
    x: Seq<char>,
    y: Seq<char>,
)
    requires
        network.cuts@ == map![id => Cut::Partition {
            side_a,
            side_b,
            direction: PartitionDirection::Symmetric,
        }],
    ensures
        network.stopped(x, y) == network.stopped(y, x),
{
    let cut = Cut::Partition { side_a, side_b, direction: PartitionDirection::Symmetric };
    assert(network.cuts@.contains_key(id) && network.cuts@[id] == cut);
    assert(cut.stops(x, y) == cut.stops(y, x));
    if network.stopped(x, y) && !network.crashed@.contains_key(x) && !network.crashed@.contains_key(
        y,
    ) {
        let i = choose|i: HealId| #[trigger]
            network.cuts@.contains_key(i) && network.cuts@[i].stops(x, y);
        assert(i == id);
    }
    if network.stopped(y, x) && !network.crashed@.contains_key(x) && !network.crashed@.contains_key(
        y,
    ) {
        let i = choose|i: HealId| #[trigger]
            network.cuts@.contains_key(i) && network.cuts@[i].stops(y, x);
        assert(i == id);
    }
}

/// Cuts and crashes that do not concern a message neither draw for it nor change
/// what becomes of it: its fate is that on a network with no cuts at all.
pub proof fn law_unrelated_cut_changes_nothing<M>(
    bare: SimNetwork<M>,
    cut: SimNetwork<M>,
    from: Seq<char>,
    to: Seq<char>,
)
    requires
        !bare.stopped(from, to),
        !cut.stopped(from, to),
        bare.now == cut.now,
        bare.config == cut.config,
        bare.rng == cut.rng,
    ensures
        bare.fate(from, to) == cut.fate(from, to),
{
}

/// A message stopped by a cut leaves the stream where it was, so that later
/// messages fare as if it had never been sent.
pub proof fn law_stopped_message_draws_nothing<M: Clone>(
    before: SimNetwork<M>,
    after: SimNetwork<M>,
    envelope: Envelope<M>,
    from: Seq<char>,
    to: Seq<char>,
)
    requires
        before.stopped(envelope.from@, envelope.to@),
        before.enqueued_to(after, envelope),
    ensures
        after.fate(from, to) == before.fate(from, to),
{
}

/// Healing a cut lifts that cut alone: a pair stays stopped exactly where something
/// else stops it.
pub proof fn law_heal_lifts_one_cut<M>(
    before: SimNetwork<M>,
    after: SimNetwork<M>,
    id: HealId,
    from: Seq<char>,
    to: Seq<char>,
)
    requires
        after.cuts@ == before.cuts@.remove(id),
        after.crashed@ == before.crashed@,
    ensures
        after.stopped(from, to) ==> before.stopped(from, to),
        before.stopped(from, to) && !(before.cuts@.contains_key(id) && before.cuts@[id].stops(
            from,
            to,
        )) ==> after.stopped(from, to),
{
    if after.stopped(from, to) && !after.crashed@.contains_key(from) && !after.crashed@.contains_key(
        to,
    ) {
        let i = choose|i: HealId| #[trigger]
            after.cuts@.contains_key(i) && after.cuts@[i].stops(from, to);
        assert(before.cuts@.contains_key(i));
    }
    if before.stopped(from, to) && !before.crashed@.contains_key(from)
        && !before.crashed@.contains_key(to) {
        let i = choose|i: HealId| #[trigger]
            before.cuts@.contains_key(i) && before.cuts@[i].stops(from, to);
        if i != id {
            assert(after.cuts@.contains_key(i));
        }
    }
}

/// A crashed node neither sends nor receives; a restart lifts that alone.
pub proof fn law_crash_cuts_both_ways<M>(
    up: SimNetwork<M>,
    down: SimNetwork<M>,
    node: Seq<char>,
    peer: Seq<char>,
)
    requires
        down.crashed@ == up.crashed@.insert(node, ()),
        down.cuts@ == up.cuts@,
    ensures
        down.stopped(node, peer),
        down.stopped(peer, node),
        forall|x: Seq<char>, y: Seq<char>|
            x != node && y != node ==> (#[trigger] down.stopped(x, y) == up.stopped(x, y)),
{
}

/// Without intensities nothing is drawn: every message that is not stopped arrives
/// once, after the base latency.
pub proof fn law_faultless_network_is_exact<M>(
    network: SimNetwork<M>,
    from: Seq<char>,
    to: Seq<char>,
)
    requires
        !network.stopped(from, to),
        !network.config.drop_prob.possible(),
        !network.config.reorder_prob.possible(),
        !network.config.duplicate_prob.possible(),
    ensures
        network.fate(from, to) == (
            Fate::Once { at: network.now.plus(network.config.base_latency) },
            network.rng,
        ),
{
}

/// No delivery comes before its sending, nor before the base latency has passed.
pub proof fn law_delivery_is_never_early(
    now: VirtualInstant,
    config: NetworkConfig,
    rng: SplitMix64,
)
    ensures
        match open_fate(now, config, rng).0 {
            Fate::Once { at } => at.0 >= now.plus(config.base_latency).0,
            Fate::Twice { first, second } => first.0 >= now.plus(config.base_latency).0
                && second.0 >= now.plus(config.base_latency).0,
            _ => true,
        },
{
}

/// Whether a cut stops messages from one node to another: it is cut between the two, or
/// they stand on its two sides; a cut that runs one way stops nothing that comes back.
pub open spec fn severs(cut: Cut, from: Seq<char>, to: Seq<char>) -> bool {
    match cut {
        Cut::Directed { from: f, to: t } => f.0@ == from && t.0@ == to,
        Cut::Partition { side_a, side_b, direction } => {
            ||| (exists|i: int| 0 <= i < side_a@.len() && (#[trigger] side_a@[i]).0@ == from) && (
            exists|j: int| 0 <= j < side_b@.len() && (#[trigger] side_b@[j]).0@ == to)
            ||| direction is Symmetric && (exists|i: int|
                0 <= i < side_a@.len() && (#[trigger] side_a@[i]).0@ == to) && (exists|j: int|
                0 <= j < side_b@.len() && (#[trigger] side_b@[j]).0@ == from)
        },
    }
}

/// A message is stopped exactly where either end has crashed or an installed cut severs
/// its way.
pub proof fn law_what_stops_a_message<M>(network: SimNetwork<M>, from: Seq<char>, to: Seq<char>)
    ensures
        network.stopped(from, to) <==> {
            ||| network.crashed@.contains_key(from)
            ||| network.crashed@.contains_key(to)
            ||| exists|id: HealId| #[trigger]
                network.cuts@.contains_key(id) && severs(network.cuts@[id], from, to)
        },
{
    assert forall|cut: Cut| severs(cut, from, to) == #[trigger] cut.stops(from, to) by {
        match cut {
            Cut::Directed { from: f, to: t } => {},
            Cut::Partition { side_a, side_b, direction } => {
                lemma_on_side(side_a@, from);
                lemma_on_side(side_a@, to);
                lemma_on_side(side_b@, from);
                lemma_on_side(side_b@, to);
            },
        }
    }
}

proof fn lemma_on_side(side: Seq<NodeId>, name: Seq<char>)
    ensures
        model::names(side, name) <==> exists|i: int|
            0 <= i < side.len() && (#[trigger] side[i]).0@ == name,
{
    if model::names(side, name) {
        let i = choose|i: int| 0 <= i < side.len() && #[trigger] side[i]@ == name;
        assert(side[i].0@ == name);
    }
    if exists|i: int| 0 <= i < side.len() && (#[trigger] side[i]).0@ == name {
        let i = choose|i: int| 0 <= i < side.len() && (#[trigger] side[i]).0@ == name;
        assert(side[i]@ == name);
    }
}

/// Each message is accounted for once: it was stopped, lost, or delivered in one copy or
/// in two. It waits in as many copies as were counted delivered, each of them addressed
/// as it was, behind what waited before; a stopped message draws nothing.
pub proof fn law_every_message_is_accounted_for<M: Clone>(
    before: SimNetwork<M>,
    after: SimNetwork<M>,
    envelope: Envelope<M>,
)
    requires
        before.enqueued_to(after, envelope),
        before.delivered_count < u64::MAX - 1,
        before.dropped_count < u64::MAX,
        before.cut_dropped_count < u64::MAX,
        before.duplicated_count < u64::MAX,
    ensures
        after.pending@.len() - before.pending@.len() == after.delivered_count
            - before.delivered_count,
        (after.cut_dropped_count - before.cut_dropped_count) + (after.dropped_count
            - before.dropped_count) + (after.delivered_count - before.delivered_count) == 1 + (
        after.duplicated_count - before.duplicated_count),
        before.stopped(envelope.from@, envelope.to@) <==> after.cut_dropped_count
            != before.cut_dropped_count,
        before.stopped(envelope.from@, envelope.to@) ==> after.rng == before.rng,
        forall|k: int| 0 <= k < before.pending@.len() ==> after.pending@[k] == before.pending@[k],
        forall|k: int|
            before.pending@.len() <= k < after.pending@.len() ==> {
                let copy = (#[trigger] after.pending@[k]).1;
                &&& copy.from == envelope.from
                &&& copy.to == envelope.to
                &&& copy.to_raft == envelope.to_raft
                &&& copy.group == envelope.group
                &&& copy.msg == envelope.msg || cloned(envelope.msg, copy.msg)
                &&& after.pending@[k].0.0 >= before.now.0
            },
{
    assert forall|k: int|
        0 <= k < before.pending@.len() implies after.pending@[k] == before.pending@[k] by {
        if after.pending@.len() > before.pending@.len() + 1 {
            assert(after.pending@.take(before.pending@.len() as int)[k] == after.pending@[k]);
        }
    }
    law_delivery_is_never_early(before.now, before.config, before.rng);
}

/// What the words of the stream decide. A message is lost exactly where losses are on and
/// the first word says so. One that is kept takes the base latency, and longer by what a
/// word says only where a word before it called for that; it is doubled only where
/// doubling is on and its word says so.
pub proof fn law_words_decide_the_fate(now: VirtualInstant, config: NetworkConfig, rng: SplitMix64)
    ensures
        ({
            let losing = config.drop_prob.ticks > 0;
            open_fate(now, config, rng).0 is Lost <==> losing && rng.word() / 2048
                < config.drop_prob.ticks
        }),
        config.drop_prob.ticks == 0 && config.reorder_prob.ticks == 0 ==> ({
            let at = if now.0 + config.base_latency.0 <= u64::MAX {
                (now.0 + config.base_latency.0) as u64
            } else {
                u64::MAX
            };
            match open_fate(now, config, rng).0 {
                Fate::Once { at: t } => t.0 == at && !(config.duplicate_prob.ticks > 0 && rng.word()
                    / 2048 < config.duplicate_prob.ticks),
                Fate::Twice { first, second } => first.0 == at && second.0 == at
                    && config.duplicate_prob.ticks > 0 && rng.word() / 2048
                    < config.duplicate_prob.ticks,
                _ => false,
            }
        }),
{
    rng::law_chances_by_the_word(rng, config.drop_prob);
    rng::law_chances_by_the_word(rng, config.duplicate_prob);
}

/// When a message arrives: after the base latency, and where reordering is on and the
/// stream's next word calls for it, later by the word after that modulo the greatest
/// reorder delay. So many words are drawn.
pub proof fn law_words_decide_the_delay(now: VirtualInstant, config: NetworkConfig, rng: SplitMix64)
    requires
        now.0 + config.base_latency.0 + config.max_reorder.0 <= u64::MAX,
    ensures
        ({
            let (at, after) = delay_draw(now, config, rng);
            let called = config.reorder_prob.ticks > 0 && rng.word() / 2048
                < config.reorder_prob.ticks;
            &&& !called ==> at.0 == now.0 + config.base_latency.0
            &&& called && config.max_reorder.0 > 0 ==> at.0 == now.0 + config.base_latency.0 + (
            rng.advanced().word() as int) % (config.max_reorder.0 as int)
            &&& called && config.max_reorder.0 == 0 ==> at.0 == now.0 + config.base_latency.0
            &&& config.reorder_prob.ticks == 0 ==> after == rng
            &&& config.reorder_prob.ticks > 0 && !(called && config.max_reorder.0 > 0) ==> after
                == rng.advanced()
            &&& called && config.max_reorder.0 > 0 ==> after == rng.advanced().advanced()
        }),
{
    rng::law_chances_by_the_word(rng, config.reorder_prob);
}

/// The intensities of a scenario are those of its network.
pub proof fn law_intensities_reach_the_network(faults: FaultIntensities)
    ensures
        NetworkConfig::of(faults).base_latency.0 == faults.base_latency_nanos,
        NetworkConfig::of(faults).max_reorder.0 == faults.max_reorder_nanos,
        NetworkConfig::of(faults).reorder_prob.ticks == faults.reorder_prob.ticks,
        NetworkConfig::of(faults).drop_prob.ticks == faults.drop_prob.ticks,
        NetworkConfig::of(faults).duplicate_prob.ticks == faults.duplicate_prob.ticks,
{
}

/// What a message draws, word by word: one for its loss where losses are on, those of its
/// delay, one for its doubling where that is on, and those of the second delay.
pub proof fn law_words_drawn_for_a_message(
    now: VirtualInstant,
    config: NetworkConfig,
    rng: SplitMix64,
)
    ensures
        ({
            let (fate, after) = open_fate(now, config, rng);
            let losing = config.drop_prob.ticks > 0;
            let lost = losing && rng.word() / 2048 < config.drop_prob.ticks;
            let kept = if losing {
                rng.advanced()
            } else {
                rng
            };
            let (first, sent) = delay_draw(now, config, kept);
            let doubling = config.duplicate_prob.ticks > 0;
            let doubled = doubling && sent.word() / 2048 < config.duplicate_prob.ticks;
            &&& lost ==> fate is Lost && after == rng.advanced()
            &&& !lost && !doubling ==> fate == (Fate::Once { at: first }) && after == sent
            &&& !lost && doubling && !doubled ==> fate == (Fate::Once { at: first }) && after
                == sent.advanced()
            &&& !lost && doubled ==> {
                let (second, done) = delay_draw(now, config, sent.advanced());
                fate == (Fate::Twice { first, second }) && after == done
            }
        }),
{
    rng::law_chances_by_the_word(rng, config.drop_prob);
    let kept = if config.drop_prob.ticks > 0 {
        rng.advanced()
    } else {
        rng
    };
    rng::law_chances_by_the_word(delay_draw(now, config, kept).1, config.duplicate_prob);
}

/// A message that nothing stops meets the fate that is drawn for it: lost, it leaves
/// nothing behind; otherwise each copy waits for the instant drawn.
pub proof fn law_messages_meet_their_fate<M: Clone>(
    before: SimNetwork<M>,
    after: SimNetwork<M>,
    envelope: Envelope<M>,
)
    requires
        before.enqueued_to(after, envelope),
        !before.stopped(envelope.from@, envelope.to@),
    ensures
        ({
            let (fate, rng) = open_fate(before.now, before.config, before.rng);
            let n = before.pending@.len() as int;
            &&& after.rng == rng
            &&& fate is Lost ==> after.pending@.len() == n
            &&& fate matches Fate::Once { at } ==> after.pending@.len() == n + 1
                && after.pending@[n].0.0 == at.0
            &&& fate matches Fate::Twice { first, second } ==> after.pending@.len() == n + 2
                && after.pending@[n].0.0 == first.0 && after.pending@[n + 1].0.0 == second.0
            &&& after.now == before.now
            &&& after.config == before.config
            &&& after.cuts == before.cuts
            &&& after.crashed == before.crashed
        }),
{
}

} // verus!
