//! What a run schedules by itself: the client operations, the faults, and the first
//! election timer of every replica.

use crate::clock::{self, ArmRequest, ArmedTimer, SimClock, ELECTION_TIMEOUT_BASE_NANOS};
use crate::cluster::{SimNode, SimulatedCluster};
use crate::groups;
use crate::keyed::{KeyTest, KeyedMap};
use crate::model::{self, GroupKey, GroupView, NodeId, TimerKind};
use crate::rng::SplitMix64;
use crate::runtime::{
    self, Item, SimRuntime, CLIENT_OP_INTERVAL_NANOS, CLIENT_OP_START_NANOS, CRASH_AT_NANOS,
    PARTITION_AT_NANOS, PARTITION_HEAL_AT_NANOS, PARTITION_HEAL_ID, RESTART_AT_NANOS,
};
use crate::scenario::ScenarioParameters;
use crate::scheduler::{ClientOp, Event, Fault, HealId, VirtualDuration, VirtualInstant};
use crate::topology::{self, Topology};
use vstd::prelude::*;

verus! {

/// The client operations of a workload of size `n`, on the timeline.
pub open spec fn op_items<M>(n: nat) -> Seq<Item<M>> {
    Seq::new(
        n,
        |i: int|
            (
                VirtualInstant((CLIENT_OP_START_NANOS + i * CLIENT_OP_INTERVAL_NANOS) as u64),
                Event::ClientOp(ClientOp { seq: i as u64 }),
            ),
    )
}

/// How many events the crash of `params` puts on the timeline.
pub open spec fn crash_count(params: ScenarioParameters) -> int {
    if params.faults.crash_prob.possible() {
        2
    } else {
        0
    }
}

/// How many events the partition of `params` puts on the timeline.
pub open spec fn cut_count(params: ScenarioParameters) -> int {
    if params.faults.partition_prob.possible() {
        2
    } else {
        0
    }
}

/// The stream after the crash's victim was drawn.
pub open spec fn after_crash_draw(
    params: ScenarioParameters,
    faults: SplitMix64,
    n: nat,
) -> SplitMix64 {
    if params.faults.crash_prob.possible() {
        faults.advanced_below(n as u64)
    } else {
        faults
    }
}

/// Whether every group keeps a majority when it loses any one node: the metadata group,
/// which is on all nodes, and the partition groups.
pub open spec fn can_lose_a_node(topology: Topology) -> bool {
    topology.nodes@.len() >= 3 && topology.replication >= 3
}

/// The stream after both victims were drawn.
pub open spec fn after_fault_draws(
    params: ScenarioParameters,
    faults: SplitMix64,
    topology: Topology,
) -> SplitMix64 {
    let n = topology.nodes@.len();
    let s = after_crash_draw(params, faults, n);
    if !can_lose_a_node(topology) {
        faults
    } else if params.faults.partition_prob.possible() {
        s.advanced_below(n as u64)
    } else {
        s
    }
}

/// `items` are the crash of one node, drawn from `faults`, and its restart.
pub open spec fn is_crash_plan<M>(items: Seq<Item<M>>, n: nat, faults: SplitMix64) -> bool {
    let victim = faults.below(n as u64);
    &&& items[0].0 == VirtualInstant(CRASH_AT_NANOS)
    &&& items[0].1 matches Event::FaultApply(Fault::Crash { nodes }) && nodes@ == seq![
        victim as usize,
    ]
    &&& items[1].0 == VirtualInstant(RESTART_AT_NANOS)
    &&& items[1].1 matches Event::FaultApply(Fault::Restart { nodes }) && nodes@ == seq![
        victim as usize,
    ]
}

/// `items` are the isolation of one node, drawn from `faults`, and its healing.
pub open spec fn is_cut_plan<M>(
    items: Seq<Item<M>>,
    nodes: Seq<NodeId>,
    faults: SplitMix64,
) -> bool {
    let victim = faults.below(nodes.len() as u64) as int;
    &&& items[0].0 == VirtualInstant(PARTITION_AT_NANOS)
    &&& items[0].1 matches Event::FaultApply(Fault::Partition { id, side_a, side_b }) && id
        == HealId(PARTITION_HEAL_ID) && side_a@ == seq![nodes[victim]] && side_b@ == nodes.remove(
        victim,
    )
    &&& items[1] == (
        VirtualInstant(PARTITION_HEAL_AT_NANOS),
        Event::<M>::FaultHeal(HealId(PARTITION_HEAL_ID)),
    )
}

/// `items` are the faults of a run: none where a group could lose its majority, and
/// else a crash and a partition, each if it has any chance at all.
pub open spec fn is_fault_plan<M>(
    items: Seq<Item<M>>,
    topology: Topology,
    params: ScenarioParameters,
    faults: SplitMix64,
) -> bool {
    let nodes = topology.nodes@;
    if !can_lose_a_node(topology) {
        items.len() == 0
    } else {
        &&& items.len() == crash_count(params) + cut_count(params)
        &&& crash_count(params) > 0 ==> is_crash_plan(items, nodes.len(), faults)
        &&& cut_count(params) > 0 ==> is_cut_plan(
            items.skip(crash_count(params)),
            nodes,
            after_crash_draw(params, faults, nodes.len()),
        )
    }
}

/// All nodes but the one at `victim`.
fn all_but(nodes: &[NodeId], victim: usize) -> (r: Vec<NodeId>)
    requires
        victim < nodes@.len(),
    ensures
        r@ == nodes@.remove(victim as int),
{
    let mut others: Vec<NodeId> = Vec::new();
    let mut i: usize = 0;
    while i < nodes.len()
        invariant
            i <= nodes@.len(),
            victim < nodes@.len(),
            others@.len() == (if i <= victim {
                i as int
            } else {
                i - 1
            }),
            forall|k: int|
                0 <= k < others@.len() ==> #[trigger] others@[k] == nodes@[if k < victim {
                    k
                } else {
                    k + 1
                }],
        decreases nodes@.len() - i,
    {
        if i != victim {
            others.push(nodes[i].clone());
        }
        i += 1;
    }
    assert(others@ =~= nodes@.remove(victim as int));
    others
}

/// Whether some of the nodes at `indices` is named `name`.
pub open spec fn named_at(nodes: Seq<SimNode>, indices: Seq<usize>, name: Seq<char>) -> bool {
    exists|j: int|
        0 <= j < indices.len() && #[trigger] indices[j] < nodes.len()
            && nodes[indices[j] as int].id@ == name
}

/// One position more adds its node's name and no other.
pub proof fn lemma_named_step(nodes: Seq<SimNode>, indices: Seq<usize>, j: int)
    requires
        0 <= j < indices.len(),
    ensures
        forall|name: Seq<char>| #[trigger]
            named_at(nodes, indices.take(j + 1), name) == (named_at(nodes, indices.take(j), name)
                || (indices[j] < nodes.len() && nodes[indices[j] as int].id@ == name)),
{
    let seen = indices.take(j);
    let next = indices.take(j + 1);
    let index = indices[j];
    assert forall|name: Seq<char>| #[trigger]
        named_at(nodes, next, name) == (named_at(nodes, seen, name) || (index < nodes.len()
            && nodes[index as int].id@ == name)) by {
        if named_at(nodes, seen, name) {
            let i = choose|i: int|
                0 <= i < seen.len() && #[trigger] seen[i] < nodes.len() && nodes[seen[i] as int].id@
                    == name;
            assert(next[i] == seen[i]);
        }
        if index < nodes.len() && nodes[index as int].id@ == name {
            assert(next[j] == index);
        }
        if named_at(nodes, next, name) {
            let i = choose|i: int|
                0 <= i < next.len() && #[trigger] next[i] < nodes.len() && nodes[next[i] as int].id@
                    == name;
            if i < j {
                assert(seen[i] == next[i]);
            }
        }
    }
}

/// Markers of one node.
pub struct MarkerOf<'a> {
    pub node: &'a NodeId,
}

impl<'a> KeyTest<(NodeId, GroupKey)> for MarkerOf<'a> {
    open spec fn meets(self, k: (Seq<char>, GroupView)) -> bool {
        k.0 == self.node@
    }

    fn test(&self, k: &(NodeId, GroupKey)) -> (r: bool) {
        k.0.same(self.node)
    }
}

/// Whether the marker `k` is of a node that is up and does not host its group.
pub open spec fn unhosted(nodes: Seq<SimNode>, k: (Seq<char>, GroupView)) -> bool {
    exists|i: int|
        0 <= i < nodes.len() && (#[trigger] nodes[i]).running && nodes[i].id@ == k.0
            && !nodes[i].hosts(k.1)
}

/// The markers that stay when those of nodes that are up but do not host their group
/// are dropped.
pub open spec fn pruned(
    nodes: Seq<SimNode>,
    seeded: Map<(Seq<char>, GroupView), ()>,
) -> Map<(Seq<char>, GroupView), ()> {
    seeded.remove_keys(Set::new(|k: (Seq<char>, GroupView)| unhosted(nodes, k)))
}

impl<M> SimRuntime<M> {
    /// Put the client operations on the timeline, evenly spaced.
    pub fn seed_workload_timeline(&mut self)
        requires
            old(self).wf(),
            old(self).scheduler.has_room(old(self).workload.ops@.len() as int),
            old(self).workload.ops@.len() > 0 ==> CLIENT_OP_START_NANOS + (
            old(self).workload.ops@.len() - 1) * CLIENT_OP_INTERVAL_NANOS <= u64::MAX,
        ensures
            final(self).wf(),
            runtime::all_scheduled(
                old(self).scheduler,
                final(self).scheduler,
                op_items(old(self).workload.ops@.len()),
            ),
            *final(self) == (SimRuntime { scheduler: final(self).scheduler, ..*old(self) }),
    {
        let n: usize = self.workload.len();
        let ghost start = self.scheduler;
        let ghost items = op_items::<M>(n as nat);
        proof {
            runtime::lemma_schedule_none(start);
        }
        assert(items.take(0) =~= Seq::empty());
        let mut seq: usize = 0;
        while seq < n
            invariant
                seq <= n,
                n == old(self).workload.ops@.len(),
                n > 0 ==> CLIENT_OP_START_NANOS + (n - 1) * CLIENT_OP_INTERVAL_NANOS <= u64::MAX,
                items == op_items::<M>(n as nat),
                start == old(self).scheduler,
                self.scheduler.wf(),
                self.scheduler.scheduled_count() == start.scheduled_count() + seq,
                start.has_room(n as int),
                runtime::all_scheduled(start, self.scheduler, items.take(seq as int)),
                *self == (SimRuntime { scheduler: self.scheduler, ..*old(self) }),
            decreases n - seq,
        {
            let ghost before = self.scheduler;
            assert(seq * CLIENT_OP_INTERVAL_NANOS <= (n - 1) * CLIENT_OP_INTERVAL_NANOS)
                by (nonlinear_arith)
                requires
                    seq <= n - 1,
            ;
            let at = VirtualInstant::from_nanos(
                CLIENT_OP_START_NANOS + (seq as u64) * CLIENT_OP_INTERVAL_NANOS,
            );
            let event = Event::ClientOp(ClientOp { seq: seq as u64 });
            self.scheduler.schedule(at, event);
            proof {
                runtime::lemma_schedule_next(
                    start,
                    before,
                    self.scheduler,
                    items.take(seq as int),
                    at,
                    event,
                );
                assert(items.take(seq + 1) =~= items.take(seq as int).push((at, event)));
            }
            seq += 1;
        }
        assert(items.take(seq as int) =~= items);
    }

    /// Put the faults of `params` on the timeline: one node crashes and comes back, and
    /// after that one node is cut off and healed. Where a group has fewer than three
    /// replicas, one node less could cost it its majority, and no fault is planned.
    pub fn seed_fault_schedule(&mut self, params: &ScenarioParameters, faults: &mut SplitMix64)
        requires
            old(self).wf(),
            old(self).scheduler.has_room(4),
        ensures
            final(self).wf(),
            *final(faults) == after_fault_draws(
                *params,
                *old(faults),
                old(self).cluster.topology,
            ),
            exists|items: Seq<Item<M>>| #[trigger]
                is_fault_plan(items, old(self).cluster.topology, *params, *old(faults))
                    && runtime::all_scheduled(old(self).scheduler, final(self).scheduler, items),
            *final(self) == (SimRuntime { scheduler: final(self).scheduler, ..*old(self) }),
    {
        let n: usize = self.cluster.topology.node_count();
        let ghost topology = self.cluster.topology;
        let ghost nodes = topology.nodes@;
        let ghost start = self.scheduler;
        let ghost mut items: Seq<Item<M>> = Seq::empty();
        proof {
            runtime::lemma_schedule_none(start);
        }
        if n < 3 || self.cluster.topology.replication < 3 {
            assert(is_fault_plan(items, topology, *params, *old(faults)));
            return;
        }
        if params.faults.crash_prob.is_possible() {
            let victim: usize = faults.next_below(n as u64) as usize;
            let at = VirtualInstant::from_nanos(CRASH_AT_NANOS);
            let down = vec![victim];
            assert(down@ =~= seq![victim]);
            let event = Event::FaultApply(Fault::Crash { nodes: down });
            let ghost s0 = self.scheduler;
            self.scheduler.schedule(at, event);
            proof {
                runtime::lemma_schedule_next(start, s0, self.scheduler, items, at, event);
                items = items.push((at, event));
            }
            let at = VirtualInstant::from_nanos(RESTART_AT_NANOS);
            let up = vec![victim];
            assert(up@ =~= seq![victim]);
            let event = Event::FaultApply(Fault::Restart { nodes: up });
            let ghost s1 = self.scheduler;
            self.scheduler.schedule(at, event);
            proof {
                runtime::lemma_schedule_next(start, s1, self.scheduler, items, at, event);
                items = items.push((at, event));
                assert(is_crash_plan(items, n as nat, *old(faults)));
            }
        }
        let ghost crash = items;
        assert(crash.len() == crash_count(*params));
        if params.faults.partition_prob.is_possible() {
            let victim: usize = faults.next_below(n as u64) as usize;
            let side_a = vec![self.cluster.topology.nodes()[victim].clone()];
            let side_b = all_but(self.cluster.topology.nodes(), victim);
            assert(side_a@ =~= seq![nodes[victim as int]]);
            let at = VirtualInstant::from_nanos(PARTITION_AT_NANOS);
            let event = Event::FaultApply(
                Fault::Partition { id: HealId(PARTITION_HEAL_ID), side_a, side_b },
            );
            let ghost s2 = self.scheduler;
            self.scheduler.schedule(at, event);
            proof {
                runtime::lemma_schedule_next(start, s2, self.scheduler, items, at, event);
                items = items.push((at, event));
            }
            let at = VirtualInstant::from_nanos(PARTITION_HEAL_AT_NANOS);
            let event = Event::FaultHeal(HealId(PARTITION_HEAL_ID));
            let ghost s3 = self.scheduler;
            self.scheduler.schedule(at, event);
            proof {
                runtime::lemma_schedule_next(start, s3, self.scheduler, items, at, event);
                items = items.push((at, event));
                let rest = items.skip(crash_count(*params));
                assert(rest.len() == 2);
                assert(rest[0] == items[crash.len() as int]);
                assert(rest[1] == items[crash_count(*params) + 1]);
            }
        }
        assert(is_fault_plan(items, topology, *params, *old(faults)));
    }

    /// Drop the markers of the nodes at `indices`.
    pub fn clear_seeded_for(&mut self, indices: &[usize])
        requires
            old(self).wf(),
        ensures
            final(self).wf(),
            final(self).seeded@ == old(self).seeded@.remove_keys(
                Set::new(
                    |k: (Seq<char>, GroupView)|
                        named_at(old(self).cluster.nodes@, indices@, k.0),
                ),
            ),
            *final(self) == (SimRuntime { seeded: final(self).seeded, ..*old(self) }),
    {
        let ghost nodes = self.cluster.nodes@;
        let ghost all = self.seeded@;
        let mut j: usize = 0;
        proof {
            assert(self.seeded@ =~= all.remove_keys(
                Set::new(|k: (Seq<char>, GroupView)| named_at(nodes, indices@.take(0), k.0)),
            ));
        }
        while j < indices.len()
            invariant
                j <= indices@.len(),
                nodes == old(self).cluster.nodes@,
                all == old(self).seeded@,
                self.seeded.wf(),
                *self == (SimRuntime { seeded: self.seeded, ..*old(self) }),
                self.seeded@ == all.remove_keys(
                    Set::new(
                        |k: (Seq<char>, GroupView)| named_at(nodes, indices@.take(j as int), k.0),
                    ),
                ),
            decreases indices@.len() - j,
        {
            let index: usize = indices[j];
            let ghost next = indices@.take(j + 1);
            if index < self.cluster.nodes.len() {
                let marker = MarkerOf { node: &self.cluster.nodes[index].id };
                self.seeded.remove_matching(&marker);
            }
            proof {
                lemma_named_step(nodes, indices@, j as int);
                assert(self.seeded@ =~= all.remove_keys(
                    Set::new(|k: (Seq<char>, GroupView)| named_at(nodes, next, k.0)),
                ));
            }
            j += 1;
        }
        assert(indices@.take(j as int) =~= indices@);
    }

    /// Whether the marker `k` is of a node that is up and does not host its group.
    fn is_unhosted(&self, k: &(NodeId, GroupKey)) -> (r: bool)
        requires
            self.wf(),
        ensures
            r == unhosted(self.cluster.nodes@, k@),
    {
        let mut i: usize = 0;
        while i < self.cluster.nodes.len()
            invariant
                i <= self.cluster.nodes@.len(),
                self.cluster.wf(),
                forall|j: int|
                    0 <= j < i ==> !((#[trigger] self.cluster.nodes@[j]).running
                        && self.cluster.nodes@[j].id@ == k.0@ && !self.cluster.nodes@[j].hosts(
                        k.1@,
                    )),
            decreases self.cluster.nodes@.len() - i,
        {
            let node = &self.cluster.nodes[i];
            assert(self.cluster.nodes@[i as int].wf(self.cluster.topology));
            if node.is_running() && node.id.same(&k.0) {
                match node.replica_of(&k.1) {
                    Some(state) => {},
                    None => {
                        return true;
                    },
                }
            }
            i += 1;
        }
        false
    }

    /// Drop the markers of nodes that are up but do not host their group any more, so
    /// that a replica that comes again is new. A node that is down keeps its markers.
    pub fn prune_seeded_to_hosted(&mut self)
        requires
            old(self).wf(),
        ensures
            final(self).wf(),
            final(self).seeded@ == pruned(old(self).cluster.nodes@, old(self).seeded@),
            *final(self) == (SimRuntime { seeded: final(self).seeded, ..*old(self) }),
    {
        let ghost nodes = self.cluster.nodes@;
        let ghost all = self.seeded;
        let mut kept: KeyedMap<(NodeId, GroupKey), ()> = KeyedMap::new();
        proof {
            all.lemma_items();
        }
        let mut i: usize = 0;
        while i < self.seeded.len()
            invariant
                i <= self.seeded.items().len(),
                *self == *old(self),
                self.wf(),
                nodes == self.cluster.nodes@,
                all == self.seeded,
                kept.wf(),
                forall|k: (Seq<char>, GroupView)| #[trigger]
                    kept@.contains_key(k) == (!unhosted(nodes, k) && exists|j: int|
                        0 <= j < i && (#[trigger] all.items()[j]).0@ == k),
            decreases self.seeded.items().len() - i,
        {
            let entry = self.seeded.entry(i);
            let ghost before = kept@;
            let gone = self.is_unhosted(&entry.0);
            if !gone {
                kept.insert((entry.0.0.clone(), model::clone_group(&entry.0.1)), ());
            }
            proof {
                let key = all.items()[i as int].0@;
                assert forall|k: (Seq<char>, GroupView)| #[trigger]
                    kept@.contains_key(k) == (!unhosted(nodes, k) && exists|j: int|
                        0 <= j < i + 1 && (#[trigger] all.items()[j]).0@ == k) by {
                    assert(before.contains_key(k) == (!unhosted(nodes, k) && exists|j: int|
                        0 <= j < i && (#[trigger] all.items()[j]).0@ == k));
                    if k == key {
                        assert(all.items()[i as int].0@ == k);
                    }
                }
            }
            i += 1;
        }
        self.seeded = kept;
        proof {
            assert forall|k: (Seq<char>, GroupView)| #[trigger]
                self.seeded@.contains_key(k) == pruned(nodes, all@).contains_key(k) by {
                if exists|j: int|
                    0 <= j < all.items().len() && (#[trigger] all.items()[j]).0@ == k {
                    let j = choose|j: int|
                        0 <= j < all.items().len() && (#[trigger] all.items()[j]).0@ == k;
                    assert(all@.contains_key(all.items()[j].0@));
                }
            }
            assert(self.seeded@ =~= pruned(nodes, all@));
        }
    }
}

/// The names of the nodes that an event takes away from the others, by a crash or by a
/// cut.
pub open spec fn taken_by<M>(event: Event<M>, nodes: Seq<NodeId>) -> Seq<Seq<char>> {
    match event {
        Event::FaultApply(Fault::Crash { nodes: down }) => Seq::new(
            down@.len(),
            |i: int| nodes[down@[i] as int]@,
        ),
        Event::FaultApply(Fault::Partition { id, side_a, side_b }) => model::node_names(side_a@),
        _ => Seq::empty(),
    }
}

/// How many members of `set` are not named in `taken`.
pub open spec fn spared(set: Seq<NodeId>, taken: Seq<Seq<char>>) -> nat
    decreases set.len(),
{
    if set.len() == 0 {
        0
    } else {
        spared(set.drop_last(), taken) + if taken.contains(set.last()@) {
            0nat
        } else {
            1nat
        }
    }
}

/// One node less takes at most one member from a set without repetitions.
proof fn lemma_spared(set: Seq<NodeId>, taken: Seq<Seq<char>>)
    requires
        taken.len() == 1,
        forall|j: int, k: int| 0 <= j < k < set.len() ==> (#[trigger] set[j])@ != (#[trigger] set[k])@,
    ensures
        spared(set, taken) >= set.len() - 1,
        (forall|k: int| 0 <= k < set.len() ==> (#[trigger] set[k])@ != taken[0]) ==> spared(
            set,
            taken,
        ) == set.len(),
    decreases set.len(),
{
    if set.len() > 0 {
        let rest = set.drop_last();
        assert forall|j: int, k: int| 0 <= j < k < rest.len() implies (#[trigger] rest[j])@ != (
        #[trigger] rest[k])@ by {
            assert(rest[j] == set[j] && rest[k] == set[k]);
        }
        lemma_spared(rest, taken);
        let last = set[set.len() - 1];
        if taken.contains(last@) {
            assert(taken[0] == last@);
            assert forall|k: int| 0 <= k < rest.len() implies (#[trigger] rest[k])@ != taken[0] by {
                assert(rest[k] == set[k]);
            }
        } else {
            assert(taken[0] != last@);
            if forall|k: int| 0 <= k < set.len() ==> (#[trigger] set[k])@ != taken[0] {
                assert forall|k: int| 0 <= k < rest.len() implies (#[trigger] rest[k])@
                    != taken[0] by {
                    assert(rest[k] == set[k]);
                }
            }
        }
    }
}

/// Every fault spares a majority of every group, the metadata group and the partition
/// groups alike; and what it took is back before the next fault strikes.
pub proof fn law_faults_spare_every_majority<M>(
    items: Seq<Item<M>>,
    topology: Topology,
    params: ScenarioParameters,
    faults: SplitMix64,
    k: int,
    group: GroupView,
)
    requires
        topology.wf(),
        topology.replication <= topology.nodes@.len(),
        is_fault_plan(items, topology, params, faults),
        0 <= k < items.len(),
        topology.set_of(group) is Some,
    ensures
        2 * spared(topology.set_of(group)->0, taken_by(items[k].1, topology.nodes@))
            > topology.set_of(group)->0.len(),
        items[k].1 matches Event::FaultApply(Fault::Crash { nodes: down }) ==> {
            &&& down@.len() == 1
            &&& 0 <= down@[0] < topology.nodes@.len()
            &&& k + 1 < items.len()
            &&& items[k + 1].1 matches Event::FaultApply(Fault::Restart { nodes: up }) && up@
                == down@
        },
        items[k].1 matches Event::FaultApply(Fault::Partition { id, side_a, side_b }) ==> {
            &&& side_a@.len() == 1
            &&& forall|i: int|
                0 <= i < topology.nodes@.len() && !model::names(
                    side_a@,
                    (#[trigger] topology.nodes@[i])@,
                ) ==> side_b@.contains(topology.nodes@[i])
            &&& k + 1 < items.len()
            &&& items[k + 1].1 == Event::<M>::FaultHeal(id)
        },
        k + 1 < items.len() ==> items[k].0.0 < items[k + 1].0.0,
{
    let nodes = topology.nodes@;
    let c = crash_count(params);
    let n = nodes.len();
    let set = topology.set_of(group)->0;
    let taken = taken_by(items[k].1, nodes);
    assert(faults.below(n as u64) < n);
    let later = after_crash_draw(params, faults, n);
    assert(later.below(n as u64) < n);
    if cut_count(params) > 0 {
        let rest = items.skip(c);
        assert(rest[0] == items[c]);
        assert(rest[1] == items[c + 1]);
        if k == c {
            let victim = later.below(n as u64) as int;
            match items[k].1 {
                Event::FaultApply(Fault::Partition { id, side_a, side_b }) => {
                    assert forall|i: int|
                        0 <= i < n && !model::names(side_a@, (#[trigger] nodes[i])@) implies
                        side_b@.contains(nodes[i]) by {
                        assert(side_a@[0] == nodes[victim]);
                        assert(i != victim);
                        if i < victim {
                            assert(side_b@[i] == nodes[i]);
                        } else {
                            assert(side_b@[i - 1] == nodes[i]);
                        }
                    }
                },
                _ => {},
            }
        }
    }
    lemma_set_is_distinct(topology, group);
    if group != model::meta_group() {
        assert(topology.is_set_of(topology.replica_sets@[group.1.0 as int]@, group.1.0 as int));
    }
    assert(set.len() >= 3);
    if taken.len() == 1 {
        lemma_spared(set, taken);
    } else {
        lemma_all_spared(set, taken);
    }
}

/// Whether `later` undoes what `event` did.
pub open spec fn undoes<M>(later: Event<M>, event: Event<M>) -> bool {
    match (later, event) {
        (
            Event::FaultApply(Fault::Restart { nodes: up }),
            Event::FaultApply(Fault::Crash { nodes: down }),
        ) => up@ == down@,
        (Event::FaultHeal(healed), Event::FaultApply(Fault::Partition { id, side_a, side_b })) => {
            healed == id
        },
        _ => false,
    }
}

/// Whether a later event that is due by `t` undoes the `k`-th.
pub open spec fn undone_by<M>(items: Seq<Item<M>>, k: int, t: VirtualInstant) -> bool {
    exists|j: int|
        k < j < items.len() && (#[trigger] items[j]).0.0 <= t.0 && undoes(items[j].1, items[k].1)
}

/// Whether the `k`-th event is due by `t` and not undone by then.
pub open spec fn in_force<M>(items: Seq<Item<M>>, k: int, t: VirtualInstant) -> bool {
    0 <= k < items.len() && items[k].0.0 <= t.0 && !undone_by(items, k, t)
}

/// Whether the node named `name` is down or cut off at `t`.
pub open spec fn away_at<M>(
    items: Seq<Item<M>>,
    nodes: Seq<NodeId>,
    name: Seq<char>,
    t: VirtualInstant,
) -> bool {
    exists|k: int| #[trigger]
        in_force(items, k, t) && taken_by(items[k].1, nodes).contains(name)
}

/// Whether a cut that is in force at `t` parts two nodes.
pub open spec fn parted_at<M>(
    items: Seq<Item<M>>,
    a: Seq<char>,
    b: Seq<char>,
    t: VirtualInstant,
) -> bool {
    exists|k: int| #[trigger]
        in_force(items, k, t) && (items[k].1 matches Event::FaultApply(
            Fault::Partition { id, side_a, side_b },
        ) && (model::names(side_a@, a) && model::names(side_b@, b) || model::names(side_a@, b)
            && model::names(side_b@, a)))
}

/// How many members of `set` are neither down nor cut off at `t`.
pub open spec fn staying<M>(
    items: Seq<Item<M>>,
    nodes: Seq<NodeId>,
    set: Seq<NodeId>,
    t: VirtualInstant,
) -> nat
    decreases set.len(),
{
    if set.len() == 0 {
        0
    } else {
        staying(items, nodes, set.drop_last(), t) + if away_at(items, nodes, set.last()@, t) {
            0nat
        } else {
            1nat
        }
    }
}

/// Where at most one node is away, at most one member of a set without repetitions is.
proof fn lemma_staying<M>(
    items: Seq<Item<M>>,
    nodes: Seq<NodeId>,
    set: Seq<NodeId>,
    t: VirtualInstant,
    victim: Seq<char>,
)
    requires
        forall|name: Seq<char>| #[trigger] away_at(items, nodes, name, t) ==> name == victim,
        forall|j: int, k: int| 0 <= j < k < set.len() ==> (#[trigger] set[j])@ != (#[trigger] set[k])@,
    ensures
        staying(items, nodes, set, t) >= set.len() - 1,
        (forall|k: int| 0 <= k < set.len() ==> (#[trigger] set[k])@ != victim) ==> staying(
            items,
            nodes,
            set,
            t,
        ) == set.len(),
    decreases set.len(),
{
    if set.len() > 0 {
        let rest = set.drop_last();
        assert forall|j: int, k: int| 0 <= j < k < rest.len() implies (#[trigger] rest[j])@ != (
        #[trigger] rest[k])@ by {
            assert(rest[j] == set[j] && rest[k] == set[k]);
        }
        lemma_staying(items, nodes, rest, t, victim);
        let last = set[set.len() - 1];
        if last@ == victim {
            assert forall|k: int| 0 <= k < rest.len() implies (#[trigger] rest[k])@ != victim by {
                assert(rest[k] == set[k]);
            }
        } else {
            assert(!away_at(items, nodes, last@, t));
            if forall|k: int| 0 <= k < set.len() ==> (#[trigger] set[k])@ != victim {
                assert forall|k: int| 0 <= k < rest.len() implies (#[trigger] rest[k])@
                    != victim by {
                    assert(rest[k] == set[k]);
                }
            }
        }
    }
}

/// Of two faults one is undone before the other strikes.
proof fn lemma_one_fault_at_a_time<M>(
    items: Seq<Item<M>>,
    topology: Topology,
    params: ScenarioParameters,
    faults: SplitMix64,
    k: int,
    l: int,
    t: VirtualInstant,
)
    requires
        topology.wf(),
        is_fault_plan(items, topology, params, faults),
        in_force(items, k, t),
        in_force(items, l, t),
        taken_by(items[k].1, topology.nodes@).len() > 0,
        taken_by(items[l].1, topology.nodes@).len() > 0,
    ensures
        k == l,
        taken_by(items[k].1, topology.nodes@).len() == 1,
{
    let c = crash_count(params);
    if cut_count(params) > 0 {
        let rest = items.skip(c);
        assert(rest[0] == items[c]);
        assert(rest[1] == items[c + 1]);
    }
    if c > 0 {
        assert(undoes(items[1].1, items[0].1));
        if cut_count(params) > 0 && items[c].0.0 <= t.0 {
            assert(items[1].0.0 <= t.0);
            assert(undone_by(items, 0, t));
        }
    }
}

/// At every instant a majority of every group is up and connected: of the metadata group
/// and of the partition groups alike, more members than not are neither down nor cut off
/// by the planned faults, and no two of these are parted.
pub proof fn law_a_majority_stays_at_every_instant<M>(
    items: Seq<Item<M>>,
    topology: Topology,
    params: ScenarioParameters,
    faults: SplitMix64,
    t: VirtualInstant,
    group: GroupView,
)
    requires
        topology.wf(),
        topology.replication <= topology.nodes@.len(),
        is_fault_plan(items, topology, params, faults),
        topology.set_of(group) is Some,
        topology.set_of(group)->0.len() > 0,
    ensures
        2 * staying(items, topology.nodes@, topology.set_of(group)->0, t)
            > topology.set_of(group)->0.len(),
        forall|a: Seq<char>, b: Seq<char>|
            #![trigger parted_at(items, a, b, t)]
            !away_at(items, topology.nodes@, a, t) && !away_at(items, topology.nodes@, b, t)
                ==> !parted_at(items, a, b, t),
{
    let nodes = topology.nodes@;
    let set = topology.set_of(group)->0;
    if items.len() == 0 {
        lemma_all_stay(items, nodes, set, t);
    } else {
        law_faults_spare_every_majority(items, topology, params, faults, 0, group);
        lemma_set_is_distinct(topology, group);
        if group != model::meta_group() {
            assert(topology.is_set_of(topology.replica_sets@[group.1.0 as int]@, group.1.0 as int));
        }
        assert(set.len() >= 3);
        if exists|k: int| #[trigger]
            in_force(items, k, t) && taken_by(items[k].1, nodes).len() > 0 {
            let k = choose|k: int| #[trigger]
                in_force(items, k, t) && taken_by(items[k].1, nodes).len() > 0;
            let victim = taken_by(items[k].1, nodes)[0];
            assert forall|name: Seq<char>| #[trigger] away_at(items, nodes, name, t) implies name
                == victim by {
                let l = choose|l: int| #[trigger]
                    in_force(items, l, t) && taken_by(items[l].1, nodes).contains(name);
                assert(taken_by(items[l].1, nodes).len() > 0);
                lemma_one_fault_at_a_time(items, topology, params, faults, k, l, t);
            }
            lemma_staying(items, nodes, set, t, victim);
        } else {
            assert forall|name: Seq<char>| !(#[trigger] away_at(items, nodes, name, t)) by {
                if away_at(items, nodes, name, t) {
                    let l = choose|l: int| #[trigger]
                        in_force(items, l, t) && taken_by(items[l].1, nodes).contains(name);
                    assert(taken_by(items[l].1, nodes).len() > 0);
                }
            }
            lemma_staying(items, nodes, set, t, Seq::empty());
        }
    }
    assert forall|a: Seq<char>, b: Seq<char>|
        #![trigger parted_at(items, a, b, t)]
        !away_at(items, nodes, a, t) && !away_at(items, nodes, b, t) implies !parted_at(
        items,
        a,
        b,
        t,
    ) by {
        if parted_at(items, a, b, t) {
            let k = choose|k: int| #[trigger]
                in_force(items, k, t) && (items[k].1 matches Event::FaultApply(
                    Fault::Partition { id, side_a, side_b },
                ) && (model::names(side_a@, a) && model::names(side_b@, b) || model::names(
                    side_a@,
                    b,
                ) && model::names(side_b@, a)));
            match items[k].1 {
                Event::FaultApply(Fault::Partition { id, side_a, side_b }) => {
                    let name = if model::names(side_a@, a) {
                        a
                    } else {
                        b
                    };
                    let i = choose|i: int|
                        0 <= i < side_a@.len() && (#[trigger] side_a@[i])@ == name;
                    assert(taken_by(items[k].1, nodes)[i] == name);
                    assert(taken_by(items[k].1, nodes).contains(name));
                },
                _ => {},
            }
        }
    }
}

/// Where nothing is planned, all stay.
proof fn lemma_all_stay<M>(
    items: Seq<Item<M>>,
    nodes: Seq<NodeId>,
    set: Seq<NodeId>,
    t: VirtualInstant,
)
    requires
        items.len() == 0,
    ensures
        staying(items, nodes, set, t) == set.len(),
    decreases set.len(),
{
    if set.len() > 0 {
        lemma_all_stay(items, nodes, set.drop_last(), t);
    }
}

/// The members of a group are on different nodes.
proof fn lemma_set_is_distinct(topology: Topology, group: GroupView)
    requires
        topology.wf(),
        topology.replication <= topology.nodes@.len(),
        topology.set_of(group) is Some,
    ensures
        forall|j: int, l: int|
            0 <= j < l < topology.set_of(group)->0.len() ==> (#[trigger] topology.set_of(
                group,
            )->0[j])@ != (#[trigger] topology.set_of(group)->0[l])@,
{
    let set = topology.set_of(group)->0;
    assert forall|j: int, l: int| 0 <= j < l < set.len() implies (#[trigger] set[j])@ != (
    #[trigger] set[l])@ by {
        if group == model::meta_group() {
            assert(set[j]@ == topology::node_name(j as nat));
            assert(set[l]@ == topology::node_name(l as nat));
            if set[j]@ == set[l]@ {
                topology::law_node_names_are_distinct(j as nat, l as nat);
            }
        } else {
            assert(topology.is_set_of(topology.replica_sets@[group.1.0 as int]@, group.1.0 as int));
            topology::law_replicas_are_distinct(topology, group.1.0 as int, j, l);
        }
    }
}

/// Where nothing is taken, all are spared.
proof fn lemma_all_spared(set: Seq<NodeId>, taken: Seq<Seq<char>>)
    requires
        taken.len() == 0,
    ensures
        spared(set, taken) == set.len(),
    decreases set.len(),
{
    if set.len() > 0 {
        lemma_all_spared(set.drop_last(), taken);
    }
}

/// A replica, by its node's position and its group.
pub type Replica = (usize, GroupKey);

/// Whether the replica of `g` on the `i`-th node is there, on a node that is up, and
/// has no marker.
pub open spec fn unmarked(
    nodes: Seq<SimNode>,
    seeded: Map<(Seq<char>, GroupView), ()>,
    i: int,
    g: GroupView,
) -> bool {
    &&& 0 <= i < nodes.len()
    &&& nodes[i].running
    &&& nodes[i].hosts(g)
    &&& !seeded.contains_key((nodes[i].id@, g))
}

/// Whether `g` comes before `h` on one node: the metadata group first, and then the
/// partition groups in order.
pub open spec fn group_seeds_before(g: GroupView, h: GroupView) -> bool {
    if g == model::meta_group() {
        h != model::meta_group()
    } else {
        h != model::meta_group() && model::group_before(g, h)
    }
}

/// The order in which first election timers are armed: by node, and then by group.
pub open spec fn seeds_before(a: Replica, b: Replica) -> bool {
    a.0 < b.0 || (a.0 == b.0 && group_seeds_before(a.1@, b.1@))
}

/// Whether `list` holds the replica of `g` on the `i`-th node.
pub open spec fn seeds(list: Seq<Replica>, i: int, g: GroupView) -> bool {
    exists|k: int| 0 <= k < list.len() && (#[trigger] list[k]).0 == i && list[k].1@ == g
}

/// `list` is the replicas without a marker, in the order in which they are armed.
pub open spec fn is_seeding(
    list: Seq<Replica>,
    nodes: Seq<SimNode>,
    seeded: Map<(Seq<char>, GroupView), ()>,
) -> bool {
    &&& forall|i: int, g: GroupView| #[trigger]
        seeds(list, i, g) == unmarked(nodes, seeded, i, g)
    &&& forall|a: int, b: int|
        0 <= a < b < list.len() ==> seeds_before(#[trigger] list[a], #[trigger] list[b])
}

/// How many replicas the first `n` nodes host.
pub open spec fn replica_count(nodes: Seq<SimNode>, n: nat) -> nat
    decreases n,
{
    if n == 0 {
        0
    } else {
        replica_count(nodes, (n - 1) as nat) + 1 + nodes[n - 1].fleet.items().len()
    }
}

/// One replica more in a list.
proof fn lemma_seeds_push(list: Seq<Replica>, r: Replica)
    ensures
        forall|i: int, g: GroupView| #[trigger]
            seeds(list.push(r), i, g) == (seeds(list, i, g) || (i == r.0 && g == r.1@)),
{
    let after = list.push(r);
    assert forall|i: int, g: GroupView| #[trigger]
        seeds(after, i, g) == (seeds(list, i, g) || (i == r.0 && g == r.1@)) by {
        if seeds(list, i, g) {
            let k = choose|k: int|
                0 <= k < list.len() && (#[trigger] list[k]).0 == i && list[k].1@ == g;
            assert(after[k].0 == i && after[k].1@ == g);
        }
        if i == r.0 && g == r.1@ {
            assert(after[list.len() as int].0 == i && after[list.len() as int].1@ == g);
        }
        if seeds(after, i, g) {
            let k = choose|k: int|
                0 <= k < after.len() && (#[trigger] after[k]).0 == i && after[k].1@ == g;
            if k < list.len() {
                assert(list[k].0 == i && list[k].1@ == g);
            }
        }
    }
}

impl<M> SimRuntime<M> {
    /// The replicas of one node without a marker, after those in `list`.
    fn push_unmarked(&self, index: usize, list: &mut Vec<Replica>)
        requires
            self.wf(),
            self.cluster.is_up(index as int),
            forall|a: int, b: int|
                0 <= a < b < old(list)@.len() ==> seeds_before(
                    #[trigger] old(list)@[a],
                    #[trigger] old(list)@[b],
                ),
            forall|k: int| 0 <= k < old(list)@.len() ==> (#[trigger] old(list)@[k]).0 < index,
        ensures
            forall|a: int, b: int|
                0 <= a < b < final(list)@.len() ==> seeds_before(
                    #[trigger] final(list)@[a],
                    #[trigger] final(list)@[b],
                ),
            forall|k: int| 0 <= k < final(list)@.len() ==> (#[trigger] final(list)@[k]).0 <= index,
            forall|i: int, g: GroupView| #[trigger]
                seeds(final(list)@, i, g) == (seeds(old(list)@, i, g) || (i == index && unmarked(
                    self.cluster.nodes@,
                    self.seeded@,
                    i,
                    g,
                ))),
            final(list)@.len() <= old(list)@.len() + 1
                + self.cluster.nodes@[index as int].fleet.items().len(),
    {
        let node = &self.cluster.nodes[index];
        let ghost nodes = self.cluster.nodes@;
        let ghost start = list@;
        assert(nodes[index as int].wf(self.cluster.topology));
        let meta = model::metadata_group_key();
        if !self.seeded.contains(&(node.id.clone(), model::clone_group(&meta))) {
            proof {
                lemma_seeds_push(list@, (index, meta));
            }
            list.push((index, meta));
        }
        let ghost first = list@;
        assert forall|i: int, g: GroupView| i == index && !seeds(start, i, g) implies #[trigger] seeds(
            first,
            i,
            g,
        ) == (g == model::meta_group() && unmarked(nodes, self.seeded@, i, g)) by {}
        assert forall|g: GroupView| #[trigger] seeds(start, index as int, g) == false by {
            if seeds(start, index as int, g) {
                let k = choose|k: int|
                    0 <= k < start.len() && (#[trigger] start[k]).0 == index && start[k].1@ == g;
                assert(start[k].0 < index);
            }
        }
        let groups = groups::sorted_groups(node.fleet_replicas());
        let mut j: usize = 0;
        assert(groups@.take(0) =~= Seq::<GroupKey>::empty());
        while j < groups.len()
            invariant
                j <= groups@.len(),
                self.wf(),
                index < nodes.len(),
                nodes == self.cluster.nodes@,
                nodes[index as int].running,
                *node == nodes[index as int],
                node.wf(self.cluster.topology),
                groups::ascending(groups@),
                forall|g: GroupView| #[trigger]
                    groups::lists(groups@, g) == node.fleet@.contains_key(g),
                first.len() <= start.len() + 1,
                first.len() <= list@.len() <= first.len() + j,
                forall|k: int| 0 <= k < first.len() ==> #[trigger] list@[k] == first[k],
                forall|k: int|
                    0 <= k < first.len() ==> (#[trigger] first[k]).0 < index || (first[k].0 == index
                        && first[k].1@ == model::meta_group()),
                forall|k: int|
                    first.len() <= k < list@.len() ==> (#[trigger] list@[k]).0 == index
                        && groups::lists(groups@.take(j as int), list@[k].1@),
                forall|a: int, b: int|
                    0 <= a < b < list@.len() ==> seeds_before(
                        #[trigger] list@[a],
                        #[trigger] list@[b],
                    ),
                forall|i: int, g: GroupView| #[trigger]
                    seeds(list@, i, g) == (seeds(first, i, g) || (i == index && groups::lists(
                        groups@.take(j as int),
                        g,
                    ) && !self.seeded@.contains_key((node.id@, g)))),
            decreases groups@.len() - j,
        {
            let group = model::clone_group(&groups[j]);
            let ghost before = list@;
            let ghost seen = groups@.take(j as int);
            proof {
                groups::lemma_lists_step(groups@, j as int);
                assert(groups::lists(groups@, groups@[j as int]@));
                assert(group@ != model::meta_group());
                lemma_seeds_push(before, (index, group));
            }
            if !self.seeded.contains(&(node.id.clone(), model::clone_group(&group))) {
                proof {
                    let r: Replica = (index, group);
                    assert forall|k: int| 0 <= k < before.len() implies seeds_before(
                        #[trigger] before[k],
                        r,
                    ) by {
                        if k >= first.len() {
                            let h = before[k].1@;
                            assert(groups::lists(seen, h));
                            let q = choose|q: int| 0 <= q < seen.len() && #[trigger] seen[q]@ == h;
                            assert(groups@[q] == seen[q]);
                            assert(model::group_before(groups@[q]@, groups@[j as int]@));
                            assert(groups::lists(groups@, groups@[q]@));
                        }
                    }
                }
                list.push((index, group));
            }
            j += 1;
        }
        assert(groups@.take(j as int) =~= groups@);
        proof {
            assert forall|i: int, g: GroupView| #[trigger]
                seeds(list@, i, g) == (seeds(start, i, g) || (i == index && unmarked(
                    nodes,
                    self.seeded@,
                    i,
                    g,
                ))) by {
                assert(seeds(first, i, g) == (seeds(start, i, g) || (i == index && g
                    == model::meta_group() && !self.seeded@.contains_key((node.id@, g)))));
                assert(groups::lists(groups@, g) == node.fleet@.contains_key(g));
            }
        }
    }

    /// The replicas without a marker, in the order in which they are armed.
    fn to_seed(&self) -> (r: Vec<Replica>)
        requires
            self.wf(),
        ensures
            is_seeding(r@, self.cluster.nodes@, self.seeded@),
            r@.len() <= replica_count(self.cluster.nodes@, self.cluster.nodes@.len()),
    {
        let mut list: Vec<Replica> = Vec::new();
        let mut i: usize = 0;
        while i < self.cluster.nodes.len()
            invariant
                i <= self.cluster.nodes@.len(),
                self.wf(),
                forall|a: int, b: int|
                    0 <= a < b < list@.len() ==> seeds_before(
                        #[trigger] list@[a],
                        #[trigger] list@[b],
                    ),
                forall|k: int| 0 <= k < list@.len() ==> (#[trigger] list@[k]).0 < i,
                forall|m: int, g: GroupView| #[trigger]
                    seeds(list@, m, g) == (m < i && unmarked(
                        self.cluster.nodes@,
                        self.seeded@,
                        m,
                        g,
                    )),
                list@.len() <= replica_count(self.cluster.nodes@, i as nat),
            decreases self.cluster.nodes@.len() - i,
        {
            if self.cluster.nodes[i].is_running() {
                self.push_unmarked(i, &mut list);
            }
            i += 1;
        }
        list
    }
}

/// When the election timers of `n` replicas fire on clocks that run true: each after a
/// delay of its own from the election stream.
pub open spec fn true_instants(clock: SimClock, now: VirtualInstant, n: nat) -> Seq<VirtualInstant> {
    Seq::new(n, |k: int| now.plus(seed_delay(clock, k)))
}

/// The delay of the `k`-th replica's election timer.
pub open spec fn seed_delay(clock: SimClock, k: int) -> VirtualDuration {
    clock::drawn_delay(
        TimerKind::Election,
        ELECTION_TIMEOUT_BASE_NANOS,
        clock.election.advanced_by(k as nat),
    )
}

/// The generation of the election timer of the `k`-th replica of `list`.
pub open spec fn seed_generation(
    clock: SimClock,
    nodes: Seq<SimNode>,
    list: Seq<Replica>,
    k: int,
) -> u64 {
    (clock.generation((marker(nodes, list[k]), TimerKind::Election)) + 1) as u64
}

/// The request for the election timer of the `k`-th replica of `list`.
pub open spec fn seed_request(
    clock: SimClock,
    nodes: Seq<SimNode>,
    list: Seq<Replica>,
    k: int,
) -> ArmRequest {
    ArmRequest {
        node: nodes[list[k].0 as int].id,
        group: list[k].1,
        kind: TimerKind::Election,
        generation: seed_generation(clock, nodes, list, k),
        delay: seed_delay(clock, k),
    }
}

/// The election timer of the `k`-th replica of `list`, which fires at `at[k]`.
pub open spec fn seed_timer(
    clock: SimClock,
    nodes: Seq<SimNode>,
    list: Seq<Replica>,
    at: Seq<VirtualInstant>,
    k: int,
) -> ArmedTimer {
    ArmedTimer {
        at: at[k],
        node: nodes[list[k].0 as int].id,
        group: list[k].1,
        kind: TimerKind::Election,
        generation: seed_generation(clock, nodes, list, k),
    }
}

/// The election timers of the replicas of `list`.
pub open spec fn seed_timers(
    clock: SimClock,
    nodes: Seq<SimNode>,
    list: Seq<Replica>,
    at: Seq<VirtualInstant>,
) -> Seq<ArmedTimer> {
    Seq::new(list.len(), |k: int| seed_timer(clock, nodes, list, at, k))
}

/// The timers of `requests`, the `k`-th of which fires at `at[k]`.
pub open spec fn request_timers(requests: Seq<ArmRequest>, at: Seq<VirtualInstant>) -> Seq<
    ArmedTimer,
> {
    Seq::new(
        requests.len(),
        |k: int|
            ArmedTimer {
                at: at[k],
                node: requests[k].node,
                group: requests[k].group,
                kind: requests[k].kind,
                generation: requests[k].generation,
            },
    )
}

/// When the timers of `requests` fire on clocks that run true.
pub fn instants_of(requests: &[ArmRequest], now: VirtualInstant) -> (r: Vec<VirtualInstant>)
    ensures
        r@.len() == requests@.len(),
        forall|k: int| 0 <= k < r@.len() ==> #[trigger] r@[k] == now.plus(requests@[k].delay),
{
    let mut at: Vec<VirtualInstant> = Vec::new();
    let mut k: usize = 0;
    while k < requests.len()
        invariant
            k <= requests@.len(),
            at@.len() == k,
            forall|j: int| 0 <= j < k ==> #[trigger] at@[j] == now.plus(requests@[j].delay),
        decreases requests@.len() - k,
    {
        at.push(now.saturating_add(requests[k].delay));
        k += 1;
    }
    at
}

/// The name and group of a replica of `list`.
pub open spec fn marker(nodes: Seq<SimNode>, r: Replica) -> (Seq<char>, GroupView) {
    (nodes[r.0 as int].id@, r.1@)
}

/// Whether `list` holds a replica named and grouped so.
pub open spec fn marks(
    list: Seq<Replica>,
    nodes: Seq<SimNode>,
    key: (Seq<char>, GroupView),
) -> bool {
    exists|k: int| 0 <= k < list.len() && marker(nodes, #[trigger] list[k]) == key
}

impl<M> SimRuntime<M> {
    /// Whether the first election timers can be armed and scheduled: no generation and
    /// no event number is used up.
    pub open spec fn can_seed(self) -> bool {
        &&& self.cluster.clock.all_armable()
        &&& self.scheduler.has_room(
            (self.cluster.clock.pending@.len() + replica_count(
                self.cluster.nodes@,
                self.cluster.nodes@.len(),
            )) as int,
        )
    }

    /// Whether the first election timers can be armed and scheduled.
    pub fn can_seed_elections(&self) -> (r: bool)
        requires
            self.wf(),
        ensures
            r == self.can_seed(),
    {
        if !self.cluster.clock.can_arm_all() {
            return false;
        }
        let mut total: u64 = self.cluster.clock.pending.len() as u64;
        let ghost base = total;
        let mut i: usize = 0;
        while i < self.cluster.nodes.len()
            invariant
                i <= self.cluster.nodes@.len(),
                base == self.cluster.clock.pending@.len(),
                total == base + replica_count(self.cluster.nodes@, i as nat),
            decreases self.cluster.nodes@.len() - i,
        {
            let hosted: u64 = self.cluster.nodes[i].fleet_len() as u64;
            proof {
                lemma_replica_count(
                    self.cluster.nodes@,
                    (i + 1) as nat,
                    self.cluster.nodes@.len(),
                );
            }
            total = match total.checked_add(hosted) {
                Some(t) => match t.checked_add(1) {
                    Some(t) => t,
                    None => {
                        return false;
                    },
                },
                None => {
                    return false;
                },
            };
            i += 1;
        }
        self.scheduler.can_schedule(total)
    }

    /// `after` is this run once the first election timer of every replica of `list` was
    /// armed: each is marked, has a timer of a new generation that fires at the instant
    /// given in `at`, and the timers are scheduled in order after those armed before.
    pub open spec fn seeded_at(
        self,
        after: SimRuntime<M>,
        list: Seq<Replica>,
        at: Seq<VirtualInstant>,
    ) -> bool {
        let nodes = self.cluster.nodes@;
        let before = self.cluster.clock;
        let clock = after.cluster.clock;
        let markers = pruned(nodes, self.seeded@);
        &&& at.len() == list.len()
        &&& is_seeding(list, nodes, markers)
        &&& forall|key: (Seq<char>, GroupView)| #[trigger]
            after.seeded@.contains_key(key) == (markers.contains_key(key) || marks(
                list,
                nodes,
                key,
            ))
        &&& if list.len() == 0 {
            after == (SimRuntime { seeded: after.seeded, ..self })
        } else {
            &&& after == (SimRuntime {
                seeded: after.seeded,
                scheduler: after.scheduler,
                cluster: SimulatedCluster { clock, ..self.cluster },
                ..self
            })
            &&& clock.now == self.scheduler.time()
            &&& clock.active is None
            &&& clock.pending@.len() == 0
            &&& clock.election == before.election.advanced_by(list.len())
            &&& generations_seeded(before, clock, list, nodes)
            &&& runtime::all_scheduled(
                self.scheduler,
                after.scheduler,
                runtime::timer_items(before.pending@ + seed_timers(before, nodes, list, at)),
            )
        }
    }

    /// `after` is this run once the first election timer of every replica of `list` was
    /// armed on clocks that run true.
    pub open spec fn seeded_to(self, after: SimRuntime<M>, list: Seq<Replica>) -> bool {
        self.seeded_at(
            after,
            list,
            true_instants(self.cluster.clock, self.scheduler.time(), list.len()),
        )
    }

    /// `after` is this run once the arming of the first election timer of every replica
    /// of `list` has begun: each is marked and has its delay and its generation, as
    /// `requests` says in order.
    pub open spec fn seeding_begun(
        self,
        after: SimRuntime<M>,
        list: Seq<Replica>,
        requests: Seq<ArmRequest>,
    ) -> bool {
        let nodes = self.cluster.nodes@;
        let before = self.cluster.clock;
        let clock = after.cluster.clock;
        let markers = pruned(nodes, self.seeded@);
        &&& is_seeding(list, nodes, markers)
        &&& forall|key: (Seq<char>, GroupView)| #[trigger]
            after.seeded@.contains_key(key) == (markers.contains_key(key) || marks(
                list,
                nodes,
                key,
            ))
        &&& requests.len() == list.len()
        &&& forall|k: int|
            0 <= k < list.len() ==> #[trigger] requests[k] == seed_request(before, nodes, list, k)
        &&& if list.len() == 0 {
            after == (SimRuntime { seeded: after.seeded, ..self })
        } else {
            &&& after == (SimRuntime {
                seeded: after.seeded,
                cluster: SimulatedCluster { clock, ..self.cluster },
                ..self
            })
            &&& clock == (SimClock {
                now: self.scheduler.time(),
                active: Some((nodes[list.last().0 as int].id, list.last().1)),
                election: before.election.advanced_by(list.len()),
                generations: clock.generations,
                ..before
            })
            &&& generations_seeded(before, clock, list, nodes)
        }
    }

    /// `after` is this run once the timers of `requests` are set to fire at the instants
    /// given in `at`, and are scheduled in order after those armed before.
    pub open spec fn seeding_ended(
        self,
        after: SimRuntime<M>,
        requests: Seq<ArmRequest>,
        at: Seq<VirtualInstant>,
    ) -> bool {
        let before = self.cluster.clock;
        let clock = after.cluster.clock;
        if requests.len() == 0 {
            after == self
        } else {
            &&& after == (SimRuntime {
                scheduler: after.scheduler,
                cluster: SimulatedCluster { clock, ..self.cluster },
                ..self
            })
            &&& clock == (SimClock { active: None, pending: clock.pending, ..before })
            &&& clock.pending@.len() == 0
            &&& runtime::all_scheduled(
                self.scheduler,
                after.scheduler,
                runtime::timer_items(before.pending@ + request_timers(requests, at)),
            )
        }
    }

    /// Begin to arm the first election timer of every replica that has none yet: mark it,
    /// and give its timer a delay and a generation. When the timers fire is for
    /// [`SimRuntime::finish_seeding`] to be told, for that depends on how a node's clock
    /// runs.
    pub fn begin_seeding(&mut self) -> (r: Vec<ArmRequest>)
        requires
            old(self).wf(),
            old(self).can_seed(),
        ensures
            final(self).wf(),
            final(self).scheduler.has_room(
                (final(self).cluster.clock.pending@.len() + r@.len()) as int,
            ),
            exists|list: Seq<Replica>| #[trigger] old(self).seeding_begun(*final(self), list, r@),
    {
        let now = self.scheduler.now();
        self.prune_seeded_to_hosted();
        let list = self.to_seed();
        let mut requests: Vec<ArmRequest> = Vec::new();
        if list.len() == 0 {
            assert(old(self).seeding_begun(*self, list@, requests@));
            return requests;
        }
        let ghost start = *self;
        let ghost nodes = self.cluster.nodes@;
        let ghost clock = self.cluster.clock;
        proof {
            lemma_markers_distinct(self.cluster, list@, self.seeded@);
        }
        let mut k: usize = 0;
        while k < list.len()
            invariant
                k <= list@.len(),
                start.wf(),
                start.can_seed(),
                nodes == start.cluster.nodes@,
                clock == start.cluster.clock,
                is_seeding(list@, nodes, start.seeded@),
                forall|a: int, b: int|
                    0 <= a < b < list@.len() ==> marker(nodes, #[trigger] list@[a]) != marker(
                        nodes,
                        #[trigger] list@[b],
                    ),
                self.seeded.wf(),
                self.cluster.clock.wf(),
                *self == (SimRuntime {
                    seeded: self.seeded,
                    cluster: SimulatedCluster { clock: self.cluster.clock, ..start.cluster },
                    ..start
                }),
                self.cluster.clock == (SimClock {
                    now: self.cluster.clock.now,
                    active: self.cluster.clock.active,
                    election: clock.election.advanced_by(k as nat),
                    generations: self.cluster.clock.generations,
                    ..clock
                }),
                k > 0 ==> self.cluster.clock.now == now,
                k > 0 ==> self.cluster.clock.active == Some(
                    (nodes[list@[k - 1].0 as int].id, list@[k - 1].1),
                ),
                requests@.len() == k,
                forall|j: int|
                    0 <= j < k ==> #[trigger] requests@[j] == seed_request(clock, nodes, list@, j),
                forall|key: (Seq<char>, GroupView)| #[trigger]
                    self.seeded@.contains_key(key) == (start.seeded@.contains_key(key) || marks(
                        list@.take(k as int),
                        nodes,
                        key,
                    )),
                generations_seeded(clock, self.cluster.clock, list@.take(k as int), nodes),
            decreases list@.len() - k,
        {
            let ghost before = self.cluster.clock;
            let ghost seen = list@.take(k as int);
            let ghost next = list@.take(k + 1);
            let ghost key = marker(nodes, list@[k as int]);
            let index: usize = list[k].0;
            proof {
                assert(seeds(list@, index as int, list@[k as int].1@));
                assert(unmarked(nodes, start.seeded@, index as int, list@[k as int].1@));
                lemma_marks_step(list@, nodes, k as int);
                assert(!marks(seen, nodes, key)) by {
                    if marks(seen, nodes, key) {
                        let j = choose|j: int|
                            0 <= j < seen.len() && marker(nodes, #[trigger] seen[j]) == key;
                        assert(list@[j] == seen[j]);
                    }
                }
            }
            let id = self.cluster.nodes[index].id.clone();
            let group = model::clone_group(&list[k].1);
            self.cluster.clock.set_now(now);
            self.cluster.clock.set_active(id, group);
            assert(self.cluster.clock.generation((key, TimerKind::Election)) == before.generation(
                (key, TimerKind::Election),
            ));
            assert(before.generation((key, TimerKind::Election)) == clock.generation(
                (key, TimerKind::Election),
            ));
            let request = self.cluster.clock.begin_arm(
                TimerKind::Election,
                ELECTION_TIMEOUT_BASE_NANOS,
            );
            assert(request == seed_request(clock, nodes, list@, k as int));
            requests.push(request);
            self.seeded.insert(
                (self.cluster.nodes[index].id.clone(), model::clone_group(&list[k].1)),
                (),
            );
            proof {
                assert forall|q: (Seq<char>, GroupView), kind: TimerKind| #[trigger]
                    self.cluster.clock.generation((q, kind)) == clock.generation((q, kind)) + if kind
                        == TimerKind::Election && marks(next, nodes, q) {
                        1int
                    } else {
                        0int
                    } by {
                    assert(before.generation((q, kind)) == clock.generation((q, kind)) + if kind
                        == TimerKind::Election && marks(seen, nodes, q) {
                        1int
                    } else {
                        0int
                    });
                    assert(marks(next, nodes, q) == (marks(seen, nodes, q) || q == key));
                }
            }
            k += 1;
        }
        assert(list@.take(k as int) =~= list@);
        assert(old(self).seeding_begun(*self, list@, requests@));
        requests
    }

    /// Let the timers of `requests` fire at the instants given in `at`, and schedule them.
    pub fn finish_seeding(&mut self, requests: Vec<ArmRequest>, at: &[VirtualInstant])
        requires
            old(self).wf(),
            requests@.len() == at@.len(),
            old(self).scheduler.has_room(
                (old(self).cluster.clock.pending@.len() + requests@.len()) as int,
            ),
        ensures
            final(self).wf(),
            old(self).seeding_ended(*final(self), requests@, at@),
    {
        let ghost all = requests@;
        let ghost timers = request_timers(all, at@);
        let ghost clock = self.cluster.clock;
        let n: usize = requests.len();
        if n == 0 {
            return;
        }
        let mut rest = requests;
        let mut k: usize = 0;
        assert(all.skip(0) =~= all);
        assert(clock.pending@ + timers.take(0) =~= clock.pending@);
        while k < n
            invariant
                k <= n,
                n == all.len(),
                n == at@.len(),
                rest@ == all.skip(k as int),
                timers == request_timers(all, at@),
                old(self).wf(),
                clock == old(self).cluster.clock,
                self.cluster.clock.pending@ == clock.pending@ + timers.take(k as int),
                self.cluster.clock == (SimClock { pending: self.cluster.clock.pending, ..clock }),
                *self == (SimRuntime {
                    cluster: SimulatedCluster { clock: self.cluster.clock, ..old(self).cluster },
                    ..*old(self)
                }),
            decreases n - k,
        {
            let request = rest.remove(0);
            assert(request == all[k as int]);
            assert(rest@ =~= all.skip(k + 1));
            self.cluster.clock.finish_arm(request, at[k]);
            proof {
                assert(timers.take(k + 1) =~= timers.take(k as int).push(timers[k as int]));
                assert(self.cluster.clock.pending@ =~= clock.pending@ + timers.take(k + 1));
            }
            k += 1;
        }
        assert(timers.take(k as int) =~= timers);
        self.schedule_armed();
        self.cluster.clock.clear_active();
    }

    /// Arm the first election timer of every replica that has none yet: a replica that
    /// was just spawned or recovered has armed nothing, and without a leader would wait
    /// for ever. The nodes' clocks run true.
    pub fn seed_initial_elections(&mut self)
        requires
            old(self).wf(),
            old(self).can_seed(),
        ensures
            final(self).wf(),
            exists|list: Seq<Replica>| #[trigger] old(self).seeded_to(*final(self), list),
    {
        let requests = self.begin_seeding();
        let ghost mid = *self;
        let ghost asked = requests@;
        let at = instants_of(requests.as_slice(), self.scheduler.now());
        self.finish_seeding(requests, at.as_slice());
        proof {
            let list = choose|list: Seq<Replica>| #[trigger]
                old(self).seeding_begun(mid, list, asked);
            law_two_steps_seed(*old(self), mid, *self, list, asked, at@);
            let exact = true_instants(
                old(self).cluster.clock,
                old(self).scheduler.time(),
                list.len(),
            );
            assert forall|k: int| 0 <= k < at@.len() implies at@[k] == exact[k] by {
                assert(asked[k] == seed_request(
                    old(self).cluster.clock,
                    old(self).cluster.nodes@,
                    list,
                    k,
                ));
            }
            assert(at@ =~= exact);
            assert(old(self).seeded_to(*self, list));
        }
    }
}

/// Whether the election timers of the replicas of `list`, and no others, have a new
/// generation.
pub open spec fn generations_seeded(
    before: SimClock,
    after: SimClock,
    list: Seq<Replica>,
    nodes: Seq<SimNode>,
) -> bool {
    forall|key: (Seq<char>, GroupView), kind: TimerKind| #[trigger]
        after.generation((key, kind)) == before.generation((key, kind)) + if kind
            == TimerKind::Election && marks(list, nodes, key) {
            1int
        } else {
            0int
        }
}

/// Seeding in two steps, with the instants computed in between, is seeding at these
/// instants.
pub proof fn law_two_steps_seed<M>(
    before: SimRuntime<M>,
    mid: SimRuntime<M>,
    after: SimRuntime<M>,
    list: Seq<Replica>,
    requests: Seq<ArmRequest>,
    at: Seq<VirtualInstant>,
)
    requires
        before.seeding_begun(mid, list, requests),
        mid.seeding_ended(after, requests, at),
        at.len() == requests.len(),
    ensures
        before.seeded_at(after, list, at),
{
    let nodes = before.cluster.nodes@;
    let clock = before.cluster.clock;
    if list.len() > 0 {
        assert forall|k: int| 0 <= k < list.len() implies request_timers(requests, at)[k]
            == seed_timers(clock, nodes, list, at)[k] by {
            assert(requests[k] == seed_request(clock, nodes, list, k));
        }
        assert(request_timers(requests, at) =~= seed_timers(clock, nodes, list, at));
        assert forall|key: (Seq<char>, GroupView), kind: TimerKind| #[trigger]
            after.cluster.clock.generation((key, kind)) == clock.generation((key, kind)) + if kind
                == TimerKind::Election && marks(list, nodes, key) {
                1int
            } else {
                0int
            } by {
            assert(after.cluster.clock.generation((key, kind)) == mid.cluster.clock.generation(
                (key, kind),
            ));
        }
    }
}

/// Fewer nodes host no more replicas.
proof fn lemma_replica_count(nodes: Seq<SimNode>, n: nat, m: nat)
    requires
        n <= m,
    ensures
        replica_count(nodes, n) <= replica_count(nodes, m),
    decreases m,
{
    if n < m {
        lemma_replica_count(nodes, n, (m - 1) as nat);
    }
}

/// One replica more in a list adds its marker and no other.
proof fn lemma_marks_step(list: Seq<Replica>, nodes: Seq<SimNode>, k: int)
    requires
        0 <= k < list.len(),
    ensures
        forall|key: (Seq<char>, GroupView)| #[trigger]
            marks(list.take(k + 1), nodes, key) == (marks(list.take(k), nodes, key) || key
                == marker(nodes, list[k])),
{
    let seen = list.take(k);
    let next = list.take(k + 1);
    assert forall|key: (Seq<char>, GroupView)| #[trigger]
        marks(next, nodes, key) == (marks(seen, nodes, key) || key == marker(nodes, list[k])) by {
        if marks(seen, nodes, key) {
            let j = choose|j: int|
                0 <= j < seen.len() && marker(nodes, #[trigger] seen[j]) == key;
            assert(next[j] == seen[j]);
        }
        if key == marker(nodes, list[k]) {
            assert(next[k] == list[k]);
        }
        if marks(next, nodes, key) {
            let j = choose|j: int|
                0 <= j < next.len() && marker(nodes, #[trigger] next[j]) == key;
            if j < k {
                assert(seen[j] == next[j]);
            }
        }
    }
}

/// Different replicas have different markers.
proof fn lemma_markers_distinct<M>(
    c: SimulatedCluster<M>,
    list: Seq<Replica>,
    seeded: Map<(Seq<char>, GroupView), ()>,
)
    requires
        c.wf(),
        is_seeding(list, c.nodes@, seeded),
    ensures
        forall|a: int, b: int|
            0 <= a < b < list.len() ==> marker(c.nodes@, #[trigger] list[a]) != marker(
                c.nodes@,
                #[trigger] list[b],
            ),
{
    assert forall|a: int, b: int| 0 <= a < b < list.len() implies marker(
        c.nodes@,
        #[trigger] list[a],
    ) != marker(c.nodes@, #[trigger] list[b]) by {
        assert(seeds_before(list[a], list[b]));
        assert(seeds(list, list[a].0 as int, list[a].1@));
        assert(seeds(list, list[b].0 as int, list[b].1@));
        let i = list[a].0 as int;
        let j = list[b].0 as int;
        assert(c.nodes@[i].id == c.topology.nodes@[i]);
        assert(c.nodes@[j].id == c.topology.nodes@[j]);
        if i != j {
            c.topology.lemma_index(i);
            c.topology.lemma_index(j);
        } else {
            model::law_group_order(list[a].1@, list[b].1@, list[b].1@);
        }
    }
}

/// After seeding, every replica on a node that is up is marked, so that seeding once
/// more arms nothing; and every marker of such a node is of a replica that it hosts.
pub proof fn law_seeding_is_exhaustive<M>(
    before: SimRuntime<M>,
    after: SimRuntime<M>,
    list: Seq<Replica>,
    at: Seq<VirtualInstant>,
    i: int,
    g: GroupView,
)
    requires
        before.wf(),
        before.seeded_at(after, list, at),
        before.cluster.is_up(i),
    ensures
        before.cluster.nodes@[i].hosts(g) == after.seeded@.contains_key(
            (before.cluster.nodes@[i].id@, g),
        ),
        !unmarked(after.cluster.nodes@, after.seeded@, i, g),
{
    let nodes = before.cluster.nodes@;
    let markers = pruned(nodes, before.seeded@);
    let key = (nodes[i].id@, g);
    assert(seeds(list, i, g) == unmarked(nodes, markers, i, g));
    if seeds(list, i, g) {
        let k = choose|k: int|
            0 <= k < list.len() && (#[trigger] list[k]).0 == i && list[k].1@ == g;
        assert(marker(nodes, list[k]) == key);
    }
    if marks(list, nodes, key) {
        let k = choose|k: int| 0 <= k < list.len() && marker(nodes, #[trigger] list[k]) == key;
        assert(seeds(list, list[k].0 as int, list[k].1@));
        assert(nodes[list[k].0 as int].id == before.cluster.topology.nodes@[list[k].0 as int]);
        assert(nodes[i].id == before.cluster.topology.nodes@[i]);
        before.cluster.topology.lemma_index(list[k].0 as int);
        before.cluster.topology.lemma_index(i);
    }
    if markers.contains_key(key) {
        assert(!unhosted(nodes, key));
    }
    assert(after.seeded@.contains_key(key) == (markers.contains_key(key) || marks(
        list,
        nodes,
        key,
    )));
}

/// Seeding right after seeding changes nothing: no timer is armed, nothing is scheduled,
/// and the same replicas stay marked.
pub proof fn law_seeding_again_changes_nothing<M>(
    before: SimRuntime<M>,
    once: SimRuntime<M>,
    twice: SimRuntime<M>,
    list: Seq<Replica>,
    again: Seq<Replica>,
    at: Seq<VirtualInstant>,
    later: Seq<VirtualInstant>,
)
    requires
        before.wf(),
        before.seeded_at(once, list, at),
        once.seeded_at(twice, again, later),
    ensures
        again.len() == 0,
        twice.seeded@ == once.seeded@,
        twice == (SimRuntime { seeded: twice.seeded, ..once }),
{
    let nodes = before.cluster.nodes@;
    assert(once.cluster.nodes@ == nodes);
    let first = pruned(nodes, before.seeded@);
    let second = pruned(nodes, once.seeded@);
    assert forall|key: (Seq<char>, GroupView)| #[trigger]
        once.seeded@.contains_key(key) implies !unhosted(nodes, key) by {
        if first.contains_key(key) {
            assert(!unhosted(nodes, key));
        } else {
            let k = choose|k: int| 0 <= k < list.len() && marker(nodes, #[trigger] list[k]) == key;
            let i = list[k].0 as int;
            assert(seeds(list, i, list[k].1@));
            assert(unmarked(nodes, first, i, list[k].1@));
            if unhosted(nodes, key) {
                lemma_hosted_here(before.cluster, key, i);
            }
        }
    }
    assert(second =~= once.seeded@);
    if again.len() > 0 {
        let i = again[0].0 as int;
        let g = again[0].1@;
        assert(seeds(again, i, g));
        assert(unmarked(nodes, second, i, g));
        law_seeding_is_exhaustive(before, once, list, at, i, g);
    }
    assert forall|key: (Seq<char>, GroupView)| #[trigger]
        twice.seeded@.contains_key(key) == once.seeded@.contains_key(key) by {}
    assert(twice.seeded@ =~= once.seeded@);
}

/// A node that is up and hosts a group is no reason to drop its marker.
proof fn lemma_hosted_here<M>(c: SimulatedCluster<M>, key: (Seq<char>, GroupView), i: int)
    requires
        c.wf(),
        0 <= i < c.nodes@.len(),
        c.nodes@[i].id@ == key.0,
        c.nodes@[i].hosts(key.1),
    ensures
        !unhosted(c.nodes@, key),
{
    assert(c.nodes@[i].id == c.topology.nodes@[i]);
    c.topology.lemma_index(i);
    assert forall|j: int| 0 <= j < c.nodes@.len() && (#[trigger] c.nodes@[j]).id@ == key.0 implies j
        == i by {
        assert(c.nodes@[j].id == c.topology.nodes@[j]);
        c.topology.lemma_index(j);
    }
}

} // verus!
