//! A whole run: how it is prepared, what is checked after each event, and how it ends.

use crate::checker::kafka_parity::{self, KafkaParityChecker};
use crate::checker::liveness::{self, LivenessChecker, WindowMap};
use crate::checker::raft_safety::{self, CommitMap, LeaderMap, RaftSafetyChecker};
use crate::checker::Violation;
use crate::clock::ArmRequest;
use crate::cluster::{SimNode, SimulatedCluster};
use crate::history;
use crate::model::{self, GroupKey, GroupView, PartitionIndex};
use crate::output;
use crate::rng::SeedStreams;
use crate::runtime::{
    self, Action, FaultNote, Item, Outcome, SimRuntime, CHECK_LOGS_INTERVAL,
    LIVENESS_BUDGET_SECS,
};
use crate::scenario::{Budget, RunConfig, ScenarioError};
use crate::scheduler::{EndReason, Event, Fault, Step, VirtualDuration, VirtualInstant};
use crate::text;
use crate::timeline::{self, Replica};
use crate::workload::{self, ConsumeLimits};
use vstd::prelude::*;

verus! {

/// What is noted of `event`.
pub open spec fn notes<M>(event: Event<M>, note: FaultNote) -> bool {
    match event {
        Event::FaultApply(Fault::Crash { nodes }) => note matches FaultNote::Crash { nodes: n } && n@
            == nodes@,
        Event::FaultApply(Fault::Restart { nodes }) => note matches FaultNote::Restart { nodes: n }
            && n@ == nodes@,
        Event::FaultApply(_) => note is Struck,
        Event::FaultHeal(_) => note is Healed,
        _ => note is Calm,
    }
}

/// What the checkers have to know of `event`.
pub fn note_of<M>(event: &Event<M>) -> (r: FaultNote)
    ensures
        notes(*event, r),
{
    match event {
        Event::FaultApply(Fault::Crash { nodes }) => FaultNote::Crash {
            nodes: model::clone_indices(nodes),
        },
        Event::FaultApply(Fault::Restart { nodes }) => FaultNote::Restart {
            nodes: model::clone_indices(nodes),
        },
        Event::FaultApply(fault) => FaultNote::Struck,
        Event::FaultHeal(id) => FaultNote::Healed,
        _ => FaultNote::Calm,
    }
}

/// What one turn of a run came to.
#[derive(Debug)]
pub enum Turn<M> {
    /// An event fired; `action` is to be done for it.
    Event { note: FaultNote, action: Action<M> },
    /// The run is over.
    Done(EndReason),
}

/// The checkers of a run.
#[derive(Debug)]
pub struct Checkers {
    pub raft_safety: RaftSafetyChecker,
    pub kafka: KafkaParityChecker,
    pub liveness: LivenessChecker,
}

impl Checkers {
    pub open spec fn wf(self) -> bool {
        self.raft_safety.wf() && self.liveness.wf()
    }

    /// Whether the checkers have seen nothing yet.
    pub open spec fn is_new(self) -> bool {
        &&& self.raft_safety.leaders_seen() == LeaderMap::empty()
        &&& self.raft_safety.commits_seen() == CommitMap::empty()
        &&& self.liveness.windows@ == WindowMap::empty()
        &&& self.liveness.allowance == VirtualDuration(5_000_000_000)
    }

    pub fn new() -> (r: Self)
        ensures
            r.wf(),
            r.is_new(),
    {
        Checkers {
            raft_safety: RaftSafetyChecker::new(),
            kafka: KafkaParityChecker::new(),
            liveness: LivenessChecker::new(VirtualDuration::from_secs(LIVENESS_BUDGET_SECS)),
        }
    }
}

/// Whether `g` is one of the first `partitions` groups of a deleted topic.
pub open spec fn is_deleted(deleted: Seq<Seq<char>>, partitions: u32, g: GroupView) -> bool {
    g.1.0 < partitions && deleted.contains(g.0)
}

/// The leaders that stay known when topics were deleted.
pub open spec fn leaders_kept(
    leaders: LeaderMap,
    deleted: Seq<Seq<char>>,
    partitions: u32,
) -> LeaderMap {
    leaders.remove_keys(Set::new(|k: (GroupView, u64)| is_deleted(deleted, partitions, k.0)))
}

/// Whether the node named `name` crashed.
pub open spec fn crashed_by(nodes: Seq<SimNode>, note: FaultNote, name: Seq<char>) -> bool {
    note matches FaultNote::Crash { nodes: indices } && timeline::named_at(nodes, indices@, name)
}

/// The commit indices that stay known when nodes crashed and topics were deleted.
pub open spec fn commits_kept(
    commits: CommitMap,
    nodes: Seq<SimNode>,
    note: FaultNote,
    deleted: Seq<Seq<char>>,
    partitions: u32,
) -> CommitMap {
    commits.remove_keys(
        Set::new(
            |k: (GroupView, Seq<char>)|
                crashed_by(nodes, note, k.1) || is_deleted(deleted, partitions, k.0),
        ),
    )
}

/// What is known of the groups' progress once `note` was taken: every fault and every
/// healing starts all time anew.
pub open spec fn windows_noted(before: WindowMap, after: WindowMap, note: FaultNote) -> bool {
    if note is Calm {
        after == before
    } else {
        liveness::all_closed(before, after)
    }
}

/// The markers that stay when nodes restarted.
pub open spec fn markers_kept(
    nodes: Seq<SimNode>,
    seeded: Map<(Seq<char>, GroupView), ()>,
    note: FaultNote,
) -> Map<(Seq<char>, GroupView), ()> {
    match note {
        FaultNote::Restart { nodes: indices } => seeded.remove_keys(
            Set::new(|k: (Seq<char>, GroupView)| timeline::named_at(nodes, indices@, k.0)),
        ),
        _ => seeded,
    }
}

/// What the checks after an event come to, where `leaders`, `commits` and `windows` were
/// known before.
pub open spec fn checked_to<M>(
    cluster: SimulatedCluster<M>,
    now: VirtualInstant,
    fired: u64,
    leaders: LeaderMap,
    commits: CommitMap,
    windows: WindowMap,
    after: Checkers,
    r: Result<(), Violation>,
) -> bool {
    exists|seen: Result<(), Violation>| #[trigger]
        raft_safety::observed_to(
            leaders,
            commits,
            raft_safety::nodes_seen(cluster.nodes@, false),
            after.raft_safety,
            seen,
            now,
        ) && match seen {
            Err(v) => r == Err::<(), Violation>(v) && after.liveness.windows@ == windows,
            Ok(ok) => {
                &&& liveness::looked_at(windows, after.liveness.windows@, cluster, now)
                &&& if fired % CHECK_LOGS_INTERVAL == 0 {
                    raft_safety::logs_verdict(
                        raft_safety::nodes_seen(cluster.nodes@, true),
                        r,
                        now,
                    )
                } else {
                    r is Ok
                }
            },
        }
}

/// How a run over `cluster` ends whose clients saw `ops`: it fails by the first of the
/// log checks, the checks of what clients were told, and the check for progress that
/// finds something, and else passes.
pub open spec fn concluded<M>(
    cluster: SimulatedCluster<M>,
    ops: Seq<history::RecordedOp>,
    windows: WindowMap,
    allowance: VirtualDuration,
    now: VirtualInstant,
    outcome: Outcome,
) -> bool {
    exists|logs: Result<(), Violation>| #[trigger]
        raft_safety::logs_verdict(raft_safety::nodes_seen(cluster.nodes@, true), logs, now)
            && match logs {
            Err(v) => outcome == failed(v),
            Ok(ok) => exists|parity: Result<(), Violation>| #[trigger]
                kafka_parity::parity_verdict(cluster.nodes@, ops, parity, now) && match parity {
                    Err(v) => outcome == failed(v),
                    Ok(ok) => exists|live: Result<(), Violation>| #[trigger]
                        liveness::liveness_verdict(windows, allowance, live, now) && match live {
                            Err(v) => outcome == failed(v),
                            Ok(ok) => outcome == Outcome::Passed,
                        },
                },
        }
}

/// The outcome of a run in which `v` was found.
pub open spec fn failed(v: Violation) -> Outcome {
    Outcome::Failed { property: v.property, at: v.at, detail: v.detail }
}

impl<M> SimRuntime<M> {
    /// `after` is this run once the next event fired and nothing was done for it yet.
    pub open spec fn fired_to(self, after: SimRuntime<M>) -> bool {
        &&& after == (SimRuntime { scheduler: after.scheduler, ..self })
        &&& self.scheduler.fired_to(after.scheduler)
    }

    /// `after` is this run once the next event fired and its handling began, which asks
    /// for `action`.
    pub open spec fn turned_to(self, after: SimRuntime<M>, action: Action<M>) -> bool {
        exists|mid: SimRuntime<M>| #[trigger]
            self.fired_to(mid) && mid.dispatched_to(
                after,
                action,
                self.scheduler.pending()[0].event,
            )
    }

    /// Fire the next event and begin its handling, unless the run is over.
    pub fn step(&mut self) -> (r: Turn<M>)
        requires
            old(self).wf(),
        ensures
            final(self).wf(),
            match old(self).scheduler.ending() {
                Some(reason) => r == Turn::<M>::Done(reason) && *final(self) == *old(self),
                None => {
                    &&& r matches Turn::Event { note, action }
                    &&& notes(old(self).scheduler.pending()[0].event, note)
                    &&& old(self).turned_to(*final(self), action)
                },
            },
    {
        match self.scheduler.step() {
            Step::Event(scheduled) => {
                let ghost mid = *self;
                assert(old(self).fired_to(mid));
                let note = note_of(&scheduled.event);
                let action = self.dispatch_event(scheduled.event);
                Turn::Event { note, action }
            },
            Step::Done(reason) => Turn::Done(reason),
        }
    }

    /// Forget the commit indices of the nodes that crashed.
    fn forget_crashed(&self, raft_safety: &mut RaftSafetyChecker, indices: &[usize])
        requires
            old(raft_safety).wf(),
        ensures
            final(raft_safety).wf(),
            final(raft_safety).leaders_seen() == old(raft_safety).leaders_seen(),
            final(raft_safety).commits_seen() == old(raft_safety).commits_seen().remove_keys(
                Set::new(
                    |k: (GroupView, Seq<char>)|
                        timeline::named_at(self.cluster.nodes@, indices@, k.1),
                ),
            ),
    {
        let ghost nodes = self.cluster.nodes@;
        let ghost all = raft_safety.commits_seen();
        let mut j: usize = 0;
        assert(all =~= all.remove_keys(
            Set::new(
                |k: (GroupView, Seq<char>)| timeline::named_at(nodes, indices@.take(0), k.1),
            ),
        ));
        while j < indices.len()
            invariant
                j <= indices@.len(),
                nodes == self.cluster.nodes@,
                raft_safety.wf(),
                raft_safety.leaders_seen() == old(raft_safety).leaders_seen(),
                raft_safety.commits_seen() == all.remove_keys(
                    Set::new(
                        |k: (GroupView, Seq<char>)|
                            timeline::named_at(nodes, indices@.take(j as int), k.1),
                    ),
                ),
            decreases indices@.len() - j,
        {
            let index: usize = indices[j];
            match self.cluster.node(index) {
                Some(node) => raft_safety.forget_node_commit(node.id()),
                None => {},
            }
            proof {
                timeline::lemma_named_step(nodes, indices@, j as int);
                assert(raft_safety.commits_seen() =~= all.remove_keys(
                    Set::new(
                        |k: (GroupView, Seq<char>)|
                            timeline::named_at(nodes, indices@.take(j + 1), k.1),
                    ),
                ));
            }
            j += 1;
        }
        assert(indices@.take(j as int) =~= indices@);
    }

    /// Forget the groups of the topics that were deleted.
    fn forget_deleted(&mut self, raft_safety: &mut RaftSafetyChecker)
        requires
            old(self).wf(),
            old(raft_safety).wf(),
        ensures
            final(self).wf(),
            final(raft_safety).wf(),
            final(self).deleted_topics@.len() == 0,
            *final(self) == (SimRuntime {
                deleted_topics: final(self).deleted_topics,
                ..*old(self)
            }),
            final(raft_safety).leaders_seen() == leaders_kept(
                old(raft_safety).leaders_seen(),
                output::texts(old(self).deleted_topics@),
                old(self).cluster.topology.partitions,
            ),
            final(raft_safety).commits_seen() == old(raft_safety).commits_seen().remove_keys(
                Set::new(
                    |k: (GroupView, Seq<char>)|
                        is_deleted(
                            output::texts(old(self).deleted_topics@),
                            old(self).cluster.topology.partitions,
                            k.0,
                        ),
                ),
            ),
    {
        let partitions: u32 = self.cluster.topology.partition_count();
        let ghost leaders = raft_safety.leaders_seen();
        let ghost commits = raft_safety.commits_seen();
        let ghost all = output::texts(self.deleted_topics@);
        let mut t: usize = 0;
        proof {
            lemma_forget(leaders, commits, all.take(0), partitions);
        }
        while t < self.deleted_topics.len()
            invariant
                t <= self.deleted_topics@.len(),
                *self == *old(self),
                partitions == self.cluster.topology.partitions,
                all == output::texts(self.deleted_topics@),
                raft_safety.wf(),
                raft_safety.leaders_seen() == leaders_kept(leaders, all.take(t as int), partitions),
                raft_safety.commits_seen() == commits.remove_keys(
                    Set::new(
                        |k: (GroupView, Seq<char>)|
                            is_deleted(all.take(t as int), partitions, k.0),
                    ),
                ),
            decreases self.deleted_topics@.len() - t,
        {
            let ghost done = all.take(t as int);
            let ghost more = all.take(t + 1);
            let ghost name = all[t as int];
            assert(more =~= done.push(name));
            let ghost l0 = raft_safety.leaders_seen();
            let ghost c0 = raft_safety.commits_seen();
            let mut p: u32 = 0;
            assert(l0 =~= l0.remove_keys(
                Set::new(|k: (GroupView, u64)| k.0.0 == name && k.0.1.0 < 0),
            ));
            assert(c0 =~= c0.remove_keys(
                Set::new(|k: (GroupView, Seq<char>)| k.0.0 == name && k.0.1.0 < 0),
            ));
            while p < partitions
                invariant
                    p <= partitions,
                    t < self.deleted_topics@.len(),
                    all == output::texts(self.deleted_topics@),
                    name == all[t as int],
                    raft_safety.wf(),
                    raft_safety.leaders_seen() == l0.remove_keys(
                        Set::new(|k: (GroupView, u64)| k.0.0 == name && k.0.1.0 < p),
                    ),
                    raft_safety.commits_seen() == c0.remove_keys(
                        Set::new(|k: (GroupView, Seq<char>)| k.0.0 == name && k.0.1.0 < p),
                    ),
                decreases partitions - p,
            {
                let group: GroupKey = (self.deleted_topics[t].clone(), PartitionIndex(p));
                raft_safety.forget_group(&group);
                assert(raft_safety.leaders_seen() =~= l0.remove_keys(
                    Set::new(|k: (GroupView, u64)| k.0.0 == name && k.0.1.0 < p + 1),
                ));
                assert(raft_safety.commits_seen() =~= c0.remove_keys(
                    Set::new(|k: (GroupView, Seq<char>)| k.0.0 == name && k.0.1.0 < p + 1),
                ));
                p += 1;
            }
            proof {
                assert forall|g: GroupView| #[trigger]
                    is_deleted(more, partitions, g) == (is_deleted(done, partitions, g) || (g.0
                        == name && g.1.0 < partitions)) by {
                    if done.contains(g.0) {
                        let i = choose|i: int| 0 <= i < done.len() && done[i] == g.0;
                        assert(more[i] == g.0);
                    }
                    assert(more[t as int] == name);
                    if more.contains(g.0) {
                        let i = choose|i: int| 0 <= i < more.len() && more[i] == g.0;
                        if i < t {
                            assert(done[i] == g.0);
                        }
                    }
                }
                assert(raft_safety.leaders_seen() =~= leaders_kept(leaders, more, partitions));
                assert(raft_safety.commits_seen() =~= commits.remove_keys(
                    Set::new(|k: (GroupView, Seq<char>)| is_deleted(more, partitions, k.0)),
                ));
            }
            t += 1;
        }
        assert(all.take(t as int) =~= all);
        self.deleted_topics = Vec::new();
    }

    /// `after` is this run once the bookkeeping of an event is done: the markers of
    /// nodes that restarted are dropped, first election timers armed to fire at the
    /// instants given in `at`, and deletions forgotten.
    pub open spec fn kept_up(
        self,
        after: SimRuntime<M>,
        mid: SimRuntime<M>,
        note: FaultNote,
        list: Seq<Replica>,
        at: Seq<VirtualInstant>,
    ) -> bool {
        &&& mid == (SimRuntime { seeded: mid.seeded, ..self })
        &&& mid.seeded@ == markers_kept(self.cluster.nodes@, self.seeded@, note)
        &&& after.deleted_topics@.len() == 0
        &&& mid.seeded_at(
            SimRuntime { deleted_topics: self.deleted_topics, ..after },
            list,
            at,
        )
    }

    /// `after` is this run once the bookkeeping of an event is done, with first election
    /// timers that fire at the instants given in `at`.
    pub open spec fn upkept_at(
        self,
        after: SimRuntime<M>,
        note: FaultNote,
        at: Seq<VirtualInstant>,
    ) -> bool {
        exists|mid: SimRuntime<M>, list: Seq<Replica>| #[trigger]
            self.kept_up(after, mid, note, list, at)
    }

    /// `after` is this run once the bookkeeping of an event is done, on clocks that run
    /// true.
    pub open spec fn upkept_to(self, after: SimRuntime<M>, note: FaultNote) -> bool {
        exists|at: Seq<VirtualInstant>|
            {
                &&& #[trigger] self.upkept_at(after, note, at)
                &&& at == timeline::true_instants(
                    self.cluster.clock,
                    self.scheduler.time(),
                    at.len(),
                )
            }
    }

    /// `after` is this run, and `watch` the checkers, once the bookkeeping of an event has
    /// begun: the checkers, which were `before`, know of the event, the markers of nodes
    /// that restarted are dropped, and first election timers are asked for.
    pub open spec fn upkeep_begun(
        self,
        after: SimRuntime<M>,
        before: Checkers,
        watch: Checkers,
        note: FaultNote,
        requests: Seq<ArmRequest>,
    ) -> bool {
        &&& exists|mid: SimRuntime<M>, list: Seq<Replica>|
            {
                &&& #[trigger] mid.seeding_begun(after, list, requests)
                &&& mid == (SimRuntime { seeded: mid.seeded, ..self })
                &&& mid.seeded@ == markers_kept(self.cluster.nodes@, self.seeded@, note)
            }
        &&& windows_noted(before.liveness.windows@, watch.liveness.windows@, note)
        &&& watch.raft_safety.leaders_seen() == before.raft_safety.leaders_seen()
        &&& watch.raft_safety.commits_seen() == before.raft_safety.commits_seen().remove_keys(
            Set::new(
                |k: (GroupView, Seq<char>)| crashed_by(self.cluster.nodes@, note, k.1),
            ),
        )
    }

    /// `after` is this run, and `watch` the checkers, once the bookkeeping of an event is
    /// done that has begun; `r` is what its checks come to.
    pub open spec fn upkeep_ended(
        self,
        after: SimRuntime<M>,
        before: Checkers,
        watch: Checkers,
        requests: Seq<ArmRequest>,
        at: Seq<VirtualInstant>,
        r: Result<(), Violation>,
    ) -> bool {
        let deleted = output::texts(self.deleted_topics@);
        let partitions = self.cluster.topology.partitions;
        &&& self.seeding_ended(
            SimRuntime { deleted_topics: self.deleted_topics, ..after },
            requests,
            at,
        )
        &&& after.deleted_topics@.len() == 0
        &&& checked_to(
            after.cluster,
            self.scheduler.time(),
            self.scheduler.fired(),
            leaders_kept(before.raft_safety.leaders_seen(), deleted, partitions),
            before.raft_safety.commits_seen().remove_keys(
                Set::new(|k: (GroupView, Seq<char>)| is_deleted(deleted, partitions, k.0)),
            ),
            before.liveness.windows@,
            watch,
            r,
        )
    }

    /// `r` is what the checks of an event come to that leave this run as `after` and the
    /// checkers, which were `before`, as `watch`.
    pub open spec fn checked_after(
        self,
        after: SimRuntime<M>,
        before: Checkers,
        watch: Checkers,
        note: FaultNote,
        r: Result<(), Violation>,
    ) -> bool {
        let deleted = output::texts(self.deleted_topics@);
        let partitions = self.cluster.topology.partitions;
        exists|windows: WindowMap| #[trigger]
            windows_noted(before.liveness.windows@, windows, note) && checked_to(
                after.cluster,
                self.scheduler.time(),
                self.scheduler.fired(),
                leaders_kept(before.raft_safety.leaders_seen(), deleted, partitions),
                commits_kept(
                    before.raft_safety.commits_seen(),
                    self.cluster.nodes@,
                    note,
                    deleted,
                    partitions,
                ),
                windows,
                watch,
                r,
            )
    }

    /// Begin the bookkeeping of an event that is done with: let the checkers know of it,
    /// and ask for the first election timers of replicas that are new.
    pub fn begin_upkeep(&mut self, checkers: &mut Checkers, note: &FaultNote) -> (r: Vec<
        ArmRequest,
    >)
        requires
            old(self).wf(),
            old(self).can_seed(),
            old(checkers).wf(),
        ensures
            final(self).wf(),
            final(checkers).wf(),
            final(checkers).liveness.allowance == old(checkers).liveness.allowance,
            final(self).scheduler.has_room(
                (final(self).cluster.clock.pending@.len() + r@.len()) as int,
            ),
            old(self).upkeep_begun(*final(self), *old(checkers), *final(checkers), *note, r@),
    {
        let now = self.scheduler.now();
        let ghost commits = checkers.raft_safety.commits_seen();
        match note {
            FaultNote::Crash { nodes } => {
                self.forget_crashed(&mut checkers.raft_safety, nodes.as_slice());
                checkers.liveness.note_fault(now);
            },
            FaultNote::Restart { nodes } => {
                self.clear_seeded_for(nodes.as_slice());
                checkers.liveness.note_heal(now);
            },
            FaultNote::Struck => {
                checkers.liveness.note_fault(now);
            },
            FaultNote::Healed => {
                checkers.liveness.note_heal(now);
            },
            FaultNote::Calm => {},
        }
        assert(checkers.raft_safety.commits_seen() =~= commits.remove_keys(
            Set::new(
                |k: (GroupView, Seq<char>)| crashed_by(old(self).cluster.nodes@, *note, k.1),
            ),
        ));
        let ghost mid = *self;
        let requests = self.begin_seeding();
        proof {
            let list = choose|list: Seq<Replica>| #[trigger]
                mid.seeding_begun(*self, list, requests@);
            assert(mid.seeding_begun(*self, list, requests@));
        }
        requests
    }

    /// Finish the bookkeeping of an event: let the timers that were asked for fire at the
    /// instants given in `at`, forget what was deleted, and run the checks.
    pub fn finish_upkeep(
        &mut self,
        checkers: &mut Checkers,
        requests: Vec<ArmRequest>,
        at: &[VirtualInstant],
    ) -> (r: Result<(), Violation>)
        requires
            old(self).wf(),
            old(checkers).wf(),
            requests@.len() == at@.len(),
            old(self).scheduler.has_room(
                (old(self).cluster.clock.pending@.len() + requests@.len()) as int,
            ),
        ensures
            final(self).wf(),
            final(checkers).wf(),
            final(checkers).liveness.allowance == old(checkers).liveness.allowance,
            old(self).upkeep_ended(
                *final(self),
                *old(checkers),
                *final(checkers),
                requests@,
                at@,
                r,
            ),
    {
        let now = self.scheduler.now();
        let ghost asked = requests@;
        self.finish_seeding(requests, at);
        let ghost seeded = *self;
        self.forget_deleted(&mut checkers.raft_safety);
        proof {
            if asked.len() > 0 {
                runtime::law_scheduling_is_not_firing(
                    old(self).scheduler,
                    seeded.scheduler,
                    runtime::timer_items::<M>(
                        old(self).cluster.clock.pending@ + timeline::request_timers(asked, at@),
                    ),
                );
            }
            assert(self.scheduler.fired() == old(self).scheduler.fired());
            assert(SimRuntime { deleted_topics: old(self).deleted_topics, ..*self } == seeded);
        }
        let ghost leaders = checkers.raft_safety.leaders_seen();
        let ghost kept = checkers.raft_safety.commits_seen();
        let seen = checkers.raft_safety.observe(&self.cluster, now);
        let ghost verdict = seen;
        match seen {
            Ok(ok) => {},
            Err(v) => {
                return Err(v);
            },
        }
        checkers.liveness.observe(&self.cluster, now);
        let logs = if self.scheduler.events_processed() % CHECK_LOGS_INTERVAL == 0 {
            checkers.raft_safety.check_logs(&self.cluster, now)
        } else {
            Ok(())
        };
        assert(raft_safety::observed_to(
            leaders,
            kept,
            raft_safety::nodes_seen(self.cluster.nodes@, false),
            checkers.raft_safety,
            verdict,
            now,
        ));
        logs
    }

    /// Do the bookkeeping of an event that is done with, on clocks that run true, and run
    /// its checks.
    pub fn after_event(&mut self, checkers: &mut Checkers, note: &FaultNote) -> (r: Result<
        (),
        Violation,
    >)
        requires
            old(self).wf(),
            old(self).can_seed(),
            old(checkers).wf(),
        ensures
            final(self).wf(),
            final(checkers).wf(),
            final(checkers).liveness.allowance == old(checkers).liveness.allowance,
            old(self).upkept_to(*final(self), *note),
            old(self).checked_after(
                *final(self),
                *old(checkers),
                *final(checkers),
                *note,
                r,
            ),
    {
        let requests = self.begin_upkeep(checkers, note);
        let ghost mid = *self;
        let ghost watch = *checkers;
        let ghost asked = requests@;
        let at = timeline::instants_of(requests.as_slice(), self.scheduler.now());
        let r = self.finish_upkeep(checkers, requests, at.as_slice());
        proof {
            law_two_steps_keep_up(
                *old(self),
                mid,
                *self,
                (*old(checkers), watch, *checkers),
                *note,
                asked,
                at@,
                r,
            );
            let clock = old(self).cluster.clock;
            let time = old(self).scheduler.time();
            let (before, list) = choose|before: SimRuntime<M>, list: Seq<Replica>|
                {
                    &&& #[trigger] before.seeding_begun(mid, list, asked)
                    &&& before == (SimRuntime { seeded: before.seeded, ..*old(self) })
                    &&& before.seeded@ == markers_kept(
                        old(self).cluster.nodes@,
                        old(self).seeded@,
                        *note,
                    )
                };
            let exact = timeline::true_instants(clock, time, at@.len());
            assert forall|k: int| 0 <= k < at@.len() implies at@[k] == exact[k] by {
                assert(asked[k] == timeline::seed_request(
                    clock,
                    old(self).cluster.nodes@,
                    list,
                    k,
                ));
            }
            assert(at@ =~= exact);
        }
        r
    }

    /// `outcome` is how this run ends, which leaves it as `after`: what is still pending
    /// is answered, and the last checks are run.
    pub open spec fn ended_to(
        self,
        after: SimRuntime<M>,
        checkers: Checkers,
        outcome: Outcome,
    ) -> bool {
        &&& after == (SimRuntime { pending: after.pending, history: after.history, ..self })
        &&& after.pending@.len() == 0
        &&& history::op_views(after.history.ops@) == history::all_placed(
            history::op_views(self.history.ops@),
            runtime::all_abandoned(self.pending@, self.scheduler.time()),
        )
        &&& concluded(
            self.cluster,
            after.history.ops@,
            checkers.liveness.windows@,
            checkers.liveness.allowance,
            self.scheduler.time(),
            outcome,
        )
    }

    /// End a run that is over: answer what is still pending, and run the last checks.
    pub fn finish_run(&mut self, checkers: &Checkers) -> (r: Outcome)
        requires
            old(self).wf(),
            checkers.wf(),
        ensures
            final(self).wf(),
            old(self).timely() ==> final(self).timely(),
            old(self).ended_to(*final(self), *checkers, r),
    {
        self.flush_pending();
        let now = self.scheduler.now();
        match checkers.raft_safety.check_logs(&self.cluster, now) {
            Ok(ok) => {},
            Err(v) => {
                return Outcome::from(v);
            },
        }
        match checkers.kafka.check(&self.cluster, &self.history, now) {
            Ok(ok) => {},
            Err(v) => {
                return Outcome::from(v);
            },
        }
        match checkers.liveness.check(now) {
            Ok(ok) => Outcome::Passed,
            Err(v) => Outcome::from(v),
        }
    }
}

/// The bookkeeping of an event in two steps, with the instants computed in between, is
/// its bookkeeping with timers that fire at these instants, and comes to the same checks.
pub proof fn law_two_steps_keep_up<M>(
    before: SimRuntime<M>,
    mid: SimRuntime<M>,
    after: SimRuntime<M>,
    checkers: (Checkers, Checkers, Checkers),
    note: FaultNote,
    requests: Seq<ArmRequest>,
    at: Seq<VirtualInstant>,
    r: Result<(), Violation>,
)
    requires
        before.upkeep_begun(mid, checkers.0, checkers.1, note, requests),
        mid.upkeep_ended(after, checkers.1, checkers.2, requests, at, r),
        at.len() == requests.len(),
    ensures
        before.upkept_at(after, note, at),
        before.checked_after(after, checkers.0, checkers.2, note, r),
{
    let (start, list) = choose|start: SimRuntime<M>, list: Seq<Replica>|
        {
            &&& #[trigger] start.seeding_begun(mid, list, requests)
            &&& start == (SimRuntime { seeded: start.seeded, ..before })
            &&& start.seeded@ == markers_kept(before.cluster.nodes@, before.seeded@, note)
        };
    let seeded = SimRuntime { deleted_topics: mid.deleted_topics, ..after };
    timeline::law_two_steps_seed(start, mid, seeded, list, requests, at);
    assert(before.kept_up(after, start, note, list, at));
    let deleted = output::texts(before.deleted_topics@);
    let partitions = before.cluster.topology.partitions;
    let commits = checkers.0.raft_safety.commits_seen();
    assert(checkers.1.raft_safety.commits_seen().remove_keys(
        Set::new(|k: (GroupView, Seq<char>)| is_deleted(deleted, partitions, k.0)),
    ) =~= commits_kept(commits, before.cluster.nodes@, note, deleted, partitions));
    assert(windows_noted(
        checkers.0.liveness.windows@,
        checkers.1.liveness.windows@,
        note,
    ));
}

/// Where no topic was deleted, nothing is forgotten.
proof fn lemma_forget(
    leaders: LeaderMap,
    commits: CommitMap,
    none: Seq<Seq<char>>,
    partitions: u32,
)
    requires
        none.len() == 0,
    ensures
        leaders_kept(leaders, none, partitions) == leaders,
        commits.remove_keys(
            Set::new(|k: (GroupView, Seq<char>)| is_deleted(none, partitions, k.0)),
        ) == commits,
{
    assert(leaders_kept(leaders, none, partitions) =~= leaders);
    assert(commits.remove_keys(
        Set::new(|k: (GroupView, Seq<char>)| is_deleted(none, partitions, k.0)),
    ) =~= commits);
}

/// The budget of a run: that of its parameters, but for an event count given from
/// outside.
pub open spec fn budget_of(config: RunConfig, max_events: Option<u64>) -> Budget {
    match max_events {
        Some(n) => Budget { max_events: n, ..config.params.budget },
        None => config.params.budget,
    }
}

/// The environment variable that bounds the events of a run.
pub const MAX_EVENTS_ENV: &'static str = "VELA_DST_MAX_EVENTS";

/// The event count that the environment gives: its value, where it reads as a number.
pub fn max_events_override(value: Option<String>) -> (r: Option<u64>)
    ensures
        r == (match value {
            Some(raw) => text::read_u64(text::trimmed(raw@)),
            None => None,
        }),
{
    match value {
        Some(raw) => {
            let (lo, hi) = text::trim_bounds(raw.as_str());
            text::parse_u64(raw.as_str(), lo, hi)
        },
        None => None,
    }
}

/// What is wrong with the parameters of `config`.
pub open spec fn fault_in(config: RunConfig) -> ScenarioError {
    if config.params.replication_factor == 0 {
        ScenarioError::ReplicationFactorZero
    } else if config.params.replication_factor > config.params.node_count {
        ScenarioError::ReplicationFactorTooHigh {
            replication_factor: config.params.replication_factor,
            node_count: config.params.node_count,
        }
    } else {
        ScenarioError::PartitionCountZero
    }
}

/// The stages of preparing a run: `start` is a new run over the cluster of `config`
/// with its workload drawn, `issued` has the client operations on its timeline,
/// `planned` the faults as well, and `after` the first election timers.
pub open spec fn prepared<M>(
    config: RunConfig,
    limits: ConsumeLimits,
    max_events: Option<u64>,
    start: SimRuntime<M>,
    issued: SimRuntime<M>,
    planned: SimRuntime<M>,
    after: SimRuntime<M>,
) -> bool {
    let streams = SeedStreams::of(config.seed);
    let size = config.params.workload_size as nat;
    &&& start.wf()
    &&& start.cluster.is_initial(config)
    &&& start.is_new(start.cluster, budget_of(config, max_events))
    &&& start.workload.views() == workload::drawn_ops(
        streams.workload,
        workload::shape_of(config.params, limits),
        size,
    ).0
    &&& issued == (SimRuntime { scheduler: issued.scheduler, ..start })
    &&& runtime::all_scheduled(start.scheduler, issued.scheduler, timeline::op_items(size))
    &&& planned == (SimRuntime { scheduler: planned.scheduler, ..start })
    &&& exists|items: Seq<Item<M>>| #[trigger]
        timeline::is_fault_plan(
            items,
            start.cluster.topology,
            config.params,
            streams.faults,
        ) && runtime::all_scheduled(issued.scheduler, planned.scheduler, items)
    &&& exists|list: Seq<Replica>| #[trigger] planned.seeded_to(after, list)
}

/// Prepare the run of `config`. Parameters that no cluster can be built from make the
/// run invalid.
pub fn prepare_run<M>(config: RunConfig, limits: ConsumeLimits, max_events: Option<u64>) -> (r:
    Result<SimRuntime<M>, Outcome>)
    requires
        limits.wf(),
        config.params.workload_size > 0 ==> runtime::CLIENT_OP_START_NANOS + (
        config.params.workload_size - 1) * runtime::CLIENT_OP_INTERVAL_NANOS <= u64::MAX,
        config.params.workload_size + 4 + config.params.node_count <= u64::MAX,
    ensures
        match r {
            Ok(rt) => {
                &&& config.params.consistent()
                &&& rt.wf()
                &&& exists|start: SimRuntime<M>, issued: SimRuntime<M>, planned: SimRuntime<M>|
                 #[trigger]
                    prepared(config, limits, max_events, start, issued, planned, rt)
            },
            Err(outcome) => {
                &&& !config.params.consistent()
                &&& outcome matches Outcome::Invalid { detail } && detail@ == fault_in(
                    config,
                ).text()
            },
        },
{
    match config.params.validate() {
        Ok(ok) => {},
        Err(e) => {
            return Err(Outcome::Invalid { detail: e.message() });
        },
    }
    let cluster: SimulatedCluster<M> = match SimulatedCluster::new(config) {
        Ok(cluster) => cluster,
        Err(e) => {
            return Err(Outcome::Invalid { detail: e.message() });
        },
    };
    let mut budget = config.params.budget;
    match max_events {
        Some(n) => {
            budget.max_events = n;
        },
        None => {},
    }
    let mut streams = SeedStreams::new(config.seed);
    let drawn = workload::generate(&config.params, limits, &mut streams.workload);
    proof {
        workload::law_workload_in_bounds(
            SeedStreams::of(config.seed).workload,
            workload::shape_of(config.params, limits),
            config.params.workload_size as nat,
        );
    }
    let mut rt = SimRuntime::new(cluster, budget);
    rt.workload = drawn;
    let ghost start = rt;
    assert(start.workload.views().len() == start.workload.ops@.len());
    rt.seed_workload_timeline();
    let ghost issued = rt;
    proof {
        runtime::law_scheduling_is_not_firing(
            start.scheduler,
            issued.scheduler,
            timeline::op_items::<M>(start.workload.ops@.len()),
        );
    }
    rt.seed_fault_schedule(&config.params, &mut streams.faults);
    let ghost planned = rt;
    proof {
        let items = choose|items: Seq<Item<M>>| #[trigger]
            timeline::is_fault_plan(
                items,
                start.cluster.topology,
                config.params,
                SeedStreams::of(config.seed).faults,
            ) && runtime::all_scheduled(issued.scheduler, planned.scheduler, items);
        runtime::law_scheduling_is_not_firing(issued.scheduler, planned.scheduler, items);
        lemma_fresh_replicas(start.cluster.nodes@, start.cluster.nodes@.len());
        assert(planned.cluster.clock.all_armable());
    }
    rt.seed_initial_elections();
    assert(prepared(config, limits, max_events, start, issued, planned, rt));
    Ok(rt)
}

/// Nodes without partition replicas host one replica each.
proof fn lemma_fresh_replicas(nodes: Seq<SimNode>, n: nat)
    requires
        n <= nodes.len(),
        forall|i: int|
            0 <= i < nodes.len() ==> (#[trigger] nodes[i]).fleet.wf() && nodes[i].fleet@ == Map::<
                GroupView,
                crate::cluster::ReplicaState,
            >::empty(),
    ensures
        timeline::replica_count(nodes, n) == n,
    decreases n,
{
    if n > 0 {
        lemma_fresh_replicas(nodes, (n - 1) as nat);
        let fleet = nodes[n - 1].fleet;
        fleet.lemma_items();
        if fleet.items().len() > 0 {
            assert(fleet@.contains_key(fleet.items()[0].0@));
        }
    }
}

/// A run that passed has, in the end, logs that agree, clients that were told the truth
/// on every partition that still counts, one catalogue, and no group that is overdue.
pub proof fn law_passed_means_every_check_held<M>(
    cluster: SimulatedCluster<M>,
    ops: Seq<history::RecordedOp>,
    windows: WindowMap,
    allowance: VirtualDuration,
    now: VirtualInstant,
)
    requires
        concluded(cluster, ops, windows, allowance, now, Outcome::Passed),
    ensures
        ({
            let obs = raft_safety::nodes_seen(cluster.nodes@, true);
            &&& raft_safety::logs_match(obs)
            &&& raft_safety::committed_run(obs, obs.len()) matches Some(committed)
            &&& raft_safety::leaders_complete(obs, committed)
        }),
        forall|g: GroupView| #[trigger]
            kafka_parity::checked(ops, g) ==> kafka_parity::sound(
                kafka_parity::partition_of(cluster.nodes@, ops, g),
            ),
        kafka_parity::converged(kafka_parity::served_catalogues(cluster.nodes@)),
        forall|g: GroupView| #[trigger]
            windows.contains_key(g) ==> !windows[g].overdue(now, allowance),
{
}

/// However a run goes on, it never fires more events than its budget has.
pub proof fn law_event_budget_bounds_the_run<M>(rt: SimRuntime<M>)
    requires
        rt.wf(),
    ensures
        rt.scheduler.fired() <= rt.scheduler.limits().max_events,
        rt.scheduler.fired() == rt.scheduler.limits().max_events ==> rt.scheduler.ending()
            == Some(EndReason::EventBudget),
{
}

/// A crash drops what is known of the crashed node's commit indices and keeps who led
/// which term; deleting a topic drops both for its groups, and for no other group.
pub proof fn law_incarnations_start_clean(
    leaders: LeaderMap,
    commits: CommitMap,
    nodes: Seq<SimNode>,
    note: FaultNote,
    deleted: Seq<Seq<char>>,
    partitions: u32,
    g: GroupView,
    term: u64,
    name: Seq<char>,
)
    ensures
        is_deleted(deleted, partitions, g) ==> !leaders_kept(
            leaders,
            deleted,
            partitions,
        ).contains_key((g, term)) && !commits_kept(
            commits,
            nodes,
            note,
            deleted,
            partitions,
        ).contains_key((g, name)),
        crashed_by(nodes, note, name) ==> !commits_kept(
            commits,
            nodes,
            note,
            deleted,
            partitions,
        ).contains_key((g, name)),
        !is_deleted(deleted, partitions, g) ==> leaders_kept(
            leaders,
            deleted,
            partitions,
        ).contains_key((g, term)) == leaders.contains_key((g, term)),
        !is_deleted(deleted, partitions, g) && !crashed_by(nodes, note, name) ==> commits_kept(
            commits,
            nodes,
            note,
            deleted,
            partitions,
        ).contains_key((g, name)) == commits.contains_key((g, name)),
{
}

/// The faults that a prepared run has on its timeline leave every group a majority that
/// is up and connected, at every instant.
pub proof fn law_prepared_runs_keep_majorities<M>(
    config: RunConfig,
    limits: ConsumeLimits,
    max_events: Option<u64>,
    runs: (SimRuntime<M>, SimRuntime<M>, SimRuntime<M>, SimRuntime<M>),
    t: VirtualInstant,
    group: GroupView,
)
    requires
        config.params.consistent(),
        prepared(config, limits, max_events, runs.0, runs.1, runs.2, runs.3),
        runs.0.cluster.topology.set_of(group) is Some,
    ensures
        exists|items: Seq<Item<M>>|
            {
                &&& #[trigger] timeline::is_fault_plan(
                    items,
                    runs.0.cluster.topology,
                    config.params,
                    SeedStreams::of(config.seed).faults,
                )
                &&& runtime::all_scheduled(runs.1.scheduler, runs.2.scheduler, items)
                &&& 2 * timeline::staying(
                    items,
                    runs.0.cluster.topology.nodes@,
                    runs.0.cluster.topology.set_of(group)->0,
                    t,
                ) > runs.0.cluster.topology.set_of(group)->0.len()
            },
{
    let topology = runs.0.cluster.topology;
    let faults = SeedStreams::of(config.seed).faults;
    let items = choose|items: Seq<Item<M>>| #[trigger]
        timeline::is_fault_plan(items, topology, config.params, faults) && runtime::all_scheduled(
            runs.1.scheduler,
            runs.2.scheduler,
            items,
        );
    if group != model::meta_group() {
        let p = group.1.0 as int;
        assert(topology.is_set_of(topology.replica_sets@[p]@, p));
    }
    timeline::law_a_majority_stays_at_every_instant(
        items,
        topology,
        config.params,
        faults,
        t,
        group,
    );
}

} // verus!
