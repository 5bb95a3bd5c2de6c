//! The Raft safety checker.
//!
//! Every event it looks at roles, terms and commit indices: no term of a group has
//! two leaders, and no replica's commit index falls within one incarnation. From
//! time to time it looks at whole logs: replicas agree on what is committed, logs
//! that agree at an entry agree before it, and a leader holds what was committed
//! before its term.

use super::{PropertyId, Violation, ViolationView};
use crate::cluster::{ReplicaState, SimNode, SimulatedCluster};
use crate::groups;
use crate::keyed::{KeyTest, KeyedMap};
use crate::model::{
    self, EntryPayload, GroupKey, GroupView, LogEntry, LogEntryView, NodeId, PayloadView, Role,
};
use crate::scheduler::VirtualInstant;
use crate::sorted::SortedMap;
use crate::text;
use vstd::prelude::*;

verus! {

/// What an entry is, apart from where it stands.
#[derive(Debug, PartialEq, Eq)]
pub struct Fingerprint {
    pub term: u64,
    pub payload: EntryPayload,
}

/// A fingerprint as a mathematical value.
pub struct FingerprintView {
    pub term: u64,
    pub payload: PayloadView,
}

impl View for Fingerprint {
    type V = FingerprintView;

    open spec fn view(&self) -> FingerprintView {
        FingerprintView { term: self.term, payload: self.payload@ }
    }
}

/// The fingerprint of an entry.
pub open spec fn print(entry: LogEntryView) -> FingerprintView {
    FingerprintView { term: entry.term, payload: entry.payload }
}

impl Fingerprint {
    pub fn of(entry: &LogEntry) -> (r: Self)
        ensures
            r@ == print(entry@),
    {
        Fingerprint { term: entry.term, payload: entry.payload.clone() }
    }

    /// Whether this is the fingerprint of `entry`.
    pub fn matches(&self, entry: &LogEntry) -> (r: bool)
        ensures
            r == (self@ == print(entry@)),
    {
        self.term == entry.term && self.payload.same(&entry.payload)
    }
}

/// Whether two entries have one fingerprint.
fn same_print(a: &LogEntry, b: &LogEntry) -> (r: bool)
    ensures
        r == (print(a@) == print(b@)),
{
    a.term == b.term && a.payload.same(&b.payload)
}

/// What was seen of one replica at one moment.
#[derive(Debug)]
pub struct ReplicaObservation {
    pub group: GroupKey,
    pub node: NodeId,
    pub role: Role,
    pub term: u64,
    pub commit_index: Option<u64>,
    pub log: Vec<LogEntry>,
}

/// An observation as a mathematical value.
#[verifier::ext_equal]
pub struct ObservationView {
    pub group: GroupView,
    pub node: Seq<char>,
    pub role: Role,
    pub term: u64,
    pub commit_index: Option<u64>,
    pub log: Seq<LogEntryView>,
}

/// The entries of a log, as mathematical values.
pub open spec fn entry_views(log: Seq<LogEntry>) -> Seq<LogEntryView> {
    Seq::new(log.len(), |i: int| log[i]@)
}

impl View for ReplicaObservation {
    type V = ObservationView;

    open spec fn view(&self) -> ObservationView {
        ObservationView {
            group: self.group@,
            node: self.node@,
            role: self.role,
            term: self.term,
            commit_index: self.commit_index,
            log: entry_views(self.log@),
        }
    }
}

/// The observations of a list, as mathematical values.
pub open spec fn obs_views(obs: Seq<ReplicaObservation>) -> Seq<ObservationView> {
    Seq::new(obs.len(), |i: int| obs[i]@)
}

/// What is seen of a replica, with or without its log.
pub open spec fn seen(
    group: GroupView,
    node: Seq<char>,
    state: ReplicaState,
    with_log: bool,
) -> ObservationView {
    ObservationView {
        group,
        node,
        role: state.role,
        term: state.term,
        commit_index: state.commit_index,
        log: if with_log {
            entry_views(state.log@)
        } else {
            Seq::empty()
        },
    }
}

/// What is seen of a node's replicas of `list`.
pub open spec fn listed_seen(
    node: Seq<char>,
    fleet: Map<GroupView, ReplicaState>,
    list: Seq<GroupView>,
    with_log: bool,
) -> Seq<ObservationView> {
    Seq::new(list.len(), |i: int| seen(list[i], node, fleet[list[i]], with_log))
}

/// What is seen of a node's partition replicas, in the order of their groups.
pub open spec fn fleet_seen(
    node: Seq<char>,
    fleet: Map<GroupView, ReplicaState>,
    with_log: bool,
) -> Seq<ObservationView> {
    listed_seen(node, fleet, groups::listing(fleet.dom()), with_log)
}

/// What is seen of a node's metadata replica.
pub open spec fn meta_seen(node: SimNode, with_log: bool) -> Seq<ObservationView> {
    match node.controller {
        Some(state) => seq![seen(model::meta_group(), node.id@, state, with_log)],
        None => Seq::empty(),
    }
}

/// What is seen of a node: its metadata replica, then its partition replicas in order;
/// nothing while it is down.
pub open spec fn node_seen(node: SimNode, with_log: bool) -> Seq<ObservationView> {
    if !node.running {
        Seq::empty()
    } else {
        meta_seen(node, with_log) + fleet_seen(node.id@, node.fleet@, with_log)
    }
}

/// What is seen of the nodes, in order.
pub open spec fn nodes_seen(nodes: Seq<SimNode>, with_log: bool) -> Seq<ObservationView>
    decreases nodes.len(),
{
    if nodes.len() == 0 {
        Seq::empty()
    } else {
        nodes_seen(nodes.drop_last(), with_log) + node_seen(nodes.last(), with_log)
    }
}

/// Look at one replica.
fn snapshot(group: GroupKey, node: NodeId, state: &ReplicaState, with_log: bool) -> (r:
    ReplicaObservation)
    ensures
        r@ == seen(group@, node@, *state, with_log),
{
    let mut log: Vec<LogEntry> = Vec::new();
    if with_log {
        let mut i: usize = 0;
        while i < state.log.len()
            invariant
                i <= state.log@.len(),
                log@.len() == i,
                forall|k: int| 0 <= k < i ==> (#[trigger] log@[k])@ == state.log@[k]@,
            decreases state.log@.len() - i,
        {
            log.push(state.log[i].clone());
            i += 1;
        }
        assert(entry_views(log@) =~= entry_views(state.log@));
    } else {
        assert(entry_views(log@) =~= Seq::empty());
    }
    ReplicaObservation {
        group,
        node,
        role: state.role,
        term: state.term,
        commit_index: state.commit_index,
        log,
    }
}

/// Look at every replica of every node that is up.
pub fn collect<M>(cluster: &SimulatedCluster<M>, with_log: bool) -> (r: Vec<ReplicaObservation>)
    requires
        cluster.wf(),
    ensures
        obs_views(r@) == nodes_seen(cluster.nodes@, with_log),
{
    let mut obs: Vec<ReplicaObservation> = Vec::new();
    let mut i: usize = 0;
    assert(cluster.nodes@.take(0) =~= Seq::empty());
    assert(obs_views(obs@) =~= Seq::empty());
    while i < cluster.nodes.len()
        invariant
            i <= cluster.nodes@.len(),
            cluster.wf(),
            obs_views(obs@) == nodes_seen(cluster.nodes@.take(i as int), with_log),
        decreases cluster.nodes@.len() - i,
    {
        let node = &cluster.nodes[i];
        let ghost before = obs_views(obs@);
        assert(cluster.nodes@.take(i + 1).drop_last() =~= cluster.nodes@.take(i as int));
        if node.running {
            match &node.controller {
                Some(state) => {
                    obs.push(
                        snapshot(model::metadata_group_key(), node.id.clone(), state, with_log),
                    );
                },
                None => {},
            }
            let ghost meta = meta_seen(*node, with_log);
            assert(obs_views(obs@) =~= before + meta);
            assert(cluster.nodes@[i as int].wf(cluster.topology));
            let groups = groups::sorted_groups(&node.fleet);
            let ghost list = groups::views(groups@);
            let ghost fleet = node.fleet@;
            let mut k: usize = 0;
            assert(listed_seen(node.id@, fleet, list.take(0), with_log) =~= Seq::empty());
            while k < groups.len()
                invariant
                    k <= groups@.len(),
                    list == groups::views(groups@),
                    fleet == node.fleet@,
                    node.fleet.wf(),
                    forall|g: GroupView| #[trigger]
                        groups::lists(groups@, g) == fleet.contains_key(g),
                    obs_views(obs@) == before + meta + listed_seen(
                        node.id@,
                        fleet,
                        list.take(k as int),
                        with_log,
                    ),
                decreases groups@.len() - k,
            {
                let ghost prior = obs_views(obs@);
                assert(groups::lists(groups@, groups@[k as int]@));
                match node.fleet.get(&groups[k]) {
                    Some(state) => {
                        let group = model::clone_group(&groups[k]);
                        let o = snapshot(group, node.id.clone(), state, with_log);
                        obs.push(o);
                        assert(obs_views(obs@) =~= prior.push(o@));
                        assert(listed_seen(node.id@, fleet, list.take(k + 1), with_log)
                            =~= listed_seen(
                            node.id@,
                            fleet,
                            list.take(k as int),
                            with_log,
                        ).push(o@));
                    },
                    None => {
                        assert(false);
                    },
                }
                k += 1;
                assert(obs_views(obs@) =~= before + meta + listed_seen(
                    node.id@,
                    fleet,
                    list.take(k as int),
                    with_log,
                ));
            }
            assert(list.take(k as int) =~= list);
            assert(obs_views(obs@) =~= before + node_seen(*node, with_log));
        } else {
            assert(before + node_seen(*node, with_log) =~= before);
        }
        i += 1;
    }
    assert(cluster.nodes@.take(i as int) =~= cluster.nodes@);
    obs
}

/// The latest term and commit index seen of a replica.
#[derive(Clone, Copy, Debug, PartialEq, Eq, Structural)]
pub struct CommitHighWater {
    pub term: u64,
    pub commit: Option<u64>,
}

/// The leader seen in each term of each group.
pub type LeaderMap = Map<(GroupView, u64), Seq<char>>;

/// The latest state seen of each replica of each group.
pub type CommitMap = Map<(GroupView, Seq<char>), CommitHighWater>;

/// Take note of an observation's leadership; nothing where the term has another
/// leader already.
pub open spec fn election_step(leaders: LeaderMap, o: ObservationView) -> Option<LeaderMap> {
    let key = (o.group, o.term);
    if o.role != Role::Leader {
        Some(leaders)
    } else if leaders.contains_key(key) {
        if leaders[key] == o.node {
            Some(leaders)
        } else {
            None
        }
    } else {
        Some(leaders.insert(key, o.node))
    }
}

/// Take note of the first `n` observations; nothing once one of them conflicts.
pub open spec fn election_run(leaders: LeaderMap, obs: Seq<ObservationView>, n: nat) -> Option<
    LeaderMap,
>
    decreases n,
{
    if n == 0 {
        Some(leaders)
    } else {
        match election_run(leaders, obs, (n - 1) as nat) {
            Some(m) => election_step(m, obs[n - 1]),
            None => None,
        }
    }
}

/// Whether one commit index lies below another; no commit lies below any.
pub open spec fn commit_below(a: Option<u64>, b: Option<u64>) -> bool {
    match (a, b) {
        (None, Some(y)) => true,
        (Some(x), Some(y)) => x < y,
        _ => false,
    }
}

/// Take note of an observation's commit index; nothing where it fell although the
/// term did not.
pub open spec fn commit_step(commits: CommitMap, o: ObservationView) -> Option<CommitMap> {
    let key = (o.group, o.node);
    if commits.contains_key(key) && o.term >= commits[key].term && commit_below(
        o.commit_index,
        commits[key].commit,
    ) {
        None
    } else {
        Some(commits.insert(key, CommitHighWater { term: o.term, commit: o.commit_index }))
    }
}

/// Take note of the first `n` observations; nothing once one of them regresses.
pub open spec fn commit_run(commits: CommitMap, obs: Seq<ObservationView>, n: nat) -> Option<
    CommitMap,
>
    decreases n,
{
    if n == 0 {
        Some(commits)
    } else {
        match commit_run(commits, obs, (n - 1) as nat) {
            Some(m) => commit_step(m, obs[n - 1]),
            None => None,
        }
    }
}

pub open spec fn election_violation(
    leaders: LeaderMap,
    o: ObservationView,
    now: VirtualInstant,
) -> ViolationView {
    ViolationView {
        property: PropertyId::ElectionSafety,
        at: now,
        detail: "group "@ + model::group_text(o.group) + " had two leaders in term "@
            + text::decimal(o.term as nat) + ": "@ + model::node_text(leaders[(o.group, o.term)])
            + " and "@ + model::node_text(o.node),
    }
}

pub open spec fn commit_violation(
    commits: CommitMap,
    o: ObservationView,
    now: VirtualInstant,
) -> ViolationView {
    ViolationView {
        property: PropertyId::CommitMonotonicity,
        at: now,
        detail: "replica "@ + model::node_text(o.node) + " of group "@ + model::group_text(o.group)
            + " commit index regressed from "@ + text::option_text(
            commits[(o.group, o.node)].commit,
        ) + " to "@ + text::option_text(o.commit_index),
    }
}

/// Keys of one group.
pub struct OfGroup {
    pub group: GroupKey,
}

impl KeyTest<(GroupKey, u64)> for OfGroup {
    open spec fn meets(self, k: (GroupView, u64)) -> bool {
        k.0 == self.group@
    }

    fn test(&self, k: &(GroupKey, u64)) -> (r: bool) {
        model::same_group(&k.0, &self.group)
    }
}

impl KeyTest<(GroupKey, NodeId)> for OfGroup {
    open spec fn meets(self, k: (GroupView, Seq<char>)) -> bool {
        k.0 == self.group@
    }

    fn test(&self, k: &(GroupKey, NodeId)) -> (r: bool) {
        model::same_group(&k.0, &self.group)
    }
}

/// Keys of one node.
pub struct OfNode {
    pub node: NodeId,
}

impl KeyTest<(GroupKey, NodeId)> for OfNode {
    open spec fn meets(self, k: (GroupView, Seq<char>)) -> bool {
        k.1 == self.node@
    }

    fn test(&self, k: &(GroupKey, NodeId)) -> (r: bool) {
        k.1.same(&self.node)
    }
}

/// The checker's memory.
#[derive(Debug)]
pub struct RaftSafetyChecker {
    pub leaders: KeyedMap<(GroupKey, u64), NodeId>,
    pub max_commit: KeyedMap<(GroupKey, NodeId), CommitHighWater>,
}

impl Default for RaftSafetyChecker {
    fn default() -> (r: Self)
        ensures
            r.wf(),
            r.leaders_seen() == LeaderMap::empty(),
            r.commits_seen() == CommitMap::empty(),
    {
        RaftSafetyChecker::new()
    }
}

impl RaftSafetyChecker {
    pub open spec fn wf(self) -> bool {
        self.leaders.wf() && self.max_commit.wf()
    }

    /// The leaders seen so far.
    pub open spec fn leaders_seen(self) -> LeaderMap {
        self.leaders@.map_values(|n: NodeId| n@)
    }

    /// The commit indices seen last.
    pub open spec fn commits_seen(self) -> CommitMap {
        self.max_commit@
    }

    pub fn new() -> (r: Self)
        ensures
            r.wf(),
            r.leaders_seen() == LeaderMap::empty(),
            r.commits_seen() == CommitMap::empty(),
    {
        let r = RaftSafetyChecker { leaders: KeyedMap::new(), max_commit: KeyedMap::new() };
        assert(r.leaders_seen() =~= LeaderMap::empty());
        r
    }

    /// Check roles, terms and commit indices as they are now.
    pub fn observe<M>(&mut self, cluster: &SimulatedCluster<M>, now: VirtualInstant) -> (r: Result<
        (),
        Violation,
    >)
        requires
            old(self).wf(),
            cluster.wf(),
        ensures
            final(self).wf(),
            observed_to(
                old(self).leaders_seen(),
                old(self).commits_seen(),
                nodes_seen(cluster.nodes@, false),
                *final(self),
                r,
                now,
            ),
    {
        let obs = collect(cluster, false);
        match self.check_election_safety(obs.as_slice(), now) {
            Ok(ok) => {},
            Err(v) => {
                return Err(v);
            },
        }
        self.check_commit_monotonicity(obs.as_slice(), now)
    }

    /// Check whole logs as they are now.
    pub fn check_logs<M>(&self, cluster: &SimulatedCluster<M>, now: VirtualInstant) -> (r: Result<
        (),
        Violation,
    >)
        requires
            cluster.wf(),
        ensures
            logs_verdict(nodes_seen(cluster.nodes@, true), r, now),
    {
        let obs = collect(cluster, true);
        let committed = match build_committed_view(obs.as_slice(), now) {
            Ok(committed) => committed,
            Err(v) => {
                return Err(v);
            },
        };
        match check_log_matching(obs.as_slice(), now) {
            Ok(ok) => {},
            Err(v) => {
                return Err(v);
            },
        }
        check_leader_completeness(obs.as_slice(), &committed, now)
    }

    /// Forget all that was seen of `group`.
    pub fn forget_group(&mut self, group: &GroupKey)
        requires
            old(self).wf(),
        ensures
            final(self).wf(),
            final(self).leaders_seen() == old(self).leaders_seen().remove_keys(
                Set::new(|k: (GroupView, u64)| k.0 == group@),
            ),
            final(self).commits_seen() == old(self).commits_seen().remove_keys(
                Set::new(|k: (GroupView, Seq<char>)| k.0 == group@),
            ),
    {
        let test = OfGroup { group: model::clone_group(group) };
        self.leaders.remove_matching(&test);
        self.max_commit.remove_matching(&test);
        assert(self.leaders_seen() =~= old(self).leaders_seen().remove_keys(
            Set::new(|k: (GroupView, u64)| k.0 == group@),
        ));
        assert(self.commits_seen() =~= old(self).commits_seen().remove_keys(
            Set::new(|k: (GroupView, Seq<char>)| k.0 == group@),
        ));
    }

    /// Forget the commit indices seen of `node`; who led which term stays known.
    pub fn forget_node_commit(&mut self, node: &NodeId)
        requires
            old(self).wf(),
        ensures
            final(self).wf(),
            final(self).leaders_seen() == old(self).leaders_seen(),
            final(self).commits_seen() == old(self).commits_seen().remove_keys(
                Set::new(|k: (GroupView, Seq<char>)| k.1 == node@),
            ),
    {
        let test = OfNode { node: node.clone() };
        self.max_commit.remove_matching(&test);
        assert(self.commits_seen() =~= old(self).commits_seen().remove_keys(
            Set::new(|k: (GroupView, Seq<char>)| k.1 == node@),
        ));
    }

    /// Check that no term has two leaders, and remember the leaders seen.
    pub fn check_election_safety(&mut self, obs: &[ReplicaObservation], now: VirtualInstant) -> (r:
        Result<(), Violation>)
        requires
            old(self).wf(),
        ensures
            final(self).wf(),
            final(self).max_commit == old(self).max_commit,
            match election_run(old(self).leaders_seen(), obs_views(obs@), obs@.len()) {
                Some(leaders) => r is Ok && final(self).leaders_seen() == leaders,
                None => r matches Err(v) && stops_election(
                    old(self).leaders_seen(),
                    obs_views(obs@),
                    final(self).leaders_seen(),
                    v@,
                    now,
                ),
            },
    {
        let ghost start = self.leaders_seen();
        let ghost views = obs_views(obs@);
        let mut i: usize = 0;
        while i < obs.len()
            invariant
                i <= obs@.len(),
                self.wf(),
                self.max_commit == old(self).max_commit,
                start == old(self).leaders_seen(),
                views == obs_views(obs@),
                election_run(start, views, i as nat) == Some(self.leaders_seen()),
            decreases obs@.len() - i,
        {
            let o = &obs[i];
            let ghost before = self.leaders_seen();
            assert(views[i as int] == o@);
            if o.role == Role::Leader {
                let key = (model::clone_group(&o.group), o.term);
                let known = match self.leaders.get(&key) {
                    Some(existing) => {
                        if !existing.same(&o.node) {
                            let mut detail = "group ".to_owned();
                            model::push_group(&mut detail, &o.group);
                            text::push_str(&mut detail, " had two leaders in term ");
                            text::push_decimal(&mut detail, o.term);
                            text::push_str(&mut detail, ": ");
                            model::push_node(&mut detail, existing);
                            text::push_str(&mut detail, " and ");
                            model::push_node(&mut detail, &o.node);
                            proof {
                                assert(election_step(before, views[i as int]) is None);
                                lemma_election_stops(start, views, i as nat, views.len());
                            }
                            return Err(Violation::new(PropertyId::ElectionSafety, now, detail));
                        }
                        true
                    },
                    None => false,
                };
                if !known {
                    self.leaders.insert(key, o.node.clone());
                    assert(self.leaders_seen() =~= before.insert((o.group@, o.term), o.node@));
                }
            }
            i += 1;
        }
        Ok(())
    }

    /// Check that no commit index fell within an incarnation, and remember those seen.
    pub fn check_commit_monotonicity(
        &mut self,
        obs: &[ReplicaObservation],
        now: VirtualInstant,
    ) -> (r: Result<(), Violation>)
        requires
            old(self).wf(),
        ensures
            final(self).wf(),
            final(self).leaders == old(self).leaders,
            match commit_run(old(self).commits_seen(), obs_views(obs@), obs@.len()) {
                Some(commits) => r is Ok && final(self).commits_seen() == commits,
                None => r matches Err(v) && stops_commit(
                    old(self).commits_seen(),
                    obs_views(obs@),
                    final(self).commits_seen(),
                    v@,
                    now,
                ),
            },
    {
        let ghost start = self.commits_seen();
        let ghost views = obs_views(obs@);
        let mut i: usize = 0;
        while i < obs.len()
            invariant
                i <= obs@.len(),
                self.wf(),
                self.leaders == old(self).leaders,
                start == old(self).commits_seen(),
                views == obs_views(obs@),
                commit_run(start, views, i as nat) == Some(self.commits_seen()),
            decreases obs@.len() - i,
        {
            let o = &obs[i];
            let ghost before = self.commits_seen();
            assert(views[i as int] == o@);
            let key = (model::clone_group(&o.group), o.node.clone());
            match self.max_commit.get(&key) {
                Some(prev) => {
                    if o.term >= prev.term && is_below(o.commit_index, prev.commit) {
                        let mut detail = "replica ".to_owned();
                        model::push_node(&mut detail, &o.node);
                        text::push_str(&mut detail, " of group ");
                        model::push_group(&mut detail, &o.group);
                        text::push_str(&mut detail, " commit index regressed from ");
                        text::push_option(&mut detail, prev.commit);
                        text::push_str(&mut detail, " to ");
                        text::push_option(&mut detail, o.commit_index);
                        proof {
                            assert(commit_step(before, views[i as int]) is None);
                            lemma_commit_stops(start, views, i as nat, views.len());
                        }
                        return Err(Violation::new(PropertyId::CommitMonotonicity, now, detail));
                    }
                },
                None => {},
            }
            self.max_commit.insert(
                key,
                CommitHighWater { term: o.term, commit: o.commit_index },
            );
            i += 1;
        }
        Ok(())
    }
}

fn is_below(a: Option<u64>, b: Option<u64>) -> (r: bool)
    ensures
        r == commit_below(a, b),
{
    match (a, b) {
        (None, Some(y)) => true,
        (Some(x), Some(y)) => x < y,
        _ => false,
    }
}

/// What looking at `obs` comes to, where `leaders` and `commits` were seen before.
pub open spec fn observed_to(
    leaders: LeaderMap,
    commits: CommitMap,
    obs: Seq<ObservationView>,
    after: RaftSafetyChecker,
    r: Result<(), Violation>,
    now: VirtualInstant,
) -> bool {
    match (election_run(leaders, obs, obs.len()), commit_run(commits, obs, obs.len())) {
        (Some(l), Some(c)) => {
            &&& r is Ok
            &&& after.leaders_seen() == l
            &&& after.commits_seen() == c
        },
        (None, _) => {
            &&& r matches Err(v) && stops_election(leaders, obs, after.leaders_seen(), v@, now)
            &&& after.commits_seen() == commits
        },
        (Some(l), None) => {
            &&& r matches Err(v) && stops_commit(commits, obs, after.commits_seen(), v@, now)
            &&& after.leaders_seen() == l
        },
    }
}

/// What checking the logs of `obs` comes to.
pub open spec fn logs_verdict(
    obs: Seq<ObservationView>,
    r: Result<(), Violation>,
    now: VirtualInstant,
) -> bool {
    match committed_run(obs, obs.len()) {
        None => r matches Err(v) && stops_committed(obs, v@, now),
        Some(committed) => if !logs_match(obs) {
            r matches Err(v) && breaks_matching(obs, v@, now)
        } else if !leaders_complete(obs, committed) {
            r matches Err(v) && breaks_completeness(obs, committed, v@, now)
        } else {
            r is Ok
        },
    }
}

/// `v` reports the first observation whose leadership conflicts with what was seen
/// before it, which is `reached`.
pub open spec fn stops_election(
    start: LeaderMap,
    obs: Seq<ObservationView>,
    reached: LeaderMap,
    v: ViolationView,
    now: VirtualInstant,
) -> bool {
    exists|k: int|
        0 <= k < obs.len() && election_run(start, obs, k as nat) == Some(reached)
            && #[trigger] election_step(reached, obs[k]) is None && v == election_violation(
            reached,
            obs[k],
            now,
        )
}

/// `v` reports the first observation whose commit index fell, after what was seen
/// before it, which is `reached`.
pub open spec fn stops_commit(
    start: CommitMap,
    obs: Seq<ObservationView>,
    reached: CommitMap,
    v: ViolationView,
    now: VirtualInstant,
) -> bool {
    exists|k: int|
        0 <= k < obs.len() && commit_run(start, obs, k as nat) == Some(reached)
            && #[trigger] commit_step(reached, obs[k]) is None && v == commit_violation(
            reached,
            obs[k],
            now,
        )
}

proof fn lemma_election_stops(start: LeaderMap, obs: Seq<ObservationView>, k: nat, n: nat)
    requires
        k < n <= obs.len(),
        election_run(start, obs, k) matches Some(m) && election_step(m, obs[k as int]) is None,
    ensures
        election_run(start, obs, n) is None,
    decreases n,
{
    if n > k + 1 {
        lemma_election_stops(start, obs, k, (n - 1) as nat);
    }
}

proof fn lemma_commit_stops(start: CommitMap, obs: Seq<ObservationView>, k: nat, n: nat)
    requires
        k < n <= obs.len(),
        commit_run(start, obs, k) matches Some(m) && commit_step(m, obs[k as int]) is None,
    ensures
        commit_run(start, obs, n) is None,
    decreases n,
{
    if n > k + 1 {
        lemma_commit_stops(start, obs, k, (n - 1) as nat);
    }
}

/// What is seen decides what looking at it comes to: the result and all that is
/// remembered.
pub proof fn law_observation_is_decided(
    leaders: LeaderMap,
    commits: CommitMap,
    obs: Seq<ObservationView>,
    c: RaftSafetyChecker,
    d: RaftSafetyChecker,
    r: Result<(), Violation>,
    s: Result<(), Violation>,
    now: VirtualInstant,
)
    requires
        observed_to(leaders, commits, obs, c, r, now),
        observed_to(leaders, commits, obs, d, s, now),
    ensures
        super::results_alike(r, s),
        c.leaders_seen() == d.leaders_seen(),
        c.commits_seen() == d.commits_seen(),
{
    match (election_run(leaders, obs, obs.len()), commit_run(commits, obs, obs.len())) {
        (None, _) => {
            let x = c.leaders_seen();
            let y = d.leaders_seen();
            let i = choose|k: int|
                0 <= k < obs.len() && election_run(leaders, obs, k as nat) == Some(x)
                    && #[trigger] election_step(x, obs[k]) is None && r->Err_0@
                    == election_violation(x, obs[k], now);
            let j = choose|k: int|
                0 <= k < obs.len() && election_run(leaders, obs, k as nat) == Some(y)
                    && #[trigger] election_step(y, obs[k]) is None && s->Err_0@
                    == election_violation(y, obs[k], now);
            if i < j {
                lemma_election_stops(leaders, obs, i as nat, j as nat);
            } else if j < i {
                lemma_election_stops(leaders, obs, j as nat, i as nat);
            }
        },
        (Some(l), None) => {
            let x = c.commits_seen();
            let y = d.commits_seen();
            let i = choose|k: int|
                0 <= k < obs.len() && commit_run(commits, obs, k as nat) == Some(x)
                    && #[trigger] commit_step(x, obs[k]) is None && r->Err_0@ == commit_violation(
                    x,
                    obs[k],
                    now,
                );
            let j = choose|k: int|
                0 <= k < obs.len() && commit_run(commits, obs, k as nat) == Some(y)
                    && #[trigger] commit_step(y, obs[k]) is None && s->Err_0@ == commit_violation(
                    y,
                    obs[k],
                    now,
                );
            if i < j {
                lemma_commit_stops(commits, obs, i as nat, j as nat);
            } else if j < i {
                lemma_commit_stops(commits, obs, j as nat, i as nat);
            }
        },
        _ => {},
    }
}

/// A committed entry, with the least term of a replica that holds it committed.
pub struct CommittedView {
    pub print: FingerprintView,
    pub commit_term: u64,
}

/// What is committed in each group, by index.
pub type CommittedMap = Map<GroupView, Map<u64, CommittedView>>;

/// How many entries lead the log up to the first one above `commit`.
pub open spec fn committed_len(log: Seq<LogEntryView>, commit: u64) -> nat
    decreases log.len(),
{
    if log.len() == 0 || log[0].index > commit {
        0
    } else {
        1 + committed_len(log.drop_first(), commit)
    }
}

proof fn lemma_committed_len(log: Seq<LogEntryView>, commit: u64, n: int)
    requires
        0 <= n <= log.len(),
        forall|j: int| 0 <= j < n ==> (#[trigger] log[j]).index <= commit,
        n < log.len() ==> log[n].index > commit,
    ensures
        committed_len(log, commit) == n,
    decreases n,
{
    if n > 0 {
        let rest = log.drop_first();
        assert forall|j: int| 0 <= j < n - 1 implies (#[trigger] rest[j]).index <= commit by {
            assert(rest[j] == log[j + 1]);
        }
        assert(log[0].index <= commit);
        lemma_committed_len(rest, commit, n - 1);
    }
}

/// Take note of one committed entry of `o`; nothing where another replica committed
/// something else at its index.
pub open spec fn entry_step(
    m: Map<u64, CommittedView>,
    o: ObservationView,
    e: LogEntryView,
) -> Option<Map<u64, CommittedView>> {
    if m.contains_key(e.index) {
        if m[e.index].print != print(e) {
            None
        } else {
            let least = if o.term < m[e.index].commit_term {
                o.term
            } else {
                m[e.index].commit_term
            };
            Some(m.insert(e.index, CommittedView { print: print(e), commit_term: least }))
        }
    } else {
        Some(m.insert(e.index, CommittedView { print: print(e), commit_term: o.term }))
    }
}

/// Take note of the first `k` entries of `o`.
pub open spec fn entries_run(m: Map<u64, CommittedView>, o: ObservationView, k: nat) -> Option<
    Map<u64, CommittedView>,
>
    decreases k,
{
    if k == 0 {
        Some(m)
    } else {
        match entries_run(m, o, (k - 1) as nat) {
            Some(x) => entry_step(x, o, o.log[k - 1]),
            None => None,
        }
    }
}

/// What is known committed in `group`.
pub open spec fn known(state: CommittedMap, group: GroupView) -> Map<u64, CommittedView> {
    if state.contains_key(group) {
        state[group]
    } else {
        Map::empty()
    }
}

/// Take note of the committed entries of one observation.
pub open spec fn committed_step(state: CommittedMap, o: ObservationView) -> Option<CommittedMap> {
    match o.commit_index {
        Some(commit) => match entries_run(
            known(state, o.group),
            o,
            committed_len(o.log, commit),
        ) {
            Some(m) => Some(state.insert(o.group, m)),
            None => None,
        },
        None => Some(state),
    }
}

/// Take note of the committed entries of the first `n` observations; nothing once two
/// of them disagree.
pub open spec fn committed_run(obs: Seq<ObservationView>, n: nat) -> Option<CommittedMap>
    decreases n,
{
    if n == 0 {
        Some(CommittedMap::empty())
    } else {
        match committed_run(obs, (n - 1) as nat) {
            Some(state) => committed_step(state, obs[n - 1]),
            None => None,
        }
    }
}

pub open spec fn committed_violation(
    m: Map<u64, CommittedView>,
    o: ObservationView,
    e: LogEntryView,
    now: VirtualInstant,
) -> ViolationView {
    ViolationView {
        property: PropertyId::StateMachineSafety,
        at: now,
        detail: "group "@ + model::group_text(o.group) + " index "@ + text::decimal(e.index as nat)
            + ": replica "@ + model::node_text(o.node) + " applied an entry (term "@
            + text::decimal(e.term as nat) + ") differing from another replica's (term "@
            + text::decimal(m[e.index].print.term as nat) + ")"@,
    }
}

/// `v` reports the first committed entry that differs from what another replica
/// committed at its index.
pub open spec fn stops_committed(
    obs: Seq<ObservationView>,
    v: ViolationView,
    now: VirtualInstant,
) -> bool {
    exists|i: int, k: int|
        #![trigger obs[i].log[k]]
        {
            &&& 0 <= i < obs.len()
            &&& committed_run(obs, i as nat) is Some
            &&& obs[i].commit_index is Some
            &&& 0 <= k < committed_len(obs[i].log, obs[i].commit_index->0)
            &&& entries_run(
                known(committed_run(obs, i as nat)->0, obs[i].group),
                obs[i],
                k as nat,
            ) matches Some(m) && entry_step(m, obs[i], obs[i].log[k]) is None && v
                == committed_violation(m, obs[i], obs[i].log[k], now)
        }
}

proof fn lemma_entries_stop(m: Map<u64, CommittedView>, o: ObservationView, k: nat, n: nat)
    requires
        k < n,
        entries_run(m, o, k) matches Some(x) && entry_step(x, o, o.log[k as int]) is None,
    ensures
        entries_run(m, o, n) is None,
    decreases n,
{
    if n > k + 1 {
        lemma_entries_stop(m, o, k, (n - 1) as nat);
    }
}

proof fn lemma_committed_stops(obs: Seq<ObservationView>, k: nat, n: nat)
    requires
        k < n <= obs.len(),
        committed_run(obs, k) matches Some(x) && committed_step(x, obs[k as int]) is None,
    ensures
        committed_run(obs, n) is None,
    decreases n,
{
    if n > k + 1 {
        lemma_committed_stops(obs, k, (n - 1) as nat);
    }
}

/// What is committed in one group, by index.
#[derive(Debug)]
pub struct GroupCommitted {
    pub prints: SortedMap<Fingerprint>,
    pub terms: SortedMap<u64>,
}

impl View for GroupCommitted {
    type V = Map<u64, CommittedView>;

    open spec fn view(&self) -> Map<u64, CommittedView> {
        Map::new(
            |k: u64| self.prints@.contains_key(k),
            |k: u64| CommittedView { print: self.prints@[k]@, commit_term: self.terms@[k] },
        )
    }
}

impl GroupCommitted {
    pub open spec fn wf(self) -> bool {
        self.prints.wf() && self.terms.wf() && self.prints@.dom() == self.terms@.dom()
    }

    fn new() -> (r: Self)
        ensures
            r.wf(),
            r@ == Map::<u64, CommittedView>::empty(),
    {
        let r = GroupCommitted { prints: SortedMap::new(), terms: SortedMap::new() };
        assert(r.prints@.dom() =~= r.terms@.dom());
        assert(r@ =~= Map::<u64, CommittedView>::empty());
        r
    }

    /// Note an entry that replica in `term` holds committed. The term of the entry
    /// that stands at its index comes back where the two differ.
    fn note(&mut self, o: &ReplicaObservation, e: &LogEntry) -> (r: Option<u64>)
        requires
            old(self).wf(),
        ensures
            final(self).wf(),
            match entry_step(old(self)@, o@, e@) {
                Some(m) => r is None && final(self)@ == m,
                None => r == Some(old(self)@[e@.index].print.term) && *final(self) == *old(self),
            },
    {
        let ghost before = self@;
        match self.prints.get(e.index) {
            Some(existing) => {
                if !existing.matches(e) {
                    return Some(existing.term);
                }
                let least: u64 = match self.terms.get(e.index) {
                    Some(term) => if o.term < *term {
                        o.term
                    } else {
                        *term
                    },
                    None => {
                        assert(self.terms@.dom().contains(e.index));
                        o.term
                    },
                };
                self.terms.insert(e.index, least);
                assert(self.terms@.dom() =~= self.prints@.dom());
                assert(self@ =~= before.insert(
                    e.index,
                    CommittedView { print: print(e@), commit_term: least },
                ));
            },
            None => {
                self.prints.insert(e.index, Fingerprint::of(e));
                self.terms.insert(e.index, o.term);
                assert(self.terms@.dom() =~= self.prints@.dom());
                assert(self@ =~= before.insert(
                    e.index,
                    CommittedView { print: print(e@), commit_term: o.term },
                ));
            },
        }
        None
    }
}

/// What is committed in each group.
#[derive(Debug)]
pub struct CommittedIndex {
    pub groups: KeyedMap<GroupKey, GroupCommitted>,
}

impl CommittedIndex {
    pub open spec fn wf(self) -> bool {
        &&& self.groups.wf()
        &&& forall|g: GroupView| #[trigger]
            self.groups@.contains_key(g) ==> self.groups@[g].wf()
    }

    pub open spec fn map(self) -> CommittedMap {
        self.groups@.map_values(|g: GroupCommitted| g@)
    }
}

/// Gather what is committed, and check that no two replicas committed different
/// entries at one index of a group.
pub fn build_committed_view(obs: &[ReplicaObservation], now: VirtualInstant) -> (r: Result<
    CommittedIndex,
    Violation,
>)
    ensures
        match committed_run(obs_views(obs@), obs@.len()) {
            Some(state) => r matches Ok(c) && c.wf() && c.map() == state,
            None => r matches Err(v) && stops_committed(obs_views(obs@), v@, now),
        },
{
    let ghost views = obs_views(obs@);
    let mut view = CommittedIndex { groups: KeyedMap::new() };
    assert(view.map() =~= CommittedMap::empty());
    let mut i: usize = 0;
    while i < obs.len()
        invariant
            i <= obs@.len(),
            views == obs_views(obs@),
            view.wf(),
            committed_run(views, i as nat) == Some(view.map()),
        decreases obs@.len() - i,
    {
        let o = &obs[i];
        let ghost before = view.map();
        assert(views[i as int] == o@);
        match o.commit_index {
            Some(commit) => {
                let ghost groups = view.groups@;
                let mut held = match view.groups.remove(&o.group) {
                    Some(g) => g,
                    None => GroupCommitted::new(),
                };
                let ghost base = known(before, o.group@);
                assert(held@ =~= base);
                assert(held.wf());
                let ghost log = entry_views(o.log@);
                let mut k: usize = 0;
                while k < o.log.len() && o.log[k].index <= commit
                    invariant
                        k <= o.log@.len(),
                        log == entry_views(o.log@),
                        o@.log == log,
                        held.wf(),
                        forall|j: int| 0 <= j < k ==> (#[trigger] log[j]).index <= commit,
                        entries_run(base, o@, k as nat) == Some(held@),
                        base == known(before, o@.group),
                        committed_run(views, i as nat) == Some(before),
                        0 <= i < views.len(),
                        views == obs_views(obs@),
                        obs@.len() == views.len(),
                        views[i as int] == o@,
                        o@.commit_index == Some(commit),
                    decreases o.log@.len() - k,
                {
                    let e = &o.log[k];
                    assert(log[k as int] == e@);
                    match held.note(o, e) {
                        Some(other) => {
                            let mut detail = "group ".to_owned();
                            model::push_group(&mut detail, &o.group);
                            text::push_str(&mut detail, " index ");
                            text::push_decimal(&mut detail, e.index);
                            text::push_str(&mut detail, ": replica ");
                            model::push_node(&mut detail, &o.node);
                            text::push_str(&mut detail, " applied an entry (term ");
                            text::push_decimal(&mut detail, e.term);
                            text::push_str(
                                &mut detail,
                                ") differing from another replica's (term ",
                            );
                            text::push_decimal(&mut detail, other);
                            text::push_str(&mut detail, ")");
                            proof {
                                let n = committed_len(log, commit);
                                lemma_committed_covers(log, commit, k as int);
                                lemma_entries_stop(base, o@, k as nat, n);
                                lemma_committed_stops(views, i as nat, views.len());
                                assert(views[i as int].log[k as int] == e@);
                            }
                            return Err(Violation::new(PropertyId::StateMachineSafety, now, detail));
                        },
                        None => {},
                    }
                    k += 1;
                }
                proof {
                    if k < log.len() {
                        assert(log[k as int] == o.log@[k as int]@);
                    }
                    lemma_committed_len(log, commit, k as int);
                }
                view.groups.insert(model::clone_group(&o.group), held);
                assert(view.map() =~= before.insert(o.group@, held@));
            },
            None => {},
        }
        i += 1;
    }
    Ok(view)
}

/// An entry with none above the commit index up to it is counted.
proof fn lemma_committed_covers(log: Seq<LogEntryView>, commit: u64, k: int)
    requires
        0 <= k < log.len(),
        forall|j: int| 0 <= j <= k ==> (#[trigger] log[j]).index <= commit,
    ensures
        k < committed_len(log, commit),
    decreases k,
{
    assert(log[0].index <= commit);
    if k > 0 {
        let rest = log.drop_first();
        assert forall|j: int| 0 <= j <= k - 1 implies (#[trigger] rest[j]).index <= commit by {
            assert(rest[j] == log[j + 1]);
        }
        lemma_committed_covers(rest, commit, k - 1);
    }
}

/// The fingerprints of a log by index; of entries that share an index, the last.
pub open spec fn print_map(log: Seq<LogEntryView>) -> Map<u64, FingerprintView>
    decreases log.len(),
{
    if log.len() == 0 {
        Map::empty()
    } else {
        print_map(log.drop_last()).insert(log.last().index, print(log.last()))
    }
}

/// Whether `m` leads from each index to the position of its fingerprint in `log`.
spec fn indexes(m: Map<u64, usize>, log: Seq<LogEntryView>, n: int) -> bool {
    &&& m.dom() == print_map(log.take(n)).dom()
    &&& forall|k: u64| #[trigger]
        m.contains_key(k) ==> m[k] < n && print(log[m[k] as int]) == print_map(log.take(n))[k]
}

impl ReplicaObservation {
    /// The position of each index in the log.
    fn index_map(&self) -> (r: SortedMap<usize>)
        ensures
            r.wf(),
            indexes(r@, self@.log, self@.log.len() as int),
            self@.log.take(self@.log.len() as int) == self@.log,
    {
        let ghost log = self@.log;
        let mut m: SortedMap<usize> = SortedMap::new();
        let mut i: usize = 0;
        assert(log.take(0) =~= Seq::empty());
        assert(m@.dom() =~= print_map(log.take(0)).dom());
        while i < self.log.len()
            invariant
                i <= self.log@.len(),
                log == self@.log,
                m.wf(),
                indexes(m@, log, i as int),
            decreases self.log@.len() - i,
        {
            let ghost before = m@;
            assert(log[i as int] == self.log@[i as int]@);
            m.insert(self.log[i].index, i);
            proof {
                let next = log.take(i + 1);
                assert(next.drop_last() =~= log.take(i as int));
                assert(next.last() == log[i as int]);
                assert(m@.dom() =~= print_map(next).dom());
                assert forall|k: u64| #[trigger] m@.contains_key(k) implies m@[k] < i + 1 && print(
                    log[m@[k] as int],
                ) == print_map(next)[k] by {
                    if k != log[i as int].index {
                        assert(before.contains_key(k));
                    }
                }
            }
            i += 1;
        }
        assert(log.take(i as int) =~= log);
        m
    }
}

/// Whether both logs have an entry at `k`.
pub open spec fn common(
    a: Map<u64, FingerprintView>,
    b: Map<u64, FingerprintView>,
    k: u64,
) -> bool {
    a.contains_key(k) && b.contains_key(k)
}

/// Log Matching for two logs: where their terms agree at an index, they agree at
/// every index up to it that both have.
pub open spec fn matching(a: Map<u64, FingerprintView>, b: Map<u64, FingerprintView>) -> bool {
    forall|idx: u64, k: u64|
        #![trigger common(a, b, idx), common(a, b, k)]
        common(a, b, idx) && common(a, b, k) && k <= idx && a[idx].term == b[idx].term ==> a[k]
            == b[k]
}

/// `divergence` is the first common index at which the logs differ, and `idx` the
/// first from there on at which their terms agree.
pub open spec fn mismatch(
    a: Map<u64, FingerprintView>,
    b: Map<u64, FingerprintView>,
    idx: u64,
    divergence: u64,
) -> bool {
    &&& common(a, b, divergence)
    &&& a[divergence] != b[divergence]
    &&& forall|k: u64| #[trigger] common(a, b, k) && k < divergence ==> a[k] == b[k]
    &&& common(a, b, idx)
    &&& divergence <= idx
    &&& a[idx].term == b[idx].term
    &&& forall|k: u64| #[trigger]
        common(a, b, k) && divergence <= k < idx ==> a[k].term != b[k].term
}

pub open spec fn matching_violation(
    group: GroupView,
    a: ObservationView,
    b: ObservationView,
    idx: u64,
    divergence: u64,
    now: VirtualInstant,
) -> ViolationView {
    ViolationView {
        property: PropertyId::LogMatching,
        at: now,
        detail: "group "@ + model::group_text(group) + ": replicas "@ + model::node_text(a.node)
            + " and "@ + model::node_text(b.node) + " share term "@ + text::decimal(
            print_map(a.log)[idx].term as nat,
        ) + " at index "@ + text::decimal(idx as nat) + " but their logs diverge at index "@
            + text::decimal(divergence as nat),
    }
}

/// `v` reports a mismatch between `a` and `b`.
pub open spec fn reports_mismatch(
    group: GroupView,
    a: ObservationView,
    b: ObservationView,
    v: ViolationView,
    now: VirtualInstant,
) -> bool {
    exists|idx: u64, divergence: u64| #[trigger]
        mismatch(print_map(a.log), print_map(b.log), idx, divergence) && v == matching_violation(
            group,
            a,
            b,
            idx,
            divergence,
            now,
        )
}

/// Check Log Matching for two replicas of `group`.
pub fn log_matching_pair(
    group: &GroupKey,
    a: &ReplicaObservation,
    b: &ReplicaObservation,
    now: VirtualInstant,
) -> (r: Option<Violation>)
    ensures
        match r {
            None => matching(print_map(a@.log), print_map(b@.log)),
            Some(v) => !matching(print_map(a@.log), print_map(b@.log)) && reports_mismatch(
                group@,
                a@,
                b@,
                v@,
                now,
            ),
        },
{
    let map_a = a.index_map();
    let map_b = b.index_map();
    let ghost pa = print_map(a@.log);
    let ghost pb = print_map(b@.log);
    proof {
        map_a.lemma_items();
        assert(map_a@.dom() == pa.dom());
        assert(map_b@.dom() == pb.dom());
    }
    let ghost items = map_a.items();
    let mut divergence: Option<u64> = None;
    let mut i: usize = 0;
    while i < map_a.len()
        invariant
            i <= items.len(),
            items == map_a.items(),
            map_a.wf(),
            map_b.wf(),
            pa == print_map(a@.log),
            pb == print_map(b@.log),
            indexes(map_a@, a@.log, a@.log.len() as int),
            indexes(map_b@, b@.log, b@.log.len() as int),
            a@.log.take(a@.log.len() as int) == a@.log,
            b@.log.take(b@.log.len() as int) == b@.log,
            map_a@.dom() == pa.dom(),
            map_b@.dom() == pb.dom(),
            forall|j: int|
                0 <= j < items.len() ==> map_a@.contains_key((#[trigger] items[j]).0)
                    && map_a@[items[j].0] == items[j].1,
            forall|k: u64| #[trigger]
                map_a@.contains_key(k) ==> exists|j: int|
                    0 <= j < items.len() && (#[trigger] items[j]).0 == k,
            forall|j: int, k: int|
                0 <= j < k < items.len() ==> (#[trigger] items[j]).0 < (#[trigger] items[k]).0,
            match divergence {
                None => forall|j: int|
                    0 <= j < i && common(pa, pb, (#[trigger] items[j]).0) ==> pa[items[j].0]
                        == pb[items[j].0],
                Some(d) => {
                    &&& common(pa, pb, d)
                    &&& pa[d] != pb[d]
                    &&& exists|j: int| 0 <= j < i && (#[trigger] items[j]).0 == d
                    &&& forall|j: int|
                        0 <= j < i && common(pa, pb, (#[trigger] items[j]).0) && items[j].0 < d
                            ==> pa[items[j].0] == pb[items[j].0]
                    &&& forall|j: int|
                        0 <= j < i && common(pa, pb, (#[trigger] items[j]).0) && d <= items[j].0
                            ==> pa[items[j].0].term != pb[items[j].0].term
                },
            },
        decreases items.len() - i,
    {
        let entry = map_a.entry(i);
        let k: u64 = entry.0;
        match map_b.get(k) {
            Some(pos) => {
                let ea = &a.log[entry.1];
                let eb = &b.log[*pos];
                assert(print(ea@) == pa[k]);
                assert(print(eb@) == pb[k]);
                assert(common(pa, pb, k));
                let ghost prior = divergence;
                if divergence.is_none() && !same_print(ea, eb) {
                    divergence = Some(k);
                }
                match divergence {
                    Some(d) => {
                        if ea.term == eb.term {
                            let mut detail = "group ".to_owned();
                            model::push_group(&mut detail, group);
                            text::push_str(&mut detail, ": replicas ");
                            model::push_node(&mut detail, &a.node);
                            text::push_str(&mut detail, " and ");
                            model::push_node(&mut detail, &b.node);
                            text::push_str(&mut detail, " share term ");
                            text::push_decimal(&mut detail, ea.term);
                            text::push_str(&mut detail, " at index ");
                            text::push_decimal(&mut detail, k);
                            text::push_str(&mut detail, " but their logs diverge at index ");
                            text::push_decimal(&mut detail, d);
                            proof {
                                assert forall|x: u64| #[trigger]
                                    common(pa, pb, x) && x < k implies exists|j: int|
                                    0 <= j < i && (#[trigger] items[j]).0 == x by {
                                    let j = choose|j: int|
                                        0 <= j < items.len() && (#[trigger] items[j]).0 == x;
                                    assert(items[i as int].0 == k);
                                    if j >= i {
                                        if j > i {
                                            assert(items[i as int].0 < items[j].0);
                                        }
                                    }
                                }
                                if prior is Some {
                                    let j = choose|j: int|
                                        0 <= j < i && (#[trigger] items[j]).0 == d;
                                    assert(items[j].0 < items[i as int].0);
                                }
                                assert(mismatch(pa, pb, k, d));
                                assert(common(pa, pb, k) && common(pa, pb, d) && d <= k);
                            }
                            return Some(Violation::new(PropertyId::LogMatching, now, detail));
                        }
                    },
                    None => {},
                }
                assert(items[i as int].0 == k);
            },
            None => {
                assert(!common(pa, pb, k));
            },
        }
        i += 1;
    }
    proof {
        assert forall|idx: u64, k: u64|
            #![trigger common(pa, pb, idx), common(pa, pb, k)]
            common(pa, pb, idx) && common(pa, pb, k) && k <= idx && pa[idx].term
                == pb[idx].term implies pa[k] == pb[k] by {
            let x = choose|j: int| 0 <= j < items.len() && (#[trigger] items[j]).0 == idx;
            let y = choose|j: int| 0 <= j < items.len() && (#[trigger] items[j]).0 == k;
            assert(map_a@.contains_key(idx) && map_a@.contains_key(k));
            assert(items[x].0 == idx && items[y].0 == k);
        }
    }
    None
}

/// Log Matching for every two replicas of a group.
pub open spec fn logs_match(obs: Seq<ObservationView>) -> bool {
    forall|i: int, j: int|
        0 <= i < j < obs.len() && (#[trigger] obs[i]).group == (#[trigger] obs[j]).group
            ==> matching(print_map(obs[i].log), print_map(obs[j].log))
}

/// Whether `(i, j)` is the first pair of replicas of one group whose logs do not match.
pub open spec fn first_mismatch(obs: Seq<ObservationView>, i: int, j: int) -> bool {
    &&& 0 <= i < j < obs.len()
    &&& obs[i].group == obs[j].group
    &&& !matching(print_map(obs[i].log), print_map(obs[j].log))
    &&& forall|x: int, y: int|
        0 <= x < i && x < y < obs.len() && (#[trigger] obs[x]).group == (#[trigger] obs[y]).group
            ==> matching(print_map(obs[x].log), print_map(obs[y].log))
    &&& forall|y: int|
        i < y < j && obs[i].group == (#[trigger] obs[y]).group ==> matching(
            print_map(obs[i].log),
            print_map(obs[y].log),
        )
}

/// `v` reports the first mismatch between two replicas of a group.
pub open spec fn breaks_matching(
    obs: Seq<ObservationView>,
    v: ViolationView,
    now: VirtualInstant,
) -> bool {
    exists|i: int, j: int| #[trigger]
        first_mismatch(obs, i, j) && reports_mismatch(obs[i].group, obs[i], obs[j], v, now)
}

/// Check Log Matching for every two replicas of a group.
pub fn check_log_matching(obs: &[ReplicaObservation], now: VirtualInstant) -> (r: Result<
    (),
    Violation,
>)
    ensures
        match r {
            Ok(ok) => logs_match(obs_views(obs@)),
            Err(v) => !logs_match(obs_views(obs@)) && breaks_matching(obs_views(obs@), v@, now),
        },
{
    let ghost views = obs_views(obs@);
    let mut i: usize = 0;
    while i < obs.len()
        invariant
            i <= obs@.len(),
            views == obs_views(obs@),
            forall|x: int, y: int|
                0 <= x < i && x < y < views.len() && (#[trigger] views[x]).group == (
                #[trigger] views[y]).group ==> matching(
                    print_map(views[x].log),
                    print_map(views[y].log),
                ),
        decreases obs@.len() - i,
    {
        let mut j: usize = i + 1;
        while j < obs.len()
            invariant
                i < j <= obs@.len(),
                views == obs_views(obs@),
                forall|x: int, y: int|
                    0 <= x < i && x < y < views.len() && (#[trigger] views[x]).group == (
                    #[trigger] views[y]).group ==> matching(
                        print_map(views[x].log),
                        print_map(views[y].log),
                    ),
                forall|y: int|
                    i < y < j && views[i as int].group == (#[trigger] views[y]).group ==> matching(
                        print_map(views[i as int].log),
                        print_map(views[y].log),
                    ),
            decreases obs@.len() - j,
        {
            assert(views[i as int] == obs@[i as int]@);
            assert(views[j as int] == obs@[j as int]@);
            if model::same_group(&obs[i].group, &obs[j].group) {
                match log_matching_pair(&obs[i].group, &obs[i], &obs[j], now) {
                    Some(v) => {
                        assert(first_mismatch(views, i as int, j as int));
                        return Err(v);
                    },
                    None => {},
                }
            }
            j += 1;
        }
        i += 1;
    }
    Ok(())
}

/// Whether leader `o` lacks the entry committed at `idx` before its term.
pub open spec fn lacks(o: ObservationView, committed: CommittedMap, idx: u64) -> bool {
    let m = known(committed, o.group);
    &&& o.role == Role::Leader
    &&& m.contains_key(idx)
    &&& m[idx].commit_term < o.term
    &&& !(print_map(o.log).contains_key(idx) && print_map(o.log)[idx] == m[idx].print)
}

/// Leader Completeness: no leader lacks an entry that was committed before its term.
pub open spec fn leaders_complete(obs: Seq<ObservationView>, committed: CommittedMap) -> bool {
    forall|i: int, idx: u64|
        #![trigger lacks(obs[i], committed, idx)]
        0 <= i < obs.len() ==> !lacks(obs[i], committed, idx)
}

pub open spec fn completeness_violation(
    o: ObservationView,
    committed: CommittedMap,
    idx: u64,
    now: VirtualInstant,
) -> ViolationView {
    ViolationView {
        property: PropertyId::LeaderCompleteness,
        at: now,
        detail: "leader "@ + model::node_text(o.node) + " of group "@ + model::group_text(o.group)
            + " in term "@ + text::decimal(o.term as nat)
            + " is missing the entry committed at index "@ + text::decimal(idx as nat)
            + " in term "@ + text::decimal(known(committed, o.group)[idx].commit_term as nat),
    }
}

/// `v` reports the first leader that lacks an entry, and the least index that it
/// lacks.
pub open spec fn breaks_completeness(
    obs: Seq<ObservationView>,
    committed: CommittedMap,
    v: ViolationView,
    now: VirtualInstant,
) -> bool {
    exists|i: int, idx: u64| #[trigger]
        lacks(obs[i], committed, idx) && 0 <= i < obs.len() && v == completeness_violation(
            obs[i],
            committed,
            idx,
            now,
        ) && (forall|k: u64| k < idx ==> !(#[trigger] lacks(obs[i], committed, k))) && (forall|
            j: int,
            k: u64,
        |
            #![trigger lacks(obs[j], committed, k)]
            0 <= j < i ==> !lacks(obs[j], committed, k))
}

/// Check that no leader lacks an entry committed before its term.
pub fn check_leader_completeness(
    obs: &[ReplicaObservation],
    committed: &CommittedIndex,
    now: VirtualInstant,
) -> (r: Result<(), Violation>)
    requires
        committed.wf(),
    ensures
        match r {
            Ok(ok) => leaders_complete(obs_views(obs@), committed.map()),
            Err(v) => !leaders_complete(obs_views(obs@), committed.map()) && breaks_completeness(
                obs_views(obs@),
                committed.map(),
                v@,
                now,
            ),
        },
{
    let ghost views = obs_views(obs@);
    let ghost all = committed.map();
    let mut i: usize = 0;
    while i < obs.len()
        invariant
            i <= obs@.len(),
            views == obs_views(obs@),
            committed.wf(),
            all == committed.map(),
            forall|j: int, k: u64|
                #![trigger lacks(views[j], all, k)]
                0 <= j < i ==> !lacks(views[j], all, k),
        decreases obs@.len() - i,
    {
        let o = &obs[i];
        assert(views[i as int] == o@);
        if o.role == Role::Leader {
            match committed.groups.get(&o.group) {
                Some(held) => {
                    assert(known(all, o.group@) == held@);
                    assert forall|k: u64| #[trigger]
                        lacks(views[i as int], all, k) == lacks_held(o@, held@, k) by {}
                    match first_lacking(o, held) {
                        Some((idx, term)) => {
                            let mut detail = "leader ".to_owned();
                            model::push_node(&mut detail, &o.node);
                            text::push_str(&mut detail, " of group ");
                            model::push_group(&mut detail, &o.group);
                            text::push_str(&mut detail, " in term ");
                            text::push_decimal(&mut detail, o.term);
                            text::push_str(
                                &mut detail,
                                " is missing the entry committed at index ",
                            );
                            text::push_decimal(&mut detail, idx);
                            text::push_str(&mut detail, " in term ");
                            text::push_decimal(&mut detail, term);
                            proof {
                                assert(lacks(views[i as int], all, idx));
                                assert forall|k: u64| k < idx implies !(#[trigger] lacks(
                                    views[i as int],
                                    all,
                                    k,
                                )) by {}
                            }
                            return Err(Violation::new(PropertyId::LeaderCompleteness, now, detail));
                        },
                        None => {},
                    }
                },
                None => {
                    assert(known(all, o.group@) =~= Map::empty());
                },
            }
        }
        i += 1;
    }
    Ok(())
}

/// Whether `o` lacks the entry of `held` at `idx`, if it leads.
spec fn lacks_held(o: ObservationView, held: Map<u64, CommittedView>, idx: u64) -> bool {
    &&& held.contains_key(idx)
    &&& held[idx].commit_term < o.term
    &&& !(print_map(o.log).contains_key(idx) && print_map(o.log)[idx] == held[idx].print)
}

/// The least index at which `o` lacks an entry committed before its term, with the
/// term of that commit.
fn first_lacking(o: &ReplicaObservation, held: &GroupCommitted) -> (r: Option<(u64, u64)>)
    requires
        held.wf(),
    ensures
        match r {
            Some((idx, term)) => {
                &&& lacks_held(o@, held@, idx)
                &&& term == held@[idx].commit_term
                &&& forall|k: u64| k < idx ==> !(#[trigger] lacks_held(o@, held@, k))
            },
            None => forall|k: u64| !(#[trigger] lacks_held(o@, held@, k)),
        },
{
    let leader_log = o.index_map();
    let ghost pm = print_map(o@.log);
    proof {
        held.prints.lemma_items();
        assert(leader_log@.dom() == pm.dom());
    }
    let ghost items = held.prints.items();
    let mut i: usize = 0;
    while i < held.prints.len()
        invariant
            i <= items.len(),
            items == held.prints.items(),
            held.wf(),
            leader_log.wf(),
            pm == print_map(o@.log),
            indexes(leader_log@, o@.log, o@.log.len() as int),
            o@.log.take(o@.log.len() as int) == o@.log,
            leader_log@.dom() == pm.dom(),
            forall|j: int|
                0 <= j < items.len() ==> held.prints@.contains_key((#[trigger] items[j]).0)
                    && held.prints@[items[j].0] == items[j].1,
            forall|k: u64| #[trigger]
                held.prints@.contains_key(k) ==> exists|j: int|
                    0 <= j < items.len() && (#[trigger] items[j]).0 == k,
            forall|j: int, k: int|
                0 <= j < k < items.len() ==> (#[trigger] items[j]).0 < (#[trigger] items[k]).0,
            forall|j: int| 0 <= j < i ==> !lacks_held(o@, held@, (#[trigger] items[j]).0),
        decreases items.len() - i,
    {
        let entry = held.prints.entry(i);
        let idx: u64 = entry.0;
        assert(held.terms@.dom().contains(idx));
        let term: u64 = match held.terms.get(idx) {
            Some(term) => *term,
            None => 0,
        };
        if term < o.term {
            let present = match leader_log.get(idx) {
                Some(pos) => {
                    assert(o@.log[*pos as int] == o.log@[*pos as int]@);
                    entry.1.matches(&o.log[*pos])
                },
                None => false,
            };
            if !present {
                proof {
                    assert forall|k: u64| k < idx implies !(#[trigger] lacks_held(
                        o@,
                        held@,
                        k,
                    )) by {
                        if held@.contains_key(k) {
                            assert(held.prints@.contains_key(k));
                            let j = choose|j: int|
                                0 <= j < items.len() && (#[trigger] items[j]).0 == k;
                            assert(items[i as int].0 == idx);
                            if j > i {
                                assert(items[i as int].0 < items[j].0);
                            }
                        }
                    }
                }
                return Some((idx, term));
            }
        }
        i += 1;
    }
    proof {
        assert forall|k: u64| !(#[trigger] lacks_held(o@, held@, k)) by {
            if held@.contains_key(k) {
                assert(held.prints@.contains_key(k));
                let j = choose|j: int| 0 <= j < items.len() && (#[trigger] items[j]).0 == k;
                assert(!lacks_held(o@, held@, items[j].0));
            }
        }
    }
    None
}

/// Whether observation `i` claims a leadership that `leaders` or an earlier
/// observation gives to another node.
pub open spec fn claims_taken_term(leaders: LeaderMap, obs: Seq<ObservationView>, i: int) -> bool {
    let key = (obs[i].group, obs[i].term);
    &&& obs[i].role == Role::Leader
    &&& {
        ||| leaders.contains_key(key) && leaders[key] != obs[i].node
        ||| exists|j: int|
            0 <= j < i && (#[trigger] obs[j]).role == Role::Leader && (obs[j].group, obs[j].term)
                == key && obs[j].node != obs[i].node
    }
}

/// Election Safety is reported exactly where some term of some group has two
/// leaders; otherwise every leader seen is remembered, and nothing that was known is
/// lost.
pub proof fn law_election_safety(leaders: LeaderMap, obs: Seq<ObservationView>, n: nat)
    requires
        n <= obs.len(),
    ensures
        election_run(leaders, obs, n) is None <==> exists|i: int|
            0 <= i < n && #[trigger] claims_taken_term(leaders, obs, i),
        election_run(leaders, obs, n) matches Some(m) ==> {
            &&& forall|k: (GroupView, u64)| #[trigger]
                leaders.contains_key(k) ==> m.contains_key(k) && m[k] == leaders[k]
            &&& forall|i: int|
                0 <= i < n && (#[trigger] obs[i]).role == Role::Leader ==> m.contains_key(
                    (obs[i].group, obs[i].term),
                ) && m[(obs[i].group, obs[i].term)] == obs[i].node
            &&& forall|k: (GroupView, u64)| #[trigger]
                m.contains_key(k) && !leaders.contains_key(k) ==> exists|i: int|
                    0 <= i < n && (#[trigger] obs[i]).role == Role::Leader && (
                        obs[i].group,
                        obs[i].term,
                    ) == k && obs[i].node == m[k]
        },
    decreases n,
{
    if n > 0 {
        let p = (n - 1) as nat;
        law_election_safety(leaders, obs, p);
        let o = obs[n - 1];
        let key = (o.group, o.term);
        match election_run(leaders, obs, p) {
            Some(m) => {
                if o.role == Role::Leader && m.contains_key(key) && m[key] != o.node {
                    if !leaders.contains_key(key) {
                        let j = choose|j: int|
                            0 <= j < p && (#[trigger] obs[j]).role == Role::Leader && (
                                obs[j].group,
                                obs[j].term,
                            ) == key && obs[j].node == m[key];
                        assert(obs[j].node != o.node);
                    }
                    assert(claims_taken_term(leaders, obs, n - 1));
                } else {
                    assert(!claims_taken_term(leaders, obs, n - 1));
                    let after = election_run(leaders, obs, n)->0;
                    assert forall|k: (GroupView, u64)| #[trigger]
                        after.contains_key(k) && !leaders.contains_key(k) implies exists|i: int|
                        0 <= i < n && (#[trigger] obs[i]).role == Role::Leader && (
                            obs[i].group,
                            obs[i].term,
                        ) == k && obs[i].node == after[k] by {
                        if m.contains_key(k) {
                            let j = choose|j: int|
                                0 <= j < p && (#[trigger] obs[j]).role == Role::Leader && (
                                    obs[j].group,
                                    obs[j].term,
                                ) == k && obs[j].node == m[k];
                            assert(0 <= j < n);
                        } else {
                            assert(obs[n - 1].role == Role::Leader);
                        }
                    }
                }
            },
            None => {
                let i = choose|i: int| 0 <= i < p && #[trigger] claims_taken_term(leaders, obs, i);
                assert(0 <= i < n);
            },
        }
    }
}

/// A later observation of a replica is reported exactly where its commit index fell
/// and its term did not: a lower term is a new incarnation, and is let pass.
pub proof fn law_commit_monotonicity(
    commits: CommitMap,
    first: ObservationView,
    second: ObservationView,
)
    requires
        first.group == second.group,
        first.node == second.node,
        commit_step(commits, first) is Some,
    ensures
        commit_step(commit_step(commits, first)->0, second) is None <==> (second.term >= first.term
            && commit_below(second.commit_index, first.commit_index)),
{
}

/// Whether entry `k` of observation `i` is committed there.
pub open spec fn commits_entry(obs: Seq<ObservationView>, i: int, k: int) -> bool {
    &&& 0 <= i < obs.len()
    &&& obs[i].commit_index matches Some(c) && 0 <= k < committed_len(obs[i].log, c)
}

/// Whether two observations commit different entries at one index of a group.
pub open spec fn disagree(obs: Seq<ObservationView>, i: int, k: int, j: int, l: int) -> bool {
    &&& commits_entry(obs, i, k)
    &&& commits_entry(obs, j, l)
    &&& obs[i].group == obs[j].group
    &&& obs[i].log[k].index == obs[j].log[l].index
    &&& print(obs[i].log[k]) != print(obs[j].log[l])
}

/// Whether a committed entry is among those of the first `n` observations and the
/// first `m` entries of the next.
spec fn counted(obs: Seq<ObservationView>, i: int, k: int, n: int, m: int) -> bool {
    commits_entry(obs, i, k) && (i < n || (i == n && k < m))
}

/// `state` holds exactly the entries counted, each with the least term of a replica
/// that committed it.
spec fn gathers(obs: Seq<ObservationView>, state: CommittedMap, n: int, m: int) -> bool {
    &&& forall|i: int, k: int| #[trigger]
        counted(obs, i, k, n, m) ==> {
            let held = known(state, obs[i].group);
            let e = obs[i].log[k];
            &&& held.contains_key(e.index)
            &&& held[e.index].print == print(e)
            &&& held[e.index].commit_term <= obs[i].term
        }
    &&& forall|g: GroupView, idx: u64| #[trigger]
        known(state, g).contains_key(idx) ==> exists|i: int, k: int| #[trigger]
            counted(obs, i, k, n, m) && obs[i].group == g && obs[i].log[k].index == idx && print(
                obs[i].log[k],
            ) == known(state, g)[idx].print && obs[i].term == known(state, g)[idx].commit_term
}

/// Counting one entry more keeps the account.
proof fn lemma_gathers_entry(
    obs: Seq<ObservationView>,
    state: CommittedMap,
    held: Map<u64, CommittedView>,
    n: int,
    m: int,
)
    requires
        0 <= n < obs.len(),
        commits_entry(obs, n, m),
        0 <= m < obs[n].log.len(),
        gathers(obs, state.insert(obs[n].group, held), n, m),
    ensures
        match entry_step(held, obs[n], obs[n].log[m]) {
            Some(after) => gathers(obs, state.insert(obs[n].group, after), n, m + 1),
            None => exists|i: int, k: int, j: int, l: int| disagree(obs, i, k, j, l),
        },
{
    let o = obs[n];
    let e = o.log[m];
    let before = state.insert(o.group, held);
    assert(known(before, o.group) == held);
    match entry_step(held, o, e) {
        None => {
            assert(known(before, o.group).contains_key(e.index));
            let (i, k) = choose|i: int, k: int| #[trigger]
                counted(obs, i, k, n, m) && obs[i].group == o.group && obs[i].log[k].index
                    == e.index && print(obs[i].log[k]) == known(before, o.group)[e.index].print
                    && obs[i].term == known(before, o.group)[e.index].commit_term;
            assert(disagree(obs, i, k, n, m));
        },
        Some(after) => {
            let s = state.insert(o.group, after);
            assert(known(s, o.group) == after);
            assert forall|i: int, k: int| #[trigger] counted(obs, i, k, n, m + 1) implies {
                let held = known(s, obs[i].group);
                let x = obs[i].log[k];
                &&& held.contains_key(x.index)
                &&& held[x.index].print == print(x)
                &&& held[x.index].commit_term <= obs[i].term
            } by {
                if !(i == n && k == m) {
                    assert(counted(obs, i, k, n, m));
                    if obs[i].group != o.group {
                        assert(known(s, obs[i].group) == known(before, obs[i].group));
                    }
                }
            }
            assert forall|g: GroupView, idx: u64| #[trigger]
                known(s, g).contains_key(idx) implies exists|i: int, k: int| #[trigger]
                counted(obs, i, k, n, m + 1) && obs[i].group == g && obs[i].log[k].index == idx
                    && print(obs[i].log[k]) == known(s, g)[idx].print && obs[i].term
                    == known(s, g)[idx].commit_term by {
                if g == o.group && idx == e.index && (!held.contains_key(idx) || o.term
                    < held[idx].commit_term) {
                    assert(counted(obs, n, m, n, m + 1));
                } else {
                    if g != o.group {
                        assert(known(s, g) == known(before, g));
                    }
                    assert(known(before, g).contains_key(idx));
                    let (i, k) = choose|i: int, k: int| #[trigger]
                        counted(obs, i, k, n, m) && obs[i].group == g && obs[i].log[k].index == idx
                            && print(obs[i].log[k]) == known(before, g)[idx].print && obs[i].term
                            == known(before, g)[idx].commit_term;
                    assert(counted(obs, i, k, n, m + 1));
                }
            }
        },
    }
}

/// A committed prefix is part of its log.
proof fn lemma_committed_within(log: Seq<LogEntryView>, commit: u64)
    ensures
        committed_len(log, commit) <= log.len(),
    decreases log.len(),
{
    if log.len() > 0 && log[0].index <= commit {
        lemma_committed_within(log.drop_first(), commit);
    }
}

/// Counting the entries of one observation keeps the account.
proof fn lemma_gathers_entries(obs: Seq<ObservationView>, state: CommittedMap, n: int, m: nat)
    requires
        0 <= n < obs.len(),
        obs[n].commit_index is Some,
        m <= committed_len(obs[n].log, obs[n].commit_index->0),
        gathers(obs, state, n, 0),
    ensures
        match entries_run(known(state, obs[n].group), obs[n], m) {
            Some(held) => gathers(obs, state.insert(obs[n].group, held), n, m as int),
            None => exists|i: int, k: int, j: int, l: int| disagree(obs, i, k, j, l),
        },
    decreases m,
{
    let o = obs[n];
    let base = known(state, o.group);
    if m == 0 {
        let s = state.insert(o.group, base);
        assert forall|g: GroupView| #[trigger] known(s, g) == known(state, g) by {}
        assert forall|i: int, k: int| #[trigger] counted(obs, i, k, n, 0) implies {
            let held = known(s, obs[i].group);
            let e = obs[i].log[k];
            &&& held.contains_key(e.index)
            &&& held[e.index].print == print(e)
            &&& held[e.index].commit_term <= obs[i].term
        } by {
            assert(known(s, obs[i].group) == known(state, obs[i].group));
        }
    } else {
        lemma_gathers_entries(obs, state, n, (m - 1) as nat);
        lemma_committed_within(o.log, o.commit_index->0);
        match entries_run(base, o, (m - 1) as nat) {
            Some(held) => {
                assert(commits_entry(obs, n, m - 1));
                lemma_gathers_entry(obs, state, held, n, m - 1);
            },
            None => {},
        }
    }
}

/// Counting every observation in turn keeps the account.
proof fn lemma_gathers(obs: Seq<ObservationView>, n: nat)
    requires
        n <= obs.len(),
    ensures
        match committed_run(obs, n) {
            Some(state) => gathers(obs, state, n as int, 0),
            None => exists|i: int, k: int, j: int, l: int| disagree(obs, i, k, j, l),
        },
    decreases n,
{
    if n > 0 {
        let p = n - 1;
        lemma_gathers(obs, p as nat);
        match committed_run(obs, p as nat) {
            Some(state) => {
                let o = obs[p];
                match o.commit_index {
                    Some(c) => {
                        let len = committed_len(o.log, c);
                        lemma_gathers_entries(obs, state, p, len);
                        match entries_run(known(state, o.group), o, len) {
                            Some(held) => {
                                let s = state.insert(o.group, held);
                                lemma_next_observation(obs, s, p, len as int);
                            },
                            None => {},
                        }
                    },
                    None => {
                        lemma_next_observation(obs, state, p, 0);
                    },
                }
            },
            None => {},
        }
    }
}

/// With all its committed entries counted, an observation is done.
proof fn lemma_next_observation(obs: Seq<ObservationView>, state: CommittedMap, p: int, m: int)
    requires
        0 <= p < obs.len(),
        gathers(obs, state, p, m),
        match obs[p].commit_index {
            Some(c) => m == committed_len(obs[p].log, c),
            None => m == 0,
        },
    ensures
        gathers(obs, state, p + 1, 0),
{
    assert forall|i: int, k: int| #[trigger] counted(obs, i, k, p + 1, 0) implies counted(
        obs,
        i,
        k,
        p,
        m,
    ) by {}
    assert forall|i: int, k: int| #[trigger] counted(obs, i, k, p, m) implies counted(
        obs,
        i,
        k,
        p + 1,
        0,
    ) by {}
    assert forall|g: GroupView, idx: u64| #[trigger]
        known(state, g).contains_key(idx) implies exists|i: int, k: int| #[trigger]
        counted(obs, i, k, p + 1, 0) && obs[i].group == g && obs[i].log[k].index == idx && print(
            obs[i].log[k],
        ) == known(state, g)[idx].print && obs[i].term == known(state, g)[idx].commit_term by {
        let (i, k) = choose|i: int, k: int| #[trigger]
            counted(obs, i, k, p, m) && obs[i].group == g && obs[i].log[k].index == idx && print(
                obs[i].log[k],
            ) == known(state, g)[idx].print && obs[i].term == known(state, g)[idx].commit_term;
        assert(counted(obs, i, k, p + 1, 0));
    }
}

/// State Machine Safety is reported exactly where two replicas of a group committed
/// different entries at one index.
pub proof fn law_state_machine_safety(obs: Seq<ObservationView>)
    ensures
        committed_run(obs, obs.len()) is None <==> exists|i: int, k: int, j: int, l: int|
            disagree(obs, i, k, j, l),
{
    lemma_gathers(obs, obs.len());
    let n = obs.len() as int;
    match committed_run(obs, obs.len()) {
        Some(state) => {
            assert forall|i: int, k: int, j: int, l: int| !disagree(obs, i, k, j, l) by {
                if disagree(obs, i, k, j, l) {
                    assert(counted(obs, i, k, n, 0));
                    assert(counted(obs, j, l, n, 0));
                }
            }
        },
        None => {},
    }
}

/// What was gathered as committed is what the replicas committed: each entry with the
/// least term of a replica that holds it committed, and no other entry.
pub proof fn law_committed_view(obs: Seq<ObservationView>, group: GroupView, idx: u64)
    requires
        committed_run(obs, obs.len()) is Some,
    ensures
        ({
            let held = known(committed_run(obs, obs.len())->0, group);
            &&& held.contains_key(idx) <==> exists|i: int, k: int| #[trigger]
                commits_entry(obs, i, k) && obs[i].group == group && obs[i].log[k].index == idx
            &&& forall|i: int, k: int| #[trigger]
                commits_entry(obs, i, k) && obs[i].group == group && obs[i].log[k].index == idx
                    ==> held[idx].print == print(obs[i].log[k]) && held[idx].commit_term
                    <= obs[i].term
            &&& held.contains_key(idx) ==> exists|i: int, k: int| #[trigger]
                commits_entry(obs, i, k) && obs[i].group == group && obs[i].log[k].index == idx
                    && obs[i].term == held[idx].commit_term
        }),
{
    lemma_gathers(obs, obs.len());
    let n = obs.len() as int;
    let state = committed_run(obs, obs.len())->0;
    let held = known(state, group);
    assert forall|i: int, k: int| #[trigger] commits_entry(obs, i, k) implies counted(
        obs,
        i,
        k,
        n,
        0,
    ) by {}
    if held.contains_key(idx) {
        let (i, k) = choose|i: int, k: int| #[trigger]
            counted(obs, i, k, n, 0) && obs[i].group == group && obs[i].log[k].index == idx
                && print(obs[i].log[k]) == known(state, group)[idx].print && obs[i].term
                == known(state, group)[idx].commit_term;
        assert(commits_entry(obs, i, k));
    }
}

/// Entry `k` of observation `i` is the first committed entry that differs from what
/// another replica committed at its index.
spec fn stops_at(obs: Seq<ObservationView>, i: int, k: int) -> bool {
    &&& 0 <= i < obs.len()
    &&& committed_run(obs, i as nat) is Some
    &&& obs[i].commit_index is Some
    &&& 0 <= k < committed_len(obs[i].log, obs[i].commit_index->0)
    &&& entries_run(
        known(committed_run(obs, i as nat)->0, obs[i].group),
        obs[i],
        k as nat,
    ) matches Some(m) && entry_step(m, obs[i], obs[i].log[k]) is None
}

proof fn lemma_stops_once(obs: Seq<ObservationView>, i: int, k: int, j: int, l: int)
    requires
        stops_at(obs, i, k),
        stops_at(obs, j, l),
    ensures
        i == j,
        k == l,
{
    let m = known(committed_run(obs, i as nat)->0, obs[i].group);
    let n = known(committed_run(obs, j as nat)->0, obs[j].group);
    lemma_entries_stop(m, obs[i], k as nat, committed_len(obs[i].log, obs[i].commit_index->0));
    lemma_entries_stop(n, obs[j], l as nat, committed_len(obs[j].log, obs[j].commit_index->0));
    if i < j {
        lemma_committed_stops(obs, i as nat, j as nat);
    } else if j < i {
        lemma_committed_stops(obs, j as nat, i as nat);
    } else if k < l {
        lemma_entries_stop(m, obs[i], k as nat, l as nat);
    } else if l < k {
        lemma_entries_stop(m, obs[i], l as nat, k as nat);
    }
}

proof fn lemma_mismatch_once(
    a: Map<u64, FingerprintView>,
    b: Map<u64, FingerprintView>,
    idx: u64,
    divergence: u64,
    x: u64,
    d: u64,
)
    requires
        mismatch(a, b, idx, divergence),
        mismatch(a, b, x, d),
    ensures
        idx == x,
        divergence == d,
{
    assert(common(a, b, divergence) && common(a, b, d));
    assert(divergence == d);
    assert(common(a, b, idx) && common(a, b, x));
}

/// What is seen decides what checking the logs comes to.
pub proof fn law_log_checks_are_decided(
    obs: Seq<ObservationView>,
    r: Result<(), Violation>,
    s: Result<(), Violation>,
    now: VirtualInstant,
)
    requires
        logs_verdict(obs, r, now),
        logs_verdict(obs, s, now),
    ensures
        super::results_alike(r, s),
{
    match committed_run(obs, obs.len()) {
        None => {
            let v = r->Err_0@;
            let w = s->Err_0@;
            let (i, k) = choose|i: int, k: int|
                #![trigger obs[i].log[k]]
                {
                    &&& 0 <= i < obs.len()
                    &&& committed_run(obs, i as nat) is Some
                    &&& obs[i].commit_index is Some
                    &&& 0 <= k < committed_len(obs[i].log, obs[i].commit_index->0)
                    &&& entries_run(
                        known(committed_run(obs, i as nat)->0, obs[i].group),
                        obs[i],
                        k as nat,
                    ) matches Some(m) && entry_step(m, obs[i], obs[i].log[k]) is None && v
                        == committed_violation(m, obs[i], obs[i].log[k], now)
                };
            let (j, l) = choose|i: int, k: int|
                #![trigger obs[i].log[k]]
                {
                    &&& 0 <= i < obs.len()
                    &&& committed_run(obs, i as nat) is Some
                    &&& obs[i].commit_index is Some
                    &&& 0 <= k < committed_len(obs[i].log, obs[i].commit_index->0)
                    &&& entries_run(
                        known(committed_run(obs, i as nat)->0, obs[i].group),
                        obs[i],
                        k as nat,
                    ) matches Some(m) && entry_step(m, obs[i], obs[i].log[k]) is None && w
                        == committed_violation(m, obs[i], obs[i].log[k], now)
                };
            lemma_stops_once(obs, i, k, j, l);
        },
        Some(committed) => {
            if !logs_match(obs) {
                let v = r->Err_0@;
                let w = s->Err_0@;
                let (i, j) = choose|i: int, j: int| #[trigger]
                    first_mismatch(obs, i, j) && reports_mismatch(
                        obs[i].group,
                        obs[i],
                        obs[j],
                        v,
                        now,
                    );
                let (k, l) = choose|k: int, l: int| #[trigger]
                    first_mismatch(obs, k, l) && reports_mismatch(
                        obs[k].group,
                        obs[k],
                        obs[l],
                        w,
                        now,
                    );
                assert(obs[i].group == obs[j].group && obs[k].group == obs[l].group);
                assert(i == k);
                assert(j == l);
                let a = print_map(obs[i].log);
                let b = print_map(obs[j].log);
                let (x, d) = choose|x: u64, d: u64| #[trigger]
                    mismatch(a, b, x, d) && v == matching_violation(
                        obs[i].group,
                        obs[i],
                        obs[j],
                        x,
                        d,
                        now,
                    );
                let (y, e) = choose|y: u64, e: u64| #[trigger]
                    mismatch(a, b, y, e) && w == matching_violation(
                        obs[i].group,
                        obs[i],
                        obs[j],
                        y,
                        e,
                        now,
                    );
                lemma_mismatch_once(a, b, x, d, y, e);
            }
        },
    }
}

} // verus!
