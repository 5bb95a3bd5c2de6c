//! The liveness checker: a group that stays favorable makes progress in time.
//!
//! A group is favorable while a majority of its voters is up and all that are up can
//! reach each other. While it is, a window is open; a window that has been open for
//! longer than the budget without the group having converged is a violation. Faults
//! and heals close all windows, so that the time starts anew.

use super::{PropertyId, Violation, ViolationView};
use crate::cluster::{SimNode, SimulatedCluster};
use crate::groups;
use crate::keyed::KeyedMap;
use crate::model::{self, GroupKey, GroupView, NodeId, Role};
use crate::network::SimNetwork;
use crate::scheduler::{VirtualDuration, VirtualInstant};
use crate::text;
use crate::topology::Topology;
use vstd::prelude::*;

verus! {

/// What is seen of one voter of a group.
#[derive(Debug)]
pub struct VoterSnapshot {
    pub node: NodeId,
    pub up: bool,
    pub role: Role,
    pub commit_index: Option<u64>,
    pub last_index: Option<u64>,
}

/// A voter as a mathematical value.
pub struct VoterView {
    pub node: Seq<char>,
    pub up: bool,
    pub role: Role,
    pub commit_index: Option<u64>,
    pub last_index: Option<u64>,
}

impl View for VoterSnapshot {
    type V = VoterView;

    open spec fn view(&self) -> VoterView {
        VoterView {
            node: self.node@,
            up: self.up,
            role: self.role,
            commit_index: self.commit_index,
            last_index: self.last_index,
        }
    }
}

/// What is seen of a group: its voters, and which of them reach each other.
#[derive(Debug)]
pub struct GroupSnapshot {
    pub group: GroupKey,
    pub voters: Vec<VoterSnapshot>,
    pub reachable: Vec<Vec<bool>>,
}

/// A group snapshot as a mathematical value.
#[verifier::ext_equal]
pub struct SnapshotView {
    pub group: GroupView,
    pub voters: Seq<VoterView>,
    pub reachable: Seq<Seq<bool>>,
}

pub open spec fn voter_views(voters: Seq<VoterSnapshot>) -> Seq<VoterView> {
    Seq::new(voters.len(), |i: int| voters[i]@)
}

pub open spec fn rows(matrix: Seq<Vec<bool>>) -> Seq<Seq<bool>> {
    Seq::new(matrix.len(), |i: int| matrix[i]@)
}

impl View for GroupSnapshot {
    type V = SnapshotView;

    open spec fn view(&self) -> SnapshotView {
        SnapshotView {
            group: self.group@,
            voters: voter_views(self.voters@),
            reachable: rows(self.reachable@),
        }
    }
}

/// The positions of the voters that are up, in order.
pub open spec fn ups(voters: Seq<VoterView>) -> Seq<int>
    decreases voters.len(),
{
    if voters.len() == 0 {
        Seq::empty()
    } else if voters.last().up {
        ups(voters.drop_last()).push(voters.len() - 1)
    } else {
        ups(voters.drop_last())
    }
}

/// How far a group has come.
#[derive(Clone, Copy, Debug, PartialEq, Eq, Structural)]
pub struct Progress {
    pub leader_elected: bool,
    pub converged: bool,
}

impl SnapshotView {
    /// Whether the reachability matrix has a row and a column for every voter.
    pub open spec fn wf(self) -> bool {
        &&& self.reachable.len() == self.voters.len()
        &&& forall|i: int|
            0 <= i < self.voters.len() ==> (#[trigger] self.reachable[i]).len()
                == self.voters.len()
    }

    pub open spec fn majority_size(self) -> nat {
        self.voters.len() / 2 + 1
    }

    /// Whether voter `i` is up.
    pub open spec fn is_up(self, i: int) -> bool {
        0 <= i < self.voters.len() && self.voters[i].up
    }

    /// Whether a majority is up and all that are up reach each other.
    pub open spec fn is_favorable(self) -> bool {
        &&& ups(self.voters).len() >= self.majority_size()
        &&& forall|i: int, j: int|
            #![trigger self.reachable[i][j]]
            i < j && self.is_up(i) && self.is_up(j) ==> self.reachable[i][j]
    }

    /// Whether voter `i` is up and leads.
    pub open spec fn leads(self, i: int) -> bool {
        self.is_up(i) && self.voters[i].role == Role::Leader
    }

    /// Whether voter `i` alone is up and leads.
    pub open spec fn sole_leader(self, i: int) -> bool {
        self.leads(i) && forall|j: int| #[trigger] self.leads(j) ==> j == i
    }

    /// Whether leader `i` has committed all it holds, and every voter that is up has
    /// committed as much.
    pub open spec fn is_converged(self, i: int) -> bool {
        &&& self.voters[i].commit_index == self.voters[i].last_index
        &&& forall|j: int| #[trigger]
            self.is_up(j) ==> self.voters[j].commit_index == self.voters[i].commit_index
    }

    pub open spec fn progress_made(self) -> Progress {
        if exists|i: int| self.sole_leader(i) {
            Progress {
                leader_elected: true,
                converged: self.is_converged(choose|i: int| self.sole_leader(i)),
            }
        } else {
            Progress { leader_elected: false, converged: false }
        }
    }
}

/// The positions listed are those of the voters that are up, in ascending order.
proof fn lemma_ups(voters: Seq<VoterView>)
    ensures
        forall|a: int|
            0 <= a < ups(voters).len() ==> 0 <= #[trigger] ups(voters)[a] < voters.len()
                && voters[ups(voters)[a]].up,
        forall|a: int, b: int|
            0 <= a < b < ups(voters).len() ==> #[trigger] ups(voters)[a] < #[trigger] ups(voters)[b],
        forall|i: int|
            0 <= i < voters.len() && (#[trigger] voters[i]).up ==> exists|a: int|
                0 <= a < ups(voters).len() && #[trigger] ups(voters)[a] == i,
    decreases voters.len(),
{
    if voters.len() > 0 {
        let rest = voters.drop_last();
        lemma_ups(rest);
        let all = ups(voters);
        let before = ups(rest);
        assert forall|a: int| 0 <= a < all.len() implies 0 <= #[trigger] all[a] < voters.len()
            && voters[all[a]].up by {
            if a < before.len() {
                assert(all[a] == before[a]);
                assert(rest[before[a]] == voters[before[a]]);
            }
        }
        assert forall|i: int| 0 <= i < voters.len() && (#[trigger] voters[i]).up implies exists|
            a: int,
        |
            0 <= a < all.len() && #[trigger] all[a] == i by {
            if i < rest.len() {
                assert(rest[i].up);
                let a = choose|a: int| 0 <= a < before.len() && #[trigger] before[a] == i;
                assert(all[a] == i);
            } else {
                assert(all[all.len() - 1] == i);
            }
        }
        assert forall|a: int, b: int| 0 <= a < b < all.len() implies #[trigger] all[a]
            < #[trigger] all[b] by {
            assert(all[a] == before[a]);
            if b < before.len() {
                assert(all[b] == before[b]);
            }
        }
    }
}

impl GroupSnapshot {
    /// How many voters make a majority.
    pub fn majority(&self) -> (r: usize)
        ensures
            r == self@.majority_size(),
    {
        self.voters.len() / 2 + 1
    }

    /// The positions of the voters that are up.
    pub fn up_indices(&self) -> (r: Vec<usize>)
        ensures
            r@.len() == ups(self@.voters).len(),
            forall|a: int| 0 <= a < r@.len() ==> #[trigger] r@[a] == ups(self@.voters)[a],
    {
        let mut out: Vec<usize> = Vec::new();
        let ghost views = self@.voters;
        let mut i: usize = 0;
        assert(views.take(0) =~= Seq::empty());
        while i < self.voters.len()
            invariant
                i <= views.len(),
                views == voter_views(self.voters@),
                out@.len() == ups(views.take(i as int)).len(),
                forall|a: int|
                    0 <= a < out@.len() ==> #[trigger] out@[a] == ups(views.take(i as int))[a],
            decreases views.len() - i,
        {
            assert(views.take(i + 1).drop_last() =~= views.take(i as int));
            assert(views[i as int] == self.voters@[i as int]@);
            if self.voters[i].up {
                out.push(i);
            }
            i += 1;
        }
        assert(views.take(i as int) =~= views);
        out
    }

    /// Whether a majority is up and all that are up reach each other.
    pub fn favorable(&self) -> (r: bool)
        requires
            self@.wf(),
        ensures
            r == self@.is_favorable(),
    {
        let up = self.up_indices();
        let ghost all = ups(self@.voters);
        proof {
            lemma_ups(self@.voters);
        }
        if up.len() < self.majority() {
            return false;
        }
        let mut a: usize = 0;
        while a < up.len()
            invariant
                a <= up@.len(),
                self@.wf(),
                all == ups(self@.voters),
                all.len() >= self@.majority_size(),
                up@.len() == all.len(),
                forall|x: int| 0 <= x < up@.len() ==> #[trigger] up@[x] == all[x],
                forall|x: int|
                    0 <= x < all.len() ==> 0 <= #[trigger] all[x] < self@.voters.len()
                        && self@.voters[all[x]].up,
                forall|x: int, y: int|
                    0 <= x < y < all.len() ==> #[trigger] all[x] < #[trigger] all[y],
                forall|x: int, y: int|
                    0 <= x < a && x < y < all.len()
                        ==> self@.reachable[#[trigger] all[x]][#[trigger] all[y]],
            decreases up@.len() - a,
        {
            let mut b: usize = a + 1;
            while b < up.len()
                invariant
                    a < b <= up@.len(),
                    self@.wf(),
                    all == ups(self@.voters),
                    up@.len() == all.len(),
                    forall|x: int| 0 <= x < up@.len() ==> #[trigger] up@[x] == all[x],
                    forall|x: int|
                        0 <= x < all.len() ==> 0 <= #[trigger] all[x] < self@.voters.len()
                            && self@.voters[all[x]].up,
                    forall|x: int, y: int|
                        0 <= x < y < all.len() ==> #[trigger] all[x] < #[trigger] all[y],
                    forall|y: int|
                        a < y < b ==> self@.reachable[all[a as int]][#[trigger] all[y]],
                decreases up@.len() - b,
            {
                let i: usize = up[a];
                let j: usize = up[b];
                assert(all[a as int] < all[b as int]);
                assert(self@.reachable[i as int].len() == self@.voters.len());
                assert(self@.reachable[i as int] == self.reachable@[i as int]@);
                if !self.reachable[i][j] {
                    assert(self@.is_up(i as int) && self@.is_up(j as int));
                    assert(!self@.reachable[i as int][j as int]);
                    return false;
                }
                b += 1;
            }
            a += 1;
        }
        proof {
            assert forall|i: int, j: int|
                #![trigger self@.reachable[i][j]]
                i < j && self@.is_up(i) && self@.is_up(j) implies self@.reachable[i][j] by {
                let x = choose|x: int| 0 <= x < all.len() && #[trigger] all[x] == i;
                let y = choose|y: int| 0 <= y < all.len() && #[trigger] all[y] == j;
                if y <= x {
                    if y < x {
                        assert(all[y] < all[x]);
                    }
                }
                assert(self@.reachable[all[x]][all[y]]);
            }
        }
        true
    }

    /// The voter that alone is up and leads, if there is one.
    pub fn single_leader(&self) -> (r: Option<usize>)
        ensures
            match r {
                Some(i) => self@.sole_leader(i as int),
                None => forall|i: int| !(#[trigger] self@.sole_leader(i)),
            },
    {
        let mut leader: Option<usize> = None;
        let mut i: usize = 0;
        while i < self.voters.len()
            invariant
                i <= self.voters@.len(),
                match leader {
                    Some(l) => l < i && self@.leads(l as int) && forall|j: int|
                        0 <= j < i && #[trigger] self@.leads(j) ==> j == l,
                    None => forall|j: int| 0 <= j < i ==> !(#[trigger] self@.leads(j)),
                },
            decreases self.voters@.len() - i,
        {
            assert(self@.voters[i as int] == self.voters@[i as int]@);
            if self.voters[i].up && self.voters[i].role == Role::Leader {
                assert(self@.leads(i as int));
                match leader {
                    Some(l) => {
                        assert(self@.leads(l as int));
                        assert forall|k: int| !(#[trigger] self@.sole_leader(k)) by {
                            if self@.sole_leader(k) {
                                assert(k == i && k == l);
                            }
                        }
                        return None;
                    },
                    None => {
                        leader = Some(i);
                    },
                }
            }
            i += 1;
        }
        match leader {
            Some(l) => {
                assert(self@.sole_leader(l as int));
            },
            None => {
                assert forall|k: int| !(#[trigger] self@.sole_leader(k)) by {
                    if self@.sole_leader(k) {
                        assert(self@.leads(k));
                    }
                }
            },
        }
        leader
    }

    /// Whether the leader has no backlog and every voter that is up keeps pace.
    pub fn converged(&self, leader: usize) -> (r: bool)
        requires
            leader < self.voters@.len(),
        ensures
            r == self@.is_converged(leader as int),
    {
        assert(self@.voters[leader as int] == self.voters@[leader as int]@);
        if !same_index(self.voters[leader].commit_index, self.voters[leader].last_index) {
            return false;
        }
        let mut i: usize = 0;
        while i < self.voters.len()
            invariant
                i <= self.voters@.len(),
                leader < self.voters@.len(),
                self@.voters[leader as int] == self.voters@[leader as int]@,
                forall|j: int|
                    0 <= j < i && #[trigger] self@.is_up(j) ==> self@.voters[j].commit_index
                        == self@.voters[leader as int].commit_index,
            decreases self.voters@.len() - i,
        {
            assert(self@.voters[i as int] == self.voters@[i as int]@);
            if self.voters[i].up && !same_index(
                self.voters[i].commit_index,
                self.voters[leader].commit_index,
            ) {
                assert(self@.is_up(i as int));
                return false;
            }
            i += 1;
        }
        true
    }

    /// How far the group has come.
    pub fn progress(&self) -> (r: Progress)
        ensures
            r == self@.progress_made(),
    {
        match self.single_leader() {
            Some(leader) => {
                let ghost chosen = choose|i: int| self@.sole_leader(i);
                assert(self@.sole_leader(leader as int));
                assert(self@.sole_leader(chosen));
                assert(self@.leads(chosen));
                assert(chosen == leader);
                Progress { leader_elected: true, converged: self.converged(leader) }
            },
            None => Progress { leader_elected: false, converged: false },
        }
    }
}

fn same_index(a: Option<u64>, b: Option<u64>) -> (r: bool)
    ensures
        r == (a == b),
{
    match (a, b) {
        (Some(x), Some(y)) => x == y,
        (None, None) => true,
        _ => false,
    }
}

/// How long a group has been favorable, and what it achieved since.
#[derive(Clone, Copy, Debug, PartialEq, Eq)]
pub struct GroupWindow {
    pub since: Option<VirtualInstant>,
    pub leader_elected: bool,
    pub satisfied: bool,
}

impl Default for GroupWindow {
    fn default() -> (r: Self)
        ensures
            r == GroupWindow::closed(),
    {
        GroupWindow { since: None, leader_elected: false, satisfied: false }
    }
}

impl GroupWindow {
    /// The window of a group that is not favorable.
    pub open spec fn closed() -> GroupWindow {
        GroupWindow { since: None, leader_elected: false, satisfied: false }
    }

    /// The window of a group that has just become favorable.
    pub open spec fn opened(now: VirtualInstant) -> GroupWindow {
        GroupWindow { since: Some(now), leader_elected: false, satisfied: false }
    }

    /// The window after `snap` was seen at `now`.
    pub open spec fn after(self, snap: SnapshotView, now: VirtualInstant) -> GroupWindow {
        if !snap.is_favorable() {
            GroupWindow::closed()
        } else {
            let w = if self.since is None {
                GroupWindow::opened(now)
            } else {
                self
            };
            GroupWindow {
                since: w.since,
                leader_elected: w.leader_elected || snap.progress_made().leader_elected,
                satisfied: w.satisfied || snap.progress_made().converged,
            }
        }
    }

    /// Whether the group has been favorable for longer than `budget` without having
    /// converged.
    pub open spec fn overdue(self, now: VirtualInstant, budget: VirtualDuration) -> bool {
        self.since matches Some(since) && !self.satisfied && now.0 - since.0 > budget.0
    }

    pub fn open(&mut self, now: VirtualInstant)
        ensures
            *final(self) == GroupWindow::opened(now),
    {
        self.since = Some(now);
        self.leader_elected = false;
        self.satisfied = false;
    }

    pub fn close(&mut self)
        ensures
            *final(self) == GroupWindow::closed(),
    {
        self.since = None;
        self.leader_elected = false;
        self.satisfied = false;
    }
}

/// The window of each group.
pub type WindowMap = Map<GroupView, GroupWindow>;

/// The window of `g`; a closed one where there is none.
pub open spec fn window_of(windows: WindowMap, g: GroupView) -> GroupWindow {
    if windows.contains_key(g) {
        windows[g]
    } else {
        GroupWindow::closed()
    }
}

/// The windows after the first `n` snapshots were seen.
pub open spec fn windows_run(
    windows: WindowMap,
    snaps: Seq<SnapshotView>,
    n: nat,
    now: VirtualInstant,
) -> WindowMap
    decreases n,
{
    if n == 0 {
        windows
    } else {
        let before = windows_run(windows, snaps, (n - 1) as nat, now);
        let snap = snaps[n - 1];
        before.insert(snap.group, window_of(before, snap.group).after(snap, now))
    }
}

/// Whether a snapshot of `g` is among `snaps`.
pub open spec fn snapped(snaps: Seq<SnapshotView>, g: GroupView) -> bool {
    exists|i: int| 0 <= i < snaps.len() && (#[trigger] snaps[i]).group == g
}

/// The windows with those closed of which there is no snapshot.
pub open spec fn close_unseen(windows: WindowMap, snaps: Seq<SnapshotView>) -> WindowMap {
    Map::new(
        |g: GroupView| windows.contains_key(g),
        |g: GroupView|
            if snapped(snaps, g) {
                windows[g]
            } else {
                GroupWindow::closed()
            },
    )
}

pub open spec fn snapshot_views(snaps: Seq<GroupSnapshot>) -> Seq<SnapshotView> {
    Seq::new(snaps.len(), |i: int| snaps[i]@)
}

fn is_snapped(snaps: &[GroupSnapshot], group: &GroupKey) -> (r: bool)
    ensures
        r == snapped(snapshot_views(snaps@), group@),
{
    let ghost views = snapshot_views(snaps@);
    let mut i: usize = 0;
    while i < snaps.len()
        invariant
            i <= snaps@.len(),
            views == snapshot_views(snaps@),
            forall|k: int| 0 <= k < i ==> (#[trigger] views[k]).group != group@,
        decreases snaps@.len() - i,
    {
        assert(views[i as int] == snaps@[i as int]@);
        if model::same_group(&snaps[i].group, group) {
            return true;
        }
        i += 1;
    }
    false
}

/// The liveness checker's memory.
#[derive(Debug)]
pub struct LivenessChecker {
    pub allowance: VirtualDuration,
    pub windows: KeyedMap<GroupKey, GroupWindow>,
}

impl Clone for LivenessChecker {
    fn clone(&self) -> (r: Self)
        ensures
            r.allowance == self.allowance,
            self.wf() ==> r.wf() && r.windows@ == self.windows@,
    {
        LivenessChecker { allowance: self.allowance, windows: self.windows.copied() }
    }
}

impl LivenessChecker {
    pub open spec fn wf(self) -> bool {
        self.windows.wf()
    }

    pub fn new(budget: VirtualDuration) -> (r: Self)
        ensures
            r.wf(),
            r.allowance == budget,
            r.windows@ == WindowMap::empty(),
    {
        LivenessChecker { allowance: budget, windows: KeyedMap::new() }
    }

    pub fn budget(&self) -> (r: VirtualDuration)
        ensures
            r == self.allowance,
    {
        self.allowance
    }

    /// Look at the cluster as it is now.
    pub fn observe<M>(&mut self, cluster: &SimulatedCluster<M>, now: VirtualInstant)
        requires
            old(self).wf(),
            cluster.wf(),
        ensures
            final(self).wf(),
            final(self).allowance == old(self).allowance,
            looked_at(old(self).windows@, final(self).windows@, *cluster, now),
    {
        let snaps = collect_snapshots(cluster);
        self.observe_snapshots(snaps.as_slice(), now);
        proof {
            let views = snapshot_views(snaps@);
            assert forall|i: int| 0 <= i < views.len() implies (#[trigger] views[i]) == snapshot_of(
                *cluster,
                views[i].group,
            ) by {
                assert(views[i] == snaps@[i]@);
            }
            assert forall|g: GroupView| #[trigger]
                snapped(views, g) == present(cluster.nodes@, g) by {
                if snapped(views, g) {
                    let i = choose|i: int| 0 <= i < views.len() && (#[trigger] views[i]).group == g;
                    assert(views[i] == snaps@[i]@);
                }
                if present(cluster.nodes@, g) {
                    let i = choose|i: int| 0 <= i < snaps@.len() && (#[trigger] snaps@[i]).group@
                        == g;
                    assert(views[i].group == g);
                }
            }
            assert forall|i: int, j: int| 0 <= i < j < views.len() implies (
            #[trigger] views[i]).group != (#[trigger] views[j]).group by {
                assert(views[i] == snaps@[i]@ && views[j] == snaps@[j]@);
                model::law_group_order(views[i].group, views[j].group, views[i].group);
            }
            let ran = windows_run(old(self).windows@, views, views.len(), now);
            assert forall|g: GroupView| #[trigger]
                self.windows@.contains_key(g) == (old(self).windows@.contains_key(g) || present(
                    cluster.nodes@,
                    g,
                )) by {
                lemma_windows_run(old(self).windows@, views, views.len(), now, g);
                assert(snapped(views, g) == present(cluster.nodes@, g));
                assert(ran.contains_key(g) == self.windows@.contains_key(g));
            }
            assert forall|g: GroupView| #[trigger]
                self.windows@.contains_key(g) implies self.windows@[g] == (if present(
                cluster.nodes@,
                g,
            ) {
                window_of(old(self).windows@, g).after(snapshot_of(*cluster, g), now)
            } else {
                GroupWindow::closed()
            }) by {
                lemma_windows_run(old(self).windows@, views, views.len(), now, g);
                if snapped(views, g) {
                    let i = choose|i: int| 0 <= i < views.len() && (#[trigger] views[i]).group == g;
                    assert(ran[g] == window_of(old(self).windows@, g).after(views[i], now));
                }
            }
        }
    }

    /// Look at groups as they are in `snaps`; a group that is not among them is not
    /// favorable.
    pub fn observe_snapshots(&mut self, snaps: &[GroupSnapshot], now: VirtualInstant)
        requires
            old(self).wf(),
            forall|i: int| 0 <= i < snaps@.len() ==> (#[trigger] snaps@[i])@.wf(),
        ensures
            final(self).wf(),
            final(self).allowance == old(self).allowance,
            final(self).windows@ == close_unseen(
                windows_run(
                    old(self).windows@,
                    snapshot_views(snaps@),
                    snaps@.len(),
                    now,
                ),
                snapshot_views(snaps@),
            ),
    {
        let ghost views = snapshot_views(snaps@);
        let ghost start = self.windows@;
        let mut i: usize = 0;
        while i < snaps.len()
            invariant
                i <= snaps@.len(),
                views == snapshot_views(snaps@),
                start == old(self).windows@,
                self.wf(),
                self.allowance == old(self).allowance,
                forall|k: int| 0 <= k < snaps@.len() ==> (#[trigger] snaps@[k])@.wf(),
                self.windows@ == windows_run(start, views, i as nat, now),
            decreases snaps@.len() - i,
        {
            let snap = &snaps[i];
            assert(views[i as int] == snap@);
            assert(snaps@[i as int]@.wf());
            let mut window = match self.windows.get(&snap.group) {
                Some(w) => *w,
                None => GroupWindow::default(),
            };
            if !snap.favorable() {
                window.close();
            } else {
                if window.since.is_none() {
                    window.open(now);
                }
                let progress = snap.progress();
                if progress.leader_elected {
                    window.leader_elected = true;
                }
                if progress.converged {
                    window.satisfied = true;
                }
            }
            self.windows.insert(model::clone_group(&snap.group), window);
            i += 1;
        }
        self.close_all_but(snaps);
    }

    /// Close the window of every group that is not among `snaps`.
    fn close_all_but(&mut self, snaps: &[GroupSnapshot])
        requires
            old(self).wf(),
        ensures
            final(self).wf(),
            final(self).allowance == old(self).allowance,
            final(self).windows@ == close_unseen(old(self).windows@, snapshot_views(snaps@)),
    {
        let ghost views = snapshot_views(snaps@);
        let ghost items = self.windows.items();
        let ghost before = self.windows@;
        proof {
            self.windows.lemma_items();
        }
        let mut next: KeyedMap<GroupKey, GroupWindow> = KeyedMap::new();
        let mut i: usize = 0;
        while i < self.windows.len()
            invariant
                i <= items.len(),
                items == self.windows.items(),
                before == self.windows@,
                self.allowance == old(self).allowance,
                views == snapshot_views(snaps@),
                next.wf(),
                forall|k: int|
                    0 <= k < items.len() ==> before.contains_key((#[trigger] items[k]).0@)
                        && before[items[k].0@] == items[k].1,
                forall|k: int| 0 <= k < i ==> next@.contains_key((#[trigger] items[k]).0@),
                forall|g: GroupView| #[trigger]
                    next@.contains_key(g) ==> before.contains_key(g) && next@[g] == close_unseen(
                        before,
                        views,
                    )[g],
            decreases items.len() - i,
        {
            let entry = self.windows.entry(i);
            let mut window = entry.1;
            if !is_snapped(snaps, &entry.0) {
                window.close();
            }
            next.insert(model::clone_group(&entry.0), window);
            i += 1;
        }
        self.windows = next;
        proof {
            assert forall|g: GroupView| before.contains_key(g) implies self.windows@.contains_key(
                g,
            ) by {
                let k = choose|k: int| 0 <= k < items.len() && (#[trigger] items[k]).0@ == g;
                assert(self.windows@.contains_key(items[k].0@));
            }
            assert(self.windows@ =~= close_unseen(before, views));
        }
    }

    /// A fault struck: all time starts anew.
    pub fn note_fault(&mut self, now: VirtualInstant)
        requires
            old(self).wf(),
        ensures
            final(self).wf(),
            final(self).allowance == old(self).allowance,
            all_closed(old(self).windows@, final(self).windows@),
    {
        self.reset_windows();
    }

    /// A fault healed: all time starts anew.
    pub fn note_heal(&mut self, now: VirtualInstant)
        requires
            old(self).wf(),
        ensures
            final(self).wf(),
            final(self).allowance == old(self).allowance,
            all_closed(old(self).windows@, final(self).windows@),
    {
        self.reset_windows();
    }

    fn reset_windows(&mut self)
        requires
            old(self).wf(),
        ensures
            final(self).wf(),
            final(self).allowance == old(self).allowance,
            all_closed(old(self).windows@, final(self).windows@),
    {
        let none: Vec<GroupSnapshot> = Vec::new();
        self.close_all_but(none.as_slice());
    }

    /// Report the first group, in the order of keys, that is overdue.
    pub fn check(&self, now: VirtualInstant) -> (r: Result<(), Violation>)
        requires
            self.wf(),
        ensures
            liveness_verdict(self.windows@, self.allowance, r, now),
    {
        let ghost items = self.windows.items();
        proof {
            self.windows.lemma_items();
        }
        let mut first: Option<usize> = None;
        let mut i: usize = 0;
        while i < self.windows.len()
            invariant
                i <= items.len(),
                items == self.windows.items(),
                match first {
                    Some(f) => f < i && items[f as int].1.overdue(now, self.allowance) && forall|
                        k: int,
                    |
                        0 <= k < i && (#[trigger] items[k]).1.overdue(now, self.allowance)
                            ==> !model::group_before(items[k].0@, items[f as int].0@),
                    None => forall|k: int|
                        0 <= k < i ==> !(#[trigger] items[k]).1.overdue(now, self.allowance),
                },
            decreases items.len() - i,
        {
            let entry = self.windows.entry(i);
            let late = match entry.1.since {
                Some(since) => !entry.1.satisfied && now.duration_since(since).0
                    > self.allowance.0,
                None => false,
            };
            assert(late == items[i as int].1.overdue(now, self.allowance));
            if late {
                match first {
                    Some(f) => {
                        if model::is_group_before(&entry.0, &self.windows.entry(f).0) {
                            proof {
                                let old_first = items[f as int].0@;
                                let new_first = items[i as int].0@;
                                model::law_group_order(new_first, new_first, new_first);
                                assert forall|k: int|
                                    0 <= k < i + 1 && (#[trigger] items[k]).1.overdue(
                                        now,
                                        self.allowance,
                                    ) implies !model::group_before(items[k].0@, new_first) by {
                                    model::law_group_order(items[k].0@, new_first, old_first);
                                }
                            }
                            first = Some(i);
                        }
                    },
                    None => {
                        proof {
                            model::law_group_order(
                                items[i as int].0@,
                                items[i as int].0@,
                                items[i as int].0@,
                            );
                        }
                        first = Some(i);
                    },
                }
            }
            i += 1;
        }
        match first {
            Some(f) => {
                let entry = self.windows.entry(f);
                let since = match entry.1.since {
                    Some(since) => since,
                    None => now,
                };
                let mut detail = "group ".to_owned();
                model::push_group(&mut detail, &entry.0);
                text::push_str(&mut detail, " stayed favorable since t=");
                text::push_decimal(&mut detail, since.as_nanos());
                text::push_str(&mut detail, "ns but made no progress within the ");
                text::push_decimal(&mut detail, self.allowance.as_nanos());
                text::push_str(&mut detail, "ns budget: ");
                if entry.1.leader_elected {
                    text::push_str(
                        &mut detail,
                        "a leader was elected but the group has not converged (leader backlog uncommitted or a voter is lagging)",
                    );
                } else {
                    text::push_str(&mut detail, "no leader was elected");
                }
                proof {
                    let g = items[f as int].0@;
                    assert(self.windows@.contains_key(g));
                    assert forall|h: GroupView| #[trigger]
                        self.windows@.contains_key(h) && model::group_before(h, g) implies !self.windows@[h].overdue(
                    now, self.allowance) by {
                        let k = choose|k: int|
                            0 <= k < items.len() && (#[trigger] items[k]).0@ == h;
                        assert(self.windows@[items[k].0@] == items[k].1);
                    }
                }
                Err(Violation::new(PropertyId::Liveness, now, detail))
            },
            None => {
                proof {
                    assert forall|g: GroupView| #[trigger]
                        self.windows@.contains_key(g) implies !self.windows@[g].overdue(
                        now,
                        self.allowance,
                    ) by {
                        let k = choose|k: int|
                            0 <= k < items.len() && (#[trigger] items[k]).0@ == g;
                        assert(self.windows@[items[k].0@] == items[k].1);
                    }
                }
                Ok(())
            },
        }
    }
}

/// `after` is what is known of the groups once `cluster` was looked at.
pub open spec fn looked_at<M>(
    before: WindowMap,
    after: WindowMap,
    cluster: SimulatedCluster<M>,
    now: VirtualInstant,
) -> bool {
    &&& forall|g: GroupView| #[trigger]
        after.contains_key(g) == (before.contains_key(g) || present(cluster.nodes@, g))
    &&& forall|g: GroupView| #[trigger]
        after.contains_key(g) ==> after[g] == if present(cluster.nodes@, g) {
            window_of(before, g).after(snapshot_of(cluster, g), now)
        } else {
            GroupWindow::closed()
        }
}

/// What checking the groups for progress comes to.
pub open spec fn liveness_verdict(
    windows: WindowMap,
    allowance: VirtualDuration,
    r: Result<(), Violation>,
    now: VirtualInstant,
) -> bool {
    match r {
        Ok(ok) => forall|g: GroupView| #[trigger]
            windows.contains_key(g) ==> !windows[g].overdue(
                now,
                allowance,
            ),
        Err(v) => exists|g: GroupView| #[trigger]
            windows.contains_key(g) && windows[g].overdue(now, allowance)
                && v@ == liveness_violation(g, windows[g], allowance, now)
                && forall|h: GroupView| #[trigger]
                windows.contains_key(h) && model::group_before(h, g)
                    ==> !windows[h].overdue(now, allowance),
    }
}

/// `after` holds the groups of `before`, each with a closed window.
pub open spec fn all_closed(before: WindowMap, after: WindowMap) -> bool {
    &&& forall|g: GroupView| #[trigger] after.contains_key(g) == before.contains_key(g)
    &&& forall|g: GroupView| #[trigger]
        after.contains_key(g) ==> after[g] == GroupWindow::closed()
}

pub open spec fn liveness_violation(
    g: GroupView,
    w: GroupWindow,
    budget: VirtualDuration,
    now: VirtualInstant,
) -> ViolationView {
    ViolationView {
        property: PropertyId::Liveness,
        at: now,
        detail: "group "@ + model::group_text(g) + " stayed favorable since t="@ + text::decimal(
            (w.since->0).0 as nat,
        ) + "ns but made no progress within the "@ + text::decimal(budget.0 as nat)
            + "ns budget: "@ + if w.leader_elected {
            "a leader was elected but the group has not converged (leader backlog uncommitted or a voter is lagging)"@
        } else {
            "no leader was elected"@
        },
    }
}

/// With one snapshot per group, a group's window is changed by its own snapshot alone.
pub proof fn lemma_windows_run(
    windows: WindowMap,
    snaps: Seq<SnapshotView>,
    n: nat,
    now: VirtualInstant,
    g: GroupView,
)
    requires
        n <= snaps.len(),
        forall|i: int, j: int|
            0 <= i < j < snaps.len() ==> (#[trigger] snaps[i]).group != (#[trigger] snaps[j]).group,
    ensures
        ({
            let after = windows_run(windows, snaps, n, now);
            &&& after.contains_key(g) == (windows.contains_key(g) || exists|i: int|
                0 <= i < n && (#[trigger] snaps[i]).group == g)
            &&& forall|i: int|
                0 <= i < n && (#[trigger] snaps[i]).group == g ==> after[g] == window_of(
                    windows,
                    g,
                ).after(snaps[i], now)
            &&& (forall|i: int| 0 <= i < n ==> (#[trigger] snaps[i]).group != g)
                && windows.contains_key(g) ==> after[g] == windows[g]
        }),
    decreases n,
{
    if n > 0 {
        let p = (n - 1) as nat;
        lemma_windows_run(windows, snaps, p, now, g);
        let before = windows_run(windows, snaps, p, now);
        let snap = snaps[n - 1];
        if snap.group == g {
            assert forall|i: int| 0 <= i < p implies (#[trigger] snaps[i]).group != g by {
                assert(snaps[i].group != snaps[n - 1].group);
            }
            assert(window_of(before, g) == window_of(windows, g));
        } else {
            if exists|i: int| 0 <= i < n && (#[trigger] snaps[i]).group == g {
                let i = choose|i: int| 0 <= i < n && (#[trigger] snaps[i]).group == g;
                assert(0 <= i < p);
            }
        }
    }
}

/// Whether group `g` is there: the metadata group always is, and a partition group
/// while a node that is up hosts it.
pub open spec fn present(nodes: Seq<SimNode>, g: GroupView) -> bool {
    g == model::meta_group() || exists|i: int|
        0 <= i < nodes.len() && (#[trigger] nodes[i]).running && nodes[i].fleet@.contains_key(g)
}

/// What is seen of the member `member` of group `g`.
pub open spec fn voter_of<M>(cluster: SimulatedCluster<M>, g: GroupView, member: NodeId) -> VoterView {
    let i = cluster.topology.index_named(member@);
    let node = cluster.nodes@[i];
    if model::names(cluster.topology.nodes@, member@) && node.running && node.hosts(g) {
        let state = node.replica(g)->0;
        VoterView {
            node: member@,
            up: true,
            role: state.role,
            commit_index: state.commit_index,
            last_index: state.last_index,
        }
    } else {
        VoterView {
            node: member@,
            up: false,
            role: Role::Follower,
            commit_index: None,
            last_index: None,
        }
    }
}

/// The members of group `g`.
pub open spec fn members(topology: Topology, g: GroupView) -> Seq<NodeId> {
    match topology.set_of(g) {
        Some(set) => set,
        None => Seq::empty(),
    }
}

/// What is seen of the members of group `g`.
pub open spec fn voters_of<M>(cluster: SimulatedCluster<M>, g: GroupView) -> Seq<VoterView> {
    let set = members(cluster.topology, g);
    Seq::new(set.len(), |i: int| voter_of(cluster, g, set[i]))
}

/// Whether voters `i` and `j` reach each other; each reaches itself.
pub open spec fn mutual<M>(
    voters: Seq<VoterView>,
    network: SimNetwork<M>,
    i: int,
    j: int,
) -> bool {
    i == j || {
        &&& voters[i].up
        &&& voters[j].up
        &&& !network.stopped(voters[i].node, voters[j].node)
        &&& !network.stopped(voters[j].node, voters[i].node)
    }
}

pub open spec fn matrix_of<M>(voters: Seq<VoterView>, network: SimNetwork<M>) -> Seq<Seq<bool>> {
    Seq::new(
        voters.len(),
        |i: int| Seq::new(voters.len(), |j: int| mutual(voters, network, i, j)),
    )
}

/// What is seen of group `g`.
pub open spec fn snapshot_of<M>(cluster: SimulatedCluster<M>, g: GroupView) -> SnapshotView {
    SnapshotView {
        group: g,
        voters: voters_of(cluster, g),
        reachable: matrix_of(voters_of(cluster, g), cluster.network),
    }
}

/// Which voters reach each other.
fn reachability<M>(voters: &Vec<VoterSnapshot>, network: &SimNetwork<M>) -> (r: Vec<Vec<bool>>)
    requires
        network.wf(),
    ensures
        rows(r@) == matrix_of(voter_views(voters@), *network),
{
    let ghost views = voter_views(voters@);
    let n: usize = voters.len();
    let mut matrix: Vec<Vec<bool>> = Vec::new();
    let mut i: usize = 0;
    while i < n
        invariant
            i <= n,
            n == voters@.len(),
            views == voter_views(voters@),
            network.wf(),
            matrix@.len() == i,
            forall|a: int, b: int|
                #![trigger matrix@[a]@[b]]
                0 <= a < i && 0 <= b < n ==> matrix@[a]@[b] == mutual(views, *network, a, b),
            forall|a: int| 0 <= a < i ==> (#[trigger] matrix@[a])@.len() == n,
        decreases n - i,
    {
        let mut row: Vec<bool> = Vec::new();
        let mut j: usize = 0;
        while j < n
            invariant
                j <= n,
                i < n,
                n == voters@.len(),
                views == voter_views(voters@),
                network.wf(),
                row@.len() == j,
                forall|b: int|
                    0 <= b < j ==> #[trigger] row@[b] == mutual(views, *network, i as int, b),
            decreases n - j,
        {
            assert(views[i as int] == voters@[i as int]@);
            assert(views[j as int] == voters@[j as int]@);
            let reach = i == j || (voters[i].up && voters[j].up && !network.is_cut(
                &voters[i].node,
                &voters[j].node,
            ) && !network.is_cut(&voters[j].node, &voters[i].node));
            row.push(reach);
            j += 1;
        }
        matrix.push(row);
        i += 1;
    }
    assert(rows(matrix@) =~~= matrix_of(views, *network));
    matrix
}

/// Look at one group.
fn snapshot_group<M>(cluster: &SimulatedCluster<M>, group: GroupKey) -> (r: GroupSnapshot)
    requires
        cluster.wf(),
    ensures
        r@ == snapshot_of(*cluster, group@),
        r.group == group,
{
    let ghost g = group@;
    let mut voters: Vec<VoterSnapshot> = Vec::new();
    match cluster.topology.replica_set_for_group(&group) {
        Some(set) => {
            let mut i: usize = 0;
            while i < set.len()
                invariant
                    i <= set@.len(),
                    cluster.wf(),
                    g == group@,
                    members(cluster.topology, g) == set@,
                    voters@.len() == i,
                    forall|k: int|
                        0 <= k < i ==> (#[trigger] voters@[k])@ == voter_of(*cluster, g, set@[k]),
                decreases set@.len() - i,
            {
                let id = &set[i];
                let mut voter = VoterSnapshot {
                    node: id.clone(),
                    up: false,
                    role: Role::Follower,
                    commit_index: None,
                    last_index: None,
                };
                match cluster.index_of(id) {
                    Some(index) => {
                        let node = &cluster.nodes[index];
                        assert(cluster.nodes@[index as int].wf(cluster.topology));
                        assert(cluster.topology.index_named(id@) == index);
                        if node.running {
                            match node.replica_of(&group) {
                                Some(state) => {
                                    voter.up = true;
                                    voter.role = state.role;
                                    voter.commit_index = state.commit_index;
                                    voter.last_index = state.last_index;
                                },
                                None => {},
                            }
                        }
                    },
                    None => {},
                }
                assert(voter@ == voter_of(*cluster, g, set@[i as int]));
                voters.push(voter);
                i += 1;
            }
        },
        None => {},
    }
    assert(voter_views(voters@) =~= voters_of(*cluster, g));
    let reachable = reachability(&voters, &cluster.network);
    GroupSnapshot { group, voters, reachable }
}

/// Look at every group that is there.
pub fn collect_snapshots<M>(cluster: &SimulatedCluster<M>) -> (r: Vec<GroupSnapshot>)
    requires
        cluster.wf(),
    ensures
        forall|i: int|
            0 <= i < r@.len() ==> (#[trigger] r@[i])@ == snapshot_of(*cluster, r@[i].group@)
                && r@[i]@.wf() && present(cluster.nodes@, r@[i].group@),
        forall|i: int, j: int|
            0 <= i < j < r@.len() ==> model::group_before(
                (#[trigger] r@[i]).group@,
                (#[trigger] r@[j]).group@,
            ),
        forall|g: GroupView| #[trigger]
            present(cluster.nodes@, g) ==> exists|i: int|
                0 <= i < r@.len() && (#[trigger] r@[i]).group@ == g,
{
    let groups = collect_groups(cluster);
    let mut out: Vec<GroupSnapshot> = Vec::new();
    let mut i: usize = 0;
    while i < groups.len()
        invariant
            i <= groups@.len(),
            cluster.wf(),
            out@.len() == i,
            forall|k: int|
                0 <= k < i ==> (#[trigger] out@[k])@ == snapshot_of(*cluster, out@[k].group@)
                    && out@[k]@.wf() && out@[k].group@ == groups@[k]@,
        decreases groups@.len() - i,
    {
        let group = model::clone_group(&groups[i]);
        let snap = snapshot_group(cluster, group);
        assert(snap@.wf());
        out.push(snap);
        i += 1;
    }
    proof {
        assert forall|i: int| 0 <= i < out@.len() implies present(
            cluster.nodes@,
            (#[trigger] out@[i]).group@,
        ) by {
            assert(groups::lists(groups@, groups@[i]@));
        }
        assert forall|i: int, j: int| 0 <= i < j < out@.len() implies model::group_before(
            (#[trigger] out@[i]).group@,
            (#[trigger] out@[j]).group@,
        ) by {
            assert(model::group_before(groups@[i]@, groups@[j]@));
        }
        assert forall|g: GroupView| #[trigger] present(cluster.nodes@, g) implies exists|i: int|
            0 <= i < out@.len() && (#[trigger] out@[i]).group@ == g by {
            assert(groups::lists(groups@, g));
            let k = choose|k: int| 0 <= k < groups@.len() && #[trigger] groups@[k]@ == g;
            assert(out@[k].group@ == g);
        }
    }
    out
}

/// The groups that are there, in order.
fn collect_groups<M>(cluster: &SimulatedCluster<M>) -> (r: Vec<GroupKey>)
    requires
        cluster.wf(),
    ensures
        groups::ascending(r@),
        forall|g: GroupView| #[trigger] groups::lists(r@, g) == present(cluster.nodes@, g),
{
    let ghost nodes = cluster.nodes@;
    let mut groups: Vec<GroupKey> = Vec::new();
    groups::insert_group(&mut groups, model::metadata_group_key());
    let mut i: usize = 0;
    while i < cluster.nodes.len()
        invariant
            i <= nodes.len(),
            nodes == cluster.nodes@,
            cluster.wf(),
            groups::ascending(groups@),
            groups::lists(groups@, model::meta_group()),
            forall|g: GroupView| #[trigger] groups::lists(groups@, g) ==> present(nodes, g),
            forall|k: int, g: GroupView|
                #![trigger nodes[k].fleet@.contains_key(g)]
                0 <= k < i && nodes[k].running && nodes[k].fleet@.contains_key(g)
                    ==> groups::lists(groups@, g),
        decreases nodes.len() - i,
    {
        let node = &cluster.nodes[i];
        assert(nodes[i as int].wf(cluster.topology));
        if node.running {
            let ghost items = node.fleet.items();
            let ghost before = groups@;
            proof {
                node.fleet.lemma_items();
            }
            let mut k: usize = 0;
            while k < node.fleet.len()
                invariant
                    k <= items.len(),
                    items == node.fleet.items(),
                    i < nodes.len(),
                    nodes == cluster.nodes@,
                    *node == nodes[i as int],
                    node.running,
                    groups::ascending(groups@),
                    forall|x: int|
                        0 <= x < items.len() ==> node.fleet@.contains_key(
                            (#[trigger] items[x]).0@,
                        ),
                    forall|g: GroupView| #[trigger] groups::lists(groups@, g) ==> present(nodes, g),
                    forall|g: GroupView| #[trigger]
                        groups::lists(before, g) ==> groups::lists(groups@, g),
                    forall|x: int|
                        0 <= x < k ==> groups::lists(groups@, (#[trigger] items[x]).0@),
                decreases items.len() - k,
            {
                let key = model::clone_group(&node.fleet.entry(k).0);
                assert(node.fleet@.contains_key(items[k as int].0@));
                assert(present(nodes, key@));
                if !groups::contains_group(&groups, &key) {
                    groups::insert_group(&mut groups, key);
                }
                k += 1;
            }
            assert forall|g: GroupView| #[trigger]
                nodes[i as int].fleet@.contains_key(g) implies groups::lists(groups@, g) by {
                let x = choose|x: int| 0 <= x < items.len() && (#[trigger] items[x]).0@ == g;
                assert(groups::lists(groups@, items[x].0@));
            }
            assert(groups::lists(before, model::meta_group()));
        }
        i += 1;
    }
    assert forall|g: GroupView| #[trigger]
        groups::lists(groups@, g) == present(cluster.nodes@, g) by {}
    groups
}

/// A group that is not favorable is never overdue, however late it is.
pub proof fn law_unfavorable_is_never_overdue(
    w: GroupWindow,
    snap: SnapshotView,
    seen_at: VirtualInstant,
    now: VirtualInstant,
    budget: VirtualDuration,
)
    requires
        !snap.is_favorable(),
    ensures
        !w.after(snap, seen_at).overdue(now, budget),
{
}

/// A fault or a heal starts all time anew: nothing is overdue after it until the
/// budget has passed once more.
pub proof fn law_fault_restarts_the_clock(
    before: WindowMap,
    after: WindowMap,
    g: GroupView,
    snap: SnapshotView,
    seen_at: VirtualInstant,
    now: VirtualInstant,
    budget: VirtualDuration,
)
    requires
        all_closed(before, after),
        now.0 - seen_at.0 <= budget.0,
    ensures
        !window_of(after, g).overdue(now, budget),
        !window_of(after, g).after(snap, seen_at).overdue(now, budget),
{
    if after.contains_key(g) {
        assert(after[g] == GroupWindow::closed());
    }
}

/// A group that converged while its window was open is not overdue as long as the
/// window stays open.
pub proof fn law_convergence_satisfies(
    w: GroupWindow,
    snap: SnapshotView,
    later: SnapshotView,
    seen_at: VirtualInstant,
    seen_later: VirtualInstant,
    now: VirtualInstant,
    budget: VirtualDuration,
)
    requires
        snap.is_favorable(),
        snap.progress_made().converged,
        later.is_favorable(),
    ensures
        !w.after(snap, seen_at).overdue(now, budget),
        !w.after(snap, seen_at).after(later, seen_later).overdue(now, budget),
{
}

/// What is known of the groups decides what the verdict is.
pub proof fn law_liveness_verdict_is_decided(
    windows: WindowMap,
    allowance: VirtualDuration,
    r: Result<(), Violation>,
    s: Result<(), Violation>,
    now: VirtualInstant,
)
    requires
        liveness_verdict(windows, allowance, r, now),
        liveness_verdict(windows, allowance, s, now),
    ensures
        super::results_alike(r, s),
{
    match (r, s) {
        (Err(v), Err(w)) => {
            let g = choose|g: GroupView| #[trigger]
                windows.contains_key(g) && windows[g].overdue(now, allowance) && v@
                    == liveness_violation(g, windows[g], allowance, now) && forall|h: GroupView|
                 #[trigger]
                    windows.contains_key(h) && model::group_before(h, g) ==> !windows[h].overdue(
                        now,
                        allowance,
                    );
            let h = choose|g: GroupView| #[trigger]
                windows.contains_key(g) && windows[g].overdue(now, allowance) && w@
                    == liveness_violation(g, windows[g], allowance, now) && forall|h: GroupView|
                 #[trigger]
                    windows.contains_key(h) && model::group_before(h, g) ==> !windows[h].overdue(
                        now,
                        allowance,
                    );
            assert(windows.contains_key(g) && windows.contains_key(h));
            model::law_group_order(g, h, g);
        },
        _ => {},
    }
}

} // verus!
