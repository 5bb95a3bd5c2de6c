//! What the verdicts on the replicas say, in the words of their roles, terms, commit
//! indices and logs alone.

use super::raft_safety::{
    self, CommitMap, LeaderMap, ObservationView, RaftSafetyChecker,
};
use super::{PropertyId, Violation};
use crate::cluster::{ReplicaState, SimNode};
use crate::groups;
use crate::model::{self, GroupView, LogEntryView};
use crate::scheduler::VirtualInstant;
use vstd::prelude::*;

verus! {

/// One commit index lies below another exactly where it is the smaller number, or where
/// nothing is committed and the other commits something. Nothing lies below no commit.
pub proof fn law_commit_indices_are_ordered(x: u64, y: u64, any: Option<u64>)
    ensures
        raft_safety::commit_below(Some(x), Some(y)) <==> x < y,
        raft_safety::commit_below(None, Some(y)),
        !raft_safety::commit_below(any, None),
{
}

/// Whether a replica that shows `commit` at `term` has lost what it committed before.
pub open spec fn falls(
    term: u64,
    commit: Option<u64>,
    earlier_term: u64,
    earlier: Option<u64>,
) -> bool {
    &&& term >= earlier_term
    &&& earlier is Some
    &&& commit is None || (commit->0) < (earlier->0)
}

/// Whether two observations are of one replica.
pub open spec fn same_replica(a: ObservationView, b: ObservationView) -> bool {
    a.group.0 == b.group.0 && a.group.1.0 == b.group.1.0 && a.node == b.node
}

/// Whether the last observation of a replica before the n-th is the j-th.
pub open spec fn last_before(obs: Seq<ObservationView>, n: int, j: int, o: ObservationView) -> bool {
    &&& 0 <= j < n
    &&& same_replica(obs[j], o)
    &&& forall|l: int| j < l < n ==> !same_replica(#[trigger] obs[l], o)
}

/// Whether no observation before the n-th is of the replica of `o`.
pub open spec fn unseen(obs: Seq<ObservationView>, n: int, o: ObservationView) -> bool {
    forall|l: int| 0 <= l < n ==> !same_replica(#[trigger] obs[l], o)
}

/// Whether the i-th observation shows a commit index below that of the observation of the
/// same replica before it, at no lower term; the first is held against what is remembered.
pub open spec fn commit_falls(commits: CommitMap, obs: Seq<ObservationView>, i: int) -> bool {
    let o = obs[i];
    ||| exists|j: int| #[trigger]
        last_before(obs, i, j, o) && falls(
            o.term,
            o.commit_index,
            obs[j].term,
            obs[j].commit_index,
        )
    ||| unseen(obs, i, o) && commits.contains_key((o.group, o.node)) && falls(
        o.term,
        o.commit_index,
        commits[(o.group, o.node)].term,
        commits[(o.group, o.node)].commit,
    )
}

/// Observations are refused exactly where the commit index of some replica falls at no
/// lower term; otherwise the last of each replica is remembered, and what was remembered
/// of the others stays.
pub proof fn law_falling_commits_are_found(
    commits: CommitMap,
    obs: Seq<ObservationView>,
    n: nat,
)
    requires
        n <= obs.len(),
    ensures
        raft_safety::commit_run(commits, obs, n) is None <==> exists|i: int|
            0 <= i < n && #[trigger] commit_falls(commits, obs, i),
        raft_safety::commit_run(commits, obs, n) matches Some(m) ==> {
            &&& forall|o: ObservationView, j: int| #[trigger]
                last_before(obs, n as int, j, o) ==> m.contains_key((o.group, o.node)) && m[(
                    o.group,
                    o.node,
                )].term == obs[j].term && m[(o.group, o.node)].commit == obs[j].commit_index
            &&& forall|o: ObservationView| #[trigger]
                unseen(obs, n as int, o) ==> m.contains_key((o.group, o.node))
                    == commits.contains_key((o.group, o.node)) && m[(o.group, o.node)] == commits[(
                    o.group,
                    o.node,
                )]
        },
    decreases n,
{
    if n > 0 {
        let p = (n - 1) as nat;
        let o = obs[p as int];
        law_falling_commits_are_found(commits, obs, p);
        match raft_safety::commit_run(commits, obs, p) {
            None => {
                let i = choose|i: int| 0 <= i < p && #[trigger] commit_falls(commits, obs, i);
                assert(commit_falls(commits, obs, i));
            },
            Some(m) => {
                let key = (o.group, o.node);
                lemma_last_or_unseen(obs, p as int, o);
                if unseen(obs, p as int, o) {
                    assert(m.contains_key(key) == commits.contains_key(key));
                    assert(forall|j: int| !(#[trigger] last_before(obs, p as int, j, o)));
                } else {
                    let j = choose|j: int| last_before(obs, p as int, j, o);
                    assert(m.contains_key(key));
                    assert forall|k: int| #[trigger] last_before(obs, p as int, k, o) implies k
                        == j by {}
                }
                assert((raft_safety::commit_step(m, o) is None) == commit_falls(
                    commits,
                    obs,
                    p as int,
                ));
                if raft_safety::commit_step(m, o) is Some {
                    let after = raft_safety::commit_step(m, o)->0;
                    assert forall|q: ObservationView, j: int| #[trigger]
                        last_before(obs, n as int, j, q) implies after.contains_key(
                        (q.group, q.node),
                    ) && after[(q.group, q.node)].term == obs[j].term && after[(
                        q.group,
                        q.node,
                    )].commit == obs[j].commit_index by {
                        if j < p {
                            assert(!same_replica(obs[p as int], q));
                            assert(last_before(obs, p as int, j, q));
                            assert((q.group, q.node) != key);
                        } else {
                            assert((q.group, q.node) == key);
                        }
                    }
                    assert forall|q: ObservationView| #[trigger]
                        unseen(obs, n as int, q) implies after.contains_key((q.group, q.node))
                        == commits.contains_key((q.group, q.node)) && after[(q.group, q.node)]
                        == commits[(q.group, q.node)] by {
                        assert(!same_replica(obs[p as int], q));
                        assert(unseen(obs, p as int, q));
                        assert((q.group, q.node) != key);
                    }
                }
            },
        }
    }
}

proof fn lemma_last_or_unseen(obs: Seq<ObservationView>, n: int, o: ObservationView)
    requires
        0 <= n <= obs.len(),
    ensures
        unseen(obs, n, o) || exists|j: int| last_before(obs, n, j, o),
    decreases n,
{
    if n > 0 {
        if same_replica(obs[n - 1], o) {
            assert(last_before(obs, n, n - 1, o));
        } else {
            let p = n - 1;
            lemma_last_or_unseen(obs, p, o);
            if !unseen(obs, p, o) {
                let j = choose|j: int| last_before(obs, p, j, o);
                assert(last_before(obs, n, j, o));
            }
        }
    }
}

/// Two observations of one replica, one after the other: the second is refused exactly
/// where its term is no lower and its commit index is the smaller.
pub proof fn law_a_commit_index_never_falls(
    commits: CommitMap,
    first: ObservationView,
    second: ObservationView,
    x: u64,
    y: u64,
)
    requires
        first.group == second.group,
        first.node == second.node,
        first.commit_index == Some(y),
        raft_safety::commit_step(commits, first) is Some,
    ensures
        second.commit_index == Some(x) ==> (raft_safety::commit_step(
            raft_safety::commit_step(commits, first)->0,
            second,
        ) is None <==> second.term >= first.term && x < y),
        second.commit_index is None ==> (raft_safety::commit_step(
            raft_safety::commit_step(commits, first)->0,
            second,
        ) is None <==> second.term >= first.term),
{
}

/// Where an observation passes, a group has had no second leader in any term, among what
/// is seen now and what is remembered, and the leaders seen are remembered from now on.
pub proof fn law_one_leader_a_term(
    leaders: LeaderMap,
    commits: CommitMap,
    obs: Seq<ObservationView>,
    after: RaftSafetyChecker,
    now: VirtualInstant,
    i: int,
    j: int,
)
    requires
        raft_safety::observed_to(leaders, commits, obs, after, Ok::<(), Violation>(()), now),
        0 <= i < obs.len(),
        0 <= j < obs.len(),
        obs[i].role is Leader,
        obs[j].role is Leader,
        obs[i].group == obs[j].group,
        obs[i].term == obs[j].term,
    ensures
        obs[i].node == obs[j].node,
        leaders.contains_key((obs[i].group, obs[i].term)) ==> leaders[(obs[i].group, obs[i].term)]
            == obs[i].node,
        after.leaders_seen().contains_key((obs[i].group, obs[i].term)),
        after.leaders_seen()[(obs[i].group, obs[i].term)] == obs[i].node,
{
    raft_safety::law_election_safety(leaders, obs, obs.len());
    assert(!raft_safety::claims_taken_term(leaders, obs, i));
}

/// What is refused for a second leader shows one: an observed leader whose term another
/// node leads already. What is refused for a commit index shows one that falls. Either is
/// dated now.
pub proof fn law_a_refused_observation_has_its_cause(
    leaders: LeaderMap,
    commits: CommitMap,
    obs: Seq<ObservationView>,
    after: RaftSafetyChecker,
    v: Violation,
    now: VirtualInstant,
)
    requires
        raft_safety::observed_to(leaders, commits, obs, after, Err::<(), Violation>(v), now),
    ensures
        v.at.0 == now.0,
        v.property is ElectionSafety || v.property is CommitMonotonicity,
        v.property is ElectionSafety ==> exists|i: int|
            {
                &&& 0 <= i < obs.len()
                &&& (#[trigger] obs[i]).role is Leader
                &&& {
                    ||| leaders.contains_key((obs[i].group, obs[i].term)) && leaders[(
                        obs[i].group,
                        obs[i].term,
                    )] != obs[i].node
                    ||| exists|j: int|
                        0 <= j < i && (#[trigger] obs[j]).role is Leader && obs[j].group
                            == obs[i].group && obs[j].term == obs[i].term && obs[j].node
                            != obs[i].node
                }
            },
        v.property is CommitMonotonicity ==> exists|i: int|
            0 <= i < obs.len() && #[trigger] commit_falls(commits, obs, i),
{
    raft_safety::law_election_safety(leaders, obs, obs.len());
    law_falling_commits_are_found(commits, obs, obs.len());
    if raft_safety::election_run(leaders, obs, obs.len()) is None {
        let i = choose|i: int|
            0 <= i < obs.len() && #[trigger] raft_safety::claims_taken_term(leaders, obs, i);
        assert(obs[i].role is Leader);
    }
}

/// Whether the i-th node runs a replica of `g` in `state`.
pub open spec fn runs(nodes: Seq<SimNode>, i: int, g: GroupView, state: ReplicaState) -> bool {
    &&& 0 <= i < nodes.len()
    &&& nodes[i].running
    &&& {
        ||| g.0 == "__meta"@ && g.1.0 == 0 && nodes[i].controller == Some(state)
        ||| nodes[i].fleet@.contains_key(g) && nodes[i].fleet@[g] == state
    }
}

/// Whether an observation shows a replica as it is.
pub open spec fn shows(
    o: ObservationView,
    node: SimNode,
    g: GroupView,
    state: ReplicaState,
    with_log: bool,
) -> bool {
    &&& o.group == g
    &&& o.node == node.id.0@
    &&& o.role == state.role
    &&& o.term == state.term
    &&& o.commit_index == state.commit_index
    &&& if with_log {
        &&& o.log.len() == state.log@.len()
        &&& forall|k: int|
            0 <= k < o.log.len() ==> {
                &&& (#[trigger] o.log[k]).index == state.log@[k].index
                &&& o.log[k].term == state.log@[k].term
                &&& o.log[k].payload.kind == state.log@[k].payload.kind
                &&& o.log[k].payload.bytes == state.log@[k].payload.bytes@
            }
    } else {
        o.log.len() == 0
    }
}

/// Every replica on a running node is observed as it is. The result is the place of its
/// observation.
pub proof fn law_every_replica_is_observed(
    nodes: Seq<SimNode>,
    with_log: bool,
    i: int,
    g: GroupView,
    state: ReplicaState,
) -> (k: int)
    requires
        runs(nodes, i, g, state),
        forall|m: int| 0 <= m < nodes.len() ==> (#[trigger] nodes[m]).fleet.wf(),
    ensures
        0 <= k < raft_safety::nodes_seen(nodes, with_log).len(),
        shows(raft_safety::nodes_seen(nodes, with_log)[k], nodes[i], g, state, with_log),
    decreases nodes.len(),
{
    let fore = nodes.drop_last();
    let rest = raft_safety::nodes_seen(fore, with_log);
    let all = raft_safety::nodes_seen(nodes, with_log);
    let n = nodes.len() - 1;
    if i < n {
        assert(fore[i] == nodes[i]);
        assert forall|m: int| 0 <= m < fore.len() implies (
        #[trigger] fore[m]).fleet.wf() by {
            assert(fore[m] == nodes[m]);
        }
        let k = law_every_replica_is_observed(fore, with_log, i, g, state);
        assert(all[k] == rest[k]);
        k
    } else {
        let node = nodes[n];
        let meta = raft_safety::meta_seen(node, with_log);
        let fleet = raft_safety::fleet_seen(node.id@, node.fleet@, with_log);
        if g.0 == "__meta"@ && g.1.0 == 0 && node.controller == Some(state) {
            let k = rest.len() as int;
            assert(g == model::meta_group());
            assert(all[k] == meta[0]);
            k
        } else {
            let dom = node.fleet@.dom();
            node.fleet.lemma_items();
            groups::lemma_listing(dom);
            let list = groups::listing(dom);
            assert(dom.contains(g));
            assert(list.contains(g));
            let l = choose|l: int| 0 <= l < list.len() && list[l] == g;
            let k = rest.len() + meta.len() + l;
            assert(all[k] == fleet[l]);
            k
        }
    }
}

/// Nothing else is observed: each observation shows a replica on a running node. The
/// result is the node.
pub proof fn law_only_replicas_are_observed(nodes: Seq<SimNode>, with_log: bool, k: int) -> (i: int)
    requires
        0 <= k < raft_safety::nodes_seen(nodes, with_log).len(),
        forall|m: int| 0 <= m < nodes.len() ==> (#[trigger] nodes[m]).fleet.wf(),
    ensures
        exists|state: ReplicaState|
            {
                &&& #[trigger] runs(
                    nodes,
                    i,
                    raft_safety::nodes_seen(nodes, with_log)[k].group,
                    state,
                )
                &&& shows(
                    raft_safety::nodes_seen(nodes, with_log)[k],
                    nodes[i],
                    raft_safety::nodes_seen(nodes, with_log)[k].group,
                    state,
                    with_log,
                )
            },
    decreases nodes.len(),
{
    let fore = nodes.drop_last();
    let rest = raft_safety::nodes_seen(fore, with_log);
    let all = raft_safety::nodes_seen(nodes, with_log);
    let n = nodes.len() - 1;
    let o = all[k];
    if k < rest.len() {
        assert forall|m: int| 0 <= m < fore.len() implies (
        #[trigger] fore[m]).fleet.wf() by {
            assert(fore[m] == nodes[m]);
        }
        let i = law_only_replicas_are_observed(fore, with_log, k);
        assert(o == rest[k]);
        let state = choose|state: ReplicaState|
            {
                &&& #[trigger] runs(fore, i, o.group, state)
                &&& shows(o, fore[i], o.group, state, with_log)
            };
        assert(fore[i] == nodes[i]);
        assert(runs(nodes, i, o.group, state));
        i
    } else {
        let node = nodes[n];
        let meta = raft_safety::meta_seen(node, with_log);
        let fleet = raft_safety::fleet_seen(node.id@, node.fleet@, with_log);
        let at = k - rest.len();
        if at < meta.len() {
            assert(o == meta[0]);
            assert(runs(nodes, n, o.group, node.controller->0));
        } else {
            let dom = node.fleet@.dom();
            node.fleet.lemma_items();
            groups::lemma_listing(dom);
            let list = groups::listing(dom);
            let l = at - meta.len();
            assert(o == fleet[l]);
            assert(list.contains(list[l]));
            assert(dom.contains(list[l]));
            assert(runs(nodes, n, o.group, node.fleet@[o.group]));
        }
        n
    }
}

/// An entry of a log counts as committed up to the first whose index is past the commit
/// index.
pub proof fn law_the_committed_prefix(log: Seq<LogEntryView>, commit: u64)
    ensures
        raft_safety::committed_len(log, commit) <= log.len(),
        forall|k: int|
            0 <= k < raft_safety::committed_len(log, commit) ==> (#[trigger] log[k]).index
                <= commit,
        raft_safety::committed_len(log, commit) < log.len() ==> log[raft_safety::committed_len(
            log,
            commit,
        ) as int].index > commit,
    decreases log.len(),
{
    if log.len() > 0 && log[0].index <= commit {
        let rest = log.drop_first();
        law_the_committed_prefix(rest, commit);
        let n = raft_safety::committed_len(rest, commit);
        assert forall|k: int| 0 <= k < n + 1 implies (#[trigger] log[k]).index <= commit by {
            if k > 0 {
                assert(rest[k - 1] == log[k]);
            }
        }
    }
}

/// Whether the k-th entry of an observed log is committed: neither it nor any before it
/// is past the commit index.
pub open spec fn committed(o: ObservationView, k: int) -> bool {
    &&& 0 <= k < o.log.len()
    &&& o.commit_index is Some
    &&& forall|j: int| 0 <= j <= k ==> (#[trigger] o.log[j]).index <= o.commit_index->0
}

/// Whether two entries say the same of their index.
pub open spec fn same_entry(a: LogEntryView, b: LogEntryView) -> bool {
    &&& a.index == b.index
    &&& a.term == b.term
    &&& a.payload.kind == b.payload.kind
    &&& a.payload.bytes == b.payload.bytes
}

/// Whether no index occurs twice in a log.
pub open spec fn indexed_once(log: Seq<LogEntryView>) -> bool {
    forall|i: int, j: int|
        0 <= i < j < log.len() ==> (#[trigger] log[i]).index != (#[trigger] log[j]).index
}

proof fn lemma_committed(obs: Seq<ObservationView>, i: int, k: int)
    requires
        0 <= i < obs.len(),
    ensures
        committed(obs[i], k) <==> raft_safety::commits_entry(obs, i, k),
{
    let o = obs[i];
    if o.commit_index is Some {
        let n = raft_safety::committed_len(o.log, o.commit_index->0);
        law_the_committed_prefix(o.log, o.commit_index->0);
        if committed(o, k) && k >= n {
            assert(o.log[n as int].index <= o.commit_index->0);
        }
    }
}

/// What a log is known to hold at an index is its last entry there, and it holds something
/// exactly where an entry has the index.
pub proof fn law_the_last_entry_at_an_index_counts(log: Seq<LogEntryView>, k: int)
    requires
        0 <= k < log.len(),
        forall|j: int| k < j < log.len() ==> (#[trigger] log[j]).index != log[k].index,
    ensures
        raft_safety::print_map(log).contains_key(log[k].index),
        raft_safety::print_map(log)[log[k].index].term == log[k].term,
        raft_safety::print_map(log)[log[k].index].payload.kind == log[k].payload.kind,
        raft_safety::print_map(log)[log[k].index].payload.bytes == log[k].payload.bytes,
    decreases log.len(),
{
    let fore = log.drop_last();
    if k < log.len() - 1 {
        assert(log.last() == log[log.len() - 1]);
        assert forall|j: int| k < j < fore.len() implies (#[trigger] fore[j]).index
            != fore[k].index by {
            assert(fore[j] == log[j]);
        }
        law_the_last_entry_at_an_index_counts(fore, k);
    }
}

/// A log is known to hold nothing at an index that none of its entries has. The result is
/// the place of the last entry at an index where it holds something.
pub proof fn law_no_entry_nothing_held(log: Seq<LogEntryView>, index: u64) -> (k: int)
    ensures
        raft_safety::print_map(log).contains_key(index) ==> 0 <= k < log.len() && log[k].index
            == index && forall|j: int| k < j < log.len() ==> (#[trigger] log[j]).index != index,
        (forall|j: int| 0 <= j < log.len() ==> (#[trigger] log[j]).index != index)
            ==> !raft_safety::print_map(log).contains_key(index),
    decreases log.len(),
{
    if log.len() == 0 {
        -1
    } else {
        let fore = log.drop_last();
        let n = log.len() - 1;
        if log[n].index == index {
            n
        } else {
            let k = law_no_entry_nothing_held(fore, index);
            assert(log.last() == log[n]);
            assert forall|j: int| 0 <= j < n implies #[trigger] log[j] == fore[j] by {}
            if forall|j: int| 0 <= j < log.len() ==> (#[trigger] log[j]).index != index {
                assert forall|j: int| 0 <= j < fore.len() implies (#[trigger] fore[j]).index
                    != index by {
                    assert(log[j] == fore[j]);
                }
            }
            k
        }
    }
}

/// Where the logs pass, replicas of a group that committed an entry at one index committed
/// the same: no two state machines apply different commands.
pub proof fn law_committed_entries_agree(
    obs: Seq<ObservationView>,
    now: VirtualInstant,
    i: int,
    k: int,
    j: int,
    l: int,
)
    requires
        raft_safety::logs_verdict(obs, Ok::<(), Violation>(()), now),
        0 <= i < obs.len(),
        0 <= j < obs.len(),
        obs[i].group == obs[j].group,
        committed(obs[i], k),
        committed(obs[j], l),
        obs[i].log[k].index == obs[j].log[l].index,
    ensures
        same_entry(obs[i].log[k], obs[j].log[l]),
{
    raft_safety::law_state_machine_safety(obs);
    lemma_committed(obs, i, k);
    lemma_committed(obs, j, l);
    assert(!raft_safety::disagree(obs, i, k, j, l));
}

/// Where the logs pass, two logs of a group that have an entry of one term at an index
/// have the same entries at every index up to it that both have.
pub proof fn law_logs_that_meet_agree_before(
    obs: Seq<ObservationView>,
    now: VirtualInstant,
    i: int,
    j: int,
    p: int,
    q: int,
    r: int,
    s: int,
)
    requires
        raft_safety::logs_verdict(obs, Ok::<(), Violation>(()), now),
        0 <= i < obs.len(),
        0 <= j < obs.len(),
        obs[i].group == obs[j].group,
        indexed_once(obs[i].log),
        indexed_once(obs[j].log),
        0 <= p < obs[i].log.len(),
        0 <= r < obs[i].log.len(),
        0 <= q < obs[j].log.len(),
        0 <= s < obs[j].log.len(),
        obs[i].log[p].index == obs[j].log[q].index,
        obs[i].log[p].term == obs[j].log[q].term,
        obs[i].log[r].index == obs[j].log[s].index,
        obs[i].log[r].index <= obs[i].log[p].index,
    ensures
        same_entry(obs[i].log[r], obs[j].log[s]),
{
    let a = raft_safety::print_map(obs[i].log);
    let b = raft_safety::print_map(obs[j].log);
    law_the_last_entry_at_an_index_counts(obs[i].log, p);
    law_the_last_entry_at_an_index_counts(obs[i].log, r);
    law_the_last_entry_at_an_index_counts(obs[j].log, q);
    law_the_last_entry_at_an_index_counts(obs[j].log, s);
    let idx = obs[i].log[p].index;
    let at = obs[i].log[r].index;
    assert(raft_safety::common(a, b, idx) && raft_safety::common(a, b, at));
    assert(raft_safety::common(b, a, idx) && raft_safety::common(b, a, at));
    if i < j {
        assert(raft_safety::matching(a, b));
    } else if j < i {
        assert(raft_safety::matching(b, a));
    }
}

/// Where the logs pass, a leader has every entry that a replica of its group committed in
/// a term before its own. The result is the entry's place in the leader's log.
pub proof fn law_leaders_have_what_was_committed(
    obs: Seq<ObservationView>,
    now: VirtualInstant,
    i: int,
    j: int,
    k: int,
) -> (l: int)
    requires
        raft_safety::logs_verdict(obs, Ok::<(), Violation>(()), now),
        0 <= i < obs.len(),
        0 <= j < obs.len(),
        obs[i].group == obs[j].group,
        obs[i].role is Leader,
        committed(obs[j], k),
        obs[j].term < obs[i].term,
    ensures
        0 <= l < obs[i].log.len(),
        same_entry(obs[i].log[l], obs[j].log[k]),
{
    let g = obs[i].group;
    let idx = obs[j].log[k].index;
    let held = raft_safety::committed_run(obs, obs.len())->0;
    raft_safety::law_committed_view(obs, g, idx);
    lemma_committed(obs, j, k);
    assert(raft_safety::commits_entry(obs, j, k));
    assert(!raft_safety::lacks(obs[i], held, idx));
    let l = law_no_entry_nothing_held(obs[i].log, idx);
    law_the_last_entry_at_an_index_counts(obs[i].log, l);
    l
}

/// Logs that are refused show what is reported, dated now: two replicas of a group that
/// committed different entries at one index; two logs of a group that have one term at an
/// index and differ at it or before; or a leader that lacks an entry committed in a term
/// before its own.
pub proof fn law_refused_logs_have_their_cause(
    obs: Seq<ObservationView>,
    v: Violation,
    now: VirtualInstant,
)
    requires
        raft_safety::logs_verdict(obs, Err::<(), Violation>(v), now),
    ensures
        v.at.0 == now.0,
        match v.property {
            PropertyId::StateMachineSafety => exists|i: int, k: int, j: int, l: int|
                {
                    &&& 0 <= i < obs.len() && 0 <= j < obs.len()
                    &&& obs[i].group == obs[j].group
                    &&& committed(obs[i], k) && committed(obs[j], l)
                    &&& obs[i].log[k].index == obs[j].log[l].index
                    &&& !(#[trigger] same_entry(obs[i].log[k], obs[j].log[l]))
                },
            PropertyId::LogMatching => exists|i: int, j: int, p: int, q: int, r: int, s: int|
                {
                    &&& 0 <= i < j < obs.len()
                    &&& obs[i].group == obs[j].group
                    &&& 0 <= p < obs[i].log.len() && 0 <= r < obs[i].log.len()
                    &&& 0 <= q < obs[j].log.len() && 0 <= s < obs[j].log.len()
                    &&& #[trigger] meet(obs[i].log[p], obs[j].log[q])
                    &&& obs[i].log[r].index == obs[j].log[s].index
                    &&& obs[i].log[r].index <= obs[i].log[p].index
                    &&& !(#[trigger] same_entry(obs[i].log[r], obs[j].log[s]))
                },
            PropertyId::LeaderCompleteness => exists|i: int, j: int, k: int|
                {
                    &&& 0 <= i < obs.len() && 0 <= j < obs.len()
                    &&& obs[i].group == obs[j].group
                    &&& obs[i].role is Leader
                    &&& committed(obs[j], k)
                    &&& obs[j].term < obs[i].term
                    &&& #[trigger] misses(obs[i].log, obs[j].log[k])
                },
            _ => false,
        },
{
    raft_safety::law_state_machine_safety(obs);
    match raft_safety::committed_run(obs, obs.len()) {
        None => {
            let (i, k, j, l) = choose|i: int, k: int, j: int, l: int|
                raft_safety::disagree(obs, i, k, j, l);
            lemma_committed(obs, i, k);
            lemma_committed(obs, j, l);
            assert(!same_entry(obs[i].log[k], obs[j].log[l]));
        },
        Some(held) => {
            if !raft_safety::logs_match(obs) {
                let (i, j) = choose|i: int, j: int| #[trigger]
                    raft_safety::first_mismatch(obs, i, j) && raft_safety::reports_mismatch(
                        obs[i].group,
                        obs[i],
                        obs[j],
                        v@,
                        now,
                    );
                let a = raft_safety::print_map(obs[i].log);
                let b = raft_safety::print_map(obs[j].log);
                let (idx, at) = choose|idx: u64, k: u64|
                    #![trigger raft_safety::common(a, b, idx), raft_safety::common(a, b, k)]
                    raft_safety::common(a, b, idx) && raft_safety::common(a, b, k) && k <= idx
                        && a[idx].term == b[idx].term && a[k] != b[k];
                let p = law_no_entry_nothing_held(obs[i].log, idx);
                let q = law_no_entry_nothing_held(obs[j].log, idx);
                let r = law_no_entry_nothing_held(obs[i].log, at);
                let s = law_no_entry_nothing_held(obs[j].log, at);
                law_the_last_entry_at_an_index_counts(obs[i].log, p);
                law_the_last_entry_at_an_index_counts(obs[j].log, q);
                law_the_last_entry_at_an_index_counts(obs[i].log, r);
                law_the_last_entry_at_an_index_counts(obs[j].log, s);
                assert(meet(obs[i].log[p], obs[j].log[q]));
                if same_entry(obs[i].log[r], obs[j].log[s]) {
                    assert(a[at].payload == b[at].payload);
                }
                assert(!same_entry(obs[i].log[r], obs[j].log[s]));
            } else {
                let (i, idx) = choose|i: int, idx: u64| #[trigger]
                    raft_safety::lacks(obs[i], held, idx) && 0 <= i < obs.len() && v@
                        == raft_safety::completeness_violation(obs[i], held, idx, now);
                let g = obs[i].group;
                raft_safety::law_committed_view(obs, g, idx);
                let m = raft_safety::known(held, g);
                let (j, k) = choose|j: int, k: int| #[trigger]
                    raft_safety::commits_entry(obs, j, k) && obs[j].group == g
                        && obs[j].log[k].index == idx && obs[j].term == m[idx].commit_term;
                lemma_committed(obs, j, k);
                let e = obs[j].log[k];
                assert(m[idx].print == raft_safety::print(e));
                if !misses(obs[i].log, e) {
                    let log = obs[i].log;
                    let l = choose|l: int|
                        0 <= l < log.len() && same_entry(#[trigger] log[l], e) && !(exists|m: int|
                            l < m < log.len() && (#[trigger] log[m]).index == e.index);
                    law_the_last_entry_at_an_index_counts(log, l);
                    assert(raft_safety::print_map(log)[idx] == raft_safety::print(e));
                }
            }
        },
    }
}

/// Whether two entries are of one index and one term.
pub open spec fn meet(a: LogEntryView, b: LogEntryView) -> bool {
    a.index == b.index && a.term == b.term
}

/// Whether the last entry of a log at the index of `e`, if any, is not `e`.
pub open spec fn misses(log: Seq<LogEntryView>, e: LogEntryView) -> bool {
    forall|l: int|
        0 <= l < log.len() && same_entry(#[trigger] log[l], e) ==> exists|m: int|
            l < m < log.len() && (#[trigger] log[m]).index == e.index
}

} // verus!
