use vela_sim::checker::liveness::{GroupSnapshot, LivenessChecker, VoterSnapshot};
use vela_sim::checker::PropertyId;
use vela_sim::model::{GroupKey, NodeId, PartitionIndex, Role};
use vela_sim::scheduler::{VirtualDuration, VirtualInstant};

fn budget() -> VirtualDuration {
    VirtualDuration::from_nanos(1_000)
}

fn at(nanos: u64) -> VirtualInstant {
    VirtualInstant::from_nanos(nanos)
}

fn group(topic: &str, partition: u32) -> GroupKey {
    (topic.to_string(), PartitionIndex(partition))
}

fn node(id: &str) -> NodeId {
    NodeId::new(id)
}

fn up(id: &str, role: Role, commit: Option<u64>, last: Option<u64>) -> VoterSnapshot {
    VoterSnapshot {
        node: node(id),
        up: true,
        role,
        commit_index: commit,
        last_index: last,
    }
}

fn down(id: &str) -> VoterSnapshot {
    VoterSnapshot {
        node: node(id),
        up: false,
        role: Role::Follower,
        commit_index: None,
        last_index: None,
    }
}

fn fully_reachable(g: GroupKey, voters: Vec<VoterSnapshot>) -> GroupSnapshot {
    let n = voters.len();
    let mut reachable = vec![vec![false; n]; n];
    for i in 0..n {
        reachable[i][i] = true;
        for j in (i + 1)..n {
            let r = voters[i].up && voters[j].up;
            reachable[i][j] = r;
            reachable[j][i] = r;
        }
    }
    GroupSnapshot {
        group: g,
        voters,
        reachable,
    }
}

fn converged_group(g: GroupKey) -> GroupSnapshot {
    fully_reachable(
        g,
        vec![
            up("node-0", Role::Leader, Some(3), Some(3)),
            up("node-1", Role::Follower, Some(3), Some(3)),
            up("node-2", Role::Follower, Some(3), Some(3)),
        ],
    )
}

#[test]
fn majority_up_and_reachable_is_favorable() {
    let snap = fully_reachable(
        group("orders", 0),
        vec![
            up("node-0", Role::Leader, Some(0), Some(0)),
            up("node-1", Role::Follower, Some(0), Some(0)),
            down("node-2"),
        ],
    );
    assert!(snap.favorable());
}

#[test]
fn minority_up_is_not_favorable() {
    let snap = fully_reachable(
        group("orders", 0),
        vec![
            up("node-0", Role::Follower, None, None),
            down("node-1"),
            down("node-2"),
        ],
    );
    assert!(!snap.favorable());
}

#[test]
fn majority_up_but_partitioned_is_not_favorable() {
    let voters = vec![
        up("node-0", Role::Leader, Some(0), Some(0)),
        up("node-1", Role::Follower, Some(0), Some(0)),
        up("node-2", Role::Follower, None, None),
    ];
    let mut reachable = vec![vec![false; 3]; 3];
    for (i, row) in reachable.iter_mut().enumerate() {
        row[i] = true;
    }
    reachable[0][1] = true;
    reachable[1][0] = true;
    let snap = GroupSnapshot {
        group: group("orders", 0),
        voters,
        reachable,
    };
    assert!(!snap.favorable());
}

#[test]
fn single_leader_converged_group_reports_progress() {
    let snap = converged_group(group("orders", 0));
    let progress = snap.progress();
    assert!(progress.leader_elected);
    assert!(progress.converged);
}

#[test]
fn no_leader_reports_no_progress() {
    let snap = fully_reachable(
        group("orders", 0),
        vec![
            up("node-0", Role::Follower, None, None),
            up("node-1", Role::Follower, None, None),
            up("node-2", Role::Follower, None, None),
        ],
    );
    let progress = snap.progress();
    assert!(!progress.leader_elected);
    assert!(!progress.converged);
}

#[test]
fn leader_with_uncommitted_backlog_has_not_converged() {
    let snap = fully_reachable(
        group("orders", 0),
        vec![
            up("node-0", Role::Leader, Some(2), Some(5)),
            up("node-1", Role::Follower, Some(2), Some(2)),
            up("node-2", Role::Follower, Some(2), Some(2)),
        ],
    );
    let progress = snap.progress();
    assert!(progress.leader_elected);
    assert!(
        !progress.converged,
        "uncommitted leader backlog is not converged"
    );
}

#[test]
fn lagging_follower_has_not_converged() {
    let snap = fully_reachable(
        group("orders", 0),
        vec![
            up("node-0", Role::Leader, Some(3), Some(3)),
            up("node-1", Role::Follower, Some(1), Some(3)),
            up("node-2", Role::Follower, Some(3), Some(3)),
        ],
    );
    let progress = snap.progress();
    assert!(progress.leader_elected);
    assert!(!progress.converged);
}

#[test]
fn favorable_group_that_converges_within_budget_passes() {
    let mut checker = LivenessChecker::new(budget());
    let g = group("orders", 0);
    checker.observe_snapshots(&[converged_group(g.clone())], at(10));
    assert!(checker.check(at(10 + budget().as_nanos() + 5_000)).is_ok());
}

#[test]
fn group_lacking_majority_is_never_flagged() {
    let mut checker = LivenessChecker::new(budget());
    let snap = fully_reachable(
        group("orders", 0),
        vec![
            up("node-0", Role::Follower, None, None),
            down("node-1"),
            down("node-2"),
        ],
    );
    checker.observe_snapshots(std::slice::from_ref(&snap), at(10));
    checker.observe_snapshots(&[snap], at(10 + budget().as_nanos() + 1));
    assert!(checker.check(at(10 + 100 * budget().as_nanos())).is_ok());
}

#[test]
fn favorable_group_stalled_past_budget_is_flagged() {
    let mut checker = LivenessChecker::new(budget());
    let g = group("orders", 0);
    let stalled = fully_reachable(
        g.clone(),
        vec![
            up("node-0", Role::Follower, None, None),
            up("node-1", Role::Follower, None, None),
            up("node-2", Role::Follower, None, None),
        ],
    );
    checker.observe_snapshots(std::slice::from_ref(&stalled), at(10));

    assert!(checker.check(at(10 + budget().as_nanos())).is_ok());

    let detect = at(10 + budget().as_nanos() + 1);
    let err = checker
        .check(detect)
        .expect_err("a favorable stall past budget must be flagged");
    assert_eq!(err.property, PropertyId::Liveness);
    assert_eq!(err.at, detect);
    assert!(err.detail.contains("no leader was elected"));
}

#[test]
fn a_new_fault_restarts_the_budget_clock() {
    let mut checker = LivenessChecker::new(budget());
    let g = group("orders", 0);
    let stalled = fully_reachable(
        g,
        vec![
            up("node-0", Role::Follower, None, None),
            up("node-1", Role::Follower, None, None),
            up("node-2", Role::Follower, None, None),
        ],
    );
    checker.observe_snapshots(std::slice::from_ref(&stalled), at(10));
    checker.note_fault(at(500));
    checker.observe_snapshots(std::slice::from_ref(&stalled), at(500));
    assert!(checker.check(at(10 + budget().as_nanos() + 1)).is_ok());
    let detect = at(500 + budget().as_nanos() + 1);
    let err = checker
        .check(detect)
        .expect_err("the re-opened window must trip once its own budget elapses");
    assert_eq!(err.property, PropertyId::Liveness);
}

#[test]
fn losing_majority_closes_the_window_and_clears_a_stall() {
    let mut checker = LivenessChecker::new(budget());
    let g = group("orders", 0);
    let favorable = fully_reachable(
        g.clone(),
        vec![
            up("node-0", Role::Follower, None, None),
            up("node-1", Role::Follower, None, None),
            up("node-2", Role::Follower, None, None),
        ],
    );
    checker.observe_snapshots(&[favorable], at(10));
    let minority = fully_reachable(
        g,
        vec![
            up("node-0", Role::Follower, None, None),
            down("node-1"),
            down("node-2"),
        ],
    );
    checker.observe_snapshots(&[minority], at(900));
    assert!(checker.check(at(10 + 100 * budget().as_nanos())).is_ok());
}

#[test]
fn a_vanished_group_is_not_flagged() {
    let mut checker = LivenessChecker::new(budget());
    let g = group("orders", 0);
    let stalled = fully_reachable(
        g,
        vec![
            up("node-0", Role::Follower, None, None),
            up("node-1", Role::Follower, None, None),
            up("node-2", Role::Follower, None, None),
        ],
    );
    checker.observe_snapshots(&[stalled], at(10));
    checker.observe_snapshots(&[], at(900));
    assert!(checker.check(at(10 + 100 * budget().as_nanos())).is_ok());
}

/// Two groups overdue: the first in the order of keys is reported.
#[test]
fn the_first_overdue_group_is_reported() {
    let mut checker = LivenessChecker::new(budget());
    let stalled = |g: GroupKey| {
        fully_reachable(
            g,
            vec![
                up("node-0", Role::Follower, None, None),
                up("node-1", Role::Follower, None, None),
            ],
        )
    };
    checker.observe_snapshots(&[stalled(group("b", 0)), stalled(group("a\"\n", 3))], at(0));
    let err = checker.check(at(5_000)).expect_err("both groups are overdue");
    assert!(err.detail.contains("(\"a\\\"\\n\", PartitionIndex(3))"), "{}", err.detail);
}

/// Over a watch, a group is overdue from when it was last seen to become favorable, and
/// only where it has not converged since.
#[test]
fn a_watch_judges_the_last_favorable_run() {
    let voters = |lead: bool, commit: Option<u64>, other: bool| {
        fully_reachable(
            group("orders", 0),
            vec![
                up("node-0", if lead { Role::Leader } else { Role::Follower }, commit, Some(4)),
                up("node-1", Role::Follower, commit, Some(4)),
                if other { up("node-2", Role::Follower, commit, Some(4)) } else { down("node-2") },
            ],
        )
    };
    let gone = || {
        fully_reachable(
            group("orders", 0),
            vec![
                up("node-0", Role::Follower, None, None),
                down("node-1"),
                down("node-2"),
            ],
        )
    };
    let mut checker = LivenessChecker::new(budget());
    checker.observe_snapshots(&[voters(true, Some(4), true)], at(0));
    checker.observe_snapshots(&[gone()], at(100));
    checker.observe_snapshots(&[voters(false, Some(2), true)], at(200));
    checker.observe_snapshots(&[voters(true, Some(3), false)], at(300));
    assert!(checker.check(at(1_200)).is_ok());
    let err = checker.check(at(1_201)).expect_err("favorable since 200 and not converged");
    assert!(err.detail.contains("since t=200ns"), "{}", err.detail);
    assert!(err.detail.contains("a leader was elected"), "{}", err.detail);
    checker.observe_snapshots(&[voters(true, Some(4), false)], at(1_300));
    assert!(checker.check(at(9_000)).is_ok());
    checker.note_fault(at(9_000));
    checker.observe_snapshots(&[voters(false, Some(4), true)], at(9_100));
    assert!(checker.check(at(10_100)).is_ok());
    assert!(checker.check(at(10_101)).is_err());
}

/// A copy of the checker remembers what the checker does.
#[test]
fn a_copy_remembers_the_windows() {
    let stuck = fully_reachable(
        group("orders", 0),
        vec![
            up("node-0", Role::Follower, None, None),
            up("node-1", Role::Follower, None, None),
            up("node-2", Role::Follower, None, None),
        ],
    );
    let mut checker = LivenessChecker::new(budget());
    checker.observe_snapshots(&[stuck], at(0));
    let copy = checker.clone();
    assert!(copy.check(at(1_000)).is_ok());
    let seen = checker.check(at(1_001)).expect_err("no leader in time");
    assert_eq!(copy.check(at(1_001)).expect_err("no leader in time"), seen.clone());
}
