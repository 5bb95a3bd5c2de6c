use vela_sim::checker::raft_safety::{
    build_committed_view, check_leader_completeness, check_log_matching, RaftSafetyChecker,
    ReplicaObservation,
};
use vela_sim::checker::PropertyId;
use vela_sim::cluster::SimulatedCluster;
use vela_sim::model::{
    EntryPayload, GroupKey, LogEntry, NodeId, PartitionIndex, PayloadKind, Role,
};
use vela_sim::scenario::RunConfig;
use vela_sim::scheduler::VirtualInstant;

fn at(nanos: u64) -> VirtualInstant {
    VirtualInstant::from_nanos(nanos)
}

fn group(topic: &str, partition: u32) -> GroupKey {
    (topic.to_string(), PartitionIndex(partition))
}

fn node(id: &str) -> NodeId {
    NodeId::new(id)
}

fn entry(index: u64, term: u64, tag: u8) -> LogEntry {
    LogEntry {
        index,
        term,
        payload: EntryPayload::new(PayloadKind::Record, vec![tag]),
    }
}

fn obs(
    group: GroupKey,
    node: NodeId,
    role: Role,
    term: u64,
    commit_index: Option<u64>,
    log: Vec<LogEntry>,
) -> ReplicaObservation {
    ReplicaObservation {
        group,
        node,
        role,
        term,
        commit_index,
        log,
    }
}

fn linear_log(term: u64, len: u64) -> Vec<LogEntry> {
    (0..len).map(|i| entry(i, term, i as u8)).collect()
}

#[test]
fn one_leader_per_term_passes() {
    let mut checker = RaftSafetyChecker::new();
    let g = group("orders", 0);
    let observations = vec![
        obs(g.clone(), node("node-0"), Role::Leader, 3, Some(0), vec![]),
        obs(
            g.clone(),
            node("node-1"),
            Role::Follower,
            3,
            Some(0),
            vec![],
        ),
        obs(g, node("node-2"), Role::Follower, 3, Some(0), vec![]),
    ];
    assert!(checker.check_election_safety(&observations, at(0)).is_ok());
}

#[test]
fn same_node_re_observed_as_leader_is_not_a_violation() {
    let mut checker = RaftSafetyChecker::new();
    let g = group("orders", 0);
    let leader = obs(g, node("node-0"), Role::Leader, 5, Some(0), vec![]);
    assert!(checker
        .check_election_safety(std::slice::from_ref(&leader), at(1))
        .is_ok());
    assert!(checker.check_election_safety(&[leader], at(2)).is_ok());
}

#[test]
fn two_leaders_same_term_is_flagged_with_property_and_instant() {
    let mut checker = RaftSafetyChecker::new();
    let g = group("orders", 0);
    assert!(checker
        .check_election_safety(
            &[obs(
                g.clone(),
                node("node-0"),
                Role::Leader,
                4,
                Some(0),
                vec![]
            )],
            at(10),
        )
        .is_ok());
    let err = checker
        .check_election_safety(
            &[obs(g, node("node-1"), Role::Leader, 4, Some(0), vec![])],
            at(20),
        )
        .expect_err("a same-term double leader must be flagged");
    assert_eq!(err.property, PropertyId::ElectionSafety);
    assert_eq!(err.at, at(20));
}

#[test]
fn same_node_two_different_terms_leader_is_fine() {
    let mut checker = RaftSafetyChecker::new();
    let g = group("orders", 0);
    assert!(checker
        .check_election_safety(
            &[obs(
                g.clone(),
                node("node-0"),
                Role::Leader,
                1,
                Some(0),
                vec![]
            )],
            at(1),
        )
        .is_ok());
    assert!(checker
        .check_election_safety(
            &[obs(g, node("node-1"), Role::Leader, 2, Some(0), vec![])],
            at(2),
        )
        .is_ok());
}

#[test]
fn commit_index_advancing_passes() {
    let mut checker = RaftSafetyChecker::new();
    let g = group("orders", 0);
    let n = node("node-0");
    for (t, commit) in [(1, None), (2, Some(0)), (3, Some(2)), (4, Some(2))] {
        assert!(checker
            .check_commit_monotonicity(
                &[obs(g.clone(), n.clone(), Role::Follower, 1, commit, vec![])],
                at(t),
            )
            .is_ok());
    }
}

#[test]
fn commit_index_regression_is_flagged() {
    let mut checker = RaftSafetyChecker::new();
    let g = group("orders", 0);
    let n = node("node-0");
    assert!(checker
        .check_commit_monotonicity(
            &[obs(
                g.clone(),
                n.clone(),
                Role::Follower,
                1,
                Some(5),
                vec![]
            )],
            at(10),
        )
        .is_ok());
    let err = checker
        .check_commit_monotonicity(&[obs(g, n, Role::Follower, 1, Some(3), vec![])], at(11))
        .expect_err("a commit-index regression must be flagged");
    assert_eq!(err.property, PropertyId::CommitMonotonicity);
    assert_eq!(err.at, at(11));
}

#[test]
fn commit_index_regressing_to_none_is_flagged() {
    let mut checker = RaftSafetyChecker::new();
    let g = group("orders", 0);
    let n = node("node-0");
    assert!(checker
        .check_commit_monotonicity(
            &[obs(
                g.clone(),
                n.clone(),
                Role::Follower,
                1,
                Some(0),
                vec![]
            )],
            at(1),
        )
        .is_ok());
    let err = checker
        .check_commit_monotonicity(&[obs(g, n, Role::Follower, 1, None, vec![])], at(2))
        .expect_err("Some -> None is a regression");
    assert_eq!(err.property, PropertyId::CommitMonotonicity);
}

#[test]
fn lower_term_observation_is_a_fresh_incarnation_and_resets_commit() {
    let mut checker = RaftSafetyChecker::new();
    let g = group("orders", 0);
    let n = node("node-0");

    assert!(checker
        .check_commit_monotonicity(
            &[obs(
                g.clone(),
                n.clone(),
                Role::Follower,
                1,
                Some(0),
                vec![]
            )],
            at(1),
        )
        .is_ok());
    assert!(checker
        .check_commit_monotonicity(
            &[obs(g.clone(), n.clone(), Role::Follower, 0, None, vec![])],
            at(2),
        )
        .is_ok());
    assert!(checker
        .check_commit_monotonicity(&[obs(g, n, Role::Follower, 0, Some(0), vec![])], at(3),)
        .is_ok());
}

#[test]
fn regression_within_the_new_incarnation_is_still_flagged() {
    let mut checker = RaftSafetyChecker::new();
    let g = group("orders", 0);
    let n = node("node-0");

    assert!(checker
        .check_commit_monotonicity(
            &[obs(
                g.clone(),
                n.clone(),
                Role::Follower,
                2,
                Some(5),
                vec![]
            )],
            at(1),
        )
        .is_ok());
    assert!(checker
        .check_commit_monotonicity(
            &[obs(
                g.clone(),
                n.clone(),
                Role::Follower,
                1,
                Some(3),
                vec![]
            )],
            at(2),
        )
        .is_ok());
    let err = checker
        .check_commit_monotonicity(&[obs(g, n, Role::Follower, 1, Some(1), vec![])], at(3))
        .expect_err("a same-incarnation regression must still be flagged");
    assert_eq!(err.property, PropertyId::CommitMonotonicity);
}

#[test]
fn higher_term_commit_regression_is_flagged_as_same_incarnation() {
    let mut checker = RaftSafetyChecker::new();
    let g = group("orders", 0);
    let n = node("node-0");

    assert!(checker
        .check_commit_monotonicity(
            &[obs(
                g.clone(),
                n.clone(),
                Role::Follower,
                2,
                Some(5),
                vec![]
            )],
            at(1),
        )
        .is_ok());
    let err = checker
        .check_commit_monotonicity(&[obs(g, n, Role::Follower, 3, Some(2), vec![])], at(2))
        .expect_err("a commit regression at a higher term is a same-incarnation breach");
    assert_eq!(err.property, PropertyId::CommitMonotonicity);
}

#[test]
fn forget_group_clears_state_so_a_recreated_incarnation_does_not_flag() {
    let mut checker = RaftSafetyChecker::new();
    let g = group("orders", 0);
    let n = node("node-0");

    assert!(checker
        .check_election_safety(
            &[obs(g.clone(), n.clone(), Role::Leader, 1, Some(0), vec![])],
            at(1),
        )
        .is_ok());
    assert!(checker
        .check_commit_monotonicity(
            &[obs(g.clone(), n.clone(), Role::Leader, 1, Some(0), vec![])],
            at(1),
        )
        .is_ok());

    checker.forget_group(&g);

    assert!(checker
        .check_election_safety(
            &[obs(
                g.clone(),
                node("node-1"),
                Role::Leader,
                1,
                None,
                vec![]
            )],
            at(2),
        )
        .is_ok());
    assert!(checker
        .check_commit_monotonicity(&[obs(g, n, Role::Follower, 1, None, vec![])], at(2),)
        .is_ok());
}

#[test]
fn forget_group_is_scoped_and_leaves_other_groups_intact() {
    let mut checker = RaftSafetyChecker::new();
    let g0 = group("orders", 0);
    let g1 = group("orders", 1);

    assert!(checker
        .check_election_safety(
            &[
                obs(g0.clone(), node("node-0"), Role::Leader, 1, Some(0), vec![]),
                obs(g1.clone(), node("node-0"), Role::Leader, 1, Some(0), vec![]),
            ],
            at(1),
        )
        .is_ok());

    checker.forget_group(&g0);

    let err = checker
        .check_election_safety(
            &[obs(g1, node("node-1"), Role::Leader, 1, Some(0), vec![])],
            at(2),
        )
        .expect_err("an un-forgotten group must still flag a same-term double leader");
    assert_eq!(err.property, PropertyId::ElectionSafety);
}

#[test]
fn forget_group_on_an_unknown_group_is_a_noop() {
    let mut checker = RaftSafetyChecker::new();
    checker.forget_group(&group("never-seen", 0));
    assert!(checker
        .check_election_safety(
            &[obs(
                group("orders", 0),
                node("node-0"),
                Role::Leader,
                1,
                Some(0),
                vec![]
            )],
            at(1),
        )
        .is_ok());
}

#[test]
fn forget_node_commit_lets_a_restarted_node_re_derive_commit_from_none() {
    let mut checker = RaftSafetyChecker::new();
    let g = group("orders", 0);
    let n = node("node-0");

    assert!(checker
        .check_commit_monotonicity(
            &[obs(
                g.clone(),
                n.clone(),
                Role::Follower,
                3,
                Some(2),
                vec![]
            )],
            at(1),
        )
        .is_ok());

    checker.forget_node_commit(&n);

    assert!(checker
        .check_commit_monotonicity(
            &[obs(g.clone(), n.clone(), Role::Follower, 3, None, vec![])],
            at(2),
        )
        .is_ok());
    assert!(checker
        .check_commit_monotonicity(&[obs(g, n, Role::Follower, 3, Some(1), vec![])], at(3),)
        .is_ok());
}

#[test]
fn forget_node_commit_preserves_election_safety_state() {
    let mut checker = RaftSafetyChecker::new();
    let g = group("orders", 0);
    let crasher = node("node-0");

    assert!(checker
        .check_election_safety(
            &[obs(
                g.clone(),
                crasher.clone(),
                Role::Leader,
                4,
                Some(0),
                vec![]
            )],
            at(1),
        )
        .is_ok());
    assert!(checker
        .check_commit_monotonicity(
            &[obs(
                g.clone(),
                crasher.clone(),
                Role::Leader,
                4,
                Some(0),
                vec![]
            )],
            at(1),
        )
        .is_ok());

    checker.forget_node_commit(&crasher);

    let err = checker
        .check_election_safety(
            &[obs(g, node("node-1"), Role::Leader, 4, Some(0), vec![])],
            at(2),
        )
        .expect_err("forget_node_commit must not clear election-safety state");
    assert_eq!(err.property, PropertyId::ElectionSafety);
}

#[test]
fn forget_node_commit_is_scoped_to_the_named_node() {
    let mut checker = RaftSafetyChecker::new();
    let g = group("orders", 0);
    let crasher = node("node-0");
    let survivor = node("node-1");

    for n in [&crasher, &survivor] {
        assert!(checker
            .check_commit_monotonicity(
                &[obs(
                    g.clone(),
                    n.clone(),
                    Role::Follower,
                    1,
                    Some(5),
                    vec![]
                )],
                at(1),
            )
            .is_ok());
    }

    checker.forget_node_commit(&crasher);

    let err = checker
        .check_commit_monotonicity(
            &[obs(g, survivor, Role::Follower, 1, Some(3), vec![])],
            at(2),
        )
        .expect_err("an un-crashed node's commit high-water must be preserved");
    assert_eq!(err.property, PropertyId::CommitMonotonicity);
}

#[test]
fn forget_node_commit_on_an_unknown_node_is_a_noop() {
    let mut checker = RaftSafetyChecker::new();
    checker.forget_node_commit(&node("never-seen"));
    assert!(checker
        .check_commit_monotonicity(
            &[obs(
                group("orders", 0),
                node("node-0"),
                Role::Follower,
                1,
                Some(0),
                vec![]
            )],
            at(1),
        )
        .is_ok());
}

#[test]
fn identical_committed_logs_pass_state_machine_safety() {
    let g = group("orders", 0);
    let observations = vec![
        obs(
            g.clone(),
            node("node-0"),
            Role::Leader,
            2,
            Some(2),
            linear_log(2, 3),
        ),
        obs(
            g,
            node("node-1"),
            Role::Follower,
            2,
            Some(2),
            linear_log(2, 3),
        ),
    ];
    assert!(build_committed_view(&observations, at(0)).is_ok());
}

#[test]
fn differing_committed_entry_is_flagged_as_state_machine_safety() {
    let g = group("orders", 0);
    let log_a = vec![entry(0, 1, 0), entry(1, 1, 7)];
    let log_b = vec![entry(0, 1, 0), entry(1, 1, 9)];
    let observations = vec![
        obs(g.clone(), node("node-0"), Role::Leader, 1, Some(1), log_a),
        obs(g, node("node-1"), Role::Follower, 1, Some(1), log_b),
    ];
    let err = build_committed_view(&observations, at(42))
        .expect_err("a differing committed entry must be flagged");
    assert_eq!(err.property, PropertyId::StateMachineSafety);
    assert_eq!(err.at, at(42));
}

#[test]
fn divergent_uncommitted_tails_do_not_trip_state_machine_safety() {
    let g = group("orders", 0);
    let log_a = vec![entry(0, 1, 0), entry(1, 2, 7)];
    let log_b = vec![entry(0, 1, 0), entry(1, 3, 9)];
    let observations = vec![
        obs(g.clone(), node("node-0"), Role::Follower, 2, Some(0), log_a),
        obs(g, node("node-1"), Role::Follower, 3, Some(0), log_b),
    ];
    assert!(build_committed_view(&observations, at(0)).is_ok());
}

#[test]
fn identical_logs_pass_log_matching() {
    let g = group("orders", 0);
    let observations = vec![
        obs(
            g.clone(),
            node("node-0"),
            Role::Leader,
            2,
            Some(2),
            linear_log(2, 4),
        ),
        obs(
            g,
            node("node-1"),
            Role::Follower,
            2,
            Some(2),
            linear_log(2, 4),
        ),
    ];
    assert!(check_log_matching(&observations, at(0)).is_ok());
}

#[test]
fn legitimate_conflicting_tail_passes_log_matching() {
    let g = group("orders", 0);
    let log_a = vec![entry(0, 1, 0), entry(1, 1, 1), entry(2, 2, 7)];
    let log_b = vec![entry(0, 1, 0), entry(1, 1, 1), entry(2, 3, 9)];
    let observations = vec![
        obs(g.clone(), node("node-0"), Role::Follower, 2, Some(1), log_a),
        obs(g, node("node-1"), Role::Follower, 3, Some(1), log_b),
    ];
    assert!(check_log_matching(&observations, at(0)).is_ok());
}

#[test]
fn same_index_term_but_different_payload_breaks_log_matching() {
    let g = group("orders", 0);
    let log_a = vec![entry(0, 1, 0), entry(1, 1, 7)];
    let log_b = vec![entry(0, 1, 0), entry(1, 1, 9)];
    let observations = vec![
        obs(g.clone(), node("node-0"), Role::Leader, 1, Some(0), log_a),
        obs(g, node("node-1"), Role::Follower, 1, Some(0), log_b),
    ];
    let err = check_log_matching(&observations, at(7))
        .expect_err("equal (index, term) with differing payloads is a Log Matching breach");
    assert_eq!(err.property, PropertyId::LogMatching);
    assert_eq!(err.at, at(7));
}

#[test]
fn matching_term_above_an_earlier_divergence_breaks_log_matching() {
    let g = group("orders", 0);
    let log_a = vec![entry(0, 1, 0), entry(1, 2, 1), entry(2, 5, 2)];
    let log_b = vec![entry(0, 1, 0), entry(1, 3, 1), entry(2, 5, 2)];
    let observations = vec![
        obs(g.clone(), node("node-0"), Role::Follower, 5, Some(0), log_a),
        obs(g, node("node-1"), Role::Follower, 5, Some(0), log_b),
    ];
    let err = check_log_matching(&observations, at(0))
        .expect_err("an agreeing term above a divergence is a Log Matching breach");
    assert_eq!(err.property, PropertyId::LogMatching);
}

#[test]
fn leader_with_all_earlier_committed_entries_passes() {
    let g = group("orders", 0);
    let committed = vec![obs(
        g.clone(),
        node("node-0"),
        Role::Follower,
        1,
        Some(0),
        vec![entry(0, 1, 0)],
    )];
    let view = build_committed_view(&committed, at(0)).unwrap();

    let leader = vec![obs(
        g,
        node("node-1"),
        Role::Leader,
        3,
        Some(1),
        vec![entry(0, 1, 0), entry(1, 3, 1)],
    )];
    assert!(check_leader_completeness(&leader, &view, at(0)).is_ok());
}

#[test]
fn leader_missing_an_earlier_committed_entry_is_flagged() {
    let g = group("orders", 0);
    let committed = vec![obs(
        g.clone(),
        node("node-0"),
        Role::Follower,
        1,
        Some(0),
        vec![entry(0, 1, 0)],
    )];
    let view = build_committed_view(&committed, at(0)).unwrap();

    let leader = vec![obs(g, node("node-2"), Role::Leader, 4, None, vec![])];
    let err = check_leader_completeness(&leader, &view, at(99))
        .expect_err("a later leader missing a committed entry must be flagged");
    assert_eq!(err.property, PropertyId::LeaderCompleteness);
    assert_eq!(err.at, at(99));
}

#[test]
fn leader_in_the_commit_term_is_not_constrained() {
    let g = group("orders", 0);
    let committed = vec![obs(
        g.clone(),
        node("node-0"),
        Role::Leader,
        2,
        Some(0),
        vec![entry(0, 2, 0)],
    )];
    let view = build_committed_view(&committed, at(0)).unwrap();
    let leader = vec![obs(g, node("node-1"), Role::Leader, 2, None, vec![])];
    assert!(check_leader_completeness(&leader, &view, at(0)).is_ok());
}

#[test]
fn fresh_cluster_observes_and_checks_clean() {
    let mut cluster: SimulatedCluster<()> =
        SimulatedCluster::new(RunConfig::default()).expect("default config builds a cluster");
    let mut checker = RaftSafetyChecker::new();
    assert!(checker.observe(&cluster, at(0)).is_ok());
    assert!(checker.check_logs(&cluster, at(0)).is_ok());
    assert!(checker.observe(&cluster, at(1_000)).is_ok());
    let _ = cluster.clock_mut();
}

/// Of several pairs whose logs do not match, the first is named.
#[test]
fn the_first_mismatch_is_named() {
    let g = group("orders", 0);
    let observations = vec![
        obs(group("other", 0), node("node-9"), Role::Follower, 1, None, vec![entry(0, 1, 5)]),
        obs(g.clone(), node("node-0"), Role::Follower, 1, None, vec![entry(0, 1, 7)]),
        obs(g.clone(), node("node-1"), Role::Follower, 1, None, vec![entry(0, 1, 7)]),
        obs(g.clone(), node("node-2"), Role::Follower, 1, None, vec![entry(0, 1, 8)]),
        obs(g, node("node-3"), Role::Follower, 1, None, vec![entry(0, 1, 9)]),
    ];
    let err = check_log_matching(&observations, at(3)).expect_err("three pairs do not match");
    assert_eq!(
        err.detail,
        "group (\"orders\", PartitionIndex(0)): replicas NodeId(\"node-0\") and NodeId(\"node-2\") \
         share term 1 at index 0 but their logs diverge at index 0"
    );
}

/// A checker by default has seen nothing.
#[test]
fn a_default_checker_is_new() {
    let cluster: SimulatedCluster<()> = SimulatedCluster::new(RunConfig::default())
        .expect("valid scenario assembles");
    let mut fresh = RaftSafetyChecker::default();
    assert!(fresh.observe(&cluster, VirtualInstant::origin()).is_ok());
    assert!(fresh.check_logs(&cluster, VirtualInstant::origin()).is_ok());
}
