//! What each single check of the clients' view and of the logs decides, in the words of
//! the logs, the acknowledgements and the catalogues that it is given.

use super::kafka_parity::{
    self, AckedProduce, AckedView, CatalogueView, CommittedLog, ConsumeObs, ConsumeView,
    ServedCatalogue,
};
use super::liveness::{self, GroupSnapshot};
use super::raft_promises;
use super::raft_safety::{self, CommittedMap, ObservationView, ReplicaObservation};
use super::{Violation, ViolationView};
use crate::cluster::{ClusterMetadata, SimNode, Topic};
use crate::history::RecordedOp;
use crate::model::{self, CommittedRecordView, GroupView, LogEntryView};
use crate::scheduler::VirtualInstant;
use crate::text;
use vstd::prelude::*;

verus! {

/// What is checked is what is given: each acknowledgement, each consume and each committed
/// record counts, in order, as it is.
pub proof fn law_the_given_is_checked(
    acked: Seq<AckedProduce>,
    consumes: Seq<ConsumeObs>,
    log: CommittedLog,
    i: int,
    j: int,
)
    ensures
        kafka_parity::acked_views(acked).len() == acked.len(),
        0 <= i < acked.len() ==> {
            let a = kafka_parity::acked_views(acked)[i];
            &&& a.offset == acked[i].offset
            &&& a.value == acked[i].value@
            &&& a.invoked_at.0 == acked[i].invoked_at.0
            &&& a.responded_at.0 == acked[i].responded_at.0
        },
        kafka_parity::consume_views(consumes).len() == consumes.len(),
        0 <= i < consumes.len() ==> {
            let c = kafka_parity::consume_views(consumes)[i];
            &&& c.start_offset == consumes[i].start_offset
            &&& c.values.len() == consumes[i].values@.len()
            &&& 0 <= j < c.values.len() ==> c.values[j] == consumes[i].values@[j]@
        },
        log@.len() == log.records@.len(),
        0 <= i < log.records@.len() ==> log@[i].offset == log.records@[i].offset && log@[i].value
            == log.records@[i].value@,
{
}

/// Whether the first record of a log at an offset has the value.
pub open spec fn first_there(log: Seq<CommittedRecordView>, offset: int, value: Seq<u8>) -> bool {
    exists|k: int|
        {
            &&& 0 <= k < log.len()
            &&& (#[trigger] log[k]).offset == offset
            &&& log[k].value == value
            &&& forall|j: int| 0 <= j < k ==> (#[trigger] log[j]).offset != offset
        }
}

proof fn lemma_first(log: Seq<CommittedRecordView>, offset: u64, k: int) -> (m: int)
    requires
        0 <= k <= log.len(),
    ensures
        0 <= m <= k,
        forall|j: int| 0 <= j < m ==> (#[trigger] log[j]).offset != offset,
        m < k ==> log[m].offset == offset,
    decreases k,
{
    if k == 0 {
        0
    } else {
        let m = lemma_first(log, offset, k - 1);
        if m < k - 1 {
            m
        } else if log[k - 1].offset == offset {
            k - 1
        } else {
            k
        }
    }
}

proof fn lemma_value(log: Seq<CommittedRecordView>, offset: u64, value: Seq<u8>)
    ensures
        kafka_parity::value_in(log, offset) == Some(value) <==> first_there(
            log,
            offset as int,
            value,
        ),
{
    let m = lemma_first(log, offset, log.len() as int);
    if m < log.len() {
        super::promises::law_the_first_record_at_an_offset_counts(log, offset, m);
        if kafka_parity::value_in(log, offset) == Some(value) {
            assert(log[m].offset == offset);
        }
        if first_there(log, offset as int, value) {
            let k = choose|k: int|
                {
                    &&& 0 <= k < log.len()
                    &&& (#[trigger] log[k]).offset == offset
                    &&& log[k].value == value
                    &&& forall|j: int| 0 <= j < k ==> (#[trigger] log[j]).offset != offset
                };
            super::promises::law_the_first_record_at_an_offset_counts(log, offset, k);
        }
    } else {
        super::promises::law_no_record_no_value(log, offset);
    }
}

/// The records are durable exactly where each acknowledged value is that of the first
/// record at its offset.
pub proof fn law_what_is_durable(log: Seq<CommittedRecordView>, acked: Seq<AckedView>)
    ensures
        kafka_parity::durable(log, acked) <==> forall|i: int|
            0 <= i < acked.len() ==> first_there(
                log,
                (#[trigger] acked[i]).offset as int,
                acked[i].value,
            ),
{
    assert forall|i: int| 0 <= i < acked.len() implies (!kafka_parity::lost(
        log,
        #[trigger] acked[i],
    )) == first_there(log, acked[i].offset as int, acked[i].value) by {
        lemma_value(log, acked[i].offset, acked[i].value);
    }
    if kafka_parity::durable(log, acked) {
        assert forall|i: int| 0 <= i < acked.len() implies first_there(
            log,
            (#[trigger] acked[i]).offset as int,
            acked[i].value,
        ) by {
            assert(!kafka_parity::lost(log, acked[i]));
        }
    }
}

/// What is reported of a lost record: its property, now, and it is the first that is lost.
pub proof fn law_the_first_lost_record_is_reported(
    group: GroupView,
    log: Seq<CommittedRecordView>,
    acked: Seq<AckedView>,
    v: ViolationView,
    now: VirtualInstant,
) -> (i: int)
    requires
        kafka_parity::breaks_durability(group, log, acked, v, now),
    ensures
        v.property is AcknowledgedRecordDurability,
        v.at.0 == now.0,
        0 <= i < acked.len(),
        !first_there(log, acked[i].offset as int, acked[i].value),
        forall|j: int|
            0 <= j < i ==> first_there(
                log,
                (#[trigger] acked[j]).offset as int,
                acked[j].value,
            ),
{
    let i = choose|i: int|
        0 <= i < acked.len() && kafka_parity::lost(log, #[trigger] acked[i])
            && kafka_parity::durable(log, acked.take(i)) && v
            == kafka_parity::durability_violation(group, log, acked[i], now);
    lemma_value(log, acked[i].offset, acked[i].value);
    law_what_is_durable(log, acked.take(i));
    assert forall|j: int| 0 <= j < i implies first_there(
        log,
        (#[trigger] acked[j]).offset as int,
        acked[j].value,
    ) by {
        assert(acked.take(i)[j] == acked[j]);
    }
    i
}

/// Offsets are in order exactly where the committed ones count up from zero and no two
/// acknowledgements tell one offset for different values.
pub proof fn law_what_offsets_are_in_order(log: Seq<CommittedRecordView>, acked: Seq<AckedView>)
    ensures
        kafka_parity::contiguous(log) <==> forall|k: int|
            0 <= k < log.len() ==> (#[trigger] log[k]).offset == k,
        kafka_parity::unambiguous(acked) <==> forall|i: int, j: int|
            0 <= i < j < acked.len() && (#[trigger] acked[i]).offset == (
            #[trigger] acked[j]).offset ==> acked[i].value == acked[j].value,
{
    if kafka_parity::unambiguous(acked) {
        assert forall|i: int, j: int|
            0 <= i < j < acked.len() && (#[trigger] acked[i]).offset == (
            #[trigger] acked[j]).offset implies acked[i].value == acked[j].value by {
            assert(!kafka_parity::reuses_offset(acked, j));
        }
    } else {
        let j = choose|j: int|
            0 <= j < acked.len() && #[trigger] kafka_parity::reuses_offset(acked, j);
        let i = choose|i: int|
            0 <= i < j && (#[trigger] acked[i]).offset == acked[j].offset && acked[i].value
                != acked[j].value;
        assert(acked[i].offset == acked[j].offset && acked[i].value != acked[j].value);
    }
}

/// Consumes are valid exactly where each value returned is that of the first record at its
/// place behind the start.
pub proof fn law_what_consumes_are_valid(
    log: Seq<CommittedRecordView>,
    consumes: Seq<ConsumeView>,
)
    requires
        forall|k: int|
            0 <= k < consumes.len() ==> (#[trigger] consumes[k]).start_offset
                + consumes[k].values.len() <= u64::MAX,
    ensures
        kafka_parity::reads_valid(log, consumes) <==> forall|k: int, i: int|
            0 <= k < consumes.len() && 0 <= i < consumes[k].values.len() ==> first_there(
                log,
                consumes[k].start_offset + i,
                #[trigger] consumes[k].values[i],
            ),
{
    assert forall|k: int, i: int|
        0 <= k < consumes.len() && 0 <= i < consumes[k].values.len() implies (
    !kafka_parity::misread(log, consumes[k], i)) == first_there(
        log,
        consumes[k].start_offset + i,
        #[trigger] consumes[k].values[i],
    ) by {
        lemma_value(log, (consumes[k].start_offset + i) as u64, consumes[k].values[i]);
    }
    if kafka_parity::reads_valid(log, consumes) {
        assert forall|k: int, i: int|
            0 <= k < consumes.len() && 0 <= i < consumes[k].values.len() implies first_there(
            log,
            consumes[k].start_offset + i,
            #[trigger] consumes[k].values[i],
        ) by {
            assert(kafka_parity::reads_true(log, consumes[k]));
            assert(!kafka_parity::misread(log, consumes[k], i));
        }
    } else {
        let k = choose|k: int|
            0 <= k < consumes.len() && !kafka_parity::reads_true(log, #[trigger] consumes[k]);
        let i = choose|i: int|
            0 <= i < consumes[k].values.len() && #[trigger] kafka_parity::misread(
                log,
                consumes[k],
                i,
            );
        let value = consumes[k].values[i];
        assert(!first_there(log, consumes[k].start_offset + i, consumes[k].values[i]));
    }
}

/// A partition is linearizable exactly where every acknowledged offset lies in the log, no
/// produce that was answered before another was invoked has an offset as great, and no
/// consume reaches past the end.
pub proof fn law_what_is_linearizable(
    len: nat,
    acked: Seq<AckedView>,
    consumes: Seq<ConsumeView>,
)
    ensures
        kafka_parity::linearizable(len, acked, consumes) <==> {
            &&& forall|i: int| 0 <= i < acked.len() ==> (#[trigger] acked[i]).offset < len
            &&& forall|i: int, j: int|
                0 <= i < acked.len() && 0 <= j < acked.len() && (
                #[trigger] acked[i]).responded_at.0 < (#[trigger] acked[j]).invoked_at.0
                    ==> acked[i].offset < acked[j].offset
            &&& forall|k: int|
                0 <= k < consumes.len() ==> (#[trigger] consumes[k]).start_offset
                    + consumes[k].values.len() <= len
        },
{
    if kafka_parity::real_time(acked) {
        assert forall|i: int, j: int|
            0 <= i < acked.len() && 0 <= j < acked.len() && (#[trigger] acked[i]).responded_at.0
                < (#[trigger] acked[j]).invoked_at.0 implies acked[i].offset < acked[j].offset by {
            assert(!kafka_parity::inverts(acked[i], acked[j]));
        }
    } else {
        let (i, j) = choose|i: int, j: int|
            0 <= i < acked.len() && 0 <= j < acked.len() && kafka_parity::inverts(
                #[trigger] acked[i],
                #[trigger] acked[j],
            );
        assert(acked[i].responded_at.0 < acked[j].invoked_at.0);
    }
}

/// Each of these checks reports its own property, now.
pub proof fn law_checks_report_their_property(
    group: GroupView,
    log: Seq<CommittedRecordView>,
    acked: Seq<AckedView>,
    consumes: Seq<ConsumeView>,
    views: Seq<ServedCatalogue>,
    v: ViolationView,
    now: VirtualInstant,
)
    ensures
        kafka_parity::breaks_durability(group, log, acked, v, now)
            ==> v.property is AcknowledgedRecordDurability && v.at.0 == now.0,
        kafka_parity::breaks_integrity(group, log, acked, v, now) ==> v.property is OffsetIntegrity
            && v.at.0 == now.0,
        kafka_parity::breaks_reads(group, log, consumes, v, now)
            ==> v.property is ConsumeReadValidity && v.at.0 == now.0,
        kafka_parity::breaks_linearizability(group, log.len(), acked, consumes, v, now)
            ==> v.property is PerPartitionLinearizability && v.at.0 == now.0,
        kafka_parity::breaks_convergence(views, v, now) ==> v.property is MetadataConvergence
            && v.at.0 == now.0,
{
}

/// Whether two topics are the same in name, state, backend and partitions.
pub open spec fn same_topic(a: Topic, b: Topic) -> bool {
    &&& a.name@ == b.name@
    &&& a.state == b.state
    &&& a.backend == b.backend
    &&& a.partitions@.len() == b.partitions@.len()
    &&& forall|p: int|
        0 <= p < a.partitions@.len() ==> {
            let x = #[trigger] a.partitions@[p];
            let y = b.partitions@[p];
            &&& x.index.0 == y.index.0
            &&& x.leader is Some == y.leader is Some
            &&& x.leader is Some ==> (x.leader->0).0@ == (y.leader->0).0@
            &&& x.replicas@.len() == y.replicas@.len()
            &&& forall|r: int|
                0 <= r < x.replicas@.len() ==> (#[trigger] x.replicas@[r]).0@ == y.replicas@[r].0@
        }
}

/// Two catalogues differ on a topic exactly where one has it and the other has not, or
/// both have it in different shapes.
pub proof fn law_where_catalogues_differ(
    a: ClusterMetadata,
    b: ClusterMetadata,
    topic: Seq<char>,
)
    ensures
        kafka_parity::differ_on(a, b, topic) <==> {
            ||| a.topics@.contains_key(topic) != b.topics@.contains_key(topic)
            ||| a.topics@.contains_key(topic) && !same_topic(a.topics@[topic], b.topics@[topic])
        },
{
    if a.topics@.contains_key(topic) && b.topics@.contains_key(topic) {
        let s = a.topics@[topic];
        let t = b.topics@[topic];
        if same_topic(s, t) {
            assert forall|p: int| 0 <= p < s.partitions@.len() implies s@.partitions[p]
                == t@.partitions[p] by {
                let x = s.partitions@[p];
                let y = t.partitions@[p];
                assert(x@.replicas =~= y@.replicas) by {
                    assert forall|r: int| 0 <= r < x.replicas@.len() implies x@.replicas[r]
                        == y@.replicas[r] by {
                        assert(x.replicas@[r].0@ == y.replicas@[r].0@);
                    }
                }
                assert(x@.leader == y@.leader);
                assert(x@ == y@);
            }
            assert(s@.partitions =~= t@.partitions);
            assert(s@ == t@);
        }
        if s@ == t@ {
            assert(s@.partitions.len() == t@.partitions.len());
            assert forall|p: int| 0 <= p < s.partitions@.len() implies {
                let x = #[trigger] s.partitions@[p];
                let y = t.partitions@[p];
                &&& x.index.0 == y.index.0
                &&& x.leader is Some == y.leader is Some
                &&& x.leader is Some ==> (x.leader->0).0@ == (y.leader->0).0@
                &&& x.replicas@.len() == y.replicas@.len()
                &&& forall|r: int|
                    0 <= r < x.replicas@.len() ==> (#[trigger] x.replicas@[r]).0@
                        == y.replicas@[r].0@
            } by {
                let x = s.partitions@[p];
                let y = t.partitions@[p];
                assert(s@.partitions[p] == t@.partitions[p]);
                assert(x@.replicas.len() == y@.replicas.len());
                assert forall|r: int| 0 <= r < x.replicas@.len() implies (
                #[trigger] x.replicas@[r]).0@ == y.replicas@[r].0@ by {
                    assert(x@.replicas[r] == y@.replicas[r]);
                }
            }
        }
    }
}

/// Catalogues have converged exactly where any two of one commit index agree on every
/// topic; each view given is compared as it is.
pub proof fn law_what_catalogues_have_converged(views: Seq<CatalogueView<'_>>)
    ensures
        kafka_parity::converged(kafka_parity::catalogues(views)) <==> forall|
            i: int,
            j: int,
            t: Seq<char>,
        |
            0 <= i < j < views.len() && views[i].commit == views[j].commit
                ==> !(#[trigger] kafka_parity::differ_on(*views[i].meta, *views[j].meta, t)),
{
    let all = kafka_parity::catalogues(views);
    if kafka_parity::converged(all) {
        assert forall|i: int, j: int, t: Seq<char>|
            0 <= i < j < views.len() && views[i].commit == views[j].commit implies !(
        #[trigger] kafka_parity::differ_on(*views[i].meta, *views[j].meta, t)) by {
            assert(!kafka_parity::diverge(all[i], all[j]));
            assert(all[i].meta == *views[i].meta && all[j].meta == *views[j].meta);
            assert(all[i].commit == all[j].commit);
        }
    } else {
        let (i, j) = choose|i: int, j: int|
            0 <= i < j < all.len() && kafka_parity::diverge(#[trigger] all[i], #[trigger] all[j]);
        let t = choose|t: Seq<char>| #[trigger]
            kafka_parity::differ_on(all[i].meta, all[j].meta, t);
        assert(kafka_parity::differ_on(*views[i].meta, *views[j].meta, t));
    }
}

/// What is observed is what is given: each replica's group, node, role, term, commit index
/// and log, in order, as it is.
pub proof fn law_observations_are_taken_as_given(obs: Seq<ReplicaObservation>, i: int, k: int)
    ensures
        raft_safety::obs_views(obs).len() == obs.len(),
        0 <= i < obs.len() ==> {
            let o = raft_safety::obs_views(obs)[i];
            &&& o.group == obs[i].group@
            &&& o.node == obs[i].node.0@
            &&& o.role == obs[i].role
            &&& o.term == obs[i].term
            &&& o.commit_index == obs[i].commit_index
            &&& o.log.len() == obs[i].log@.len()
            &&& 0 <= k < o.log.len() ==> o.log[k].index == obs[i].log@[k].index && o.log[k].term
                == obs[i].log@[k].term && o.log[k].payload.kind == obs[i].log@[k].payload.kind
                && o.log[k].payload.bytes == obs[i].log@[k].payload.bytes@
        },
{
}

/// Logs match exactly where, of any two of a group, one term at one index means the same
/// entries at every index up to it that both have.
pub proof fn law_what_logs_match(obs: Seq<ObservationView>)
    requires
        forall|i: int|
            0 <= i < obs.len() ==> raft_promises::indexed_once((#[trigger] obs[i]).log),
    ensures
        raft_safety::logs_match(obs) <==> forall|i: int, j: int, p: int, q: int, r: int, s: int|
            {
                &&& 0 <= i < j < obs.len()
                &&& obs[i].group == obs[j].group
                &&& 0 <= p < obs[i].log.len() && 0 <= r < obs[i].log.len()
                &&& 0 <= q < obs[j].log.len() && 0 <= s < obs[j].log.len()
                &&& #[trigger] raft_promises::meet(obs[i].log[p], obs[j].log[q])
                &&& obs[i].log[r].index == obs[j].log[s].index
                &&& obs[i].log[r].index <= obs[i].log[p].index
            } ==> #[trigger] raft_promises::same_entry(obs[i].log[r], obs[j].log[s]),
{
    if raft_safety::logs_match(obs) {
        assert forall|i: int, j: int, p: int, q: int, r: int, s: int|
            {
                &&& 0 <= i < j < obs.len()
                &&& obs[i].group == obs[j].group
                &&& 0 <= p < obs[i].log.len() && 0 <= r < obs[i].log.len()
                &&& 0 <= q < obs[j].log.len() && 0 <= s < obs[j].log.len()
                &&& #[trigger] raft_promises::meet(obs[i].log[p], obs[j].log[q])
                &&& obs[i].log[r].index == obs[j].log[s].index
                &&& obs[i].log[r].index <= obs[i].log[p].index
            } implies #[trigger] raft_promises::same_entry(obs[i].log[r], obs[j].log[s]) by {
            let a = raft_safety::print_map(obs[i].log);
            let b = raft_safety::print_map(obs[j].log);
            raft_promises::law_the_last_entry_at_an_index_counts(obs[i].log, p);
            raft_promises::law_the_last_entry_at_an_index_counts(obs[i].log, r);
            raft_promises::law_the_last_entry_at_an_index_counts(obs[j].log, q);
            raft_promises::law_the_last_entry_at_an_index_counts(obs[j].log, s);
            assert(raft_safety::matching(a, b));
            assert(raft_safety::common(a, b, obs[i].log[p].index));
            assert(raft_safety::common(a, b, obs[i].log[r].index));
        }
    } else {
        let (i, j) = choose|i: int, j: int|
            0 <= i < j < obs.len() && (#[trigger] obs[i]).group == (#[trigger] obs[j]).group
                && !raft_safety::matching(
                raft_safety::print_map(obs[i].log),
                raft_safety::print_map(obs[j].log),
            );
        let a = raft_safety::print_map(obs[i].log);
        let b = raft_safety::print_map(obs[j].log);
        let (idx, at) = choose|idx: u64, k: u64|
            #![trigger raft_safety::common(a, b, idx), raft_safety::common(a, b, k)]
            raft_safety::common(a, b, idx) && raft_safety::common(a, b, k) && k <= idx
                && a[idx].term == b[idx].term && a[k] != b[k];
        let p = raft_promises::law_no_entry_nothing_held(obs[i].log, idx);
        let q = raft_promises::law_no_entry_nothing_held(obs[j].log, idx);
        let r = raft_promises::law_no_entry_nothing_held(obs[i].log, at);
        let s = raft_promises::law_no_entry_nothing_held(obs[j].log, at);
        raft_promises::law_the_last_entry_at_an_index_counts(obs[i].log, p);
        raft_promises::law_the_last_entry_at_an_index_counts(obs[j].log, q);
        raft_promises::law_the_last_entry_at_an_index_counts(obs[i].log, r);
        raft_promises::law_the_last_entry_at_an_index_counts(obs[j].log, s);
        assert(raft_promises::meet(obs[i].log[p], obs[j].log[q]));
        if raft_promises::same_entry(obs[i].log[r], obs[j].log[s]) {
            assert(a[at].payload == b[at].payload);
        }
        assert(!raft_promises::same_entry(obs[i].log[r], obs[j].log[s]));
    }
}

/// A leader lacks a committed entry exactly where the entry was committed in a term before
/// its own and is not the last of the leader's log at its index. The result is the place
/// of that last one.
pub proof fn law_what_a_leader_lacks(
    o: ObservationView,
    committed: CommittedMap,
    idx: u64,
) -> (k: int)
    ensures
        (exists|j: int| 0 <= j < o.log.len() && (#[trigger] o.log[j]).index == idx) ==> {
            &&& 0 <= k < o.log.len()
            &&& o.log[k].index == idx
            &&& forall|j: int| k < j < o.log.len() ==> (#[trigger] o.log[j]).index != idx
        },
        raft_safety::lacks(o, committed, idx) <==> {
            let held = committed[o.group][idx];
            &&& o.role is Leader
            &&& committed.contains_key(o.group)
            &&& committed[o.group].contains_key(idx)
            &&& held.commit_term < o.term
            &&& !{
                &&& 0 <= k < o.log.len()
                &&& o.log[k].index == idx
                &&& o.log[k].term == held.print.term
                &&& o.log[k].payload.kind == held.print.payload.kind
                &&& o.log[k].payload.bytes == held.print.payload.bytes
            }
        },
{
    let k = lemma_last(o.log, idx);
    let m = raft_safety::print_map(o.log);
    let p = committed[o.group][idx].print;
    if 0 <= k < o.log.len() && o.log[k].index == idx {
        raft_promises::law_the_last_entry_at_an_index_counts(o.log, k);
        if o.log[k].payload.kind == p.payload.kind && o.log[k].payload.bytes == p.payload.bytes {
            assert(m[idx].payload == p.payload);
        }
    } else {
        let none = raft_promises::law_no_entry_nothing_held(o.log, idx);
    }
    k
}

proof fn lemma_last(log: Seq<LogEntryView>, idx: u64) -> (k: int)
    ensures
        -1 <= k < log.len(),
        k >= 0 ==> log[k].index == idx,
        forall|j: int| k < j < log.len() ==> (#[trigger] log[j]).index != idx,
    decreases log.len(),
{
    if log.len() == 0 {
        -1
    } else {
        let n = log.len() - 1;
        if log[n].index == idx {
            n
        } else {
            let fore = log.drop_last();
            let k = lemma_last(fore, idx);
            assert forall|j: int| k < j < log.len() implies (#[trigger] log[j]).index != idx by {
                if j < n {
                    assert(fore[j] == log[j]);
                }
            }
            k
        }
    }
}

/// Leaders are complete exactly where none lacks anything.
pub proof fn law_what_leaders_are_complete(obs: Seq<ObservationView>, committed: CommittedMap)
    ensures
        raft_safety::leaders_complete(obs, committed) <==> !(exists|i: int, idx: u64|
            0 <= i < obs.len() && #[trigger] raft_safety::lacks(obs[i], committed, idx)),
{
}

/// Each of the checks on the logs reports its own property, now.
pub proof fn law_log_checks_report_their_property(
    obs: Seq<ObservationView>,
    committed: CommittedMap,
    v: ViolationView,
    now: VirtualInstant,
)
    ensures
        raft_safety::stops_committed(obs, v, now) ==> v.property is StateMachineSafety && v.at.0
            == now.0,
        raft_safety::breaks_matching(obs, v, now) ==> v.property is LogMatching && v.at.0 == now.0,
        raft_safety::breaks_completeness(obs, committed, v, now)
            ==> v.property is LeaderCompleteness && v.at.0 == now.0,
{
}

/// A snapshot is looked at as it is given: each voter with its node, whether it is up, its
/// role and its indices, and each entry of who reaches whom.
pub proof fn law_snapshots_are_taken_as_given(snaps: Seq<GroupSnapshot>, n: int, i: int, j: int)
    ensures
        liveness::snapshot_views(snaps).len() == snaps.len(),
        0 <= n < snaps.len() ==> {
            let s = liveness::snapshot_views(snaps)[n];
            &&& s.group == snaps[n].group@
            &&& s.voters.len() == snaps[n].voters@.len()
            &&& s.reachable.len() == snaps[n].reachable@.len()
            &&& 0 <= i < s.voters.len() ==> {
                let v = snaps[n].voters@[i];
                &&& s.voters[i].node == v.node.0@
                &&& s.voters[i].up == v.up
                &&& s.voters[i].role == v.role
                &&& s.voters[i].commit_index == v.commit_index
                &&& s.voters[i].last_index == v.last_index
            }
            &&& 0 <= i < s.reachable.len() ==> s.reachable[i].len() == snaps[n].reachable@[i]@.len()
                && (0 <= j < s.reachable[i].len() ==> s.reachable[i][j]
                == snaps[n].reachable@[i]@[j])
        },
{
}

/// Looking at snapshots, one behind the other: each group given is looked at, and any
/// other that is remembered is favorable no longer.
pub proof fn law_groups_not_given_are_closed(
    windows: liveness::WindowMap,
    snaps: Seq<liveness::SnapshotView>,
    g: GroupView,
)
    ensures
        ({
            let after = liveness::close_unseen(windows, snaps);
            let given = exists|i: int| 0 <= i < snaps.len() && (#[trigger] snaps[i]).group == g;
            &&& after.contains_key(g) == windows.contains_key(g)
            &&& windows.contains_key(g) && given ==> after[g] == windows[g]
            &&& windows.contains_key(g) && !given ==> after[g].since is None
                && !after[g].leader_elected && !after[g].satisfied
        }),
{
}

/// A group that no snapshot is of keeps what is remembered of it, and one that one
/// snapshot is of is remembered by that look.
pub proof fn law_each_snapshot_is_one_look(
    windows: liveness::WindowMap,
    snaps: Seq<liveness::SnapshotView>,
    n: nat,
    now: VirtualInstant,
    g: GroupView,
    k: int,
)
    requires
        n <= snaps.len(),
        0 <= k < n ==> snaps[k].group == g,
        forall|i: int| 0 <= i < n && i != k ==> (#[trigger] snaps[i]).group != g,
    ensures
        ({
            let after = liveness::windows_run(windows, snaps, n, now);
            &&& !(0 <= k < n) ==> after.contains_key(g) == windows.contains_key(g) && after[g]
                == windows[g]
            &&& 0 <= k < n ==> after.contains_key(g) && after[g] == liveness::window_of(
                windows,
                g,
            ).after(snaps[k], now)
        }),
    decreases n,
{
    if n > 0 {
        let p = (n - 1) as nat;
        if k == p {
            law_each_snapshot_is_one_look(windows, snaps, p, now, g, -1);
        } else {
            law_each_snapshot_is_one_look(windows, snaps, p, now, g, k);
        }
    }
}

/// The checks of a partition go one after the other, and the first that fails is reported:
/// the durability of its records, then its offsets, then its consumes, then their order in
/// time.
pub proof fn law_the_first_broken_check_is_reported(
    p: kafka_parity::PartitionView,
    g: GroupView,
    v: ViolationView,
    now: VirtualInstant,
)
    requires
        kafka_parity::unsound(p, g, v, now),
    ensures
        v.at.0 == now.0,
        v.property is AcknowledgedRecordDurability <==> !kafka_parity::durable(p.log, p.acked),
        v.property is OffsetIntegrity <==> kafka_parity::durable(p.log, p.acked) && !(
        kafka_parity::contiguous(p.log) && kafka_parity::unambiguous(p.acked)),
        v.property is ConsumeReadValidity <==> kafka_parity::durable(p.log, p.acked)
            && kafka_parity::contiguous(p.log) && kafka_parity::unambiguous(p.acked)
            && !kafka_parity::reads_valid(p.log, p.consumes),
        v.property is PerPartitionLinearizability <==> kafka_parity::durable(p.log, p.acked)
            && kafka_parity::contiguous(p.log) && kafka_parity::unambiguous(p.acked)
            && kafka_parity::reads_valid(p.log, p.consumes),
{
}

/// A partition is sound exactly where all of these checks pass on its committed log and
/// on what its clients were told.
pub proof fn law_what_partitions_are_sound(
    nodes: Seq<SimNode>,
    ops: Seq<RecordedOp>,
    g: GroupView,
)
    ensures
        ({
            let log = kafka_parity::longest(nodes, g);
            let acked = kafka_parity::acked_in(ops, g.0, g.1);
            let consumes = kafka_parity::consumes_in(ops, g.0, g.1);
            kafka_parity::sound(kafka_parity::partition_of(nodes, ops, g)) <==> {
                &&& kafka_parity::durable(log, acked)
                &&& kafka_parity::contiguous(log)
                &&& kafka_parity::unambiguous(acked)
                &&& kafka_parity::reads_valid(log, consumes)
                &&& kafka_parity::linearizable(log.len(), acked, consumes)
            }
        }),
{
}

/// Of the partitions that fail, the first in the order of groups is reported; catalogues
/// are reported only where no partition fails.
pub proof fn law_the_first_broken_partition_is_reported(
    nodes: Seq<SimNode>,
    ops: Seq<RecordedOp>,
    v: Violation,
    now: VirtualInstant,
) -> (g: GroupView)
    requires
        kafka_parity::parity_verdict(nodes, ops, Err::<(), Violation>(v), now),
    ensures
        v.property is MetadataConvergence ==> forall|q: GroupView| #[trigger]
            kafka_parity::checked(ops, q) ==> kafka_parity::sound(
                kafka_parity::partition_of(nodes, ops, q),
            ),
        !(v.property is MetadataConvergence) ==> {
            &&& kafka_parity::checked(ops, g)
            &&& !kafka_parity::sound(kafka_parity::partition_of(nodes, ops, g))
            &&& kafka_parity::unsound(kafka_parity::partition_of(nodes, ops, g), g, v@, now)
            &&& forall|q: GroupView| #[trigger]
                kafka_parity::checked(ops, q) && crate::model::group_before(q, g)
                    ==> kafka_parity::sound(kafka_parity::partition_of(nodes, ops, q))
        },
{
    let found = exists|g: GroupView| #[trigger]
        kafka_parity::checked(ops, g) && !kafka_parity::sound(
            kafka_parity::partition_of(nodes, ops, g),
        ) && kafka_parity::unsound(kafka_parity::partition_of(nodes, ops, g), g, v@, now)
            && forall|q: GroupView| #[trigger]
            kafka_parity::checked(ops, q) && crate::model::group_before(q, g)
                ==> kafka_parity::sound(kafka_parity::partition_of(nodes, ops, q));
    let g = choose|g: GroupView| #[trigger]
        kafka_parity::checked(ops, g) && !kafka_parity::sound(
            kafka_parity::partition_of(nodes, ops, g),
        ) && kafka_parity::unsound(kafka_parity::partition_of(nodes, ops, g), g, v@, now)
            && forall|q: GroupView| #[trigger]
            kafka_parity::checked(ops, q) && crate::model::group_before(q, g)
                ==> kafka_parity::sound(kafka_parity::partition_of(nodes, ops, q));
    if found {
        law_the_first_broken_check_is_reported(
            kafka_parity::partition_of(nodes, ops, g),
            g,
            v@,
            now,
        );
    }
    g
}

/// What is said of a lost record: its group and its offset, and whether nothing is there
/// or something else.
pub proof fn law_lost_records_are_named(
    group: GroupView,
    log: Seq<CommittedRecordView>,
    a: AckedView,
    now: VirtualInstant,
)
    ensures
        ({
            let detail = kafka_parity::durability_violation(group, log, a, now).detail;
            let head = "group "@ + model::group_text(group) + ": "@
                + "acknowledged record at offset "@ + text::decimal(a.offset as nat);
            let there = exists|k: int| 0 <= k < log.len() && (#[trigger] log[k]).offset == a.offset;
            &&& there ==> detail == head + " was overwritten in the committed log"@
            &&& !there ==> detail == head + " is absent from the committed log (committed len "@
                + text::decimal(log.len()) + ")"@
        }),
{
    let m = lemma_first(log, a.offset, log.len() as int);
    if m < log.len() {
        super::promises::law_the_first_record_at_an_offset_counts(log, a.offset, m);
        assert(log[m].offset == a.offset);
    } else {
        super::promises::law_no_record_no_value(log, a.offset);
    }
}

/// What is said of a misread record: its group, and the offset it was read at.
pub proof fn law_misread_records_are_named(
    group: GroupView,
    log: Seq<CommittedRecordView>,
    c: ConsumeView,
    i: int,
    now: VirtualInstant,
)
    requires
        0 <= i,
        c.start_offset + i <= u64::MAX,
    ensures
        ({
            let detail = kafka_parity::misread_violation(group, log, c, i, now).detail;
            let at = c.start_offset + i;
            let there = exists|k: int| 0 <= k < log.len() && (#[trigger] log[k]).offset == at;
            &&& there ==> detail == "group "@ + model::group_text(group) + ": "@
                + "consume returned a record at offset "@ + text::decimal(at as nat)
                + " that differs from the committed record there"@
            &&& !there ==> detail == "group "@ + model::group_text(group) + ": "@
                + "consume from start offset "@ + text::decimal(c.start_offset as nat)
                + " returned a record at offset "@ + text::decimal(at as nat)
                + " that is not in the committed log (phantom read)"@
        }),
{
    let at = (c.start_offset + i) as u64;
    let m = lemma_first(log, at, log.len() as int);
    if m < log.len() {
        super::promises::law_the_first_record_at_an_offset_counts(log, at, m);
        assert(log[m].offset == at);
    } else {
        super::promises::law_no_record_no_value(log, at);
    }
}

/// What is said of two leaders: the group, the term and both nodes.
pub proof fn law_two_leaders_are_named(
    leaders: raft_safety::LeaderMap,
    commits: raft_safety::CommitMap,
    o: ObservationView,
    now: VirtualInstant,
)
    ensures
        raft_safety::election_violation(leaders, o, now).detail == "group "@ + model::group_text(
            o.group,
        ) + " had two leaders in term "@ + text::decimal(o.term as nat) + ": "@
            + model::node_text(leaders[(o.group, o.term)]) + " and "@ + model::node_text(o.node),
        raft_safety::commit_violation(commits, o, now).detail == "replica "@ + model::node_text(
            o.node,
        ) + " of group "@ + model::group_text(o.group) + " commit index regressed from "@
            + text::option_text(commits[(o.group, o.node)].commit) + " to "@ + text::option_text(
            o.commit_index,
        ),
{
}

/// How nodes, groups and optional numbers are written in reports.
pub proof fn law_how_reports_name_things(node: Seq<char>, group: GroupView, n: u64)
    ensures
        model::node_text(node) == "NodeId("@ + text::quoted(node) + ")"@,
        model::group_text(group) == "("@ + text::quoted(group.0) + ", PartitionIndex("@
            + text::decimal(group.1.0 as nat) + "))"@,
        text::option_text(Some(n)) == "Some("@ + text::decimal(n as nat) + ")"@,
        text::option_text(None) == "None"@,
{
}

/// The inversion that is reported is one, and comes first: by the earlier of the two
/// acknowledgements, then by the later.
pub proof fn law_the_first_inversion_is_reported(
    acked: Seq<AckedView>,
    i: int,
    j: int,
    x: int,
    y: int,
)
    requires
        kafka_parity::first_inversion(acked, i, j),
        0 <= x < acked.len(),
        0 <= y < acked.len(),
        acked[x].responded_at.0 < acked[y].invoked_at.0,
        acked[x].offset >= acked[y].offset,
    ensures
        0 <= i < acked.len(),
        0 <= j < acked.len(),
        acked[i].responded_at.0 < acked[j].invoked_at.0,
        acked[i].offset >= acked[j].offset,
        i < x || (i == x && j <= y),
{
    assert(kafka_parity::inverts(acked[x], acked[y]));
}

/// The divergence that is reported is one, and comes first: by the first of the two
/// catalogues, then by the second, then by the topic.
pub proof fn law_the_first_divergence_is_reported(
    views: Seq<ServedCatalogue>,
    i: int,
    j: int,
    t: Seq<char>,
    x: int,
    y: int,
    u: Seq<char>,
)
    requires
        kafka_parity::first_divergence(views, i, j, t),
        0 <= x < y < views.len(),
        views[x].commit == views[y].commit,
        kafka_parity::differ_on(views[x].meta, views[y].meta, u),
    ensures
        0 <= i < j < views.len(),
        views[i].commit == views[j].commit,
        kafka_parity::differ_on(views[i].meta, views[j].meta, t),
        i < x || (i == x && j <= y),
        i == x && j == y ==> !text::text_before(u, t),
{
    assert(kafka_parity::diverge(views[x], views[y]));
}

} // verus!
