//! What a verdict on the clients' view says, in the words of the history and of the
//! replicas' committed records alone.

use super::kafka_parity;
use super::{PropertyId, Violation};
use crate::cluster::SimNode;
use crate::history::{OpArgs, OpResponse, RecordedOp};
use crate::model::{CommittedRecordView, GroupView, PartitionIndex};
use crate::scheduler::VirtualInstant;
use vstd::prelude::*;

verus! {

/// Whether an operation was sent to a partition.
pub open spec fn addresses(op: RecordedOp, topic: Seq<char>, partition: PartitionIndex) -> bool {
    match op.args {
        OpArgs::Produce { topic: t, partition: p, .. } => t@ == topic && p.0 == partition.0,
        OpArgs::Consume { topic: t, partition: p, .. } => t@ == topic && p.0 == partition.0,
        _ => false,
    }
}

/// Whether no operation was told that `topic` is deleted.
pub open spec fn never_deleted(ops: Seq<RecordedOp>, topic: Seq<char>) -> bool {
    forall|d: int|
        0 <= d < ops.len() ==> !((#[trigger] ops[d]).response matches OpResponse::DeleteTopicOk {
            topic: t,
        } && t@ == topic)
}

/// Whether the replica of `g` on `node` can be read.
pub open spec fn readable(node: SimNode, g: GroupView) -> bool {
    node.running && node.fleet@.contains_key(g)
}

/// Every operation on a partition that was told that its produce succeeded is among the
/// acknowledgements of the partition, with its offset, its value and its instants; there
/// is one for each, in the order of the history, and no other. The result tells for each
/// acknowledgement the place of its operation.
pub proof fn law_every_acknowledgement_is_collected(
    ops: Seq<RecordedOp>,
    topic: Seq<char>,
    partition: PartitionIndex,
) -> (places: Seq<int>)
    ensures
        places.len() == kafka_parity::acked_in(ops, topic, partition).len(),
        forall|k: int| 0 <= k < places.len() ==> 0 <= #[trigger] places[k] < ops.len(),
        forall|j: int, k: int|
            0 <= j < k < places.len() ==> #[trigger] places[j] < #[trigger] places[k],
        forall|k: int|
            0 <= k < places.len() ==> {
                let op = ops[#[trigger] places[k]];
                let a = kafka_parity::acked_in(ops, topic, partition)[k];
                &&& addresses(op, topic, partition)
                &&& op.response matches OpResponse::ProduceOk { value, offset, .. } && a.offset
                    == offset && a.value == value@
                &&& a.invoked_at == op.invoked_at
                &&& a.responded_at == op.responded_at
            },
        forall|i: int|
            0 <= i < ops.len() && addresses(#[trigger] ops[i], topic, partition)
                && ops[i].response is ProduceOk ==> places.contains(i),
    decreases ops.len(),
{
    if ops.len() == 0 {
        Seq::empty()
    } else {
        let n = ops.len() - 1;
        let fore = ops.drop_last();
        let rest = law_every_acknowledgement_is_collected(fore, topic, partition);
        let op = ops.last();
        if addresses(op, topic, partition) && op.response is ProduceOk {
            let places = rest.push(n);
            assert(places[rest.len() as int] == n);
            assert forall|i: int|
                0 <= i < ops.len() && addresses(#[trigger] ops[i], topic, partition)
                    && ops[i].response is ProduceOk implies places.contains(i) by {
                if i < n {
                    assert(fore[i] == ops[i]);
                    let k = choose|k: int| 0 <= k < rest.len() && rest[k] == i;
                    assert(places[k] == i);
                }
            }
            assert forall|k: int| 0 <= k < rest.len() implies ops[#[trigger] places[k]]
                == fore[rest[k]] by {}
            places
        } else {
            assert forall|i: int|
                0 <= i < ops.len() && addresses(#[trigger] ops[i], topic, partition)
                    && ops[i].response is ProduceOk implies rest.contains(i) by {
                assert(fore[i] == ops[i]);
            }
            assert forall|k: int| 0 <= k < rest.len() implies ops[#[trigger] rest[k]]
                == fore[rest[k]] by {}
            rest
        }
    }
}

/// Every operation on a partition that was told records is among the consumes of the
/// partition, with its start and the values it was told, in the order of the history; no
/// other is. The result tells for each consume the place of its operation.
pub proof fn law_every_consume_is_collected(
    ops: Seq<RecordedOp>,
    topic: Seq<char>,
    partition: PartitionIndex,
) -> (places: Seq<int>)
    ensures
        places.len() == kafka_parity::consumes_in(ops, topic, partition).len(),
        forall|k: int| 0 <= k < places.len() ==> 0 <= #[trigger] places[k] < ops.len(),
        forall|j: int, k: int|
            0 <= j < k < places.len() ==> #[trigger] places[j] < #[trigger] places[k],
        forall|k: int|
            0 <= k < places.len() ==> {
                let op = ops[#[trigger] places[k]];
                let c = kafka_parity::consumes_in(ops, topic, partition)[k];
                &&& addresses(op, topic, partition)
                &&& op.response matches OpResponse::ConsumeOk { start_offset, records, .. }
                    && c.start_offset == start_offset && c.values.len() == records@.len()
                    && forall|j: int|
                    0 <= j < records@.len() ==> #[trigger] c.values[j] == records@[j].value@
            },
        forall|i: int|
            0 <= i < ops.len() && addresses(#[trigger] ops[i], topic, partition)
                && ops[i].response is ConsumeOk ==> places.contains(i),
    decreases ops.len(),
{
    if ops.len() == 0 {
        Seq::empty()
    } else {
        let n = ops.len() - 1;
        let fore = ops.drop_last();
        let rest = law_every_consume_is_collected(fore, topic, partition);
        let op = ops.last();
        if addresses(op, topic, partition) && op.response is ConsumeOk {
            let places = rest.push(n);
            assert(places[rest.len() as int] == n);
            assert forall|i: int|
                0 <= i < ops.len() && addresses(#[trigger] ops[i], topic, partition)
                    && ops[i].response is ConsumeOk implies places.contains(i) by {
                if i < n {
                    assert(fore[i] == ops[i]);
                    let k = choose|k: int| 0 <= k < rest.len() && rest[k] == i;
                    assert(places[k] == i);
                }
            }
            assert forall|k: int| 0 <= k < rest.len() implies ops[#[trigger] places[k]]
                == fore[rest[k]] by {}
            places
        } else {
            assert forall|i: int|
                0 <= i < ops.len() && addresses(#[trigger] ops[i], topic, partition)
                    && ops[i].response is ConsumeOk implies rest.contains(i) by {
                assert(fore[i] == ops[i]);
            }
            assert forall|k: int| 0 <= k < rest.len() implies ops[#[trigger] rest[k]]
                == fore[rest[k]] by {}
            rest
        }
    }
}

/// The committed log that is checked is that of a replica that can be read, and no replica
/// that can be read has committed more; of those with as much it is the first. It is empty
/// where none has committed anything. The result is the node of that replica.
pub proof fn law_the_longest_log_counts(nodes: Seq<SimNode>, g: GroupView) -> (n: int)
    ensures
        ({
            let log = kafka_parity::longest(nodes, g);
            &&& forall|m: int|
                0 <= m < nodes.len() && readable(#[trigger] nodes[m], g)
                    ==> nodes[m].fleet@[g].records@.len() <= log.len()
            &&& log.len() > 0 ==> {
                let records = nodes[n].fleet@[g].records@;
                &&& 0 <= n < nodes.len()
                &&& readable(nodes[n], g)
                &&& records.len() == log.len()
                &&& forall|k: int|
                    0 <= k < log.len() ==> (#[trigger] log[k]).offset == records[k].offset
                        && log[k].value == records[k].value@
                &&& forall|m: int|
                    0 <= m < n && readable(#[trigger] nodes[m], g)
                        ==> nodes[m].fleet@[g].records@.len() < log.len()
            }
        }),
    decreases nodes.len(),
{
    if nodes.len() == 0 {
        -1
    } else {
        let fore = nodes.drop_last();
        let last = nodes.len() - 1;
        let n = law_the_longest_log_counts(fore, g);
        let best = kafka_parity::longest(fore, g);
        let node = nodes.last();
        assert forall|m: int| 0 <= m < last implies #[trigger] nodes[m] == fore[m] by {}
        if readable(node, g) && node.fleet@[g].records@.len() > best.len() {
            last
        } else {
            n
        }
    }
}

/// The value found at an offset is that of the first record there.
pub proof fn law_the_first_record_at_an_offset_counts(
    log: Seq<CommittedRecordView>,
    offset: u64,
    k: int,
)
    requires
        0 <= k < log.len(),
        log[k].offset == offset,
        forall|j: int| 0 <= j < k ==> (#[trigger] log[j]).offset != offset,
    ensures
        kafka_parity::value_in(log, offset) == Some(log[k].value),
    decreases k,
{
    if k > 0 {
        assert(log[0].offset != offset);
        let rest = log.drop_first();
        assert forall|j: int| 0 <= j < k - 1 implies (#[trigger] rest[j]).offset != offset by {
            assert(rest[j] == log[j + 1]);
        }
        law_the_first_record_at_an_offset_counts(rest, offset, k - 1);
    }
}

/// Nothing is found at an offset that no record has.
pub proof fn law_no_record_no_value(log: Seq<CommittedRecordView>, offset: u64)
    requires
        forall|j: int| 0 <= j < log.len() ==> (#[trigger] log[j]).offset != offset,
    ensures
        kafka_parity::value_in(log, offset) is None,
    decreases log.len(),
{
    if log.len() > 0 {
        assert(log[0].offset != offset);
        let rest = log.drop_first();
        assert forall|j: int| 0 <= j < rest.len() implies (#[trigger] rest[j]).offset
            != offset by {
            assert(rest[j] == log[j + 1]);
        }
        law_no_record_no_value(rest, offset);
    }
}

/// A partition that a client was told of is checked, unless its topic was deleted.
pub proof fn law_what_clients_were_told_is_checked(
    ops: Seq<RecordedOp>,
    topic: Seq<char>,
    partition: PartitionIndex,
)
    ensures
        kafka_parity::checked(ops, (topic, partition)) <==> never_deleted(ops, topic) && exists|
            i: int,
        |
            0 <= i < ops.len() && addresses(#[trigger] ops[i], topic, partition),
{
    let g = (topic, partition);
    if kafka_parity::mentions(ops, g) {
        let i = choose|i: int| 0 <= i < ops.len() && (#[trigger] ops[i]).on_partition(g.0, g.1);
        assert(addresses(ops[i], topic, partition));
    }
    if exists|i: int| 0 <= i < ops.len() && addresses(#[trigger] ops[i], topic, partition) {
        let i = choose|i: int| 0 <= i < ops.len() && addresses(#[trigger] ops[i], topic, partition);
        assert(ops[i].on_partition(g.0, g.1));
    }
    if kafka_parity::deletes(ops, topic) {
        let d = choose|d: int|
            0 <= d < ops.len() && kafka_parity::is_delete_of(#[trigger] ops[d], topic);
        assert(!never_deleted(ops, topic));
    } else {
        assert forall|d: int| 0 <= d < ops.len() implies !((
        #[trigger] ops[d]).response matches OpResponse::DeleteTopicOk { topic: t } && t@
            == topic) by {
            assert(!kafka_parity::is_delete_of(ops[d], topic));
        }
    }
}

/// Where the check passes, the record of every acknowledged produce stands at its offset
/// in the log of a replica that no other has committed more than: unless the topic was
/// deleted, no acknowledged record is lost. The result is the node of that replica.
pub proof fn law_acknowledged_records_are_kept(
    nodes: Seq<SimNode>,
    ops: Seq<RecordedOp>,
    now: VirtualInstant,
    i: int,
    topic: Seq<char>,
    partition: PartitionIndex,
) -> (n: int)
    requires
        kafka_parity::parity_verdict(nodes, ops, Ok::<(), Violation>(()), now),
        0 <= i < ops.len(),
        addresses(ops[i], topic, partition),
        ops[i].response is ProduceOk,
        never_deleted(ops, topic),
    ensures
        0 <= n < nodes.len(),
        readable(nodes[n], (topic, partition)),
        ({
            let records = nodes[n].fleet@[(topic, partition)].records@;
            let at = ops[i].response->ProduceOk_offset;
            &&& at < records.len()
            &&& records[at as int].offset == at
            &&& records[at as int].value@ == ops[i].response->ProduceOk_value@
        }),
        forall|m: int|
            0 <= m < nodes.len() && readable(#[trigger] nodes[m], (topic, partition))
                ==> nodes[m].fleet@[(topic, partition)].records@.len()
                <= nodes[n].fleet@[(topic, partition)].records@.len(),
{
    let g = (topic, partition);
    law_what_clients_were_told_is_checked(ops, topic, partition);
    assert(kafka_parity::checked(ops, g));
    let p = kafka_parity::partition_of(nodes, ops, g);
    let places = law_every_acknowledgement_is_collected(ops, topic, partition);
    let k = choose|k: int| 0 <= k < places.len() && places[k] == i;
    assert(places[k] == i);
    assert(!kafka_parity::lost(p.log, p.acked[k]));
    kafka_parity::law_contiguous_lookup(p.log, p.acked[k].offset);
    let n = law_the_longest_log_counts(nodes, g);
    assert(p.log[p.acked[k].offset as int].offset == p.acked[k].offset);
    n
}

/// Where the check passes, the j-th record that a consume was told is the committed one
/// j places after the consume's start.
pub proof fn law_consumed_records_are_committed(
    nodes: Seq<SimNode>,
    ops: Seq<RecordedOp>,
    now: VirtualInstant,
    i: int,
    j: int,
    topic: Seq<char>,
    partition: PartitionIndex,
) -> (n: int)
    requires
        kafka_parity::parity_verdict(nodes, ops, Ok::<(), Violation>(()), now),
        0 <= i < ops.len(),
        addresses(ops[i], topic, partition),
        ops[i].response is ConsumeOk,
        0 <= j < ops[i].response->ConsumeOk_records@.len(),
        never_deleted(ops, topic),
    ensures
        0 <= n < nodes.len(),
        readable(nodes[n], (topic, partition)),
        ({
            let records = nodes[n].fleet@[(topic, partition)].records@;
            let at = ops[i].response->ConsumeOk_start_offset + j;
            &&& at < records.len()
            &&& records[at].offset == at
            &&& records[at].value@ == ops[i].response->ConsumeOk_records@[j].value@
        }),
        forall|m: int|
            0 <= m < nodes.len() && readable(#[trigger] nodes[m], (topic, partition))
                ==> nodes[m].fleet@[(topic, partition)].records@.len()
                <= nodes[n].fleet@[(topic, partition)].records@.len(),
{
    let g = (topic, partition);
    law_what_clients_were_told_is_checked(ops, topic, partition);
    assert(kafka_parity::checked(ops, g));
    let p = kafka_parity::partition_of(nodes, ops, g);
    let places = law_every_consume_is_collected(ops, topic, partition);
    let k = choose|k: int| 0 <= k < places.len() && places[k] == i;
    assert(places[k] == i);
    let c = p.consumes[k];
    assert(kafka_parity::reads_true(p.log, c));
    assert(!kafka_parity::misread(p.log, c, j));
    assert(c.start_offset + c.values.len() <= p.log.len());
    let n = law_the_longest_log_counts(nodes, g);
    let at = c.start_offset + j;
    assert(c.values[j] == ops[i].response->ConsumeOk_records@[j].value@);
    assert(p.log.len() == nodes[n].fleet@[g].records@.len());
    kafka_parity::law_contiguous_lookup(p.log, at as u64);
    assert(p.log[at].offset == at);
    n
}

/// Where the check passes, a produce that was answered before another was invoked has the
/// lower offset, and two produces told of one offset wrote one value.
pub proof fn law_offsets_follow_real_time(
    nodes: Seq<SimNode>,
    ops: Seq<RecordedOp>,
    now: VirtualInstant,
    i: int,
    j: int,
    topic: Seq<char>,
    partition: PartitionIndex,
)
    requires
        kafka_parity::parity_verdict(nodes, ops, Ok::<(), Violation>(()), now),
        0 <= i < ops.len(),
        0 <= j < ops.len(),
        addresses(ops[i], topic, partition),
        addresses(ops[j], topic, partition),
        ops[i].response is ProduceOk,
        ops[j].response is ProduceOk,
        never_deleted(ops, topic),
    ensures
        ops[i].responded_at.0 < ops[j].invoked_at.0 ==> ops[i].response->ProduceOk_offset
            < ops[j].response->ProduceOk_offset,
        ops[i].response->ProduceOk_offset == ops[j].response->ProduceOk_offset
            ==> ops[i].response->ProduceOk_value@ == ops[j].response->ProduceOk_value@,
{
    let g = (topic, partition);
    law_what_clients_were_told_is_checked(ops, topic, partition);
    assert(kafka_parity::checked(ops, g));
    let p = kafka_parity::partition_of(nodes, ops, g);
    let places = law_every_acknowledgement_is_collected(ops, topic, partition);
    let k = choose|k: int| 0 <= k < places.len() && places[k] == i;
    let l = choose|l: int| 0 <= l < places.len() && places[l] == j;
    assert(places[k] == i && places[l] == j);
    assert(!kafka_parity::inverts(p.acked[k], p.acked[l]));
    if k < l {
        assert(!kafka_parity::reuses_offset(p.acked, l));
    } else if l < k {
        assert(!kafka_parity::reuses_offset(p.acked, k));
    }
}

/// Every node that runs and has committed metadata is among the catalogues that are
/// compared, with what it serves and its commit index, and no other is. The result tells
/// for each catalogue its node.
pub proof fn law_every_catalogue_is_compared(nodes: Seq<SimNode>) -> (places: Seq<int>)
    ensures
        places.len() == kafka_parity::served_catalogues(nodes).len(),
        forall|k: int| 0 <= k < places.len() ==> 0 <= #[trigger] places[k] < nodes.len(),
        forall|j: int, k: int|
            0 <= j < k < places.len() ==> #[trigger] places[j] < #[trigger] places[k],
        forall|k: int|
            0 <= k < places.len() ==> {
                let node = nodes[#[trigger] places[k]];
                let c = kafka_parity::served_catalogues(nodes)[k];
                &&& node.running
                &&& node.controller matches Some(s) && s.commit_index == Some(c.commit)
                &&& c.node == node.id@
                &&& c.meta == node.served
            },
        forall|i: int|
            0 <= i < nodes.len() && (#[trigger] nodes[i]).running && (
            nodes[i].controller matches Some(s) && s.commit_index is Some) ==> places.contains(i),
    decreases nodes.len(),
{
    if nodes.len() == 0 {
        Seq::empty()
    } else {
        let n = nodes.len() - 1;
        let fore = nodes.drop_last();
        let rest = law_every_catalogue_is_compared(fore);
        let node = nodes.last();
        if node.running && (node.controller matches Some(s) && s.commit_index is Some) {
            let places = rest.push(n);
            assert(places[rest.len() as int] == n);
            assert forall|i: int|
                0 <= i < nodes.len() && (#[trigger] nodes[i]).running && (
                nodes[i].controller matches Some(s)
                    && s.commit_index is Some) implies places.contains(i) by {
                if i < n {
                    assert(fore[i] == nodes[i]);
                    let k = choose|k: int| 0 <= k < rest.len() && rest[k] == i;
                    assert(places[k] == i);
                }
            }
            assert forall|k: int| 0 <= k < rest.len() implies nodes[#[trigger] places[k]]
                == fore[rest[k]] by {}
            places
        } else {
            assert forall|i: int|
                0 <= i < nodes.len() && (#[trigger] nodes[i]).running && (
                nodes[i].controller matches Some(s)
                    && s.commit_index is Some) implies rest.contains(i) by {
                assert(fore[i] == nodes[i]);
            }
            assert forall|k: int| 0 <= k < rest.len() implies nodes[#[trigger] rest[k]]
                == fore[rest[k]] by {}
            rest
        }
    }
}

/// Where the check passes, two running nodes that have committed as much metadata serve
/// the same topics, each in the same shape.
pub proof fn law_served_catalogues_agree(
    nodes: Seq<SimNode>,
    ops: Seq<RecordedOp>,
    now: VirtualInstant,
    x: int,
    y: int,
    topic: Seq<char>,
)
    requires
        kafka_parity::parity_verdict(nodes, ops, Ok::<(), Violation>(()), now),
        0 <= x < nodes.len(),
        0 <= y < nodes.len(),
        nodes[x].running && nodes[y].running,
        nodes[x].controller is Some && nodes[y].controller is Some,
        nodes[x].controller->0.commit_index is Some,
        nodes[x].controller->0.commit_index == nodes[y].controller->0.commit_index,
    ensures
        nodes[x].served.topics@.contains_key(topic) == nodes[y].served.topics@.contains_key(topic),
        nodes[x].served.topics@.contains_key(topic) ==> {
            let a = nodes[x].served.topics@[topic];
            let b = nodes[y].served.topics@[topic];
            &&& a.name@ == b.name@
            &&& a.state == b.state
            &&& a.backend == b.backend
            &&& a.partitions@.len() == b.partitions@.len()
            &&& forall|p: int|
                0 <= p < a.partitions@.len() ==> {
                    &&& (#[trigger] a.partitions@[p]).index == b.partitions@[p].index
                    &&& a.partitions@[p].replicas@.len() == b.partitions@[p].replicas@.len()
                    &&& forall|r: int|
                        0 <= r < a.partitions@[p].replicas@.len() ==> (
                        #[trigger] a.partitions@[p].replicas@[r]).0@
                            == b.partitions@[p].replicas@[r].0@
                    &&& a.partitions@[p].leader is Some == b.partitions@[p].leader is Some
                    &&& a.partitions@[p].leader is Some ==> (a.partitions@[p].leader->0).0@ == (
                    b.partitions@[p].leader->0).0@
                }
        },
{
    let views = kafka_parity::served_catalogues(nodes);
    let places = law_every_catalogue_is_compared(nodes);
    let k = choose|k: int| 0 <= k < places.len() && places[k] == x;
    let l = choose|l: int| 0 <= l < places.len() && places[l] == y;
    assert(places[k] == x && places[l] == y);
    let a = nodes[x].served;
    let b = nodes[y].served;
    if k < l {
        assert(!kafka_parity::diverge(views[k], views[l]));
        assert(!kafka_parity::differ_on(a, b, topic));
    } else if l < k {
        assert(!kafka_parity::diverge(views[l], views[k]));
        assert(!kafka_parity::differ_on(b, a, topic));
    }
    assert(kafka_parity::topic_at(a, topic) == kafka_parity::topic_at(b, topic));
    if a.topics@.contains_key(topic) {
        let s = a.topics@[topic];
        let t = b.topics@[topic];
        assert(s@ == t@);
        assert(s@.partitions.len() == t@.partitions.len());
        assert forall|p: int| 0 <= p < s.partitions@.len() implies {
            &&& (#[trigger] s.partitions@[p]).index == t.partitions@[p].index
            &&& s.partitions@[p].replicas@.len() == t.partitions@[p].replicas@.len()
            &&& forall|r: int|
                0 <= r < s.partitions@[p].replicas@.len() ==> (
                #[trigger] s.partitions@[p].replicas@[r]).0@ == t.partitions@[p].replicas@[r].0@
            &&& s.partitions@[p].leader is Some == t.partitions@[p].leader is Some
            &&& s.partitions@[p].leader is Some ==> (s.partitions@[p].leader->0).0@ == (
            t.partitions@[p].leader->0).0@
        } by {
            let u = s.partitions@[p];
            let w = t.partitions@[p];
            assert(s@.partitions[p] == t@.partitions[p]);
            assert(u@ == w@);
            assert(u@.replicas.len() == w@.replicas.len());
            assert forall|r: int| 0 <= r < u.replicas@.len() implies (
            #[trigger] u.replicas@[r]).0@ == w.replicas@[r].0@ by {
                assert(u@.replicas[r] == w@.replicas[r]);
            }
        }
    }
}

/// A check that fails has found what it reports: for the partition of some operation, an
/// acknowledged record that is not the one committed at its offset; a gap in the committed
/// offsets, or one offset told for two values; a consumed record that is not committed
/// where it was read; an acknowledged or consumed offset past the end, or one that runs
/// against real time; or else two running nodes that have committed as much metadata and
/// serve different catalogues. It is dated now.
pub proof fn law_a_failed_check_has_its_cause(
    nodes: Seq<SimNode>,
    ops: Seq<RecordedOp>,
    v: Violation,
    now: VirtualInstant,
)
    requires
        kafka_parity::parity_verdict(nodes, ops, Err::<(), Violation>(v), now),
    ensures
        v.at.0 == now.0,
        v.property != PropertyId::MetadataConvergence ==> exists|topic: Seq<char>, partition: PartitionIndex|
            {
                &&& never_deleted(ops, topic)
                &&& #[trigger] blamed(
                    kafka_parity::longest(nodes, (topic, partition)),
                    ops,
                    topic,
                    partition,
                    v.property,
                )
            },
        v.property == PropertyId::MetadataConvergence ==> exists|x: int, y: int|
            {
                &&& 0 <= x < y < nodes.len()
                &&& (#[trigger] nodes[x]).running && (#[trigger] nodes[y]).running
                &&& nodes[x].controller is Some && nodes[y].controller is Some
                &&& nodes[x].controller->0.commit_index is Some
                &&& nodes[x].controller->0.commit_index == nodes[y].controller->0.commit_index
                &&& !(nodes[x].served.topics@.dom() =~= nodes[y].served.topics@.dom()
                    && forall|t: Seq<char>| #[trigger]
                    nodes[x].served.topics@.contains_key(t) ==> nodes[x].served.topics@[t]@
                        == nodes[y].served.topics@[t]@)
            },
{
    let views = kafka_parity::served_catalogues(nodes);
    if exists|g: GroupView| #[trigger]
        kafka_parity::checked(ops, g) && !kafka_parity::sound(
            kafka_parity::partition_of(nodes, ops, g),
        ) && kafka_parity::unsound(kafka_parity::partition_of(nodes, ops, g), g, v@, now) {
        let g = choose|g: GroupView| #[trigger]
            kafka_parity::checked(ops, g) && !kafka_parity::sound(
                kafka_parity::partition_of(nodes, ops, g),
            ) && kafka_parity::unsound(kafka_parity::partition_of(nodes, ops, g), g, v@, now);
        law_what_clients_were_told_is_checked(ops, g.0, g.1);
        lemma_blamed(nodes, ops, g, v, now);
        assert(blamed(kafka_parity::longest(nodes, (g.0, g.1)), ops, g.0, g.1, v.property));
    } else {
        assert(kafka_parity::breaks_convergence(views, v@, now));
        let (i, j, t) = choose|i: int, j: int, t: Seq<char>| #[trigger]
            kafka_parity::first_divergence(views, i, j, t) && v@
                == kafka_parity::divergence_violation(views[i], views[j], t, now);
        let places = law_every_catalogue_is_compared(nodes);
        let x = places[i];
        let y = places[j];
        assert(nodes[x].running && nodes[y].running);
        assert(kafka_parity::differ_on(nodes[x].served, nodes[y].served, t));
    }
}

/// What a report of `property` on a partition with the committed `log` says of the
/// operations on it.
pub open spec fn blamed(
    log: Seq<CommittedRecordView>,
    ops: Seq<RecordedOp>,
    topic: Seq<char>,
    partition: PartitionIndex,
    property: PropertyId,
) -> bool {
    match property {
        PropertyId::AcknowledgedRecordDurability => exists|i: int|
            {
                &&& 0 <= i < ops.len()
                &&& addresses(#[trigger] ops[i], topic, partition)
                &&& ops[i].response is ProduceOk
                &&& forall|k: int|
                    0 <= k < log.len() && (#[trigger] log[k]).offset
                        == ops[i].response->ProduceOk_offset && (forall|j: int|
                        0 <= j < k ==> (#[trigger] log[j]).offset
                            != ops[i].response->ProduceOk_offset) ==> log[k].value
                        != ops[i].response->ProduceOk_value@
            },
        PropertyId::OffsetIntegrity => {
            ||| exists|k: int| 0 <= k < log.len() && (#[trigger] log[k]).offset != k
            ||| exists|i: int, j: int|
                {
                    &&& 0 <= i < j < ops.len()
                    &&& addresses(#[trigger] ops[i], topic, partition)
                    &&& addresses(#[trigger] ops[j], topic, partition)
                    &&& ops[i].response is ProduceOk && ops[j].response is ProduceOk
                    &&& ops[i].response->ProduceOk_offset == ops[j].response->ProduceOk_offset
                    &&& ops[i].response->ProduceOk_value@ != ops[j].response->ProduceOk_value@
                }
        },
        PropertyId::ConsumeReadValidity => exists|i: int, j: int|
            {
                &&& 0 <= i < ops.len()
                &&& addresses(ops[i], topic, partition)
                &&& ops[i].response is ConsumeOk
                &&& 0 <= j < ops[i].response->ConsumeOk_records@.len()
                &&& !(ops[i].response->ConsumeOk_start_offset + j < log.len()
                    && log[ops[i].response->ConsumeOk_start_offset + j].value == (
                #[trigger] ops[i].response->ConsumeOk_records@[j]).value@)
            },
        PropertyId::PerPartitionLinearizability => {
            ||| exists|i: int|
                {
                    &&& 0 <= i < ops.len()
                    &&& addresses(#[trigger] ops[i], topic, partition)
                    &&& ops[i].response is ProduceOk
                    &&& ops[i].response->ProduceOk_offset >= log.len()
                }
            ||| exists|i: int, j: int|
                {
                    &&& 0 <= i < ops.len() && 0 <= j < ops.len()
                    &&& addresses(#[trigger] ops[i], topic, partition)
                    &&& addresses(#[trigger] ops[j], topic, partition)
                    &&& ops[i].response is ProduceOk && ops[j].response is ProduceOk
                    &&& ops[i].responded_at.0 < ops[j].invoked_at.0
                    &&& ops[i].response->ProduceOk_offset >= ops[j].response->ProduceOk_offset
                }
            ||| exists|i: int|
                {
                    &&& 0 <= i < ops.len()
                    &&& addresses(#[trigger] ops[i], topic, partition)
                    &&& ops[i].response is ConsumeOk
                    &&& ops[i].response->ConsumeOk_start_offset
                        + ops[i].response->ConsumeOk_records@.len() > log.len()
                }
        },
        _ => false,
    }
}

proof fn lemma_blamed(
    nodes: Seq<SimNode>,
    ops: Seq<RecordedOp>,
    g: GroupView,
    v: Violation,
    now: VirtualInstant,
)
    requires
        kafka_parity::unsound(kafka_parity::partition_of(nodes, ops, g), g, v@, now),
        !kafka_parity::sound(kafka_parity::partition_of(nodes, ops, g)),
    ensures
        blamed(kafka_parity::longest(nodes, g), ops, g.0, g.1, v.property),
        v.property != PropertyId::MetadataConvergence,
        v.at == now,
{
    let p = kafka_parity::partition_of(nodes, ops, g);
    let acks = law_every_acknowledgement_is_collected(ops, g.0, g.1);
    let reads = law_every_consume_is_collected(ops, g.0, g.1);
    if !kafka_parity::durable(p.log, p.acked) {
        let k = choose|k: int|
            0 <= k < p.acked.len() && kafka_parity::lost(p.log, #[trigger] p.acked[k])
                && kafka_parity::durable(p.log, p.acked.take(k)) && v@
                == kafka_parity::durability_violation(g, p.log, p.acked[k], now);
        let i = acks[k];
        assert(addresses(ops[i], g.0, g.1));
        let offset = ops[i].response->ProduceOk_offset;
        assert forall|l: int|
            0 <= l < p.log.len() && (#[trigger] p.log[l]).offset == offset && (forall|j: int|
                0 <= j < l ==> (#[trigger] p.log[j]).offset != offset) implies p.log[l].value
            != ops[i].response->ProduceOk_value@ by {
            law_the_first_record_at_an_offset_counts(p.log, offset, l);
        }
    } else if !kafka_parity::contiguous(p.log) {
        let k = choose|k: int| 0 <= k < p.log.len() && (#[trigger] p.log[k]).offset != k;
        assert(p.log[k].offset != k);
    } else if !kafka_parity::unambiguous(p.acked) {
        let l = choose|l: int|
            0 <= l < p.acked.len() && #[trigger] kafka_parity::reuses_offset(p.acked, l);
        let k = choose|k: int|
            0 <= k < l && (#[trigger] p.acked[k]).offset == p.acked[l].offset && p.acked[k].value
                != p.acked[l].value;
        let i = acks[k];
        let j = acks[l];
        assert(addresses(ops[i], g.0, g.1) && addresses(ops[j], g.0, g.1));
    } else if !kafka_parity::reads_valid(p.log, p.consumes) {
        let k = choose|k: int|
            0 <= k < p.consumes.len() && !kafka_parity::reads_true(
                p.log,
                #[trigger] p.consumes[k],
            );
        let c = p.consumes[k];
        let j = choose|j: int|
            0 <= j < c.values.len() && #[trigger] kafka_parity::misread(p.log, c, j);
        let i = reads[k];
        assert(addresses(ops[i], g.0, g.1));
        let records = ops[i].response->ConsumeOk_records@;
        assert(c.values[j] == records[j].value@);
        let at = c.start_offset + j;
        if at < p.log.len() {
            assert(p.log[at].offset == at);
            kafka_parity::law_contiguous_lookup(p.log, at as u64);
            assert(p.log[at].value != records[j].value@);
        }
    } else if !kafka_parity::positioned(p.log.len(), p.acked) {
        let k = choose|k: int|
            0 <= k < p.acked.len() && (#[trigger] p.acked[k]).offset >= p.log.len();
        assert(addresses(ops[acks[k]], g.0, g.1));
    } else if !kafka_parity::real_time(p.acked) {
        let (k, l) = choose|k: int, l: int|
            0 <= k < p.acked.len() && 0 <= l < p.acked.len() && kafka_parity::inverts(
                #[trigger] p.acked[k],
                #[trigger] p.acked[l],
            );
        assert(addresses(ops[acks[k]], g.0, g.1) && addresses(ops[acks[l]], g.0, g.1));
    } else {
        let k = choose|k: int|
            0 <= k < p.consumes.len() && (#[trigger] p.consumes[k]).start_offset
                + p.consumes[k].values.len() > p.log.len();
        assert(addresses(ops[reads[k]], g.0, g.1));
    }
}

} // verus!
