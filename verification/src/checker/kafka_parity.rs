//! The client-consistency checker: what clients were told holds of the committed
//! logs.
//!
//! For every partition that the history speaks of: acknowledged records are there,
//! offsets are contiguous and unambiguous, consumes returned what is committed, and
//! offsets respect real time. For the cluster: nodes that committed the same
//! metadata serve the same catalogue.

use super::{PropertyId, Violation, ViolationView};
use crate::cluster::{ClusterMetadata, SimNode, SimulatedCluster, TopicView};
use crate::history::{History, OpResponse, RecordedOp};
use crate::keyed::KeyedMap;
use crate::model::{
    self, CommittedRecord, CommittedRecordView, GroupKey, GroupView, NodeId, Offset,
    PartitionIndex, Record,
};
use crate::scheduler::VirtualInstant;
use crate::text;
use vstd::prelude::*;

verus! {

/// The committed records of a partition.
#[derive(Debug)]
pub struct CommittedLog {
    pub records: Vec<CommittedRecord>,
}

/// The records of a list, as mathematical values.
pub open spec fn committed_views(records: Seq<CommittedRecord>) -> Seq<CommittedRecordView> {
    Seq::new(records.len(), |i: int| records[i]@)
}

/// The value of the first record at `offset`, if there is one.
pub open spec fn value_in(log: Seq<CommittedRecordView>, offset: Offset) -> Option<Seq<u8>>
    decreases log.len(),
{
    if log.len() == 0 {
        None
    } else if log[0].offset == offset {
        Some(log[0].value)
    } else {
        value_in(log.drop_first(), offset)
    }
}

proof fn lemma_value_in(log: Seq<CommittedRecordView>, offset: Offset, i: int)
    requires
        0 <= i <= log.len(),
        forall|k: int| 0 <= k < i ==> (#[trigger] log[k]).offset != offset,
    ensures
        i == log.len() ==> value_in(log, offset) is None,
        i < log.len() && log[i].offset == offset ==> value_in(log, offset) == Some(log[i].value),
    decreases i,
{
    if i > 0 {
        let rest = log.drop_first();
        assert(log[0].offset != offset);
        assert forall|k: int| 0 <= k < i - 1 implies (#[trigger] rest[k]).offset != offset by {
            assert(rest[k] == log[k + 1]);
        }
        lemma_value_in(rest, offset, i - 1);
    }
}

impl CommittedLog {
    pub open spec fn view(self) -> Seq<CommittedRecordView> {
        committed_views(self.records@)
    }

    pub fn from_records(records: Vec<CommittedRecord>) -> (r: Self)
        ensures
            r.records == records,
    {
        CommittedLog { records }
    }

    pub fn len(&self) -> (r: usize)
        ensures
            r == self@.len(),
    {
        self.records.len()
    }

    /// The value at `offset`, if a record has that offset.
    pub fn value_at(&self, offset: Offset) -> (r: Option<&[u8]>)
        ensures
            match r {
                Some(v) => value_in(self@, offset) == Some(v@),
                None => value_in(self@, offset) is None,
            },
    {
        let mut i: usize = 0;
        while i < self.records.len()
            invariant
                i <= self.records@.len(),
                forall|k: int| 0 <= k < i ==> (#[trigger] self@[k]).offset != offset,
            decreases self.records@.len() - i,
        {
            assert(self@[i as int] == self.records@[i as int]@);
            if self.records[i].offset == offset {
                proof {
                    lemma_value_in(self@, offset, i as int);
                }
                return Some(self.records[i].value.as_slice());
            }
            i += 1;
        }
        proof {
            lemma_value_in(self@, offset, i as int);
        }
        None
    }
}

/// A produce that a client was told succeeded.
#[derive(Debug)]
pub struct AckedProduce {
    pub offset: Offset,
    pub value: Vec<u8>,
    pub invoked_at: VirtualInstant,
    pub responded_at: VirtualInstant,
}

/// An acknowledged produce as a mathematical value.
pub struct AckedView {
    pub offset: Offset,
    pub value: Seq<u8>,
    pub invoked_at: VirtualInstant,
    pub responded_at: VirtualInstant,
}

impl View for AckedProduce {
    type V = AckedView;

    open spec fn view(&self) -> AckedView {
        AckedView {
            offset: self.offset,
            value: self.value@,
            invoked_at: self.invoked_at,
            responded_at: self.responded_at,
        }
    }
}

pub open spec fn acked_views(acked: Seq<AckedProduce>) -> Seq<AckedView> {
    Seq::new(acked.len(), |i: int| acked[i]@)
}

/// What a consume returned.
#[derive(Debug)]
pub struct ConsumeObs {
    pub start_offset: Offset,
    pub values: Vec<Vec<u8>>,
}

/// What a consume returned, as a mathematical value.
#[verifier::ext_equal]
pub struct ConsumeView {
    pub start_offset: Offset,
    pub values: Seq<Seq<u8>>,
}

/// Byte strings as mathematical values.
pub open spec fn value_views(values: Seq<Vec<u8>>) -> Seq<Seq<u8>> {
    Seq::new(values.len(), |i: int| values[i]@)
}

impl View for ConsumeObs {
    type V = ConsumeView;

    open spec fn view(&self) -> ConsumeView {
        ConsumeView { start_offset: self.start_offset, values: value_views(self.values@) }
    }
}

pub open spec fn consume_views(consumes: Seq<ConsumeObs>) -> Seq<ConsumeView> {
    Seq::new(consumes.len(), |i: int| consumes[i]@)
}

impl ConsumeView {
    /// Whether the offset after the last record is a number.
    pub open spec fn fits(self) -> bool {
        self.start_offset + self.values.len() <= u64::MAX
    }
}

/// Whether some operation deleted `topic` successfully.
pub open spec fn deletes(ops: Seq<RecordedOp>, topic: Seq<char>) -> bool {
    exists|i: int| 0 <= i < ops.len() && is_delete_of(#[trigger] ops[i], topic)
}

pub open spec fn is_delete_of(op: RecordedOp, topic: Seq<char>) -> bool {
    op.response matches OpResponse::DeleteTopicOk { topic: t } && t@ == topic
}

/// The topics that were deleted successfully.
pub fn deleted_topics(history: &History) -> (r: KeyedMap<String, ()>)
    ensures
        r.wf(),
        forall|t: Seq<char>| #[trigger] r@.contains_key(t) == deletes(history.ops@, t),
{
    let mut out: KeyedMap<String, ()> = KeyedMap::new();
    let ghost ops = history.ops@;
    let mut i: usize = 0;
    while i < history.ops.len()
        invariant
            i <= ops.len(),
            ops == history.ops@,
            out.wf(),
            forall|t: Seq<char>| #[trigger]
                out@.contains_key(t) ==> exists|k: int|
                    0 <= k < i && is_delete_of(#[trigger] ops[k], t),
            forall|k: int, t: Seq<char>|
                #![trigger is_delete_of(ops[k], t)]
                0 <= k < i && is_delete_of(ops[k], t) ==> out@.contains_key(t),
        decreases ops.len() - i,
    {
        match &history.ops[i].response {
            OpResponse::DeleteTopicOk { topic } => {
                let ghost before = out@;
                out.insert(topic.clone(), ());
                assert(is_delete_of(ops[i as int], topic@));
                assert forall|t: Seq<char>| #[trigger] out@.contains_key(t) implies exists|k: int|
                    0 <= k < i + 1 && is_delete_of(#[trigger] ops[k], t) by {
                    if before.contains_key(t) {
                        let k = choose|k: int| 0 <= k < i && is_delete_of(#[trigger] ops[k], t);
                        assert(0 <= k < i + 1);
                    }
                }
            },
            _ => {},
        }
        i += 1;
    }
    out
}

/// The acknowledged produces of a partition, in order.
pub open spec fn acked_in(ops: Seq<RecordedOp>, topic: Seq<char>, partition: PartitionIndex) -> Seq<
    AckedView,
>
    decreases ops.len(),
{
    if ops.len() == 0 {
        Seq::empty()
    } else {
        let rest = acked_in(ops.drop_last(), topic, partition);
        let op = ops.last();
        if op.on_partition(topic, partition) {
            match op.response {
                OpResponse::ProduceOk { value, offset, .. } => rest.push(
                    AckedView {
                        offset,
                        value: value@,
                        invoked_at: op.invoked_at,
                        responded_at: op.responded_at,
                    },
                ),
                _ => rest,
            }
        } else {
            rest
        }
    }
}

/// The acknowledged produces of a partition.
pub fn acked_produces(history: &History, topic: &str, partition: PartitionIndex) -> (r: Vec<
    AckedProduce,
>)
    ensures
        acked_views(r@) == acked_in(history.ops@, topic@, partition),
{
    let mut out: Vec<AckedProduce> = Vec::new();
    let ghost ops = history.ops@;
    let mut i: usize = 0;
    assert(ops.take(0) =~= Seq::empty());
    assert(acked_views(out@) =~= Seq::empty());
    while i < history.ops.len()
        invariant
            i <= ops.len(),
            ops == history.ops@,
            acked_views(out@) == acked_in(ops.take(i as int), topic@, partition),
        decreases ops.len() - i,
    {
        let op = &history.ops[i];
        let ghost before = acked_views(out@);
        assert(ops.take(i + 1).drop_last() =~= ops.take(i as int));
        if op.is_on_partition(topic, partition) {
            match &op.response {
                OpResponse::ProduceOk { topic: t, partition: p, value, offset } => {
                    let a = AckedProduce {
                        offset: *offset,
                        value: model::clone_bytes(value.as_slice()),
                        invoked_at: op.invoked_at,
                        responded_at: op.responded_at,
                    };
                    out.push(a);
                    assert(acked_views(out@) =~= before.push(a@));
                },
                _ => {},
            }
        }
        i += 1;
    }
    assert(ops.take(i as int) =~= ops);
    out
}

/// The values of records.
pub open spec fn record_values(records: Seq<Record>) -> Seq<Seq<u8>> {
    Seq::new(records.len(), |i: int| records[i].value@)
}

/// The successful consumes of a partition, in order.
pub open spec fn consumes_in(
    ops: Seq<RecordedOp>,
    topic: Seq<char>,
    partition: PartitionIndex,
) -> Seq<ConsumeView>
    decreases ops.len(),
{
    if ops.len() == 0 {
        Seq::empty()
    } else {
        let rest = consumes_in(ops.drop_last(), topic, partition);
        let op = ops.last();
        if op.on_partition(topic, partition) {
            match op.response {
                OpResponse::ConsumeOk { start_offset, records, .. } => rest.push(
                    ConsumeView { start_offset, values: record_values(records@) },
                ),
                _ => rest,
            }
        } else {
            rest
        }
    }
}

fn clone_values(records: &Vec<Record>) -> (r: Vec<Vec<u8>>)
    ensures
        value_views(r@) == record_values(records@),
{
    let mut out: Vec<Vec<u8>> = Vec::new();
    let mut i: usize = 0;
    while i < records.len()
        invariant
            i <= records@.len(),
            out@.len() == i,
            forall|k: int| 0 <= k < i ==> (#[trigger] out@[k])@ == records@[k].value@,
        decreases records@.len() - i,
    {
        out.push(model::clone_bytes(records[i].value.as_slice()));
        i += 1;
    }
    assert(value_views(out@) =~= record_values(records@));
    out
}

/// The successful consumes of a partition.
pub fn consume_observations(history: &History, topic: &str, partition: PartitionIndex) -> (r: Vec<
    ConsumeObs,
>)
    ensures
        consume_views(r@) == consumes_in(history.ops@, topic@, partition),
{
    let mut out: Vec<ConsumeObs> = Vec::new();
    let ghost ops = history.ops@;
    let mut i: usize = 0;
    assert(ops.take(0) =~= Seq::empty());
    assert(consume_views(out@) =~= Seq::empty());
    while i < history.ops.len()
        invariant
            i <= ops.len(),
            ops == history.ops@,
            consume_views(out@) == consumes_in(ops.take(i as int), topic@, partition),
        decreases ops.len() - i,
    {
        let op = &history.ops[i];
        let ghost before = consume_views(out@);
        assert(ops.take(i + 1).drop_last() =~= ops.take(i as int));
        if op.is_on_partition(topic, partition) {
            match &op.response {
                OpResponse::ConsumeOk { topic: t, partition: p, start_offset, records } => {
                    let c = ConsumeObs {
                        start_offset: *start_offset,
                        values: clone_values(records),
                    };
                    out.push(c);
                    assert(consume_views(out@) =~= before.push(c@));
                },
                _ => {},
            }
        }
        i += 1;
    }
    assert(ops.take(i as int) =~= ops);
    out
}

fn start_detail(group: &GroupKey) -> (r: String)
    ensures
        r@ == "group "@ + model::group_text(group@) + ": "@,
{
    let mut detail = "group ".to_owned();
    model::push_group(&mut detail, group);
    text::push_str(&mut detail, ": ");
    detail
}

/// The opening of a report on `group`.
pub open spec fn about(group: GroupView) -> Seq<char> {
    "group "@ + model::group_text(group) + ": "@
}

/// Whether an acknowledged record is absent from the log, or differs there.
pub open spec fn lost(log: Seq<CommittedRecordView>, a: AckedView) -> bool {
    value_in(log, a.offset) != Some(a.value)
}

/// Acknowledged-Record Durability: no acknowledged record is lost.
pub open spec fn durable(log: Seq<CommittedRecordView>, acked: Seq<AckedView>) -> bool {
    forall|i: int| 0 <= i < acked.len() ==> !lost(log, #[trigger] acked[i])
}

pub open spec fn durability_violation(
    group: GroupView,
    log: Seq<CommittedRecordView>,
    a: AckedView,
    now: VirtualInstant,
) -> ViolationView {
    ViolationView {
        property: PropertyId::AcknowledgedRecordDurability,
        at: now,
        detail: if value_in(log, a.offset) is None {
            about(group) + "acknowledged record at offset "@ + text::decimal(a.offset as nat)
                + " is absent from the committed log (committed len "@ + text::decimal(log.len())
                + ")"@
        } else {
            about(group) + "acknowledged record at offset "@ + text::decimal(a.offset as nat)
                + " was overwritten in the committed log"@
        },
    }
}

/// `v` reports the first acknowledged record that is lost.
pub open spec fn breaks_durability(
    group: GroupView,
    log: Seq<CommittedRecordView>,
    acked: Seq<AckedView>,
    v: ViolationView,
    now: VirtualInstant,
) -> bool {
    exists|i: int|
        0 <= i < acked.len() && lost(log, #[trigger] acked[i]) && durable(log, acked.take(i)) && v
            == durability_violation(group, log, acked[i], now)
}

/// Check that no acknowledged record is lost.
pub fn check_durability(
    group: &GroupKey,
    log: &CommittedLog,
    acked: &[AckedProduce],
    now: VirtualInstant,
) -> (r: Result<(), Violation>)
    ensures
        match r {
            Ok(ok) => durable(log@, acked_views(acked@)),
            Err(v) => !durable(log@, acked_views(acked@)) && breaks_durability(
                group@,
                log@,
                acked_views(acked@),
                v@,
                now,
            ),
        },
{
    let ghost views = acked_views(acked@);
    let mut i: usize = 0;
    while i < acked.len()
        invariant
            i <= acked@.len(),
            views == acked_views(acked@),
            forall|k: int| 0 <= k < i ==> !lost(log@, #[trigger] views[k]),
        decreases acked@.len() - i,
    {
        let a = &acked[i];
        assert(views[i as int] == a@);
        match log.value_at(a.offset) {
            None => {
                let mut detail = start_detail(group);
                text::push_str(&mut detail, "acknowledged record at offset ");
                text::push_decimal(&mut detail, a.offset);
                text::push_str(
                    &mut detail,
                    " is absent from the committed log (committed len ",
                );
                text::push_decimal(&mut detail, log.len() as u64);
                text::push_str(&mut detail, ")");
                assert(durable(log@, views.take(i as int)));
                return Err(
                    Violation::new(PropertyId::AcknowledgedRecordDurability, now, detail),
                );
            },
            Some(value) => {
                if !model::same_bytes(value, a.value.as_slice()) {
                    let mut detail = start_detail(group);
                    text::push_str(&mut detail, "acknowledged record at offset ");
                    text::push_decimal(&mut detail, a.offset);
                    text::push_str(&mut detail, " was overwritten in the committed log");
                    assert(durable(log@, views.take(i as int)));
                    return Err(
                        Violation::new(PropertyId::AcknowledgedRecordDurability, now, detail),
                    );
                }
            },
        }
        i += 1;
    }
    Ok(())
}

/// Whether the committed offsets are 0, 1, 2, and so on.
pub open spec fn contiguous(log: Seq<CommittedRecordView>) -> bool {
    forall|i: int| 0 <= i < log.len() ==> (#[trigger] log[i]).offset == i
}

/// Whether acknowledgement `j` gives an offset that an earlier one gave to another
/// value.
pub open spec fn reuses_offset(acked: Seq<AckedView>, j: int) -> bool {
    exists|i: int|
        0 <= i < j && (#[trigger] acked[i]).offset == acked[j].offset && acked[i].value
            != acked[j].value
}

/// Whether no offset was acknowledged for two different records.
pub open spec fn unambiguous(acked: Seq<AckedView>) -> bool {
    forall|j: int| 0 <= j < acked.len() ==> !(#[trigger] reuses_offset(acked, j))
}

/// `v` reports the first committed offset that is out of place, or else the first
/// acknowledgement that reuses an offset.
pub open spec fn breaks_integrity(
    group: GroupView,
    log: Seq<CommittedRecordView>,
    acked: Seq<AckedView>,
    v: ViolationView,
    now: VirtualInstant,
) -> bool {
    &&& v.property == PropertyId::OffsetIntegrity
    &&& v.at == now
    &&& if !contiguous(log) {
        exists|i: int|
            0 <= i < log.len() && (#[trigger] log[i]).offset != i && contiguous(log.take(i))
                && v.detail == about(group)
                + "committed offsets are not contiguous from 0 — expected offset "@ + text::decimal(
                i as nat,
            ) + ", found "@ + text::decimal(log[i].offset as nat)
    } else {
        exists|j: int|
            0 <= j < acked.len() && #[trigger] reuses_offset(acked, j) && (forall|k: int|
                0 <= k < j ==> !(#[trigger] reuses_offset(acked, k))) && v.detail == about(group)
                + "offset "@ + text::decimal(acked[j].offset as nat)
                + " was acknowledged for two distinct records"@
    }
}

/// Check that offsets are contiguous and unambiguous.
pub fn check_offset_integrity(
    group: &GroupKey,
    log: &CommittedLog,
    acked: &[AckedProduce],
    now: VirtualInstant,
) -> (r: Result<(), Violation>)
    ensures
        match r {
            Ok(ok) => contiguous(log@) && unambiguous(acked_views(acked@)),
            Err(v) => !(contiguous(log@) && unambiguous(acked_views(acked@))) && breaks_integrity(
                group@,
                log@,
                acked_views(acked@),
                v@,
                now,
            ),
        },
{
    let ghost views = acked_views(acked@);
    let mut i: usize = 0;
    while i < log.records.len()
        invariant
            i <= log.records@.len(),
            forall|k: int| 0 <= k < i ==> (#[trigger] log@[k]).offset == k,
        decreases log.records@.len() - i,
    {
        assert(log@[i as int] == log.records@[i as int]@);
        if log.records[i].offset != i as u64 {
            let mut detail = start_detail(group);
            text::push_str(
                &mut detail,
                "committed offsets are not contiguous from 0 — expected offset ",
            );
            text::push_decimal(&mut detail, i as u64);
            text::push_str(&mut detail, ", found ");
            text::push_decimal(&mut detail, log.records[i].offset);
            assert(contiguous(log@.take(i as int)));
            return Err(Violation::new(PropertyId::OffsetIntegrity, now, detail));
        }
        i += 1;
    }
    assert(contiguous(log@));
    let mut j: usize = 0;
    while j < acked.len()
        invariant
            j <= acked@.len(),
            views == acked_views(acked@),
            contiguous(log@),
            forall|k: int| 0 <= k < j ==> !(#[trigger] reuses_offset(views, k)),
        decreases acked@.len() - j,
    {
        let mut k: usize = 0;
        while k < j
            invariant
                k <= j,
                j < acked@.len(),
                views == acked_views(acked@),
                contiguous(log@),
                forall|x: int| 0 <= x < j ==> !(#[trigger] reuses_offset(views, x)),
                forall|x: int|
                    0 <= x < k ==> !((#[trigger] views[x]).offset == views[j as int].offset
                        && views[x].value != views[j as int].value),
            decreases j - k,
        {
            assert(views[k as int] == acked@[k as int]@);
            assert(views[j as int] == acked@[j as int]@);
            if acked[k].offset == acked[j].offset && !model::same_bytes(
                acked[k].value.as_slice(),
                acked[j].value.as_slice(),
            ) {
                let mut detail = start_detail(group);
                text::push_str(&mut detail, "offset ");
                text::push_decimal(&mut detail, acked[j].offset);
                text::push_str(&mut detail, " was acknowledged for two distinct records");
                assert(reuses_offset(views, j as int));
                return Err(Violation::new(PropertyId::OffsetIntegrity, now, detail));
            }
            k += 1;
        }
        j += 1;
    }
    Ok(())
}

/// Whether the `i`-th record of a consume is not the committed record at its offset.
pub open spec fn misread(log: Seq<CommittedRecordView>, c: ConsumeView, i: int) -> bool {
    value_in(log, (c.start_offset + i) as u64) != Some(c.values[i])
}

/// Whether a consume returned only committed records.
pub open spec fn reads_true(log: Seq<CommittedRecordView>, c: ConsumeView) -> bool {
    forall|i: int| 0 <= i < c.values.len() ==> !(#[trigger] misread(log, c, i))
}

/// Consume Read-Validity: every consume returned only committed records.
pub open spec fn reads_valid(log: Seq<CommittedRecordView>, consumes: Seq<ConsumeView>) -> bool {
    forall|k: int| 0 <= k < consumes.len() ==> reads_true(log, #[trigger] consumes[k])
}

pub open spec fn misread_violation(
    group: GroupView,
    log: Seq<CommittedRecordView>,
    c: ConsumeView,
    i: int,
    now: VirtualInstant,
) -> ViolationView {
    let offset = (c.start_offset + i) as u64;
    ViolationView {
        property: PropertyId::ConsumeReadValidity,
        at: now,
        detail: if value_in(log, offset) is None {
            about(group) + "consume from start offset "@ + text::decimal(c.start_offset as nat)
                + " returned a record at offset "@ + text::decimal(offset as nat)
                + " that is not in the committed log (phantom read)"@
        } else {
            about(group) + "consume returned a record at offset "@ + text::decimal(offset as nat)
                + " that differs from the committed record there"@
        },
    }
}

/// `v` reports the first record of the first consume that is not what is committed.
pub open spec fn breaks_reads(
    group: GroupView,
    log: Seq<CommittedRecordView>,
    consumes: Seq<ConsumeView>,
    v: ViolationView,
    now: VirtualInstant,
) -> bool {
    exists|k: int, i: int|
        0 <= k < consumes.len() && 0 <= i < consumes[k].values.len() && #[trigger] misread(
            log,
            consumes[k],
            i,
        ) && reads_valid(log, consumes.take(k)) && (forall|j: int|
            0 <= j < i ==> !(#[trigger] misread(log, consumes[k], j))) && v == misread_violation(
            group,
            log,
            consumes[k],
            i,
            now,
        )
}

/// Check that every consume returned only committed records.
pub fn check_consume_validity(
    group: &GroupKey,
    log: &CommittedLog,
    consumes: &[ConsumeObs],
    now: VirtualInstant,
) -> (r: Result<(), Violation>)
    requires
        forall|k: int| 0 <= k < consumes@.len() ==> (#[trigger] consumes@[k])@.fits(),
    ensures
        match r {
            Ok(ok) => reads_valid(log@, consume_views(consumes@)),
            Err(v) => !reads_valid(log@, consume_views(consumes@)) && breaks_reads(
                group@,
                log@,
                consume_views(consumes@),
                v@,
                now,
            ),
        },
{
    let ghost views = consume_views(consumes@);
    let mut k: usize = 0;
    while k < consumes.len()
        invariant
            k <= consumes@.len(),
            views == consume_views(consumes@),
            forall|x: int| 0 <= x < consumes@.len() ==> (#[trigger] consumes@[x])@.fits(),
            forall|x: int| 0 <= x < k ==> reads_true(log@, #[trigger] views[x]),
        decreases consumes@.len() - k,
    {
        let c = &consumes[k];
        assert(views[k as int] == c@);
        assert(c@.fits());
        let mut i: usize = 0;
        while i < c.values.len()
            invariant
                i <= c.values@.len(),
                k < consumes@.len(),
                views == consume_views(consumes@),
                views[k as int] == c@,
                c@.fits(),
                forall|x: int| 0 <= x < k ==> reads_true(log@, #[trigger] views[x]),
                forall|j: int| 0 <= j < i ==> !(#[trigger] misread(log@, c@, j)),
            decreases c.values@.len() - i,
        {
            assert(c@.values[i as int] == c.values@[i as int]@);
            let offset: u64 = c.start_offset + i as u64;
            match log.value_at(offset) {
                None => {
                    let mut detail = start_detail(group);
                    text::push_str(&mut detail, "consume from start offset ");
                    text::push_decimal(&mut detail, c.start_offset);
                    text::push_str(&mut detail, " returned a record at offset ");
                    text::push_decimal(&mut detail, offset);
                    text::push_str(
                        &mut detail,
                        " that is not in the committed log (phantom read)",
                    );
                    assert(misread(log@, views[k as int], i as int));
                    assert(reads_valid(log@, views.take(k as int)));
                    return Err(Violation::new(PropertyId::ConsumeReadValidity, now, detail));
                },
                Some(committed) => {
                    if !model::same_bytes(committed, c.values[i].as_slice()) {
                        let mut detail = start_detail(group);
                        text::push_str(&mut detail, "consume returned a record at offset ");
                        text::push_decimal(&mut detail, offset);
                        text::push_str(
                            &mut detail,
                            " that differs from the committed record there",
                        );
                        assert(misread(log@, views[k as int], i as int));
                        assert(reads_valid(log@, views.take(k as int)));
                        return Err(Violation::new(PropertyId::ConsumeReadValidity, now, detail));
                    }
                },
            }
            i += 1;
        }
        k += 1;
    }
    Ok(())
}

/// Whether produce `a` was answered before `b` was asked for, but did not get the
/// lower offset.
pub open spec fn inverts(a: AckedView, b: AckedView) -> bool {
    a.responded_at.0 < b.invoked_at.0 && a.offset >= b.offset
}

/// Per-Partition Linearizability: acknowledged offsets are positions of the log, they
/// respect real time, and consumes stay within the log.
pub open spec fn linearizable(
    len: nat,
    acked: Seq<AckedView>,
    consumes: Seq<ConsumeView>,
) -> bool {
    &&& positioned(len, acked)
    &&& real_time(acked)
    &&& within(len, consumes)
}

pub open spec fn positioned(len: nat, acked: Seq<AckedView>) -> bool {
    forall|i: int| 0 <= i < acked.len() ==> (#[trigger] acked[i]).offset < len
}

pub open spec fn real_time(acked: Seq<AckedView>) -> bool {
    forall|i: int, j: int|
        0 <= i < acked.len() && 0 <= j < acked.len() ==> !inverts(
            #[trigger] acked[i],
            #[trigger] acked[j],
        )
}

pub open spec fn within(len: nat, consumes: Seq<ConsumeView>) -> bool {
    forall|k: int|
        0 <= k < consumes.len() ==> (#[trigger] consumes[k]).start_offset
            + consumes[k].values.len() <= len
}

/// Whether `(i, j)` is the first pair of acknowledgements that inverts real time.
pub open spec fn first_inversion(acked: Seq<AckedView>, i: int, j: int) -> bool {
    &&& 0 <= i < acked.len()
    &&& 0 <= j < acked.len()
    &&& inverts(acked[i], acked[j])
    &&& forall|x: int, y: int|
        0 <= x < i && 0 <= y < acked.len() ==> !inverts(#[trigger] acked[x], #[trigger] acked[y])
    &&& forall|y: int| 0 <= y < j ==> !inverts(acked[i], #[trigger] acked[y])
}

/// `v` reports the first thing that is wrong: an offset out of the log, else an
/// inversion of real time, else a consume that reaches beyond the log.
pub open spec fn breaks_linearizability(
    group: GroupView,
    len: nat,
    acked: Seq<AckedView>,
    consumes: Seq<ConsumeView>,
    v: ViolationView,
    now: VirtualInstant,
) -> bool {
    &&& v.property == PropertyId::PerPartitionLinearizability
    &&& v.at == now
    &&& if !positioned(len, acked) {
        exists|i: int|
            0 <= i < acked.len() && (#[trigger] acked[i]).offset >= len && positioned(
                len,
                acked.take(i),
            ) && v.detail == about(group) + "acknowledged offset "@ + text::decimal(
                acked[i].offset as nat,
            ) + " has no position in the committed log (committed len "@ + text::decimal(len)
                + ")"@
    } else if !real_time(acked) {
        exists|i: int, j: int| #[trigger]
            first_inversion(acked, i, j) && v.detail == about(group) + "produce at offset "@
                + text::decimal(acked[i].offset as nat)
                + " responded before the produce at offset "@ + text::decimal(
                acked[j].offset as nat,
            )
                + " was invoked, but holds a later-or-equal offset (real-time order violated)"@
    } else {
        exists|k: int|
            0 <= k < consumes.len() && (#[trigger] consumes[k]).start_offset
                + consumes[k].values.len() > len && within(len, consumes.take(k)) && v.detail
                == about(group) + "consume from start offset "@ + text::decimal(
                consumes[k].start_offset as nat,
            ) + " observed "@ + text::decimal(consumes[k].values.len())
                + " records reaching offset "@ + text::decimal(
                (consumes[k].start_offset + consumes[k].values.len()) as nat,
            ) + ", beyond the committed log (len "@ + text::decimal(len) + ")"@
    }
}

fn check_positions(
    group: &GroupKey,
    len: u64,
    acked: &[AckedProduce],
    now: VirtualInstant,
) -> (r: Result<(), Violation>)
    ensures
        match r {
            Ok(ok) => positioned(len as nat, acked_views(acked@)),
            Err(v) => {
                &&& !positioned(len as nat, acked_views(acked@))
                &&& forall|consumes: Seq<ConsumeView>| #[trigger]
                    breaks_linearizability(
                        group@,
                        len as nat,
                        acked_views(acked@),
                        consumes,
                        v@,
                        now,
                    )
            },
        },
{
    let ghost views = acked_views(acked@);
    let mut i: usize = 0;
    while i < acked.len()
        invariant
            i <= acked@.len(),
            views == acked_views(acked@),
            forall|k: int| 0 <= k < i ==> (#[trigger] views[k]).offset < len,
        decreases acked@.len() - i,
    {
        let a = &acked[i];
        assert(views[i as int] == a@);
        if a.offset >= len {
            let mut detail = start_detail(group);
            text::push_str(&mut detail, "acknowledged offset ");
            text::push_decimal(&mut detail, a.offset);
            text::push_str(
                &mut detail,
                " has no position in the committed log (committed len ",
            );
            text::push_decimal(&mut detail, len);
            text::push_str(&mut detail, ")");
            assert(positioned(len as nat, views.take(i as int)));
            return Err(Violation::new(PropertyId::PerPartitionLinearizability, now, detail));
        }
        i += 1;
    }
    Ok(())
}

fn check_real_time(
    group: &GroupKey,
    len: u64,
    acked: &[AckedProduce],
    now: VirtualInstant,
) -> (r: Result<(), Violation>)
    requires
        positioned(len as nat, acked_views(acked@)),
    ensures
        match r {
            Ok(ok) => real_time(acked_views(acked@)),
            Err(v) => {
                &&& !real_time(acked_views(acked@))
                &&& forall|consumes: Seq<ConsumeView>| #[trigger]
                    breaks_linearizability(
                        group@,
                        len as nat,
                        acked_views(acked@),
                        consumes,
                        v@,
                        now,
                    )
            },
        },
{
    let ghost views = acked_views(acked@);
    let mut i: usize = 0;
    while i < acked.len()
        invariant
            i <= acked@.len(),
            views == acked_views(acked@),
            positioned(len as nat, views),
            forall|x: int, y: int|
                0 <= x < i && 0 <= y < views.len() ==> !inverts(
                    #[trigger] views[x],
                    #[trigger] views[y],
                ),
        decreases acked@.len() - i,
    {
        let a = &acked[i];
        assert(views[i as int] == a@);
        let mut j: usize = 0;
        while j < acked.len()
            invariant
                j <= acked@.len(),
                i < acked@.len(),
                views == acked_views(acked@),
                positioned(len as nat, views),
                views[i as int] == a@,
                forall|x: int, y: int|
                    0 <= x < i && 0 <= y < views.len() ==> !inverts(
                        #[trigger] views[x],
                        #[trigger] views[y],
                    ),
                forall|y: int| 0 <= y < j ==> !inverts(views[i as int], #[trigger] views[y]),
            decreases acked@.len() - j,
        {
            let b = &acked[j];
            assert(views[j as int] == b@);
            if a.responded_at.0 < b.invoked_at.0 && a.offset >= b.offset {
                let mut detail = start_detail(group);
                text::push_str(&mut detail, "produce at offset ");
                text::push_decimal(&mut detail, a.offset);
                text::push_str(&mut detail, " responded before the produce at offset ");
                text::push_decimal(&mut detail, b.offset);
                text::push_str(
                    &mut detail,
                    " was invoked, but holds a later-or-equal offset (real-time order violated)",
                );
                assert(first_inversion(views, i as int, j as int));
                return Err(Violation::new(PropertyId::PerPartitionLinearizability, now, detail));
            }
            j += 1;
        }
        i += 1;
    }
    Ok(())
}

/// Check that offsets and consumes fit one order of the partition's records that
/// respects real time.
pub fn check_linearizability(
    group: &GroupKey,
    log: &CommittedLog,
    acked: &[AckedProduce],
    consumes: &[ConsumeObs],
    now: VirtualInstant,
) -> (r: Result<(), Violation>)
    requires
        forall|k: int| 0 <= k < consumes@.len() ==> (#[trigger] consumes@[k])@.fits(),
    ensures
        match r {
            Ok(ok) => linearizable(log@.len(), acked_views(acked@), consume_views(consumes@)),
            Err(v) => !linearizable(log@.len(), acked_views(acked@), consume_views(consumes@))
                && breaks_linearizability(
                group@,
                log@.len(),
                acked_views(acked@),
                consume_views(consumes@),
                v@,
                now,
            ),
        },
{
    let len: u64 = log.len() as u64;
    let ghost views = consume_views(consumes@);
    match check_positions(group, len, acked, now) {
        Ok(ok) => {},
        Err(v) => {
            assert(breaks_linearizability(
                group@,
                log@.len(),
                acked_views(acked@),
                views,
                v@,
                now,
            ));
            return Err(v);
        },
    }
    match check_real_time(group, len, acked, now) {
        Ok(ok) => {},
        Err(v) => {
            assert(breaks_linearizability(
                group@,
                log@.len(),
                acked_views(acked@),
                views,
                v@,
                now,
            ));
            return Err(v);
        },
    }
    let mut k: usize = 0;
    while k < consumes.len()
        invariant
            k <= consumes@.len(),
            views == consume_views(consumes@),
            len == log@.len(),
            positioned(len as nat, acked_views(acked@)),
            real_time(acked_views(acked@)),
            forall|x: int| 0 <= x < consumes@.len() ==> (#[trigger] consumes@[x])@.fits(),
            forall|x: int|
                0 <= x < k ==> (#[trigger] views[x]).start_offset + views[x].values.len() <= len,
        decreases consumes@.len() - k,
    {
        let c = &consumes[k];
        assert(views[k as int] == c@);
        assert(c@.fits());
        let end: u64 = c.start_offset + c.values.len() as u64;
        if end > len {
            let mut detail = start_detail(group);
            text::push_str(&mut detail, "consume from start offset ");
            text::push_decimal(&mut detail, c.start_offset);
            text::push_str(&mut detail, " observed ");
            text::push_decimal(&mut detail, c.values.len() as u64);
            text::push_str(&mut detail, " records reaching offset ");
            text::push_decimal(&mut detail, end);
            text::push_str(&mut detail, ", beyond the committed log (len ");
            text::push_decimal(&mut detail, len);
            text::push_str(&mut detail, ")");
            assert(within(len as nat, views.take(k as int)));
            return Err(Violation::new(PropertyId::PerPartitionLinearizability, now, detail));
        }
        k += 1;
    }
    Ok(())
}

/// What a catalogue says of a topic.
pub open spec fn topic_at(meta: ClusterMetadata, topic: Seq<char>) -> Option<TopicView> {
    if meta.topics@.contains_key(topic) {
        Some(meta.topics@[topic]@)
    } else {
        None
    }
}

/// Whether two catalogues differ on a topic.
pub open spec fn differ_on(a: ClusterMetadata, b: ClusterMetadata, topic: Seq<char>) -> bool {
    topic_at(a, topic) != topic_at(b, topic)
}

fn differs(a: &ClusterMetadata, b: &ClusterMetadata, topic: &String) -> (r: bool)
    requires
        a.wf(),
        b.wf(),
    ensures
        r == differ_on(*a, *b, topic@),
{
    match (a.topics.get(topic), b.topics.get(topic)) {
        (Some(x), Some(y)) => !x.same(y),
        (None, None) => false,
        _ => true,
    }
}

/// The least of `best` and the topics of `of` on which the catalogues differ.
fn least_divergence(
    a: &ClusterMetadata,
    b: &ClusterMetadata,
    of: &KeyedMap<String, crate::cluster::Topic>,
    best: Option<String>,
) -> (r: Option<String>)
    requires
        a.wf(),
        b.wf(),
        of.wf(),
        best matches Some(t) ==> differ_on(*a, *b, t@),
    ensures
        r matches Some(t) ==> differ_on(*a, *b, t@),
        best matches Some(t) ==> r is Some && !text::text_before(t@, r->0@),
        forall|t: Seq<char>| #[trigger]
            of@.contains_key(t) && differ_on(*a, *b, t) ==> r is Some && !text::text_before(
                t,
                r->0@,
            ),
{
    let mut least = best;
    let ghost items = of.items();
    proof {
        of.lemma_items();
        if best is Some {
            text::law_text_order(best->0@, best->0@, best->0@);
        }
    }
    let mut i: usize = 0;
    while i < of.len()
        invariant
            i <= items.len(),
            items == of.items(),
            a.wf(),
            b.wf(),
            least matches Some(t) ==> differ_on(*a, *b, t@),
            best matches Some(t) ==> least is Some && !text::text_before(t@, least->0@),
            forall|k: int|
                0 <= k < i && differ_on(*a, *b, (#[trigger] items[k]).0@) ==> least is Some
                    && !text::text_before(items[k].0@, least->0@),
        decreases items.len() - i,
    {
        let topic = &of.entry(i).0;
        if differs(a, b, topic) {
            let ghost prior = least;
            let take = match &least {
                Some(t) => text::is_before(topic.as_str(), t.as_str()),
                None => true,
            };
            if take {
                least = Some(topic.clone());
            }
            proof {
                let now = least->0@;
                text::law_text_order(now, now, now);
                assert forall|x: Seq<char>| prior is Some && !text::text_before(
                    x,
                    prior->0@,
                ) implies !(#[trigger] text::text_before(x, now)) by {
                    if take {
                        text::law_text_order(x, now, prior->0@);
                    }
                }
            }
        }
        i += 1;
    }
    proof {
        assert forall|t: Seq<char>| #[trigger]
            of@.contains_key(t) && differ_on(*a, *b, t) implies least is Some
            && !text::text_before(t, least->0@) by {
            let k = choose|k: int| 0 <= k < items.len() && (#[trigger] items[k]).0@ == t;
            assert(differ_on(*a, *b, items[k].0@));
        }
    }
    least
}

/// The first topic, in order, on which two catalogues differ.
pub fn first_topic_divergence(a: &ClusterMetadata, b: &ClusterMetadata) -> (r: Option<String>)
    requires
        a.wf(),
        b.wf(),
    ensures
        match r {
            Some(t) => differ_on(*a, *b, t@) && forall|x: Seq<char>| #[trigger]
                differ_on(*a, *b, x) ==> !text::text_before(x, t@),
            None => forall|x: Seq<char>| !(#[trigger] differ_on(*a, *b, x)),
        },
{
    let first = least_divergence(a, b, &a.topics, None);
    let ghost mid = first;
    let r = least_divergence(a, b, &b.topics, first);
    proof {
        assert forall|x: Seq<char>| #[trigger] differ_on(*a, *b, x) implies r is Some
            && !text::text_before(x, r->0@) by {
            if a.topics@.contains_key(x) {
                assert(mid is Some && !text::text_before(x, mid->0@));
                text::law_text_order(x, r->0@, mid->0@);
                text::law_text_order(mid->0@, r->0@, mid->0@);
            } else {
                assert(b.topics@.contains_key(x));
            }
        }
    }
    r
}

/// A node's catalogue with the metadata commit index that it reflects.
#[derive(Debug)]
pub struct CatalogueView<'a> {
    pub node: &'a NodeId,
    pub commit: u64,
    pub meta: &'a ClusterMetadata,
}

/// A node's catalogue as a mathematical value.
pub struct ServedCatalogue {
    pub node: Seq<char>,
    pub commit: u64,
    pub meta: ClusterMetadata,
}

pub open spec fn catalogues(views: Seq<CatalogueView<'_>>) -> Seq<ServedCatalogue> {
    Seq::new(
        views.len(),
        |i: int|
            ServedCatalogue {
                node: views[i].node@,
                commit: views[i].commit,
                meta: *views[i].meta,
            },
    )
}

/// Whether two catalogues reflect one commit index and differ.
pub open spec fn diverge(a: ServedCatalogue, b: ServedCatalogue) -> bool {
    a.commit == b.commit && exists|t: Seq<char>| #[trigger] differ_on(a.meta, b.meta, t)
}

/// Metadata Catalogue Convergence: catalogues that reflect one commit index agree.
pub open spec fn converged(views: Seq<ServedCatalogue>) -> bool {
    forall|i: int, j: int|
        0 <= i < j < views.len() ==> !diverge(#[trigger] views[i], #[trigger] views[j])
}

/// `i`, `j` and `t` are the first two nodes whose catalogues differ, and the first
/// topic on which they do.
pub open spec fn first_divergence(
    views: Seq<ServedCatalogue>,
    i: int,
    j: int,
    t: Seq<char>,
) -> bool {
    &&& 0 <= i < j < views.len()
    &&& views[i].commit == views[j].commit
    &&& differ_on(views[i].meta, views[j].meta, t)
    &&& forall|x: Seq<char>| #[trigger]
        differ_on(views[i].meta, views[j].meta, x) ==> !text::text_before(x, t)
    &&& forall|x: int, y: int|
        0 <= x < i && x < y < views.len() ==> !diverge(#[trigger] views[x], #[trigger] views[y])
    &&& forall|y: int| i < y < j ==> !diverge(views[i], #[trigger] views[y])
}

pub open spec fn divergence_violation(
    a: ServedCatalogue,
    b: ServedCatalogue,
    topic: Seq<char>,
    now: VirtualInstant,
) -> ViolationView {
    ViolationView {
        property: PropertyId::MetadataConvergence,
        at: now,
        detail: "nodes "@ + model::node_text(a.node) + " and "@ + model::node_text(b.node)
            + " are both at metadata commit index "@ + text::decimal(a.commit as nat)
            + " but their served catalogues differ on topic "@ + text::quoted(topic),
    }
}

/// `v` reports the first two catalogues that diverge, and the first topic on which
/// they do.
pub open spec fn breaks_convergence(
    views: Seq<ServedCatalogue>,
    v: ViolationView,
    now: VirtualInstant,
) -> bool {
    exists|i: int, j: int, t: Seq<char>| #[trigger]
        first_divergence(views, i, j, t) && v == divergence_violation(views[i], views[j], t, now)
}

/// Check that catalogues at one commit index agree.
pub fn convergence_over_views(views: &[CatalogueView<'_>], now: VirtualInstant) -> (r: Result<
    (),
    Violation,
>)
    requires
        forall|i: int| 0 <= i < views@.len() ==> (#[trigger] views@[i]).meta.wf(),
    ensures
        match r {
            Ok(ok) => converged(catalogues(views@)),
            Err(v) => !converged(catalogues(views@)) && breaks_convergence(
                catalogues(views@),
                v@,
                now,
            ),
        },
{
    let ghost all = catalogues(views@);
    let mut i: usize = 0;
    while i < views.len()
        invariant
            i <= views@.len(),
            all == catalogues(views@),
            forall|x: int| 0 <= x < views@.len() ==> (#[trigger] views@[x]).meta.wf(),
            forall|x: int, y: int|
                0 <= x < i && x < y < all.len() ==> !diverge(#[trigger] all[x], #[trigger] all[y]),
        decreases views@.len() - i,
    {
        let mut j: usize = i + 1;
        while j < views.len()
            invariant
                i < j <= views@.len(),
                all == catalogues(views@),
                forall|x: int| 0 <= x < views@.len() ==> (#[trigger] views@[x]).meta.wf(),
                forall|x: int, y: int|
                    0 <= x < i && x < y < all.len() ==> !diverge(
                        #[trigger] all[x],
                        #[trigger] all[y],
                    ),
                forall|y: int| i < y < j ==> !diverge(all[i as int], #[trigger] all[y]),
            decreases views@.len() - j,
        {
            let a = &views[i];
            let b = &views[j];
            assert(views@[i as int].meta.wf());
            assert(views@[j as int].meta.wf());
            assert(all[i as int].meta == *a.meta);
            assert(all[j as int].meta == *b.meta);
            if a.commit == b.commit {
                match first_topic_divergence(a.meta, b.meta) {
                    Some(topic) => {
                        let mut detail = "nodes ".to_owned();
                        model::push_node(&mut detail, a.node);
                        text::push_str(&mut detail, " and ");
                        model::push_node(&mut detail, b.node);
                        text::push_str(&mut detail, " are both at metadata commit index ");
                        text::push_decimal(&mut detail, a.commit);
                        text::push_str(
                            &mut detail,
                            " but their served catalogues differ on topic ",
                        );
                        text::push_quoted(&mut detail, topic.as_str());
                        proof {
                            assert(first_divergence(all, i as int, j as int, topic@));
                            assert(diverge(all[i as int], all[j as int]));
                        }
                        return Err(Violation::new(PropertyId::MetadataConvergence, now, detail));
                    },
                    None => {},
                }
            }
            j += 1;
        }
        i += 1;
    }
    Ok(())
}

/// The longest committed records of `group` on a node that is up; of equally long
/// ones, the first.
pub open spec fn longest(nodes: Seq<SimNode>, group: GroupView) -> Seq<CommittedRecordView>
    decreases nodes.len(),
{
    if nodes.len() == 0 {
        Seq::empty()
    } else {
        let best = longest(nodes.drop_last(), group);
        let node = nodes.last();
        if node.running && node.fleet@.contains_key(group) && node.fleet@[group].records@.len()
            > best.len() {
            committed_views(node.fleet@[group].records@)
        } else {
            best
        }
    }
}

fn clone_committed(records: &Vec<CommittedRecord>) -> (r: Vec<CommittedRecord>)
    ensures
        committed_views(r@) == committed_views(records@),
{
    let mut out: Vec<CommittedRecord> = Vec::new();
    let mut i: usize = 0;
    while i < records.len()
        invariant
            i <= records@.len(),
            out@.len() == i,
            forall|k: int| 0 <= k < i ==> (#[trigger] out@[k])@ == records@[k]@,
        decreases records@.len() - i,
    {
        out.push(records[i].clone());
        i += 1;
    }
    assert(committed_views(out@) =~= committed_views(records@));
    out
}

/// The committed log of `group` as the cluster shows it.
pub fn observe_committed_log<M>(cluster: &SimulatedCluster<M>, group: &GroupKey) -> (r:
    CommittedLog)
    requires
        cluster.wf(),
    ensures
        r@ == longest(cluster.nodes@, group@),
{
    let mut best: Vec<CommittedRecord> = Vec::new();
    let ghost nodes = cluster.nodes@;
    assert(nodes.take(0) =~= Seq::empty());
    assert(committed_views(best@) =~= Seq::empty());
    let mut i: usize = 0;
    while i < cluster.nodes.len()
        invariant
            i <= nodes.len(),
            nodes == cluster.nodes@,
            cluster.wf(),
            committed_views(best@) == longest(nodes.take(i as int), group@),
        decreases nodes.len() - i,
    {
        let node = &cluster.nodes[i];
        assert(nodes.take(i + 1).drop_last() =~= nodes.take(i as int));
        assert(nodes[i as int].wf(cluster.topology));
        if node.running {
            match node.fleet.get(group) {
                Some(replica) => {
                    assert(committed_views(best@).len() == best@.len());
                    if replica.records.len() > best.len() {
                        best = clone_committed(&replica.records);
                    }
                },
                None => {},
            }
        }
        i += 1;
    }
    assert(nodes.take(i as int) =~= nodes);
    CommittedLog::from_records(best)
}

/// The catalogues of the nodes that are up and have committed metadata, in order.
pub open spec fn served_catalogues(nodes: Seq<SimNode>) -> Seq<ServedCatalogue>
    decreases nodes.len(),
{
    if nodes.len() == 0 {
        Seq::empty()
    } else {
        let rest = served_catalogues(nodes.drop_last());
        let node = nodes.last();
        match meta_commit(node) {
            Some(commit) => rest.push(
                ServedCatalogue { node: node.id@, commit, meta: node.served },
            ),
            None => rest,
        }
    }
}

/// The metadata commit index of a node that is up.
pub open spec fn meta_commit(node: SimNode) -> Option<u64> {
    if node.running && node.controller is Some {
        node.controller->0.commit_index
    } else {
        None
    }
}

/// Whether the history speaks of partition `g`.
pub open spec fn mentions(ops: Seq<RecordedOp>, g: GroupView) -> bool {
    exists|i: int| 0 <= i < ops.len() && (#[trigger] ops[i]).on_partition(g.0, g.1)
}

/// Whether partition `g` is to be checked: the history speaks of it, and its topic was
/// not deleted.
pub open spec fn checked(ops: Seq<RecordedOp>, g: GroupView) -> bool {
    mentions(ops, g) && !deletes(ops, g.0)
}

/// What the checks of one partition look at.
pub struct PartitionView {
    pub log: Seq<CommittedRecordView>,
    pub acked: Seq<AckedView>,
    pub consumes: Seq<ConsumeView>,
}

pub open spec fn partition_of(nodes: Seq<SimNode>, ops: Seq<RecordedOp>, g: GroupView) -> PartitionView {
    PartitionView {
        log: longest(nodes, g),
        acked: acked_in(ops, g.0, g.1),
        consumes: consumes_in(ops, g.0, g.1),
    }
}

/// Whether every property of a partition holds.
pub open spec fn sound(p: PartitionView) -> bool {
    &&& durable(p.log, p.acked)
    &&& contiguous(p.log)
    &&& unambiguous(p.acked)
    &&& reads_valid(p.log, p.consumes)
    &&& linearizable(p.log.len(), p.acked, p.consumes)
}

/// `v` reports the first property of a partition that does not hold.
pub open spec fn unsound(p: PartitionView, g: GroupView, v: ViolationView, now: VirtualInstant) -> bool {
    if !durable(p.log, p.acked) {
        breaks_durability(g, p.log, p.acked, v, now)
    } else if !(contiguous(p.log) && unambiguous(p.acked)) {
        breaks_integrity(g, p.log, p.acked, v, now)
    } else if !reads_valid(p.log, p.consumes) {
        breaks_reads(g, p.log, p.consumes, v, now)
    } else {
        &&& !linearizable(p.log.len(), p.acked, p.consumes)
        &&& breaks_linearizability(g, p.log.len(), p.acked, p.consumes, v, now)
    }
}

/// Whether every successful consume ends at an offset that is a number.
pub open spec fn consumes_fit(ops: Seq<RecordedOp>) -> bool {
    forall|i: int|
        0 <= i < ops.len() ==> ((#[trigger] ops[i]).response matches OpResponse::ConsumeOk {
            start_offset,
            records,
            ..
        } ==> start_offset + records@.len() <= u64::MAX)
}

/// An operation that is no consume leaves consumes within the range of offsets, wherever
/// it is put.
pub proof fn lemma_consumes_fit_with(ops: Seq<RecordedOp>, p: int, op: RecordedOp)
    requires
        consumes_fit(ops),
        0 <= p <= ops.len(),
        op.response !is ConsumeOk,
    ensures
        consumes_fit(ops.insert(p, op)),
{
    let after = ops.insert(p, op);
    assert forall|i: int| 0 <= i < after.len() implies ((
    #[trigger] after[i]).response matches OpResponse::ConsumeOk { start_offset, records, .. }
        ==> start_offset + records@.len() <= u64::MAX) by {
        if i < p {
            assert(after[i] == ops[i]);
        } else if i > p {
            assert(after[i] == ops[i - 1]);
        }
    }
}

proof fn lemma_consumes_fit(ops: Seq<RecordedOp>, topic: Seq<char>, partition: PartitionIndex)
    requires
        consumes_fit(ops),
    ensures
        forall|k: int|
            0 <= k < consumes_in(ops, topic, partition).len() ==> (#[trigger] consumes_in(
                ops,
                topic,
                partition,
            )[k]).fits(),
    decreases ops.len(),
{
    if ops.len() > 0 {
        let rest = ops.drop_last();
        assert forall|i: int| 0 <= i < rest.len() implies ((
        #[trigger] rest[i]).response matches OpResponse::ConsumeOk { start_offset, records, .. }
            ==> start_offset + records@.len() <= u64::MAX) by {
            assert(rest[i] == ops[i]);
        }
        lemma_consumes_fit(rest, topic, partition);
        let before = consumes_in(rest, topic, partition);
        let after = consumes_in(ops, topic, partition);
        assert forall|k: int| 0 <= k < after.len() implies (#[trigger] after[k]).fits() by {
            if k < before.len() {
                assert(after[k] == before[k]);
            } else {
                assert(ops[ops.len() - 1] == ops.last());
            }
        }
    }
}

/// What checking the cluster against its clients' history comes to.
pub open spec fn parity_verdict(
    nodes: Seq<SimNode>,
    ops: Seq<RecordedOp>,
    r: Result<(), Violation>,
    now: VirtualInstant,
) -> bool {
    match r {
        Ok(ok) => {
            &&& forall|g: GroupView| #[trigger]
                checked(ops, g) ==> sound(
                    partition_of(nodes, ops, g),
                )
            &&& converged(served_catalogues(nodes))
        },
        Err(v) => {
            ||| exists|g: GroupView| #[trigger]
                checked(ops, g) && !sound(
                    partition_of(nodes, ops, g),
                ) && unsound(
                    partition_of(nodes, ops, g),
                    g,
                    v@,
                    now,
                ) && forall|q: GroupView| #[trigger]
                    checked(ops, q) && model::group_before(q, g) ==> sound(
                        partition_of(nodes, ops, q),
                    )
            ||| (forall|g: GroupView| #[trigger]
                checked(ops, g) ==> sound(
                    partition_of(nodes, ops, g),
                )) && !converged(served_catalogues(nodes)) && breaks_convergence(
                served_catalogues(nodes),
                v@,
                now,
            )
        },
    }
}

/// The checker of what clients were told.
#[derive(Clone, Copy, Debug)]
pub struct KafkaParityChecker;

impl Default for KafkaParityChecker {
    fn default() -> (r: Self)
        ensures
            r == KafkaParityChecker,
    {
        KafkaParityChecker
    }
}

impl KafkaParityChecker {
    pub fn new() -> (r: Self)
        ensures
            r == KafkaParityChecker,
    {
        KafkaParityChecker
    }

    /// Run every check of one partition.
    fn check_partition<M>(
        &self,
        cluster: &SimulatedCluster<M>,
        history: &History,
        group: &GroupKey,
        now: VirtualInstant,
    ) -> (r: Result<(), Violation>)
        requires
            cluster.wf(),
            consumes_fit(history.ops@),
        ensures
            match r {
                Ok(ok) => sound(partition_of(cluster.nodes@, history.ops@, group@)),
                Err(v) => !sound(partition_of(cluster.nodes@, history.ops@, group@)) && unsound(
                    partition_of(cluster.nodes@, history.ops@, group@),
                    group@,
                    v@,
                    now,
                ),
            },
    {
        let log = observe_committed_log(cluster, group);
        let acked = acked_produces(history, group.0.as_str(), group.1);
        let consumes = consume_observations(history, group.0.as_str(), group.1);
        proof {
            lemma_consumes_fit(history.ops@, group.0@, group.1);
            assert forall|k: int| 0 <= k < consumes@.len() implies (
            #[trigger] consumes@[k])@.fits() by {
                assert(consume_views(consumes@)[k] == consumes@[k]@);
            }
        }
        match check_durability(group, &log, acked.as_slice(), now) {
            Ok(ok) => {},
            Err(v) => {
                return Err(v);
            },
        }
        match check_offset_integrity(group, &log, acked.as_slice(), now) {
            Ok(ok) => {},
            Err(v) => {
                return Err(v);
            },
        }
        match check_consume_validity(group, &log, consumes.as_slice(), now) {
            Ok(ok) => {},
            Err(v) => {
                return Err(v);
            },
        }
        check_linearizability(group, &log, acked.as_slice(), consumes.as_slice(), now)
    }

    /// Check every partition that the history speaks of, in the order of their keys,
    /// and then the catalogues. Partitions of deleted topics are let pass.
    pub fn check<M>(
        &self,
        cluster: &SimulatedCluster<M>,
        history: &History,
        now: VirtualInstant,
    ) -> (r: Result<(), Violation>)
        requires
            cluster.wf(),
            consumes_fit(history.ops@),
        ensures
            parity_verdict(cluster.nodes@, history.ops@, r, now),
    {
        let ghost ops = history.ops@;
        let ghost nodes = cluster.nodes@;
        let deleted = deleted_topics(history);
        let mut worst: Option<(GroupKey, Violation)> = None;
        let mut i: usize = 0;
        while i < history.ops.len()
            invariant
                i <= ops.len(),
                ops == history.ops@,
                nodes == cluster.nodes@,
                cluster.wf(),
                consumes_fit(ops),
                deleted.wf(),
                forall|t: Seq<char>| #[trigger] deleted@.contains_key(t) == deletes(ops, t),
                worst matches Some((g, v)) ==> checked(ops, g@) && !sound(
                    partition_of(nodes, ops, g@),
                ) && unsound(partition_of(nodes, ops, g@), g@, v@, now),
                forall|k: int, g: GroupView|
                    #![trigger ops[k].on_partition(g.0, g.1), checked(ops, g)]
                    0 <= k < i && ops[k].on_partition(g.0, g.1) && checked(ops, g) && !sound(
                        partition_of(nodes, ops, g),
                    ) ==> worst is Some && !model::group_before(g, (worst->0).0@),
            decreases ops.len() - i,
        {
            let op = &history.ops[i];
            match op.partition() {
                Some(partition) => {
                    let group: GroupKey = (op.topic().to_owned(), partition);
                    let ghost g = group@;
                    assert(op.on_partition(g.0, g.1));
                    assert forall|h: GroupView| #[trigger]
                        ops[i as int].on_partition(h.0, h.1) implies h == g by {}
                    let skip = match &worst {
                        Some((w, v)) => !model::is_group_before(&group, w),
                        None => false,
                    };
                    if !deleted.contains(&group.0) && !skip {
                        assert(mentions(ops, g));
                        assert(checked(ops, g));
                        match self.check_partition(cluster, history, &group, now) {
                            Ok(ok) => {},
                            Err(v) => {
                                let ghost prior = worst;
                                worst = Some((group, v));
                                proof {
                                    model::law_group_order(g, g, g);
                                    assert forall|h: GroupView| prior is Some
                                        && !model::group_before(h, (prior->0).0@) implies !(
                                    #[trigger] model::group_before(h, g)) by {
                                        model::law_group_order(h, g, (prior->0).0@);
                                    }
                                }
                            },
                        }
                    }
                },
                None => {},
            }
            i += 1;
        }
        proof {
            assert forall|g: GroupView| #[trigger] checked(ops, g) && !sound(
                partition_of(nodes, ops, g),
            ) implies worst is Some && !model::group_before(g, (worst->0).0@) by {
                let k = choose|k: int| 0 <= k < ops.len() && (#[trigger] ops[k]).on_partition(
                    g.0,
                    g.1,
                );
                assert(ops[k].on_partition(g.0, g.1));
            }
        }
        match worst {
            Some((g, v)) => {
                return Err(v);
            },
            None => {},
        }
        self.check_convergence(cluster, now)
    }

    /// Check that nodes at one metadata commit index serve one catalogue.
    pub fn check_convergence<M>(&self, cluster: &SimulatedCluster<M>, now: VirtualInstant) -> (r:
        Result<(), Violation>)
        requires
            cluster.wf(),
        ensures
            match r {
                Ok(ok) => converged(served_catalogues(cluster.nodes@)),
                Err(v) => !converged(served_catalogues(cluster.nodes@)) && breaks_convergence(
                    served_catalogues(cluster.nodes@),
                    v@,
                    now,
                ),
            },
    {
        let mut views: Vec<CatalogueView<'_>> = Vec::new();
        let ghost nodes = cluster.nodes@;
        assert(nodes.take(0) =~= Seq::empty());
        assert(catalogues(views@) =~= Seq::empty());
        let mut i: usize = 0;
        while i < cluster.nodes.len()
            invariant
                i <= nodes.len(),
                nodes == cluster.nodes@,
                cluster.wf(),
                catalogues(views@) == served_catalogues(nodes.take(i as int)),
                forall|k: int| 0 <= k < views@.len() ==> (#[trigger] views@[k]).meta.wf(),
            decreases nodes.len() - i,
        {
            let node = &cluster.nodes[i];
            let ghost before = catalogues(views@);
            assert(nodes.take(i + 1).drop_last() =~= nodes.take(i as int));
            assert(nodes[i as int].wf(cluster.topology));
            if node.running {
                match &node.controller {
                    Some(state) => match state.commit_index {
                        Some(commit) => {
                            let view = CatalogueView {
                                node: &node.id,
                                commit,
                                meta: &node.served,
                            };
                            views.push(view);
                            assert(catalogues(views@) =~= before.push(
                                ServedCatalogue { node: node.id@, commit, meta: node.served },
                            ));
                        },
                        None => {},
                    },
                    None => {},
                }
            }
            i += 1;
        }
        assert(nodes.take(i as int) =~= nodes);
        convergence_over_views(views.as_slice(), now)
    }
}

/// In a contiguous log, a record's offset is its position, and looking an offset up
/// gives the record there.
pub proof fn law_contiguous_lookup(log: Seq<CommittedRecordView>, offset: Offset)
    requires
        contiguous(log),
    ensures
        value_in(log, offset) == (if offset < log.len() {
            Some(log[offset as int].value)
        } else {
            None
        }),
{
    if offset < log.len() {
        assert forall|k: int| 0 <= k < offset implies (#[trigger] log[k]).offset != offset by {}
        lemma_value_in(log, offset, offset as int);
    } else {
        assert forall|k: int| 0 <= k < log.len() implies (#[trigger] log[k]).offset != offset by {}
        lemma_value_in(log, offset, log.len() as int);
    }
}

/// What the checks of a partition look at decides what they report.
pub proof fn law_partition_checks_are_decided(
    p: PartitionView,
    g: GroupView,
    v: ViolationView,
    w: ViolationView,
    now: VirtualInstant,
)
    requires
        unsound(p, g, v, now),
        unsound(p, g, w, now),
    ensures
        v == w,
{
    if !durable(p.log, p.acked) {
        let i = choose|i: int|
            0 <= i < p.acked.len() && lost(p.log, #[trigger] p.acked[i]) && durable(
                p.log,
                p.acked.take(i),
            ) && v == durability_violation(g, p.log, p.acked[i], now);
        let j = choose|i: int|
            0 <= i < p.acked.len() && lost(p.log, #[trigger] p.acked[i]) && durable(
                p.log,
                p.acked.take(i),
            ) && w == durability_violation(g, p.log, p.acked[i], now);
        if i < j {
            assert(p.acked.take(j)[i] == p.acked[i]);
        } else if j < i {
            assert(p.acked.take(i)[j] == p.acked[j]);
        }
    } else if !(contiguous(p.log) && unambiguous(p.acked)) {
        lemma_integrity_decided(p, g, v, w, now);
    } else if !reads_valid(p.log, p.consumes) {
        let (k, i) = choose|k: int, i: int|
            0 <= k < p.consumes.len() && 0 <= i < p.consumes[k].values.len() && #[trigger] misread(
                p.log,
                p.consumes[k],
                i,
            ) && reads_valid(p.log, p.consumes.take(k)) && (forall|j: int|
                0 <= j < i ==> !(#[trigger] misread(p.log, p.consumes[k], j))) && v
                == misread_violation(g, p.log, p.consumes[k], i, now);
        let (l, j) = choose|k: int, i: int|
            0 <= k < p.consumes.len() && 0 <= i < p.consumes[k].values.len() && #[trigger] misread(
                p.log,
                p.consumes[k],
                i,
            ) && reads_valid(p.log, p.consumes.take(k)) && (forall|j: int|
                0 <= j < i ==> !(#[trigger] misread(p.log, p.consumes[k], j))) && w
                == misread_violation(g, p.log, p.consumes[k], i, now);
        if k < l {
            assert(p.consumes.take(l)[k] == p.consumes[k]);
        } else if l < k {
            assert(p.consumes.take(k)[l] == p.consumes[l]);
        }
        assert(k == l);
        assert(i == j);
    } else {
        lemma_linearizability_decided(p, g, v, w, now);
    }
}

proof fn lemma_integrity_decided(
    p: PartitionView,
    g: GroupView,
    v: ViolationView,
    w: ViolationView,
    now: VirtualInstant,
)
    requires
        breaks_integrity(g, p.log, p.acked, v, now),
        breaks_integrity(g, p.log, p.acked, w, now),
    ensures
        v == w,
{
    let log = p.log;
    let acked = p.acked;
    if !contiguous(log) {
        let i = choose|i: int|
            0 <= i < log.len() && (#[trigger] log[i]).offset != i && contiguous(log.take(i))
                && v.detail == about(g)
                + "committed offsets are not contiguous from 0 — expected offset "@ + text::decimal(
                i as nat,
            ) + ", found "@ + text::decimal(log[i].offset as nat);
        let j = choose|i: int|
            0 <= i < log.len() && (#[trigger] log[i]).offset != i && contiguous(log.take(i))
                && w.detail == about(g)
                + "committed offsets are not contiguous from 0 — expected offset "@ + text::decimal(
                i as nat,
            ) + ", found "@ + text::decimal(log[i].offset as nat);
        if i < j {
            assert(log.take(j)[i] == log[i]);
        } else if j < i {
            assert(log.take(i)[j] == log[j]);
        }
    } else {
        let i = choose|j: int|
            0 <= j < acked.len() && #[trigger] reuses_offset(acked, j) && (forall|k: int|
                0 <= k < j ==> !(#[trigger] reuses_offset(acked, k))) && v.detail == about(g)
                + "offset "@ + text::decimal(acked[j].offset as nat)
                + " was acknowledged for two distinct records"@;
        let j = choose|j: int|
            0 <= j < acked.len() && #[trigger] reuses_offset(acked, j) && (forall|k: int|
                0 <= k < j ==> !(#[trigger] reuses_offset(acked, k))) && w.detail == about(g)
                + "offset "@ + text::decimal(acked[j].offset as nat)
                + " was acknowledged for two distinct records"@;
        assert(i == j);
    }
}

proof fn lemma_linearizability_decided(
    p: PartitionView,
    g: GroupView,
    v: ViolationView,
    w: ViolationView,
    now: VirtualInstant,
)
    requires
        breaks_linearizability(g, p.log.len(), p.acked, p.consumes, v, now),
        breaks_linearizability(g, p.log.len(), p.acked, p.consumes, w, now),
    ensures
        v == w,
{
    let len = p.log.len();
    let acked = p.acked;
    let consumes = p.consumes;
    if !positioned(len, acked) {
        let i = choose|i: int|
            0 <= i < acked.len() && (#[trigger] acked[i]).offset >= len && positioned(
                len,
                acked.take(i),
            ) && v.detail == about(g) + "acknowledged offset "@ + text::decimal(
                acked[i].offset as nat,
            ) + " has no position in the committed log (committed len "@ + text::decimal(len)
                + ")"@;
        let j = choose|i: int|
            0 <= i < acked.len() && (#[trigger] acked[i]).offset >= len && positioned(
                len,
                acked.take(i),
            ) && w.detail == about(g) + "acknowledged offset "@ + text::decimal(
                acked[i].offset as nat,
            ) + " has no position in the committed log (committed len "@ + text::decimal(len)
                + ")"@;
        if i < j {
            assert(acked.take(j)[i] == acked[i]);
        } else if j < i {
            assert(acked.take(i)[j] == acked[j]);
        }
    } else if !real_time(acked) {
        let (i, j) = choose|i: int, j: int| #[trigger]
            first_inversion(acked, i, j) && v.detail == about(g) + "produce at offset "@
                + text::decimal(acked[i].offset as nat)
                + " responded before the produce at offset "@ + text::decimal(
                acked[j].offset as nat,
            )
                + " was invoked, but holds a later-or-equal offset (real-time order violated)"@;
        let (k, l) = choose|i: int, j: int| #[trigger]
            first_inversion(acked, i, j) && w.detail == about(g) + "produce at offset "@
                + text::decimal(acked[i].offset as nat)
                + " responded before the produce at offset "@ + text::decimal(
                acked[j].offset as nat,
            )
                + " was invoked, but holds a later-or-equal offset (real-time order violated)"@;
        assert(inverts(acked[i], acked[j]) && inverts(acked[k], acked[l]));
        assert(i == k);
        assert(j == l);
    } else {
        let i = choose|k: int|
            0 <= k < consumes.len() && (#[trigger] consumes[k]).start_offset
                + consumes[k].values.len() > len && within(len, consumes.take(k)) && v.detail
                == about(g) + "consume from start offset "@ + text::decimal(
                consumes[k].start_offset as nat,
            ) + " observed "@ + text::decimal(consumes[k].values.len())
                + " records reaching offset "@ + text::decimal(
                (consumes[k].start_offset + consumes[k].values.len()) as nat,
            ) + ", beyond the committed log (len "@ + text::decimal(len) + ")"@;
        let j = choose|k: int|
            0 <= k < consumes.len() && (#[trigger] consumes[k]).start_offset
                + consumes[k].values.len() > len && within(len, consumes.take(k)) && w.detail
                == about(g) + "consume from start offset "@ + text::decimal(
                consumes[k].start_offset as nat,
            ) + " observed "@ + text::decimal(consumes[k].values.len())
                + " records reaching offset "@ + text::decimal(
                (consumes[k].start_offset + consumes[k].values.len()) as nat,
            ) + ", beyond the committed log (len "@ + text::decimal(len) + ")"@;
        if i < j {
            assert(consumes.take(j)[i] == consumes[i]);
        } else if j < i {
            assert(consumes.take(i)[j] == consumes[j]);
        }
    }
}

/// There is but one first divergence.
pub proof fn lemma_divergence_once(
    views: Seq<ServedCatalogue>,
    i: int,
    j: int,
    t: Seq<char>,
    k: int,
    l: int,
    u: Seq<char>,
)
    requires
        first_divergence(views, i, j, t),
        first_divergence(views, k, l, u),
    ensures
        i == k,
        j == l,
        t == u,
{
    assert(diverge(views[i], views[j]));
    assert(diverge(views[k], views[l]));
    assert(i == k);
    assert(j == l);
    text::law_text_order(t, u, t);
}

} // verus!
