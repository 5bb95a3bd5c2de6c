//! The record of every client operation of a run, in the order of their invocations.
//!
//! Operations are answered in another order than they are invoked in. One that is
//! answered at once is appended; one that is answered later takes its place among those
//! recorded meanwhile.

use crate::model::{self, NodeId, Offset, PartitionIndex, Record};
use crate::scheduler::VirtualInstant;
use vstd::prelude::*;

verus! {

/// What a client operation does.
#[derive(Clone, Copy, Debug, PartialEq, Eq, Hash, Structural)]
pub enum OpKind {
    CreateTopic,
    DeleteTopic,
    Produce,
    Consume,
}

/// What a client asked for.
#[derive(Debug, PartialEq, Eq)]
pub enum OpArgs {
    CreateTopic { topic: String, partitions: u32, replication_factor: u32 },
    DeleteTopic { topic: String },
    Produce {
        topic: String,
        partition: PartitionIndex,
        key: Option<Vec<u8>>,
        value: Vec<u8>,
    },
    Consume { topic: String, partition: PartitionIndex, start_offset: Offset, max_records: u32 },
}

/// What a client asked for, as a mathematical value.
pub enum OpArgsView {
    CreateTopic { topic: Seq<char>, partitions: u32, replication_factor: u32 },
    DeleteTopic { topic: Seq<char> },
    Produce {
        topic: Seq<char>,
        partition: PartitionIndex,
        key: Option<Seq<u8>>,
        value: Seq<u8>,
    },
    Consume { topic: Seq<char>, partition: PartitionIndex, start_offset: Offset, max_records: u32 },
}

impl View for OpArgs {
    type V = OpArgsView;

    open spec fn view(&self) -> OpArgsView {
        match self {
            OpArgs::CreateTopic { topic, partitions, replication_factor } => {
                OpArgsView::CreateTopic {
                    topic: topic@,
                    partitions: *partitions,
                    replication_factor: *replication_factor,
                }
            },
            OpArgs::DeleteTopic { topic } => OpArgsView::DeleteTopic { topic: topic@ },
            OpArgs::Produce { topic, partition, key, value } => OpArgsView::Produce {
                topic: topic@,
                partition: *partition,
                key: model::optional_bytes(*key),
                value: value@,
            },
            OpArgs::Consume { topic, partition, start_offset, max_records } => {
                OpArgsView::Consume {
                    topic: topic@,
                    partition: *partition,
                    start_offset: *start_offset,
                    max_records: *max_records,
                }
            },
        }
    }
}

impl Clone for OpArgs {
    fn clone(&self) -> (r: Self)
        ensures
            r@ == self@,
    {
        match self {
            OpArgs::CreateTopic { topic, partitions, replication_factor } => OpArgs::CreateTopic {
                topic: topic.clone(),
                partitions: *partitions,
                replication_factor: *replication_factor,
            },
            OpArgs::DeleteTopic { topic } => OpArgs::DeleteTopic { topic: topic.clone() },
            OpArgs::Produce { topic, partition, key, value } => OpArgs::Produce {
                topic: topic.clone(),
                partition: *partition,
                key: model::clone_optional_bytes(key),
                value: model::clone_bytes(value.as_slice()),
            },
            OpArgs::Consume { topic, partition, start_offset, max_records } => OpArgs::Consume {
                topic: topic.clone(),
                partition: *partition,
                start_offset: *start_offset,
                max_records: *max_records,
            },
        }
    }
}

impl OpArgs {
    pub open spec fn op_kind(self) -> OpKind {
        match self {
            OpArgs::CreateTopic { .. } => OpKind::CreateTopic,
            OpArgs::DeleteTopic { .. } => OpKind::DeleteTopic,
            OpArgs::Produce { .. } => OpKind::Produce,
            OpArgs::Consume { .. } => OpKind::Consume,
        }
    }

    pub open spec fn topic_text(self) -> Seq<char> {
        match self {
            OpArgs::CreateTopic { topic, .. } => topic@,
            OpArgs::DeleteTopic { topic } => topic@,
            OpArgs::Produce { topic, .. } => topic@,
            OpArgs::Consume { topic, .. } => topic@,
        }
    }

    pub open spec fn partition_index(self) -> Option<PartitionIndex> {
        match self {
            OpArgs::Produce { partition, .. } => Some(partition),
            OpArgs::Consume { partition, .. } => Some(partition),
            _ => None,
        }
    }

    pub fn kind(&self) -> (r: OpKind)
        ensures
            r == self.op_kind(),
    {
        match self {
            OpArgs::CreateTopic { .. } => OpKind::CreateTopic,
            OpArgs::DeleteTopic { .. } => OpKind::DeleteTopic,
            OpArgs::Produce { .. } => OpKind::Produce,
            OpArgs::Consume { .. } => OpKind::Consume,
        }
    }

    /// The topic that the operation is about.
    pub fn topic(&self) -> (r: &str)
        ensures
            r@ == self.topic_text(),
    {
        match self {
            OpArgs::CreateTopic { topic, .. } => topic.as_str(),
            OpArgs::DeleteTopic { topic } => topic.as_str(),
            OpArgs::Produce { topic, .. } => topic.as_str(),
            OpArgs::Consume { topic, .. } => topic.as_str(),
        }
    }

    /// The partition that the operation is about, if it is about one.
    pub fn partition(&self) -> (r: Option<PartitionIndex>)
        ensures
            r == self.partition_index(),
    {
        match self {
            OpArgs::Produce { partition, .. } => Some(*partition),
            OpArgs::Consume { partition, .. } => Some(*partition),
            OpArgs::CreateTopic { .. } => None,
            OpArgs::DeleteTopic { .. } => None,
        }
    }
}

/// What a client was answered.
#[derive(Debug, PartialEq, Eq)]
pub enum OpResponse {
    ProduceOk { topic: String, partition: PartitionIndex, value: Vec<u8>, offset: Offset },
    ConsumeOk {
        topic: String,
        partition: PartitionIndex,
        start_offset: Offset,
        records: Vec<Record>,
    },
    CreateTopicOk { topic: String },
    DeleteTopicOk { topic: String },
    Redirect { leader: NodeId },
    UnresolvedRedirection,
    NoLeader,
    IoError { message: String },
    Error { message: String },
}

/// The records of a list, as mathematical values.
pub open spec fn record_views(records: Seq<Record>) -> Seq<model::RecordView> {
    Seq::new(records.len(), |i: int| records[i]@)
}

/// What a client was answered, as a mathematical value.
#[verifier::ext_equal]
pub enum OpResponseView {
    ProduceOk { topic: Seq<char>, partition: PartitionIndex, value: Seq<u8>, offset: Offset },
    ConsumeOk {
        topic: Seq<char>,
        partition: PartitionIndex,
        start_offset: Offset,
        records: Seq<model::RecordView>,
    },
    CreateTopicOk { topic: Seq<char> },
    DeleteTopicOk { topic: Seq<char> },
    Redirect { leader: Seq<char> },
    UnresolvedRedirection,
    NoLeader,
    IoError { message: Seq<char> },
    Error { message: Seq<char> },
}

impl View for OpResponse {
    type V = OpResponseView;

    open spec fn view(&self) -> OpResponseView {
        match self {
            OpResponse::ProduceOk { topic, partition, value, offset } => {
                OpResponseView::ProduceOk {
                    topic: topic@,
                    partition: *partition,
                    value: value@,
                    offset: *offset,
                }
            },
            OpResponse::ConsumeOk { topic, partition, start_offset, records } => {
                OpResponseView::ConsumeOk {
                    topic: topic@,
                    partition: *partition,
                    start_offset: *start_offset,
                    records: record_views(records@),
                }
            },
            OpResponse::CreateTopicOk { topic } => OpResponseView::CreateTopicOk { topic: topic@ },
            OpResponse::DeleteTopicOk { topic } => OpResponseView::DeleteTopicOk { topic: topic@ },
            OpResponse::Redirect { leader } => OpResponseView::Redirect { leader: leader@ },
            OpResponse::UnresolvedRedirection => OpResponseView::UnresolvedRedirection,
            OpResponse::NoLeader => OpResponseView::NoLeader,
            OpResponse::IoError { message } => OpResponseView::IoError { message: message@ },
            OpResponse::Error { message } => OpResponseView::Error { message: message@ },
        }
    }
}

fn clone_records(records: &Vec<Record>) -> (r: Vec<Record>)
    ensures
        record_views(r@) == record_views(records@),
{
    let mut out: Vec<Record> = Vec::new();
    let mut i: usize = 0;
    while i < records.len()
        invariant
            i <= records@.len(),
            out@.len() == i,
            forall|k: int| 0 <= k < i ==> (#[trigger] out@[k])@ == records@[k]@,
        decreases records@.len() - i,
    {
        out.push(records[i].clone());
        i += 1;
    }
    assert(record_views(out@) =~= record_views(records@));
    out
}

impl Clone for OpResponse {
    fn clone(&self) -> (r: Self)
        ensures
            r@ == self@,
    {
        match self {
            OpResponse::ProduceOk { topic, partition, value, offset } => OpResponse::ProduceOk {
                topic: topic.clone(),
                partition: *partition,
                value: model::clone_bytes(value.as_slice()),
                offset: *offset,
            },
            OpResponse::ConsumeOk { topic, partition, start_offset, records } => {
                OpResponse::ConsumeOk {
                    topic: topic.clone(),
                    partition: *partition,
                    start_offset: *start_offset,
                    records: clone_records(records),
                }
            },
            OpResponse::CreateTopicOk { topic } => OpResponse::CreateTopicOk {
                topic: topic.clone(),
            },
            OpResponse::DeleteTopicOk { topic } => OpResponse::DeleteTopicOk {
                topic: topic.clone(),
            },
            OpResponse::Redirect { leader } => OpResponse::Redirect { leader: leader.clone() },
            OpResponse::UnresolvedRedirection => OpResponse::UnresolvedRedirection,
            OpResponse::NoLeader => OpResponse::NoLeader,
            OpResponse::IoError { message } => OpResponse::IoError { message: message.clone() },
            OpResponse::Error { message } => OpResponse::Error { message: message.clone() },
        }
    }
}

/// One client operation with its response.
#[derive(Debug, PartialEq, Eq)]
pub struct RecordedOp {
    pub kind: OpKind,
    pub args: OpArgs,
    pub invoked_at: VirtualInstant,
    pub responded_at: VirtualInstant,
    pub response: OpResponse,
}

/// A recorded operation as a mathematical value.
#[verifier::ext_equal]
pub struct RecordedOpView {
    pub kind: OpKind,
    pub args: OpArgsView,
    pub invoked_at: VirtualInstant,
    pub responded_at: VirtualInstant,
    pub response: OpResponseView,
}

impl View for RecordedOp {
    type V = RecordedOpView;

    open spec fn view(&self) -> RecordedOpView {
        RecordedOpView {
            kind: self.kind,
            args: self.args@,
            invoked_at: self.invoked_at,
            responded_at: self.responded_at,
            response: self.response@,
        }
    }
}

impl Clone for RecordedOp {
    fn clone(&self) -> (r: Self)
        ensures
            r@ == self@,
    {
        RecordedOp {
            kind: self.kind,
            args: self.args.clone(),
            invoked_at: self.invoked_at,
            responded_at: self.responded_at,
            response: self.response.clone(),
        }
    }
}

impl RecordedOp {
    /// The record of `args`, with the kind that they have.
    pub open spec fn of(
        args: OpArgs,
        invoked_at: VirtualInstant,
        responded_at: VirtualInstant,
        response: OpResponse,
    ) -> RecordedOp {
        RecordedOp { kind: args.op_kind(), args, invoked_at, responded_at, response }
    }

    pub fn new(
        args: OpArgs,
        invoked_at: VirtualInstant,
        responded_at: VirtualInstant,
        response: OpResponse,
    ) -> (r: Self)
        ensures
            r == RecordedOp::of(args, invoked_at, responded_at, response),
    {
        RecordedOp { kind: args.kind(), args, invoked_at, responded_at, response }
    }

    pub fn topic(&self) -> (r: &str)
        ensures
            r@ == self.args.topic_text(),
    {
        self.args.topic()
    }

    pub fn partition(&self) -> (r: Option<PartitionIndex>)
        ensures
            r == self.args.partition_index(),
    {
        self.args.partition()
    }

    /// Whether the operation is about `topic`.
    pub open spec fn on_topic(self, topic: Seq<char>) -> bool {
        self.args.topic_text() == topic
    }

    /// Whether the operation is about `partition` of `topic`.
    pub open spec fn on_partition(self, topic: Seq<char>, partition: PartitionIndex) -> bool {
        self.args.topic_text() == topic && self.args.partition_index() == Some(partition)
    }

    pub fn is_on_topic(&self, topic: &str) -> (r: bool)
        ensures
            r == self.on_topic(topic@),
    {
        same_text(self.topic(), topic)
    }

    pub fn is_on_partition(&self, topic: &str, partition: PartitionIndex) -> (r: bool)
        ensures
            r == self.on_partition(topic@, partition),
    {
        match self.partition() {
            Some(p) => p.0 == partition.0 && same_text(self.topic(), topic),
            None => false,
        }
    }
}

/// Whether two texts are equal.
pub fn same_text(a: &str, b: &str) -> (r: bool)
    ensures
        r == (a@ == b@),
{
    a.to_owned() == b.to_owned()
}

/// The client operations of a run, in the order of their invocations.
#[derive(Debug, PartialEq, Eq)]
pub struct History {
    pub ops: Vec<RecordedOp>,
}

/// The operations of `ops` that are about `topic`, in order.
pub open spec fn on_topic(ops: Seq<RecordedOp>, topic: Seq<char>) -> Seq<RecordedOp>
    decreases ops.len(),
{
    if ops.len() == 0 {
        Seq::empty()
    } else if ops.last().on_topic(topic) {
        on_topic(ops.drop_last(), topic).push(ops.last())
    } else {
        on_topic(ops.drop_last(), topic)
    }
}

/// The operations of `ops` that are about `partition` of `topic`, in order.
pub open spec fn on_partition(
    ops: Seq<RecordedOp>,
    topic: Seq<char>,
    partition: PartitionIndex,
) -> Seq<RecordedOp>
    decreases ops.len(),
{
    if ops.len() == 0 {
        Seq::empty()
    } else if ops.last().on_partition(topic, partition) {
        on_partition(ops.drop_last(), topic, partition).push(ops.last())
    } else {
        on_partition(ops.drop_last(), topic, partition)
    }
}

/// The operations of a list, as mathematical values.
pub open spec fn op_views(ops: Seq<RecordedOp>) -> Seq<RecordedOpView> {
    Seq::new(ops.len(), |i: int| ops[i]@)
}

/// Whether operations stand in the order of their invocations.
pub open spec fn in_order(ops: Seq<RecordedOpView>) -> bool {
    forall|i: int, j: int|
        0 <= i < j < ops.len() ==> (#[trigger] ops[i]).invoked_at.0 <= (
        #[trigger] ops[j]).invoked_at.0
}

/// Whether operations are in order, each answered no sooner than invoked and by `now`.
pub open spec fn timely(ops: Seq<RecordedOpView>, now: VirtualInstant) -> bool {
    &&& in_order(ops)
    &&& forall|i: int|
        0 <= i < ops.len() ==> (#[trigger] ops[i]).invoked_at.0 <= ops[i].responded_at.0
            && ops[i].responded_at.0 <= now.0
}

/// Where an operation invoked at `at` stands among `ops`: behind those that were invoked
/// no later.
pub open spec fn place_of(ops: Seq<RecordedOpView>, at: VirtualInstant) -> int
    decreases ops.len(),
{
    if ops.len() == 0 || ops.last().invoked_at.0 <= at.0 {
        ops.len() as int
    } else {
        place_of(ops.drop_last(), at)
    }
}

/// `ops` with `op` at its place.
pub open spec fn placed(ops: Seq<RecordedOpView>, op: RecordedOpView) -> Seq<RecordedOpView> {
    ops.insert(place_of(ops, op.invoked_at), op)
}

/// `ops` with each of `more` put at its place, one after the other.
pub open spec fn all_placed(ops: Seq<RecordedOpView>, more: Seq<RecordedOpView>) -> Seq<
    RecordedOpView,
>
    decreases more.len(),
{
    if more.len() == 0 {
        ops
    } else {
        placed(all_placed(ops, more.drop_last()), more.last())
    }
}

/// The place of an operation parts those invoked no later from those invoked later.
proof fn lemma_place(ops: Seq<RecordedOpView>, at: VirtualInstant)
    ensures
        0 <= place_of(ops, at) <= ops.len(),
        in_order(ops) ==> forall|i: int|
            0 <= i < place_of(ops, at) ==> (#[trigger] ops[i]).invoked_at.0 <= at.0,
        forall|i: int| place_of(ops, at) <= i < ops.len() ==> at.0 < (#[trigger] ops[i]).invoked_at.0,
    decreases ops.len(),
{
    if ops.len() > 0 {
        let last = ops[ops.len() - 1];
        if last.invoked_at.0 <= at.0 {
            assert(in_order(ops) ==> forall|i: int|
                0 <= i < ops.len() - 1 ==> (#[trigger] ops[i]).invoked_at.0 <= last.invoked_at.0);
        } else {
            let rest = ops.drop_last();
            lemma_place(rest, at);
            if in_order(ops) {
                assert forall|i: int, j: int| 0 <= i < j < rest.len() implies (
                #[trigger] rest[i]).invoked_at.0 <= (#[trigger] rest[j]).invoked_at.0 by {
                    assert(rest[i] == ops[i] && rest[j] == ops[j]);
                }
                assert forall|i: int| 0 <= i < place_of(ops, at) implies (
                #[trigger] ops[i]).invoked_at.0 <= at.0 by {
                    assert(ops[i] == rest[i]);
                }
            }
            assert forall|i: int| place_of(ops, at) <= i < ops.len() implies at.0 < (
            #[trigger] ops[i]).invoked_at.0 by {
                if i < rest.len() {
                    assert(ops[i] == rest[i]);
                }
            }
        }
    }
}

/// The place of an operation is among those recorded, or behind them.
pub proof fn lemma_place_is_within(ops: Seq<RecordedOpView>, at: VirtualInstant)
    ensures
        0 <= place_of(ops, at) <= ops.len(),
{
    lemma_place(ops, at);
}

/// An operation that takes its place leaves the record in the order of invocations, and
/// each of the others where it was with respect to the rest.
pub proof fn law_placing_keeps_order(
    ops: Seq<RecordedOpView>,
    op: RecordedOpView,
    now: VirtualInstant,
)
    requires
        timely(ops, now),
        op.invoked_at.0 <= op.responded_at.0 <= now.0,
    ensures
        timely(placed(ops, op), now),
        placed(ops, op).len() == ops.len() + 1,
        placed(ops, op).remove(place_of(ops, op.invoked_at)) == ops,
{
    let p = place_of(ops, op.invoked_at);
    let after = placed(ops, op);
    lemma_place(ops, op.invoked_at);
    assert forall|i: int| 0 <= i < after.len() implies after[i] == (if i < p {
        ops[i]
    } else if i == p {
        op
    } else {
        ops[i - 1]
    }) by {}
    assert forall|i: int, j: int| 0 <= i < j < after.len() implies (#[trigger] after[i]).invoked_at.0
        <= (#[trigger] after[j]).invoked_at.0 by {
        if i < p && j > p {
            assert(ops[i].invoked_at.0 <= ops[j - 1].invoked_at.0);
        } else if i > p {
            assert(ops[i - 1].invoked_at.0 <= ops[j - 1].invoked_at.0);
        } else if j < p {
            assert(ops[i].invoked_at.0 <= ops[j].invoked_at.0);
        }
    }
    assert(after.remove(p) =~= ops);
}

/// Operations that take their places one after the other leave the record in order.
pub proof fn law_all_placed_keeps_order(
    ops: Seq<RecordedOpView>,
    more: Seq<RecordedOpView>,
    now: VirtualInstant,
)
    requires
        timely(ops, now),
        forall|i: int|
            0 <= i < more.len() ==> (#[trigger] more[i]).invoked_at.0 <= more[i].responded_at.0
                && more[i].responded_at.0 <= now.0,
    ensures
        timely(all_placed(ops, more), now),
        all_placed(ops, more).len() == ops.len() + more.len(),
    decreases more.len(),
{
    if more.len() > 0 {
        let rest = more.drop_last();
        assert forall|i: int| 0 <= i < rest.len() implies (#[trigger] rest[i]).invoked_at.0
            <= rest[i].responded_at.0 && rest[i].responded_at.0 <= now.0 by {
            assert(rest[i] == more[i]);
        }
        law_all_placed_keeps_order(ops, rest, now);
        law_placing_keeps_order(all_placed(ops, rest), more[more.len() - 1], now);
    }
}

/// The place of an operation invoked last is the end.
pub proof fn law_the_newest_is_appended(ops: Seq<RecordedOpView>, op: RecordedOpView)
    requires
        forall|i: int| 0 <= i < ops.len() ==> (#[trigger] ops[i]).invoked_at.0 <= op.invoked_at.0,
    ensures
        placed(ops, op) == ops.push(op),
{
    if ops.len() > 0 {
        assert(ops[ops.len() - 1].invoked_at.0 <= op.invoked_at.0);
    }
    assert(placed(ops, op) =~= ops.push(op));
}

/// `refs` points at the operations of `ops`, in order.
pub open spec fn points_at(refs: Seq<&RecordedOp>, ops: Seq<RecordedOp>) -> bool {
    refs.len() == ops.len() && forall|i: int| 0 <= i < ops.len() ==> *(#[trigger] refs[i]) == ops[i]
}

impl Clone for History {
    fn clone(&self) -> (r: Self)
        ensures
            op_views(r.ops@) == op_views(self.ops@),
    {
        let mut out: Vec<RecordedOp> = Vec::new();
        let mut i: usize = 0;
        while i < self.ops.len()
            invariant
                i <= self.ops@.len(),
                out@.len() == i,
                forall|k: int| 0 <= k < i ==> (#[trigger] out@[k])@ == self.ops@[k]@,
            decreases self.ops@.len() - i,
        {
            out.push(self.ops[i].clone());
            i += 1;
        }
        assert(op_views(out@) =~= op_views(self.ops@));
        History { ops: out }
    }
}

impl Default for History {
    fn default() -> (r: Self)
        ensures
            r.ops@.len() == 0,
    {
        History::new()
    }
}

impl History {
    pub fn new() -> (r: Self)
        ensures
            r.ops@.len() == 0,
    {
        History { ops: Vec::new() }
    }

    /// Append an operation. Those of a run are appended as they are invoked.
    pub fn record(&mut self, op: RecordedOp)
        ensures
            final(self).ops@ == old(self).ops@.push(op),
    {
        self.ops.push(op);
    }

    /// Put an operation at its place in the order of invocations: behind those that were
    /// invoked no later.
    pub fn place(&mut self, op: RecordedOp)
        ensures
            final(self).ops@ == old(self).ops@.insert(
                place_of(op_views(old(self).ops@), op.invoked_at),
                op,
            ),
            old(self).admitted(*final(self), op@),
    {
        let ghost views = op_views(self.ops@);
        let mut i: usize = self.ops.len();
        assert(views.take(i as int) =~= views);
        while i > 0 && self.ops[i - 1].invoked_at.0 > op.invoked_at.0
            invariant
                i <= self.ops@.len(),
                views == op_views(self.ops@),
                *self == *old(self),
                place_of(views.take(i as int), op.invoked_at) == place_of(views, op.invoked_at),
            decreases i,
        {
            assert(views.take(i as int).last() == self.ops@[i - 1]@);
            assert(views.take(i as int).drop_last() =~= views.take(i - 1));
            i -= 1;
        }
        if i > 0 {
            assert(views.take(i as int).last() == self.ops@[i - 1]@);
        }
        proof {
            lemma_place(views, op.invoked_at);
        }
        self.ops.insert(i, op);
        assert(op_views(self.ops@) =~= placed(views, op@));
    }

    /// `after` is this history with one operation more at its place, whose view is `op`.
    pub open spec fn admitted(self, after: History, op: RecordedOpView) -> bool {
        op_views(after.ops@) == placed(op_views(self.ops@), op)
    }

    /// `after` is this history with one operation more at its end, whose view is `op`.
    pub open spec fn gained(self, after: History, op: RecordedOpView) -> bool {
        &&& after.ops@.len() == self.ops@.len() + 1
        &&& after.ops@.drop_last() == self.ops@
        &&& after.ops@.last()@ == op
    }

    /// Record that a produce was acknowledged at `offset`; the answer repeats the
    /// topic, partition and value that were asked for.
    pub fn record_produce_success(
        &mut self,
        args: OpArgs,
        invoked_at: VirtualInstant,
        responded_at: VirtualInstant,
        offset: Offset,
    )
        requires
            args is Produce,
        ensures
            old(self).gained(
                *final(self),
                RecordedOpView {
                    kind: OpKind::Produce,
                    args: args@,
                    invoked_at,
                    responded_at,
                    response: OpResponseView::ProduceOk {
                        topic: args.topic_text(),
                        partition: args.partition_index()->0,
                        value: args@->Produce_value,
                        offset,
                    },
                },
            ),
    {
        let response = match &args {
            OpArgs::Produce { topic, partition, key, value } => OpResponse::ProduceOk {
                topic: topic.clone(),
                partition: *partition,
                value: model::clone_bytes(value.as_slice()),
                offset,
            },
            _ => {
                assert(false);
                OpResponse::NoLeader
            },
        };
        self.record(RecordedOp::new(args, invoked_at, responded_at, response));
        assert(self.ops@.drop_last() =~= old(self).ops@);
    }

    /// Record that a consume returned `records`; the answer repeats the topic,
    /// partition and start offset that were asked for.
    pub fn record_consume_success(
        &mut self,
        args: OpArgs,
        invoked_at: VirtualInstant,
        responded_at: VirtualInstant,
        records: Vec<Record>,
    )
        requires
            args is Consume,
        ensures
            old(self).gained(
                *final(self),
                RecordedOpView {
                    kind: OpKind::Consume,
                    args: args@,
                    invoked_at,
                    responded_at,
                    response: OpResponseView::ConsumeOk {
                        topic: args.topic_text(),
                        partition: args.partition_index()->0,
                        start_offset: args@->Consume_start_offset,
                        records: record_views(records@),
                    },
                },
            ),
    {
        let response = match &args {
            OpArgs::Consume { topic, partition, start_offset, max_records } => {
                OpResponse::ConsumeOk {
                    topic: topic.clone(),
                    partition: *partition,
                    start_offset: *start_offset,
                    records,
                }
            },
            _ => {
                assert(false);
                OpResponse::NoLeader
            },
        };
        self.record(RecordedOp::new(args, invoked_at, responded_at, response));
        assert(self.ops@.drop_last() =~= old(self).ops@);
    }

    /// Record that the client was sent to `leader`.
    pub fn record_redirect(
        &mut self,
        args: OpArgs,
        invoked_at: VirtualInstant,
        responded_at: VirtualInstant,
        leader: NodeId,
    )
        ensures
            final(self).ops@ == old(self).ops@.push(
                RecordedOp::of(args, invoked_at, responded_at, OpResponse::Redirect { leader }),
            ),
    {
        self.record(
            RecordedOp::new(args, invoked_at, responded_at, OpResponse::Redirect { leader }),
        );
    }

    /// Record that the client was answered `response`.
    pub fn record_failure(
        &mut self,
        args: OpArgs,
        invoked_at: VirtualInstant,
        responded_at: VirtualInstant,
        response: OpResponse,
    )
        ensures
            final(self).ops@ == old(self).ops@.push(
                RecordedOp::of(args, invoked_at, responded_at, response),
            ),
    {
        self.record(RecordedOp::new(args, invoked_at, responded_at, response));
    }

    pub fn len(&self) -> (r: usize)
        ensures
            r == self.ops@.len(),
    {
        self.ops.len()
    }

    pub fn is_empty(&self) -> (r: bool)
        ensures
            r == (self.ops@.len() == 0),
    {
        self.ops.len() == 0
    }

    /// All operations, in order.
    pub fn iter(&self) -> (r: &[RecordedOp])
        ensures
            r@ == self.ops@,
    {
        self.ops.as_slice()
    }

    /// The operations about `topic`, in order.
    pub fn iter_for_topic(&self, topic: &str) -> (r: Vec<&RecordedOp>)
        ensures
            points_at(r@, on_topic(self.ops@, topic@)),
    {
        let mut out: Vec<&RecordedOp> = Vec::new();
        let mut i: usize = 0;
        assert(self.ops@.take(0) =~= Seq::empty());
        while i < self.ops.len()
            invariant
                i <= self.ops@.len(),
                points_at(out@, on_topic(self.ops@.take(i as int), topic@)),
            decreases self.ops@.len() - i,
        {
            if self.ops[i].is_on_topic(topic) {
                out.push(&self.ops[i]);
            }
            i += 1;
            assert(self.ops@.take(i as int).drop_last() =~= self.ops@.take(i - 1));
        }
        assert(self.ops@.take(i as int) =~= self.ops@);
        out
    }

    /// The operations about `partition` of `topic`, in order.
    pub fn iter_for_partition(&self, topic: &str, partition: PartitionIndex) -> (r: Vec<
        &RecordedOp,
    >)
        ensures
            points_at(r@, on_partition(self.ops@, topic@, partition)),
    {
        let mut out: Vec<&RecordedOp> = Vec::new();
        let mut i: usize = 0;
        assert(self.ops@.take(0) =~= Seq::empty());
        while i < self.ops.len()
            invariant
                i <= self.ops@.len(),
                points_at(out@, on_partition(self.ops@.take(i as int), topic@, partition)),
            decreases self.ops@.len() - i,
        {
            if self.ops[i].is_on_partition(topic, partition) {
                out.push(&self.ops[i]);
            }
            i += 1;
            assert(self.ops@.take(i as int).drop_last() =~= self.ops@.take(i - 1));
        }
        assert(self.ops@.take(i as int) =~= self.ops@);
        out
    }
}

/// What an operation is about: its kind is that of what it asks for, its topic the one it
/// names, and its partition the one it names where it writes or reads records.
pub proof fn law_arguments_say_what_they_are_about(args: OpArgs)
    ensures
        match args {
            OpArgs::CreateTopic { topic, .. } => args.op_kind() is CreateTopic && args.topic_text()
                == topic@ && args.partition_index() is None,
            OpArgs::DeleteTopic { topic } => args.op_kind() is DeleteTopic && args.topic_text()
                == topic@ && args.partition_index() is None,
            OpArgs::Produce { topic, partition, .. } => args.op_kind() is Produce
                && args.topic_text() == topic@ && args.partition_index() == Some(partition),
            OpArgs::Consume { topic, partition, .. } => args.op_kind() is Consume
                && args.topic_text() == topic@ && args.partition_index() == Some(partition),
        },
{
}

/// The operations on a topic are those that name it, in the order of the history, and the
/// operations on a partition those of them that write to it or read from it.
pub proof fn law_operations_are_found_by_topic_and_partition(
    ops: Seq<RecordedOp>,
    topic: Seq<char>,
    partition: PartitionIndex,
)
    ensures
        on_topic(ops, topic) == ops.filter(
            |op: RecordedOp|
                match op.args {
                    OpArgs::CreateTopic { topic: t, .. } => t@ == topic,
                    OpArgs::DeleteTopic { topic: t } => t@ == topic,
                    OpArgs::Produce { topic: t, .. } => t@ == topic,
                    OpArgs::Consume { topic: t, .. } => t@ == topic,
                },
        ),
        on_partition(ops, topic, partition) == ops.filter(
            |op: RecordedOp|
                match op.args {
                    OpArgs::Produce { topic: t, partition: p, .. } => t@ == topic && p.0
                        == partition.0,
                    OpArgs::Consume { topic: t, partition: p, .. } => t@ == topic && p.0
                        == partition.0,
                    _ => false,
                },
        ),
    decreases ops.len(),
{
    reveal(Seq::filter);
    if ops.len() > 0 {
        law_operations_are_found_by_topic_and_partition(ops.drop_last(), topic, partition);
    }
}

/// An operation is placed behind every one that was invoked by then, as far back as those
/// reach: none behind it was, and the one before it was.
pub proof fn law_places_follow_the_invocations(ops: Seq<RecordedOpView>, at: VirtualInstant)
    ensures
        0 <= place_of(ops, at) <= ops.len(),
        forall|k: int|
            place_of(ops, at) <= k < ops.len() ==> (#[trigger] ops[k]).invoked_at.0 > at.0,
        place_of(ops, at) > 0 ==> ops[place_of(ops, at) - 1].invoked_at.0 <= at.0,
    decreases ops.len(),
{
    if ops.len() > 0 && ops.last().invoked_at.0 > at.0 {
        let fore = ops.drop_last();
        law_places_follow_the_invocations(fore, at);
        assert forall|k: int| place_of(fore, at) <= k < ops.len() implies (
        #[trigger] ops[k]).invoked_at.0 > at.0 by {
            if k < fore.len() {
                assert(fore[k] == ops[k]);
            }
        }
    }
}

/// Placing an operation leaves every other where it was among the others, and the
/// operation in the place that is its own.
pub proof fn law_placing_moves_nothing_else(ops: Seq<RecordedOpView>, op: RecordedOpView, k: int)
    requires
        0 <= k < ops.len(),
    ensures
        placed(ops, op).len() == ops.len() + 1,
        placed(ops, op)[place_of(ops, op.invoked_at)] == op,
        k < place_of(ops, op.invoked_at) ==> placed(ops, op)[k] == ops[k],
        k >= place_of(ops, op.invoked_at) ==> placed(ops, op)[k + 1] == ops[k],
{
    law_places_follow_the_invocations(ops, op.invoked_at);
}

/// What is seen of a recorded operation is what was recorded: its instants, what it asked
/// for and what it was told.
pub proof fn law_records_are_seen_as_they_are(op: RecordedOp)
    ensures
        op@.kind == op.kind,
        op@.invoked_at.0 == op.invoked_at.0,
        op@.responded_at.0 == op.responded_at.0,
        match op.args {
            OpArgs::CreateTopic { topic, partitions, replication_factor } => op@.args is CreateTopic
                && op@.args->CreateTopic_topic == topic@ && op@.args->partitions == partitions
                && op@.args->replication_factor == replication_factor,
            OpArgs::DeleteTopic { topic } => op@.args is DeleteTopic && op@.args->DeleteTopic_topic
                == topic@,
            OpArgs::Produce { topic, partition, key, value } => op@.args is Produce
                && op@.args->Produce_topic == topic@ && op@.args->Produce_partition == partition
                && op@.args->Produce_value == value@ && op@.args->Produce_key is Some == key is Some
                && (key is Some ==> op@.args->Produce_key->0 == (key->0)@),
            OpArgs::Consume { topic, partition, start_offset, max_records } => op@.args is Consume
                && op@.args->Consume_topic == topic@ && op@.args->Consume_partition == partition
                && op@.args->start_offset == start_offset && op@.args->max_records == max_records,
        },
        match op.response {
            OpResponse::ProduceOk { topic, partition, value, offset } => op@.response is ProduceOk
                && op@.response->ProduceOk_topic == topic@ && op@.response->ProduceOk_partition
                == partition && op@.response->ProduceOk_value == value@
                && op@.response->ProduceOk_offset == offset,
            OpResponse::ConsumeOk { topic, partition, start_offset, records } => {
                &&& op@.response is ConsumeOk
                &&& op@.response->ConsumeOk_topic == topic@
                &&& op@.response->ConsumeOk_partition == partition
                &&& op@.response->ConsumeOk_start_offset == start_offset
                &&& op@.response->ConsumeOk_records.len() == records@.len()
                &&& forall|i: int|
                    0 <= i < records@.len() ==> (
                    #[trigger] op@.response->ConsumeOk_records[i]).value == records@[i].value@
            },
            OpResponse::CreateTopicOk { topic } => op@.response is CreateTopicOk
                && op@.response->CreateTopicOk_topic == topic@,
            OpResponse::DeleteTopicOk { topic } => op@.response is DeleteTopicOk
                && op@.response->DeleteTopicOk_topic == topic@,
            OpResponse::Redirect { leader } => op@.response is Redirect
                && op@.response->leader == leader.0@,
            OpResponse::UnresolvedRedirection => op@.response is UnresolvedRedirection,
            OpResponse::NoLeader => op@.response is NoLeader,
            OpResponse::IoError { message } => op@.response is IoError
                && op@.response->IoError_message == message@,
            OpResponse::Error { message } => op@.response is Error && op@.response->Error_message
                == message@,
        },
{
}

/// What is pointed at is all of what is meant, in order.
pub proof fn law_what_is_pointed_at(refs: Seq<&RecordedOp>, ops: Seq<RecordedOp>, i: int)
    requires
        points_at(refs, ops),
    ensures
        refs.len() == ops.len(),
        0 <= i < ops.len() ==> *refs[i] == ops[i],
{
}

/// Records and operations are seen one for one.
pub proof fn law_records_are_seen_one_for_one(records: Seq<Record>, ops: Seq<RecordedOp>, i: int)
    ensures
        record_views(records).len() == records.len(),
        0 <= i < records.len() ==> {
            let r = record_views(records)[i];
            &&& r.value == records[i].value@
            &&& r.key is Some == records[i].key is Some
            &&& records[i].key is Some ==> r.key->0 == (records[i].key->0)@
        },
        op_views(ops).len() == ops.len(),
        0 <= i < ops.len() ==> op_views(ops)[i] == ops[i]@,
{
}

/// An operation is recorded with what it asked for, what it was told and both instants,
/// under the kind of what it asked for.
pub proof fn law_operations_are_recorded_as_given(
    args: OpArgs,
    invoked_at: VirtualInstant,
    responded_at: VirtualInstant,
    response: OpResponse,
)
    ensures
        ({
            let op = RecordedOp::of(args, invoked_at, responded_at, response);
            &&& op.args == args
            &&& op.invoked_at == invoked_at
            &&& op.responded_at == responded_at
            &&& op.response == response
            &&& op.kind is Produce <==> args is Produce
            &&& op.kind is Consume <==> args is Consume
            &&& op.kind is CreateTopic <==> args is CreateTopic
            &&& op.kind is DeleteTopic <==> args is DeleteTopic
        }),
{
}

/// An operation that is admitted has its place among the others: behind every one invoked
/// by then, in front of those invoked later. The result is the place.
pub proof fn law_admitted_operations_have_their_place(
    before: History,
    after: History,
    op: RecordedOpView,
) -> (k: int)
    requires
        before.admitted(after, op),
    ensures
        after.ops@.len() == before.ops@.len() + 1,
        0 <= k <= before.ops@.len(),
        after.ops@[k]@ == op,
        forall|j: int| 0 <= j < k ==> (#[trigger] after.ops@[j])@ == before.ops@[j]@,
        forall|j: int|
            k <= j < before.ops@.len() ==> after.ops@[j + 1]@ == (#[trigger] before.ops@[j])@
                && before.ops@[j].invoked_at.0 > op.invoked_at.0,
        k > 0 ==> before.ops@[k - 1].invoked_at.0 <= op.invoked_at.0,
{
    let old_views = op_views(before.ops@);
    let new_views = op_views(after.ops@);
    law_places_follow_the_invocations(old_views, op.invoked_at);
    let k = place_of(old_views, op.invoked_at);
    assert(new_views == old_views.insert(k, op));
    assert(new_views.len() == after.ops@.len());
    assert(after.ops@[k]@ == new_views[k]);
    assert forall|j: int| 0 <= j < k implies (#[trigger] after.ops@[j])@ == before.ops@[j]@ by {
        assert(new_views[j] == old_views[j]);
    }
    assert forall|j: int| k <= j < before.ops@.len() implies after.ops@[j + 1]@ == (
    #[trigger] before.ops@[j])@ && before.ops@[j].invoked_at.0 > op.invoked_at.0 by {
        assert(new_views[j + 1] == old_views[j]);
        assert(old_views[j].invoked_at.0 > op.invoked_at.0);
    }
    if k > 0 {
        assert(old_views[k - 1].invoked_at.0 <= op.invoked_at.0);
    }
    k
}

} // verus!
