//! The client workload of a run, drawn from the workload stream.

use crate::model::{self, Offset, PartitionIndex};
use crate::rng::SplitMix64;
use crate::scenario::ScenarioParameters;
use crate::text;
use vstd::prelude::*;

verus! {

/// How many leader hints a client follows after its first contact.
pub const MAX_REDIRECT_HOPS: u8 = 5;

/// The longest value produced.
pub const MAX_VALUE_LEN: usize = 65_536;

/// The shortest key produced.
pub const MIN_KEY_LEN: usize = 1;

/// The longest key produced.
pub const MAX_KEY_LEN: usize = 256;

/// How many topics the workload uses.
pub const WORKLOAD_TOPIC_COUNT: u32 = 4;

/// Consumes start below this offset.
pub const CONSUME_START_OFFSET_BOUND: u64 = 64;

pub const WEIGHT_CREATE_TOPIC: u64 = 15;

pub const WEIGHT_DELETE_TOPIC: u64 = 5;

pub const WEIGHT_PRODUCE: u64 = 50;

pub const WEIGHT_CONSUME: u64 = 30;

pub const OP_KIND_WEIGHT_TOTAL: u64 = 100;

/// The start value of the 64-bit FNV-1a hash.
pub const FNV_OFFSET: u64 = 0xCBF2_9CE4_8422_2325;

/// The multiplier of the 64-bit FNV-1a hash.
pub const FNV_PRIME: u64 = 0x0000_0100_0000_01B3;

/// How many records a consume may ask for.
#[derive(Clone, Copy, Debug, PartialEq, Eq, Structural)]
pub struct ConsumeLimits {
    pub min: u32,
    pub max: u32,
}

impl ConsumeLimits {
    pub open spec fn wf(self) -> bool {
        self.min <= self.max
    }

    /// How many values lie within the limits.
    pub open spec fn span(self) -> u64 {
        (self.max - self.min + 1) as u64
    }
}

/// The FNV-1a hash of `bytes`.
pub open spec fn fnv1a(bytes: Seq<u8>) -> u64
    decreases bytes.len(),
{
    if bytes.len() == 0 {
        FNV_OFFSET
    } else {
        (fnv1a(bytes.drop_last()) ^ (bytes.last() as u64)).wrapping_mul(FNV_PRIME)
    }
}

/// The partition that a key goes to.
pub open spec fn routed(key: Seq<u8>, partition_count: u32) -> PartitionIndex {
    PartitionIndex((fnv1a(key) % (partition_count as u64)) as u32)
}

/// The rule by which keyed records are spread over partitions.
#[derive(Clone, Copy, Debug)]
pub struct PartitionRouter;

impl PartitionRouter {
    pub fn new() -> (r: Self)
        ensures
            r == PartitionRouter,
    {
        PartitionRouter
    }

    /// The partition of `key`: its hash, modulo the number of partitions.
    pub fn resolve(&self, key: &[u8], partition_count: u32) -> (r: PartitionIndex)
        requires
            partition_count > 0,
        ensures
            r == routed(key@, partition_count),
            r.0 < partition_count,
    {
        let mut hash: u64 = FNV_OFFSET;
        let mut i: usize = 0;
        assert(key@.take(0) =~= Seq::empty());
        while i < key.len()
            invariant
                i <= key@.len(),
                hash == fnv1a(key@.take(i as int)),
            decreases key@.len() - i,
        {
            hash = (hash ^ (key[i] as u64)).wrapping_mul(FNV_PRIME);
            i += 1;
            assert(key@.take(i as int).drop_last() =~= key@.take(i - 1));
        }
        assert(key@.take(i as int) =~= key@);
        let r: u64 = hash % (partition_count as u64);
        PartitionIndex(r as u32)
    }
}

/// One client operation to issue.
#[derive(Debug, PartialEq, Eq)]
pub enum ClientOperation {
    CreateTopic { name: String, partition_count: u32, replication_factor: usize },
    DeleteTopic { name: String },
    Produce { topic: String, partition: PartitionIndex, key: Option<Vec<u8>>, value: Vec<u8> },
    Consume { topic: String, partition: PartitionIndex, start_offset: Offset, max_records: u32 },
}

/// A client operation as a mathematical value.
pub enum ClientOperationView {
    CreateTopic { name: Seq<char>, partition_count: u32, replication_factor: usize },
    DeleteTopic { name: Seq<char> },
    Produce {
        topic: Seq<char>,
        partition: PartitionIndex,
        key: Option<Seq<u8>>,
        value: Seq<u8>,
    },
    Consume { topic: Seq<char>, partition: PartitionIndex, start_offset: Offset, max_records: u32 },
}

impl View for ClientOperation {
    type V = ClientOperationView;

    open spec fn view(&self) -> ClientOperationView {
        match self {
            ClientOperation::CreateTopic { name, partition_count, replication_factor } => {
                ClientOperationView::CreateTopic {
                    name: name@,
                    partition_count: *partition_count,
                    replication_factor: *replication_factor,
                }
            },
            ClientOperation::DeleteTopic { name } => ClientOperationView::DeleteTopic {
                name: name@,
            },
            ClientOperation::Produce { topic, partition, key, value } => {
                ClientOperationView::Produce {
                    topic: topic@,
                    partition: *partition,
                    key: model::optional_bytes(*key),
                    value: value@,
                }
            },
            ClientOperation::Consume { topic, partition, start_offset, max_records } => {
                ClientOperationView::Consume {
                    topic: topic@,
                    partition: *partition,
                    start_offset: *start_offset,
                    max_records: *max_records,
                }
            },
        }
    }
}

impl Clone for ClientOperation {
    fn clone(&self) -> (r: Self)
        ensures
            r@ == self@,
    {
        match self {
            ClientOperation::CreateTopic { name, partition_count, replication_factor } => {
                ClientOperation::CreateTopic {
                    name: name.clone(),
                    partition_count: *partition_count,
                    replication_factor: *replication_factor,
                }
            },
            ClientOperation::DeleteTopic { name } => ClientOperation::DeleteTopic {
                name: name.clone(),
            },
            ClientOperation::Produce { topic, partition, key, value } => ClientOperation::Produce {
                topic: topic.clone(),
                partition: *partition,
                key: model::clone_optional_bytes(key),
                value: model::clone_bytes(value.as_slice()),
            },
            ClientOperation::Consume { topic, partition, start_offset, max_records } => {
                ClientOperation::Consume {
                    topic: topic.clone(),
                    partition: *partition,
                    start_offset: *start_offset,
                    max_records: *max_records,
                }
            },
        }
    }
}

/// The operations of a run, in the order of their issue.
#[derive(Debug, PartialEq, Eq)]
pub struct Workload {
    pub ops: Vec<ClientOperation>,
}

impl Clone for Workload {
    fn clone(&self) -> (r: Self)
        ensures
            r.views() == self.views(),
    {
        let mut ops: Vec<ClientOperation> = Vec::new();
        let mut i: usize = 0;
        while i < self.ops.len()
            invariant
                i <= self.ops@.len(),
                ops@.len() == i,
                forall|k: int| 0 <= k < i ==> (#[trigger] ops@[k])@ == self.ops@[k]@,
            decreases self.ops@.len() - i,
        {
            ops.push(self.ops[i].clone());
            i += 1;
        }
        let r = Workload { ops };
        assert(r.views() =~= self.views());
        r
    }
}

impl Default for Workload {
    fn default() -> (r: Self)
        ensures
            r.ops@.len() == 0,
    {
        Workload { ops: Vec::new() }
    }
}

impl Workload {
    /// The operations as mathematical values.
    pub open spec fn views(self) -> Seq<ClientOperationView> {
        Seq::new(self.ops@.len(), |i: int| self.ops@[i]@)
    }

    pub fn ops(&self) -> (r: &[ClientOperation])
        ensures
            r@ == self.ops@,
    {
        self.ops.as_slice()
    }

    pub fn len(&self) -> (r: usize)
        ensures
            r == self.ops@.len(),
    {
        self.ops.len()
    }

    pub fn is_empty(&self) -> (r: bool)
        ensures
            r == (self.ops@.len() == 0),
    {
        self.ops.len() == 0
    }

    /// The operation numbered `seq`, if there is one.
    pub fn op(&self, seq: u64) -> (r: Option<&ClientOperation>)
        ensures
            match r {
                Some(op) => seq < self.ops@.len() && *op == self.ops@[seq as int],
                None => seq >= self.ops@.len(),
            },
    {
        if seq < self.ops.len() as u64 {
            Some(&self.ops[seq as usize])
        } else {
            None
        }
    }
}

/// The name of the workload's `i`-th topic.
pub open spec fn topic_name(i: nat) -> Seq<char> {
    "dst-topic-"@ + text::decimal(i)
}

/// `w` without its lowest `j` bytes.
pub open spec fn without_bytes(w: u64, j: nat) -> u64
    decreases j,
{
    if j == 0 {
        w
    } else {
        without_bytes(w, (j - 1) as nat) / 256
    }
}

/// The `j`-th byte of `w`, lowest first.
pub open spec fn le_byte(w: u64, j: nat) -> u8 {
    (without_bytes(w, j) % 256) as u8
}

/// The bytes drawn from `stream`: eight per word, lowest first.
pub open spec fn drawn_bytes(stream: SplitMix64, len: nat) -> Seq<u8> {
    Seq::new(len, |i: int| le_byte(stream.advanced_by((i / 8) as nat).word(), (i % 8) as nat))
}

/// The stream after drawing `len` bytes.
pub open spec fn after_bytes(stream: SplitMix64, len: nat) -> SplitMix64 {
    stream.advanced_by(((len + 7) / 8) as nat)
}

/// What the generator is parameterised by.
pub struct WorkloadShape {
    pub partition_count: u32,
    pub replication_factor: usize,
    pub limits: ConsumeLimits,
}

/// The key drawn from `stream`, and the stream after it.
pub open spec fn drawn_key(stream: SplitMix64) -> (Seq<u8>, SplitMix64) {
    let len = (1 + stream.below(256)) as nat;
    (drawn_bytes(stream.advanced(), len), after_bytes(stream.advanced(), len))
}

/// The value drawn from `stream`, and the stream after it.
pub open spec fn drawn_value(stream: SplitMix64) -> (Seq<u8>, SplitMix64) {
    let len = stream.below(65_537) as nat;
    (drawn_bytes(stream.advanced(), len), after_bytes(stream.advanced(), len))
}

/// The produce drawn from `stream`, and the stream after it.
pub open spec fn drawn_produce(
    stream: SplitMix64,
    topic: Seq<char>,
    partition_count: u32,
) -> (ClientOperationView, SplitMix64) {
    let keyed = stream.word() % 2 == 0;
    let s = stream.advanced();
    let (key, partition, t) = if keyed {
        let (k, t) = drawn_key(s);
        (Some(k), routed(k, partition_count), t)
    } else {
        (
            None::<Seq<u8>>,
            PartitionIndex(s.below(partition_count as u64) as u32),
            s.advanced_below(partition_count as u64),
        )
    };
    let (value, u) = drawn_value(t);
    (ClientOperationView::Produce { topic, partition, key, value }, u)
}

/// The consume drawn from `stream`, and the stream after it.
pub open spec fn drawn_consume(
    stream: SplitMix64,
    topic: Seq<char>,
    partition_count: u32,
    limits: ConsumeLimits,
) -> (ClientOperationView, SplitMix64) {
    let partition = PartitionIndex(stream.below(partition_count as u64) as u32);
    let s = stream.advanced_below(partition_count as u64);
    let start_offset = s.below(CONSUME_START_OFFSET_BOUND);
    let t = s.advanced();
    let max_records = (limits.min + t.below(limits.span())) as u32;
    (
        ClientOperationView::Consume { topic, partition, start_offset, max_records },
        t.advanced_below(limits.span()),
    )
}

/// The operation drawn from `stream`, and the stream after it.
pub open spec fn drawn_op(stream: SplitMix64, shape: WorkloadShape) -> (
    ClientOperationView,
    SplitMix64,
) {
    let topic = topic_name(stream.below(4) as nat);
    let roll = stream.advanced().below(OP_KIND_WEIGHT_TOTAL);
    let s = stream.advanced().advanced();
    if roll < 15 {
        (
            ClientOperationView::CreateTopic {
                name: topic,
                partition_count: shape.partition_count,
                replication_factor: shape.replication_factor,
            },
            s,
        )
    } else if roll < 20 {
        (ClientOperationView::DeleteTopic { name: topic }, s)
    } else if roll < 70 {
        drawn_produce(s, topic, shape.partition_count)
    } else {
        drawn_consume(s, topic, shape.partition_count, shape.limits)
    }
}

/// `n` operations drawn from `stream` one after the other, and the stream after
/// them.
pub open spec fn drawn_ops(stream: SplitMix64, shape: WorkloadShape, n: nat) -> (
    Seq<ClientOperationView>,
    SplitMix64,
)
    decreases n,
{
    if n == 0 {
        (Seq::empty(), stream)
    } else {
        let (ops, s) = drawn_ops(stream, shape, (n - 1) as nat);
        let (op, t) = drawn_op(s, shape);
        (ops.push(op), t)
    }
}

/// Draw `len` bytes.
pub fn fill_bytes(stream: &mut SplitMix64, len: usize) -> (r: Vec<u8>)
    ensures
        r@ == drawn_bytes(*old(stream), len as nat),
        *final(stream) == after_bytes(*old(stream), len as nat),
{
    let ghost start = *stream;
    let mut bytes: Vec<u8> = Vec::new();
    let ghost mut words: nat = 0;
    while bytes.len() < len
        invariant
            start == *old(stream),
            *stream == start.advanced_by(words),
            bytes@ == drawn_bytes(start, bytes@.len()),
            bytes@.len() <= len,
            words == (bytes@.len() + 7) / 8,
            bytes@.len() < len ==> bytes@.len() == 8 * words,
        decreases len - bytes@.len(),
    {
        let ghost from = *stream;
        let ghost base = bytes@.len();
        let mut w: u64 = stream.next_u64();
        let ghost word = w;
        let mut j: usize = 0;
        while j < 8 && bytes.len() < len
            invariant
                j <= 8,
                base == 8 * words,
                bytes@.len() == base + j,
                bytes@.len() <= len,
                from == start.advanced_by(words),
                word == from.word(),
                w == without_bytes(word, j as nat),
                bytes@ == drawn_bytes(start, bytes@.len()),
            decreases 8 - j,
        {
            let ghost before = bytes@;
            bytes.push((w % 256) as u8);
            w = w / 256;
            j += 1;
            assert(bytes@ =~= drawn_bytes(start, bytes@.len())) by {
                let k = (base + j - 1) as int;
                assert(k / 8 == words && k % 8 == j - 1);
                assert forall|i: int| 0 <= i < bytes@.len() implies bytes@[i] == drawn_bytes(
                    start,
                    bytes@.len(),
                )[i] by {
                    if i < k {
                        assert(before[i] == drawn_bytes(start, before.len())[i]);
                    }
                }
            }
        }
        proof {
            words = words + 1;
        }
    }
    bytes
}

/// The names of the workload's topics.
pub fn topic_pool() -> (r: Vec<String>)
    ensures
        r@.len() == WORKLOAD_TOPIC_COUNT,
        forall|i: int| 0 <= i < r@.len() ==> (#[trigger] r@[i])@ == topic_name(i as nat),
{
    let mut r: Vec<String> = Vec::new();
    let mut i: u32 = 0;
    while i < WORKLOAD_TOPIC_COUNT
        invariant
            i <= WORKLOAD_TOPIC_COUNT,
            r@.len() == i,
            forall|k: int| 0 <= k < r@.len() ==> (#[trigger] r@[k])@ == topic_name(k as nat),
        decreases WORKLOAD_TOPIC_COUNT - i,
    {
        let mut name = "dst-topic-".to_owned();
        text::push_decimal(&mut name, i as u64);
        r.push(name);
        i += 1;
    }
    r
}

/// Draw one of `topics`.
pub fn pick_topic(stream: &mut SplitMix64, topics: &[String]) -> (r: String)
    requires
        topics@.len() > 0,
    ensures
        r == topics@[old(stream).below(topics@.len() as u64) as int],
        *final(stream) == old(stream).advanced(),
{
    let idx: u64 = stream.next_below(topics.len() as u64);
    topics[idx as usize].clone()
}

fn generate_produce(
    stream: &mut SplitMix64,
    router: &PartitionRouter,
    topic: String,
    partition_count: u32,
) -> (r: ClientOperation)
    requires
        partition_count > 0,
    ensures
        (r@, *final(stream)) == drawn_produce(*old(stream), topic@, partition_count),
{
    let keyed = stream.next_u64() % 2 == 0;
    let (key, partition) = if keyed {
        let drawn: u64 = stream.next_below((MAX_KEY_LEN - MIN_KEY_LEN + 1) as u64);
        let key_len: usize = MIN_KEY_LEN + drawn as usize;
        let key = fill_bytes(stream, key_len);
        let partition = router.resolve(key.as_slice(), partition_count);
        (Some(key), partition)
    } else {
        let p: u64 = stream.next_below(partition_count as u64);
        (None, PartitionIndex(p as u32))
    };
    let drawn_len: u64 = stream.next_below(MAX_VALUE_LEN as u64 + 1);
    let value = fill_bytes(stream, drawn_len as usize);
    ClientOperation::Produce { topic, partition, key, value }
}

fn generate_consume(
    stream: &mut SplitMix64,
    topic: String,
    partition_count: u32,
    limits: ConsumeLimits,
) -> (r: ClientOperation)
    requires
        partition_count > 0,
        limits.wf(),
    ensures
        (r@, *final(stream)) == drawn_consume(*old(stream), topic@, partition_count, limits),
{
    let p: u64 = stream.next_below(partition_count as u64);
    let partition = PartitionIndex(p as u32);
    let start_offset: u64 = stream.next_below(CONSUME_START_OFFSET_BOUND);
    let span: u64 = (limits.max - limits.min) as u64 + 1;
    let drawn: u64 = stream.next_below(span);
    let max_records: u32 = limits.min + drawn as u32;
    ClientOperation::Consume { topic, partition, start_offset, max_records }
}

fn generate_op(
    stream: &mut SplitMix64,
    router: &PartitionRouter,
    topics: &[String],
    partition_count: u32,
    replication_factor: usize,
    limits: ConsumeLimits,
) -> (r: ClientOperation)
    requires
        partition_count > 0,
        limits.wf(),
        topics@.len() == 4,
        forall|i: int| 0 <= i < 4 ==> (#[trigger] topics@[i])@ == topic_name(i as nat),
    ensures
        (r@, *final(stream)) == drawn_op(
            *old(stream),
            (WorkloadShape { partition_count, replication_factor, limits }),
        ),
{
    let topic = pick_topic(stream, topics);
    let roll: u64 = stream.next_below(OP_KIND_WEIGHT_TOTAL);
    if roll < WEIGHT_CREATE_TOPIC {
        ClientOperation::CreateTopic { name: topic, partition_count, replication_factor }
    } else if roll < WEIGHT_CREATE_TOPIC + WEIGHT_DELETE_TOPIC {
        ClientOperation::DeleteTopic { name: topic }
    } else if roll < WEIGHT_CREATE_TOPIC + WEIGHT_DELETE_TOPIC + WEIGHT_PRODUCE {
        generate_produce(stream, router, topic, partition_count)
    } else {
        generate_consume(stream, topic, partition_count, limits)
    }
}

/// The shape of the workload of `params`; a topic always has a partition.
pub open spec fn shape_of(params: ScenarioParameters, limits: ConsumeLimits) -> WorkloadShape {
    WorkloadShape {
        partition_count: if params.partition_count == 0 {
            1
        } else {
            params.partition_count
        },
        replication_factor: params.replication_factor,
        limits,
    }
}

/// Draw the workload of `params`.
pub fn generate(
    params: &ScenarioParameters,
    limits: ConsumeLimits,
    workload_stream: &mut SplitMix64,
) -> (r: Workload)
    requires
        limits.wf(),
    ensures
        (r.views(), *final(workload_stream)) == drawn_ops(
            *old(workload_stream),
            shape_of(*params, limits),
            params.workload_size as nat,
        ),
{
    let partition_count: u32 = if params.partition_count == 0 {
        1
    } else {
        params.partition_count
    };
    let router = PartitionRouter::new();
    let topics = topic_pool();
    let ghost start = *workload_stream;
    let ghost shape = shape_of(*params, limits);
    let mut ops: Vec<ClientOperation> = Vec::new();
    let mut i: usize = 0;
    assert(Workload { ops }.views() =~= Seq::empty());
    while i < params.workload_size
        invariant
            i <= params.workload_size,
            start == *old(workload_stream),
            limits.wf(),
            partition_count > 0,
            shape == shape_of(*params, limits),
            partition_count == shape.partition_count,
            topics@.len() == 4,
            forall|k: int| 0 <= k < 4 ==> (#[trigger] topics@[k])@ == topic_name(k as nat),
            (Workload { ops }.views(), *workload_stream) == drawn_ops(start, shape, i as nat),
        decreases params.workload_size - i,
    {
        let ghost before = Workload { ops }.views();
        let op = generate_op(
            workload_stream,
            &router,
            topics.as_slice(),
            partition_count,
            params.replication_factor,
            limits,
        );
        ops.push(op);
        i += 1;
        assert(Workload { ops }.views() =~= before.push(op@));
    }
    Workload { ops }
}

/// Whether an operation keeps to the bounds of the workload.
pub open spec fn in_bounds(op: ClientOperationView, shape: WorkloadShape) -> bool {
    match op {
        ClientOperationView::CreateTopic { name, partition_count, replication_factor } => {
            &&& exists|i: nat| i < 4 && name == #[trigger] topic_name(i)
            &&& partition_count == shape.partition_count
            &&& replication_factor == shape.replication_factor
        },
        ClientOperationView::DeleteTopic { name } => exists|i: nat|
            i < 4 && name == #[trigger] topic_name(i),
        ClientOperationView::Produce { topic, partition, key, value } => {
            &&& exists|i: nat| i < 4 && topic == #[trigger] topic_name(i)
            &&& partition.0 < shape.partition_count
            &&& value.len() <= MAX_VALUE_LEN
            &&& key matches Some(k) ==> MIN_KEY_LEN <= k.len() <= MAX_KEY_LEN && partition
                == routed(k, shape.partition_count)
        },
        ClientOperationView::Consume { topic, partition, start_offset, max_records } => {
            &&& exists|i: nat| i < 4 && topic == #[trigger] topic_name(i)
            &&& partition.0 < shape.partition_count
            &&& start_offset < CONSUME_START_OFFSET_BOUND
            &&& shape.limits.min <= max_records <= shape.limits.max
        },
    }
}

/// Every operation drawn keeps to the bounds, and keyed produces go where the
/// router sends them.
pub proof fn law_drawn_op_in_bounds(stream: SplitMix64, shape: WorkloadShape)
    requires
        shape.partition_count > 0,
        shape.limits.wf(),
    ensures
        in_bounds(drawn_op(stream, shape).0, shape),
{
    let i = stream.below(4) as nat;
    assert(i < 4 && topic_name(i) == topic_name(i));
    let count = shape.partition_count as u64;
    assert(forall|g: SplitMix64| #[trigger] g.below(count) < count);
    assert(forall|g: SplitMix64| #[trigger] g.below(256) < 256);
    assert(forall|g: SplitMix64| #[trigger] g.below(65_537) < 65_537);
    assert(forall|g: SplitMix64| #[trigger] g.below(shape.limits.span()) < shape.limits.span());
    assert(forall|k: Seq<u8>| #[trigger] routed(k, shape.partition_count).0
        < shape.partition_count);
}

/// A workload has the size asked for, and every operation in it keeps to the bounds.
pub proof fn law_workload_in_bounds(stream: SplitMix64, shape: WorkloadShape, n: nat)
    requires
        shape.partition_count > 0,
        shape.limits.wf(),
    ensures
        drawn_ops(stream, shape, n).0.len() == n,
        forall|i: int|
            0 <= i < n ==> in_bounds(#[trigger] drawn_ops(stream, shape, n).0[i], shape),
    decreases n,
{
    if n > 0 {
        law_workload_in_bounds(stream, shape, (n - 1) as nat);
        law_drawn_op_in_bounds(drawn_ops(stream, shape, (n - 1) as nat).1, shape);
    }
}

/// A consume is drawn from three words: the first modulo the partition count is its
/// partition, the second modulo 64 its start, and the third, modulo the number of limits
/// there are, its limit above the least. Its topic is the one given.
pub proof fn law_three_words_make_a_consume(
    stream: SplitMix64,
    topic: Seq<char>,
    partition_count: u32,
    limits: ConsumeLimits,
)
    requires
        partition_count > 0,
        limits.min <= limits.max,
    ensures
        ({
            let second = stream.advanced();
            let third = second.advanced();
            let (op, after) = drawn_consume(stream, topic, partition_count, limits);
            &&& op is Consume
            &&& op->Consume_topic == topic
            &&& op->Consume_partition.0 as int == (stream.word() as int) % (partition_count as int)
            &&& op->Consume_start_offset as int == (second.word() as int) % 64
            &&& op->Consume_max_records as int == limits.min as int + (third.word() as int) % (
            limits.max - limits.min + 1)
            &&& after == third.advanced()
        }),
{
    let third = stream.advanced().advanced();
    let span = limits.span();
    assert(third.below(span) as int == (third.word() as int) % (span as int));
    assert((third.word() as int) % (span as int) < span);
    assert((stream.word() as int) % (partition_count as int) < partition_count);
}

/// Every partition is read by some consume: for each there is a stream that draws a
/// consume of it.
pub proof fn law_every_partition_can_be_consumed(
    partition: u32,
    topic: Seq<char>,
    partition_count: u32,
    limits: ConsumeLimits,
) -> (stream: SplitMix64)
    requires
        partition < partition_count,
        limits.min <= limits.max,
    ensures
        drawn_consume(stream, topic, partition_count, limits).0->Consume_partition.0 == partition,
{
    let stream = crate::rng::law_every_word_can_be_drawn(partition as u64);
    law_three_words_make_a_consume(stream, topic, partition_count, limits);
    vstd::arithmetic::div_mod::lemma_small_mod(partition as nat, partition_count as nat);
    stream
}

/// A produce has a key exactly where the first word is even. With a key, of one byte to
/// 256 as the second word says, it goes where the key is routed; without one, to the
/// second word modulo the partition count. Its value has as many bytes as the word after
/// says, modulo 65537.
pub proof fn law_words_make_a_produce(
    stream: SplitMix64,
    topic: Seq<char>,
    partition_count: u32,
)
    requires
        partition_count > 0,
    ensures
        ({
            let second = stream.advanced();
            let (op, after) = drawn_produce(stream, topic, partition_count);
            let key = op->Produce_key;
            &&& op is Produce
            &&& op->Produce_topic == topic
            &&& key is Some <==> (stream.word() as int) % 2 == 0
            &&& key is None ==> {
                let third = second.advanced();
                let len = (third.word() as int) % 65_537;
                &&& op->Produce_partition.0 as int == (second.word() as int) % (
                partition_count as int)
                &&& op->Produce_value.len() == len
                &&& op->Produce_value == drawn_bytes(third.advanced(), len as nat)
                &&& after == third.advanced().advanced_by(((len + 7) / 8) as nat)
            }
            &&& key is Some ==> {
                let size = 1 + (second.word() as int) % 256;
                let next = second.advanced().advanced_by(((size + 7) / 8) as nat);
                let len = (next.word() as int) % 65_537;
                &&& (key->0).len() == size
                &&& key->0 == drawn_bytes(second.advanced(), size as nat)
                &&& op->Produce_partition.0 as int == (fnv1a(key->0) as int) % (
                partition_count as int)
                &&& op->Produce_value.len() == len
                &&& op->Produce_value == drawn_bytes(next.advanced(), len as nat)
                &&& after == next.advanced().advanced_by(((len + 7) / 8) as nat)
            }
        }),
{
    let second = stream.advanced();
    assert((second.word() as int) % (partition_count as int) < partition_count);
    let (key, next) = drawn_key(second);
    let h = fnv1a(key);
    assert((h as int) % (partition_count as int) < partition_count);
    assert((h % (partition_count as u64)) as int == (h as int) % (partition_count as int));
}

/// Every partition is written by some produce without a key.
pub proof fn law_every_partition_can_be_produced_to(
    partition: u32,
    topic: Seq<char>,
    partition_count: u32,
) -> (stream: SplitMix64)
    requires
        partition < partition_count,
    ensures
        ({
            let op = drawn_produce(stream, topic, partition_count).0;
            op->Produce_key is None ==> op->Produce_partition.0 == partition
        }),
        stream.advanced().word() == partition,
{
    let next = crate::rng::law_every_word_can_be_drawn(partition as u64);
    let z = next.state;
    let state = if z >= crate::rng::GOLDEN_GAMMA {
        (z - crate::rng::GOLDEN_GAMMA) as u64
    } else {
        (z + 0x1_0000_0000_0000_0000 - crate::rng::GOLDEN_GAMMA) as u64
    };
    let stream = SplitMix64 { state };
    assert(stream.advanced() == next);
    law_words_make_a_produce(stream, topic, partition_count);
    vstd::arithmetic::div_mod::lemma_small_mod(partition as nat, partition_count as nat);
    stream
}

/// The bytes of a word, from the least on, make up the word again, and the bytes drawn are
/// those of the words drawn, in turn.
pub proof fn law_bytes_make_up_the_words(stream: SplitMix64, len: nat, k: nat)
    requires
        8 * k + 8 <= len,
    ensures
        drawn_bytes(stream, len).len() == len,
        ({
            let b = drawn_bytes(stream, len);
            let i = 8 * k as int;
            stream.advanced_by(k).word() as int == b[i] + 0x100 * b[i + 1] + 0x1_0000 * b[i + 2]
                + 0x100_0000 * b[i + 3] + 0x1_0000_0000 * b[i + 4] + 0x100_0000_0000 * b[i + 5]
                + 0x1_0000_0000_0000 * b[i + 6] + 0x100_0000_0000_0000 * b[i + 7]
        }),
{
    let w = stream.advanced_by(k).word();
    let b = drawn_bytes(stream, len);
    let i = 8 * k as int;
    assert forall|j: int| 0 <= j < 8 implies #[trigger] b[i + j] == le_byte(w, j as nat) by {
        assert((i + j) / 8 == k);
        assert((i + j) % 8 == j);
    }
    assert(b[i + 0] == le_byte(w, 0));
    assert(b[i + 1] == le_byte(w, 1));
    assert(b[i + 2] == le_byte(w, 2));
    assert(b[i + 3] == le_byte(w, 3));
    assert(b[i + 4] == le_byte(w, 4));
    assert(b[i + 5] == le_byte(w, 5));
    assert(b[i + 6] == le_byte(w, 6));
    assert(b[i + 7] == le_byte(w, 7));
    lemma_bytes_of_a_word(w);
}

proof fn lemma_byte_off(w: u64, j: nat)
    ensures
        without_bytes(w, j) == 256 * without_bytes(w, j + 1) + le_byte(w, j),
{
}

proof fn lemma_bytes_of_a_word(w: u64)
    ensures
        w as int == le_byte(w, 0) + 0x100 * le_byte(w, 1) + 0x1_0000 * le_byte(w, 2) + 0x100_0000
            * le_byte(w, 3) + 0x1_0000_0000 * le_byte(w, 4) + 0x100_0000_0000 * le_byte(w, 5)
            + 0x1_0000_0000_0000 * le_byte(w, 6) + 0x100_0000_0000_0000 * le_byte(w, 7),
{
    lemma_byte_off(w, 0);
    lemma_byte_off(w, 1);
    lemma_byte_off(w, 2);
    lemma_byte_off(w, 3);
    lemma_byte_off(w, 4);
    lemma_byte_off(w, 5);
    lemma_byte_off(w, 6);
    lemma_byte_off(w, 7);
}

/// A draw of fewer bytes is the beginning of a draw of more.
pub proof fn law_shorter_draws_are_beginnings(stream: SplitMix64, len: nat, more: nat)
    requires
        len <= more,
    ensures
        drawn_bytes(stream, len) == drawn_bytes(stream, more).take(len as int),
{
    assert(drawn_bytes(stream, len) =~= drawn_bytes(stream, more).take(len as int));
}

/// The router takes the bytes of a key in turn, each by an exclusive or and a product
/// modulo 2^64, and the result modulo the partition count.
pub proof fn law_keys_are_hashed_byte_by_byte(key: Seq<u8>, byte: u8)
    ensures
        fnv1a(Seq::empty()) == 0xCBF2_9CE4_8422_2325,
        fnv1a(key.push(byte)) as int == ((fnv1a(key) ^ (byte as u64)) as int
            * 0x0000_0100_0000_01B3) % 0x1_0000_0000_0000_0000,
{
    assert(key.push(byte).drop_last() =~= key);
}

/// Where two keys differ only in their last byte, they hash differently.
pub proof fn law_a_last_byte_tells_keys_apart(key: Seq<u8>, a: u8, b: u8)
    requires
        a != b,
    ensures
        fnv1a(key.push(a)) != fnv1a(key.push(b)),
{
    assert(key.push(a).drop_last() =~= key);
    assert(key.push(b).drop_last() =~= key);
    let h = fnv1a(key);
    let x = h ^ (a as u64);
    let y = h ^ (b as u64);
    assert(x != y) by (bit_vector)
        requires
            a != b,
            x == h ^ (a as u64),
            y == h ^ (b as u64),
    ;
    if x.wrapping_mul(FNV_PRIME) == y.wrapping_mul(FNV_PRIME) {
        crate::rng::lemma_wrapping_mul_injective(x, y, FNV_PRIME, 0xCE96_5057_AFF6_957B);
    }
}

/// The first word modulo four picks the topic, the second modulo 100 the kind: of each
/// hundred values 15 make a create, 5 a delete, 50 a produce and 30 a consume. A create
/// asks for the scenario's partitions and replicas; the others go on from the third word.
pub proof fn law_two_words_pick_the_operation(stream: SplitMix64, shape: WorkloadShape)
    ensures
        ({
            let topic = "dst-topic-"@ + text::decimal((stream.word() as nat) % 4);
            let roll = (stream.advanced().word() as int) % 100;
            let rest = stream.advanced().advanced();
            let (op, after) = drawn_op(stream, shape);
            &&& roll < 15 ==> after == rest && op == ClientOperationView::CreateTopic {
                name: topic,
                partition_count: shape.partition_count,
                replication_factor: shape.replication_factor,
            }
            &&& 15 <= roll < 20 ==> after == rest && op == ClientOperationView::DeleteTopic {
                name: topic,
            }
            &&& 20 <= roll < 70 ==> op is Produce && (op, after) == drawn_produce(
                rest,
                topic,
                shape.partition_count,
            )
            &&& 70 <= roll ==> op is Consume && (op, after) == drawn_consume(
                rest,
                topic,
                shape.partition_count,
                shape.limits,
            )
        }),
{
    assert(stream.below(4) as nat == (stream.word() as nat) % 4);
}

/// A workload grows by one operation at a time: the first are those of a shorter workload,
/// and the next is drawn from where that left the stream.
pub proof fn law_workloads_are_beginnings_of_longer_ones(
    stream: SplitMix64,
    shape: WorkloadShape,
    n: nat,
    more: nat,
)
    requires
        n < more,
    ensures
        drawn_ops(stream, shape, more).0.len() == more,
        drawn_ops(stream, shape, n).0 == drawn_ops(stream, shape, more).0.take(n as int),
        drawn_ops(stream, shape, more).0[n as int] == drawn_op(
            drawn_ops(stream, shape, n).1,
            shape,
        ).0,
        drawn_ops(stream, shape, n + 1).1 == drawn_op(drawn_ops(stream, shape, n).1, shape).1,
        drawn_ops(stream, shape, 0).1 == stream,
    decreases more,
{
    let p = (more - 1) as nat;
    let all = drawn_ops(stream, shape, more).0;
    let fore = drawn_ops(stream, shape, p).0;
    if n < p {
        law_workloads_are_beginnings_of_longer_ones(stream, shape, n, p);
        assert(all[n as int] == fore[n as int]);
        assert(all.take(n as int) =~= fore.take(n as int));
    } else {
        lemma_workload_len(stream, shape, n);
        assert(all.take(n as int) =~= fore);
    }
}

proof fn lemma_workload_len(stream: SplitMix64, shape: WorkloadShape, n: nat)
    ensures
        drawn_ops(stream, shape, n).0.len() == n,
    decreases n,
{
    if n > 0 {
        lemma_workload_len(stream, shape, (n - 1) as nat);
    }
}

/// The workload is made for the scenario's partitions and replicas, and for at least one
/// partition.
pub proof fn law_workloads_fit_their_scenario(params: ScenarioParameters, limits: ConsumeLimits)
    ensures
        shape_of(params, limits).partition_count > 0,
        params.partition_count > 0 ==> shape_of(params, limits).partition_count
            == params.partition_count,
        params.partition_count == 0 ==> shape_of(params, limits).partition_count == 1,
        shape_of(params, limits).replication_factor == params.replication_factor,
        shape_of(params, limits).limits == limits,
{
}

/// An operation is seen as it is: what it asks for, of which topic and partition, with
/// which key, value, start and limit.
pub proof fn law_operations_are_seen_as_they_are(op: ClientOperation)
    ensures
        match op {
            ClientOperation::CreateTopic { name, partition_count, replication_factor } => {
                &&& op@ is CreateTopic
                &&& op@->CreateTopic_name == name@
                &&& op@->partition_count == partition_count
                &&& op@->replication_factor == replication_factor
            },
            ClientOperation::DeleteTopic { name } => op@ is DeleteTopic && op@->DeleteTopic_name
                == name@,
            ClientOperation::Produce { topic, partition, key, value } => {
                &&& op@ is Produce
                &&& op@->Produce_topic == topic@
                &&& op@->Produce_partition == partition
                &&& op@->Produce_value == value@
                &&& op@->Produce_key is Some == key is Some
                &&& key is Some ==> op@->Produce_key->0 == (key->0)@
            },
            ClientOperation::Consume { topic, partition, start_offset, max_records } => {
                &&& op@ is Consume
                &&& op@->Consume_topic == topic@
                &&& op@->Consume_partition == partition
                &&& op@->Consume_start_offset == start_offset
                &&& op@->Consume_max_records == max_records
            },
        },
{
}

/// The operations of a workload are seen one for one.
pub proof fn law_workloads_are_seen_one_for_one(workload: Workload, i: int)
    ensures
        workload.views().len() == workload.ops@.len(),
        0 <= i < workload.ops@.len() ==> workload.views()[i] == workload.ops@[i]@,
{
}

/// Topics are named by number.
pub proof fn law_topics_are_numbered(i: nat, j: nat)
    ensures
        topic_name(i) == "dst-topic-"@ + text::decimal(i),
        topic_name(i) == topic_name(j) ==> i == j,
{
    let head = "dst-topic-"@;
    let a = text::decimal(i);
    let b = text::decimal(j);
    if head + a == head + b {
        let n = head.len() as int;
        assert((head + a).skip(n) =~= a);
        assert((head + b).skip(n) =~= b);
        text::law_decimal_injective(i, j);
    }
}

} // verus!
