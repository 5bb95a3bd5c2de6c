//! The byte form of a [`ClusterCommand`], as it stands in the metadata log.
//!
//! A command is a tag byte and its fields. Numbers are four little-endian bytes;
//! strings are a number, their length, and their UTF-8 bytes.

use crate::model::{
    ClusterCommand, CommandView, LogBackend, NodeAvailability, NodeId, Partition, PartitionIndex,
    PartitionView,
};
use vstd::prelude::*;
use vstd::utf8::*;

verus! {

/// The four little-endian bytes of `n`.
pub open spec fn le32(n: u32) -> Seq<u8> {
    seq![
        (n % 256) as u8,
        (n / 256 % 256) as u8,
        (n / 65536 % 256) as u8,
        (n / 16777216) as u8,
    ]
}

/// The number whose little-endian bytes lead `s`.
pub open spec fn from_le32(s: Seq<u8>) -> u32 {
    (s[0] + 256 * s[1] + 65536 * s[2] + 16777216 * s[3]) as u32
}

/// A byte string, preceded by its length.
pub open spec fn framed(bytes: Seq<u8>) -> Seq<u8> {
    le32(bytes.len() as u32) + bytes
}

/// A text, as its framed UTF-8 bytes.
pub open spec fn framed_text(s: Seq<char>) -> Seq<u8> {
    framed(encode_utf8(s))
}

/// Node names one after the other.
pub open spec fn encoded_names(names: Seq<Seq<char>>) -> Seq<u8>
    decreases names.len(),
{
    if names.len() == 0 {
        Seq::empty()
    } else {
        encoded_names(names.drop_last()) + framed_text(names.last())
    }
}

pub open spec fn encoded_leader(leader: Option<Seq<char>>) -> Seq<u8> {
    match leader {
        Some(name) => seq![1u8] + framed_text(name),
        None => seq![0u8],
    }
}

pub open spec fn encoded_partition(p: PartitionView) -> Seq<u8> {
    le32(p.index.0) + le32(p.replicas.len() as u32) + encoded_names(p.replicas) + encoded_leader(
        p.leader,
    )
}

/// Partitions one after the other.
pub open spec fn encoded_partitions(ps: Seq<PartitionView>) -> Seq<u8>
    decreases ps.len(),
{
    if ps.len() == 0 {
        Seq::empty()
    } else {
        encoded_partitions(ps.drop_last()) + encoded_partition(ps.last())
    }
}

pub open spec fn backend_byte(backend: LogBackend) -> u8 {
    match backend {
        LogBackend::Durable => 0,
        LogBackend::InMemory => 1,
    }
}

pub open spec fn availability_byte(availability: NodeAvailability) -> u8 {
    match availability {
        NodeAvailability::Available => 0,
        NodeAvailability::Unavailable => 1,
    }
}

/// The byte form of a command.
pub open spec fn encoded(command: CommandView) -> Seq<u8> {
    match command {
        CommandView::CreateTopic { name, partitions, backend } => seq![0u8] + framed_text(name)
            + le32(partitions.len() as u32) + encoded_partitions(partitions) + seq![
            backend_byte(backend),
        ],
        CommandView::DeleteTopic { name } => seq![1u8] + framed_text(name),
        CommandView::SetAvailability { node, availability } => seq![2u8] + framed_text(node) + seq![
            availability_byte(availability),
        ],
    }
}

/// A byte off the front.
pub open spec fn take_u8(s: Seq<u8>) -> Option<(u8, Seq<u8>)> {
    if s.len() >= 1 {
        Some((s[0], s.skip(1)))
    } else {
        None
    }
}

/// A number off the front.
pub open spec fn take_u32(s: Seq<u8>) -> Option<(u32, Seq<u8>)> {
    if s.len() >= 4 {
        Some((from_le32(s), s.skip(4)))
    } else {
        None
    }
}

/// A framed byte string off the front.
pub open spec fn take_bytes(s: Seq<u8>) -> Option<(Seq<u8>, Seq<u8>)> {
    match take_u32(s) {
        Some((n, t)) => if n <= t.len() {
            Some((t.take(n as int), t.skip(n as int)))
        } else {
            None
        },
        None => None,
    }
}

/// A framed text off the front.
pub open spec fn take_text(s: Seq<u8>) -> Option<(Seq<char>, Seq<u8>)> {
    match take_bytes(s) {
        Some((b, t)) => if valid_utf8(b) {
            Some((decode_utf8(b), t))
        } else {
            None
        },
        None => None,
    }
}

/// `n` framed texts off the front.
pub open spec fn take_names(s: Seq<u8>, n: nat) -> Option<(Seq<Seq<char>>, Seq<u8>)>
    decreases n,
{
    if n == 0 {
        Some((Seq::empty(), s))
    } else {
        match take_names(s, (n - 1) as nat) {
            Some((names, t)) => match take_text(t) {
                Some((name, u)) => Some((names.push(name), u)),
                None => None,
            },
            None => None,
        }
    }
}

/// A leader off the front: a flag that is 0 or 1, and a name where it is 1.
pub open spec fn take_leader(s: Seq<u8>) -> Option<(Option<Seq<char>>, Seq<u8>)> {
    match take_u8(s) {
        Some((flag, t)) => if flag == 1 {
            match take_text(t) {
                Some((name, u)) => Some((Some(name), u)),
                None => None,
            }
        } else if flag == 0 {
            Some((None, t))
        } else {
            None
        },
        None => None,
    }
}

/// A partition off the front.
pub open spec fn take_partition(s: Seq<u8>) -> Option<(PartitionView, Seq<u8>)> {
    match take_u32(s) {
        Some((index, t)) => match take_u32(t) {
            Some((count, u)) => match take_names(u, count as nat) {
                Some((replicas, v)) => match take_leader(v) {
                    Some((leader, w)) => Some(
                        (PartitionView { index: PartitionIndex(index), replicas, leader }, w),
                    ),
                    None => None,
                },
                None => None,
            },
            None => None,
        },
        None => None,
    }
}

/// `n` partitions off the front.
pub open spec fn take_partitions(s: Seq<u8>, n: nat) -> Option<(Seq<PartitionView>, Seq<u8>)>
    decreases n,
{
    if n == 0 {
        Some((Seq::empty(), s))
    } else {
        match take_partitions(s, (n - 1) as nat) {
            Some((ps, t)) => match take_partition(t) {
                Some((p, u)) => Some((ps.push(p), u)),
                None => None,
            },
            None => None,
        }
    }
}

/// A backend off the front.
pub open spec fn take_backend(s: Seq<u8>) -> Option<(LogBackend, Seq<u8>)> {
    match take_u8(s) {
        Some((byte, t)) => if byte == 0 {
            Some((LogBackend::Durable, t))
        } else if byte == 1 {
            Some((LogBackend::InMemory, t))
        } else {
            None
        },
        None => None,
    }
}

/// An availability off the front.
pub open spec fn take_availability(s: Seq<u8>) -> Option<(NodeAvailability, Seq<u8>)> {
    match take_u8(s) {
        Some((byte, t)) => if byte == 0 {
            Some((NodeAvailability::Available, t))
        } else if byte == 1 {
            Some((NodeAvailability::Unavailable, t))
        } else {
            None
        },
        None => None,
    }
}

/// The fields of a topic creation off the front.
pub open spec fn take_create(s: Seq<u8>) -> Option<(CommandView, Seq<u8>)> {
    match take_text(s) {
        Some((name, t)) => match take_u32(t) {
            Some((count, u)) => match take_partitions(u, count as nat) {
                Some((partitions, v)) => match take_backend(v) {
                    Some((backend, w)) => Some(
                        (CommandView::CreateTopic { name, partitions, backend }, w),
                    ),
                    None => None,
                },
                None => None,
            },
            None => None,
        },
        None => None,
    }
}

/// The field of a topic deletion off the front.
pub open spec fn take_delete(s: Seq<u8>) -> Option<(CommandView, Seq<u8>)> {
    match take_text(s) {
        Some((name, t)) => Some((CommandView::DeleteTopic { name }, t)),
        None => None,
    }
}

/// The fields of an availability change off the front.
pub open spec fn take_change(s: Seq<u8>) -> Option<(CommandView, Seq<u8>)> {
    match take_text(s) {
        Some((node, t)) => match take_availability(t) {
            Some((availability, u)) => Some(
                (CommandView::SetAvailability { node, availability }, u),
            ),
            None => None,
        },
        None => None,
    }
}

/// A command off the front.
pub open spec fn take_command(s: Seq<u8>) -> Option<(CommandView, Seq<u8>)> {
    match take_u8(s) {
        Some((tag, t)) => if tag == 0 {
            take_create(t)
        } else if tag == 1 {
            take_delete(t)
        } else if tag == 2 {
            take_change(t)
        } else {
            None
        },
        None => None,
    }
}

/// The command that `s` is the byte form of, if it is one.
pub open spec fn parsed(s: Seq<u8>) -> Option<CommandView> {
    match take_command(s) {
        Some((command, rest)) => if rest.len() == 0 {
            Some(command)
        } else {
            None
        },
        None => None,
    }
}

/// Whether every length in the command fits the four bytes it is written in.
pub open spec fn encodable(command: CommandView) -> bool {
    match command {
        CommandView::CreateTopic { name, partitions, backend } => {
            &&& encode_utf8(name).len() <= u32::MAX
            &&& partitions.len() <= u32::MAX
            &&& forall|i: int|
                0 <= i < partitions.len() ==> partition_encodable(#[trigger] partitions[i])
        },
        CommandView::DeleteTopic { name } => encode_utf8(name).len() <= u32::MAX,
        CommandView::SetAvailability { node, availability } => encode_utf8(node).len() <= u32::MAX,
    }
}

pub open spec fn partition_encodable(p: PartitionView) -> bool {
    &&& p.replicas.len() <= u32::MAX
    &&& forall|i: int|
        0 <= i < p.replicas.len() ==> encode_utf8(#[trigger] p.replicas[i]).len() <= u32::MAX
    &&& p.leader matches Some(name) ==> encode_utf8(name).len() <= u32::MAX
}

/// `String::from_utf8` from std: the text of valid UTF-8, nothing otherwise.
#[verifier::external_body]
fn utf8_string(bytes: Vec<u8>) -> (r: Option<String>)
    ensures
        r is Some == valid_utf8(bytes@),
        r matches Some(s) ==> s@ == decode_utf8(bytes@),
{
    String::from_utf8(bytes).ok()
}

/// Append the four bytes of `n`.
fn put_u32(buf: &mut Vec<u8>, n: u32)
    ensures
        final(buf)@ == old(buf)@ + le32(n),
{
    buf.push((n % 256) as u8);
    buf.push((n / 256 % 256) as u8);
    buf.push((n / 65536 % 256) as u8);
    buf.push((n / 16777216) as u8);
    assert(buf@ =~= old(buf)@ + le32(n));
}

/// Append a byte string, preceded by its length.
pub fn put_bytes(buf: &mut Vec<u8>, bytes: &[u8])
    ensures
        final(buf)@ == old(buf)@ + framed(bytes@),
{
    put_u32(buf, bytes.len() as u32);
    buf.extend_from_slice(bytes);
    assert(buf@ =~= old(buf)@ + framed(bytes@));
}

/// Append a text, preceded by its length.
pub fn put_str(buf: &mut Vec<u8>, s: &str)
    ensures
        final(buf)@ == old(buf)@ + framed_text(s@),
{
    put_bytes(buf, s.as_bytes());
}

fn put_names(buf: &mut Vec<u8>, names: &Vec<NodeId>)
    ensures
        final(buf)@ == old(buf)@ + encoded_names(crate::model::node_names(names@)),
{
    let ghost all = crate::model::node_names(names@);
    assert(all.take(0) =~= Seq::empty());
    let mut i: usize = 0;
    while i < names.len()
        invariant
            i <= names@.len(),
            all == crate::model::node_names(names@),
            buf@ == old(buf)@ + encoded_names(all.take(i as int)),
        decreases names@.len() - i,
    {
        put_str(buf, names[i].as_str());
        i += 1;
        assert(all.take(i as int).drop_last() =~= all.take(i - 1));
        assert(buf@ =~= old(buf)@ + encoded_names(all.take(i as int)));
    }
    assert(all.take(i as int) =~= all);
}

fn put_partition(buf: &mut Vec<u8>, partition: &Partition)
    ensures
        final(buf)@ == old(buf)@ + encoded_partition(partition@),
{
    put_u32(buf, partition.index.0);
    put_u32(buf, partition.replicas.len() as u32);
    put_names(buf, &partition.replicas);
    match &partition.leader {
        Some(leader) => {
            buf.push(1);
            put_str(buf, leader.as_str());
        },
        None => {
            buf.push(0);
        },
    }
    assert(buf@ =~= old(buf)@ + encoded_partition(partition@));
}

fn put_partitions(buf: &mut Vec<u8>, partitions: &Vec<Partition>)
    ensures
        final(buf)@ == old(buf)@ + encoded_partitions(crate::model::partition_views(partitions@)),
{
    let ghost all = crate::model::partition_views(partitions@);
    assert(all.take(0) =~= Seq::empty());
    let mut i: usize = 0;
    while i < partitions.len()
        invariant
            i <= partitions@.len(),
            all == crate::model::partition_views(partitions@),
            buf@ == old(buf)@ + encoded_partitions(all.take(i as int)),
        decreases partitions@.len() - i,
    {
        put_partition(buf, &partitions[i]);
        i += 1;
        assert(all.take(i as int).drop_last() =~= all.take(i - 1));
        assert(buf@ =~= old(buf)@ + encoded_partitions(all.take(i as int)));
    }
    assert(all.take(i as int) =~= all);
}

/// The byte form of `command`.
pub fn encode_cluster_command(command: &ClusterCommand) -> (r: Vec<u8>)
    ensures
        r@ == encoded(command@),
{
    let mut buf: Vec<u8> = Vec::new();
    match command {
        ClusterCommand::CreateTopic { name, partitions, backend } => {
            buf.push(0);
            put_str(&mut buf, name.as_str());
            put_u32(&mut buf, partitions.len() as u32);
            put_partitions(&mut buf, partitions);
            buf.push(
                match backend {
                    LogBackend::Durable => 0,
                    LogBackend::InMemory => 1,
                },
            );
        },
        ClusterCommand::DeleteTopic { name } => {
            buf.push(1);
            put_str(&mut buf, name.as_str());
        },
        ClusterCommand::SetAvailability { node, availability } => {
            buf.push(2);
            put_str(&mut buf, node.as_str());
            buf.push(
                match availability {
                    NodeAvailability::Available => 0,
                    NodeAvailability::Unavailable => 1,
                },
            );
        },
    }
    assert(buf@ =~= encoded(command@));
    buf
}

/// A cursor over encoded bytes.
pub struct Reader<'a> {
    data: &'a [u8],
    pos: usize,
}

impl<'a> Reader<'a> {
    pub closed spec fn wf(self) -> bool {
        self.pos <= self.data@.len()
    }

    /// The bytes still to be read.
    pub closed spec fn rest(self) -> Seq<u8> {
        self.data@.skip(self.pos as int)
    }

    pub fn new(data: &'a [u8]) -> (r: Self)
        ensures
            r.wf(),
            r.rest() == data@,
    {
        let r = Reader { data, pos: 0 };
        assert(r.rest() =~= data@);
        r
    }

    /// Whether every byte was read.
    pub fn is_done(&self) -> (r: bool)
        requires
            self.wf(),
        ensures
            r == (self.rest().len() == 0),
    {
        self.pos >= self.data.len()
    }

    /// Read a byte.
    pub fn u8(&mut self) -> (r: Option<u8>)
        requires
            old(self).wf(),
        ensures
            final(self).wf(),
            match take_u8(old(self).rest()) {
                Some((v, t)) => r == Some(v) && final(self).rest() == t,
                None => r is None,
            },
    {
        if self.pos < self.data.len() {
            let byte: u8 = self.data[self.pos];
            let ghost before = self.rest();
            self.pos = self.pos + 1;
            assert(self.rest() =~= before.skip(1));
            Some(byte)
        } else {
            None
        }
    }

    /// Read a number.
    pub fn u32(&mut self) -> (r: Option<u32>)
        requires
            old(self).wf(),
        ensures
            final(self).wf(),
            match take_u32(old(self).rest()) {
                Some((v, t)) => r == Some(v) && final(self).rest() == t,
                None => r is None,
            },
    {
        if self.data.len() - self.pos >= 4 {
            let ghost before = self.rest();
            let b0: u8 = self.data[self.pos];
            let b1: u8 = self.data[self.pos + 1];
            let b2: u8 = self.data[self.pos + 2];
            let b3: u8 = self.data[self.pos + 3];
            self.pos = self.pos + 4;
            assert(self.rest() =~= before.skip(4));
            Some(b0 as u32 + 256 * (b1 as u32) + 65536 * (b2 as u32) + 16777216 * (b3 as u32))
        } else {
            None
        }
    }

    /// Read a framed byte string.
    pub fn bytes(&mut self) -> (r: Option<Vec<u8>>)
        requires
            old(self).wf(),
        ensures
            final(self).wf(),
            match take_bytes(old(self).rest()) {
                Some((v, t)) => r is Some && r->0@ == v && final(self).rest() == t,
                None => r is None,
            },
    {
        let len: u32 = match self.u32() {
            Some(n) => n,
            None => {
                return None;
            },
        };
        let ghost before = self.rest();
        let total: usize = self.data.len();
        let left: usize = total - self.pos;
        assert(left == before.len());
        if len as u64 > left as u64 {
            return None;
        }
        let n: usize = len as usize;
        let start: usize = self.pos;
        let mut value: Vec<u8> = Vec::new();
        let mut i: usize = 0;
        while i < n
            invariant
                i <= n,
                start == self.pos,
                n <= before.len(),
                before == self.data@.skip(start as int),
                start + n <= total,
                total == self.data@.len(),
                value@ == before.take(i as int),
            decreases n - i,
        {
            value.push(self.data[start + i]);
            i += 1;
            assert(value@ =~= before.take(i as int));
        }
        self.pos = start + n;
        assert(self.rest() =~= before.skip(n as int));
        Some(value)
    }

    /// Read a framed text.
    pub fn string(&mut self) -> (r: Option<String>)
        requires
            old(self).wf(),
        ensures
            final(self).wf(),
            match take_text(old(self).rest()) {
                Some((v, t)) => r is Some && r->0@ == v && final(self).rest() == t,
                None => r is None,
            },
    {
        match self.bytes() {
            Some(raw) => utf8_string(raw),
            None => None,
        }
    }
}

/// Once a prefix of the names cannot be read, no longer list can.
proof fn lemma_names_fail(s: Seq<u8>, i: nat, n: nat)
    requires
        i <= n,
        take_names(s, i) is None,
    ensures
        take_names(s, n) is None,
    decreases n,
{
    if i < n {
        lemma_names_fail(s, i, (n - 1) as nat);
    }
}

/// Once a prefix of the partitions cannot be read, no longer list can.
proof fn lemma_partitions_fail(s: Seq<u8>, i: nat, n: nat)
    requires
        i <= n,
        take_partitions(s, i) is None,
    ensures
        take_partitions(s, n) is None,
    decreases n,
{
    if i < n {
        lemma_partitions_fail(s, i, (n - 1) as nat);
    }
}

/// Read `count` node names.
fn read_names(reader: &mut Reader<'_>, count: u32) -> (r: Option<Vec<NodeId>>)
    requires
        old(reader).wf(),
    ensures
        final(reader).wf(),
        match take_names(old(reader).rest(), count as nat) {
            Some((v, t)) => r is Some && crate::model::node_names(r->0@) == v
                && final(reader).rest() == t,
            None => r is None,
        },
{
    let ghost start = reader.rest();
    let mut names: Vec<NodeId> = Vec::new();
    let mut i: u32 = 0;
    assert(crate::model::node_names(names@) =~= Seq::empty());
    while i < count
        invariant
            i <= count,
            reader.wf(),
            start == old(reader).rest(),
            take_names(start, i as nat) == Some(
                (crate::model::node_names(names@), reader.rest()),
            ),
        decreases count - i,
    {
        let ghost before = names@;
        match reader.string() {
            Some(name) => {
                names.push(NodeId(name));
                assert(crate::model::node_names(names@) =~= crate::model::node_names(before).push(
                    name@,
                ));
            },
            None => {
                proof {
                    lemma_names_fail(start, (i + 1) as nat, count as nat);
                }
                return None;
            },
        }
        i += 1;
    }
    Some(names)
}

/// Read an optional leader.
fn read_leader(reader: &mut Reader<'_>) -> (r: Option<Option<NodeId>>)
    requires
        old(reader).wf(),
    ensures
        final(reader).wf(),
        match take_leader(old(reader).rest()) {
            Some((Some(v), t)) => r is Some && r->0 is Some && r->0->0@ == v
                && final(reader).rest() == t,
            Some((None, t)) => r is Some && r->0 is None && final(reader).rest() == t,
            None => r is None,
        },
{
    match reader.u8() {
        Some(flag) => if flag == 1 {
            match reader.string() {
                Some(name) => Some(Some(NodeId(name))),
                None => None,
            }
        } else if flag == 0 {
            Some(None)
        } else {
            None
        },
        None => None,
    }
}

/// Read a backend.
fn read_backend(reader: &mut Reader<'_>) -> (r: Option<LogBackend>)
    requires
        old(reader).wf(),
    ensures
        final(reader).wf(),
        match take_backend(old(reader).rest()) {
            Some((v, t)) => r == Some(v) && final(reader).rest() == t,
            None => r is None,
        },
{
    match reader.u8() {
        Some(byte) => if byte == 0 {
            Some(LogBackend::Durable)
        } else if byte == 1 {
            Some(LogBackend::InMemory)
        } else {
            None
        },
        None => None,
    }
}

/// Read an availability.
fn read_availability(reader: &mut Reader<'_>) -> (r: Option<NodeAvailability>)
    requires
        old(reader).wf(),
    ensures
        final(reader).wf(),
        match take_availability(old(reader).rest()) {
            Some((v, t)) => r == Some(v) && final(reader).rest() == t,
            None => r is None,
        },
{
    match reader.u8() {
        Some(byte) => if byte == 0 {
            Some(NodeAvailability::Available)
        } else if byte == 1 {
            Some(NodeAvailability::Unavailable)
        } else {
            None
        },
        None => None,
    }
}

/// Read one partition.
fn read_partition(reader: &mut Reader<'_>) -> (r: Option<Partition>)
    requires
        old(reader).wf(),
    ensures
        final(reader).wf(),
        match take_partition(old(reader).rest()) {
            Some((v, t)) => r is Some && r->0@ == v && final(reader).rest() == t,
            None => r is None,
        },
{
    let index: u32 = match reader.u32() {
        Some(v) => v,
        None => {
            return None;
        },
    };
    let count: u32 = match reader.u32() {
        Some(v) => v,
        None => {
            return None;
        },
    };
    let replicas = match read_names(reader, count) {
        Some(v) => v,
        None => {
            return None;
        },
    };
    let leader = match read_leader(reader) {
        Some(v) => v,
        None => {
            return None;
        },
    };
    Some(Partition { index: PartitionIndex(index), replicas, leader })
}

/// Read `count` partitions.
fn read_partitions(reader: &mut Reader<'_>, count: u32) -> (r: Option<Vec<Partition>>)
    requires
        old(reader).wf(),
    ensures
        final(reader).wf(),
        match take_partitions(old(reader).rest(), count as nat) {
            Some((v, t)) => r is Some && crate::model::partition_views(r->0@) == v
                && final(reader).rest() == t,
            None => r is None,
        },
{
    let ghost start = reader.rest();
    let mut partitions: Vec<Partition> = Vec::new();
    let mut i: u32 = 0;
    assert(crate::model::partition_views(partitions@) =~= Seq::empty());
    while i < count
        invariant
            i <= count,
            reader.wf(),
            start == old(reader).rest(),
            take_partitions(start, i as nat) == Some(
                (crate::model::partition_views(partitions@), reader.rest()),
            ),
        decreases count - i,
    {
        let ghost before = partitions@;
        match read_partition(reader) {
            Some(partition) => {
                partitions.push(partition);
                assert(crate::model::partition_views(partitions@)
                    =~= crate::model::partition_views(before).push(partition@));
            },
            None => {
                proof {
                    lemma_partitions_fail(start, (i + 1) as nat, count as nat);
                }
                return None;
            },
        }
        i += 1;
    }
    Some(partitions)
}

/// Read the fields of a topic creation.
fn read_create(reader: &mut Reader<'_>) -> (r: Option<ClusterCommand>)
    requires
        old(reader).wf(),
    ensures
        final(reader).wf(),
        match take_create(old(reader).rest()) {
            Some((v, t)) => r is Some && r->0@ == v && final(reader).rest() == t,
            None => r is None,
        },
{
    let name = match reader.string() {
        Some(v) => v,
        None => {
            return None;
        },
    };
    let count: u32 = match reader.u32() {
        Some(v) => v,
        None => {
            return None;
        },
    };
    let partitions = match read_partitions(reader, count) {
        Some(v) => v,
        None => {
            return None;
        },
    };
    match read_backend(reader) {
        Some(backend) => Some(ClusterCommand::CreateTopic { name, partitions, backend }),
        None => None,
    }
}

/// Read the fields of an availability change.
fn read_change(reader: &mut Reader<'_>) -> (r: Option<ClusterCommand>)
    requires
        old(reader).wf(),
    ensures
        final(reader).wf(),
        match take_change(old(reader).rest()) {
            Some((v, t)) => r is Some && r->0@ == v && final(reader).rest() == t,
            None => r is None,
        },
{
    let node = match reader.string() {
        Some(v) => NodeId(v),
        None => {
            return None;
        },
    };
    match read_availability(reader) {
        Some(availability) => Some(ClusterCommand::SetAvailability { node, availability }),
        None => None,
    }
}

/// Read a command.
fn read_command(reader: &mut Reader<'_>) -> (r: Option<ClusterCommand>)
    requires
        old(reader).wf(),
    ensures
        final(reader).wf(),
        match take_command(old(reader).rest()) {
            Some((v, t)) => r is Some && r->0@ == v && final(reader).rest() == t,
            None => r is None,
        },
{
    let tag: u8 = match reader.u8() {
        Some(v) => v,
        None => {
            return None;
        },
    };
    if tag == 0 {
        read_create(reader)
    } else if tag == 1 {
        match reader.string() {
            Some(name) => Some(ClusterCommand::DeleteTopic { name }),
            None => None,
        }
    } else if tag == 2 {
        read_change(reader)
    } else {
        None
    }
}

/// The command that `data` is the byte form of, or `None` for bytes that are no
/// command's byte form.
pub fn try_decode_cluster_command(data: &[u8]) -> (r: Option<ClusterCommand>)
    ensures
        match parsed(data@) {
            Some(v) => r is Some && r->0@ == v,
            None => r is None,
        },
{
    let mut reader = Reader::new(data);
    match read_command(&mut reader) {
        Some(command) => if reader.is_done() {
            Some(command)
        } else {
            None
        },
        None => None,
    }
}

/// The command that `data` is the byte form of.
pub fn decode_cluster_command(data: &[u8]) -> (r: ClusterCommand)
    requires
        parsed(data@) is Some,
    ensures
        r@ == parsed(data@)->0,
        data@ == encoded(r@),
{
    proof {
        law_only_encodings_parse(data@);
    }
    match try_decode_cluster_command(data) {
        Some(command) => command,
        None => {
            assert(false);
            ClusterCommand::DeleteTopic { name: String::new() }
        },
    }
}

/// Numbers read back as written.
proof fn lemma_u32_round_trip(n: u32, rest: Seq<u8>)
    ensures
        take_u32(le32(n) + rest) == Some((n, rest)),
{
    let s = le32(n) + rest;
    assert(s.skip(4) =~= rest);
    assert(s[0] + 256 * s[1] + 65536 * s[2] + 16777216 * s[3] == n);
}

/// Texts read back as written.
proof fn lemma_text_round_trip(text: Seq<char>, rest: Seq<u8>)
    requires
        encode_utf8(text).len() <= u32::MAX,
    ensures
        take_text(framed_text(text) + rest) == Some((text, rest)),
{
    let b = encode_utf8(text);
    let n = b.len() as u32;
    assert(framed_text(text) + rest =~= le32(n) + (b + rest));
    lemma_u32_round_trip(n, b + rest);
    assert((b + rest).take(n as int) =~= b);
    assert((b + rest).skip(n as int) =~= rest);
    encode_utf8_valid_utf8(text);
    encode_utf8_decode_utf8(text);
}

/// Name lists read back as written.
proof fn lemma_names_round_trip(names: Seq<Seq<char>>, rest: Seq<u8>)
    requires
        forall|i: int| 0 <= i < names.len() ==> encode_utf8(#[trigger] names[i]).len() <= u32::MAX,
    ensures
        take_names(encoded_names(names) + rest, names.len()) == Some((names, rest)),
    decreases names.len(),
{
    if names.len() == 0 {
        assert(encoded_names(names) + rest =~= rest);
        assert(names =~= Seq::empty());
    } else {
        let init = names.drop_last();
        let tail = framed_text(names.last()) + rest;
        assert(encoded_names(names) + rest =~= encoded_names(init) + tail);
        lemma_names_round_trip(init, tail);
        lemma_text_round_trip(names.last(), rest);
        assert(init.push(names.last()) =~= names);
    }
}

/// Partitions read back as written.
proof fn lemma_partition_round_trip(p: PartitionView, rest: Seq<u8>)
    requires
        partition_encodable(p),
    ensures
        take_partition(encoded_partition(p) + rest) == Some((p, rest)),
{
    let leader = encoded_leader(p.leader);
    let names = encoded_names(p.replicas);
    let count = p.replicas.len() as u32;
    assert(encoded_partition(p) + rest =~= le32(p.index.0) + (le32(count) + (names + (leader
        + rest))));
    lemma_u32_round_trip(p.index.0, le32(count) + (names + (leader + rest)));
    lemma_u32_round_trip(count, names + (leader + rest));
    lemma_names_round_trip(p.replicas, leader + rest);
    match p.leader {
        Some(name) => {
            assert((leader + rest).skip(1) =~= framed_text(name) + rest);
            lemma_text_round_trip(name, rest);
        },
        None => {
            assert((leader + rest).skip(1) =~= rest);
        },
    }
}

/// Partition lists read back as written.
proof fn lemma_partitions_round_trip(ps: Seq<PartitionView>, rest: Seq<u8>)
    requires
        forall|i: int| 0 <= i < ps.len() ==> partition_encodable(#[trigger] ps[i]),
    ensures
        take_partitions(encoded_partitions(ps) + rest, ps.len()) == Some((ps, rest)),
    decreases ps.len(),
{
    if ps.len() == 0 {
        assert(encoded_partitions(ps) + rest =~= rest);
        assert(ps =~= Seq::empty());
    } else {
        let init = ps.drop_last();
        let tail = encoded_partition(ps.last()) + rest;
        assert(encoded_partitions(ps) + rest =~= encoded_partitions(init) + tail);
        lemma_partitions_round_trip(init, tail);
        lemma_partition_round_trip(ps.last(), rest);
        assert(init.push(ps.last()) =~= ps);
    }
}

/// A tag byte comes off whatever follows it.
proof fn lemma_tag(tag: u8, body: Seq<u8>)
    ensures
        take_u8(seq![tag] + body) == Some((tag, body)),
{
    assert((seq![tag] + body).skip(1) =~= body);
}

/// How five parts are put together does not matter.
proof fn lemma_five_parts(a: Seq<u8>, b: Seq<u8>, c: Seq<u8>, d: Seq<u8>, e: Seq<u8>)
    ensures
        a + b + c + d + e == a + (b + (c + (d + e))),
{
    assert(a + b + c + d + e =~= a + (b + (c + (d + e))));
}

/// How six parts are put together does not matter.
proof fn lemma_six_parts(
    a: Seq<u8>,
    b: Seq<u8>,
    c: Seq<u8>,
    d: Seq<u8>,
    e: Seq<u8>,
    f: Seq<u8>,
)
    ensures
        a + b + c + d + e + f == a + (b + (c + (d + (e + f)))),
{
    assert(a + b + c + d + e + f =~= a + (b + (c + (d + (e + f)))));
}

/// How three parts are put together does not matter.
proof fn lemma_three_parts(a: Seq<u8>, b: Seq<u8>, c: Seq<u8>)
    ensures
        a + b + c == a + (b + c),
{
    assert(a + b + c =~= a + (b + c));
}

/// Topic creations read back as written.
proof fn lemma_create_round_trip(
    name: Seq<char>,
    partitions: Seq<PartitionView>,
    backend: LogBackend,
    trailing: Seq<u8>,
)
    requires
        encodable(CommandView::CreateTopic { name, partitions, backend }),
    ensures
        take_command(encoded(CommandView::CreateTopic { name, partitions, backend }) + trailing)
            == Some((CommandView::CreateTopic { name, partitions, backend }, trailing)),
{
    let last = seq![backend_byte(backend)] + trailing;
    let count = partitions.len() as u32;
    let ps = encoded_partitions(partitions);
    let text = framed_text(name);
    let body = text + (le32(count) + (ps + last));
    lemma_six_parts(
        seq![0u8],
        text,
        le32(count),
        ps,
        seq![backend_byte(backend)],
        trailing,
    );
    assert(encoded(CommandView::CreateTopic { name, partitions, backend }) + trailing == seq![0u8]
        + body);
    lemma_tag(0, body);
    lemma_text_round_trip(name, le32(count) + (ps + last));
    lemma_u32_round_trip(count, ps + last);
    lemma_partitions_round_trip(partitions, last);
    lemma_tag(backend_byte(backend), trailing);
}

/// Topic deletions read back as written.
proof fn lemma_delete_round_trip(name: Seq<char>, trailing: Seq<u8>)
    requires
        encodable(CommandView::DeleteTopic { name }),
    ensures
        take_command(encoded(CommandView::DeleteTopic { name }) + trailing) == Some(
            (CommandView::DeleteTopic { name }, trailing),
        ),
{
    let body = framed_text(name) + trailing;
    assert(encoded(CommandView::DeleteTopic { name }) + trailing =~= seq![1u8] + body);
    lemma_tag(1, body);
    lemma_text_round_trip(name, trailing);
}

/// Availability changes read back as written.
proof fn lemma_availability_round_trip(
    node: Seq<char>,
    availability: NodeAvailability,
    trailing: Seq<u8>,
)
    requires
        encodable(CommandView::SetAvailability { node, availability }),
    ensures
        take_command(encoded(CommandView::SetAvailability { node, availability }) + trailing)
            == Some((CommandView::SetAvailability { node, availability }, trailing)),
{
    let last = seq![availability_byte(availability)] + trailing;
    let body = framed_text(node) + last;
    assert(encoded(CommandView::SetAvailability { node, availability }) + trailing =~= seq![2u8]
        + body);
    lemma_tag(2, body);
    lemma_text_round_trip(node, last);
    lemma_tag(availability_byte(availability), trailing);
}

/// A byte form is read off the front of whatever follows it.
proof fn lemma_command_round_trip(command: CommandView, trailing: Seq<u8>)
    requires
        encodable(command),
    ensures
        take_command(encoded(command) + trailing) == Some((command, trailing)),
{
    match command {
        CommandView::CreateTopic { name, partitions, backend } => {
            lemma_create_round_trip(name, partitions, backend, trailing);
        },
        CommandView::DeleteTopic { name } => {
            lemma_delete_round_trip(name, trailing);
        },
        CommandView::SetAvailability { node, availability } => {
            lemma_availability_round_trip(node, availability, trailing);
        },
    }
}

/// Decoding gives back the command that was encoded.
pub proof fn law_decode_inverts_encode(command: CommandView)
    requires
        encodable(command),
    ensures
        parsed(encoded(command)) == Some(command),
{
    lemma_command_round_trip(command, Seq::empty());
    assert(encoded(command) + Seq::<u8>::empty() =~= encoded(command));
}

/// Two commands never share a byte form.
pub proof fn law_encoding_is_injective(a: CommandView, b: CommandView)
    requires
        encodable(a),
        encodable(b),
        encoded(a) == encoded(b),
    ensures
        a == b,
{
    law_decode_inverts_encode(a);
    law_decode_inverts_encode(b);
}

/// Four bytes are the little-endian bytes of the number they make.
proof fn lemma_four_bytes(b0: u8, b1: u8, b2: u8, b3: u8, n: u32)
    requires
        n == b0 + 256 * b1 + 65536 * b2 + 16777216 * b3,
    ensures
        n % 256 == b0,
        n / 256 % 256 == b1,
        n / 65536 % 256 == b2,
        n / 16777216 == b3,
{
    let high = b1 + 256 * b2 + 65536 * b3;
    let top = b2 + 256 * b3;
    assert(n == b0 + 256 * high);
    assert(n / 256 == high);
    assert(n / 65536 == top) by {
        assert(n == (b0 + 256 * b1) + 65536 * top);
    }
}

/// A number was written as the bytes it is read from.
proof fn lemma_u32_read(s: Seq<u8>)
    requires
        take_u32(s) is Some,
    ensures
        s == le32((take_u32(s)->0).0) + (take_u32(s)->0).1,
{
    let n = from_le32(s);
    lemma_four_bytes(s[0], s[1], s[2], s[3], n);
    assert(s =~= le32(n) + s.skip(4));
}

/// A text was written as the bytes it is read from.
proof fn lemma_text_read(s: Seq<u8>)
    requires
        take_text(s) is Some,
    ensures
        s == framed_text((take_text(s)->0).0) + (take_text(s)->0).1,
        encode_utf8((take_text(s)->0).0).len() <= u32::MAX,
{
    lemma_u32_read(s);
    let (n, t) = take_u32(s)->0;
    let b = t.take(n as int);
    decode_utf8_encode_utf8(b);
    assert(b + t.skip(n as int) =~= t);
    assert(s =~= le32(n) + b + t.skip(n as int));
}

proof fn lemma_names_read(s: Seq<u8>, n: nat)
    requires
        take_names(s, n) is Some,
    ensures
        s == encoded_names((take_names(s, n)->0).0) + (take_names(s, n)->0).1,
        (take_names(s, n)->0).0.len() == n,
        forall|i: int|
            0 <= i < n ==> encode_utf8(#[trigger] (take_names(s, n)->0).0[i]).len() <= u32::MAX,
    decreases n,
{
    if n == 0 {
        assert(s =~= encoded_names(Seq::empty()) + s);
    } else {
        lemma_names_read(s, (n - 1) as nat);
        let (names, t) = take_names(s, (n - 1) as nat)->0;
        lemma_text_read(t);
        let (name, u) = take_text(t)->0;
        assert(names.push(name).drop_last() =~= names);
        assert(s =~= encoded_names(names) + framed_text(name) + u);
    }
}

proof fn lemma_leader_read(s: Seq<u8>)
    requires
        take_leader(s) is Some,
    ensures
        s == encoded_leader((take_leader(s)->0).0) + (take_leader(s)->0).1,
        (take_leader(s)->0).0 matches Some(name) ==> encode_utf8(name).len() <= u32::MAX,
{
    let t = s.skip(1);
    if s[0] == 1 {
        lemma_text_read(t);
    }
    assert(s =~= seq![s[0]] + t);
    assert(s =~= encoded_leader((take_leader(s)->0).0) + (take_leader(s)->0).1);
}

proof fn lemma_partition_read(s: Seq<u8>)
    requires
        take_partition(s) is Some,
    ensures
        s == encoded_partition((take_partition(s)->0).0) + (take_partition(s)->0).1,
        partition_encodable((take_partition(s)->0).0),
{
    lemma_u32_read(s);
    let (index, t) = take_u32(s)->0;
    lemma_u32_read(t);
    let (count, u) = take_u32(t)->0;
    lemma_names_read(u, count as nat);
    let (replicas, v) = take_names(u, count as nat)->0;
    lemma_leader_read(v);
    let (leader, w) = take_leader(v)->0;
    lemma_five_parts(
        le32(index),
        le32(count),
        encoded_names(replicas),
        encoded_leader(leader),
        w,
    );
}

proof fn lemma_partitions_read(s: Seq<u8>, n: nat)
    requires
        take_partitions(s, n) is Some,
    ensures
        s == encoded_partitions((take_partitions(s, n)->0).0) + (take_partitions(s, n)->0).1,
        (take_partitions(s, n)->0).0.len() == n,
        forall|i: int|
            0 <= i < n ==> partition_encodable(#[trigger] (take_partitions(s, n)->0).0[i]),
    decreases n,
{
    if n == 0 {
        assert(s =~= encoded_partitions(Seq::empty()) + s);
    } else {
        lemma_partitions_read(s, (n - 1) as nat);
        let (ps, t) = take_partitions(s, (n - 1) as nat)->0;
        lemma_partition_read(t);
        let (p, u) = take_partition(t)->0;
        assert(ps.push(p).drop_last() =~= ps);
        assert(s =~= encoded_partitions(ps) + encoded_partition(p) + u);
    }
}

/// Only byte forms are read: bytes that decode are what the command that they decode to
/// is encoded as.
pub proof fn law_only_encodings_parse(s: Seq<u8>)
    requires
        parsed(s) is Some,
    ensures
        s == encoded(parsed(s)->0),
        encodable(parsed(s)->0),
{
    let tag = s[0];
    let t = s.skip(1);
    assert(s =~= seq![tag] + t);
    lemma_text_read(t);
    let (name, u) = take_text(t)->0;
    let a = framed_text(name);
    if tag == 0 {
        lemma_u32_read(u);
        let (count, v) = take_u32(u)->0;
        lemma_partitions_read(v, count as nat);
        let (ps, w) = take_partitions(v, count as nat)->0;
        let (backend, rest) = take_backend(w)->0;
        assert(w =~= seq![backend_byte(backend)]);
        lemma_five_parts(seq![tag], a, le32(count), encoded_partitions(ps), w);
    } else if tag == 1 {
        assert(a + u =~= a);
    } else {
        let (availability, rest) = take_availability(u)->0;
        assert(u =~= seq![availability_byte(availability)]);
        lemma_three_parts(seq![tag], a, u);
    }
}

/// No byte form is the beginning of another.
proof fn lemma_no_form_leads_another(a: CommandView, b: CommandView, tail: Seq<u8>)
    requires
        encodable(a),
        encodable(b),
        encoded(a) == encoded(b) + tail,
    ensures
        tail.len() == 0,
{
    lemma_command_round_trip(b, tail);
    lemma_command_round_trip(a, Seq::empty());
    assert(encoded(a) + Seq::<u8>::empty() == encoded(a)) by {
        let s = encoded(a);
        assert(s + Seq::<u8>::empty() =~= s);
    }
}

/// A byte form that was cut short never decodes.
pub proof fn law_cut_encodings_are_refused(command: CommandView, k: int)
    requires
        encodable(command),
        0 <= k < encoded(command).len(),
    ensures
        parsed(encoded(command).take(k)) is None,
{
    let s = encoded(command);
    let head = s.take(k);
    assert(s == head + s.skip(k)) by {
        assert(s =~= head + s.skip(k));
    }
    assert(s.skip(k).len() > 0);
    if parsed(head) is Some {
        law_only_encodings_parse(head);
        lemma_no_form_leads_another(command, parsed(head)->0, s.skip(k));
    }
}

/// A byte form with bytes after it never decodes.
pub proof fn law_extended_encodings_are_refused(command: CommandView, more: Seq<u8>)
    requires
        encodable(command),
        more.len() > 0,
    ensures
        parsed(encoded(command) + more) is None,
{
    lemma_command_round_trip(command, more);
}

/// Bytes that start with anything but the tag of a command never decode.
pub proof fn law_unknown_tags_are_refused(s: Seq<u8>)
    requires
        s.len() == 0 || s[0] > 2,
    ensures
        parsed(s) is None,
{
}

/// Whether four bytes of `s` from `at` on are the number `n`, the least byte first.
pub open spec fn number_at(s: Seq<u8>, at: int, n: int) -> bool {
    &&& 0 <= at && at + 4 <= s.len()
    &&& n == s[at] + 0x100 * s[at + 1] + 0x1_0000 * s[at + 2] + 0x100_0000 * s[at + 3]
}

/// Whether the text `t` stands in `s` from `at` on: its length in bytes, and then those.
pub open spec fn text_at(s: Seq<u8>, at: int, t: Seq<char>) -> bool {
    let bytes = encode_utf8(t);
    &&& number_at(s, at, bytes.len() as int)
    &&& at + 4 + bytes.len() <= s.len()
    &&& s.subrange(at + 4, at + 4 + bytes.len()) == bytes
}

proof fn lemma_number(n: u32)
    ensures
        le32(n).len() == 4,
        number_at(le32(n), 0, n as int),
{
}

proof fn lemma_text_within(head: Seq<u8>, t: Seq<char>, tail: Seq<u8>)
    requires
        encode_utf8(t).len() <= u32::MAX,
    ensures
        text_at(head + framed_text(t) + tail, head.len() as int, t),
        framed_text(t).len() == 4 + encode_utf8(t).len(),
{
    let bytes = encode_utf8(t);
    let n = le32(bytes.len() as u32);
    lemma_number(bytes.len() as u32);
    let s = head + framed_text(t) + tail;
    let at = head.len() as int;
    assert(framed_text(t) == n + bytes);
    assert(s[at] == n[0] && s[at + 1] == n[1] && s[at + 2] == n[2] && s[at + 3] == n[3]);
    assert(s.subrange(at + 4, at + 4 + bytes.len()) =~= bytes);
}

/// How a deletion is written: its tag, and the topic.
pub proof fn law_the_layout_of_a_deletion(name: Seq<char>)
    requires
        encode_utf8(name).len() <= u32::MAX,
    ensures
        ({
            let s = encoded(CommandView::DeleteTopic { name });
            &&& s.len() == 5 + encode_utf8(name).len()
            &&& s[0] == 1
            &&& text_at(s, 1, name)
        }),
{
    let s = encoded(CommandView::DeleteTopic { name });
    lemma_text_within(seq![1u8], name, Seq::empty());
    assert(s =~= seq![1u8] + framed_text(name) + Seq::<u8>::empty());
}

/// How a change of availability is written: its tag, the node, and zero for available or
/// one for unavailable.
pub proof fn law_the_layout_of_a_change(node: Seq<char>, availability: NodeAvailability)
    requires
        encode_utf8(node).len() <= u32::MAX,
    ensures
        ({
            let s = encoded(CommandView::SetAvailability { node, availability });
            &&& s.len() == 6 + encode_utf8(node).len()
            &&& s[0] == 2
            &&& text_at(s, 1, node)
            &&& s.last() == 0 <==> availability is Available
            &&& s.last() == 1 <==> availability is Unavailable
        }),
{
    let s = encoded(CommandView::SetAvailability { node, availability });
    let tail = seq![availability_byte(availability)];
    lemma_text_within(seq![2u8], node, tail);
    assert(s =~= seq![2u8] + framed_text(node) + tail);
    assert(s.last() == tail[0]);
}

/// How a creation is written: its tag, the topic, the number of partitions, each of these
/// in turn, and zero for a durable log or one for a log in memory.
pub proof fn law_the_layout_of_a_creation(
    name: Seq<char>,
    partitions: Seq<PartitionView>,
    backend: LogBackend,
)
    requires
        encode_utf8(name).len() <= u32::MAX,
        partitions.len() <= u32::MAX,
    ensures
        ({
            let s = encoded(CommandView::CreateTopic { name, partitions, backend });
            let at = 5 + encode_utf8(name).len() as int;
            let list = encoded_partitions(partitions);
            &&& s.len() == at + 4 + list.len() + 1
            &&& s[0] == 0
            &&& text_at(s, 1, name)
            &&& number_at(s, at, partitions.len() as int)
            &&& s.subrange(at + 4, at + 4 + list.len()) == list
            &&& s.last() == 0 <==> backend is Durable
            &&& s.last() == 1 <==> backend is InMemory
        }),
{
    let s = encoded(CommandView::CreateTopic { name, partitions, backend });
    let list = encoded_partitions(partitions);
    let n = le32(partitions.len() as u32);
    let end = seq![backend_byte(backend)];
    let tail = n + list + end;
    lemma_number(partitions.len() as u32);
    lemma_text_within(seq![0u8], name, tail);
    lemma_within(seq![0u8] + framed_text(name), n, list, end);
    assert(s[0] == 0) by {
        assert((seq![0u8] + framed_text(name))[0] == 0u8);
    }
}

proof fn lemma_within(head: Seq<u8>, n: Seq<u8>, list: Seq<u8>, end: Seq<u8>)
    requires
        n.len() == 4,
        end.len() == 1,
    ensures
        ({
            let s = head + n + list + end;
            let at = head.len() as int;
            &&& s == head + (n + list + end)
            &&& s.len() == at + 4 + list.len() + 1
            &&& s[at] == n[0] && s[at + 1] == n[1] && s[at + 2] == n[2] && s[at + 3] == n[3]
            &&& s.subrange(at + 4, at + 4 + list.len()) == list
            &&& s.last() == end[0]
            &&& head.len() > 0 ==> s[0] == head[0]
        }),
{
    let s = head + n + list + end;
    let at = head.len() as int;
    assert(s =~= head + (n + list + end));
    assert(s.subrange(at + 4, at + 4 + list.len()) =~= list);
}

/// How a partition is written: its number, the number of its replicas, each of these in
/// turn, and one with its leader or zero for none.
pub proof fn law_the_layout_of_a_partition(p: PartitionView)
    requires
        partition_encodable(p),
    ensures
        ({
            let s = encoded_partition(p);
            let names = encoded_names(p.replicas);
            let at = 8 + names.len() as int;
            &&& number_at(s, 0, p.index.0 as int)
            &&& number_at(s, 4, p.replicas.len() as int)
            &&& s.subrange(8, at) == names
            &&& p.leader is None ==> s.len() == at + 1 && s[at] == 0
            &&& p.leader matches Some(leader) ==> s[at] == 1 && text_at(s, at + 1, leader)
                && s.len() == at + 5 + encode_utf8(leader).len()
        }),
{
    let s = encoded_partition(p);
    let names = encoded_names(p.replicas);
    let i = le32(p.index.0);
    let n = le32(p.replicas.len() as u32);
    let lead = encoded_leader(p.leader);
    lemma_number(p.index.0);
    lemma_number(p.replicas.len() as u32);
    let at = 8 + names.len() as int;
    assert(s == i + n + names + lead);
    assert(s[0] == i[0] && s[1] == i[1] && s[2] == i[2] && s[3] == i[3]);
    assert(s[4] == n[0] && s[5] == n[1] && s[6] == n[2] && s[7] == n[3]);
    assert(s.subrange(8, at) =~= names);
    assert(s[at] == lead[0]);
    match p.leader {
        Some(leader) => {
            let head = i + n + names + seq![1u8];
            lemma_text_within(head, leader, Seq::empty());
            assert(s =~= head + framed_text(leader) + Seq::<u8>::empty());
        },
        None => {},
    }
}

/// Partitions and replicas are written one behind the other, in their order.
pub proof fn law_lists_are_written_in_order(
    ps: Seq<PartitionView>,
    p: PartitionView,
    names: Seq<Seq<char>>,
    name: Seq<char>,
)
    ensures
        encoded_partitions(Seq::empty()).len() == 0,
        encoded_partitions(ps.push(p)) == encoded_partitions(ps) + encoded_partition(p),
        encoded_names(Seq::empty()).len() == 0,
        encoded_names(names.push(name)) == encoded_names(names) + framed_text(name),
{
    assert(ps.push(p).drop_last() =~= ps);
    assert(names.push(name).drop_last() =~= names);
}

} // verus!
