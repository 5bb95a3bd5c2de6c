//! The domain values that a simulated cluster is made of: identifiers, log
//! entries, records and cluster commands.

use crate::text;
use vstd::prelude::*;

verus! {

/// A position in a partition's committed log.
pub type Offset = u64;

/// A partition's index within its topic.
#[derive(Clone, Copy, Debug, PartialEq, Eq, PartialOrd, Ord, Hash, Structural)]
pub struct PartitionIndex(pub u32);

impl View for PartitionIndex {
    type V = PartitionIndex;

    open spec fn view(&self) -> PartitionIndex {
        *self
    }
}

/// A node's name in the cluster.
#[derive(Debug, PartialEq, Eq, PartialOrd, Ord, Hash)]
pub struct NodeId(pub String);

impl View for NodeId {
    type V = Seq<char>;

    open spec fn view(&self) -> Seq<char> {
        self.0@
    }
}

impl Clone for NodeId {
    fn clone(&self) -> (r: Self)
        ensures
            r == *self,
    {
        NodeId(self.0.clone())
    }
}

impl NodeId {
    pub fn new(name: &str) -> (r: Self)
        ensures
            r@ == name@,
    {
        NodeId(name.to_owned())
    }

    pub fn as_str(&self) -> (r: &str)
        ensures
            r@ == self@,
    {
        self.0.as_str()
    }

    /// Whether two names read the same.
    pub fn same(&self, other: &NodeId) -> (r: bool)
        ensures
            r == (self@ == other@),
    {
        self.0 == other.0
    }
}

/// A node's numeric name inside a consensus group.
#[derive(Clone, Copy, Debug, PartialEq, Eq, PartialOrd, Ord, Hash, Structural)]
pub struct RaftNodeId(pub u64);

/// The consensus group of one topic partition.
pub type GroupKey = (String, PartitionIndex);

/// A group key as a mathematical value.
pub type GroupView = (Seq<char>, PartitionIndex);

/// The key of the metadata group.
pub open spec fn meta_group() -> GroupView {
    ("__meta"@, PartitionIndex(0))
}

/// The key of the group that replicates the cluster's metadata.
pub fn metadata_group_key() -> (r: GroupKey)
    ensures
        r@ == meta_group(),
{
    ("__meta".to_owned(), PartitionIndex(0))
}

/// Whether two group keys are equal.
pub fn same_group(a: &GroupKey, b: &GroupKey) -> (r: bool)
    ensures
        r == (a@ == b@),
{
    a.0 == b.0 && a.1.0 == b.1.0
}

/// Whether `group` is the metadata group.
pub fn is_metadata_group(group: &GroupKey) -> (r: bool)
    ensures
        r == (group@ == meta_group()),
{
    same_group(group, &metadata_group_key())
}

pub fn clone_group(group: &GroupKey) -> (r: GroupKey)
    ensures
        r == *group,
{
    (group.0.clone(), group.1)
}

/// Whether two byte strings are equal.
pub fn same_bytes(a: &[u8], b: &[u8]) -> (r: bool)
    ensures
        r == (a@ == b@),
{
    if a.len() != b.len() {
        return false;
    }
    let mut i: usize = 0;
    while i < a.len()
        invariant
            i <= a@.len(),
            a@.len() == b@.len(),
            forall|k: int| 0 <= k < i ==> a@[k] == b@[k],
        decreases a@.len() - i,
    {
        if a[i] != b[i] {
            return false;
        }
        i += 1;
    }
    assert(a@ =~= b@);
    true
}

pub fn clone_bytes(v: &[u8]) -> (r: Vec<u8>)
    ensures
        r@ == v@,
{
    let mut out: Vec<u8> = Vec::new();
    out.extend_from_slice(v);
    assert(out@ =~= v@);
    out
}

pub fn clone_indices(indices: &Vec<usize>) -> (r: Vec<usize>)
    ensures
        r@ == indices@,
{
    let mut copy: Vec<usize> = Vec::new();
    let mut i: usize = 0;
    while i < indices.len()
        invariant
            i <= indices@.len(),
            copy@ == indices@.take(i as int),
        decreases indices@.len() - i,
    {
        copy.push(indices[i]);
        i += 1;
        assert(copy@ =~= indices@.take(i as int));
    }
    assert(copy@ =~= indices@);
    copy
}

pub fn clone_nodes(v: &[NodeId]) -> (r: Vec<NodeId>)
    ensures
        r@ == v@,
{
    let mut out: Vec<NodeId> = Vec::new();
    out.extend_from_slice(v);
    assert(out@ =~= v@);
    out
}

/// Whether `set` names `node`.
pub open spec fn names(set: Seq<NodeId>, node: Seq<char>) -> bool {
    exists|i: int| 0 <= i < set.len() && #[trigger] set[i]@ == node
}

pub fn contains_node(set: &[NodeId], node: &NodeId) -> (r: bool)
    ensures
        r == names(set@, node@),
{
    let mut i: usize = 0;
    while i < set.len()
        invariant
            i <= set@.len(),
            forall|k: int| 0 <= k < i ==> #[trigger] set@[k]@ != node@,
        decreases set@.len() - i,
    {
        if set[i].same(node) {
            return true;
        }
        i += 1;
    }
    false
}

/// Which timer of a replica fires.
#[derive(Clone, Copy, Debug, PartialEq, Eq, Hash, Structural)]
pub enum TimerKind {
    Election,
    Heartbeat,
}

/// A replica's role in its consensus group.
#[derive(Clone, Copy, Debug, PartialEq, Eq, Structural)]
pub enum Role {
    Follower,
    Candidate,
    Leader,
}

/// What a log entry's payload is.
#[derive(Clone, Copy, Debug, PartialEq, Eq, Structural)]
pub enum PayloadKind {
    Record,
    Cluster,
}

/// A log entry's payload.
#[derive(Debug, PartialEq, Eq)]
pub struct EntryPayload {
    pub kind: PayloadKind,
    pub bytes: Vec<u8>,
}

/// A payload as a mathematical value.
pub struct PayloadView {
    pub kind: PayloadKind,
    pub bytes: Seq<u8>,
}

impl View for EntryPayload {
    type V = PayloadView;

    open spec fn view(&self) -> PayloadView {
        PayloadView { kind: self.kind, bytes: self.bytes@ }
    }
}

impl Clone for EntryPayload {
    fn clone(&self) -> (r: Self)
        ensures
            r@ == self@,
    {
        EntryPayload { kind: self.kind, bytes: clone_bytes(self.bytes.as_slice()) }
    }
}

impl EntryPayload {
    pub fn new(kind: PayloadKind, bytes: Vec<u8>) -> (r: Self)
        ensures
            r.kind == kind,
            r.bytes == bytes,
    {
        EntryPayload { kind, bytes }
    }

    /// Whether two payloads are equal.
    pub fn same(&self, other: &EntryPayload) -> (r: bool)
        ensures
            r == (self@ == other@),
    {
        self.kind == other.kind && same_bytes(self.bytes.as_slice(), other.bytes.as_slice())
    }
}

/// One entry of a replica's log.
#[derive(Debug, PartialEq, Eq)]
pub struct LogEntry {
    pub index: u64,
    pub term: u64,
    pub payload: EntryPayload,
}

/// A log entry as a mathematical value.
pub struct LogEntryView {
    pub index: u64,
    pub term: u64,
    pub payload: PayloadView,
}

impl View for LogEntry {
    type V = LogEntryView;

    open spec fn view(&self) -> LogEntryView {
        LogEntryView { index: self.index, term: self.term, payload: self.payload@ }
    }
}

impl Clone for LogEntry {
    fn clone(&self) -> (r: Self)
        ensures
            r@ == self@,
    {
        LogEntry { index: self.index, term: self.term, payload: self.payload.clone() }
    }
}

/// A client record.
#[derive(Debug, PartialEq, Eq)]
pub struct Record {
    pub key: Option<Vec<u8>>,
    pub value: Vec<u8>,
}

/// An optional byte string as a mathematical value.
pub open spec fn optional_bytes(b: Option<Vec<u8>>) -> Option<Seq<u8>> {
    match b {
        Some(v) => Some(v@),
        None => None,
    }
}

pub fn clone_optional_bytes(b: &Option<Vec<u8>>) -> (r: Option<Vec<u8>>)
    ensures
        optional_bytes(r) == optional_bytes(*b),
{
    match b {
        Some(v) => Some(clone_bytes(v.as_slice())),
        None => None,
    }
}

/// A client record as a mathematical value.
pub struct RecordView {
    pub key: Option<Seq<u8>>,
    pub value: Seq<u8>,
}

impl View for Record {
    type V = RecordView;

    open spec fn view(&self) -> RecordView {
        RecordView { key: optional_bytes(self.key), value: self.value@ }
    }
}

impl Clone for Record {
    fn clone(&self) -> (r: Self)
        ensures
            r@ == self@,
    {
        Record {
            key: clone_optional_bytes(&self.key),
            value: clone_bytes(self.value.as_slice()),
        }
    }
}

/// A record with the offset that its commit gave it.
#[derive(Debug, PartialEq, Eq)]
pub struct CommittedRecord {
    pub offset: Offset,
    pub value: Vec<u8>,
}

/// A committed record as a mathematical value.
pub struct CommittedRecordView {
    pub offset: Offset,
    pub value: Seq<u8>,
}

impl View for CommittedRecord {
    type V = CommittedRecordView;

    open spec fn view(&self) -> CommittedRecordView {
        CommittedRecordView { offset: self.offset, value: self.value@ }
    }
}

impl Clone for CommittedRecord {
    fn clone(&self) -> (r: Self)
        ensures
            r@ == self@,
    {
        CommittedRecord { offset: self.offset, value: clone_bytes(self.value.as_slice()) }
    }
}

/// Whether a topic's logs are kept on disk.
#[derive(Clone, Copy, Debug, PartialEq, Eq, Structural)]
pub enum LogBackend {
    Durable,
    InMemory,
}

/// Whether a node takes part in the cluster.
#[derive(Clone, Copy, Debug, PartialEq, Eq, Structural)]
pub enum NodeAvailability {
    Available,
    Unavailable,
}

/// One partition of a topic, with its replica set.
#[derive(Debug, PartialEq, Eq)]
pub struct Partition {
    pub index: PartitionIndex,
    pub replicas: Vec<NodeId>,
    pub leader: Option<NodeId>,
}

/// A partition as a mathematical value.
#[verifier::ext_equal]
pub struct PartitionView {
    pub index: PartitionIndex,
    pub replicas: Seq<Seq<char>>,
    pub leader: Option<Seq<char>>,
}

/// The names in a node list.
pub open spec fn node_names(nodes: Seq<NodeId>) -> Seq<Seq<char>> {
    Seq::new(nodes.len(), |i: int| nodes[i]@)
}

impl View for Partition {
    type V = PartitionView;

    open spec fn view(&self) -> PartitionView {
        PartitionView {
            index: self.index,
            replicas: node_names(self.replicas@),
            leader: match self.leader {
                Some(n) => Some(n@),
                None => None,
            },
        }
    }
}

/// The views of a partition list.
pub open spec fn partition_views(partitions: Seq<Partition>) -> Seq<PartitionView> {
    Seq::new(partitions.len(), |i: int| partitions[i]@)
}

/// A change to the cluster's metadata, replicated through the metadata group.
#[derive(Debug, PartialEq, Eq)]
pub enum ClusterCommand {
    CreateTopic { name: String, partitions: Vec<Partition>, backend: LogBackend },
    DeleteTopic { name: String },
    SetAvailability { node: NodeId, availability: NodeAvailability },
}

/// A cluster command as a mathematical value.
#[verifier::ext_equal]
pub enum CommandView {
    CreateTopic { name: Seq<char>, partitions: Seq<PartitionView>, backend: LogBackend },
    DeleteTopic { name: Seq<char> },
    SetAvailability { node: Seq<char>, availability: NodeAvailability },
}

impl View for ClusterCommand {
    type V = CommandView;

    open spec fn view(&self) -> CommandView {
        match self {
            ClusterCommand::CreateTopic { name, partitions, backend } => CommandView::CreateTopic {
                name: name@,
                partitions: partition_views(partitions@),
                backend: *backend,
            },
            ClusterCommand::DeleteTopic { name } => CommandView::DeleteTopic { name: name@ },
            ClusterCommand::SetAvailability { node, availability } => {
                CommandView::SetAvailability { node: node@, availability: *availability }
            },
        }
    }
}

/// The `Debug` form of a node name.
pub open spec fn node_text(node: Seq<char>) -> Seq<char> {
    "NodeId("@ + text::quoted(node) + ")"@
}

/// The `Debug` form of a group key.
pub open spec fn group_text(group: GroupView) -> Seq<char> {
    "("@ + text::quoted(group.0) + ", PartitionIndex("@ + text::decimal(group.1.0 as nat) + "))"@
}

pub fn push_node(out: &mut String, node: &NodeId)
    ensures
        final(out)@ == old(out)@ + node_text(node@),
{
    let ghost before = out@;
    text::push_str(out, "NodeId(");
    text::push_quoted(out, node.as_str());
    text::push_str(out, ")");
    assert(out@ =~= before + node_text(node@));
}

pub fn push_group(out: &mut String, group: &GroupKey)
    ensures
        final(out)@ == old(out)@ + group_text(group@),
{
    let ghost before = out@;
    text::push_str(out, "(");
    text::push_quoted(out, group.0.as_str());
    text::push_str(out, ", PartitionIndex(");
    text::push_decimal(out, group.1.0 as u64);
    text::push_str(out, "))");
    assert(out@ =~= before + group_text(group@));
}

/// The order of group keys: by topic, then by partition.
pub open spec fn group_before(a: GroupView, b: GroupView) -> bool {
    text::text_before(a.0, b.0) || (a.0 == b.0 && a.1.0 < b.1.0)
}

pub fn is_group_before(a: &GroupKey, b: &GroupKey) -> (r: bool)
    ensures
        r == group_before(a@, b@),
{
    proof {
        text::law_text_order(a.0@, b.0@, a.0@);
    }
    text::is_before(a.0.as_str(), b.0.as_str()) || (a.0 == b.0 && a.1.0 < b.1.0)
}

/// The order of group keys is a strict total order.
pub proof fn law_group_order(a: GroupView, b: GroupView, c: GroupView)
    ensures
        !group_before(a, a),
        group_before(a, b) ==> !group_before(b, a),
        group_before(a, b) && group_before(b, c) ==> group_before(a, c),
        !group_before(a, b) && !group_before(b, a) ==> a == b,
{
    text::law_text_order(a.0, b.0, c.0);
}

/// Groups are in the order of their topics, and those of one topic in the order of their
/// partitions' numbers.
pub proof fn law_groups_are_ordered_by_topic_and_number(
    s: Seq<char>,
    t: Seq<char>,
    p: PartitionIndex,
    q: PartitionIndex,
)
    ensures
        group_before((s, p), (s, q)) <==> p.0 < q.0,
        s != t ==> (group_before((s, p), (t, q)) <==> text::text_before(s, t)),
{
    text::law_text_order(s, s, s);
}

/// Commands, partitions, entries and records are seen as they are.
pub proof fn law_commands_are_seen_as_they_are(command: ClusterCommand, p: int, r: int)
    ensures
        match command {
            ClusterCommand::CreateTopic { name, partitions, backend } => {
                &&& command@ is CreateTopic
                &&& command@->CreateTopic_name == name@
                &&& command@->backend == backend
                &&& command@->partitions.len() == partitions@.len()
                &&& 0 <= p < partitions@.len() ==> {
                    let x = command@->partitions[p];
                    let y = partitions@[p];
                    &&& x.index.0 == y.index.0
                    &&& x.replicas.len() == y.replicas@.len()
                    &&& 0 <= r < y.replicas@.len() ==> x.replicas[r] == y.replicas@[r].0@
                    &&& x.leader is Some == y.leader is Some
                    &&& y.leader is Some ==> x.leader->0 == (y.leader->0).0@
                }
            },
            ClusterCommand::DeleteTopic { name } => command@ is DeleteTopic
                && command@->DeleteTopic_name == name@,
            ClusterCommand::SetAvailability { node, availability } => {
                &&& command@ is SetAvailability
                &&& command@->node == node.0@
                &&& command@->availability == availability
            },
        },
{
}

/// Entries and committed records are seen as they are.
pub proof fn law_entries_are_seen_as_they_are(entry: LogEntry, record: CommittedRecord)
    ensures
        entry@.index == entry.index,
        entry@.term == entry.term,
        entry@.payload.kind == entry.payload.kind,
        entry@.payload.bytes == entry.payload.bytes@,
        record@.offset == record.offset,
        record@.value == record.value@,
{
}

} // verus!
