//! Which storage faults strike a replica's disk, and where its files lie.

use crate::model::{GroupKey, GroupView, NodeId};
use crate::rng::SplitMix64;
use crate::scenario::FaultIntensities;
use crate::text;
use vstd::prelude::*;

verus! {

/// The most bytes that a torn write loses.
pub const MAX_TORN_BYTES: u64 = 64;

/// Which storage operation fails.
#[derive(Clone, Copy, Debug, PartialEq, Eq, Structural)]
pub enum IoFaultKind {
    Fsync,
    Write,
    Read,
}

/// The storage faults chosen for one disk.
#[derive(Clone, Copy, Debug, PartialEq, Eq, Structural)]
pub struct StorageFaultPlan {
    /// How many bytes of the last write are lost.
    pub torn_tail: Option<u64>,
    /// Which operation fails.
    pub io_fault: Option<IoFaultKind>,
}

impl Default for StorageFaultPlan {
    fn default() -> (r: Self)
        ensures
            r.torn_tail is None,
            r.io_fault is None,
    {
        StorageFaultPlan { torn_tail: None, io_fault: None }
    }
}

/// The torn tail drawn from `stream`, and the stream after it.
pub open spec fn torn_draw(faults: FaultIntensities, stream: SplitMix64) -> (
    Option<u64>,
    SplitMix64,
) {
    let p = faults.torn_write_prob;
    if !p.possible() {
        (None, stream)
    } else if stream.fires(p) {
        (
            Some((stream.advanced().below(MAX_TORN_BYTES) + 1) as u64),
            stream.advanced().advanced(),
        )
    } else {
        (None, stream.advanced())
    }
}

/// The kind of fault that a draw below 3 stands for.
pub open spec fn fault_kind(n: u64) -> IoFaultKind {
    if n == 0 {
        IoFaultKind::Fsync
    } else if n == 1 {
        IoFaultKind::Write
    } else {
        IoFaultKind::Read
    }
}

/// The I/O fault drawn from `stream`, and the stream after it.
pub open spec fn io_draw(faults: FaultIntensities, stream: SplitMix64) -> (
    Option<IoFaultKind>,
    SplitMix64,
) {
    let p = faults.io_error_prob;
    if !p.possible() {
        (None, stream)
    } else if stream.fires(p) {
        (Some(fault_kind(stream.advanced().below(3))), stream.advanced().advanced())
    } else {
        (None, stream.advanced())
    }
}

impl StorageFaultPlan {
    pub fn is_empty(&self) -> (r: bool)
        ensures
            r == (self.torn_tail is None && self.io_fault is None),
    {
        self.torn_tail.is_none() && self.io_fault.is_none()
    }

    /// Choose the faults of one disk: first its torn tail, then its I/O fault.
    pub fn draw(storage: &mut SplitMix64, faults: &FaultIntensities) -> (r: Self)
        ensures
            r.torn_tail == torn_draw(*faults, *old(storage)).0,
            r.io_fault == io_draw(*faults, torn_draw(*faults, *old(storage)).1).0,
            *final(storage) == io_draw(*faults, torn_draw(*faults, *old(storage)).1).1,
            r.torn_tail matches Some(n) ==> 1 <= n <= MAX_TORN_BYTES,
    {
        let mut plan = StorageFaultPlan::default();
        if faults.torn_write_prob.is_possible() && storage.next_chance(faults.torn_write_prob) {
            let bytes: u64 = storage.next_below(MAX_TORN_BYTES) + 1;
            plan.torn_tail = Some(bytes);
        }
        if faults.io_error_prob.is_possible() && storage.next_chance(faults.io_error_prob) {
            let n: u64 = storage.next_below(3);
            let kind = if n == 0 {
                IoFaultKind::Fsync
            } else if n == 1 {
                IoFaultKind::Write
            } else {
                IoFaultKind::Read
            };
            plan.io_fault = Some(kind);
        }
        plan
    }
}

/// With both intensities at zero the plan is empty and nothing is drawn.
pub proof fn law_no_intensity_no_storage_fault(faults: FaultIntensities, stream: SplitMix64)
    requires
        !faults.torn_write_prob.possible(),
        !faults.io_error_prob.possible(),
    ensures
        torn_draw(faults, stream) == (None::<u64>, stream),
        io_draw(faults, stream) == (None::<IoFaultKind>, stream),
{
}

/// `base` with `part` below it: an absolute part stands alone, and one slash stands
/// between the two where `base` does not end in one.
pub open spec fn joined(base: Seq<char>, part: Seq<char>) -> Seq<char> {
    if part.len() > 0 && part[0] == '/' {
        part
    } else if base.len() == 0 || base.last() == '/' {
        base + part
    } else {
        base + "/"@ + part
    }
}

fn join(base: String, part: &str) -> (r: String)
    ensures
        r@ == joined(base@, part@),
{
    let n: usize = part.unicode_len();
    if n > 0 && part.get_char(0) == '/' {
        return part.to_owned();
    }
    let mut out = base;
    let m: usize = out.as_str().unicode_len();
    if m > 0 && out.as_str().get_char(m - 1) != '/' {
        text::push_str(&mut out, "/");
    }
    text::push_str(&mut out, part);
    out
}

/// The directory of a replica's log.
pub open spec fn data_dir(node: Seq<char>, group: GroupView) -> Seq<char> {
    joined(joined(joined("/sim"@, node), group.0), text::decimal(group.1.0 as nat))
}

/// The directory of the log of `node` in `group`.
pub fn data_dir_for(node: &NodeId, group: &GroupKey) -> (r: String)
    ensures
        r@ == data_dir(node@, group@),
{
    let root = "/sim".to_owned();
    let mut partition = String::new();
    text::push_decimal(&mut partition, group.1.0 as u64);
    assert(partition@ =~= text::decimal(group.1.0 as nat));
    join(join(join(root, node.as_str()), group.0.as_str()), partition.as_str())
}

/// The file of a replica's log that every durable operation writes, and every recovery
/// reads: the target of its I/O faults.
pub const WAL_MANIFEST_FILE_NAME: &'static str = "wal.manifest";

/// The path of that file for `node` in `group`.
pub fn manifest_path_for(node: &NodeId, group: &GroupKey) -> (r: String)
    ensures
        r@ == joined(data_dir(node@, group@), "wal.manifest"@),
{
    join(data_dir_for(node, group), WAL_MANIFEST_FILE_NAME)
}

/// Whether a name is one path component.
pub open spec fn plain_component(name: Seq<char>) -> bool {
    name.len() > 0 && name[0] != '/' && name.last() != '/'
}

/// For plain names the directory reads `/sim/<node>/<topic>/<partition>`.
pub proof fn law_data_dir_layout(node: Seq<char>, group: GroupView)
    requires
        plain_component(node),
        plain_component(group.0),
    ensures
        data_dir(node, group) == "/sim"@ + "/"@ + node + "/"@ + group.0 + "/"@ + text::decimal(
            group.1.0 as nat,
        ),
{
    reveal_strlit("/sim");
    reveal_strlit("/");
    text::lemma_decimal_is_no_slash(group.1.0 as nat);
    let a = "/sim"@ + "/"@ + node;
    assert(joined("/sim"@, node) == a);
    assert(a.last() == node.last());
    let b = a + "/"@ + group.0;
    assert(joined(a, group.0) == b);
    assert(b.last() == group.0.last());
}

/// A torn write comes up where torn writes are on and the next word says so; it takes one
/// byte to 64, by the word after.
pub proof fn law_words_decide_torn_writes(faults: FaultIntensities, stream: SplitMix64)
    ensures
        ({
            let p = faults.torn_write_prob.ticks;
            let torn = p > 0 && stream.word() / 2048 < p;
            let (tail, after) = torn_draw(faults, stream);
            &&& tail is Some <==> torn
            &&& torn ==> tail->0 == 1 + (stream.advanced().word() as int) % 64
            &&& p == 0 ==> after == stream
            &&& p > 0 && !torn ==> after == stream.advanced()
            &&& torn ==> after == stream.advanced().advanced()
        }),
{
    crate::rng::law_chances_by_the_word(stream, faults.torn_write_prob);
}

/// An operation fails where failures are on and the next word says so; which one, a sync,
/// a write or a read, is the word after modulo three.
pub proof fn law_words_decide_failed_operations(faults: FaultIntensities, stream: SplitMix64)
    ensures
        ({
            let p = faults.io_error_prob.ticks;
            let fails = p > 0 && stream.word() / 2048 < p;
            let which = (stream.advanced().word() as int) % 3;
            let (kind, after) = io_draw(faults, stream);
            &&& kind is Some <==> fails
            &&& fails && which == 0 ==> kind->0 is Fsync
            &&& fails && which == 1 ==> kind->0 is Write
            &&& fails && which == 2 ==> kind->0 is Read
            &&& p == 0 ==> after == stream
            &&& p > 0 && !fails ==> after == stream.advanced()
            &&& fails ==> after == stream.advanced().advanced()
        }),
{
    crate::rng::law_chances_by_the_word(stream, faults.io_error_prob);
}

/// Each replica has a directory of its own: those of different nodes, topics or partitions
/// differ, where no name has a slash in it.
pub proof fn law_directories_tell_partitions_apart(
    node: Seq<char>,
    topic: Seq<char>,
    p: crate::model::PartitionIndex,
    q: crate::model::PartitionIndex,
)
    requires
        plain_component(node),
        plain_component(topic),
        p.0 != q.0,
    ensures
        data_dir(node, (topic, p)) != data_dir(node, (topic, q)),
{
    law_data_dir_layout(node, (topic, p));
    law_data_dir_layout(node, (topic, q));
    let head = "/sim"@ + "/"@ + node + "/"@ + topic + "/"@;
    let a = text::decimal(p.0 as nat);
    let b = text::decimal(q.0 as nat);
    if head + a == head + b {
        let n = head.len() as int;
        assert((head + a).skip(n) =~= a);
        assert((head + b).skip(n) =~= b);
        text::law_decimal_injective(p.0 as nat, q.0 as nat);
    }
}

/// How paths are joined: a part that starts with a slash stands for itself; any other goes
/// behind, with one slash between.
pub proof fn law_how_paths_are_joined(base: Seq<char>, part: Seq<char>)
    ensures
        part.len() > 0 && part[0] == '/' ==> joined(base, part) == part,
        !(part.len() > 0 && part[0] == '/') && base.len() > 0 && base.last() != '/' ==> joined(
            base,
            part,
        ) == base + "/"@ + part,
        !(part.len() > 0 && part[0] == '/') && base.len() > 0 && base.last() == '/' ==> joined(
            base,
            part,
        ) == base + part,
        !(part.len() > 0 && part[0] == '/') && base.len() == 0 ==> joined(base, part) == part,
{
    assert(Seq::<char>::empty() + part =~= part);
    if base.len() == 0 {
        assert(base + part =~= part);
    }
}

/// A node keeps the disk of a group under its own name, the topic and the number.
pub proof fn law_disks_are_found_by_node_and_group(node: Seq<char>, group: GroupView)
    ensures
        data_dir(node, group) == joined(
            joined(joined("/sim"@, node), group.0),
            text::decimal(group.1.0 as nat),
        ),
{
}

} // verus!
