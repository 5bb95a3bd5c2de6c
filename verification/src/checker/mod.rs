//! The checkers: what must hold of a run, and the violations they report.

use crate::scheduler::VirtualInstant;
use crate::text;
use vstd::prelude::*;

pub mod check_promises;
pub mod kafka_parity;
pub mod liveness;
pub mod liveness_promises;
pub mod promises;
pub mod raft_promises;
pub mod raft_safety;
pub mod watching;

pub use raft_safety::RaftSafetyChecker;

verus! {

/// A property that every run must have.
#[derive(Clone, Copy, Debug, PartialEq, Eq, Hash, Structural)]
pub enum PropertyId {
    ElectionSafety,
    LogMatching,
    LeaderCompleteness,
    StateMachineSafety,
    CommitMonotonicity,
    AcknowledgedRecordDurability,
    OffsetIntegrity,
    ConsumeReadValidity,
    PerPartitionLinearizability,
    MetadataConvergence,
    Liveness,
}

impl PropertyId {
    pub open spec fn text(self) -> Seq<char> {
        match self {
            PropertyId::ElectionSafety => "Election Safety"@,
            PropertyId::LogMatching => "Log Matching"@,
            PropertyId::LeaderCompleteness => "Leader Completeness"@,
            PropertyId::StateMachineSafety => "State Machine Safety"@,
            PropertyId::CommitMonotonicity => "Commit Monotonicity"@,
            PropertyId::AcknowledgedRecordDurability => "Acknowledged-Record Durability"@,
            PropertyId::OffsetIntegrity => "Offset Integrity"@,
            PropertyId::ConsumeReadValidity => "Consume Read-Validity"@,
            PropertyId::PerPartitionLinearizability => "Per-Partition Linearizability"@,
            PropertyId::MetadataConvergence => "Metadata Catalogue Convergence"@,
            PropertyId::Liveness => "Liveness Under Healed Faults"@,
        }
    }

    /// Every property, in order.
    pub open spec fn listed() -> Seq<PropertyId> {
        seq![
            PropertyId::ElectionSafety,
            PropertyId::LogMatching,
            PropertyId::LeaderCompleteness,
            PropertyId::StateMachineSafety,
            PropertyId::CommitMonotonicity,
            PropertyId::AcknowledgedRecordDurability,
            PropertyId::OffsetIntegrity,
            PropertyId::ConsumeReadValidity,
            PropertyId::PerPartitionLinearizability,
            PropertyId::MetadataConvergence,
            PropertyId::Liveness,
        ]
    }

    /// Every property, in order.
    pub fn all() -> (r: [PropertyId; 11])
        ensures
            r@ == PropertyId::listed(),
    {
        let r = [
            PropertyId::ElectionSafety,
            PropertyId::LogMatching,
            PropertyId::LeaderCompleteness,
            PropertyId::StateMachineSafety,
            PropertyId::CommitMonotonicity,
            PropertyId::AcknowledgedRecordDurability,
            PropertyId::OffsetIntegrity,
            PropertyId::ConsumeReadValidity,
            PropertyId::PerPartitionLinearizability,
            PropertyId::MetadataConvergence,
            PropertyId::Liveness,
        ];
        assert(r@ =~= PropertyId::listed());
        r
    }

    /// The property's name.
    pub fn name(self) -> (r: &'static str)
        ensures
            r@ == self.text(),
    {
        match self {
            PropertyId::ElectionSafety => "Election Safety",
            PropertyId::LogMatching => "Log Matching",
            PropertyId::LeaderCompleteness => "Leader Completeness",
            PropertyId::StateMachineSafety => "State Machine Safety",
            PropertyId::CommitMonotonicity => "Commit Monotonicity",
            PropertyId::AcknowledgedRecordDurability => "Acknowledged-Record Durability",
            PropertyId::OffsetIntegrity => "Offset Integrity",
            PropertyId::ConsumeReadValidity => "Consume Read-Validity",
            PropertyId::PerPartitionLinearizability => "Per-Partition Linearizability",
            PropertyId::MetadataConvergence => "Metadata Catalogue Convergence",
            PropertyId::Liveness => "Liveness Under Healed Faults",
        }
    }
}

/// The list of properties holds each of them once.
pub proof fn law_every_property_is_listed_once(p: PropertyId)
    ensures
        exists|i: int|
            0 <= i < PropertyId::listed().len() && #[trigger] PropertyId::listed()[i] == p,
        forall|i: int, j: int|
            0 <= i < j < PropertyId::listed().len() ==> #[trigger] PropertyId::listed()[i]
                != #[trigger] PropertyId::listed()[j],
{
    let all = PropertyId::listed();
    assert(all[0] == PropertyId::ElectionSafety);
    assert(all[1] == PropertyId::LogMatching);
    assert(all[2] == PropertyId::LeaderCompleteness);
    assert(all[3] == PropertyId::StateMachineSafety);
    assert(all[4] == PropertyId::CommitMonotonicity);
    assert(all[5] == PropertyId::AcknowledgedRecordDurability);
    assert(all[6] == PropertyId::OffsetIntegrity);
    assert(all[7] == PropertyId::ConsumeReadValidity);
    assert(all[8] == PropertyId::PerPartitionLinearizability);
    assert(all[9] == PropertyId::MetadataConvergence);
    assert(all[10] == PropertyId::Liveness);
}

/// A property that did not hold, with when that was seen and how.
#[derive(Debug, PartialEq, Eq)]
pub struct Violation {
    pub property: PropertyId,
    pub at: VirtualInstant,
    pub detail: String,
}

/// A violation as a mathematical value.
pub struct ViolationView {
    pub property: PropertyId,
    pub at: VirtualInstant,
    pub detail: Seq<char>,
}

impl Clone for Violation {
    fn clone(&self) -> (r: Self)
        ensures
            r == *self,
    {
        Violation { property: self.property, at: self.at, detail: self.detail.clone() }
    }
}

impl View for Violation {
    type V = ViolationView;

    open spec fn view(&self) -> ViolationView {
        ViolationView { property: self.property, at: self.at, detail: self.detail@ }
    }
}

/// Whether two checks come to the same: both find nothing, or both report the same
/// property, instant and text.
pub open spec fn results_alike(r: Result<(), Violation>, s: Result<(), Violation>) -> bool {
    match (r, s) {
        (Ok(x), Ok(y)) => true,
        (Err(v), Err(w)) => v@ == w@,
        _ => false,
    }
}

impl Violation {
    pub fn new(property: PropertyId, at: VirtualInstant, detail: String) -> (r: Self)
        ensures
            r.property == property,
            r.at == at,
            r.detail == detail,
    {
        Violation { property, at, detail }
    }

    /// The violation in words.
    pub fn message(&self) -> (r: String)
        ensures
            r@ == self.property.text() + " violated at t="@ + text::decimal(self.at.0 as nat)
                + "ns: "@ + self.detail@,
    {
        let mut out = self.property.name().to_owned();
        text::push_str(&mut out, " violated at t=");
        text::push_decimal(&mut out, self.at.as_nanos());
        text::push_str(&mut out, "ns: ");
        text::push_str(&mut out, self.detail.as_str());
        out
    }
}

/// No two properties go by one name.
pub proof fn law_names_tell_properties_apart(p: PropertyId, q: PropertyId)
    requires
        p != q,
    ensures
        p.text() != q.text(),
{
    reveal_strlit("Election Safety");
    reveal_strlit("Log Matching");
    reveal_strlit("Leader Completeness");
    reveal_strlit("State Machine Safety");
    reveal_strlit("Commit Monotonicity");
    reveal_strlit("Acknowledged-Record Durability");
    reveal_strlit("Offset Integrity");
    reveal_strlit("Consume Read-Validity");
    reveal_strlit("Per-Partition Linearizability");
    reveal_strlit("Metadata Catalogue Convergence");
    reveal_strlit("Liveness Under Healed Faults");
    let a = p.text();
    let b = q.text();
    if a == b {
        assert(a.len() == b.len());
        assert(a[0] == b[0]);
        assert(a[1] == b[1]);
        assert(a[2] == b[2]);
    }
}

} // verus!
