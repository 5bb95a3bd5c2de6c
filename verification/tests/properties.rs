use std::collections::HashSet;
use vela_sim::checker::{PropertyId, Violation};
use vela_sim::runtime::Outcome;
use vela_sim::scheduler::VirtualInstant;

#[test]
fn all_is_complete_and_distinct() {
    assert_eq!(PropertyId::all().len(), 11);
    let names: HashSet<&'static str> = PropertyId::all().iter().map(|p| p.name()).collect();
    assert_eq!(names.len(), PropertyId::all().len());
    let idents: HashSet<String> = PropertyId::all().iter().map(|p| format!("{p:?}")).collect();
    assert_eq!(idents.len(), PropertyId::all().len());
}

#[test]
fn a_violation_is_a_failed_outcome() {
    let v = Violation::new(
        PropertyId::LogMatching,
        VirtualInstant::from_nanos(9),
        "detail".to_string(),
    );
    assert_eq!(
        Outcome::from(v),
        Outcome::Failed {
            property: PropertyId::LogMatching,
            at: VirtualInstant::from_nanos(9),
            detail: "detail".to_string(),
        }
    );
}
