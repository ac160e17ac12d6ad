use smysl::check::epistemics::check_units;
use smysl::diag::{Code, Report};
use smysl::hash::canonical_uid;
use smysl::ids::{KernelType, SchemaId, Uid};
use smysl::types::epistemics::{SourceKind, SourceRef, Status};
use smysl::types::unit::{UnitCore, UnitCoreBuilder};

fn check(units: Vec<UnitCore>) -> Report {
    let list: Vec<(Uid, UnitCore)> = units.into_iter().map(|u| (canonical_uid(&u), u)).collect();
    let mut r = Report::new();
    check_units(&list, &mut r);
    r
}

fn unit(t: KernelType, gist: &str, status: Status) -> UnitCoreBuilder {
    UnitCoreBuilder::new(SchemaId::Kernel(t), gist, status)
}

fn measured(gist: &str) -> UnitCore {
    unit(KernelType::Evidence, gist, Status::Measured).source(SourceRef::new(SourceKind::Metric, "m")).build().unwrap()
}

fn cited(gist: &str) -> UnitCore {
    unit(KernelType::Evidence, gist, Status::Cited).source(SourceRef::new(SourceKind::Doc, "d")).build().unwrap()
}

fn speculative(gist: &str) -> UnitCore {
    unit(KernelType::Hypothesis, gist, Status::Speculative).build().unwrap()
}

fn grounded(gist: &str, status: Status, grounds: Vec<Uid>) -> UnitCore {
    unit(KernelType::Claim, gist, status).grounds(grounds).build().unwrap()
}

#[test]
fn a_claim_no_stronger_than_its_ground_passes() {
    let e = measured("a measurement");
    let c = grounded("a derivation", Status::Derived, vec![canonical_uid(&e)]);
    assert!(check(vec![e, c]).is_empty());
}

#[test]
fn a_claim_stronger_than_its_ground_is_e030() {
    let s = speculative("a guess");
    let c = grounded("a derivation", Status::Derived, vec![canonical_uid(&s)]);
    assert_eq!(check(vec![s, c]).count(Code::E030), 1);
}

#[test]
fn the_diagnostic_names_the_weakest_ground() {
    let strong = measured("a measurement");
    let weak = speculative("a guess");
    let (us, uw) = (canonical_uid(&strong), canonical_uid(&weak));
    let c = grounded("a derivation", Status::Derived, vec![us, uw]);
    let r = check(vec![strong, weak, c]);
    let d = r.diagnostics.iter().find(|d| d.code == Code::E030).unwrap();
    assert!(d.message.contains(&uw.short()), "{}", d.message);
    assert!(!d.message.contains(&us.short()), "the strong ground is not at fault");
    assert!(d.message.contains("speculative"));
    assert!(d.suggestion.is_some());
}

#[test]
fn the_cap_is_the_minimum_over_every_ground() {
    let m = measured("measured");
    let c = cited("cited");
    let (um, uc) = (canonical_uid(&m), canonical_uid(&c));
    let ok = grounded("ok", Status::Derived, vec![um, uc]);
    assert!(check(vec![m, c, ok]).is_empty());
}

#[test]
fn measured_and_cited_are_exempt() {
    let s = speculative("a guess");
    let us = canonical_uid(&s);
    for status in [Status::Measured, Status::Cited] {
        let u = unit(KernelType::Claim, "external", status)
            .grounds(vec![us])
            .source(SourceRef::new(SourceKind::Metric, "m"))
            .build()
            .unwrap();
        let r = check(vec![s.clone(), u]);
        assert_eq!(r.count(Code::E030), 0, "{} must be exempt", status.as_str());
    }
}

#[test]
fn speculative_is_never_too_strong() {
    let s = speculative("a guess");
    let c = unit(KernelType::Claim, "also a guess", Status::Speculative).grounds(vec![canonical_uid(&s)]).build().unwrap();
    assert!(check(vec![s, c]).is_empty());
}

#[test]
fn inferred_on_speculative_is_e030_and_inferred_on_measured_is_not() {
    let s = speculative("a guess");
    let m = measured("a measurement");
    let (us, um) = (canonical_uid(&s), canonical_uid(&m));
    let bad = grounded("inference", Status::Inferred, vec![us]);
    assert_eq!(check(vec![s, bad]).count(Code::E030), 1);
    let good = grounded("inference", Status::Inferred, vec![um]);
    assert!(check(vec![m, good]).is_empty());
}

#[test]
fn laundering_cannot_survive_a_chain() {
    let s = speculative("a guess");
    let us = canonical_uid(&s);
    let hop1 = unit(KernelType::Claim, "hop one", Status::Speculative).grounds(vec![us]).build().unwrap();
    let u1 = canonical_uid(&hop1);
    let hop2 = grounded("hop two", Status::Derived, vec![u1]);
    let r = check(vec![s, hop1, hop2]);
    assert_eq!(r.count(Code::E030), 1, "the promotion must be caught wherever in the chain it happens");
}

#[test]
fn every_violation_is_reported() {
    let s = speculative("a guess");
    let us = canonical_uid(&s);
    let a = grounded("a", Status::Derived, vec![us]);
    let b = grounded("b", Status::Inferred, vec![us]);
    assert_eq!(check(vec![s, a, b]).count(Code::E030), 2);
}

#[test]
fn an_absent_ground_is_not_reported_by_this_pass() {
    let b = grounded("orphan", Status::Derived, vec![Uid::from_bytes([9; 32])]);
    assert!(check(vec![b]).is_empty());
}

#[test]
fn a_present_ground_still_caps_when_a_sibling_is_absent() {
    let s = speculative("a guess");
    let b = grounded("mixed", Status::Derived, vec![canonical_uid(&s), Uid::from_bytes([9; 32])]);
    assert_eq!(check(vec![s, b]).count(Code::E030), 1);
}

#[test]
fn epistemics_an_empty_store_reports_nothing() {
    assert!(check(vec![]).is_empty());
}

#[test]
fn the_pass_is_deterministic() {
    let s = speculative("a guess");
    let us = canonical_uid(&s);
    let units = vec![
        s,
        grounded("a", Status::Derived, vec![us]),
        grounded("b", Status::Inferred, vec![us]),
    ];
    let mut reversed = units.clone();
    reversed.reverse();
    let mut a = check(units);
    let mut b = check(reversed);
    assert_eq!(a.diagnostics.len(), b.diagnostics.len());
    a.sort();
    b.sort();
    assert_eq!(a.diagnostics, b.diagnostics);
}

#[test]
fn a_unit_exactly_at_its_weakest_ground_is_legal() {
    let m = measured("a measurement");
    let um = canonical_uid(&m);
    let mid = grounded("a derivation from it", Status::Derived, vec![um]);
    let umid = canonical_uid(&mid);
    let top = grounded("a derivation from that", Status::Derived, vec![umid]);
    assert_eq!(check(vec![m, mid, top]).count(Code::E030), 0);
}

#[test]
fn a_unit_one_step_above_its_weakest_ground_is_not() {
    let g = speculative("a speculative ground");
    let ug = canonical_uid(&g);
    let c = grounded("a claim held too strongly", Status::Inferred, vec![ug]);
    assert_eq!(check(vec![g, c]).count(Code::E030), 1);
}

#[test]
fn the_message_names_status_cap_and_ground_exactly() {
    let s = speculative("a guess");
    let us = canonical_uid(&s);
    let c = grounded("x", Status::Derived, vec![us]);
    let r = check(vec![s, c]);
    let d = &r.diagnostics[0];
    assert_eq!(d.message, format!("derived exceeds the cap of speculative set by its weakest ground {}", us.short()));
    assert_eq!(d.suggestion.as_deref(), Some(format!("weaken this unit to speculative, or strengthen {}", us.short()).as_str()));
}
