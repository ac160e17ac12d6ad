use smysl::check::extension::ConsumerProfile;
use smysl::check::granularity::{list_items, multi_assertion, paragraphs};
use smysl::check::trust::{may_assign, permits};
use smysl::check::{conformance, CheckOptions, ConformanceClass, Pass};
use smysl::diag::{Code, Diagnostic, Report};
use smysl::error::ShapeError;
use smysl::ids::{KernelType, SchemaId, Uid};
use smysl::types::epistemics::{SourceKind, SourceRef, Status};
use smysl::types::provenance::{Op, Rung};
use smysl::types::unit::{UnitCore, UnitCoreBuilder};
use smysl::types::view::GranularityProfile;

fn k(t: KernelType) -> SchemaId {
    SchemaId::from(t)
}

#[test]
fn five_conformance_classes_with_stable_names() {
    assert_eq!(ConformanceClass::ALL.len(), 5);
    assert_eq!(ConformanceClass::Read.as_str(), "C-Read");
    assert_eq!(ConformanceClass::Full.as_str(), "C-Full");
    for c in ConformanceClass::ALL.iter() {
        assert!(c.as_str().starts_with("C-"));
        assert!(c.requires_read());
        assert_eq!(ConformanceClass::parse(c.as_str()), Some(*c));
    }
    assert_eq!(ConformanceClass::parse("c-full"), Some(ConformanceClass::Full));
    assert_eq!(ConformanceClass::parse("C-Nonsense"), None);
}

#[test]
fn ten_passes_numbered_as_in_section_17() {
    assert_eq!(Pass::ALL.len(), 10);
    for (i, p) in Pass::ALL.iter().enumerate() {
        assert_eq!(p.number() as usize, i + 1);
        assert_eq!(Pass::parse(p.as_str()), Some(*p));
    }
}

#[test]
fn only_the_landed_passes_are_implemented() {
    let implemented: Vec<&str> = Pass::ALL.iter().filter(|p| p.is_implemented()).map(|p| p.as_str()).collect();
    assert_eq!(implemented, ["integrity", "shape", "closure", "granularity", "epistemics", "trust", "extension"]);
    assert!(!Pass::Retraction.is_implemented(), "lands with merge in SM-P6");
    assert!(!Pass::Hashes.is_implemented(), "hash verification belongs to the store, via Store::verify_against");
}

#[test]
fn each_rung_permits_exactly_its_ceiling_and_below() {
    let cases = [
        (Rung::Computed, Status::Derived),
        (Rung::Document, Status::Cited),
        (Rung::Web, Status::Cited),
        (Rung::Model, Status::Inferred),
    ];
    for (rung, ceiling) in cases {
        for &s in Status::ALL.iter() {
            if s == Status::Unfounded {
                continue;
            }
            assert_eq!(permits(rung, s), s <= ceiling, "{rung:?} / {s:?}");
        }
    }
}

#[test]
fn may_assign_matches_the_op_table() {
    for op in Op::ALL.iter() {
        assert_eq!(may_assign(*op, Status::Measured), *op == Op::Imported);
        assert!(may_assign(*op, Status::Cited), "{op:?} may cite");
    }
}

#[test]
fn rule_t_and_rule_m_bind_different_things() {
    assert!(permits(Rung::Model, Status::Inferred));
    assert!(!permits(Rung::Model, Status::Derived));
    assert!(permits(Rung::Computed, Status::Derived));
    assert!(!permits(Rung::Computed, Status::Cited));
}

#[test]
fn ordinary_prose_is_not_a_list() {
    assert_eq!(
        list_items("The pool saturated. The canary did not. Both were checked."),
        0,
        "three sentences on one line were counted as list items"
    );
    assert_eq!(list_items("One thing.\nAnother thing.\nA third."), 0, "sentences on separate lines are still sentences");
    assert_eq!(list_items(". a leading full stop"), 0, "an empty prefix is not a number");
    assert_eq!(list_items("v1. the first version\n2. the second"), 1, "`v1` is not a number; only the genuine `2.` counts");
}

#[test]
fn a_real_list_is_counted() {
    assert_eq!(list_items("- first\n- second\n- third"), 3);
    assert_eq!(list_items("1. first\n2. second"), 2);
    assert_eq!(list_items("* starred\n+ plussed"), 2);
    assert!(multi_assertion("1. first\n2. second").is_some(), "a two-item list is more than one assertion");
    assert!(multi_assertion("The pool saturated. The canary did not.").is_none(), "and two sentences are not");
}

#[test]
fn a_consumer_always_understands_the_kernel() {
    let p = ConsumerProfile::default();
    for kt in KernelType::ALL.iter() {
        assert!(p.understands(&SchemaId::from(*kt)));
    }
    assert!(!p.understands(&SchemaId::parse("x.sre/1").unwrap()));
    let _ = Uid::from_bytes([0; 32]);
}

#[test]
fn the_constructor_makes_the_remaining_shape_rules_unreachable() {
    type Build = Box<dyn Fn() -> Result<UnitCore, ShapeError>>;
    let cases: Vec<(ShapeError, Build)> = vec![
        (ShapeError::MissingGist, Box::new(|| UnitCoreBuilder::new(k(KernelType::Claim), "", Status::Speculative).build())),
        (
            ShapeError::DetailWithoutBody,
            Box::new(|| UnitCoreBuilder::new(k(KernelType::Claim), "g", Status::Speculative).detail("d").build()),
        ),
        (
            ShapeError::UnfoundedAuthored,
            Box::new(|| UnitCoreBuilder::new(k(KernelType::Claim), "g", Status::Unfounded).build()),
        ),
        (ShapeError::SourceRequired, Box::new(|| UnitCoreBuilder::new(k(KernelType::Claim), "g", Status::Measured).build())),
        (ShapeError::GroundsRequired, Box::new(|| UnitCoreBuilder::new(k(KernelType::Claim), "g", Status::Derived).build())),
    ];
    for (expected, build) in cases {
        assert_eq!(build().unwrap_err(), expected);
    }
}

#[test]
fn an_epistemic_error_blocks_consumers_but_not_readers() {
    let mut report = Report::new();
    report.push(Diagnostic::new(Code::E030));
    assert!(conformance(&report, ConformanceClass::Read).passed);
    let consume = conformance(&report, ConformanceClass::Consume);
    assert!(!consume.passed);
    assert_eq!(consume.blocking, vec![Code::E030]);
    assert!(!conformance(&report, ConformanceClass::Full).passed);
}

#[test]
fn structural_errors_block_every_class_and_warnings_block_none() {
    let mut bad = Report::new();
    bad.push(Diagnostic::new(Code::E060));
    for c in ConformanceClass::ALL.iter() {
        assert!(!conformance(&bad, *c).passed, "{c:?}");
    }
    let mut warned = Report::new();
    warned.push(Diagnostic::new(Code::W010));
    for c in ConformanceClass::ALL.iter() {
        assert!(conformance(&warned, *c).passed, "{c:?}");
    }
    assert!(conformance(&Report::new(), ConformanceClass::Full).passed);
}

#[test]
fn options_select_passes() {
    let all = CheckOptions::default();
    assert!(all.runs(Pass::Shape));
    let only = CheckOptions::default().only(vec![Pass::Shape]);
    assert!(only.runs(Pass::Shape));
    assert!(!only.runs(Pass::Trust));
}

#[test]
fn an_oversized_gist_is_reported_by_the_shape_check() {
    let long = "x".repeat(200);
    let core = UnitCoreBuilder::new(k(KernelType::Claim), &long, Status::Speculative).build().unwrap();
    let uid = smysl::hash::canonical_uid(&core);
    let mut report = Report::new();
    smysl::check::shape::check_unit(&uid, &core, &GranularityProfile::standard(), &mut report);
    assert_eq!(report.count(Code::E022), 1);
    assert_eq!(report.diagnostics[0].uid(), Some(&uid));

    let ok = UnitCoreBuilder::new(k(KernelType::Evidence), "traces", Status::Measured)
        .source(SourceRef::new(SourceKind::Metric, "x"))
        .build()
        .unwrap();
    let mut clean = Report::new();
    smysl::check::shape::check_unit(&uid, &ok, &GranularityProfile::standard(), &mut clean);
    assert!(clean.is_empty());
}

#[test]
fn two_paragraphs_are_more_than_one_assertion_under_the_standard_profile() {
    assert_eq!(paragraphs("one\n\ntwo"), 2);
    let body = format!("{}\n\n{}", "word ".repeat(60), "word ".repeat(60));
    let core = UnitCoreBuilder::new(k(KernelType::Claim), "g", Status::Speculative).body(&body).build().unwrap();
    let uid = Uid::from_bytes([1; 32]);
    let mut report = Report::new();
    smysl::check::granularity::check_unit(&uid, &core, &GranularityProfile::standard(), &mut report);
    assert_eq!(report.count(Code::E040), 1);
    let mut topical = Report::new();
    smysl::check::granularity::check_unit(&uid, &core, &GranularityProfile::coarse(), &mut topical);
    assert_eq!(topical.count(Code::E040), 0);
}
