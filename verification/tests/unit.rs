use smysl::error::ShapeError;
use smysl::ids::{AgentId, KernelType, Label, SchemaId, Uid};
use smysl::types::provenance::{Attestation, Hlc, Op, Rung};
use smysl::types::epistemics::{Lod, SourceKind, SourceRef, Status};
use smysl::types::unit::{Unit, UnitCoreBuilder};

fn uid(n: u8) -> Uid {
    Uid::from_bytes([n; 32])
}

fn claim(status: Status) -> UnitCoreBuilder {
    UnitCoreBuilder::new(SchemaId::from(KernelType::Claim), "p95 auth latency tripled", status)
}

#[test]
fn a_gist_only_speculative_unit_is_valid() {
    let c = claim(Status::Speculative).build().unwrap();
    assert!(c.is_gist_only());
    assert_eq!(c.max_lod(), Lod::L0);
    assert_eq!(c.text_at(Lod::L0), Some("p95 auth latency tripled"));
    assert_eq!(c.text_at(Lod::L1), None);
}

#[test]
fn an_empty_gist_is_e021() {
    for g in ["", "   ", "\n\t "] {
        let e = UnitCoreBuilder::new(SchemaId::from(KernelType::Claim), g, Status::Speculative)
            .build()
            .unwrap_err();
        assert_eq!(e, ShapeError::MissingGist);
    }
}

#[test]
fn detail_without_body_is_e023() {
    let e = claim(Status::Speculative).detail("per-shard breakdown").build().unwrap_err();
    assert_eq!(e, ShapeError::DetailWithoutBody);
}

#[test]
fn detail_with_body_is_fine() {
    let c = claim(Status::Speculative)
        .body("Between the 2nd and the 9th, p95 rose from 180ms to 540ms.")
        .detail("Per-shard breakdown at hourly resolution.")
        .build()
        .unwrap();
    assert_eq!(c.max_lod(), Lod::L2);
    assert!(c.text_at(Lod::L2).is_some());
}

#[test]
fn an_empty_body_does_not_satisfy_the_detail_requirement() {
    let e = claim(Status::Speculative).body("").detail("x").build().unwrap_err();
    assert_eq!(e, ShapeError::DetailWithoutBody);
}

#[test]
fn unfounded_cannot_be_authored() {
    let e = claim(Status::Unfounded).build().unwrap_err();
    assert_eq!(e, ShapeError::UnfoundedAuthored);
}

#[test]
fn measured_and_cited_require_a_source() {
    for s in [Status::Measured, Status::Cited] {
        let e = claim(s).build().unwrap_err();
        assert_eq!(e, ShapeError::SourceRequired, "{s:?} must require a source");
        assert!(claim(s).source(SourceRef::new(SourceKind::Metric, "pool.wait_ms")).build().is_ok());
    }
}

#[test]
fn derived_and_inferred_require_grounds() {
    for s in [Status::Derived, Status::Inferred] {
        let e = claim(s).build().unwrap_err();
        assert_eq!(e, ShapeError::GroundsRequired, "{s:?} must require grounds");
        assert!(claim(s).grounds(vec![uid(1)]).build().is_ok());
    }
}

#[test]
fn speculative_needs_neither_source_nor_grounds() {
    assert!(claim(Status::Speculative).build().is_ok());
}

#[test]
fn text_is_normalised_to_nfc_on_construction() {
    let c = UnitCoreBuilder::new(SchemaId::from(KernelType::Prose), "cafe\u{301} latency", Status::Speculative)
        .body("cafe\u{301}")
        .build()
        .unwrap();
    assert_eq!(c.gist, "caf\u{e9} latency");
    assert_eq!(c.body.as_deref(), Some("caf\u{e9}"));
    assert!(unicode_normalization::is_nfc(&c.gist));
}

#[test]
fn normalisation_collapses_equivalent_text_to_one_core() {
    let a = UnitCoreBuilder::new(SchemaId::from(KernelType::Prose), "cafe\u{301}", Status::Speculative)
        .build()
        .unwrap();
    let b = UnitCoreBuilder::new(SchemaId::from(KernelType::Prose), "caf\u{e9}", Status::Speculative)
        .build()
        .unwrap();
    assert_eq!(a, b);
}

#[test]
fn references_covers_deps_and_grounds() {
    let c = claim(Status::Inferred).deps(vec![uid(1), uid(2)]).grounds(vec![uid(3)]).build().unwrap();
    let refs: Vec<u8> = c.references().iter().map(|u| u.as_bytes()[0]).collect();
    assert_eq!(refs, [1, 2, 3]);
}

#[test]
fn dep_and_ground_sets_deduplicate_and_sort() {
    let c = claim(Status::Speculative).deps(vec![uid(3), uid(1), uid(3)]).build().unwrap();
    let d: Vec<u8> = c.deps.iter().map(|u| u.as_bytes()[0]).collect();
    assert_eq!(d, [1, 3]);
}

#[test]
fn extension_schemas_carry_opaque_payload() {
    let c = UnitCoreBuilder::new(SchemaId::parse("x.sre/incident").unwrap(), "an incident", Status::Speculative)
        .payload(vec![0xA1, 0x00, 0x01])
        .build()
        .unwrap();
    assert!(!c.schema.is_kernel());
    assert_eq!(c.payload.as_deref(), Some(&[0xA1, 0x00, 0x01][..]));
}

fn speculative_core() -> smysl::types::unit::UnitCore {
    UnitCoreBuilder::new(SchemaId::from(KernelType::Claim), "p95 auth latency tripled", Status::Speculative).build().unwrap()
}

#[test]
fn corroboration_counts_distinct_groups_not_attestations() {
    let mk = |ag: &str| {
        let a = AgentId::new(ag).unwrap();
        Attestation::new(Uid::from_bytes([1; 32]), a.clone(), Op::Authored, Rung::Model, Hlc::zero(a))
    };
    let u = Unit::new(speculative_core())
        .with_attestation(mk("model:acme/alpha").at_hop(0))
        .with_attestation(mk("model:acme/alpha").at_hop(1))
        .with_attestation(mk("model:acme/beta").at_hop(0));
    assert_eq!(u.attestations.len(), 3);
    assert_eq!(u.corroboration_groups(), 2, "the same agent under the same recipe is one group, whatever the hop");
}

#[test]
fn a_unit_with_no_attestations_has_no_hop() {
    let u = Unit::new(speculative_core());
    assert_eq!(u.first_hop(), None);
    assert_eq!(u.corroboration_groups(), 0);
}

#[test]
fn units_carry_attestations_labels_and_salience_outside_the_core() {
    let ag = AgentId::new("human:vladimir").unwrap();
    let core = speculative_core();
    let u = Unit::new(core.clone())
        .with_attestation(Attestation::new(Uid::from_bytes([9; 32]), ag.clone(), Op::Authored, Rung::Document, Hlc::zero(ag)).at_hop(3))
        .with_label(Label::new("c/auth-p95").unwrap())
        .with_label(Label::new("c/auth-p95").unwrap())
        .with_salience(1.0f32.to_bits());
    assert_eq!(u.core, core, "the core is untouched by any of this");
    assert_eq!(u.salience, Some(1.0f32.to_bits()));
    assert_eq!(u.labels.len(), 1, "a label is held once");
    assert_eq!(u.status(), Status::Speculative);
    assert_eq!(u.first_hop(), Some(3));
}

#[test]
fn the_first_hop_is_the_lowest() {
    let ag = AgentId::new("human:v").unwrap();
    let at = |h: u32| Attestation::new(Uid::from_bytes([9; 32]), ag.clone(), Op::Authored, Rung::Document, Hlc::zero(ag.clone())).at_hop(h);
    let u = Unit::new(speculative_core()).with_attestation(at(4)).with_attestation(at(2)).with_attestation(at(7));
    assert_eq!(u.first_hop(), Some(2));
}
