use smysl::ids::AgentId;
use smysl::types::provenance::{Attestation, Hlc, Op, Rung};
use smysl::types::relation::{RelKind, Relation};

#[test]
fn fourteen_kernel_kinds_in_appendix_b_code_order() {
    assert_eq!(RelKind::KERNEL.len(), 14);
    let expected = [
        "elaborates", "contrasts", "concedes", "causes", "enables", "exemplifies", "conditions",
        "sequences", "answers", "rebuts", "warrant", "backs", "supersedes", "retracts",
    ];
    for (i, name) in expected.iter().enumerate() {
        let k = RelKind::from_code(i as u8).unwrap();
        assert_eq!(k.as_str(), *name);
        assert_eq!(k.code(), Some(i as u8));
    }
}

#[test]
fn codes_past_the_kernel_set_are_reserved_not_assigned() {
    assert_eq!(RelKind::from_code(14), None);
    assert_eq!(RelKind::from_code(63), None);
    assert!(RelKind::is_reserved_code(14));
    assert!(RelKind::is_reserved_code(63));
    assert!(!RelKind::is_reserved_code(64));
}

#[test]
fn kernel_kinds_round_trip_through_text() {
    for k in RelKind::KERNEL.iter() {
        assert_eq!(&RelKind::parse(k.as_str()).unwrap(), k);
    }
}

#[test]
fn extension_kinds_take_the_x_form_and_have_no_code() {
    let k = RelKind::parse("x.sre/mitigates").unwrap();
    assert_eq!(k, RelKind::Extension("x.sre/mitigates".into()));
    assert_eq!(k.code(), None);
    assert!(!k.is_kernel());
}

#[test]
fn malformed_relation_kinds_are_rejected() {
    for s in ["", "mitigates", "x.sre", "x./m", "x.sre/", "X.sre/m"] {
        assert!(RelKind::parse(s).is_err(), "`{s}` must be rejected");
    }
}

#[test]
fn unknown_kinds_degrade_to_elaborates_for_closure() {
    let k = RelKind::parse("x.sre/mitigates").unwrap();
    assert_eq!(k.closure_kind(), RelKind::Elaborates);
    for kk in RelKind::KERNEL.iter() {
        assert_eq!(&kk.closure_kind(), kk, "a kernel kind is its own closure kind");
    }
}

#[test]
fn only_causes_and_answers_carry_support_rank() {
    let carriers: Vec<&str> =
        RelKind::KERNEL.iter().filter(|k| k.carries_support()).map(|k| k.as_str()).collect();
    assert_eq!(carriers, ["causes", "answers"]);
}

#[test]
fn thread_ordering_runs_over_sequences_causes_and_enables() {
    let ordering: Vec<&str> =
        RelKind::KERNEL.iter().filter(|k| k.is_ordering()).map(|k| k.as_str()).collect();
    assert_eq!(ordering, ["causes", "enables", "sequences"]);
}

#[test]
fn supersedes_and_retracts_are_the_lifecycle_kinds() {
    let lifecycle: Vec<&str> =
        RelKind::KERNEL.iter().filter(|k| k.is_lifecycle()).map(|k| k.as_str()).collect();
    assert_eq!(lifecycle, ["supersedes", "retracts"]);
}

fn uid(n: u8) -> smysl::ids::Uid {
    smysl::ids::Uid::from_bytes([n; 32])
}

#[test]
fn rebuts_is_directional() {
    let r = Relation::new(RelKind::Rebuts, uid(1), uid(2));
    assert!(r.rebuts(&uid(2)));
    assert!(!r.rebuts(&uid(1)));

    let c = Relation::new(RelKind::Causes, uid(1), uid(2));
    assert!(!c.rebuts(&uid(2)));
}

#[test]
fn a_relation_has_a_content_address_of_its_own() {
    let a = Relation::new(RelKind::Rebuts, uid(1), uid(2));
    let b = Relation { weight: Some((614.0_f32 / 1024.0).to_bits()), ..Relation::new(RelKind::Rebuts, uid(1), uid(2)) };
    assert_eq!(a.uid(), b.uid(), "weight is not identity");
    assert_ne!(a.uid(), Relation::new(RelKind::Causes, uid(1), uid(2)).uid());
    assert_ne!(a.uid(), Relation::new(RelKind::Rebuts, uid(2), uid(1)).uid());
    assert_ne!(a.uid(), uid(1));
    assert_ne!(a.uid(), uid(2));
}

#[test]
fn an_unattested_relation_has_no_hop() {
    assert_eq!(Relation::new(RelKind::Rebuts, uid(1), uid(2)).hop(), None);
}

#[test]
fn relations_carry_their_own_attestations() {
    let ag = AgentId::new("model:openai/gpt").unwrap();
    let r = Relation::new(RelKind::Rebuts, uid(1), uid(2)).with_note(uid(3));
    let att = Attestation::new(uid(4), ag.clone(), Op::Authored, Rung::Model, Hlc::zero(ag)).at_hop(3);
    let r = Relation { attestations: vec![att], ..r };
    assert_eq!(r.attestations.len(), 1);
    assert_eq!(r.note, Some(uid(3)));
    assert_eq!(r.hop(), Some(3));
}
