use smysl::diag::Code;
use smysl::ids::{AgentId, ContentionId, KernelType, SchemaId, Uid};
use smysl::types::annex::{Contention, ContentionStatus, Detected, DetectionKind, DropReason, PackMode, SchemaDecl};
use smysl::types::provenance::Hlc;
use smysl::types::relation::RelKind;

fn uid(n: u8) -> Uid {
    Uid::from_bytes([n; 32])
}

fn detected(kind: DetectionKind) -> Detected {
    Detected { kind, ts: Hlc::zero(AgentId::new("human:v").unwrap()) }
}

#[test]
fn detection_kinds_round_trip_and_map_to_codes() {
    assert_eq!(DetectionKind::ALL.len(), 3);
    for &k in DetectionKind::ALL.iter() {
        assert_eq!(DetectionKind::from_u8(k.as_u8()), Some(k));
    }
    assert_eq!(DetectionKind::SupersessionFork.code(), Code::W053);
    assert_eq!(DetectionKind::LabelCollision.code(), Code::W054);
}

#[test]
fn contentions_start_open() {
    let c = Contention::new(
        ContentionId::new("k/pool-vs-index").unwrap(),
        uid(1),
        vec![uid(2), uid(3)],
        detected(DetectionKind::SupersessionFork),
    );
    assert!(c.is_open());
    assert_eq!(c.status, ContentionStatus::Open);
}

#[test]
fn an_open_contention_pins_all_of_its_positions() {
    let c = Contention::new(
        ContentionId::new("k/x").unwrap(),
        uid(1),
        vec![uid(2), uid(3)],
        detected(DetectionKind::LiveRebuttal),
    );
    assert!(c.pins(&uid(1)));
    assert!(c.pins(&uid(2)));
    assert!(c.pins(&uid(3)));
    assert!(!c.pins(&uid(9)));
}

#[test]
fn a_resolved_contention_pins_nothing() {
    let mut c = Contention::new(
        ContentionId::new("k/x").unwrap(),
        uid(1),
        vec![uid(2)],
        detected(DetectionKind::LiveRebuttal),
    );
    c.status = ContentionStatus::Resolved;
    assert!(!c.is_open());
    assert!(!c.pins(&uid(2)));
}

#[test]
fn contention_status_round_trips() {
    for &s in ContentionStatus::ALL.iter() {
        assert_eq!(ContentionStatus::from_u8(s.as_u8()), Some(s));
    }
    assert_eq!(ContentionStatus::from_u8(3), None);
}

#[test]
fn drop_reasons_and_pack_modes_round_trip() {
    for &r in DropReason::ALL.iter() {
        assert_eq!(DropReason::from_u8(r.as_u8()), Some(r));
    }
    assert_eq!(DropReason::from_u8(4), None);
    for &m in PackMode::ALL.iter() {
        assert_eq!(PackMode::from_u8(m.as_u8()), Some(m));
    }
    assert_eq!(PackMode::from_u8(2), None);
}

#[test]
fn an_extension_may_add_types_but_not_redefine_kernel_ones() {
    let mut d = SchemaDecl::new(SchemaId::parse("x.sre/1").unwrap(), 1);
    d.types = vec![SchemaId::parse("x.sre/incident").unwrap()];
    d.relations = vec![RelKind::parse("x.sre/mitigates").unwrap()];
    assert!(!d.redefines_kernel());

    d.types.push(SchemaId::from(KernelType::Claim));
    assert!(d.redefines_kernel(), "redefining `claim` is SMY-E012");
}

#[test]
fn redefining_a_kernel_relation_is_also_a_violation() {
    let mut d = SchemaDecl::new(SchemaId::parse("x.sre/1").unwrap(), 1);
    d.relations = vec![RelKind::Rebuts];
    assert!(d.redefines_kernel());
}
