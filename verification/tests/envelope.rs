use smysl::cbor::packinfo::{dec_f32_bits, dec_packinfo, is_quantised_bits, packinfo_bytes};
use smysl::cbor::reader::Dec;
use smysl::cbor::record::{from_cbor, from_cbor_seq, to_cbor, to_cbor_seq};
use smysl::cbor::relation::{dec_relation, relation_bytes};
use smysl::error::CodecError;
use smysl::ids::{KernelType, SchemaId, ThreadId, Uid};
use smysl::types::annex::{DropReason, Optimality, PackInfo, PackMode};
use smysl::types::epistemics::{Lod, Status};
use smysl::types::record::Record;
use smysl::types::relation::{RelKind, Relation};
use smysl::types::unit::UnitCoreBuilder;

fn unit() -> smysl::types::unit::UnitCore {
    UnitCoreBuilder::new(SchemaId::from(KernelType::Claim), "a claim", Status::Speculative)
        .build()
        .unwrap()
}

#[test]
fn floats_must_be_binary32() {
    let mut b = vec![0xFB];
    b.extend_from_slice(&(614.0_f64 / 1024.0).to_be_bytes());
    assert!(matches!(dec_f32_bits(&mut Dec::new(&b)).unwrap_err(), CodecError::Float { .. }));

    let b = [0xF9, 0x38, 0x00];
    assert!(matches!(dec_f32_bits(&mut Dec::new(&b)).unwrap_err(), CodecError::Float { .. }));
}

#[test]
fn floats_must_already_be_quantised() {
    let mut b = vec![0xFA];
    b.extend_from_slice(&0.6_f32.to_be_bytes());
    assert!(matches!(dec_f32_bits(&mut Dec::new(&b)).unwrap_err(), CodecError::Float { .. }));

    let mut ok = vec![0xFA];
    ok.extend_from_slice(&(614.0_f32 / 1024.0).to_be_bytes());
    assert_eq!(f32::from_bits(dec_f32_bits(&mut Dec::new(&ok)).unwrap()), 614.0 / 1024.0);
}

#[test]
fn the_quantised_bit_patterns_are_the_multiples_of_one_1024th() {
    for v in [0.0_f32, -0.0, 1.0, 0.5, 614.0 / 1024.0, 1.0 / 1024.0, 3.0e5, -7.25] {
        assert!(is_quantised_bits(v.to_bits()), "{v}");
    }
    for v in [0.6_f32, 1.0 / 2048.0, f32::NAN, f32::INFINITY, f32::NEG_INFINITY, f32::MAX, 1.0e-40] {
        assert!(!is_quantised_bits(v.to_bits()), "{v}");
    }
}

#[test]
fn a_truncated_float_is_reported_after_its_head() {
    let b = [0xFA, 0x3F];
    let mut d = Dec::new(&b);
    assert!(matches!(dec_f32_bits(&mut d).unwrap_err(), CodecError::Truncated { at: 1 }));
    assert_eq!(d.position(), 1);
}

#[test]
fn a_relation_reads_back_from_its_bytes() {
    let r = Relation::new(RelKind::Causes, Uid::from_bytes([1; 32]), Uid::from_bytes([2; 32]))
        .with_note(Uid::from_bytes([3; 32]));
    let r = Relation { weight: Some((614.0_f32 / 1024.0).to_bits()), ..r };
    let b = relation_bytes(&r);
    let mut d = Dec::new(&b);
    let back = dec_relation(&mut d).unwrap();
    assert_eq!(back, r);
    assert!(d.is_done());
    assert_eq!(relation_bytes(&back), b);
}

#[test]
fn a_relation_without_an_end_is_malformed() {
    let r = Relation::new(RelKind::Causes, Uid::from_bytes([1; 32]), Uid::from_bytes([2; 32]));
    let b = relation_bytes(&r);
    // Drop the last entry (`to`) and fix the map head.
    let mut cut = vec![0xA2];
    cut.extend_from_slice(&b[1..b.len() - 35]);
    assert!(matches!(dec_relation(&mut Dec::new(&cut)).unwrap_err(), CodecError::MalformedEnvelope { at: 0 }));
}

#[test]
fn a_pack_description_reads_back_from_its_bytes() {
    let mut p = PackInfo::new(4000, 3120, "tiktoken:cl100k");
    p.thread = Some(ThreadId::new("t/incident").unwrap());
    p.dropped = vec![(Uid::from_bytes([5; 32]), DropReason::LowValue), (Uid::from_bytes([4; 32]), DropReason::Budget)];
    p.degraded = vec![(Uid::from_bytes([6; 32]), Lod::L0)];
    p.optimality = Optimality { mode: PackMode::Exact, gap: (3.0_f32 / 1024.0).to_bits() };
    let b = packinfo_bytes(&p);
    let mut d = Dec::new(&b);
    let back = dec_packinfo(&mut d).unwrap();
    assert_eq!(back, p);
    assert!(d.is_done());
    assert!(!back.is_complete());
    assert!(PackInfo::new(1, 1, "x").is_complete());
}

#[test]
fn a_pack_description_with_an_unquantised_gap_is_refused() {
    let mut p = PackInfo::new(1, 1, "x");
    p.optimality = Optimality { mode: PackMode::Greedy, gap: 0.6_f32.to_bits() };
    let b = packinfo_bytes(&p);
    assert!(matches!(dec_packinfo(&mut Dec::new(&b)).unwrap_err(), CodecError::Float { .. }));
}

#[test]
fn records_report_their_own_type_code() {
    assert_eq!(Record::Unit(unit()).type_code(), 1);
    assert_eq!(Record::Unknown { code: 99, payload: vec![] }.type_code(), 99);
}

#[test]
fn only_the_unit_record_is_hashed() {
    assert!(Record::Unit(unit()).is_hashed());
    assert!(!Record::Unknown { code: 99, payload: vec![] }.is_hashed());
}

#[test]
fn unknown_records_are_recognisable_as_such() {
    let r = Record::Unknown { code: 99, payload: vec![0xA0] };
    assert!(r.is_unknown());
    assert_eq!(r.name(), "unknown");
    assert!(!Record::Unit(unit()).is_unknown());
}

#[test]
fn as_unit_projects_only_unit_records() {
    assert!(Record::Unit(unit()).as_unit().is_some());
    assert!(Record::Unknown { code: 9, payload: vec![] }.as_unit().is_none());
}

#[test]
fn a_record_envelope_reads_back() {
    let r = Record::Unit(unit());
    let b = to_cbor(&r);
    assert_eq!(b[0], 0x82);
    assert_eq!(b[1], 0x01);
    let (back, n) = from_cbor(&b).unwrap();
    assert_eq!(back, r);
    assert_eq!(n, b.len());
}

#[test]
fn an_unknown_record_type_survives_verbatim() {
    let r = Record::Unknown { code: 42, payload: vec![0xA1, 0x00, 0x01] };
    let b = to_cbor(&r);
    let (back, n) = from_cbor(&b).unwrap();
    assert_eq!(back, r);
    assert_eq!(n, b.len());
    assert_eq!(to_cbor(&back), b);
}

#[test]
fn an_envelope_of_the_wrong_width_is_malformed() {
    let b = [0x83, 0x01, 0xA0, 0x00];
    assert!(matches!(from_cbor(&b).unwrap_err(), CodecError::MalformedEnvelope { at: 0 }));
}

#[test]
fn a_store_reads_back_up_to_a_truncated_tail() {
    let a = Record::Unit(unit());
    let b = Record::Unknown { code: 42, payload: vec![0xA0] };
    let bytes = to_cbor_seq(&[a, b]);
    let (rs, off) = from_cbor_seq(&bytes).unwrap();
    assert_eq!(rs.len(), 2);
    assert_eq!(off, bytes.len());

    let mut torn = bytes.clone();
    torn.extend_from_slice(&[0x82, 0x01]);
    let (rs, off) = from_cbor_seq(&torn).unwrap();
    assert_eq!(rs.len(), 2);
    assert_eq!(off, bytes.len());
}

#[test]
fn a_pack_with_nothing_dropped_is_complete() {
    let p = PackInfo::new(8000, 6000, "smysl/utf8-div4");
    assert!(p.is_complete());
    assert!(p.drop_histogram().is_empty());
    assert_eq!(p.optimality.mode, PackMode::Greedy);
}

#[test]
fn the_drop_histogram_counts_by_reason_in_reason_order() {
    let mut p = PackInfo::new(100, 100, "smysl/utf8-div4");
    p.dropped = vec![
        (Uid::from_bytes([1; 32]), DropReason::Budget),
        (Uid::from_bytes([2; 32]), DropReason::LowValue),
        (Uid::from_bytes([3; 32]), DropReason::Budget),
    ];
    assert_eq!(p.drop_histogram(), [(DropReason::Budget, 2), (DropReason::LowValue, 1)]);
    assert!(!p.is_complete());
}

#[test]
fn degraded_levels_also_make_a_pack_incomplete() {
    let mut p = PackInfo::new(100, 100, "smysl/utf8-div4");
    p.degraded = vec![(Uid::from_bytes([1; 32]), Lod::L0)];
    assert!(!p.is_complete());
}

#[test]
fn relation_and_pack_records_read_back_through_the_envelope() {
    let rel = Relation::new(RelKind::Answers, Uid::from_bytes([7; 32]), Uid::from_bytes([8; 32]));
    let b = to_cbor(&Record::Relation(rel.clone()));
    assert_eq!(b[1], 0x03);
    let (back, n) = from_cbor(&b).unwrap();
    assert_eq!(back, Record::Relation(rel));
    assert_eq!(n, b.len());

    let p = PackInfo::new(10, 5, "x");
    let b = to_cbor(&Record::PackInfo(p.clone()));
    assert_eq!(b[1], 0x07);
    let (back, n) = from_cbor(&b).unwrap();
    assert_eq!(back, Record::PackInfo(p));
    assert_eq!(n, b.len());
}
