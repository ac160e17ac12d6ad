use smysl::cbor::decode::dec_source;
use smysl::cbor::decode::dec_unit;
use smysl::cbor::envelope::unit_core_bytes;
use smysl::ids::{KernelType, SchemaId};
use smysl::types::epistemics::{SourceKind, SourceRef, Status};
use smysl::types::unit::UnitCoreBuilder;
use smysl::cbor::major;
use smysl::cbor::reader::Dec;
use smysl::cbor::writer::Enc;
use smysl::error::{CodecError, NonDetReason};
use smysl::ids::Uid;

fn dec(b: &[u8]) -> Dec<'_> {
    Dec::new(b)
}

fn reason(e: &CodecError) -> Option<NonDetReason> {
    match e {
        CodecError::NonDeterministic { reason, .. } => Some(*reason),
        _ => None,
    }
}

#[test]
fn reads_back_what_the_encoder_wrote() {
    for v in [0u64, 23, 24, 255, 256, 65535, 65536, u32::MAX as u64, u64::MAX] {
        let mut e = Enc::new();
        e.uint(v);
        let b = e.into_bytes();
        assert_eq!(dec(&b).uint().unwrap(), v, "uint({v})");
    }
}

#[test]
fn non_shortest_integers_are_rejected_at_every_width() {
    let cases: &[&[u8]] = &[
        &[0x18, 0x01],
        &[0x19, 0x00, 0x17],
        &[0x1A, 0x00, 0x00, 0x00, 0x01],
        &[0x1B, 0, 0, 0, 0, 0, 0, 0, 1],
        &[0x1B, 0, 0, 0, 0, 0xFF, 0xFF, 0xFF, 0xFF],
    ];
    for c in cases {
        let e = dec(c).uint().unwrap_err();
        assert_eq!(reason(&e), Some(NonDetReason::NonShortestInt), "{c:?}");
    }
}

#[test]
fn boundary_widths_are_accepted() {
    assert_eq!(dec(&[0x18, 0x18]).uint().unwrap(), 24);
    assert_eq!(dec(&[0x19, 0x01, 0x00]).uint().unwrap(), 256);
    assert_eq!(dec(&[0x1A, 0, 1, 0, 0]).uint().unwrap(), 65536);
}

#[test]
fn indefinite_lengths_are_rejected() {
    for b in [0x5Fu8, 0x7F, 0x9F, 0xBF] {
        let e = dec(&[b]).head().unwrap_err();
        assert_eq!(reason(&e), Some(NonDetReason::IndefiniteLength));
    }
}

#[test]
fn text_must_be_nfc() {
    let mut e = Enc::new();
    e.head(major::TEXT, 6);
    e.raw("cafe\u{301}".as_bytes());
    let b = e.into_bytes();
    let err = dec(&b).text().unwrap_err();
    assert_eq!(reason(&err), Some(NonDetReason::NonNfcText));
}

#[test]
fn nfc_text_round_trips() {
    let mut e = Enc::new();
    e.text("caf\u{e9}");
    let b = e.into_bytes();
    assert_eq!(dec(&b).text().unwrap(), "caf\u{e9}");
}

#[test]
fn invalid_utf8_is_malformed_not_a_determinism_violation() {
    let b = [0x62, 0xFF, 0xFE];
    assert!(matches!(dec(&b).text().unwrap_err(), CodecError::MalformedEnvelope { .. }));
}

#[test]
fn uids_must_be_full_width() {
    let mut e = Enc::new();
    e.bytes(&[0x11; 17]);
    let b = e.into_bytes();
    assert!(matches!(dec(&b).uid().unwrap_err(), CodecError::TruncatedUid { len: 17, .. }));

    let mut e = Enc::new();
    e.uid(&Uid::from_bytes([0x11; 32]));
    let b = e.into_bytes();
    assert_eq!(dec(&b).uid().unwrap(), Uid::from_bytes([0x11; 32]));
}

#[test]
fn map_keys_must_strictly_ascend() {
    let mut d = dec(&[0x00, 0x01, 0x00]);
    let k0 = d.map_key(None).unwrap();
    let k1 = d.map_key(Some(k0)).unwrap();
    assert_eq!((k0, k1), (0, 1));
    let e = d.map_key(Some(k1)).unwrap_err();
    assert_eq!(reason(&e), Some(NonDetReason::UnsortedMapKeys));
}

#[test]
fn duplicate_map_keys_are_distinguished_from_unsorted_ones() {
    let mut d = dec(&[0x05]);
    let e = d.map_key(Some(5)).unwrap_err();
    assert_eq!(reason(&e), Some(NonDetReason::DuplicateMapKey));
}

#[test]
fn null_is_rejected_where_an_optional_belongs() {
    let d = dec(&[0xF6]);
    assert_eq!(reason(&d.reject_null().unwrap_err()), Some(NonDetReason::NullOptional));
    assert!(dec(&[0x00]).reject_null().is_ok());
}

#[test]
fn uid_sets_must_be_sorted_and_deduplicated() {
    let mut e = Enc::new();
    e.array_head(2);
    e.uid(&Uid::from_bytes([2; 32]));
    e.uid(&Uid::from_bytes([1; 32]));
    let b = e.into_bytes();
    assert_eq!(reason(&dec(&b).uid_set().unwrap_err()), Some(NonDetReason::UnsortedSet));

    let mut e = Enc::new();
    e.array_head(2);
    e.uid(&Uid::from_bytes([1; 32]));
    e.uid(&Uid::from_bytes([1; 32]));
    let b = e.into_bytes();
    assert_eq!(
        reason(&dec(&b).uid_set().unwrap_err()),
        Some(NonDetReason::UnsortedSet),
        "a repeated element is not a set"
    );
}

#[test]
fn sorted_uid_sets_are_accepted() {
    let mut e = Enc::new();
    e.array_head(2);
    e.uid(&Uid::from_bytes([1; 32]));
    e.uid(&Uid::from_bytes([2; 32]));
    let b = e.into_bytes();
    assert_eq!(dec(&b).uid_set().unwrap().len(), 2);
}

#[test]
fn truncated_input_is_reported_as_truncation() {
    assert!(matches!(dec(&[]).uint().unwrap_err(), CodecError::Truncated { .. }));
    assert!(matches!(dec(&[0x19, 0x01]).uint().unwrap_err(), CodecError::Truncated { .. }));
    assert!(matches!(dec(&[0x45, 0x01]).bytes().unwrap_err(), CodecError::Truncated { .. }));
}

#[test]
fn a_type_mismatch_leaves_the_position_untouched() {
    let mut d = dec(&[0x65, 0x63, 0x6c, 0x61, 0x69, 0x6d]);
    assert!(d.uint().is_err());
    assert_eq!(d.position(), 0, "a failed read must not consume");
    assert_eq!(d.text().unwrap(), "claim");
}

#[test]
fn skip_item_returns_the_exact_bytes_it_skipped() {
    let mut e = Enc::new();
    e.uint(7);
    e.text("claim");
    let b = e.into_bytes();
    let mut d = dec(&b);
    assert_eq!(d.skip_item().unwrap(), &[0x07]);
    assert_eq!(d.skip_item().unwrap(), &b[1..]);
    assert!(d.is_done());
}

#[test]
fn skip_item_handles_nested_containers() {
    let mut e = Enc::new();
    e.array_head(2);
    e.uint(1);
    e.map(vec![(0, vec![0x01]), (1, vec![0x02])]);
    let b = e.into_bytes();
    let mut d = dec(&b);
    assert_eq!(d.skip_item().unwrap().len(), b.len());
    assert!(d.is_done());
}

#[test]
fn skip_item_still_rejects_a_nested_indefinite_length() {
    let b = [0x81, 0x9F, 0xFF];
    assert_eq!(reason(&dec(&b).skip_item().unwrap_err()), Some(NonDetReason::IndefiniteLength));
}

#[test]
fn tags_are_rejected() {
    let b = [0xC0, 0x00];
    assert!(matches!(dec(&b).skip_item().unwrap_err(), CodecError::MalformedEnvelope { .. }));
}

#[test]
fn nesting_past_the_limit_is_refused() {
    let mut b = vec![0x81u8; 200];
    b.push(0x00);
    assert!(matches!(dec(&b).skip_item().unwrap_err(), CodecError::NestingTooDeep { .. }));
}

#[test]
fn a_unit_core_reads_back_from_its_canonical_bytes() {

    let core = UnitCoreBuilder::new(SchemaId::from(KernelType::Claim), "p95 tripled", Status::Cited)
        .body("from 180ms to 540ms")
        .deps(vec![Uid::from_bytes([2; 32]), Uid::from_bytes([1; 32])])
        .source(SourceRef::new(SourceKind::Metric, "pool.wait_ms"))
        .payload(vec![0x01])
        .build()
        .unwrap();
    let bytes = unit_core_bytes(&core);
    let mut d = Dec::new(&bytes);
    let back = dec_unit(&mut d).unwrap();
    assert_eq!(back, core);
    assert!(d.is_done());
}

#[test]
fn a_unit_payload_missing_its_gist_is_malformed() {
    let mut e = Enc::new();
    e.map(vec![(0, {
        let mut t = Enc::new();
        t.text("claim");
        t.into_bytes()
    }), (6, vec![0x01])]);
    let b = e.into_bytes();
    assert!(matches!(dec_unit(&mut Dec::new(&b)).unwrap_err(), CodecError::MalformedEnvelope { at: 0 }));
}

#[test]
fn unknown_unit_keys_survive_a_read() {
    let mut e = Enc::new();
    e.map(vec![
        (0, vec![0x65, b'c', b'l', b'a', b'i', b'm']),
        (1, vec![0x61, b'g']),
        (6, vec![0x01]),
        (42, vec![0x82, 0x01, 0x02]),
    ]);
    let b = e.into_bytes();
    let core = dec_unit(&mut Dec::new(&b)).unwrap();
    assert_eq!(core.extra.get(&42), Some(&vec![0x82, 0x01, 0x02]));
    assert_eq!(smysl::cbor::envelope::unit_core_bytes(&core), b);
}

#[test]
fn a_source_reference_reads_back() {
    let mut e = Enc::new();
    e.map(vec![(0, vec![0x02]), (1, vec![0x61, b'x']), (2, {
        let mut t = Enc::new();
        t.text("2026-07-09");
        t.into_bytes()
    })]);
    let b = e.into_bytes();
    let s = dec_source(&mut Dec::new(&b)).unwrap();
    assert_eq!(s.reference, "x");
    assert_eq!(s.captured.unwrap().render(), "2026-07-09");

    let mut e = Enc::new();
    e.map(vec![(0, vec![0x02]), (1, vec![0x61, b'x']), (2, vec![0x62, b'n', b'o'])]);
    let b = e.into_bytes();
    assert!(matches!(dec_source(&mut Dec::new(&b)).unwrap_err(), CodecError::MalformedEnvelope { at: 0 }));
}

#[test]
fn an_unknown_bare_unit_type_survives_a_read() {
    let mut e = Enc::new();
    e.map(vec![
        (0, vec![0x66, b'w', b'i', b'd', b'g', b'e', b't']),
        (1, vec![0x61, b'g']),
        (6, vec![0x01]),
    ]);
    let b = e.into_bytes();
    let mut d = Dec::new(&b);
    let core = dec_unit(&mut d).unwrap();
    assert_eq!(core.schema, SchemaId::UnknownKernel("widget".to_string()));
    assert_eq!(core.gist, "g");
    assert_eq!(core.status, Status::Speculative);
    assert!(d.is_done());
    assert_eq!(unit_core_bytes(&core), b);
}

#[test]
fn a_namespaced_unit_type_that_does_not_parse_is_still_malformed() {
    for t in ["x.1sre/t", "smysl.kernel/", "a/b", "Claim"] {
        let mut txt = Enc::new();
        txt.text(t);
        let mut e = Enc::new();
        e.map(vec![(0, txt.into_bytes()), (1, vec![0x61, b'g']), (6, vec![0x01])]);
        let b = e.into_bytes();
        assert!(matches!(dec_unit(&mut Dec::new(&b)).unwrap_err(), CodecError::MalformedEnvelope { at: 0 }));
    }
}

#[test]
fn a_unit_core_with_a_dated_source_reads_back() {
    let date = smysl::types::epistemics::Date::new(2026, 7, 9).unwrap();
    let core = UnitCoreBuilder::new(SchemaId::from(KernelType::Evidence), "pool saturated", Status::Measured)
        .source(SourceRef::new(SourceKind::Metric, "pool.wait_ms").captured_on(date))
        .build()
        .unwrap();
    let bytes = unit_core_bytes(&core);
    let mut d = Dec::new(&bytes);
    let back = dec_unit(&mut d).unwrap();
    assert_eq!(back, core);
    assert!(d.is_done());
}
