use smysl::cbor::envelope::hlc_bytes;
use smysl::cbor::payloads::{
    contention_bytes, enc_granularity, label_binding_bytes, rel_kind_bytes, schema_decl_bytes, view_bytes,
};
use smysl::cbor::read_payloads::{
    dec_contention, dec_granularity, dec_label_binding, dec_rel_kind, dec_schema_decl, dec_view,
};
use smysl::cbor::reader::Dec;
use smysl::cbor::writer::{Enc, MapBuilder};
use smysl::error::{CodecError, NonDetReason};
use smysl::ids::{AgentId, ContentionId, Label, LangTag, SchemaId, ThreadId, Uid, ViewId};
use smysl::types::annex::{Contention, ContentionStatus, Detected, DetectionKind, LabelBinding, SchemaDecl};
use smysl::types::provenance::Hlc;
use smysl::types::relation::RelKind;
use smysl::types::view::{Admission, GranularityProfile, View};

fn agent(s: &str) -> AgentId {
    AgentId::new(s).unwrap()
}

#[test]
fn a_kernel_relation_kind_is_written_as_its_code() {
    assert_eq!(rel_kind_bytes(&RelKind::Causes), vec![0x03]);
    let mut d = Dec::new(&[0x03]);
    assert_eq!(dec_rel_kind(&mut d).unwrap(), RelKind::Causes);
}

#[test]
fn an_extension_relation_kind_is_written_as_its_name() {
    let k = RelKind::parse("x.sre/mitigates").unwrap();
    let b = rel_kind_bytes(&k);
    assert_eq!(b[0], 0x60 + 15);
    assert_eq!(&b[1..], b"x.sre/mitigates");
    let mut d = Dec::new(&b);
    assert_eq!(dec_rel_kind(&mut d).unwrap(), k);
    assert!(d.is_done());
}

#[test]
fn a_kernel_name_written_as_text_reads_as_the_kernel_kind() {
    let mut e = Enc::new();
    e.text("rebuts");
    let b = e.into_bytes();
    assert_eq!(dec_rel_kind(&mut Dec::new(&b)).unwrap(), RelKind::Rebuts);
}

#[test]
fn an_unknown_relation_code_or_name_is_malformed() {
    assert_eq!(dec_rel_kind(&mut Dec::new(&[0x0e])).unwrap_err(), CodecError::MalformedEnvelope { at: 0 });
    let mut e = Enc::new();
    e.text("frobs");
    let b = e.into_bytes();
    assert_eq!(dec_rel_kind(&mut Dec::new(&b)).unwrap_err(), CodecError::MalformedEnvelope { at: 0 });
    assert_eq!(dec_rel_kind(&mut Dec::new(&[0x40])).unwrap_err(), CodecError::MalformedEnvelope { at: 0 });
}

#[test]
fn a_granularity_profile_reads_back() {
    let g = GranularityProfile::coarse();
    let mut e = Enc::new();
    enc_granularity(&mut e, &g);
    let b = e.into_bytes();
    assert_eq!(b[0], 0xa5);
    let mut d = Dec::new(&b);
    assert_eq!(dec_granularity(&mut d).unwrap(), g);
    assert!(d.is_done());
}

#[test]
fn an_empty_granularity_map_is_the_default_profile() {
    let mut d = Dec::new(&[0xa0]);
    assert_eq!(dec_granularity(&mut d).unwrap(), GranularityProfile::standard());
}

#[test]
fn a_granularity_bound_beyond_u32_is_malformed() {
    let mut m = MapBuilder::new();
    let mut e = Enc::new();
    e.uint(1 << 32);
    m.put(1, e.into_bytes());
    let b = m.into_bytes();
    assert_eq!(dec_granularity(&mut Dec::new(&b)).unwrap_err(), CodecError::MalformedEnvelope { at: 0 });
}

#[test]
fn a_view_reads_back_with_its_sets() {
    let v = View::new(ViewId::new("v/brief").unwrap(), "incident brief")
        .with_roots(vec![Uid::from_bytes([7; 32]), Uid::from_bytes([3; 32])])
        .with_threads(vec![ThreadId::new("t/zeta").unwrap(), ThreadId::new("t/a").unwrap()])
        .requiring(vec![SchemaId::parse("x.sre/1").unwrap(), SchemaId::parse("smysl.kernel/0.1").unwrap()])
        .with_granularity(GranularityProfile::fine())
        .with_lang(LangTag::new("de").unwrap());
    let b = view_bytes(&v);
    let mut d = Dec::new(&b);
    let back = dec_view(&mut d).unwrap();
    assert!(d.is_done());
    assert_eq!(back.id, v.id);
    assert_eq!(back.roots, v.roots);
    assert_eq!(back.threads.len(), 2);
    assert_eq!(back.requires.len(), 2);
    assert_eq!(back.granularity, GranularityProfile::fine());
    assert_eq!(back.intent, "incident brief");
    assert_eq!(back.lang.as_str(), "de");
    assert_eq!(view_bytes(&back), b);
}

#[test]
fn a_view_set_is_laid_out_in_encoded_byte_order() {
    // "t/a" encodes shorter than "t/zeta", so it comes first whatever order it was given in.
    let v = View::new(ViewId::new("v/x").unwrap(), "i")
        .with_threads(vec![ThreadId::new("t/zeta").unwrap(), ThreadId::new("t/a").unwrap()]);
    let b = view_bytes(&v);
    let a = b.windows(4).position(|w| w == b"\x63t/a").unwrap();
    let z = b.windows(7).position(|w| w == b"\x66t/zeta").unwrap();
    assert!(a < z);
}

#[test]
fn an_unsorted_thread_set_is_refused() {
    let mut arr = Enc::new();
    arr.array_head(2);
    arr.text("t/zeta");
    arr.text("t/a");
    let mut m = MapBuilder::new();
    let mut id = Enc::new();
    id.text("v/x");
    m.put(0, id.into_bytes());
    m.put(2, arr.into_bytes());
    let b = m.into_bytes();
    let err = dec_view(&mut Dec::new(&b)).unwrap_err();
    assert!(matches!(err, CodecError::NonDeterministic { reason: NonDetReason::UnsortedSet, .. }));
}

#[test]
fn a_view_without_an_id_is_malformed() {
    assert_eq!(dec_view(&mut Dec::new(&[0xa0])).unwrap_err(), CodecError::MalformedEnvelope { at: 0 });
}

#[test]
fn a_contention_reads_back() {
    let det = Detected { kind: DetectionKind::LiveRebuttal, ts: Hlc::new(9, 2, agent("human:v")) };
    let c = Contention::new(
        ContentionId::new("c/pool").unwrap(),
        Uid::from_bytes([1; 32]),
        vec![Uid::from_bytes([9; 32]), Uid::from_bytes([2; 32])],
        det.clone(),
    );
    let b = contention_bytes(&c);
    let mut d = Dec::new(&b);
    let back = dec_contention(&mut d).unwrap();
    assert!(d.is_done());
    assert_eq!(back, c);
    assert_eq!(back.positions, vec![Uid::from_bytes([9; 32]), Uid::from_bytes([2; 32])]);
    assert_eq!(back.status, ContentionStatus::Open);
    assert_eq!(contention_bytes(&back), b);
    // The detection record is an array of the kind's code and the clock.
    let h = hlc_bytes(&det.ts);
    assert!(b.windows(h.len() + 2).any(|w| w[0] == 0x82 && w[1] == DetectionKind::LiveRebuttal.as_u8() && w[2..] == h[..]));
}

#[test]
fn a_schema_declaration_reads_back() {
    let mut s = SchemaDecl::new(SchemaId::parse("x.sre/1").unwrap(), 3);
    s.types = vec![SchemaId::parse("x.sre/incident").unwrap()];
    s.relations = vec![RelKind::parse("x.sre/mitigates").unwrap(), RelKind::Causes];
    s.payload_shape = Some(vec![0xa0]);
    let b = schema_decl_bytes(&s);
    let mut d = Dec::new(&b);
    let back = dec_schema_decl(&mut d).unwrap();
    assert!(d.is_done());
    assert_eq!(back, s);
    assert_eq!(schema_decl_bytes(&back), b);
}

#[test]
fn a_minimal_schema_declaration_omits_its_empty_lists() {
    let s = SchemaDecl::new(SchemaId::parse("x.sre/1").unwrap(), 0);
    let b = schema_decl_bytes(&s);
    assert_eq!(b[0], 0xa2);
    assert_eq!(dec_schema_decl(&mut Dec::new(&b)).unwrap(), s);
}

#[test]
fn a_label_binding_reads_back() {
    let l = LabelBinding::new(Label::new("d/p95").unwrap(), Uid::from_bytes([6; 32]));
    let b = label_binding_bytes(&l);
    assert_eq!(b[0], 0xa2);
    let mut d = Dec::new(&b);
    assert_eq!(dec_label_binding(&mut d).unwrap(), l);
    assert!(d.is_done());
}

#[test]
fn a_label_binding_missing_its_uid_is_malformed() {
    let mut m = MapBuilder::new();
    let mut e = Enc::new();
    e.text("d/p95");
    m.put(0, e.into_bytes());
    let b = m.into_bytes();
    assert_eq!(dec_label_binding(&mut Dec::new(&b)).unwrap_err(), CodecError::MalformedEnvelope { at: 0 });
}

#[test]
fn a_sorted_set_field_is_omitted_when_empty_and_sorted_otherwise() {
    let mut m = MapBuilder::new();
    m.put_sorted_set(3, vec![]);
    m.put_sorted_set(1, vec![vec![0x62, b'b', b'b'], vec![0x61, b'z']]);
    let b = m.into_bytes();
    assert_eq!(b, vec![0xa1, 0x01, 0x82, 0x61, b'z', 0x62, b'b', b'b']);
}

#[test]
fn an_admission_code_with_no_rule_is_malformed() {
    let mut m = MapBuilder::new();
    let mut e = Enc::new();
    e.uint(7);
    m.put(4, e.into_bytes());
    let b = m.into_bytes();
    assert_eq!(dec_granularity(&mut Dec::new(&b)).unwrap_err(), CodecError::MalformedEnvelope { at: 0 });
    assert_eq!(Admission::from_u8(7), None);
}
