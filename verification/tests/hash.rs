use smysl::cbor::envelope::unit_core_bytes;
use smysl::diag::Code;
use smysl::error::IntegrityError;
use smysl::hash::{canonical_uid, hash_bytes, verify};
use smysl::ids::{KernelType, SchemaId, Uid};
use smysl::types::epistemics::{SourceKind, SourceRef, Status};
use smysl::types::unit::{UnitCore, UnitCoreBuilder};

fn k(t: KernelType) -> SchemaId {
    SchemaId::from(t)
}

fn claim(gist: &str) -> UnitCore {
    UnitCoreBuilder::new(k(KernelType::Claim), gist, Status::Speculative).build().unwrap()
}

#[test]
fn the_same_core_hashes_to_the_same_uid() {
    assert_eq!(canonical_uid(&claim("p95 tripled")), canonical_uid(&claim("p95 tripled")));
}

#[test]
fn different_content_hashes_differently() {
    assert_ne!(canonical_uid(&claim("a")), canonical_uid(&claim("b")));
}

#[test]
fn every_hashed_field_changes_the_uid() {
    let base = UnitCoreBuilder::new(k(KernelType::Claim), "g", Status::Speculative).build().unwrap();
    let base_uid = canonical_uid(&base);

    let variants = [
        UnitCoreBuilder::new(k(KernelType::Finding), "g", Status::Speculative).build().unwrap(),
        UnitCoreBuilder::new(k(KernelType::Claim), "h", Status::Speculative).build().unwrap(),
        UnitCoreBuilder::new(k(KernelType::Claim), "g", Status::Speculative).body("b").build().unwrap(),
        UnitCoreBuilder::new(k(KernelType::Claim), "g", Status::Speculative)
            .body("b")
            .detail("d")
            .build()
            .unwrap(),
        UnitCoreBuilder::new(k(KernelType::Claim), "g", Status::Speculative)
            .deps(vec![Uid::from_bytes([1; 32])])
            .build()
            .unwrap(),
        UnitCoreBuilder::new(k(KernelType::Claim), "g", Status::Inferred)
            .grounds(vec![Uid::from_bytes([1; 32])])
            .build()
            .unwrap(),
        UnitCoreBuilder::new(k(KernelType::Claim), "g", Status::Cited)
            .source(SourceRef::new(SourceKind::Doc, "x"))
            .build()
            .unwrap(),
        UnitCoreBuilder::new(k(KernelType::Claim), "g", Status::Speculative)
            .payload(vec![0x01])
            .build()
            .unwrap(),
    ];

    let mut seen = std::collections::BTreeSet::new();
    seen.insert(base_uid);
    for (i, v) in variants.iter().enumerate() {
        assert!(seen.insert(canonical_uid(v)), "variant {i} collides with an earlier uid");
    }
}

#[test]
fn normalisation_forms_hash_identically() {
    assert_eq!(canonical_uid(&claim("cafe\u{301}")), canonical_uid(&claim("caf\u{e9}")));
}

#[test]
fn verify_accepts_a_matching_uid_and_rejects_a_mismatch() {
    let c = claim("p95 tripled");
    let uid = canonical_uid(&c);
    assert!(verify(&c, &uid).is_ok());

    let e = verify(&claim("something else"), &uid).unwrap_err();
    assert_eq!(e.code(), Code::E070);
    match e {
        IntegrityError::HashMismatch { stored, .. } => assert_eq!(stored, uid),
        other => panic!("unexpected {other:?}"),
    }
}

#[test]
fn the_canonical_uid_of_a_fixed_core_is_pinned() {
    let c = claim("p95 auth latency tripled");
    assert_eq!(
        canonical_uid(&c),
        Uid::from_bytes(hash_bytes(&unit_core_bytes(&c))),
        "the uid must be exactly BLAKE3 over the canonical payload bytes"
    );
    let bytes = unit_core_bytes(&c);
    assert_eq!(bytes[0], 0xA3);
    assert_eq!(&bytes[1..8], &[0x00, 0x65, b'c', b'l', b'a', b'i', b'm']);
    assert_eq!(&bytes[bytes.len() - 2..], &[0x06, 0x01]);
}

#[test]
fn hash_bytes_matches_blake3() {
    assert_eq!(hash_bytes(b""), *blake3::hash(b"").as_bytes());
    assert_eq!(hash_bytes(b"abc"), *blake3::hash(b"abc").as_bytes());
    assert_ne!(hash_bytes(b"abc")[..3], *b"abc");
}
