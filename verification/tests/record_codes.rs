use smysl::types::record::code;

#[test]
fn type_codes_match_appendix_b() {
    assert_eq!(code::UNIT_CORE, 1);
    assert_eq!(code::ATTESTATION, 2);
    assert_eq!(code::RELATION, 3);
    assert_eq!(code::THREAD, 4);
    assert_eq!(code::VIEW, 5);
    assert_eq!(code::CONTENTION, 6);
    assert_eq!(code::PACK_INFO, 7);
    assert_eq!(code::SCHEMA_DECL, 8);
    assert_eq!(code::CHECKPOINT, 9);
}

#[test]
fn checkpoint_is_reserved_not_known() {
    assert!(!code::KNOWN.contains(&code::CHECKPOINT));
}

/// Ascending, and with a hole: codes 1-8, 9 reserved, 10 the label binding.
#[test]
fn known_codes_ascend_and_skip_the_reserved_slot() {
    assert_eq!(code::KNOWN, [1, 2, 3, 4, 5, 6, 7, 8, 10]);
    assert!(code::KNOWN.windows(2).all(|w| w[0] < w[1]));
}
