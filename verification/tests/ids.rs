use std::str::FromStr;

use smysl::diag::Code;
use smysl::ids::{
    AgentId, AgentKind, ContentionId, KernelType, Label, LangTag, SchemaId, ThreadId, Uid,
    UidPrefix, ViewId,
};

const ALPHABET: &[u8; 32] = b"abcdefghijklmnopqrstuvwxyz234567";

// --- Uid ---------------------------------------------------------------

#[test]
fn short_form_is_prefixed_and_26_chars() {
    let u = Uid::from_bytes([0xAB; 32]);
    let s = u.short();
    assert!(s.starts_with("b3:"));
    assert_eq!(s.len(), 3 + 26);
    assert!(s[3..].bytes().all(|b| ALPHABET.contains(&b)));
}

#[test]
fn canonical_form_is_52_chars() {
    let u = Uid::from_bytes([0x5C; 32]);
    let s = u.canonical();
    assert_eq!(s.len(), 3 + 52);
    assert!(s.starts_with(&u.short()), "short form is a prefix of canonical");
}

#[test]
fn all_zero_and_all_one_encode_at_the_alphabet_extremes() {
    assert_eq!(Uid::from_bytes([0x00; 32]).short(), format!("b3:{}", "a".repeat(26)));
    assert_eq!(Uid::from_bytes([0xFF; 32]).short(), format!("b3:{}", "7".repeat(26)));
}

#[test]
fn distinct_bytes_give_distinct_short_forms() {
    let mut a = [0u8; 32];
    let mut b = [0u8; 32];
    a[0] = 0x01;
    b[0] = 0x02;
    assert_ne!(Uid::from_bytes(a).short(), Uid::from_bytes(b).short());
}

#[test]
fn short_form_covers_exactly_the_first_130_bits() {
    let base = [0u8; 32];
    let mut flipped = base;
    flipped[17] |= 0b0100_0000;
    assert_eq!(Uid::from_bytes(base).short(), Uid::from_bytes(flipped).short());
    assert_ne!(Uid::from_bytes(base).canonical(), Uid::from_bytes(flipped).canonical());

    let mut inside = base;
    inside[16] |= 0b0100_0000;
    assert_ne!(Uid::from_bytes(base).short(), Uid::from_bytes(inside).short());
}

#[test]
fn ordering_is_over_raw_bytes() {
    let a = Uid::from_bytes([0x00; 32]);
    let mut hi = [0u8; 32];
    hi[0] = 0x01;
    assert!(a < Uid::from_bytes(hi));
    assert!(smysl::ids::uid_lt(&a, &Uid::from_bytes(hi)));
}

#[test]
fn round_trips_through_bytes() {
    let b = [0x3A; 32];
    assert_eq!(Uid::from_bytes(b).to_bytes(), b);
    assert_eq!(Uid::from_bytes(b).as_bytes(), &b);
}

#[test]
fn canonical_text_round_trips() {
    for seed in [0x00u8, 0x01, 0x7F, 0x80, 0xFE, 0xFF] {
        let mut b = [seed; 32];
        b[5] = seed.wrapping_mul(3);
        b[31] = seed.wrapping_add(7);
        let u = Uid::from_bytes(b);
        assert_eq!(Uid::parse(&u.canonical()).unwrap(), u);
        assert_eq!(Uid::from_str(&u.canonical()).unwrap(), u);
    }
}

#[test]
fn short_form_is_rejected_as_a_canonical_uid() {
    let u = Uid::from_bytes([0x42; 32]);
    let e = Uid::parse(&u.short()).unwrap_err();
    assert_eq!(e.code(), Code::E071);
}

#[test]
fn malformed_uids_are_rejected() {
    assert!(Uid::parse("").is_err());
    assert!(Uid::parse(&"a".repeat(52)).is_err(), "missing b3: prefix");
    assert!(Uid::parse(&format!("b3:{}", "1".repeat(52))).is_err(), "1 is not in the alphabet");
    assert!(Uid::parse(&format!("b3:{}", "a".repeat(53))).is_err());
}

// --- UidPrefix ---------------------------------------------------------

#[test]
fn a_short_form_prefix_matches_its_own_uid() {
    let u = Uid::from_bytes([0x9C; 32]);
    let p = UidPrefix::parse(&u.short()).unwrap();
    assert_eq!(p.bits(), 130);
    assert!(p.matches(&u));
}

#[test]
fn a_prefix_matches_more_than_one_uid() {
    let a = Uid::from_bytes([0x00; 32]);
    let mut bb = [0u8; 32];
    bb[31] = 0xFF;
    let b = Uid::from_bytes(bb);
    let p = UidPrefix::parse(&a.short()).unwrap();
    assert!(p.matches(&a) && p.matches(&b), "ambiguity must be observable");
}

#[test]
fn a_full_width_prefix_is_exact() {
    let a = Uid::from_bytes([0x11; 32]);
    let mut bb = [0x11u8; 32];
    bb[31] = 0x12;
    let p = UidPrefix::parse(&a.canonical()).unwrap();
    assert!(p.matches(&a));
    assert!(!p.matches(&Uid::from_bytes(bb)));
}

#[test]
fn prefixes_shorter_than_the_display_form_are_rejected() {
    assert!(UidPrefix::parse("b3:abc").is_err());
    assert!(UidPrefix::parse(&format!("b3:{}", "a".repeat(25))).is_err());
    assert!(UidPrefix::parse(&format!("b3:{}", "a".repeat(26))).is_ok());
}

// --- label-shaped ids --------------------------------------------------

#[test]
fn labels_accept_the_documented_shape() {
    for s in ["c/auth-p95", "e/trace-jul", "t/brief", "x1/y_2"] {
        assert_eq!(Label::new(s).unwrap().as_str(), s);
    }
}

#[test]
fn labels_reject_everything_else() {
    for s in ["", "c", "c/", "/x", "C/x", "1/x", "c/x/y", "c x", "c/A"] {
        assert!(Label::new(s).is_err(), "`{s}` must be rejected");
    }
}

#[test]
fn label_namespace_is_the_leading_segment() {
    assert_eq!(Label::new("c/auth-p95").unwrap().namespace(), "c");
    assert_eq!(ThreadId::new("t/brief").unwrap().namespace(), "t");
}

#[test]
fn label_shaped_ids_are_distinct_types() {
    assert!(ThreadId::from_str("t/brief").is_ok());
    assert!(ViewId::from_str("v/incident").is_ok());
    assert!(ContentionId::from_str("k/pool-vs-index").is_ok());
    assert!(ThreadId::from_str("bad").is_err());
}

// --- agent ids ---------------------------------------------------------

#[test]
fn agent_ids_accept_the_documented_pattern() {
    for s in [
        "model:acme/opus-5",
        "human:vladimir",
        "tool:grafana/board.12",
        "model:ollama/llama3.1:8b",
    ] {
        assert_eq!(AgentId::new(s).unwrap().as_str(), s);
    }
}

#[test]
fn agent_ids_reject_unknown_kinds_and_bad_shapes() {
    for s in ["", "agent:x", "model", "model:", ":x", "model:X", "MODEL:x", "model:x/"] {
        assert!(AgentId::new(s).is_err(), "`{s}` must be rejected");
    }
}

#[test]
fn agent_kind_and_provider_are_readable() {
    let a = AgentId::new("model:acme/opus-5").unwrap();
    assert_eq!(a.kind(), AgentKind::Model);
    assert_eq!(a.provider().as_deref(), Some("acme"));

    let h = AgentId::new("human:vladimir").unwrap();
    assert_eq!(h.kind(), AgentKind::Human);
    assert_eq!(h.provider(), None, "corroboration cannot group a human by provider");

    assert_eq!(AgentId::new("tool:jq").unwrap().kind(), AgentKind::Tool);
}

// --- schema ids --------------------------------------------------------

#[test]
fn fifteen_kernel_types_with_stable_names() {
    assert_eq!(KernelType::ALL.len(), 15);
    for &k in KernelType::ALL.iter() {
        assert_eq!(KernelType::parse(k.as_str()), Some(k));
    }
    assert_eq!(KernelType::ArtifactRef.as_str(), "artifact-ref");
    assert_eq!(KernelType::PackInfo.as_str(), "packinfo");
}

#[test]
fn kernel_type_names_are_unique() {
    let mut seen = std::collections::BTreeSet::new();
    for &k in KernelType::ALL.iter() {
        assert!(seen.insert(k.as_str()), "duplicate kernel type {k:?}");
    }
}

#[test]
fn schema_ids_prefer_the_kernel_type() {
    let s = SchemaId::parse("claim").unwrap();
    assert!(s.is_kernel());
    assert_eq!(s.kernel(), Some(KernelType::Claim));
    assert_eq!(s.as_str(), "claim");
}

#[test]
fn extension_schema_ids_take_the_x_form() {
    let s = SchemaId::parse("x.sre/incident").unwrap();
    assert!(!s.is_kernel());
    assert_eq!(s.kernel(), None);
    assert_eq!(s.as_str(), "x.sre/incident");
}

#[test]
fn extension_schema_ids_accept_a_version_after_the_slash() {
    for s in ["x.sre/1", "x.sre/1.2", "x.finance/v2"] {
        assert_eq!(SchemaId::parse(s).unwrap().as_str(), s);
    }
    assert!(SchemaId::parse("x.1sre/t").is_err(), "the domain still needs a letter");
}

#[test]
fn unqualified_unknown_types_are_rejected() {
    for s in ["nonsense", "x.sre", "x./t", "x.sre/", "sre/incident", ""] {
        assert!(SchemaId::parse(s).is_err(), "`{s}` must be rejected");
    }
}

#[test]
fn the_kernel_schema_is_a_schema_id_but_not_a_unit_type() {
    let s = SchemaId::parse("smysl.kernel/0.1").unwrap();
    assert!(s.is_kernel_schema());
    assert!(!s.is_kernel(), "the kernel schema is not a unit type");
    assert_eq!(s.kernel(), None);
    assert_eq!(s.kernel_major(), Some(0));
    assert_eq!(s.as_str(), "smysl.kernel/0.1");

    assert_eq!(SchemaId::parse("smysl.kernel/9").unwrap().kernel_major(), Some(9));
    assert!(SchemaId::parse("smysl.kernel/").is_err());
    assert_eq!(SchemaId::parse("claim").unwrap().kernel_major(), None);
}

#[test]
fn kernel_types_convert_into_schema_ids() {
    assert_eq!(SchemaId::from(KernelType::Finding).as_str(), "finding");
}

// --- language tags -----------------------------------------------------

#[test]
fn language_tags_accept_bcp47_shapes() {
    for s in ["en", "en-GB", "zh-Hans-CN", "ru"] {
        assert_eq!(LangTag::new(s).unwrap().as_str(), s);
    }
    assert_eq!(LangTag::default().as_str(), "en");
}

#[test]
fn language_tags_reject_empty_segments() {
    for s in ["", "-", "en-", "-en", "en--GB", "en_GB"] {
        assert!(LangTag::new(s).is_err(), "`{s}` must be rejected");
    }
}
