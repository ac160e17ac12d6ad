use smysl::cbor::keys::{
    attestation, contention, granularity, packinfo, relation, schema_decl, source, thread, unit, view,
};

#[test]
fn key_tables_are_contiguous_from_zero() {
    let tables: &[(&str, u16, &[u16])] = &[
        (
            "unit",
            unit::HIGHEST,
            &[
                unit::SCHEMA, unit::GIST, unit::BODY, unit::DETAIL, unit::DEPS, unit::GROUNDS,
                unit::STATUS, unit::SOURCE, unit::PAYLOAD,
            ],
        ),
        (
            "attestation",
            attestation::HIGHEST,
            &[
                attestation::UID, attestation::AGENT, attestation::HOP, attestation::PARENTS,
                attestation::TS, attestation::OP, attestation::RECIPE, attestation::SIG,
                attestation::RUNG, attestation::FAMILY,
            ],
        ),
        ("relation", relation::HIGHEST, &[relation::KIND, relation::FROM, relation::TO, relation::WEIGHT, relation::NOTE]),
        (
            "thread",
            thread::HIGHEST,
            &[thread::ID, thread::SCHEMA, thread::OWNER, thread::GIST, thread::STEPS, thread::TS],
        ),
        (
            "view",
            view::HIGHEST,
            &[view::ID, view::ROOTS, view::THREADS, view::REQUIRES, view::GRANULARITY, view::INTENT, view::LANG],
        ),
        (
            "contention",
            contention::HIGHEST,
            &[contention::ID, contention::OVER, contention::POSITIONS, contention::DETECTED, contention::STATUS],
        ),
        (
            "packinfo",
            packinfo::HIGHEST,
            &[
                packinfo::BUDGET, packinfo::USED, packinfo::THREAD, packinfo::DROPPED, packinfo::DEGRADED,
                packinfo::OPTIMALITY, packinfo::ESTIMATOR,
            ],
        ),
        (
            "schema_decl",
            schema_decl::HIGHEST,
            &[schema_decl::ID, schema_decl::VERSION, schema_decl::TYPES, schema_decl::RELATIONS, schema_decl::PAYLOAD_SHAPE],
        ),
        ("source", source::HIGHEST, &[source::KIND, source::REFERENCE, source::CAPTURED]),
        (
            "granularity",
            granularity::HIGHEST,
            &[granularity::PROFILE, granularity::L0_MAX, granularity::L1_MIN, granularity::L1_MAX, granularity::ADMISSION],
        ),
    ];

    for (name, highest, keys) in tables {
        let expected: Vec<u16> = (0..keys.len() as u16).collect();
        assert_eq!(*keys, expected.as_slice(), "{name} keys are not 0..n");
        assert_eq!(*highest, keys.len() as u16 - 1, "{name}::HIGHEST disagrees with the table");
    }
}

#[test]
fn unit_keys_are_pinned_to_appendix_b() {
    assert_eq!(unit::SCHEMA, 0);
    assert_eq!(unit::GIST, 1);
    assert_eq!(unit::BODY, 2);
    assert_eq!(unit::DETAIL, 3);
    assert_eq!(unit::DEPS, 4);
    assert_eq!(unit::GROUNDS, 5);
    assert_eq!(unit::STATUS, 6);
    assert_eq!(unit::SOURCE, 7);
    assert_eq!(unit::PAYLOAD, 8);
}

#[test]
fn attestation_keys_keep_their_appendix_b_numbering() {
    assert_eq!(attestation::OP, 5);
    assert_eq!(attestation::RECIPE, 6);
    assert_eq!(attestation::SIG, 7);
    assert_eq!(attestation::RUNG, 8);
    assert_eq!(attestation::FAMILY, 9);
}
