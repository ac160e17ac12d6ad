use smysl::ids::{ContentionId, Uid};
use smysl::types::annex::DetectionKind;
use smysl::types::lifecycle::Commitment;

fn uid(n: u8) -> Uid {
    Uid::from_bytes([n; 32])
}

#[test]
fn a_contention_id_ignores_position_order_and_duplicates() {
    let a = ContentionId::derive(DetectionKind::LiveRebuttal, &uid(1), &vec![uid(2), uid(1)]);
    let b = ContentionId::derive(DetectionKind::LiveRebuttal, &uid(1), &vec![uid(1), uid(2), uid(2)]);
    assert_eq!(a, b);
    assert!(a.as_str().starts_with("k/c"));
    assert_eq!(a.as_str().len(), 3 + 26);
}

#[test]
fn a_contention_id_depends_on_kind_over_and_positions() {
    let base = ContentionId::derive(DetectionKind::LiveRebuttal, &uid(1), &vec![uid(2)]);
    assert_ne!(base, ContentionId::derive(DetectionKind::SupersessionFork, &uid(1), &vec![uid(2)]));
    assert_ne!(base, ContentionId::derive(DetectionKind::LiveRebuttal, &uid(3), &vec![uid(2)]));
    assert_ne!(base, ContentionId::derive(DetectionKind::LiveRebuttal, &uid(1), &vec![uid(3)]));
}

#[test]
fn commitments_round_trip_and_order_by_how_settled() {
    assert_eq!(Commitment::ALL.len(), 5);
    for &c in Commitment::ALL.iter() {
        assert_eq!(Commitment::from_u8(c.as_u8()), Some(c));
        assert_eq!(Commitment::parse(c.as_str()), Some(c));
    }
    assert_eq!(Commitment::from_u8(5), None);
    assert!(Commitment::Floated < Commitment::Canonical);
    assert_eq!(Commitment::Retconned.as_str(), "retconned");
}
