use smysl::types::epistemics::{Date, Lod, SourceKind, SourceRef, Status};

#[test]
fn status_discriminants_are_the_rule_m_order() {
    assert_eq!(Status::Unfounded.as_u8(), 0);
    assert_eq!(Status::Speculative.as_u8(), 1);
    assert_eq!(Status::Inferred.as_u8(), 2);
    assert_eq!(Status::Derived.as_u8(), 3);
    assert_eq!(Status::Cited.as_u8(), 4);
    assert_eq!(Status::Measured.as_u8(), 5);
    assert!(Status::Speculative < Status::Inferred);
    assert!(Status::Derived < Status::Measured);
}

#[test]
fn status_round_trips_through_u8_and_text() {
    for &s in Status::ALL.iter() {
        assert_eq!(Status::from_u8(s.as_u8()), Some(s));
        assert_eq!(Status::parse(s.as_str()), Some(s));
    }
    assert_eq!(Status::from_u8(6), None);
    assert_eq!(Status::parse("certain"), None);
}

#[test]
fn only_measured_and_cited_require_a_source() {
    let need: Vec<&str> =
        Status::ALL.iter().filter(|s| s.requires_source()).map(|s| s.as_str()).collect();
    assert_eq!(need, ["cited", "measured"]);
}

#[test]
fn only_derived_and_inferred_require_grounds_and_bind_rule_m() {
    let need: Vec<&str> =
        Status::ALL.iter().filter(|s| s.requires_grounds()).map(|s| s.as_str()).collect();
    assert_eq!(need, ["inferred", "derived"]);
    for &s in Status::ALL.iter() {
        assert_eq!(s.is_rule_m_constrained(), s.requires_grounds());
    }
}

#[test]
fn externally_grounded_statuses_are_exempt_from_rule_m() {
    assert!(!Status::Measured.is_rule_m_constrained());
    assert!(!Status::Cited.is_rule_m_constrained());
}

#[test]
fn lod_round_trips() {
    for &l in Lod::ALL.iter() {
        assert_eq!(Lod::from_u8(l.as_u8()), Some(l));
        assert_eq!(Lod::parse(l.as_str()), Some(l));
    }
    assert_eq!(Lod::from_u8(3), None);
}

#[test]
fn source_kinds_round_trip() {
    assert_eq!(SourceKind::ALL.len(), 5);
    for &k in SourceKind::ALL.iter() {
        assert_eq!(SourceKind::from_u8(k.as_u8()), Some(k));
        assert_eq!(SourceKind::parse(k.as_str()), Some(k));
    }
    assert_eq!(SourceKind::from_u8(5), None);
}

#[test]
fn dates_validate_the_calendar() {
    assert!(Date::new(2026, 7, 9).is_ok());
    assert!(Date::new(2024, 2, 29).is_ok(), "2024 is a leap year");
    assert!(Date::new(2026, 2, 29).is_err());
    assert!(Date::new(1900, 2, 29).is_err(), "1900 is not a leap year");
    assert!(Date::new(2000, 2, 29).is_ok(), "2000 is a leap year");
    assert!(Date::new(2026, 13, 1).is_err());
    assert!(Date::new(2026, 0, 1).is_err());
    assert!(Date::new(2026, 4, 31).is_err());
    assert!(Date::new(0, 1, 1).is_err());
}

#[test]
fn dates_round_trip_through_iso_text() {
    let d = Date::new(2026, 7, 9).unwrap();
    assert_eq!(d.render(), "2026-07-09");
    assert_eq!(Date::parse("2026-07-09").unwrap(), d);
}

#[test]
fn malformed_dates_are_rejected() {
    for s in ["", "2026-7-9", "2026/07/09", "20260709", "2026-07-09T00:00:00", "xxxx-xx-xx"] {
        assert!(Date::parse(s).is_err(), "`{s}` must be rejected");
    }
}

#[test]
fn dates_order_chronologically() {
    let a = Date::new(2026, 7, 9).unwrap();
    let b = Date::new(2026, 7, 10).unwrap();
    let c = Date::new(2026, 8, 1).unwrap();
    assert!(a < b && b < c);
}

#[test]
fn source_refs_carry_an_optional_capture_date() {
    let s = SourceRef::new(SourceKind::Metric, "grafana://board/12/panel/4");
    assert!(s.captured.is_none());
    let s = s.captured_on(Date::new(2026, 7, 9).unwrap());
    assert_eq!(s.captured.unwrap().render(), "2026-07-09");
    assert!(s.render().contains("metric:"));
}

#[test]
fn only_urls_demand_a_capture_date() {
    assert!(SourceKind::Url.requires_capture_date());
    for k in [SourceKind::File, SourceKind::Metric, SourceKind::Tool, SourceKind::Doc] {
        assert!(!k.requires_capture_date());
    }
}
