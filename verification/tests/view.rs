use smysl::ids::{KernelType, SchemaId, ThreadId, Uid, ViewId};
use smysl::types::view::{Admission, Fidelity, GranularityProfile, View};

fn uid(n: u8) -> Uid {
    Uid::from_bytes([n; 32])
}

#[test]
fn the_three_presets_match_section_1_6() {
    let c = GranularityProfile::coarse();
    assert_eq!((c.l1_min, c.l1_max), (120, 400));
    assert_eq!(c.admission, Admission::Topical);

    let d = GranularityProfile::standard();
    assert_eq!((d.l1_min, d.l1_max), (40, 120));
    assert_eq!(d.admission, Admission::SingleAssertion);

    let f = GranularityProfile::fine();
    assert_eq!((f.l1_min, f.l1_max), (20, 60));
    assert_eq!(f.admission, Admission::SingleAssertion);

    for p in [&c, &d, &f] {
        assert_eq!(p.l0_max, 30, "the gist bound does not vary by profile");
    }
}

#[test]
fn default_is_the_default_profile() {
    assert_eq!(GranularityProfile::default(), GranularityProfile::standard());
    assert_eq!(GranularityProfile::default().profile, "default");
}

#[test]
fn presets_resolve_by_name() {
    for n in ["coarse", "default", "fine"] {
        assert_eq!(GranularityProfile::preset(n).unwrap().profile, n);
    }
    assert!(GranularityProfile::preset("medium").is_none());
}

#[test]
fn range_checks_are_inclusive() {
    let d = GranularityProfile::standard();
    assert!(!d.body_in_range(39));
    assert!(d.body_in_range(40));
    assert!(d.body_in_range(120));
    assert!(!d.body_in_range(121));
    assert!(d.gist_within_bound(30));
    assert!(!d.gist_within_bound(31));
}

#[test]
fn admission_round_trips() {
    for &a in Admission::ALL.iter() {
        assert_eq!(Admission::from_u8(a.as_u8()), Some(a));
        assert_eq!(Admission::parse(a.as_str()), Some(a));
    }
    assert_eq!(Admission::from_u8(2), None);
}

#[test]
fn a_view_is_a_root_set_not_a_container() {
    let v = View::new(ViewId::new("v/incident").unwrap(), "incident-brief")
        .with_roots(vec![uid(1), uid(2)])
        .with_threads(vec![ThreadId::new("t/brief").unwrap()]);
    assert_eq!(v.roots.len(), 2);
    assert_eq!(v.threads.len(), 1);
    assert_eq!(v.lang.as_str(), "en");
    assert_eq!(v.granularity, GranularityProfile::standard());
}

#[test]
fn merging_views_is_a_union() {
    let a = View::new(ViewId::new("v/a").unwrap(), "a").with_roots(vec![uid(1), uid(2)]);
    let b = View::new(ViewId::new("v/b").unwrap(), "b").with_roots(vec![uid(2), uid(3)]);
    let m = a.union(&b);
    let roots: Vec<u8> = m.roots.iter().map(|u| u.as_bytes()[0]).collect();
    assert_eq!(roots, [1, 2, 3]);
}

#[test]
fn negotiation_is_full_when_requirements_are_implemented() {
    let need = vec![SchemaId::parse("x.sre/incident").unwrap()];
    let v = View::new(ViewId::new("v/x").unwrap(), "i").requiring(need.clone());
    assert_eq!(v.negotiate(&need, true), Fidelity::Full);
}

#[test]
fn an_unimplemented_extension_degrades_rather_than_refusing() {
    let need = vec![SchemaId::parse("x.sre/incident").unwrap()];
    let have = vec![SchemaId::from(KernelType::Claim)];
    let v = View::new(ViewId::new("v/x").unwrap(), "i").requiring(need);
    assert_eq!(v.negotiate(&have, true), Fidelity::Degraded);
}

#[test]
fn a_missing_kernel_major_refuses() {
    let v = View::new(ViewId::new("v/x").unwrap(), "i");
    assert_eq!(v.negotiate(&Vec::new(), false), Fidelity::Refuse);
}

#[test]
fn an_empty_requirement_set_is_always_full_fidelity() {
    let v = View::new(ViewId::new("v/x").unwrap(), "i");
    assert_eq!(v.negotiate(&Vec::new(), true), Fidelity::Full);
}
