use std::collections::BTreeSet;

use smysl::ids::{AgentId, Uid};
use smysl::types::epistemics::Status;
use smysl::types::provenance::{Attestation, Hlc, Op, Rung};

fn agent(s: &str) -> AgentId {
    AgentId::new(s).unwrap()
}

#[test]
fn advancing_past_the_previous_wall_resets_the_counter() {
    let a = agent("model:ollama/llama3.1");
    let prev = Hlc::new(1000, 7, a.clone());
    let next = Hlc::advance(&prev, &a, 2000);
    assert_eq!((next.wall_ms, next.counter), (2000, 0));
}

#[test]
fn a_stalled_clock_increments_the_counter() {
    let a = agent("model:ollama/llama3.1");
    let prev = Hlc::new(1000, 7, a.clone());
    for (wall, expect) in [(1000u64, 8u32), (999, 8), (0, 8)] {
        let next = Hlc::advance(&prev, &a, wall);
        assert_eq!(
            (next.wall_ms, next.counter),
            (1000, expect),
            "a clock that goes backwards must not go backwards"
        );
    }
}

#[test]
fn advance_is_strictly_increasing() {
    let a = agent("human:vladimir");
    let mut h = Hlc::zero(a.clone());
    let mut prev = h.clone();
    for wall in [0u64, 0, 0, 5, 5, 9] {
        h = Hlc::advance(&h, &a, wall);
        assert!(h > prev, "{h:?} must follow {prev:?}");
        assert!(prev.lt(&h));
        prev = h.clone();
    }
}

#[test]
fn observe_takes_the_maximum_of_both_clocks() {
    let a = agent("human:a");
    let local = Hlc::new(100, 3, a.clone());
    let remote = Hlc::new(200, 1, agent("human:b"));
    let merged = Hlc::observe(&local, &remote, &a, 50);
    assert_eq!(merged.wall_ms, 200);
    assert_eq!(merged.counter, 2);
    assert_eq!(merged.agent, a);
}

#[test]
fn observe_breaks_ties_by_taking_the_larger_counter() {
    let a = agent("human:a");
    let local = Hlc::new(100, 3, a.clone());
    let remote = Hlc::new(100, 9, agent("human:b"));
    let merged = Hlc::observe(&local, &remote, &a, 100);
    assert_eq!((merged.wall_ms, merged.counter), (100, 10));
}

#[test]
fn hlc_orders_by_wall_then_counter_then_agent() {
    let a = agent("human:a");
    let b = agent("human:b");
    assert!(Hlc::new(1, 0, a.clone()) < Hlc::new(2, 0, a.clone()));
    assert!(Hlc::new(1, 0, a.clone()) < Hlc::new(1, 1, a.clone()));
    assert!(Hlc::new(1, 0, a.clone()) < Hlc::new(1, 0, b.clone()));
    assert!(Hlc::new(1, 0, a.clone()).lt(&Hlc::new(1, 0, b.clone())));
    assert!(!Hlc::new(1, 0, b).lt(&Hlc::new(1, 0, a)));
}

#[test]
fn now_reads_the_clock_only_once_and_still_advances() {
    let a = agent("human:vladimir");
    let prev = Hlc::new(u64::MAX, 0, a.clone());
    let next = Hlc::now(&prev, &a);
    assert_eq!(next.wall_ms, u64::MAX);
    assert_eq!(next.counter, 1);
}

#[test]
fn op_round_trips() {
    assert_eq!(Op::ALL.len(), 4);
    for &o in Op::ALL.iter() {
        assert_eq!(Op::from_u8(o.as_u8()), Some(o));
        assert_eq!(Op::parse(o.as_str()), Some(o));
    }
    assert_eq!(Op::from_u8(4), None);
}

#[test]
fn only_imported_may_assign_measured() {
    let allowed: Vec<&str> =
        Op::ALL.iter().filter(|o| o.may_assign_measured()).map(|o| o.as_str()).collect();
    assert_eq!(allowed, ["imported"]);
}

#[test]
fn rung_round_trips() {
    assert_eq!(Rung::ALL.len(), 4);
    for &r in Rung::ALL.iter() {
        assert_eq!(Rung::from_u8(r.as_u8()), Some(r));
        assert_eq!(Rung::parse(r.as_str()), Some(r));
    }
    assert_eq!(Rung::from_u8(4), None);
}

#[test]
fn trust_ceilings_match_the_rule_t_table() {
    assert_eq!(Rung::Computed.ceiling(), Status::Derived);
    assert_eq!(Rung::Document.ceiling(), Status::Cited);
    assert_eq!(Rung::Web.ceiling(), Status::Cited);
    assert_eq!(Rung::Model.ceiling(), Status::Inferred);
}

#[test]
fn no_rung_reaches_measured() {
    for &r in Rung::ALL.iter() {
        assert!(
            r.ceiling() < Status::Measured,
            "{r:?} must not be able to assign measured - only an instrument may"
        );
    }
}

#[test]
fn document_and_web_ceilings_demand_a_source() {
    assert!(Rung::Document.ceiling_requires_source());
    assert!(Rung::Web.ceiling_requires_source());
    assert!(!Rung::Model.ceiling_requires_source());
    assert!(!Rung::Computed.ceiling_requires_source());
}

#[test]
fn attestations_default_to_hop_zero_with_no_parents() {
    let a = Attestation::new(
        Uid::from_bytes([1; 32]),
        agent("human:vladimir"),
        Op::Authored,
        Rung::Document,
        Hlc::zero(agent("human:vladimir")),
    );
    assert_eq!(a.hop, 0);
    assert!(a.parents.is_empty());
    assert!(a.recipe.is_none() && a.family.is_none() && a.sig.is_none());
    assert_eq!(a.ceiling(), Status::Cited);
}

#[test]
fn recipe_and_family_are_set_together() {
    let a = Attestation::new(
        Uid::from_bytes([1; 32]),
        agent("model:acme/opus-5"),
        Op::Transformed,
        Rung::Model,
        Hlc::zero(agent("model:acme/opus-5")),
    )
    .at_hop(3)
    .with_recipe([9; 32], [8; 32]);
    assert_eq!(a.hop, 3);
    assert_eq!(a.recipe, Some([9; 32]));
    assert_eq!(a.family, Some([8; 32]));
}

#[test]
fn corroboration_groups_collapse_same_agent_same_recipe() {
    let mk = |ag: &str, r: Option<[u8; 32]>| {
        let mut a = Attestation::new(
            Uid::from_bytes([1; 32]),
            agent(ag),
            Op::Authored,
            Rung::Model,
            Hlc::zero(agent(ag)),
        );
        a.recipe = r;
        a
    };
    let a = mk("model:acme/opus-5", Some([1; 32]));
    let b = mk("model:acme/opus-5", Some([1; 32]));
    let c = mk("model:acme/opus-5", Some([2; 32]));
    let d = mk("model:openai/gpt", Some([1; 32]));
    assert_eq!(a.corroboration_key(), b.corroboration_key());
    assert_ne!(a.corroboration_key(), c.corroboration_key());
    assert_ne!(a.corroboration_key(), d.corroboration_key());
}

#[test]
fn attestations_sort_deterministically_in_a_set() {
    let ag = agent("human:v");
    let mut set = BTreeSet::new();
    for i in [3u8, 1, 2] {
        set.insert(Attestation::new(
            Uid::from_bytes([i; 32]),
            ag.clone(),
            Op::Authored,
            Rung::Document,
            Hlc::zero(ag.clone()),
        ));
    }
    let order: Vec<u8> = set.iter().map(|a| a.uid.as_bytes()[0]).collect();
    assert_eq!(order, [1, 2, 3]);
}

#[test]
fn parents_are_kept_as_a_canonical_set() {
    let ag = agent("human:v");
    let a = Attestation::new(Uid::from_bytes([1; 32]), ag.clone(), Op::Imported, Rung::Computed, Hlc::zero(ag))
        .with_parents(vec![Uid::from_bytes([3; 32]), Uid::from_bytes([2; 32]), Uid::from_bytes([3; 32])]);
    assert_eq!(a.parents, vec![Uid::from_bytes([2; 32]), Uid::from_bytes([3; 32])]);
}
