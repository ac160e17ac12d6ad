use smysl::ids::{AgentId, ThreadId, Uid};
use smysl::types::provenance::Hlc;
use smysl::types::thread::{Role, Step, Thread, ThreadSchema};

fn uid(n: u8) -> Uid {
    Uid::from_bytes([n; 32])
}

fn agent(s: &str) -> AgentId {
    AgentId::new(s).unwrap()
}

#[test]
fn five_schemas_round_trip() {
    assert_eq!(ThreadSchema::ALL.len(), 5);
    for &s in ThreadSchema::ALL.iter() {
        assert_eq!(ThreadSchema::from_u8(s.as_u8()), Some(s));
        assert_eq!(ThreadSchema::parse(s.as_str()), Some(s));
    }
    assert_eq!(ThreadSchema::from_u8(5), None);
    assert_eq!(ThreadSchema::parse("essay"), None);
}

#[test]
fn schema_role_sequences_match_section_4() {
    let names = |s: ThreadSchema| -> Vec<&'static str> { s.roles().iter().map(|r| r.as_str()).collect() };
    assert_eq!(
        names(ThreadSchema::Analysis),
        ["context", "tension", "approach", "finding", "rebuttal", "implication", "next"]
    );
    assert_eq!(names(ThreadSchema::Narrative), ["setup", "complication", "turn", "resolution", "coda"]);
    assert_eq!(names(ThreadSchema::Brief), ["bottom-line", "support", "risk", "ask"]);
    assert_eq!(names(ThreadSchema::Qa), ["question", "evidence", "answer", "caveat"]);
    assert_eq!(names(ThreadSchema::Plan), ["goal", "constraint", "step", "decision", "risk"]);
}

#[test]
fn twenty_four_roles_round_trip() {
    assert_eq!(Role::ALL.len(), 24);
    for &r in Role::ALL.iter() {
        assert_eq!(Role::from_u8(r.as_u8()), Some(r));
        assert_eq!(Role::parse(r.as_str()), Some(r));
    }
    assert_eq!(Role::from_u8(24), None);
}

#[test]
fn role_codes_are_positional_and_stable() {
    assert_eq!(Role::Context.as_u8(), 0);
    assert_eq!(Role::Coda.as_u8(), 11);
    assert_eq!(Role::BottomLine.as_u8(), 12);
    assert_eq!(Role::Decision.as_u8(), 23);
    for (i, &r) in Role::ALL.iter().enumerate() {
        assert_eq!(r.as_u8() as usize, i);
    }
}

#[test]
fn roles_shared_between_schemas_are_the_same_role() {
    assert!(ThreadSchema::Brief.allows(Role::Risk));
    assert!(ThreadSchema::Plan.allows(Role::Risk));
    let all: std::collections::BTreeSet<Role> =
        ThreadSchema::ALL.iter().flat_map(|s| s.roles().into_iter()).collect();
    assert_eq!(all.len(), Role::ALL.len(), "every role belongs to a schema");
}

#[test]
fn schemas_reject_roles_they_do_not_declare() {
    assert!(!ThreadSchema::Brief.allows(Role::Coda));
    assert!(!ThreadSchema::Qa.allows(Role::Goal));
}

#[test]
fn threads_key_on_id_and_owner() {
    let a = agent("model:acme/opus-5");
    let b = agent("model:openai/gpt");
    let id = ThreadId::new("t/brief").unwrap();
    let t1 = Thread::new(id.clone(), ThreadSchema::Brief, a.clone(), "g", Hlc::new(1, 0, a.clone()));
    let t2 = Thread::new(id.clone(), ThreadSchema::Brief, b.clone(), "g", Hlc::new(9, 0, b));
    assert_ne!(t1.register_key(), t2.register_key(), "two owners publish two registers, they do not conflict");
    assert!(!t1.superseded_by(&t2), "an HLC never adjudicates across owners");
}

#[test]
fn a_later_write_by_the_same_owner_wins() {
    let a = agent("human:vladimir");
    let id = ThreadId::new("t/brief").unwrap();
    let old = Thread::new(id.clone(), ThreadSchema::Brief, a.clone(), "old", Hlc::new(1, 0, a.clone()));
    let new = Thread::new(id, ThreadSchema::Brief, a.clone(), "new", Hlc::new(2, 0, a));
    assert!(old.superseded_by(&new));
    assert!(!new.superseded_by(&old));
}

#[test]
fn threads_enumerate_their_units_in_step_order() {
    let a = agent("human:v");
    let t = Thread::new(ThreadId::new("t/brief").unwrap(), ThreadSchema::Brief, a.clone(), "g", Hlc::zero(a))
        .with_steps(vec![
            Step::new(Role::BottomLine, uid(5)),
            Step::new(Role::Support, uid(2)).with_note("the pool metrics"),
        ]);
    let order: Vec<u8> = t.units().iter().map(|u| u.as_bytes()[0]).collect();
    assert_eq!(order, [5, 2], "step order is authored, not sorted");
    assert_eq!(t.steps[1].note.as_deref(), Some("the pool metrics"));
}

#[test]
fn foreign_roles_are_reported_not_rejected() {
    let a = agent("human:v");
    let t = Thread::new(ThreadId::new("t/brief").unwrap(), ThreadSchema::Brief, a.clone(), "g", Hlc::zero(a))
        .with_steps(vec![
            Step::new(Role::BottomLine, uid(1)),
            Step::new(Role::Coda, uid(2)),
            Step::new(Role::Coda, uid(3)),
        ]);
    assert_eq!(t.foreign_roles(), [Role::Coda]);
}
