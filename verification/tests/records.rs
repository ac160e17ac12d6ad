use smysl::cbor::decode::{dec_attestation, dec_hlc, dec_thread};
use smysl::cbor::envelope::{attestation_bytes, hlc_bytes, thread_bytes};
use smysl::cbor::reader::Dec;
use smysl::error::CodecError;
use smysl::ids::{AgentId, ThreadId, Uid};
use smysl::types::provenance::{Attestation, Hlc, Op, Rung};
use smysl::types::thread::{Role, Step, Thread, ThreadSchema};

fn agent(s: &str) -> AgentId {
    AgentId::new(s).unwrap()
}

#[test]
fn a_clock_reads_back() {
    let h = Hlc::new(1_700_000_000_000, 7, agent("human:v"));
    let b = hlc_bytes(&h);
    assert_eq!(b[0], 0x83);
    let mut d = Dec::new(&b);
    assert_eq!(dec_hlc(&mut d).unwrap(), h);
    assert!(d.is_done());
}

#[test]
fn an_attestation_reads_back_from_its_bytes() {
    let a = Attestation::new(
        Uid::from_bytes([4; 32]),
        agent("model:acme/opus-5"),
        Op::Transformed,
        Rung::Model,
        Hlc::new(5, 1, agent("model:acme/opus-5")),
    )
    .at_hop(2)
    .with_parents(vec![Uid::from_bytes([9; 32]), Uid::from_bytes([8; 32])])
    .with_recipe([1; 32], [2; 32]);
    let b = attestation_bytes(&a);
    let mut d = Dec::new(&b);
    let back = dec_attestation(&mut d).unwrap();
    assert_eq!(back, a);
    assert!(d.is_done());
    assert_eq!(attestation_bytes(&back), b);
}

#[test]
fn an_attestation_without_a_rung_is_malformed() {
    let a = Attestation::new(Uid::from_bytes([4; 32]), agent("human:v"), Op::Authored, Rung::Document, Hlc::zero(agent("human:v")));
    let b = attestation_bytes(&a);
    // Drop the last entry, the rung, and fix the map's count.
    let cut = &b[..b.len() - 2];
    let mut fixed = cut.to_vec();
    fixed[0] -= 1;
    assert!(matches!(dec_attestation(&mut Dec::new(&fixed)).unwrap_err(), CodecError::MalformedEnvelope { at: 0 }));
}

#[test]
fn a_thread_reads_back_with_its_steps_in_order() {
    let owner = agent("human:vladimir");
    let t = Thread::new(ThreadId::new("t/brief").unwrap(), ThreadSchema::Brief, owner.clone(), "the brief", Hlc::new(3, 0, owner))
        .with_steps(vec![
            Step::new(Role::BottomLine, Uid::from_bytes([5; 32])),
            Step::new(Role::Support, Uid::from_bytes([2; 32])).with_note("the pool metrics"),
        ]);
    let b = thread_bytes(&t);
    let mut d = Dec::new(&b);
    let back = dec_thread(&mut d).unwrap();
    assert_eq!(back.steps, t.steps);
    assert_eq!(back.gist, "the brief");
    assert_eq!(back.id, t.id);
    assert_eq!(thread_bytes(&back), b);
    assert!(d.is_done());
}

#[test]
fn a_step_of_the_wrong_width_is_malformed() {
    let owner = agent("human:v");
    let t = Thread::new(ThreadId::new("t/x").unwrap(), ThreadSchema::Qa, owner.clone(), "g", Hlc::zero(owner))
        .with_steps(vec![Step::new(Role::Question, Uid::from_bytes([5; 32]))]);
    let mut b = thread_bytes(&t);
    let pos = b.windows(2).position(|w| w == [0x82, Role::Question.as_u8()]).unwrap();
    b[pos] = 0x84;
    assert!(matches!(dec_thread(&mut Dec::new(&b)).unwrap_err(), CodecError::MalformedEnvelope { .. }));
}
