use smysl::cbor::writer::{Enc, MapBuilder};
use smysl::ids::Uid;
use smysl::types::Extra;

fn hex(b: &[u8]) -> String {
    b.iter().map(|x| format!("{x:02x}")).collect()
}

fn enc(f: impl FnOnce(&mut Enc)) -> Vec<u8> {
    let mut e = Enc::new();
    f(&mut e);
    e.into_bytes()
}

#[test]
fn integers_use_the_shortest_head() {
    let cases: &[(u64, &str)] = &[
        (0, "00"),
        (23, "17"),
        (24, "1818"),
        (255, "18ff"),
        (256, "190100"),
        (65535, "19ffff"),
        (65536, "1a00010000"),
        (0xFFFF_FFFF, "1affffffff"),
        (0x1_0000_0000, "1b0000000100000000"),
    ];
    for (v, want) in cases {
        let mut e = Enc::new();
        e.uint(*v);
        assert_eq!(hex(e.as_bytes()), *want, "uint({v})");
    }
}

#[test]
fn text_and_bytes_carry_a_length_head() {
    let mut e = Enc::new();
    e.text("claim");
    assert_eq!(hex(e.as_bytes()), "65636c61696d");

    let mut e = Enc::new();
    e.bytes(&[0x11, 0x22]);
    assert_eq!(hex(e.as_bytes()), "421122");
}

#[test]
fn maps_are_emitted_in_ascending_key_order() {
    let mut m = MapBuilder::new();
    m.put(6, enc(|e| e.uint(1)));
    m.put(0, enc(|e| e.text("claim")));
    m.put(1, enc(|e| e.text("g")));
    let bytes = m.into_bytes();
    assert_eq!(hex(&bytes), "a30065636c61696d016167 0601".replace(' ', ""));
}

#[test]
fn absent_optionals_are_omitted_not_nulled() {
    let mut m = MapBuilder::new();
    m.put(0, enc(|e| e.text("claim")));
    m.put_opt(2, None);
    let bytes = m.into_bytes();
    assert_eq!(bytes[0], 0xA1, "one entry, not two");
    assert!(!bytes.contains(&0xF6), "no null anywhere");
}

#[test]
fn present_optionals_are_written() {
    let body = "a body".to_string();
    let mut m = MapBuilder::new();
    m.put_opt(2, Some(enc(|e| e.text(&body))));
    let bytes = m.into_bytes();
    assert_eq!(bytes[0], 0xA1);
}

#[test]
fn empty_sets_are_omitted() {
    let empty: Vec<Uid> = Vec::new();
    let mut m = MapBuilder::new();
    m.put(0, enc(|e| e.uint(0)));
    m.put_uid_set(4, &empty);
    assert_eq!(m.into_bytes()[0], 0xA1);
}

#[test]
fn uid_sets_encode_in_byte_order() {
    let set = smysl::ids::uid_set_from(&vec![
        Uid::from_bytes([3; 32]),
        Uid::from_bytes([1; 32]),
        Uid::from_bytes([2; 32]),
    ]);
    let mut e = Enc::new();
    e.uid_set(&set);
    let b = e.into_bytes();
    assert_eq!(b[0], 0x83, "array of three");
    assert_eq!(b[1], 0x58);
    assert_eq!(b[3], 1);
    assert_eq!(b[3 + 34], 2);
    assert_eq!(b[3 + 68], 3);
}

#[test]
fn extra_keys_are_re_emitted_verbatim() {
    let mut extra = Extra::new();
    extra.insert(42, vec![0x01]);
    let mut m = MapBuilder::new();
    m.put(0, enc(|e| e.uint(0)));
    m.put_extra(&extra);
    let bytes = m.into_bytes();
    assert_eq!(bytes[0], 0xA2);
    assert_eq!(&bytes[bytes.len() - 3..], &[0x18, 42, 0x01]);
}

#[test]
fn encoding_is_byte_stable_across_repeated_runs() {
    let build = || {
        let mut m = MapBuilder::new();
        m.put(1, enc(|e| e.text("a gist")));
        m.put(6, enc(|e| e.uint(1)));
        m.put(0, enc(|e| e.text("claim")));
        m.into_bytes()
    };
    assert_eq!(build(), build());
}

#[test]
fn a_map_of_prebuilt_entries_sorts_its_keys() {
    let mut e = Enc::new();
    e.map(vec![(6, enc(|e| e.uint(1))), (0, enc(|e| e.text("claim")))]);
    assert_eq!(hex(e.as_bytes()), "a20065636c61696d0601");
}
