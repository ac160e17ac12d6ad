use smysl::cbor::major;
use smysl::cbor::writer::Enc;
use smysl::error::{CodecError, NonDetReason};
use smysl::diag::Span;
use smysl::surface::hjson::{parse_object, HObject, HValue, Spanned};
use smysl::surface::payload::{object_to_payload, payload_to_object};

fn obj(src: &str) -> HObject {
    parse_object(src, 0).unwrap().value
}

fn no_floats() -> Vec<(String, u32)> {
    Vec::new()
}

fn round_trip(src: &str) -> HObject {
    let o = obj(src);
    payload_to_object(&object_to_payload(&o, &no_floats()).unwrap()).unwrap()
}

fn text_of(v: &HValue) -> Option<&str> {
    v.as_str()
}

#[test]
fn an_empty_object_carries_no_payload() {
    assert!(object_to_payload(&obj("{}"), &no_floats()).is_none());
}

#[test]
fn scalars_round_trip() {
    let o = round_trip(r#"{ s: hello, i: 42, neg: -7, t: true, f: false, n: null }"#);
    assert_eq!(text_of(&o.get("s").unwrap().value), Some("hello"));
    assert_eq!(o.get("i").unwrap().value.as_int(), Some(42));
    assert_eq!(o.get("neg").unwrap().value.as_int(), Some(-7));
    assert_eq!(o.get("t").unwrap().value.as_bool(), Some(true));
    assert_eq!(o.get("f").unwrap().value.as_bool(), Some(false));
    assert_eq!(o.get("n").unwrap().value, HValue::Null);
}

#[test]
fn arrays_and_nested_objects_round_trip() {
    let o = round_trip("{ a: [1, 2, 3], nested: { x: y, deep: [{ k: v }] } }");
    assert_eq!(o.get("a").unwrap().value.as_array().unwrap().len(), 3);
    let n = o.get("nested").unwrap().value.as_object().unwrap();
    assert_eq!(text_of(&n.get("x").unwrap().value), Some("y"));
    assert_eq!(n.get("deep").unwrap().value.as_array().unwrap().len(), 1);
}

#[test]
fn keys_are_emitted_in_encoded_byte_order() {
    let bytes = object_to_payload(&obj("{ zz: 1, a: 2, mmm: 3 }"), &no_floats()).unwrap();
    let o = payload_to_object(&bytes).unwrap();
    assert_eq!(o.keys(), ["a", "zz", "mmm"]);
}

#[test]
fn authored_order_does_not_change_the_encoding() {
    let a = object_to_payload(&obj("{ x: 1, y: 2 }"), &no_floats()).unwrap();
    let b = object_to_payload(&obj("{ y: 2, x: 1 }"), &no_floats()).unwrap();
    assert_eq!(a, b);
}

#[test]
fn duplicate_keys_collapse_to_one_entry() {
    let bytes = object_to_payload(&obj("{ x: 1, x: 2 }"), &no_floats()).unwrap();
    let o = payload_to_object(&bytes).unwrap();
    assert_eq!(o.len(), 1);
    assert_eq!(o.get("x").unwrap().value.as_int(), Some(1));
}

#[test]
fn floats_are_quantised_on_the_way_in() {
    let bits = ((0.6f32 * 1024.0).round() / 1024.0).to_bits();
    let floats = vec![("0.6".to_string(), bits)];
    let o = obj("{ f: 0.6 }");
    let back = payload_to_object(&object_to_payload(&o, &floats).unwrap()).unwrap();
    match &back.get("f").unwrap().value {
        HValue::Float(t) => {
            assert_eq!(t, "0.599609375");
            assert_eq!(t.parse::<f64>().unwrap(), 614.0 / 1024.0);
        }
        other => panic!("{other:?}"),
    }
}

#[test]
fn a_float_without_bits_has_no_payload() {
    assert!(object_to_payload(&obj("{ f: 0.6 }"), &no_floats()).is_none());
}

#[test]
fn float_texts_are_exact() {
    for (v, text) in [(2.0f32, "2.0"), (-0.5, "-0.5"), (0.0, "0.0"), (1.0 / 1024.0, "0.0009765625"), (1e9, "1000000000.0")] {
        let floats = vec![("x".to_string(), v.to_bits())];
        let mut o2 = HObject::new();
        o2.insert(
            Spanned::new("f".to_string(), Span::new(0, 0)),
            Spanned::new(HValue::Float("x".to_string()), Span::new(0, 0)),
        );
        let back = payload_to_object(&object_to_payload(&o2, &floats).unwrap()).unwrap();
        assert_eq!(back.get("f").unwrap().value, HValue::Float(text.to_string()), "{v}");
    }
}

#[test]
fn an_unsorted_payload_map_is_rejected() {
    let mut e = Enc::new();
    e.head(major::MAP, 2);
    e.text("zz");
    e.uint(1);
    e.text("a");
    e.uint(2);
    let bytes = e.into_bytes();
    assert_eq!(
        payload_to_object(&bytes).unwrap_err(),
        CodecError::NonDeterministic { at: 0, reason: NonDetReason::UnsortedMapKeys }
    );
}

#[test]
fn a_non_map_payload_is_rejected() {
    assert!(payload_to_object(&[0x01]).is_err());
    assert!(payload_to_object(&[]).is_err());
}

#[test]
fn a_byte_string_value_is_malformed() {
    // { "a": h'00' }
    let bytes = [0xA1, 0x61, b'a', 0x41, 0x00];
    assert_eq!(payload_to_object(&bytes).unwrap_err(), CodecError::MalformedEnvelope { at: 3 });
}

#[test]
fn multibyte_text_survives() {
    let o = round_trip("{ s: \"caf\u{e9} \u{4f60}\u{597d}\" }");
    assert_eq!(text_of(&o.get("s").unwrap().value), Some("caf\u{e9} \u{4f60}\u{597d}"));
}

#[test]
fn negative_integers_round_trip_at_the_boundary() {
    for v in [-1i64, -24, -25, -256, -65_537, i32::MIN as i64] {
        let o = round_trip(&format!("{{ n: {v} }}"));
        assert_eq!(o.get("n").unwrap().value.as_int(), Some(v), "{v}");
    }
}

#[test]
fn a_payload_encodes_to_the_expected_bytes() {
    let bytes = object_to_payload(&obj("{ b: true, a: -1 }"), &no_floats()).unwrap();
    assert_eq!(bytes, vec![0xA2, 0x61, b'a', 0x20, 0x61, b'b', 0xF5]);
}

#[test]
fn a_payload_that_reads_back_is_re_emitted_byte_for_byte() {
    // { "n": -300, "f": 0.5, "arr": [true, null, "x"], "obj": { "k": 1 } } in key order
    let mut e = Enc::new();
    e.head(major::MAP, 4);
    e.text("f");
    e.raw(&[0xFA, 0x3F, 0x00, 0x00, 0x00]);
    e.text("n");
    e.head(major::NEGINT, 299);
    e.text("arr");
    e.head(major::ARRAY, 3);
    e.raw(&[0xF5, 0xF6]);
    e.text("x");
    e.text("obj");
    e.head(major::MAP, 1);
    e.text("k");
    e.uint(1);
    let bytes = e.into_bytes();
    let o = payload_to_object(&bytes).unwrap();
    assert_eq!(o.get("f").unwrap().value, HValue::Float("0.5".to_string()));
    let floats = vec![("0.5".to_string(), 0.5f32.to_bits())];
    assert_eq!(object_to_payload(&o, &floats).unwrap(), bytes);
}
