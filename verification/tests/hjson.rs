use smysl::diag::Span;
use smysl::surface::hjson::{parse_object, parse_object_prefix, parse_value, HObject, HValue};

fn obj(src: &str) -> HObject {
    parse_object(src, 0).unwrap().value
}

#[test]
fn parses_the_rfc_doc_header() {
    let o = obj(r#"{
  intent: incident-brief, lang: en
  requires: ["smysl.kernel/0.1", "x.sre/1"]
  granularity: { profile: default }
  roots: [c/auth-p95-regression]
}"#);
    assert_eq!(o.get("intent").unwrap().value.as_str(), Some("incident-brief"));
    assert_eq!(o.get("lang").unwrap().value.as_str(), Some("en"));
    assert_eq!(o.get("requires").unwrap().value.as_array().unwrap().len(), 2);
    assert_eq!(
        o.get("granularity").unwrap().value.as_object().unwrap().get("profile").unwrap().value.as_str(),
        Some("default")
    );
    assert_eq!(o.get("roots").unwrap().value.as_array().unwrap()[0].value.as_str(), Some("c/auth-p95-regression"));
}

#[test]
fn parses_the_rfc_unit_header() {
    let o = obj(r#"{ status: measured, grounds: [e/trace-jul], deps: [d/p95] }"#);
    assert_eq!(o.get("status").unwrap().value.as_str(), Some("measured"));
    assert_eq!(o.get("grounds").unwrap().value.as_array().unwrap().len(), 1);
    assert_eq!(o.len(), 3);
}

#[test]
fn parses_a_nested_source_header() {
    let o = obj(r#"{ status: measured
                 source: { kind: metric, ref: "grafana://board/12/panel/4", captured: 2026-07-09 } }"#);
    let s = o.get("source").unwrap().value.as_object().unwrap();
    assert_eq!(s.get("kind").unwrap().value.as_str(), Some("metric"));
    assert_eq!(s.get("ref").unwrap().value.as_str(), Some("grafana://board/12/panel/4"));
    assert_eq!(s.get("captured").unwrap().value.as_str(), Some("2026-07-09"));
}

#[test]
fn an_empty_object_is_valid() {
    assert!(obj("{}").is_empty());
    assert!(obj("{ }").is_empty());
    assert!(obj("{\n}").is_empty());
}

#[test]
fn newlines_separate_entries_without_commas() {
    let o = obj("{\n a: 1\n b: 2\n}");
    assert_eq!(o.len(), 2);
    assert_eq!(o.get("b").unwrap().value.as_int(), Some(2));
}

#[test]
fn trailing_commas_are_tolerated() {
    assert_eq!(obj("{ a: 1, b: 2, }").len(), 2);
    assert_eq!(obj("{ a: [1, 2,] }").get("a").unwrap().value.as_array().unwrap().len(), 2);
}

#[test]
fn numbers_and_literals_are_typed() {
    let o = obj("{ i: 30, f: 0.6, neg: -2, t: true, f2: false, n: null }");
    assert_eq!(o.get("i").unwrap().value, HValue::Int(30));
    assert_eq!(o.get("f").unwrap().value, HValue::Float("0.6".to_string()));
    assert_eq!(o.get("neg").unwrap().value, HValue::Int(-2));
    assert_eq!(o.get("t").unwrap().value, HValue::Bool(true));
    assert_eq!(o.get("f2").unwrap().value, HValue::Bool(false));
    assert_eq!(o.get("n").unwrap().value, HValue::Null);
}

/// A date and a version look numeric but are not numbers.
#[test]
fn dates_and_versions_stay_strings() {
    let o = obj("{ d: 2026-07-09, v: smysl/0.1, k: x.sre/1 }");
    assert_eq!(o.get("d").unwrap().value.as_str(), Some("2026-07-09"));
    assert_eq!(o.get("v").unwrap().value.as_str(), Some("smysl/0.1"));
    assert_eq!(o.get("k").unwrap().value.as_str(), Some("x.sre/1"));
}

#[test]
fn quoted_strings_handle_escapes() {
    let o = obj(r#"{ s: "a \"b\" c\nd\te\\fé" }"#);
    assert_eq!(o.get("s").unwrap().value.as_str(), Some("a \"b\" c\nd\te\\f\u{e9}"));
}

#[test]
fn quoted_strings_carry_multibyte_text() {
    let o = obj("{ s: \"caf\u{e9} \u{4f60}\u{597d}\" }");
    assert_eq!(o.get("s").unwrap().value.as_str(), Some("caf\u{e9} \u{4f60}\u{597d}"));
}

#[test]
fn comments_are_skipped_between_entries() {
    let o = obj("{\n # a comment\n a: 1\n /* block\n comment */ b: 2\n}");
    assert_eq!(o.len(), 2);
    assert_eq!(o.get("a").unwrap().value.as_int(), Some(1));
    assert_eq!(o.get("b").unwrap().value.as_int(), Some(2));
}

/// A quoteless value runs to end of line, comment markers included.
#[test]
fn a_quoteless_value_swallows_comment_markers() {
    let o = obj("{\n url: grafana://board/12/panel/4\n n: 1 // not a comment\n}");
    assert_eq!(o.get("url").unwrap().value.as_str(), Some("grafana://board/12/panel/4"));
    assert_eq!(
        o.get("n").unwrap().value.as_str(),
        Some("1 // not a comment"),
        "quote the value or put the comment on its own line"
    );
}

#[test]
fn entry_order_is_preserved() {
    let o = obj("{ z: 1, a: 2, m: 3 }");
    assert_eq!(o.keys(), ["z", "a", "m"]);
}

/// `take` is how header parsing separates known keys from unknown ones.
#[test]
fn take_removes_and_leaves_the_rest() {
    let mut o = obj("{ status: measured, sre_severity: 2, custom: yes }");
    assert_eq!(o.take("status").unwrap().value.as_str(), Some("measured"));
    assert!(o.take("status").is_none());
    assert_eq!(o.keys(), ["sre_severity", "custom"]);
}

#[test]
fn spans_point_at_the_source() {
    let src = "{ status: measured }";
    let o = parse_object(src, 0).unwrap();
    assert_eq!(o.span, Span::new(0, src.len()));
    let v = o.value.get("status").unwrap();
    assert_eq!(v.span.slice(src), Some("measured"));
}

#[test]
fn spans_are_offset_by_the_base() {
    let src = "{ a: 1 }";
    let o = parse_object(src, 100).unwrap();
    assert_eq!(o.span, Span::new(100, 108));
    assert_eq!(o.value.get("a").unwrap().span, Span::new(105, 106));
}

#[test]
fn nested_spans_cover_their_own_extent() {
    let src = "{ g: { profile: fine } }";
    let o = parse_object(src, 0).unwrap();
    let g = o.value.get("g").unwrap();
    assert_eq!(g.span.slice(src), Some("{ profile: fine }"));
}

#[test]
fn a_prefix_parse_leaves_the_rest_alone() {
    let src = "{ a: 1 }\n~ a gist\n";
    let o = parse_object_prefix(src, 0).unwrap();
    assert_eq!(o.span, Span::new(0, 8));
    assert_eq!(o.value.len(), 1);
    assert!(parse_object(src, 0).is_err(), "the strict form rejects the tail");
}

#[test]
fn errors_report_a_byte_offset() {
    let e = parse_object("{ a 1 }", 0).unwrap_err();
    assert!(e.message.contains("expected `:`"));
    assert!(e.at > 0);

    let e = parse_object("{ a: 1", 0).unwrap_err();
    assert!(e.message.contains("end of input"));

    assert!(parse_object("not an object", 0).is_err());
    assert!(parse_object("{ } trailing", 0).is_err());
}

#[test]
fn error_offsets_are_absolute() {
    let e = parse_object("{ a 1 }", 500).unwrap_err();
    assert!(e.at >= 500, "offset {} is not absolute", e.at);
}

#[test]
fn unterminated_strings_and_bad_escapes_are_errors() {
    assert!(parse_object(r#"{ s: "abc }"#, 0).is_err());
    assert!(parse_object(r#"{ s: "a\qb" }"#, 0).is_err());
    assert!(parse_object(r#"{ s: "a\u00" }"#, 0).is_err());
}

#[test]
fn arrays_nest() {
    let v = parse_value("[[1, 2], [3]]", 0).unwrap().value;
    let outer = v.as_array().unwrap();
    assert_eq!(outer.len(), 2);
    assert_eq!(outer[0].value.as_array().unwrap().len(), 2);
}

#[test]
fn value_accessors_are_type_checked() {
    let v = HValue::Int(3);
    assert_eq!(v.as_int(), Some(3));
    assert_eq!(v.as_str(), None);
    assert_eq!(v.as_bool(), None);
    assert_eq!(v.kind_name(), "integer");
    assert_eq!(HValue::Null.kind_name(), "null");
}

#[test]
fn the_key_of_a_missing_colon_is_named_in_the_message() {
    let e = parse_object("{ a 1 }", 0).unwrap_err();
    assert_eq!(e.message, "expected `:` after key `a`");
    assert_eq!(e.at, 4);
}

#[test]
fn end_of_input_names_what_was_being_read() {
    assert_eq!(parse_object("{ a: 1", 0).unwrap_err().message, "unexpected end of input in object");
    assert_eq!(parse_value("[1", 0).unwrap_err().message, "unexpected end of input in array");
    assert_eq!(parse_object("{ a: \"x", 0).unwrap_err().message, "unexpected end of input in string");
    assert_eq!(parse_object("{ a:", 0).unwrap_err().message, "unexpected end of input in value");
}

#[test]
fn unicode_escapes_read_four_hex_digits() {
    let o = obj(r#"{ s: "\u00e9\u4F60" }"#);
    assert_eq!(o.get("s").unwrap().value.as_str(), Some("\u{e9}\u{4f60}"));
    // `u32::from_str_radix` takes a leading plus sign.
    let o = obj(r#"{ s: "\u+41x" }"#);
    assert_eq!(o.get("s").unwrap().value.as_str(), Some("Ax"));
}

#[test]
fn a_surrogate_escape_is_an_invalid_code_point() {
    let e = parse_object(r#"{ s: "\ud800" }"#, 0).unwrap_err();
    assert_eq!(e.message, "invalid code point");
    assert_eq!(e.at, 8);
}

#[test]
fn an_escape_cut_inside_a_character_is_an_end_of_input() {
    // Four bytes from the escape's digits end inside the `é`.
    let e = parse_object("{ s: \"\\u0\u{e9}\u{e9}\" }", 0).unwrap_err();
    assert_eq!(e.message, "unexpected end of input in unicode escape");
    // Four bytes that end on a character boundary but are not hexadecimal.
    let e = parse_object("{ s: \"\\u0\u{e9}0\" }", 0).unwrap_err();
    assert_eq!(e.message, "invalid unicode escape");
}

#[test]
fn an_unknown_escape_names_its_first_byte() {
    let e = parse_object(r#"{ s: "a\qb" }"#, 0).unwrap_err();
    assert_eq!(e.message, "unknown escape `\\q`");
    assert_eq!(e.at, 8);
    let e = parse_object("{ s: \"\\\u{e9}\" }", 0).unwrap_err();
    assert_eq!(e.message, "unknown escape `\\\u{c3}`");
}

#[test]
fn nesting_deeper_than_the_limit_is_refused() {
    let deep = "[".repeat(200);
    let e = parse_value(&deep, 0).unwrap_err();
    assert_eq!(e.message, "nesting deeper than 128");
    let ok = format!("{}{}", "[".repeat(40), "]".repeat(40));
    assert!(parse_value(&ok, 0).is_ok());
}

#[test]
fn integers_are_read_as_i64_and_beyond_are_numbers() {
    assert_eq!(parse_value("-9223372036854775808", 0).unwrap().value, HValue::Int(i64::MIN));
    assert_eq!(parse_value("+9223372036854775807", 0).unwrap().value, HValue::Int(i64::MAX));
    assert_eq!(
        parse_value("9223372036854775808", 0).unwrap().value,
        HValue::Float("9223372036854775808".to_string())
    );
}

#[test]
fn numbers_follow_the_float_grammar() {
    for t in ["1.", ".5", "+.5e-3", "1E5", "-0.0"] {
        assert_eq!(parse_value(t, 0).unwrap().value, HValue::Float(t.to_string()), "{}", t);
    }
    for t in ["1e", "e5", ".", "1.2.3", "1e5.0", "+"] {
        assert_eq!(parse_value(t, 0).unwrap().value, HValue::Str(t.to_string()), "{}", t);
    }
}

#[test]
fn a_token_is_trimmed_of_trailing_white_space() {
    let v = parse_value("x \t", 0).unwrap();
    assert_eq!(v.value.as_str(), Some("x"));
    assert_eq!(v.span, Span::new(0, 1));
    // Unicode white space is trimmed from the token too, but it is not trivia, so it is left
    // over after the value.
    let e = parse_value("x\u{a0}", 0).unwrap_err();
    assert_eq!(e.message, "trailing content after value");
    assert_eq!(e.at, 1);
}

#[test]
fn an_object_that_is_not_one_is_refused_where_it_starts() {
    let e = parse_object("  [1]", 0).unwrap_err();
    assert_eq!(e.message, "expected `{`");
    assert_eq!(e.at, 2);
}

#[test]
fn trailing_content_is_reported_where_it_starts() {
    let e = parse_object("{ } x", 10).unwrap_err();
    assert_eq!(e.message, "trailing content after object");
    assert_eq!(e.at, 14);
    let e = parse_value("1 ]", 0).unwrap_err();
    assert_eq!(e.message, "trailing content after value");
}

#[test]
fn take_removes_every_entry_under_the_key() {
    let mut o = obj("{ deps: [a], x: 1, deps: [b] }");
    let first = o.take("deps").unwrap();
    assert_eq!(first.value.as_array().unwrap()[0].value.as_str(), Some("a"));
    assert_eq!(o.keys(), ["x"]);
    assert!(!o.contains("deps"));
}

#[test]
fn an_empty_key_is_refused() {
    assert_eq!(parse_object("{ : 1 }", 0).unwrap_err().message, "expected a key");
    assert_eq!(parse_object("{ a: , }", 0).unwrap_err().message, "expected a value");
}
