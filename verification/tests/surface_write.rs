use smysl::surface::hjson::parse_object;
use smysl::surface::write::{escape_block, quoted, quoted_key, quoteless_or_quoted};

#[test]
fn quoteless_where_possible() {
    assert_eq!(quoteless_or_quoted("measured"), "measured");
    assert_eq!(quoteless_or_quoted("c/auth-p95"), "c/auth-p95");
    assert_eq!(quoteless_or_quoted("2026-07-09"), "2026-07-09");
    // A colon is safe in a value: only keys terminate at one.
    assert_eq!(quoteless_or_quoted("model:x/y"), "model:x/y");
    assert_eq!(quoteless_or_quoted("grafana://board/12"), "grafana://board/12");
}

#[test]
fn quotes_what_would_not_survive_quoteless_parsing() {
    for s in ["", " x", "x ", "a, b", "a}b", "a]b", "a\nb", "true", "42", "0.5"] {
        let q = quoteless_or_quoted(s);
        assert!(q.starts_with('"'), "{s:?} should be quoted, got {q}");
    }
}

#[test]
fn quoting_escapes_the_json_set() {
    assert_eq!(quoteless_or_quoted("a\"b"), r#""a\"b""#);
    assert_eq!(quoteless_or_quoted("a\\b"), r#""a\\b""#);
    assert_eq!(quoteless_or_quoted("a\nb"), r#""a\nb""#);
    assert_eq!(quoteless_or_quoted("a\tb"), r#""a\tb""#);
}

#[test]
fn a_value_starting_like_a_comment_is_quoted() {
    assert_eq!(quoteless_or_quoted("#x"), "\"#x\"");
    assert_eq!(quoteless_or_quoted("//x"), "\"//x\"");
    assert_eq!(quoteless_or_quoted("a#x"), "a#x");
}

#[test]
fn anything_that_reads_as_a_number_is_quoted() {
    for s in ["inf", "-Infinity", "NaN", "+nan", "1e5", ".5"] {
        assert!(quoteless_or_quoted(s).starts_with('"'), "{s}");
    }
    assert_eq!(quoteless_or_quoted("infinite"), "infinite");
    assert_eq!(quoteless_or_quoted("1.2.3"), "1.2.3");
}

#[test]
fn a_quoted_value_reads_back_as_the_same_text() {
    for s in ["", " x", "a, b", "true", "42", "a\"b\\c\nd\re\tf", "#x"] {
        let src = format!("{{ k: {} }}", quoteless_or_quoted(s));
        let o = parse_object(&src, 0).unwrap().value;
        assert_eq!(o.get("k").unwrap().value.as_str(), Some(s), "{src}");
    }
}

#[test]
fn keys_are_quoted_only_when_they_must_be() {
    assert_eq!(quoted_key("status"), "status");
    assert_eq!(quoted_key("a b"), "\"a b\"");
    assert_eq!(quoted_key("a:b"), "\"a:b\"");
    assert_eq!(quoted_key(""), "\"\"");
    assert_eq!(quoted_key("#k"), "\"#k\"");
    assert_eq!(quoted("x"), "\"x\"");
}

#[test]
fn a_body_without_comment_like_lines_is_left_alone() {
    assert_eq!(escape_block("one\r\ntwo\n"), "one\r\ntwo\n");
}

#[test]
fn comment_like_body_lines_are_escaped() {
    assert_eq!(escape_block("# heading\ntext\n// code\n\\x"), "\\# heading\ntext\n\\// code\n\\\\x");
    // Once escaping is needed, the lines are rejoined as `str::lines` split them.
    assert_eq!(escape_block("#a\r\nb\n"), "\\#a\nb");
}

use smysl::diag::Span as WriteSpan;
use smysl::hash::canonical_uid;
use smysl::ids::{AgentId, KernelType, Label, SchemaId, ThreadId, Uid, ViewId};
use smysl::types::view::View;
use smysl::surface::hjson::{HObject, HValue, Spanned};
use smysl::surface::payload::object_to_payload;
use smysl::surface::write::{write_surface, WriteContext};
use smysl::types::epistemics::{Date, SourceKind, SourceRef, Status};
use smysl::types::provenance::Hlc;
use smysl::types::record::Record;
use smysl::types::relation::{RelKind, Relation};
use smysl::types::thread::{Role, Step, Thread, ThreadSchema};
use smysl::types::unit::UnitCoreBuilder;

fn ctx() -> WriteContext {
    WriteContext::new()
}

fn claim(gist: &str) -> UnitCoreBuilder {
    UnitCoreBuilder::new(SchemaId::from(KernelType::Claim), gist, Status::Speculative)
}

fn weighted(w: f32) -> String {
    let r = Relation::new(RelKind::Causes, Uid::from_bytes([1; 32]), Uid::from_bytes([2; 32]));
    let r = Relation { weight: Some(w.to_bits()), ..r };
    write_surface(None, &[Record::Relation(r)], &ctx())
}

#[test]
fn floats_render_without_trailing_noise() {
    assert!(weighted(0.5).contains("{ weight: 0.5 }"), "{}", weighted(0.5));
    assert!(weighted(1.0).contains("{ weight: 1.0 }"));
    assert!(weighted(0.0).contains("{ weight: 0.0 }"));
    assert!(weighted(614.0 / 1024.0).contains("{ weight: 0.599609 }"));
}

#[test]
fn a_gist_only_unit_emits_a_header_a_gist_and_nothing_else() {
    let u = claim("p95 tripled").build().unwrap();
    let s = write_surface(None, &[Record::Unit(u)], &ctx());
    assert_eq!(s, "@claim { status: speculative }\n~ p95 tripled\n");
}

#[test]
fn a_label_follows_the_type() {
    let u = claim("g").build().unwrap();
    let uid = canonical_uid(&u);
    let mut c = ctx();
    c.labels.push((uid, Label::new("c/x").unwrap()));
    let s = write_surface(None, &[Record::Unit(u)], &c);
    assert!(s.starts_with("@claim c/x {"), "{s}");
}

#[test]
fn a_source_is_emitted_inline() {
    let u = UnitCoreBuilder::new(SchemaId::from(KernelType::Evidence), "traces", Status::Measured)
        .source(SourceRef::new(SourceKind::Metric, "grafana://board/12").captured_on(Date::new(2026, 7, 9).unwrap()))
        .build()
        .unwrap();
    let s = write_surface(None, &[Record::Unit(u)], &ctx());
    assert!(s.contains("source: { kind: metric, ref: grafana://board/12, captured: 2026-07-09 }"), "{s}");
}

#[test]
fn body_and_detail_are_separated_as_the_grammar_requires() {
    let u = claim("g").body("the body").detail("the detail").build().unwrap();
    let s = write_surface(None, &[Record::Unit(u)], &ctx());
    assert!(s.contains("~ g\n\nthe body\n\n--\nthe detail"), "{s}");
}

#[test]
fn the_writer_always_emits_the_unicode_arrow() {
    let ag = AgentId::new("model:openai/gpt").unwrap();
    let mut t = Thread::new(ThreadId::new("t/brief").unwrap(), ThreadSchema::Brief, ag.clone(), "a brief", Hlc::zero(ag));
    t.steps.push(Step::new(Role::BottomLine, Uid::from_bytes([1; 32])));
    let s = write_surface(None, &[Record::Thread(t)], &ctx());
    assert!(s.contains(" \u{2192} "), "{s}");
    assert!(!s.contains("->"));
}

#[test]
fn records_without_a_surface_form_are_skipped() {
    let r = Record::Unknown { code: 99, payload: vec![0xA0] };
    assert_eq!(write_surface(None, &[r], &ctx()), "");
}

#[test]
fn a_relation_names_its_ends_by_label() {
    let a = Uid::from_bytes([1; 32]);
    let mut c = ctx();
    c.labels.push((a, Label::new("c/a").unwrap()));
    let r = Relation::new(RelKind::Causes, a, Uid::from_bytes([2; 32])).with_note(a);
    let s = write_surface(None, &[Record::Relation(r)], &c);
    let b = Uid::from_bytes([2; 32]).canonical();
    assert_eq!(s, format!("@rel c/a --causes--> {b} {{ note: c/a }}\n"));
}

#[test]
fn unknown_header_keys_come_back_out_from_the_payload() {
    let mut o = HObject::new();
    let sp = WriteSpan::new(0, 0);
    o.insert(Spanned::new("zz".to_string(), sp), Spanned::new(HValue::Int(-3), sp));
    o.insert(Spanned::new("a key".to_string(), sp), Spanned::new(HValue::Str("x, y".to_string()), sp));
    let p = object_to_payload(&o, &Vec::new()).unwrap();
    let u = claim("g").payload(p).build().unwrap();
    let s = write_surface(None, &[Record::Unit(u)], &ctx());
    assert_eq!(s, "@claim { status: speculative, zz: -3, \"a key\": \"x, y\" }\n~ g\n");
}

#[test]
fn salience_is_written_from_the_context() {
    let u = claim("g").build().unwrap();
    let uid = canonical_uid(&u);
    let c = ctx().with_salience(vec![(uid, (768.0f32 / 1024.0).to_bits())]);
    let s = write_surface(None, &[Record::Unit(u)], &c);
    assert_eq!(s, "@claim { status: speculative, salience: 0.75 }\n~ g\n");
}

#[test]
fn a_document_header_comes_first() {
    let v = View::new(ViewId::new("v/incident").unwrap(), "incident brief").with_roots(vec![Uid::from_bytes([1; 32])]);
    let mut c = ctx();
    c.labels.push((Uid::from_bytes([1; 32]), Label::new("c/root").unwrap()));
    let s = write_surface(Some(&v), &[], &c);
    assert!(s.starts_with("@doc smysl/0.1 {\n  id: v/incident\n  intent: incident brief\n  lang: en\n  granularity: { profile: default, "), "{s}");
    assert!(s.ends_with("  roots: [c/root]\n}\n"), "{s}");
}
