use smysl::diag::{Severity, Span};
use smysl::hash::canonical_uid;
use smysl::ids::{KernelType, SchemaId};
use smysl::quote::{
    is_elision, normalise, quote_of, support, support_in, support_in_span, support_normal, support_span, verify_quotes,
    QuoteCode, Support, QUOTE_KEY,
};
use smysl::surface::hjson::{HObject, HValue, Spanned};
use smysl::surface::payload::object_to_payload;
use smysl::types::epistemics::Status;
use smysl::types::unit::{UnitCore, UnitCoreBuilder};

const MESSAGE: &str = "Before the cut: the eu-west pool saturated on Thursday, and the \
                       canary shard stayed clean throughout the window.";

const SOURCE: &str = "On Thursday the eu-west shard slowed: p95 request latency rose \
                      from 180ms to 410ms. Connection pool wait time rose alongside it.";

#[test]
fn a_present_match_reports_the_text_it_matched() {
    let quote = "the eu-west pool saturated";
    let (support, span) = support_span(quote, MESSAGE);
    assert_eq!(support, Support::Present);
    let span = span.expect("a present match has a range");
    assert_eq!(&MESSAGE[span.clone()], quote);
    assert_eq!(normalise(&MESSAGE[span]), normalise(quote));
}

#[test]
fn a_range_survives_normalisation_changing_the_offsets() {
    let source = "The  `pool`   *saturated* on \u{201C}Thursday\u{201D}.";
    let (support, span) = support_span("the pool saturated", source);
    assert_eq!(support, Support::Present);
    let matched = &source[span.expect("a range")];
    assert_eq!(normalise(matched), "the pool saturated");
    assert!(matched.starts_with("The"), "{matched}");
}

#[test]
fn a_loose_match_covers_the_region_and_an_absent_one_has_no_range() {
    let (support, span) = support_span("the pool saturated \u{2026} stayed clean", MESSAGE);
    assert_eq!(support, Support::Loose);
    let region = &MESSAGE[span.expect("a loose match has a range")];
    assert!(region.contains("pool saturated"), "{region}");
    assert!(region.ends_with("clean"), "{region}");

    assert_eq!(support_span("rust was rewritten in go", MESSAGE), (Support::Absent, None));
}

#[test]
fn the_verdict_is_the_same_as_support() {
    let sources = ["", MESSAGE, "pool saturated", "unrelated words entirely"];
    let quotes = ["", "\u{2026}", "the pool saturated", "pool \u{2026} clean", "nothing of the sort"];
    for s in sources {
        for q in quotes {
            assert_eq!(support_span(q, s).0, support(q, s), "{q:?} in {s:?}");
        }
    }
}

#[test]
fn support_in_span_names_the_source_and_the_range() {
    let diff = "+    // the canary shard stayed clean\n";
    let (support, name, span) =
        support_in_span("the canary shard stayed clean", &[("message", MESSAGE), ("diff", diff)]);
    assert_eq!(support, Support::Present);
    assert_eq!(name, Some("message"), "the first source that matches wins");
    assert!(MESSAGE[span.expect("a range")].starts_with("the canary shard"));

    let (support, name, span) = support_in_span("the canary shard stayed clean", &[("diff", diff)]);
    assert_eq!((support, name), (Support::Present, Some("diff")));
    assert_eq!(&diff[span.expect("a range")], "the canary shard stayed clean");

    assert_eq!(support_in_span("absent", &[("diff", diff)]), (Support::Absent, None, None));
}

#[test]
fn a_verbatim_quote_is_present() {
    assert_eq!(support("p95 request latency rose", SOURCE), Support::Present);
}

#[test]
fn case_whitespace_and_smart_punctuation_do_not_matter() {
    for q in ["P95 REQUEST LATENCY ROSE", "p95   request\n  latency rose", "the eu\u{2011}west shard slowed"] {
        assert_eq!(support(q, SOURCE), Support::Present, "{q:?}");
    }
}

#[test]
fn an_elided_quote_is_loose_rather_than_absent() {
    let q = "the eu-west shard slowed ... 180ms to 410ms";
    assert_eq!(support(q, SOURCE), Support::Loose);
}

#[test]
fn an_invented_quote_is_absent() {
    for q in ["the database was misconfigured", "latency fell from 410ms to 180ms"] {
        assert_eq!(support(q, SOURCE), Support::Absent, "{q:?}");
    }
}

#[test]
fn reordered_words_are_not_an_attribution() {
    assert_eq!(support("latency rose p95 before Thursday on", SOURCE), Support::Absent);
}

#[test]
fn an_ellipsis_is_a_marker_not_a_word_to_find() {
    assert!(is_elision("..."));
    assert!(is_elision("\u{2026}"));
    assert!(is_elision("[...]"));
    assert!(!is_elision("p95"));
}

#[test]
fn a_quote_of_only_ellipses_is_absent() {
    assert_eq!(support("... ...", SOURCE), Support::Absent);
}

#[test]
fn an_empty_quote_supports_nothing() {
    assert_eq!(support("   ", SOURCE), Support::Absent);
}

#[test]
fn markdown_markup_and_quote_style_are_typography() {
    for (quote, source) in [
        ("'Deterministic CBOR'", "\"Deterministic CBOR\""),
        ("smysl, the CLI", "`smysl`, the CLI"),
        ("nodejs/ reaches C-Produce", "**nodejs/** reaches C-Produce"),
        ("nodejs/ reaches C-Produce", "*nodejs/* reaches C-Produce"),
    ] {
        assert_eq!(support(quote, source), Support::Present, "{quote:?} in {source:?}");
    }
}

#[test]
fn an_underscore_is_content_not_emphasis() {
    assert_ne!(support("foobar is set", "foo_bar is set"), Support::Present);
}

#[test]
fn several_sources_prefer_present_over_loose_and_name_the_match() {
    let message = "Reject the binding. It would test the same C library twice.";
    let diff = "+// hand-rolled: a binding would test the same C library twice";
    let sources = [("message", message), ("src/blake3.js", diff)];

    let q = "a binding would test the same C library twice";
    assert_eq!(support_in(q, &sources), (Support::Present, Some("src/blake3.js")));
    let reversed = [sources[1], sources[0]];
    assert_eq!(support_in(q, &reversed), (Support::Present, Some("src/blake3.js")));

    assert_eq!(support_in("the same C library", &sources), (Support::Present, Some("message")));
    assert_eq!(support_in("Reject ... C library", &sources), (Support::Loose, Some("message")));
    assert_eq!(support_in("serde was adopted", &sources), (Support::Absent, None));
    assert_eq!(support_in("anything", &[]), (Support::Absent, None));
}

#[test]
fn normalisation_folds_case_space_marks_and_dashes() {
    assert_eq!(normalise("  The\u{a0}`Pool`\u{2014}**Saturated**  \u{2019}x\u{2019} "), "the pool-saturated \"x\"");
    assert_eq!(normalise("foo_bar"), "foo_bar");
    assert_eq!(normalise(""), "");
    assert_eq!(normalise("\u{130}"), "i\u{307}");
}

#[test]
fn edge_punctuation_does_not_stop_a_loose_match() {
    assert_eq!(support("(saturated) ... clean.", MESSAGE), Support::Loose);
    let (s, span) = support_span("saturated ... window", MESSAGE);
    assert_eq!(s, Support::Loose);
    let span = span.unwrap();
    assert!(MESSAGE[span.clone()].starts_with("saturated"));
    assert!(MESSAGE[span].ends_with("window."));
}

fn quoted(gist: &str, quote: Option<&str>) -> UnitCore {
    let mut b = UnitCoreBuilder::new(SchemaId::from(KernelType::Claim), gist, Status::Speculative);
    if let Some(q) = quote {
        let mut o = HObject::new();
        let span = Span::new(0, 0);
        o.insert(Spanned::new(QUOTE_KEY.to_string(), span), Spanned::new(HValue::Str(q.to_string()), span));
        if let Some(p) = object_to_payload(&o, &Vec::new()) {
            b = b.payload(p);
        }
    }
    b.build().unwrap()
}

#[test]
fn a_quote_round_trips_through_the_payload() {
    let u = quoted("a claim", Some("p95 request latency rose"));
    assert_eq!(quote_of(&u).as_deref(), Some("p95 request latency rose"));
}

#[test]
fn a_unit_with_no_quote_is_not_faulted() {
    let units = vec![quoted("a claim", None)];
    assert!(verify_quotes(&units, SOURCE).is_empty());
    assert_eq!(quote_of(&units[0]), None);
}

#[test]
fn verification_reports_the_invented_and_passes_the_real() {
    let units = vec![
        quoted("honest", Some("p95 request latency rose")),
        quoted("invented", Some("the database was misconfigured")),
    ];
    let out = verify_quotes(&units, SOURCE);
    assert_eq!(out.len(), 1);
    assert_eq!(out[0].code, QuoteCode::E307);
    assert_eq!(out[0].severity, Severity::Error);
    assert_eq!(out[0].uid, canonical_uid(&units[1]));
    assert_eq!(out[0].message, "attributed quote is not in the source: \"the database was misconfigured\"");
    assert_eq!(out[0].suggestion, "quote text that appears in the document, or omit `quote`");
    assert_eq!(out[0].code.as_str(), "SMY-E307");
}

#[test]
fn an_elided_quote_earns_a_warning() {
    let units = vec![quoted("elided", Some("the eu-west shard ... p95 request latency rose"))];
    let out = verify_quotes(&units, SOURCE);
    assert_eq!(out.len(), 1);
    assert_eq!(out[0].code, QuoteCode::W308);
    assert_eq!(out[0].severity, Severity::Warn);
    assert_eq!(
        out[0].message,
        "attributed quote is elided or reworded: \"the eu-west shard ... p95 request latency rose\""
    );
    assert_eq!(out[0].suggestion, "quote the source verbatim, or drop the attribution");
}

#[test]
fn a_huge_quote_is_clipped_in_the_diagnostic() {
    let units = vec![quoted("x", Some(&"lorem ".repeat(200)))];
    let out = verify_quotes(&units, SOURCE);
    assert_eq!(out.len(), 1);
    assert!(out[0].render().len() < 300, "{}", out[0].render());
    assert!(out[0].message.ends_with("\u{2026}\""), "{}", out[0].message);
}

#[test]
fn a_non_text_quote_is_no_quote() {
    let mut o = HObject::new();
    let span = Span::new(0, 0);
    o.insert(Spanned::new(QUOTE_KEY.to_string(), span), Spanned::new(HValue::Int(7), span));
    let p = object_to_payload(&o, &Vec::new()).unwrap();
    let u = UnitCoreBuilder::new(SchemaId::from(KernelType::Claim), "g", Status::Speculative).payload(p).build().unwrap();
    assert_eq!(quote_of(&u), None);
    assert!(verify_quotes(&vec![u], SOURCE).is_empty());
}

#[test]
fn matching_on_normalised_text() {
    assert_eq!(support_normal("rose from", "latency rose from 180ms"), Support::Present);
    assert_eq!(support_normal("latency 180ms", "latency rose from 180ms"), Support::Loose);
    assert_eq!(support_normal("fell", "latency rose from 180ms"), Support::Absent);
    assert_eq!(support_normal("", "latency rose"), Support::Absent);
}
