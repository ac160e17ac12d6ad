use smysl::diag::Span;
use smysl::ids::KernelType;
use smysl::surface::lex::{arrow_len, classify, find_arrow, lex, LineClass};

fn classes(src: &str) -> Vec<LineClass> {
    lex(src).into_iter().map(|l| l.class).collect()
}

#[test]
fn classifies_the_rfc_example() {
    let src = "@doc smysl/0.1 {\n  intent: incident-brief\n}\n\n@claim c/x {\n  status: measured\n}\n~ a gist\n\nbody text\n\n--\ndetail text\n\n@rel a/b --causes--> c/d\n\n@thread t/brief { schema: brief }\n~ thread gist\n  bottom-line \u{2192} c/x\n";
    let c = classes(src);
    assert_eq!(c[0], LineClass::DocHeader);
    assert_eq!(c[4], LineClass::RecordStart);
    assert_eq!(c[7], LineClass::Gist);
    assert_eq!(c[9], LineClass::Text);
    assert_eq!(c[11], LineClass::Separator);
    assert_eq!(c[14], LineClass::RelLine);
    assert_eq!(c[16], LineClass::ThreadStart);
    assert_eq!(c[18], LineClass::Step);
}

#[test]
fn every_kernel_type_starts_a_record() {
    for &k in KernelType::ALL.iter() {
        assert_eq!(
            classify(&format!("@{} c/x {{}}", k.as_str())),
            LineClass::RecordStart,
            "@{}",
            k.as_str()
        );
    }
}

#[test]
fn extension_types_start_a_record() {
    assert_eq!(classify("@x.sre/incident i/1 {}"), LineClass::RecordStart);
    assert_eq!(classify("@x.sre/incident"), LineClass::RecordStart);
}

#[test]
fn an_unrecognised_at_word_is_body_text() {
    assert_eq!(classify("@vladimir please look"), LineClass::Text);
    assert_eq!(classify("@ claim"), LineClass::Text);
    assert_eq!(classify("@claimant c/x"), LineClass::Text);
    assert_eq!(classify("@x.sre"), LineClass::Text);
}

#[test]
fn a_separator_must_be_alone_on_its_line() {
    assert_eq!(classify("--"), LineClass::Separator);
    assert_eq!(classify("--  "), LineClass::Separator);
    assert_eq!(classify("-- not alone"), LineClass::Text);
    assert_eq!(classify("  --"), LineClass::Text);
    assert_eq!(classify("a -- b"), LineClass::Text);
}

#[test]
fn gist_lines_need_the_sigil_and_a_space() {
    assert_eq!(classify("~ the gist"), LineClass::Gist);
    assert_eq!(classify("~"), LineClass::Gist);
    assert_eq!(classify("~tilde-prefixed prose"), LineClass::Text);
    assert_eq!(classify("  ~ indented"), LineClass::Text);
}

#[test]
fn steps_need_the_two_space_indent_and_an_arrow() {
    assert_eq!(classify("  bottom-line \u{2192} c/x"), LineClass::Step);
    assert_eq!(classify("  support -> c/y"), LineClass::Step);
    assert_eq!(classify("bottom-line -> c/x"), LineClass::Text);
    assert_eq!(classify("    support -> c/y"), LineClass::Text);
    assert_eq!(classify("  support c/y"), LineClass::Text);
    assert_eq!(classify("  -> c/y"), LineClass::Text);
}

#[test]
fn a_markdown_list_is_not_a_step() {
    assert_eq!(classify("  - an item"), LineClass::Text);
    assert_eq!(classify("  1. an item"), LineClass::Text);
}

#[test]
fn blank_lines_are_recognised_however_they_are_spelled() {
    for s in ["", " ", "\t", "   \t "] {
        assert_eq!(classify(s), LineClass::Blank, "{s:?}");
    }
}

#[test]
fn spans_cover_the_line_without_its_terminator() {
    let src = "abc\ndef\n";
    let l = lex(src);
    assert_eq!(l.len(), 2);
    assert_eq!(l[0].span, Span::new(0, 3));
    assert_eq!(l[1].span, Span::new(4, 7));
    assert_eq!(l[0].span.slice(src), Some("abc"));
}

#[test]
fn a_trailing_newline_does_not_add_a_line() {
    assert_eq!(lex("a\n").len(), 1);
    assert_eq!(lex("a").len(), 1);
    assert_eq!(lex("a\n\n").len(), 2);
    assert_eq!(lex("").len(), 1);
}

#[test]
fn carriage_returns_are_stripped_from_the_text() {
    let l = lex("abc\r\ndef");
    assert_eq!(l[0].text, "abc");
    assert_eq!(l[0].class, LineClass::Text);
}

#[test]
fn record_starts_are_the_recovery_points() {
    for c in [LineClass::DocHeader, LineClass::RecordStart, LineClass::RelLine, LineClass::ThreadStart] {
        assert!(c.starts_record());
    }
    for c in [LineClass::Step, LineClass::Gist, LineClass::Separator, LineClass::Blank, LineClass::Text] {
        assert!(!c.starts_record());
    }
}

#[test]
fn arrows_are_found_in_both_spellings() {
    assert_eq!(find_arrow("a \u{2192} b"), Some(2));
    assert_eq!(find_arrow("a -> b"), Some(2));
    assert_eq!(find_arrow("a b"), None);
    assert_eq!(arrow_len("a \u{2192} b", 2), 3);
    assert_eq!(arrow_len("a -> b", 2), 2);
}

#[test]
fn the_first_arrow_wins_whichever_spelling_it_is() {
    assert_eq!(find_arrow("x -> y \u{2192} z"), Some(2));
    assert_eq!(find_arrow("x \u{2192} y -> z"), Some(2));
}

#[test]
fn gist_text_strips_the_sigil() {
    let l = lex("~ the gist");
    assert_eq!(l[0].gist_text(), "the gist");
    assert_eq!(lex("~")[0].gist_text(), "");
}

#[test]
fn line_numbers_are_one_based() {
    let l = lex("a\nb\nc");
    assert_eq!(l[0].number, 1);
    assert_eq!(l[2].number, 3);
}
