use smysl::types::{json_escape, tokens};

#[test]
fn quotes_and_backslashes_are_escaped() {
    assert_eq!(json_escape(r#"a"b\c"#), r#""a\"b\\c""#);
}

#[test]
fn control_characters_use_the_four_digit_form() {
    assert_eq!(json_escape("\u{1}"), r#""\u0001""#);
    assert_eq!(json_escape("\n\t\r"), r#""\n\t\r""#);
    assert_eq!(json_escape("\u{8}\u{c}"), r#""\b\f""#);
}

#[test]
fn printable_unicode_passes_through() {
    assert_eq!(json_escape("p99 \u{2192} 410ms"), "\"p99 \u{2192} 410ms\"");
}

#[test]
fn an_empty_string_is_a_pair_of_quotes() {
    assert_eq!(json_escape(""), "\"\"");
}

#[test]
fn the_estimator_is_the_documented_formula() {
    assert_eq!(tokens(""), 0);
    assert_eq!(tokens("a"), 1);
    assert_eq!(tokens("abcd"), 1);
    assert_eq!(tokens("abcde"), 2);
    assert_eq!(tokens("\u{e9}"), 1);
    assert_eq!(tokens("\u{4f60}\u{597d}"), 2);
}

#[test]
fn the_estimator_is_monotone() {
    let mut s = String::new();
    let mut prev = tokens(&s);
    for _ in 0..64 {
        s.push('x');
        let t = tokens(&s);
        assert!(t >= prev);
        prev = t;
    }
}
