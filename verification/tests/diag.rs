use smysl::diag::{Code, Diagnostic, Group, Report, Severity, Span, Subject};
use smysl::ids::Uid;

#[test]
fn severity_agrees_with_wire_letter() {
    for &c in Code::ALL.iter() {
        let letter = c.as_str().as_bytes()[4];
        let expected = match letter {
            b'E' => Severity::Error,
            b'W' => Severity::Warn,
            other => panic!("{c:?}: unexpected severity letter {}", other as char),
        };
        assert_eq!(c.severity(), expected, "{c:?} severity disagrees with wire form");
    }
}

#[test]
fn every_code_has_the_smy_prefix_and_four_digits() {
    for &c in Code::ALL.iter() {
        let s = c.as_str();
        assert_eq!(s.len(), 8, "{s} is not 8 characters");
        assert!(s.starts_with("SMY-"), "{s} lacks the SMY- prefix");
        assert!(s[5..].bytes().all(|b| b.is_ascii_digit()), "{s} does not end in three digits");
    }
}

#[test]
fn wire_forms_are_unique() {
    let mut seen = std::collections::BTreeSet::new();
    for &c in Code::ALL.iter() {
        assert!(seen.insert(c.as_str()), "duplicate wire form {c:?}");
    }
    assert_eq!(seen.len(), Code::ALL.len());
}

#[test]
fn every_code_has_a_nonempty_message() {
    for &c in Code::ALL.iter() {
        assert!(!c.message().is_empty(), "{c:?} has no message");
    }
}

#[test]
fn parse_round_trips_every_code() {
    for &c in Code::ALL.iter() {
        assert_eq!(Code::parse(c.as_str()), Some(c));
    }
    assert_eq!(Code::parse("SMY-E999"), None);
    assert_eq!(Code::parse("E030"), None);
    assert_eq!(Code::parse(""), None);
}

#[test]
fn registry_matches_appendix_d_size() {
    assert_eq!(Code::ALL.len(), 50);
}

#[test]
fn group_membership_is_complete() {
    for &g in Group::ALL.iter() {
        assert!(Code::ALL.iter().any(|c| c.group() == g), "group {g:?} has no codes");
    }
    assert_eq!(Group::ALL.len(), 8);
}

#[test]
fn code_ordering_is_declaration_order() {
    let mut sorted = Code::ALL.to_vec();
    sorted.sort();
    assert_eq!(sorted, Code::ALL.to_vec());
    for (i, c) in Code::ALL.iter().enumerate() {
        assert_eq!(c.index() as usize, i);
        assert_eq!(Code::at_index(i as u8), Some(*c));
    }
}

#[test]
fn display_is_the_wire_form() {
    assert_eq!(Code::E030.to_wire(), "SMY-E030");
    assert_eq!(Code::W304.to_wire(), "SMY-W304");
}

#[test]
fn severity_orders_warn_below_error() {
    assert!(Severity::Warn < Severity::Error);
    assert!(Severity::Error.at_least(Severity::Warn));
    assert!(!Severity::Warn.at_least(Severity::Error));
}

#[test]
fn diagnostic_defaults_to_registry_severity_and_message() {
    let d = Diagnostic::new(Code::E030);
    assert_eq!(d.severity, Severity::Error);
    assert_eq!(d.message, Code::E030.message());
    assert_eq!(d.subject, Subject::Store);
    assert!(d.is_error());
}

#[test]
fn diagnostic_builders_set_subject() {
    let d = Diagnostic::at(Code::E001, Span::new(4, 9));
    assert_eq!(d.span(), Some(Span::new(4, 9)));
    assert!(d.uid().is_none());

    let u = Uid::from_bytes([7u8; 32]);
    let d = Diagnostic::on(Code::E030, u).with_suggestion("weaken to speculative");
    assert_eq!(d.uid(), Some(&u));
    assert!(d.span().is_none());
    assert_eq!(d.suggestion.as_deref(), Some("weaken to speculative"));
}

#[test]
fn report_counts_by_code() {
    let mut r = Report::new();
    r.push(Diagnostic::new(Code::E030));
    r.push(Diagnostic::new(Code::E030));
    r.push(Diagnostic::new(Code::W304));
    assert_eq!(r.count(Code::E030), 2);
    assert_eq!(r.count(Code::W304), 1);
    assert_eq!(r.count(Code::E001), 0);
    assert_eq!(r.len(), 3);
}

#[test]
fn warnings_alone_are_clean_but_not_empty() {
    let mut r = Report::new();
    r.push(Diagnostic::new(Code::W304));
    assert!(r.is_clean(), "rule I depends on warnings not failing a run");
    assert!(!r.is_empty());
    assert!(!r.has_errors());
    assert_eq!(r.max_severity(), Some(Severity::Warn));
}

#[test]
fn fail_on_respects_severity_threshold() {
    let mut r = Report::new();
    r.push(Diagnostic::new(Code::W304));
    assert!(r.fail_on(Severity::Error).is_ok());
    assert!(r.fail_on(Severity::Warn).is_err());

    r.push(Diagnostic::new(Code::E030));
    assert!(r.fail_on(Severity::Error).is_err());
}

#[test]
fn empty_report_never_fails() {
    let r = Report::new();
    assert!(r.fail_on(Severity::Warn).is_ok());
    assert!(r.fail_on(Severity::Error).is_ok());
    assert_eq!(r.max_severity(), None);
    assert!(r.is_clean());
}

#[test]
fn absorb_unions_diagnostics_and_sums_counts() {
    let mut a = Report::new();
    a.push(Diagnostic::new(Code::E030));
    let mut b = Report::new();
    b.push(Diagnostic::new(Code::E030));
    b.push(Diagnostic::new(Code::E021));
    a.absorb(b);
    assert_eq!(a.count(Code::E030), 2);
    assert_eq!(a.count(Code::E021), 1);
    assert_eq!(a.len(), 3);
}

#[test]
fn sort_is_canonical_and_idempotent() {
    let mut r = Report::new();
    r.push(Diagnostic::at(Code::E030, Span::new(9, 10)));
    r.push(Diagnostic::at(Code::E001, Span::new(0, 1)));
    r.push(Diagnostic::new(Code::W304));
    r.sort();
    let once = r.clone();
    r.sort();
    assert_eq!(r, once);
    assert_eq!(r.diagnostics[0].code, Code::E001);
}

#[test]
fn spans_join_and_slice() {
    let s = Span::new(2, 5).join(Span::new(7, 9));
    assert_eq!(s, Span::new(2, 9));
    assert_eq!(s.len(), 7);
    assert!(!s.is_empty());
    assert!(Span::new(3, 3).is_empty());
    assert_eq!(Span::new(0, 5).slice("@claim c/x"), Some("@clai"));
    assert_eq!(Span::new(0, 99).slice("short"), None);
}

#[test]
fn sort_orders_the_same_set_the_same_way_whatever_it_started_as() {
    let u = Uid::from_bytes([3u8; 32]);
    let items = vec![
        Diagnostic::on(Code::E030, u).with_message("b"),
        Diagnostic::on(Code::E030, u).with_message("a"),
        Diagnostic::at(Code::E030, Span::new(1, 2)),
        Diagnostic::new(Code::E030),
        Diagnostic::new(Code::E001).with_suggestion("x"),
        Diagnostic::new(Code::E001),
    ];
    let mut forward = Report::new();
    forward.extend(items.clone());
    let mut backward = Report::new();
    backward.extend(items.into_iter().rev().collect());
    forward.sort();
    backward.sort();
    assert_eq!(forward, backward);
    assert_eq!(forward.diagnostics[0].suggestion, None);
    assert_eq!(forward.diagnostics[2].subject, Subject::Span(Span::new(1, 2)));
    assert_eq!(forward.diagnostics[3].message, "a");
    assert!(smysl::diag::diag_less(&forward.diagnostics[0], &forward.diagnostics[1]));
    assert!(!smysl::diag::diag_less(&forward.diagnostics[1], &forward.diagnostics[0]));
}

#[test]
fn span_renders_as_start_dot_dot_end() {
    assert_eq!(Span::new(4, 9).render(), "4..9");
}
