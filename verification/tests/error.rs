use smysl::diag::{Code, Diagnostic, Report};
use smysl::error::{
    CodecError, Error, ExitCode, IntegrityError, MergeError, NonDetReason, PackError, ParseError,
    ProviderError, ShapeError,
};
use smysl::ids::Uid;

#[test]
fn exit_codes_match_appendix_e_plus_the_0_2_addition() {
    let pairs = [
        (ExitCode::Success, 0),
        (ExitCode::Failure, 1),
        (ExitCode::Usage, 2),
        (ExitCode::CheckErrors, 3),
        (ExitCode::PackInfeasible, 4),
        (ExitCode::Contentions, 5),
        (ExitCode::Provider, 6),
        (ExitCode::Offline, 7),
        (ExitCode::UnsupportedVersion, 8),
        (ExitCode::HashVerification, 9),
        (ExitCode::Staged, 10),
        (ExitCode::StagedWithCorrections, 11),
    ];
    for (code, n) in pairs {
        assert_eq!(code.as_i32(), n, "{code:?} must stay at {n}");
    }
    assert_eq!(ExitCode::ALL.len(), 12);
}

#[test]
fn exit_codes_are_contiguous_and_unique() {
    let nums: Vec<i32> = ExitCode::ALL.iter().map(|c| c.as_i32()).collect();
    assert_eq!(nums, (0..=11).collect::<Vec<_>>());
}

#[test]
fn check_failure_exits_three() {
    let mut r = Report::new();
    r.push(Diagnostic::new(Code::E030));
    assert_eq!(Error::from(r).exit_code(), ExitCode::CheckErrors);
}

#[test]
fn infeasible_pack_exits_four_and_reports_the_minimum_budget() {
    let e = PackError::Infeasible { budget: 100, required: 260 };
    assert_eq!(e.code(), Code::E200);
    assert_eq!(Error::from(e.clone()).exit_code(), ExitCode::PackInfeasible);
    assert!(e.render().contains("260"));
}

#[test]
fn offline_violation_exits_seven_not_six() {
    assert_eq!(Error::from(ProviderError::OfflineViolation).exit_code(), ExitCode::Offline);
    assert_eq!(Error::from(ProviderError::Unreachable).exit_code(), ExitCode::Provider);
}

#[test]
fn version_errors_exit_eight() {
    assert_eq!(
        Error::from(ParseError::UnsupportedKernelMajor { found: "smysl.kernel/9".into() })
            .exit_code(),
        ExitCode::UnsupportedVersion
    );
    assert_eq!(
        Error::from(ParseError::UnsupportedFormatVersion { found: "smysl/9.0".into() })
            .exit_code(),
        ExitCode::UnsupportedVersion
    );
}

#[test]
fn hash_failures_exit_nine() {
    let e = IntegrityError::HashMismatch {
        stored: Uid::from_bytes([1; 32]),
        recomputed: Uid::from_bytes([2; 32]),
    };
    assert_eq!(e.code(), Code::E070);
    assert_eq!(Error::from(e).exit_code(), ExitCode::HashVerification);
}

#[test]
fn contentions_exit_five() {
    assert_eq!(
        Error::from(MergeError::ContentionsPresent { count: 3 }).exit_code(),
        ExitCode::Contentions
    );
}

#[test]
fn fallback_fires_only_on_unreachable() {
    assert!(ProviderError::Unreachable.is_fallback_eligible());
    for e in [
        ProviderError::Unauthorized,
        ProviderError::ContextExceeded { limit: 1, requested: 2 },
        ProviderError::Malformed("x".into()),
        ProviderError::OfflineViolation,
        ProviderError::StructuredUnsupported,
    ] {
        assert!(
            !e.is_fallback_eligible(),
            "{e:?} must not trigger fallback - it would hide a configuration error"
        );
    }
}

#[test]
fn shape_errors_map_to_their_appendix_d_codes() {
    assert_eq!(ShapeError::MissingGist.code(), Code::E021);
    assert_eq!(ShapeError::GistTooLong { max: 30, actual: 44 }.code(), Code::E022);
    assert_eq!(ShapeError::DetailWithoutBody.code(), Code::E023);
    assert_eq!(ShapeError::GroundsRequired.code(), Code::E031);
    assert_eq!(ShapeError::SourceRequired.code(), Code::E032);
    assert_eq!(ShapeError::UnfoundedAuthored.code(), Code::E034);
}

#[test]
fn codec_reasons_map_to_e080_and_e081() {
    let e = CodecError::NonDeterministic { at: 12, reason: NonDetReason::IndefiniteLength };
    assert_eq!(e.code(), Code::E080);
    assert!(e.render().contains("indefinite"));
    assert_eq!(CodecError::Float { at: 3 }.code(), Code::E081);
    assert_eq!(CodecError::MalformedEnvelope { at: 0 }.code(), Code::E004);
}

#[test]
fn errors_expose_a_source_chain() {
    let e = Error::from(ProviderError::Unreachable);
    assert!(e.has_source());
    assert!(!Error::Check(Report::new()).has_source());
}

#[test]
fn non_determinism_reasons_read_back_from_their_descriptions() {
    let r = NonDetReason::IndefiniteLength;
    assert_eq!(NonDetReason::parse_description(r.describe()), Some(r));
    assert_eq!(NonDetReason::parse_description("no such reason"), None);
}
