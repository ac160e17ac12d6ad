//! The error vocabulary and the exit-code mapping.
//!
//! Errors are typed; every variant that corresponds to a diagnostic reports its [`Code`].

use vstd::prelude::*;

use crate::diag::{Code, Report, Span};
use crate::ids::Uid;
use crate::text::{decimal, owned, push_decimal, push_str};

verus! {

/// `std::io::Error`, carried through by the unified error.
#[verifier::external_type_specification]
#[verifier::external_body]
pub struct ExIoError(std::io::Error);

// ---------------------------------------------------------------------------
// Exit codes
// ---------------------------------------------------------------------------

/// Process exit codes. They stay stable across minor versions so pipelines can branch on them.
#[derive(Debug, Clone, Copy, PartialEq, Eq, Structural, PartialOrd, Ord, Hash)]
#[non_exhaustive]
pub enum ExitCode {
    Success,
    Failure,
    Usage,
    CheckErrors,
    PackInfeasible,
    Contentions,
    Provider,
    Offline,
    UnsupportedVersion,
    HashVerification,
    Staged,
    StagedWithCorrections,
}

impl ExitCode {
    /// Every variant, in declaration order.
    pub const ALL: [ExitCode; 12] = [
        ExitCode::Success,
        ExitCode::Failure,
        ExitCode::Usage,
        ExitCode::CheckErrors,
        ExitCode::PackInfeasible,
        ExitCode::Contentions,
        ExitCode::Provider,
        ExitCode::Offline,
        ExitCode::UnsupportedVersion,
        ExitCode::HashVerification,
        ExitCode::Staged,
        ExitCode::StagedWithCorrections,
    ];

}

impl ExitCode {
    /// The numeric exit status.
    pub open spec fn number(self) -> i32 {
        match self {
            ExitCode::Success => 0,
            ExitCode::Failure => 1,
            ExitCode::Usage => 2,
            ExitCode::CheckErrors => 3,
            ExitCode::PackInfeasible => 4,
            ExitCode::Contentions => 5,
            ExitCode::Provider => 6,
            ExitCode::Offline => 7,
            ExitCode::UnsupportedVersion => 8,
            ExitCode::HashVerification => 9,
            ExitCode::Staged => 10,
            ExitCode::StagedWithCorrections => 11,
        }
    }

    pub fn as_i32(self) -> (r: i32)
        ensures
            r == self.number(),
    {
        match self {
            ExitCode::Success => 0,
            ExitCode::Failure => 1,
            ExitCode::Usage => 2,
            ExitCode::CheckErrors => 3,
            ExitCode::PackInfeasible => 4,
            ExitCode::Contentions => 5,
            ExitCode::Provider => 6,
            ExitCode::Offline => 7,
            ExitCode::UnsupportedVersion => 8,
            ExitCode::HashVerification => 9,
            ExitCode::Staged => 10,
            ExitCode::StagedWithCorrections => 11,
        }
    }

    pub open spec fn describe_view(self) -> Seq<char> {
        match self {
            ExitCode::Success => "success"@,
            ExitCode::Failure => "generic failure"@,
            ExitCode::Usage => "usage error"@,
            ExitCode::CheckErrors => "check reported errors"@,
            ExitCode::PackInfeasible => "pack infeasible"@,
            ExitCode::Contentions => "contentions with --fail-on-contention"@,
            ExitCode::Provider => "provider error"@,
            ExitCode::Offline => "offline violation"@,
            ExitCode::UnsupportedVersion => "unsupported format or kernel major"@,
            ExitCode::HashVerification => "hash verification failure"@,
            ExitCode::Staged => "output staged; confirmation required"@,
            ExitCode::StagedWithCorrections => "output staged; rule M lowered a unit"@,
        }
    }

    pub fn describe(self) -> (r: &'static str)
        ensures
            r@ == self.describe_view(),
    {
        match self {
            ExitCode::Success => "success",
            ExitCode::Failure => "generic failure",
            ExitCode::Usage => "usage error",
            ExitCode::CheckErrors => "check reported errors",
            ExitCode::PackInfeasible => "pack infeasible",
            ExitCode::Contentions => "contentions with --fail-on-contention",
            ExitCode::Provider => "provider error",
            ExitCode::Offline => "offline violation",
            ExitCode::UnsupportedVersion => "unsupported format or kernel major",
            ExitCode::HashVerification => "hash verification failure",
            ExitCode::Staged => "output staged; confirmation required",
            ExitCode::StagedWithCorrections => "output staged; rule M lowered a unit",
        }
    }
}

/// Why an encoding is not the deterministic one.
#[derive(Debug, Clone, Copy, PartialEq, Eq, Structural, PartialOrd, Ord, Hash)]
#[non_exhaustive]
pub enum NonDetReason {
    NonShortestInt,
    IndefiniteLength,
    UnsortedMapKeys,
    DuplicateMapKey,
    NullOptional,
    NonNfcText,
    UnsortedSet,
}

impl NonDetReason {
    /// The stable text name.
    pub open spec fn str_view(self) -> Seq<char> {
        match self {
            NonDetReason::NonShortestInt => "integer not in shortest form"@,
            NonDetReason::IndefiniteLength => "indefinite-length item"@,
            NonDetReason::UnsortedMapKeys => "map keys not strictly ascending"@,
            NonDetReason::DuplicateMapKey => "duplicate map key"@,
            NonDetReason::NullOptional => "absent optional encoded as null"@,
            NonDetReason::NonNfcText => "text is not NFC-normalised"@,
            NonDetReason::UnsortedSet => "set elements not sorted by encoded bytes"@,
        }
    }

    pub fn describe(self) -> (r: &'static str)
        ensures
            r@ == self.str_view(),
    {
        match self {
            NonDetReason::NonShortestInt => "integer not in shortest form",
            NonDetReason::IndefiniteLength => "indefinite-length item",
            NonDetReason::UnsortedMapKeys => "map keys not strictly ascending",
            NonDetReason::DuplicateMapKey => "duplicate map key",
            NonDetReason::NullOptional => "absent optional encoded as null",
            NonDetReason::NonNfcText => "text is not NFC-normalised",
            NonDetReason::UnsortedSet => "set elements not sorted by encoded bytes",
        }
    }

    /// Distinct variants have distinct names.
    pub proof fn lemma_str_view_injective()
        ensures
            forall|a: NonDetReason, b: NonDetReason| a.str_view() == b.str_view() ==> a == b,
    {
        reveal_strlit("integer not in shortest form");
        assert(NonDetReason::NonShortestInt.str_view().len() == 28);
        assert(NonDetReason::NonShortestInt.str_view()[0] == 'i');
        reveal_strlit("indefinite-length item");
        assert(NonDetReason::IndefiniteLength.str_view().len() == 22);
        assert(NonDetReason::IndefiniteLength.str_view()[0] == 'i');
        reveal_strlit("map keys not strictly ascending");
        assert(NonDetReason::UnsortedMapKeys.str_view().len() == 31);
        assert(NonDetReason::UnsortedMapKeys.str_view()[0] == 'm');
        reveal_strlit("duplicate map key");
        assert(NonDetReason::DuplicateMapKey.str_view().len() == 17);
        assert(NonDetReason::DuplicateMapKey.str_view()[0] == 'd');
        reveal_strlit("absent optional encoded as null");
        assert(NonDetReason::NullOptional.str_view().len() == 31);
        assert(NonDetReason::NullOptional.str_view()[0] == 'a');
        reveal_strlit("text is not NFC-normalised");
        assert(NonDetReason::NonNfcText.str_view().len() == 26);
        assert(NonDetReason::NonNfcText.str_view()[0] == 't');
        reveal_strlit("set elements not sorted by encoded bytes");
        assert(NonDetReason::UnsortedSet.str_view().len() == 40);
        assert(NonDetReason::UnsortedSet.str_view()[0] == 's');
        assert forall|a: NonDetReason, b: NonDetReason| a.str_view() == b.str_view() implies a == b by {
            assert(a.str_view().len() == b.str_view().len());
            assert(a.str_view()[0] == b.str_view()[0]);
        }
    }

    /// The variant whose name is exactly `s`.
    pub fn parse_description(s: &str) -> (r: Option<NonDetReason>)
        ensures
            forall|k: NonDetReason| r == Some(k) <==> k.str_view() == s@,
            r is None <==> forall|k: NonDetReason| k.str_view() != s@,
    {
        proof {
            NonDetReason::lemma_str_view_injective();
        }
        if crate::text::str_eq(s, "integer not in shortest form") {
            assert(NonDetReason::NonShortestInt.str_view() == s@);
            return Some(NonDetReason::NonShortestInt);
        }
        if crate::text::str_eq(s, "indefinite-length item") {
            assert(NonDetReason::IndefiniteLength.str_view() == s@);
            return Some(NonDetReason::IndefiniteLength);
        }
        if crate::text::str_eq(s, "map keys not strictly ascending") {
            assert(NonDetReason::UnsortedMapKeys.str_view() == s@);
            return Some(NonDetReason::UnsortedMapKeys);
        }
        if crate::text::str_eq(s, "duplicate map key") {
            assert(NonDetReason::DuplicateMapKey.str_view() == s@);
            return Some(NonDetReason::DuplicateMapKey);
        }
        if crate::text::str_eq(s, "absent optional encoded as null") {
            assert(NonDetReason::NullOptional.str_view() == s@);
            return Some(NonDetReason::NullOptional);
        }
        if crate::text::str_eq(s, "text is not NFC-normalised") {
            assert(NonDetReason::NonNfcText.str_view() == s@);
            return Some(NonDetReason::NonNfcText);
        }
        if crate::text::str_eq(s, "set elements not sorted by encoded bytes") {
            assert(NonDetReason::UnsortedSet.str_view() == s@);
            return Some(NonDetReason::UnsortedSet);
        }
        proof {
            assert forall|k: NonDetReason| k.str_view() != s@ by {
                match k {
                    NonDetReason::NonShortestInt => {},
                    NonDetReason::IndefiniteLength => {},
                    NonDetReason::UnsortedMapKeys => {},
                    NonDetReason::DuplicateMapKey => {},
                    NonDetReason::NullOptional => {},
                    NonDetReason::NonNfcText => {},
                    NonDetReason::UnsortedSet => {},
                }
            }
        }
        None
    }

}


// ---------------------------------------------------------------------------
// Identifier errors
// ---------------------------------------------------------------------------

/// Malformed identifier text.
#[derive(Debug, Clone, PartialEq, Eq)]
pub struct IdError {
    pub kind: &'static str,
    pub found: String,
}

impl IdError {
    /// The message `malformed <kind>: `<found>``.
    pub fn render(&self) -> (s: String)
        ensures
            s@ == "malformed "@ + self.kind@ + ": `"@ + self.found@ + "`"@,
    {
        let mut s = owned("malformed ");
        push_str(&mut s, self.kind);
        push_str(&mut s, ": `");
        push_str(&mut s, self.found.as_str());
        push_str(&mut s, "`");
        s
    }
}

// ---------------------------------------------------------------------------
// Shape errors
// ---------------------------------------------------------------------------

/// Local, store-free validation performed by `UnitCore::new`.
#[derive(Debug, Clone, Copy, PartialEq, Eq, Structural)]
#[non_exhaustive]
pub enum ShapeError {
    MissingGist,
    GistTooLong { max: usize, actual: usize },
    DetailWithoutBody,
    GroundsRequired,
    SourceRequired,
    UnfoundedAuthored,
}

impl ShapeError {
    pub open spec fn code_view(self) -> Code {
        match self {
            ShapeError::MissingGist => Code::E021,
            ShapeError::GistTooLong { .. } => Code::E022,
            ShapeError::DetailWithoutBody => Code::E023,
            ShapeError::GroundsRequired => Code::E031,
            ShapeError::SourceRequired => Code::E032,
            ShapeError::UnfoundedAuthored => Code::E034,
        }
    }

    pub fn code(&self) -> (c: Code)
        ensures
            c == self.code_view(),
    {
        match self {
            ShapeError::MissingGist => Code::E021,
            ShapeError::GistTooLong { .. } => Code::E022,
            ShapeError::DetailWithoutBody => Code::E023,
            ShapeError::GroundsRequired => Code::E031,
            ShapeError::SourceRequired => Code::E032,
            ShapeError::UnfoundedAuthored => Code::E034,
        }
    }

    /// The human-readable message.
    pub fn render(&self) -> (s: String)
        ensures
            s@ == (match *self {
                ShapeError::GistTooLong { max, actual } => self.code_view().str_view()
                    + ": gist is "@ + decimal(actual as nat) + " tokens, limit is "@ + decimal(
                    max as nat,
                ),
                _ => self.code_view().str_view() + ": "@ + self.code_view().message_view(),
            }),
    {
        let mut s = owned(self.code().as_str());
        match self {
            ShapeError::GistTooLong { max, actual } => {
                push_str(&mut s, ": gist is ");
                push_decimal(&mut s, *actual as u64);
                push_str(&mut s, " tokens, limit is ");
                push_decimal(&mut s, *max as u64);
            },
            _ => {
                push_str(&mut s, ": ");
                push_str(&mut s, self.code().message());
            },
        }
        s
    }
}

// ---------------------------------------------------------------------------
// Parse
// ---------------------------------------------------------------------------

#[derive(Debug, Clone, PartialEq, Eq)]
#[non_exhaustive]
pub enum ParseError {
    /// `SMY-E001`
    Syntax { span: Span, message: String },
    /// `SMY-E002`
    UnsupportedKernelMajor { found: String },
    /// `SMY-E003`
    UnsupportedFormatVersion { found: String },
}

impl ParseError {
    pub fn code(&self) -> (c: Code)
        ensures
            c == (match self {
                ParseError::Syntax { .. } => Code::E001,
                ParseError::UnsupportedKernelMajor { .. } => Code::E002,
                ParseError::UnsupportedFormatVersion { .. } => Code::E003,
            }),
    {
        match self {
            ParseError::Syntax { .. } => Code::E001,
            ParseError::UnsupportedKernelMajor { .. } => Code::E002,
            ParseError::UnsupportedFormatVersion { .. } => Code::E003,
        }
    }

    /// A version mismatch exits 8; anything else a parse can hard-fail on is a check error.
    pub fn into_exit_code(&self) -> (c: ExitCode)
        ensures
            c == (match self {
                ParseError::Syntax { .. } => ExitCode::CheckErrors,
                _ => ExitCode::UnsupportedVersion,
            }),
    {
        match self {
            ParseError::UnsupportedKernelMajor { .. }
            | ParseError::UnsupportedFormatVersion { .. } => ExitCode::UnsupportedVersion,
            ParseError::Syntax { .. } => ExitCode::CheckErrors,
        }
    }
}

// ---------------------------------------------------------------------------
// Codec
// ---------------------------------------------------------------------------

#[derive(Debug, Clone, Copy, PartialEq, Eq, Structural)]
#[non_exhaustive]
pub enum CodecError {
    /// `SMY-E004`
    MalformedEnvelope { at: usize },
    /// `SMY-E080`: the reader rejects rather than normalises.
    NonDeterministic { at: usize, reason: NonDetReason },
    /// `SMY-E081`
    Float { at: usize },
    /// `SMY-E071`: a byte string where a uid belongs is not 32 bytes wide.
    TruncatedUid { at: usize, len: usize },
    /// Input ended mid-item.
    Truncated { at: usize },
    /// Containers nest deeper than the reader will walk.
    NestingTooDeep { at: usize, limit: usize },
}

impl CodecError {
    pub open spec fn code_view(self) -> Code {
        match self {
            CodecError::MalformedEnvelope { .. } | CodecError::Truncated { .. }
            | CodecError::NestingTooDeep { .. } => Code::E004,
            CodecError::NonDeterministic { .. } => Code::E080,
            CodecError::Float { .. } => Code::E081,
            CodecError::TruncatedUid { .. } => Code::E071,
        }
    }

    pub fn code(&self) -> (c: Code)
        ensures
            c == self.code_view(),
    {
        match self {
            CodecError::MalformedEnvelope { .. } | CodecError::Truncated { .. }
            | CodecError::NestingTooDeep { .. } => Code::E004,
            CodecError::NonDeterministic { .. } => Code::E080,
            CodecError::Float { .. } => Code::E081,
            CodecError::TruncatedUid { .. } => Code::E071,
        }
    }

    /// The human-readable message.
    pub fn render(&self) -> (s: String)
        ensures
            s@ == self.code_view().str_view() + (match *self {
                CodecError::MalformedEnvelope { at } => ": malformed envelope at byte "@ + decimal(
                    at as nat,
                ),
                CodecError::NonDeterministic { at, reason } => ": "@ + reason.str_view()
                    + " at byte "@ + decimal(at as nat),
                CodecError::Float { at } => ": float is not binary32 quantised to 1/1024, at byte "@
                    + decimal(at as nat),
                CodecError::Truncated { at } => ": input ends mid-item at byte "@ + decimal(
                    at as nat,
                ),
                CodecError::TruncatedUid { at, len } => ": "@ + decimal(len as nat)
                    + "-byte uid at byte "@ + decimal(at as nat) + ", expected 32"@,
                CodecError::NestingTooDeep { at, limit } => ": nesting deeper than "@ + decimal(
                    limit as nat,
                ) + " at byte "@ + decimal(at as nat),
            }),
    {
        let mut s = owned(self.code().as_str());
        match self {
            CodecError::MalformedEnvelope { at } => {
                push_str(&mut s, ": malformed envelope at byte ");
                push_decimal(&mut s, *at as u64);
            },
            CodecError::NonDeterministic { at, reason } => {
                push_str(&mut s, ": ");
                push_str(&mut s, reason.describe());
                push_str(&mut s, " at byte ");
                push_decimal(&mut s, *at as u64);
            },
            CodecError::Float { at } => {
                push_str(&mut s, ": float is not binary32 quantised to 1/1024, at byte ");
                push_decimal(&mut s, *at as u64);
            },
            CodecError::Truncated { at } => {
                push_str(&mut s, ": input ends mid-item at byte ");
                push_decimal(&mut s, *at as u64);
            },
            CodecError::TruncatedUid { at, len } => {
                push_str(&mut s, ": ");
                push_decimal(&mut s, *len as u64);
                push_str(&mut s, "-byte uid at byte ");
                push_decimal(&mut s, *at as u64);
                push_str(&mut s, ", expected 32");
            },
            CodecError::NestingTooDeep { at, limit } => {
                push_str(&mut s, ": nesting deeper than ");
                push_decimal(&mut s, *limit as u64);
                push_str(&mut s, " at byte ");
                push_decimal(&mut s, *at as u64);
            },
        }
        proof {
            assert(s@ =~= self.code_view().str_view() + (match *self {
                CodecError::MalformedEnvelope { at } => ": malformed envelope at byte "@ + decimal(
                    at as nat,
                ),
                CodecError::NonDeterministic { at, reason } => ": "@ + reason.str_view()
                    + " at byte "@ + decimal(at as nat),
                CodecError::Float { at } => ": float is not binary32 quantised to 1/1024, at byte "@
                    + decimal(at as nat),
                CodecError::Truncated { at } => ": input ends mid-item at byte "@ + decimal(
                    at as nat,
                ),
                CodecError::TruncatedUid { at, len } => ": "@ + decimal(len as nat)
                    + "-byte uid at byte "@ + decimal(at as nat) + ", expected 32"@,
                CodecError::NestingTooDeep { at, limit } => ": nesting deeper than "@ + decimal(
                    limit as nat,
                ) + " at byte "@ + decimal(at as nat),
            }));
        }
        s
    }
}

// ---------------------------------------------------------------------------
// Integrity
// ---------------------------------------------------------------------------

#[derive(Debug, Clone, PartialEq, Eq)]
#[non_exhaustive]
pub enum IntegrityError {
    /// `SMY-E060`
    Dangling { from: Uid, to: Uid },
    /// `SMY-E061`
    DepCycle { members: Vec<Uid> },
    /// `SMY-E070`
    HashMismatch { stored: Uid, recomputed: Uid },
    /// `SMY-E071`
    TruncatedUid { found: String },
    /// `SMY-E072`
    AmbiguousPrefix { prefix: String, candidates: Vec<Uid> },
}

impl IntegrityError {
    pub fn code(&self) -> (c: Code)
        ensures
            c == (match self {
                IntegrityError::Dangling { .. } => Code::E060,
                IntegrityError::DepCycle { .. } => Code::E061,
                IntegrityError::HashMismatch { .. } => Code::E070,
                IntegrityError::TruncatedUid { .. } => Code::E071,
                IntegrityError::AmbiguousPrefix { .. } => Code::E072,
            }),
    {
        match self {
            IntegrityError::Dangling { .. } => Code::E060,
            IntegrityError::DepCycle { .. } => Code::E061,
            IntegrityError::HashMismatch { .. } => Code::E070,
            IntegrityError::TruncatedUid { .. } => Code::E071,
            IntegrityError::AmbiguousPrefix { .. } => Code::E072,
        }
    }
}

// ---------------------------------------------------------------------------
// Pack
// ---------------------------------------------------------------------------

#[derive(Debug, Clone, Copy, PartialEq, Eq)]
#[non_exhaustive]
pub enum PackError {
    /// `SMY-E200`: carries the minimum feasible budget so a caller can retry.
    Infeasible { budget: u64, required: u64 },
    /// `SMY-E201`
    FocusAbsent { uid: Uid },
}

impl PackError {
    pub fn code(&self) -> (c: Code)
        ensures
            c == (match self {
                PackError::Infeasible { .. } => Code::E200,
                PackError::FocusAbsent { .. } => Code::E201,
            }),
    {
        match self {
            PackError::Infeasible { .. } => Code::E200,
            PackError::FocusAbsent { .. } => Code::E201,
        }
    }

    /// An infeasible floor exits 4; a missing focus unit is an ordinary failure.
    pub fn code_exit(&self) -> (c: ExitCode)
        ensures
            c == (match self {
                PackError::Infeasible { .. } => ExitCode::PackInfeasible,
                PackError::FocusAbsent { .. } => ExitCode::Failure,
            }),
    {
        match self {
            PackError::Infeasible { .. } => ExitCode::PackInfeasible,
            PackError::FocusAbsent { .. } => ExitCode::Failure,
        }
    }

    /// The human-readable message.
    pub fn render(&self) -> (s: String)
        ensures
            self matches PackError::Infeasible { budget, required } ==> s@ == "SMY-E200"@
                + ": budget "@ + decimal(budget as nat) + " but the mandatory floor needs "@
                + decimal(required as nat),
            self matches PackError::FocusAbsent { uid } ==> s@ == "SMY-E201"@ + ": "@
                + uid.text_form(26),
    {
        match self {
            PackError::Infeasible { budget, required } => {
                let mut s = owned("SMY-E200");
                push_str(&mut s, ": budget ");
                push_decimal(&mut s, *budget);
                push_str(&mut s, " but the mandatory floor needs ");
                push_decimal(&mut s, *required);
                s
            },
            PackError::FocusAbsent { uid } => {
                let mut s = owned("SMY-E201");
                push_str(&mut s, ": ");
                let u = uid.short();
                push_str(&mut s, u.as_str());
                s
            },
        }
    }
}

// ---------------------------------------------------------------------------
// Merge
// ---------------------------------------------------------------------------

#[derive(Debug, Clone, PartialEq, Eq)]
#[non_exhaustive]
pub enum MergeError {
    /// `SMY-E050`
    OrphanedGrounds { uid: Uid },
    /// `SMY-E051`
    AuthorityUnsatisfied { uid: Uid, required: String },
    /// Contentions were detected and the caller asked to fail on them.
    ContentionsPresent { count: usize },
}

impl MergeError {
    pub fn code(&self) -> (c: Option<Code>)
        ensures
            c == (match self {
                MergeError::OrphanedGrounds { .. } => Some(Code::E050),
                MergeError::AuthorityUnsatisfied { .. } => Some(Code::E051),
                MergeError::ContentionsPresent { .. } => None,
            }),
    {
        match self {
            MergeError::OrphanedGrounds { .. } => Some(Code::E050),
            MergeError::AuthorityUnsatisfied { .. } => Some(Code::E051),
            MergeError::ContentionsPresent { .. } => None,
        }
    }
}

// ---------------------------------------------------------------------------
// Render
// ---------------------------------------------------------------------------

#[derive(Debug, Clone, PartialEq, Eq)]
#[non_exhaustive]
pub enum RenderError {
    /// `SMY-E210`: raised at profile load.
    ProfileFlattensStatus { profile: String, status: String },
    /// The requested target is not compiled in.
    UnsupportedTarget { target: String },
    /// A backend failed to emit.
    Backend { target: String, message: String },
}

impl RenderError {
    pub fn code(&self) -> (c: Option<Code>)
        ensures
            c == (match self {
                RenderError::ProfileFlattensStatus { .. } => Some(Code::E210),
                _ => None,
            }),
    {
        match self {
            RenderError::ProfileFlattensStatus { .. } => Some(Code::E210),
            _ => None,
        }
    }
}

// ---------------------------------------------------------------------------
// Provider
// ---------------------------------------------------------------------------

#[derive(Debug, Clone, PartialEq, Eq)]
#[non_exhaustive]
pub enum ProviderError {
    Unreachable,
    Unauthorized,
    RateLimited { retry_after: Option<core::time::Duration> },
    ContextExceeded { limit: usize, requested: usize },
    StructuredUnsupported,
    OfflineViolation,
    Malformed(String),
    Upstream(u16, String),
}

impl ProviderError {
    pub fn code(&self) -> (c: Option<Code>)
        ensures
            c == (match self {
                ProviderError::Unreachable => Some(Code::E300),
                ProviderError::OfflineViolation => Some(Code::E301),
                ProviderError::ContextExceeded { .. } => Some(Code::E302),
                ProviderError::StructuredUnsupported => Some(Code::W303),
                _ => None,
            }),
    {
        match self {
            ProviderError::Unreachable => Some(Code::E300),
            ProviderError::OfflineViolation => Some(Code::E301),
            ProviderError::ContextExceeded { .. } => Some(Code::E302),
            ProviderError::StructuredUnsupported => Some(Code::W303),
            _ => None,
        }
    }

    /// Fallback fires only on `Unreachable`, never on a configuration error.
    pub fn is_fallback_eligible(&self) -> (r: bool)
        ensures
            r == (self is Unreachable),
    {
        match self {
            ProviderError::Unreachable => true,
            _ => false,
        }
    }

    /// An offline violation exits 7 and everything else a provider can do exits 6.
    pub fn exit_code(&self) -> (c: ExitCode)
        ensures
            c == (if self is OfflineViolation {
                ExitCode::Offline
            } else {
                ExitCode::Provider
            }),
    {
        match self {
            ProviderError::OfflineViolation => ExitCode::Offline,
            _ => ExitCode::Provider,
        }
    }
}

// ---------------------------------------------------------------------------
// The unified error
// ---------------------------------------------------------------------------

#[derive(Debug)]
#[non_exhaustive]
pub enum Error {
    Id(IdError),
    Parse(ParseError),
    Codec(CodecError),
    Shape(ShapeError),
    Integrity(IntegrityError),
    Check(Report),
    Pack(PackError),
    Merge(MergeError),
    Render(RenderError),
    Provider(ProviderError),
    Io(std::io::Error),
}

impl Error {
    /// The exit code the CLI reports for this error.
    pub open spec fn exit_code_view(&self) -> ExitCode {
        match self {
            Error::Parse(ParseError::UnsupportedKernelMajor { .. })
            | Error::Parse(ParseError::UnsupportedFormatVersion { .. }) => ExitCode::UnsupportedVersion,
            Error::Check(_) => ExitCode::CheckErrors,
            Error::Integrity(IntegrityError::HashMismatch { .. })
            | Error::Integrity(IntegrityError::TruncatedUid { .. }) => ExitCode::HashVerification,
            Error::Pack(PackError::Infeasible { .. }) => ExitCode::PackInfeasible,
            Error::Merge(MergeError::ContentionsPresent { .. }) => ExitCode::Contentions,
            Error::Provider(ProviderError::OfflineViolation) => ExitCode::Offline,
            Error::Provider(_) => ExitCode::Provider,
            _ => ExitCode::Failure,
        }
    }

    pub fn exit_code(&self) -> (c: ExitCode)
        ensures
            c == self.exit_code_view(),
    {
        match self {
            Error::Parse(ParseError::UnsupportedKernelMajor { .. })
            | Error::Parse(ParseError::UnsupportedFormatVersion { .. }) => ExitCode::UnsupportedVersion,
            Error::Check(_) => ExitCode::CheckErrors,
            Error::Integrity(IntegrityError::HashMismatch { .. })
            | Error::Integrity(IntegrityError::TruncatedUid { .. }) => ExitCode::HashVerification,
            Error::Pack(PackError::Infeasible { .. }) => ExitCode::PackInfeasible,
            Error::Merge(MergeError::ContentionsPresent { .. }) => ExitCode::Contentions,
            Error::Provider(ProviderError::OfflineViolation) => ExitCode::Offline,
            Error::Provider(_) => ExitCode::Provider,
            _ => ExitCode::Failure,
        }
    }

    /// Whether the error wraps an underlying error of its own.
    pub fn has_source(&self) -> (r: bool)
        ensures
            r == !(self is Check),
    {
        match self {
            Error::Check(_) => false,
            _ => true,
        }
    }
}

impl From<IdError> for Error {
    fn from(e: IdError) -> (r: Error) {
        Error::Id(e)
    }
}

impl vstd::std_specs::convert::FromSpecImpl<IdError> for Error {
    open spec fn obeys_from_spec() -> bool {
        true
    }

    open spec fn from_spec(e: IdError) -> Error {
        Error::Id(e)
    }
}

impl From<ParseError> for Error {
    fn from(e: ParseError) -> (r: Error) {
        Error::Parse(e)
    }
}

impl vstd::std_specs::convert::FromSpecImpl<ParseError> for Error {
    open spec fn obeys_from_spec() -> bool {
        true
    }

    open spec fn from_spec(e: ParseError) -> Error {
        Error::Parse(e)
    }
}

impl From<CodecError> for Error {
    fn from(e: CodecError) -> (r: Error) {
        Error::Codec(e)
    }
}

impl vstd::std_specs::convert::FromSpecImpl<CodecError> for Error {
    open spec fn obeys_from_spec() -> bool {
        true
    }

    open spec fn from_spec(e: CodecError) -> Error {
        Error::Codec(e)
    }
}

impl From<ShapeError> for Error {
    fn from(e: ShapeError) -> (r: Error) {
        Error::Shape(e)
    }
}

impl vstd::std_specs::convert::FromSpecImpl<ShapeError> for Error {
    open spec fn obeys_from_spec() -> bool {
        true
    }

    open spec fn from_spec(e: ShapeError) -> Error {
        Error::Shape(e)
    }
}

impl From<IntegrityError> for Error {
    fn from(e: IntegrityError) -> (r: Error) {
        Error::Integrity(e)
    }
}

impl vstd::std_specs::convert::FromSpecImpl<IntegrityError> for Error {
    open spec fn obeys_from_spec() -> bool {
        true
    }

    open spec fn from_spec(e: IntegrityError) -> Error {
        Error::Integrity(e)
    }
}

impl From<PackError> for Error {
    fn from(e: PackError) -> (r: Error) {
        Error::Pack(e)
    }
}

impl vstd::std_specs::convert::FromSpecImpl<PackError> for Error {
    open spec fn obeys_from_spec() -> bool {
        true
    }

    open spec fn from_spec(e: PackError) -> Error {
        Error::Pack(e)
    }
}

impl From<MergeError> for Error {
    fn from(e: MergeError) -> (r: Error) {
        Error::Merge(e)
    }
}

impl vstd::std_specs::convert::FromSpecImpl<MergeError> for Error {
    open spec fn obeys_from_spec() -> bool {
        true
    }

    open spec fn from_spec(e: MergeError) -> Error {
        Error::Merge(e)
    }
}

impl From<RenderError> for Error {
    fn from(e: RenderError) -> (r: Error) {
        Error::Render(e)
    }
}

impl vstd::std_specs::convert::FromSpecImpl<RenderError> for Error {
    open spec fn obeys_from_spec() -> bool {
        true
    }

    open spec fn from_spec(e: RenderError) -> Error {
        Error::Render(e)
    }
}

impl From<ProviderError> for Error {
    fn from(e: ProviderError) -> (r: Error) {
        Error::Provider(e)
    }
}

impl vstd::std_specs::convert::FromSpecImpl<ProviderError> for Error {
    open spec fn obeys_from_spec() -> bool {
        true
    }

    open spec fn from_spec(e: ProviderError) -> Error {
        Error::Provider(e)
    }
}

impl From<Report> for Error {
    fn from(e: Report) -> (r: Error) {
        Error::Check(e)
    }
}

impl vstd::std_specs::convert::FromSpecImpl<Report> for Error {
    open spec fn obeys_from_spec() -> bool {
        true
    }

    open spec fn from_spec(e: Report) -> Error {
        Error::Check(e)
    }
}

} // verus!
