//! The check pipeline's vocabulary: its passes, what a run is asked to do, and the
//! conformance classes a report is judged against. Checking verifies consistency, never
//! correctness: it can say a claim outruns its weakest ground, not whether the claim is true.

use vstd::prelude::*;

pub mod trust;
pub mod epistemics;
pub mod extension;
pub mod granularity;
pub mod shape;

use crate::check::extension::ConsumerProfile;
use crate::diag::{Code, Diagnostic, Report, Subject};
use crate::ids::{Label, Uid};
use crate::text::{chars_of, str_eq};
use crate::types::view::GranularityProfile;

verus! {

/// The ten passes. A pass that has not landed reports itself unavailable rather than
/// passing silently.
#[derive(Debug, Clone, Copy, PartialEq, Eq, Structural, PartialOrd, Ord, Hash)]
#[non_exhaustive]
pub enum Pass {
    /// Envelope and codec; runs at read time, not here.
    Codec,
    /// Reference integrity.
    Integrity,
    /// Shape.
    Shape,
    /// Closure of bodies over their references.
    Closure,
    /// Granularity.
    Granularity,
    /// Epistemic monotonicity.
    Epistemics,
    /// The trust ceiling.
    Trust,
    /// Retraction integrity.
    Retraction,
    /// Extension and conformance.
    Extension,
    /// Hash verification.
    Hashes,
}

impl Pass {
    /// Every pass, in order.
    pub const ALL: [Pass; 10] = [
        Pass::Codec,
        Pass::Integrity,
        Pass::Shape,
        Pass::Closure,
        Pass::Granularity,
        Pass::Epistemics,
        Pass::Trust,
        Pass::Retraction,
        Pass::Extension,
        Pass::Hashes,
    ];

    /// The passes this build runs.
    pub const IMPLEMENTED: [Pass; 7] = [
        Pass::Integrity,
        Pass::Shape,
        Pass::Closure,
        Pass::Granularity,
        Pass::Epistemics,
        Pass::Trust,
        Pass::Extension,
    ];

    /// The pass's number, one-based, in running order.
    pub open spec fn number_view(self) -> u8 {
        match self {
            Pass::Codec => 1u8,
            Pass::Integrity => 2u8,
            Pass::Shape => 3u8,
            Pass::Closure => 4u8,
            Pass::Granularity => 5u8,
            Pass::Epistemics => 6u8,
            Pass::Trust => 7u8,
            Pass::Retraction => 8u8,
            Pass::Extension => 9u8,
            Pass::Hashes => 10u8,
        }
    }

    pub fn number(self) -> (r: u8)
        ensures
            r == self.number_view(),
    {
        match self {
            Pass::Codec => 1,
            Pass::Integrity => 2,
            Pass::Shape => 3,
            Pass::Closure => 4,
            Pass::Granularity => 5,
            Pass::Epistemics => 6,
            Pass::Trust => 7,
            Pass::Retraction => 8,
            Pass::Extension => 9,
            Pass::Hashes => 10,
        }
    }

    /// The pass's name.
    pub open spec fn str_view(self) -> Seq<char> {
        match self {
            Pass::Codec => "codec"@,
            Pass::Integrity => "integrity"@,
            Pass::Shape => "shape"@,
            Pass::Closure => "closure"@,
            Pass::Granularity => "granularity"@,
            Pass::Epistemics => "epistemics"@,
            Pass::Trust => "trust"@,
            Pass::Retraction => "retraction"@,
            Pass::Extension => "extension"@,
            Pass::Hashes => "hashes"@,
        }
    }

    pub fn as_str(self) -> (r: &'static str)
        ensures
            r@ == self.str_view(),
    {
        match self {
            Pass::Codec => "codec",
            Pass::Integrity => "integrity",
            Pass::Shape => "shape",
            Pass::Closure => "closure",
            Pass::Granularity => "granularity",
            Pass::Epistemics => "epistemics",
            Pass::Trust => "trust",
            Pass::Retraction => "retraction",
            Pass::Extension => "extension",
            Pass::Hashes => "hashes",
        }
    }

    /// The pass named `s`.
    pub fn parse(s: &str) -> (r: Option<Pass>)
        ensures
            match r {
                Some(p) => p.str_view() == s@,
                None => forall|p: Pass| p.str_view() != s@,
            },
    {
        if str_eq(s, "codec") {
            return Some(Pass::Codec);
        }
        if str_eq(s, "integrity") {
            return Some(Pass::Integrity);
        }
        if str_eq(s, "shape") {
            return Some(Pass::Shape);
        }
        if str_eq(s, "closure") {
            return Some(Pass::Closure);
        }
        if str_eq(s, "granularity") {
            return Some(Pass::Granularity);
        }
        if str_eq(s, "epistemics") {
            return Some(Pass::Epistemics);
        }
        if str_eq(s, "trust") {
            return Some(Pass::Trust);
        }
        if str_eq(s, "retraction") {
            return Some(Pass::Retraction);
        }
        if str_eq(s, "extension") {
            return Some(Pass::Extension);
        }
        if str_eq(s, "hashes") {
            return Some(Pass::Hashes);
        }
        proof {
            reveal_strlit("codec");
            reveal_strlit("integrity");
            reveal_strlit("shape");
            reveal_strlit("closure");
            reveal_strlit("granularity");
            reveal_strlit("epistemics");
            reveal_strlit("trust");
            reveal_strlit("retraction");
            reveal_strlit("extension");
            reveal_strlit("hashes");
            assert forall|p: Pass| p.str_view() != s@ by {
                match p {
                    Pass::Codec => {},
                    Pass::Integrity => {},
                    Pass::Shape => {},
                    Pass::Closure => {},
                    Pass::Granularity => {},
                    Pass::Epistemics => {},
                    Pass::Trust => {},
                    Pass::Retraction => {},
                    Pass::Extension => {},
                    Pass::Hashes => {},
                }
            }
        }
        None
    }

    /// The passes that have landed: all but codec, retraction and hashes.
    pub open spec fn implemented_view(self) -> bool {
        !(self == Pass::Codec || self == Pass::Retraction || self == Pass::Hashes)
    }

    pub fn is_implemented(self) -> (r: bool)
        ensures
            r == self.implemented_view(),
    {
        match self {
            Pass::Codec | Pass::Retraction | Pass::Hashes => false,
            _ => true,
        }
    }
}

/// The conformance classes. A minimal downstream agent needs `Consume`; the reference
/// implementation targets `Full`.
#[derive(Debug, Clone, Copy, PartialEq, Eq, Structural, PartialOrd, Ord, Hash)]
#[non_exhaustive]
pub enum ConformanceClass {
    Read,
    Consume,
    Produce,
    Merge,
    Full,
}

/// ASCII letters folded to lowercase.
pub open spec fn ascii_lower(c: char) -> char {
    if 'A' <= c && c <= 'Z' {
        ((c as u32) + 32) as char
    } else {
        c
    }
}

/// Equality ignoring ASCII case.
pub open spec fn eq_ascii_case(a: Seq<char>, b: Seq<char>) -> bool {
    a.len() == b.len() && forall|i: int| 0 <= i < a.len() ==> #[trigger] ascii_lower(a[i]) == ascii_lower(b[i])
}

fn lower(c: char) -> (r: char)
    ensures
        r == ascii_lower(c),
{
    if 'A' <= c && c <= 'Z' {
        ((c as u8) + 32) as char
    } else {
        c
    }
}

/// Whether `a` and `b` are equal ignoring ASCII case.
pub fn eq_ignore_ascii_case(a: &str, b: &str) -> (r: bool)
    ensures
        r == eq_ascii_case(a@, b@),
{
    let x = chars_of(a);
    let y = chars_of(b);
    if x.len() != y.len() {
        return false;
    }
    let mut i: usize = 0;
    while i < x.len()
        invariant
            i <= x.len(),
            x.len() == y.len(),
            x@ == a@,
            y@ == b@,
            forall|j: int| 0 <= j < i ==> #[trigger] ascii_lower(x@[j]) == ascii_lower(y@[j]),
        decreases x.len() - i,
    {
        if lower(x[i]) != lower(y[i]) {
            return false;
        }
        i = i + 1;
    }
    true
}

/// The codes every class refuses: structural defects.
pub open spec fn structural(c: Code) -> bool {
    c == Code::E001 || c == Code::E002 || c == Code::E003 || c == Code::E004 || c == Code::E080 || c
        == Code::E081 || c == Code::E070 || c == Code::E071 || c == Code::E060 || c == Code::E061 || c
        == Code::E011
}

/// Epistemic violations, which a consumer must enforce.
pub open spec fn epistemic(c: Code) -> bool {
    c == Code::E030 || c == Code::E033 || c == Code::E034 || c == Code::E012
}

/// Shape violations, which a producer must not emit.
pub open spec fn shape_code(c: Code) -> bool {
    c == Code::E020 || c == Code::E021 || c == Code::E022 || c == Code::E023 || c == Code::E031 || c
        == Code::E032 || c == Code::E040
}

/// Lifecycle violations, which a merger must enforce.
pub open spec fn lifecycle(c: Code) -> bool {
    c == Code::E050 || c == Code::E051
}

/// Rendering violations.
pub open spec fn render(c: Code) -> bool {
    c == Code::E210
}

impl ConformanceClass {
    /// Every class, weakest first.
    pub const ALL: [ConformanceClass; 5] = [
        ConformanceClass::Read,
        ConformanceClass::Consume,
        ConformanceClass::Produce,
        ConformanceClass::Merge,
        ConformanceClass::Full,
    ];

    /// The class's name.
    pub open spec fn str_view(self) -> Seq<char> {
        match self {
            ConformanceClass::Read => "C-Read"@,
            ConformanceClass::Consume => "C-Consume"@,
            ConformanceClass::Produce => "C-Produce"@,
            ConformanceClass::Merge => "C-Merge"@,
            ConformanceClass::Full => "C-Full"@,
        }
    }

    pub fn as_str(self) -> (r: &'static str)
        ensures
            r@ == self.str_view(),
    {
        match self {
            ConformanceClass::Read => "C-Read",
            ConformanceClass::Consume => "C-Consume",
            ConformanceClass::Produce => "C-Produce",
            ConformanceClass::Merge => "C-Merge",
            ConformanceClass::Full => "C-Full",
        }
    }

    /// The class whose name is `s`, ignoring ASCII case.
    pub fn parse(s: &str) -> (r: Option<ConformanceClass>)
        ensures
            match r {
                Some(c) => eq_ascii_case(c.str_view(), s@),
                None => forall|c: ConformanceClass| !eq_ascii_case(c.str_view(), s@),
            },
    {
        if eq_ignore_ascii_case("C-Read", s) {
            return Some(ConformanceClass::Read);
        }
        if eq_ignore_ascii_case("C-Consume", s) {
            return Some(ConformanceClass::Consume);
        }
        if eq_ignore_ascii_case("C-Produce", s) {
            return Some(ConformanceClass::Produce);
        }
        if eq_ignore_ascii_case("C-Merge", s) {
            return Some(ConformanceClass::Merge);
        }
        if eq_ignore_ascii_case("C-Full", s) {
            return Some(ConformanceClass::Full);
        }
        proof {
            assert forall|c: ConformanceClass| !eq_ascii_case(c.str_view(), s@) by {
                match c {
                    ConformanceClass::Read => {},
                    ConformanceClass::Consume => {},
                    ConformanceClass::Produce => {},
                    ConformanceClass::Merge => {},
                    ConformanceClass::Full => {},
                }
            }
        }
        None
    }

    /// Every class builds on C-Read.
    pub fn requires_read(self) -> (r: bool)
        ensures
            r,
    {
        true
    }

    /// The codes that make a store unusable at this class: C-Read only has to parse and
    /// verify, so an epistemic violation does not stop it; C-Consume must enforce rules M and R,
    /// so the same violation makes the store unconsumable.
    pub open spec fn forbids_view(self, c: Code) -> bool {
        match self {
            ConformanceClass::Read => structural(c),
            ConformanceClass::Consume => structural(c) || epistemic(c),
            ConformanceClass::Produce => structural(c) || epistemic(c) || shape_code(c),
            ConformanceClass::Merge => structural(c) || epistemic(c) || lifecycle(c),
            ConformanceClass::Full => structural(c) || epistemic(c) || shape_code(c) || lifecycle(c) || render(c),
        }
    }

    /// Whether a store carrying `code` is unusable at this class.
    pub fn forbids(self, code: Code) -> (r: bool)
        ensures
            r == self.forbids_view(code),
    {
        let s = match code {
            Code::E001 | Code::E002 | Code::E003 | Code::E004 | Code::E080 | Code::E081 | Code::E070 | Code::E071
            | Code::E060 | Code::E061 | Code::E011 => true,
            _ => false,
        };
        let e = match code {
            Code::E030 | Code::E033 | Code::E034 | Code::E012 => true,
            _ => false,
        };
        let sh = match code {
            Code::E020 | Code::E021 | Code::E022 | Code::E023 | Code::E031 | Code::E032 | Code::E040 => true,
            _ => false,
        };
        let l = match code {
            Code::E050 | Code::E051 => true,
            _ => false,
        };
        let r = match code {
            Code::E210 => true,
            _ => false,
        };
        match self {
            ConformanceClass::Read => s,
            ConformanceClass::Consume => s || e,
            ConformanceClass::Produce => s || e || sh,
            ConformanceClass::Merge => s || e || l,
            ConformanceClass::Full => s || e || sh || l || r,
        }
    }
}

/// A diagnostic about unit `uid` with this code, message and suggestion, at the code's
/// severity.
pub open spec fn unit_diag(d: Diagnostic, code: Code, uid: Uid, message: Seq<char>, suggestion: Option<Seq<char>>) -> bool {
    &&& d.code == code
    &&& d.severity == code.severity_view()
    &&& d.subject == Subject::Unit(uid)
    &&& d.message@ == message
    &&& match d.suggestion {
        Some(s) => suggestion == Some(s@),
        None => suggestion is None,
    }
}

/// `after` is `before` with one diagnostic about `uid` appended for each finding, in order.
pub open spec fn reported(before: Seq<Diagnostic>, after: Seq<Diagnostic>, uid: Uid, findings: Seq<(Code, Seq<char>, Option<Seq<char>>)>) -> bool {
    &&& after.len() == before.len() + findings.len()
    &&& after.take(before.len() as int) == before
    &&& forall|i: int| 0 <= i < findings.len() ==> unit_diag(#[trigger] after[before.len() + i], findings[i].0, uid, findings[i].1, findings[i].2)
}

/// Whether a store is consumable at a conformance class, and which codes stop it.
#[derive(Debug, Clone, PartialEq, Eq)]
pub struct ConformanceVerdict {
    pub class: ConformanceClass,
    pub passed: bool,
    /// The codes present in the store that this class forbids, in registry order.
    pub blocking: Vec<Code>,
}

/// Whether an error with code `c` is in the report and `class` forbids it.
pub open spec fn blocks(report: Report, class: ConformanceClass, c: Code) -> bool {
    class.forbids_view(c) && exists|i: int|
        0 <= i < report.diagnostics@.len() && #[trigger] report.diagnostics@[i].code == c
            && report.diagnostics@[i].severity == crate::diag::Severity::Error
}

/// Whether class `lo` sits below class `hi`: C-Read below all, C-Consume below C-Produce and
/// C-Merge, and those below C-Full.
pub open spec fn class_below(lo: ConformanceClass, hi: ConformanceClass) -> bool {
    lo == hi || lo == ConformanceClass::Read || hi == ConformanceClass::Full || (lo == ConformanceClass::Consume && (hi
        == ConformanceClass::Produce || hi == ConformanceClass::Merge))
}

/// The classes nest: a class forbids everything a class below it forbids.
pub proof fn lemma_classes_nest(lo: ConformanceClass, hi: ConformanceClass, c: Code)
    requires
        class_below(lo, hi),
    ensures
        lo.forbids_view(c) ==> hi.forbids_view(c),
{
}

/// A class forbids errors only: no warning ever blocks conformance.
pub proof fn lemma_only_errors_forbidden(k: ConformanceClass, c: Code)
    ensures
        k.forbids_view(c) ==> c.severity_view() == crate::diag::Severity::Error,
{
}

/// A store that conforms at a class conforms at every class below it: whatever blocks the
/// lower class blocks the higher one.
pub proof fn lemma_conformance_nests(report: Report, lo: ConformanceClass, hi: ConformanceClass, c: Code)
    requires
        class_below(lo, hi),
    ensures
        blocks(report, lo, c) ==> blocks(report, hi, c),
{
    lemma_classes_nest(lo, hi, c);
}

/// Judges a report against a conformance class: the errors the class forbids block it.
pub fn conformance(report: &Report, class: ConformanceClass) -> (v: ConformanceVerdict)
    ensures
        v.class == class,
        v.passed == (v.blocking@.len() == 0),
        forall|i: int, j: int| 0 <= i < j < v.blocking@.len() ==> #[trigger] v.blocking@[i].index_view()
            < #[trigger] v.blocking@[j].index_view(),
        forall|c: Code| v.blocking@.contains(c) <==> blocks(*report, class, c),
{
    let mut blocking: Vec<Code> = Vec::new();
    let mut k: u8 = 0;
    while k < 50
        invariant
            k <= 50,
            forall|i: int, j: int| 0 <= i < j < blocking@.len() ==> #[trigger] blocking@[i].index_view()
                < #[trigger] blocking@[j].index_view(),
            forall|j: int| 0 <= j < blocking@.len() ==> #[trigger] blocking@[j].index_view() < k,
            forall|c: Code| blocking@.contains(c) <==> (c.index_view() < k && blocks(*report, class, c)),
        decreases 50 - k,
    {
        let c = match Code::at_index(k) {
            Some(c) => c,
            None => {
                assert(false);
                return ConformanceVerdict { class, passed: true, blocking };
            },
        };
        let mut found = false;
        let mut i: usize = 0;
        while i < report.diagnostics.len()
            invariant
                i <= report.diagnostics.len(),
                found <==> exists|j: int|
                    0 <= j < i && #[trigger] report.diagnostics@[j].code == c && report.diagnostics@[j].severity
                        == crate::diag::Severity::Error,
            decreases report.diagnostics.len() - i,
        {
            if report.diagnostics[i].code == c && report.diagnostics[i].is_error() {
                found = true;
            }
            i = i + 1;
        }
        let ghost before = blocking@;
        if found && class.forbids(c) {
            blocking.push(c);
            proof {
                assert forall|c2: Code| blocking@.contains(c2) <==> (c2.index_view() < k + 1 && blocks(*report, class, c2)) by {
                    if c2 == c {
                        assert(blocking@[blocking@.len() - 1] == c);
                    } else {
                        if blocking@.contains(c2) {
                            let q = choose|q: int| 0 <= q < blocking@.len() && blocking@[q] == c2;
                            assert(q < before.len());
                            assert(before.contains(c2));
                        }
                        if before.contains(c2) {
                            let q = choose|q: int| 0 <= q < before.len() && before[q] == c2;
                            assert(blocking@[q] == c2);
                        }
                        if c2.index_view() == k {
                            crate::diag::Code::lemma_index_injective(c, c2);
                        }
                    }
                }
            }
        } else {
            proof {
                assert forall|c2: Code| blocking@.contains(c2) <==> (c2.index_view() < k + 1 && blocks(*report, class, c2)) by {
                    if c2.index_view() == k {
                        crate::diag::Code::lemma_index_injective(c, c2);
                    }
                }
            }
        }
        k = k + 1;
    }
    let passed = blocking.len() == 0;
    ConformanceVerdict { class, passed, blocking }
}

/// What to check, and against what.
#[derive(Debug, Clone)]
#[non_exhaustive]
pub struct CheckOptions {
    /// The granularity the units were produced under; taken from the store's view when
    /// absent. Granularity constrains production, not the store, so a caller may override it.
    pub granularity: Option<GranularityProfile>,
    /// Label bindings, so that a body referring to a unit by name can be checked for closure.
    pub labels: Vec<(Label, Uid)>,
    /// Restrict to these passes. Empty means every implemented pass.
    pub only: Vec<Pass>,
    /// What the consumer implements, for the degradation report. Absent means nobody asked
    /// what a particular consumer would lose.
    pub consumer: Option<ConsumerProfile>,
}

impl Default for CheckOptions {
    fn default() -> (o: CheckOptions)
        ensures
            o.granularity is None,
            o.labels@.len() == 0,
            o.only@.len() == 0,
            o.consumer is None,
    {
        CheckOptions { granularity: None, labels: Vec::new(), only: Vec::new(), consumer: None }
    }
}

impl CheckOptions {
    /// Everything this build can check.
    pub fn strict() -> (o: CheckOptions)
        ensures
            o.granularity is None,
            o.labels@.len() == 0,
            o.only@.len() == 0,
            o.consumer is None,
    {
        CheckOptions::default()
    }

    pub fn with_granularity(self, g: GranularityProfile) -> (o: CheckOptions)
        ensures
            o == (CheckOptions { granularity: Some(g), ..self }),
    {
        let mut o = self;
        o.granularity = Some(g);
        o
    }

    pub fn with_labels(self, labels: Vec<(Label, Uid)>) -> (o: CheckOptions)
        ensures
            o == (CheckOptions { labels, ..self }),
    {
        let mut o = self;
        o.labels = labels;
        o
    }

    pub fn only(self, passes: Vec<Pass>) -> (o: CheckOptions)
        ensures
            o == (CheckOptions { only: passes, ..self }),
    {
        let mut o = self;
        o.only = passes;
        o
    }

    pub fn as_consumer(self, p: ConsumerProfile) -> (o: CheckOptions)
        ensures
            o == (CheckOptions { consumer: Some(p), ..self }),
    {
        let mut o = self;
        o.consumer = Some(p);
        o
    }

    /// Whether a run with these options runs `p`: it must have landed, and be selected when
    /// a selection was made.
    pub fn runs(&self, p: Pass) -> (r: bool)
        ensures
            r == (p.implemented_view() && (self.only@.len() == 0 || self.only@.contains(p))),
    {
        if !p.is_implemented() {
            return false;
        }
        if self.only.len() == 0 {
            return true;
        }
        let mut i: usize = 0;
        while i < self.only.len()
            invariant
                i <= self.only.len(),
                p.implemented_view(),
                forall|j: int| 0 <= j < i ==> self.only@[j] != p,
            decreases self.only.len() - i,
        {
            if self.only[i] == p {
                assert(self.only@[i as int] == p);
                return true;
            }
            i = i + 1;
        }
        false
    }
}

} // verus!
