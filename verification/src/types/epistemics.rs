//! Epistemic status, level of detail, sources and dates.

use vstd::prelude::*;
use vstd::string::StringSliceAdditionalSpecFns;

use crate::error::IdError;
use crate::text::{decimal, decimal_padded, digit_char, owned, push_char, push_decimal_padded, push_str};
use vstd::utf8::{encode_utf8, is_ascii_chars, is_ascii_chars_encode_utf8};

verus! {

/// Epistemic status. The declaration order is the rule M order: a unit may not be more
/// founded than its weakest ground.
#[derive(Debug, Clone, Copy, PartialEq, Eq, Structural, PartialOrd, Ord, Hash)]
#[non_exhaustive]
pub enum Status {
    Unfounded,
    Speculative,
    Inferred,
    Derived,
    Cited,
    Measured,
}

impl Status {
    /// Every variant, in declaration order.
    pub const ALL: [Status; 6] = [
        Status::Unfounded,
        Status::Speculative,
        Status::Inferred,
        Status::Derived,
        Status::Cited,
        Status::Measured,
    ];

    /// The stable text name.
    pub open spec fn str_view(self) -> Seq<char> {
        match self {
            Status::Unfounded => "unfounded"@,
            Status::Speculative => "speculative"@,
            Status::Inferred => "inferred"@,
            Status::Derived => "derived"@,
            Status::Cited => "cited"@,
            Status::Measured => "measured"@,
        }
    }

    pub fn as_str(self) -> (r: &'static str)
        ensures
            r@ == self.str_view(),
    {
        match self {
            Status::Unfounded => "unfounded",
            Status::Speculative => "speculative",
            Status::Inferred => "inferred",
            Status::Derived => "derived",
            Status::Cited => "cited",
            Status::Measured => "measured",
        }
    }

    /// Distinct variants have distinct names.
    pub proof fn lemma_str_view_injective()
        ensures
            forall|a: Status, b: Status| a.str_view() == b.str_view() ==> a == b,
    {
        reveal_strlit("unfounded");
        assert(Status::Unfounded.str_view().len() == 9);
        assert(Status::Unfounded.str_view()[0] == 'u');
        reveal_strlit("speculative");
        assert(Status::Speculative.str_view().len() == 11);
        assert(Status::Speculative.str_view()[0] == 's');
        reveal_strlit("inferred");
        assert(Status::Inferred.str_view().len() == 8);
        assert(Status::Inferred.str_view()[0] == 'i');
        reveal_strlit("derived");
        assert(Status::Derived.str_view().len() == 7);
        assert(Status::Derived.str_view()[0] == 'd');
        reveal_strlit("cited");
        assert(Status::Cited.str_view().len() == 5);
        assert(Status::Cited.str_view()[0] == 'c');
        reveal_strlit("measured");
        assert(Status::Measured.str_view().len() == 8);
        assert(Status::Measured.str_view()[0] == 'm');
        assert forall|a: Status, b: Status| a.str_view() == b.str_view() implies a == b by {
            assert(a.str_view().len() == b.str_view().len());
            assert(a.str_view()[0] == b.str_view()[0]);
        }
    }

    /// The variant whose name is exactly `s`.
    pub fn parse(s: &str) -> (r: Option<Status>)
        ensures
            forall|k: Status| r == Some(k) <==> k.str_view() == s@,
            r is None <==> forall|k: Status| k.str_view() != s@,
    {
        proof {
            Status::lemma_str_view_injective();
        }
        if crate::text::str_eq(s, "unfounded") {
            assert(Status::Unfounded.str_view() == s@);
            return Some(Status::Unfounded);
        }
        if crate::text::str_eq(s, "speculative") {
            assert(Status::Speculative.str_view() == s@);
            return Some(Status::Speculative);
        }
        if crate::text::str_eq(s, "inferred") {
            assert(Status::Inferred.str_view() == s@);
            return Some(Status::Inferred);
        }
        if crate::text::str_eq(s, "derived") {
            assert(Status::Derived.str_view() == s@);
            return Some(Status::Derived);
        }
        if crate::text::str_eq(s, "cited") {
            assert(Status::Cited.str_view() == s@);
            return Some(Status::Cited);
        }
        if crate::text::str_eq(s, "measured") {
            assert(Status::Measured.str_view() == s@);
            return Some(Status::Measured);
        }
        proof {
            assert forall|k: Status| k.str_view() != s@ by {
                match k {
                    Status::Unfounded => {},
                    Status::Speculative => {},
                    Status::Inferred => {},
                    Status::Derived => {},
                    Status::Cited => {},
                    Status::Measured => {},
                }
            }
        }
        None
    }

    /// The wire code.
    pub open spec fn code_view(self) -> u8 {
        match self {
            Status::Unfounded => 0u8,
            Status::Speculative => 1u8,
            Status::Inferred => 2u8,
            Status::Derived => 3u8,
            Status::Cited => 4u8,
            Status::Measured => 5u8,
        }
    }

    pub fn as_u8(self) -> (r: u8)
        ensures
            r == self.code_view(),
    {
        match self {
            Status::Unfounded => 0,
            Status::Speculative => 1,
            Status::Inferred => 2,
            Status::Derived => 3,
            Status::Cited => 4,
            Status::Measured => 5,
        }
    }

    /// The variant with wire code `v`.
    pub fn from_u8(v: u8) -> (r: Option<Status>)
        ensures
            forall|k: Status| r == Some(k) <==> k.code_view() == v,
            r is None <==> forall|k: Status| k.code_view() != v,
    {
        match v {
            0 => {
                assert(Status::Unfounded.code_view() == v);
                Some(Status::Unfounded)
            },
            1 => {
                assert(Status::Speculative.code_view() == v);
                Some(Status::Speculative)
            },
            2 => {
                assert(Status::Inferred.code_view() == v);
                Some(Status::Inferred)
            },
            3 => {
                assert(Status::Derived.code_view() == v);
                Some(Status::Derived)
            },
            4 => {
                assert(Status::Cited.code_view() == v);
                Some(Status::Cited)
            },
            5 => {
                assert(Status::Measured.code_view() == v);
                Some(Status::Measured)
            },
            _ => None,
        }
    }

}

/// Level of detail: gist, body, detail.
#[derive(Debug, Clone, Copy, PartialEq, Eq, Structural, PartialOrd, Ord, Hash)]
#[non_exhaustive]
pub enum Lod {
    L0,
    L1,
    L2,
}

impl Lod {
    /// Every variant, in declaration order.
    pub const ALL: [Lod; 3] = [
        Lod::L0,
        Lod::L1,
        Lod::L2,
    ];

    /// The stable text name.
    pub open spec fn str_view(self) -> Seq<char> {
        match self {
            Lod::L0 => "L0"@,
            Lod::L1 => "L1"@,
            Lod::L2 => "L2"@,
        }
    }

    pub fn as_str(self) -> (r: &'static str)
        ensures
            r@ == self.str_view(),
    {
        match self {
            Lod::L0 => "L0",
            Lod::L1 => "L1",
            Lod::L2 => "L2",
        }
    }

    /// Distinct variants have distinct names.
    pub proof fn lemma_str_view_injective()
        ensures
            forall|a: Lod, b: Lod| a.str_view() == b.str_view() ==> a == b,
    {
        reveal_strlit("L0");
        assert(Lod::L0.str_view().len() == 2);
        assert(Lod::L0.str_view()[1] == '0');
        reveal_strlit("L1");
        assert(Lod::L1.str_view().len() == 2);
        assert(Lod::L1.str_view()[1] == '1');
        reveal_strlit("L2");
        assert(Lod::L2.str_view().len() == 2);
        assert(Lod::L2.str_view()[1] == '2');
        assert forall|a: Lod, b: Lod| a.str_view() == b.str_view() implies a == b by {
            assert(a.str_view().len() == b.str_view().len());
            assert(a.str_view()[1] == b.str_view()[1]);
        }
    }

    /// The variant whose name is exactly `s`.
    pub fn parse(s: &str) -> (r: Option<Lod>)
        ensures
            forall|k: Lod| r == Some(k) <==> k.str_view() == s@,
            r is None <==> forall|k: Lod| k.str_view() != s@,
    {
        proof {
            Lod::lemma_str_view_injective();
        }
        if crate::text::str_eq(s, "L0") {
            assert(Lod::L0.str_view() == s@);
            return Some(Lod::L0);
        }
        if crate::text::str_eq(s, "L1") {
            assert(Lod::L1.str_view() == s@);
            return Some(Lod::L1);
        }
        if crate::text::str_eq(s, "L2") {
            assert(Lod::L2.str_view() == s@);
            return Some(Lod::L2);
        }
        proof {
            assert forall|k: Lod| k.str_view() != s@ by {
                match k {
                    Lod::L0 => {},
                    Lod::L1 => {},
                    Lod::L2 => {},
                }
            }
        }
        None
    }

    /// The wire code.
    pub open spec fn code_view(self) -> u8 {
        match self {
            Lod::L0 => 0u8,
            Lod::L1 => 1u8,
            Lod::L2 => 2u8,
        }
    }

    pub fn as_u8(self) -> (r: u8)
        ensures
            r == self.code_view(),
    {
        match self {
            Lod::L0 => 0,
            Lod::L1 => 1,
            Lod::L2 => 2,
        }
    }

    /// The variant with wire code `v`.
    pub fn from_u8(v: u8) -> (r: Option<Lod>)
        ensures
            forall|k: Lod| r == Some(k) <==> k.code_view() == v,
            r is None <==> forall|k: Lod| k.code_view() != v,
    {
        match v {
            0 => {
                assert(Lod::L0.code_view() == v);
                Some(Lod::L0)
            },
            1 => {
                assert(Lod::L1.code_view() == v);
                Some(Lod::L1)
            },
            2 => {
                assert(Lod::L2.code_view() == v);
                Some(Lod::L2)
            },
            _ => None,
        }
    }

}

/// What a source reference points at.
#[derive(Debug, Clone, Copy, PartialEq, Eq, Structural, PartialOrd, Ord, Hash)]
#[non_exhaustive]
pub enum SourceKind {
    Url,
    File,
    Metric,
    Tool,
    Doc,
}

impl SourceKind {
    /// Every variant, in declaration order.
    pub const ALL: [SourceKind; 5] = [
        SourceKind::Url,
        SourceKind::File,
        SourceKind::Metric,
        SourceKind::Tool,
        SourceKind::Doc,
    ];

    /// The stable text name.
    pub open spec fn str_view(self) -> Seq<char> {
        match self {
            SourceKind::Url => "url"@,
            SourceKind::File => "file"@,
            SourceKind::Metric => "metric"@,
            SourceKind::Tool => "tool"@,
            SourceKind::Doc => "doc"@,
        }
    }

    pub fn as_str(self) -> (r: &'static str)
        ensures
            r@ == self.str_view(),
    {
        match self {
            SourceKind::Url => "url",
            SourceKind::File => "file",
            SourceKind::Metric => "metric",
            SourceKind::Tool => "tool",
            SourceKind::Doc => "doc",
        }
    }

    /// Distinct variants have distinct names.
    pub proof fn lemma_str_view_injective()
        ensures
            forall|a: SourceKind, b: SourceKind| a.str_view() == b.str_view() ==> a == b,
    {
        reveal_strlit("url");
        assert(SourceKind::Url.str_view().len() == 3);
        assert(SourceKind::Url.str_view()[0] == 'u');
        reveal_strlit("file");
        assert(SourceKind::File.str_view().len() == 4);
        assert(SourceKind::File.str_view()[0] == 'f');
        reveal_strlit("metric");
        assert(SourceKind::Metric.str_view().len() == 6);
        assert(SourceKind::Metric.str_view()[0] == 'm');
        reveal_strlit("tool");
        assert(SourceKind::Tool.str_view().len() == 4);
        assert(SourceKind::Tool.str_view()[0] == 't');
        reveal_strlit("doc");
        assert(SourceKind::Doc.str_view().len() == 3);
        assert(SourceKind::Doc.str_view()[0] == 'd');
        assert forall|a: SourceKind, b: SourceKind| a.str_view() == b.str_view() implies a == b by {
            assert(a.str_view().len() == b.str_view().len());
            assert(a.str_view()[0] == b.str_view()[0]);
        }
    }

    /// The variant whose name is exactly `s`.
    pub fn parse(s: &str) -> (r: Option<SourceKind>)
        ensures
            forall|k: SourceKind| r == Some(k) <==> k.str_view() == s@,
            r is None <==> forall|k: SourceKind| k.str_view() != s@,
    {
        proof {
            SourceKind::lemma_str_view_injective();
        }
        if crate::text::str_eq(s, "url") {
            assert(SourceKind::Url.str_view() == s@);
            return Some(SourceKind::Url);
        }
        if crate::text::str_eq(s, "file") {
            assert(SourceKind::File.str_view() == s@);
            return Some(SourceKind::File);
        }
        if crate::text::str_eq(s, "metric") {
            assert(SourceKind::Metric.str_view() == s@);
            return Some(SourceKind::Metric);
        }
        if crate::text::str_eq(s, "tool") {
            assert(SourceKind::Tool.str_view() == s@);
            return Some(SourceKind::Tool);
        }
        if crate::text::str_eq(s, "doc") {
            assert(SourceKind::Doc.str_view() == s@);
            return Some(SourceKind::Doc);
        }
        proof {
            assert forall|k: SourceKind| k.str_view() != s@ by {
                match k {
                    SourceKind::Url => {},
                    SourceKind::File => {},
                    SourceKind::Metric => {},
                    SourceKind::Tool => {},
                    SourceKind::Doc => {},
                }
            }
        }
        None
    }

    /// The wire code.
    pub open spec fn code_view(self) -> u8 {
        match self {
            SourceKind::Url => 0u8,
            SourceKind::File => 1u8,
            SourceKind::Metric => 2u8,
            SourceKind::Tool => 3u8,
            SourceKind::Doc => 4u8,
        }
    }

    pub fn as_u8(self) -> (r: u8)
        ensures
            r == self.code_view(),
    {
        match self {
            SourceKind::Url => 0,
            SourceKind::File => 1,
            SourceKind::Metric => 2,
            SourceKind::Tool => 3,
            SourceKind::Doc => 4,
        }
    }

    /// The variant with wire code `v`.
    pub fn from_u8(v: u8) -> (r: Option<SourceKind>)
        ensures
            forall|k: SourceKind| r == Some(k) <==> k.code_view() == v,
            r is None <==> forall|k: SourceKind| k.code_view() != v,
    {
        match v {
            0 => {
                assert(SourceKind::Url.code_view() == v);
                Some(SourceKind::Url)
            },
            1 => {
                assert(SourceKind::File.code_view() == v);
                Some(SourceKind::File)
            },
            2 => {
                assert(SourceKind::Metric.code_view() == v);
                Some(SourceKind::Metric)
            },
            3 => {
                assert(SourceKind::Tool.code_view() == v);
                Some(SourceKind::Tool)
            },
            4 => {
                assert(SourceKind::Doc.code_view() == v);
                Some(SourceKind::Doc)
            },
            _ => None,
        }
    }

}

impl Status {
    /// Only `measured` and `cited` need a source.
    pub fn requires_source(self) -> (r: bool)
        ensures
            r == (self == Status::Measured || self == Status::Cited),
    {
        match self {
            Status::Measured | Status::Cited => true,
            _ => false,
        }
    }

    /// Only `derived` and `inferred` need grounds.
    pub fn requires_grounds(self) -> (r: bool)
        ensures
            r == (self == Status::Derived || self == Status::Inferred),
    {
        match self {
            Status::Derived | Status::Inferred => true,
            _ => false,
        }
    }

    /// The statuses rule M binds: those that rest on grounds.
    pub fn is_rule_m_constrained(self) -> (r: bool)
        ensures
            r == (self == Status::Derived || self == Status::Inferred),
    {
        self.requires_grounds()
    }
}

impl SourceKind {
    /// Only a URL can change under a reader, so only it demands a capture date.
    pub fn requires_capture_date(self) -> (r: bool)
        ensures
            r == (self == SourceKind::Url),
    {
        match self {
            SourceKind::Url => true,
            _ => false,
        }
    }
}

// ---------------------------------------------------------------------------
// Dates
// ---------------------------------------------------------------------------

pub open spec fn is_leap_view(y: int) -> bool {
    (y % 4 == 0 && y % 100 != 0) || y % 400 == 0
}

pub open spec fn days_in_month_view(year: int, month: int) -> int {
    if month == 1 || month == 3 || month == 5 || month == 7 || month == 8 || month == 10 || month
        == 12 {
        31
    } else if month == 4 || month == 6 || month == 9 || month == 11 {
        30
    } else if month == 2 {
        if is_leap_view(year) {
            29
        } else {
            28
        }
    } else {
        0
    }
}

/// A calendar date in the proleptic Gregorian calendar, year 1 onward.
pub open spec fn date_valid(year: int, month: int, day: int) -> bool {
    year != 0 && 1 <= month <= 12 && day != 0 && day <= days_in_month_view(year, month)
}

/// A calendar date (used for source capture dates).
#[derive(Debug, Clone, Copy, PartialEq, Eq, Structural, PartialOrd, Ord, Hash)]
pub struct Date {
    pub year: u16,
    pub month: u8,
    pub day: u8,
}

fn days_in_month(year: u16, month: u8) -> (d: u8)
    ensures
        d == days_in_month_view(year as int, month as int),
{
    if month == 1 || month == 3 || month == 5 || month == 7 || month == 8 || month == 10 || month
        == 12 {
        31
    } else if month == 4 || month == 6 || month == 9 || month == 11 {
        30
    } else if month == 2 {
        if (year % 4 == 0 && year % 100 != 0) || year % 400 == 0 {
            29
        } else {
            28
        }
    } else {
        0
    }
}

/// The ISO form `YYYY-MM-DD`, zero-padded.
pub open spec fn date_text(year: int, month: int, day: int) -> Seq<char> {
    decimal_padded(year as nat, 4) + "-"@ + decimal_padded(month as nat, 2) + "-"@ + decimal_padded(
        day as nat,
        2,
    )
}

/// What `str::parse::<u16>` accepts, over bytes: an optional `+`, then decimal digits whose
/// value fits in 16 bits.
pub open spec fn parse_u16_view(s: Seq<u8>) -> Option<u16> {
    let d = if s.len() > 0 && s[0] == 43u8 { s.skip(1) } else { s };
    if d.len() > 0 && ascii_digits(d) && bytes_value(d) <= u16::MAX {
        Some(bytes_value(d) as u16)
    } else {
        None
    }
}

/// Every byte is an ASCII decimal digit.
pub open spec fn ascii_digits(d: Seq<u8>) -> bool {
    forall|i: int| 0 <= i < d.len() ==> 48 <= #[trigger] d[i] <= 57
}

/// The value of a string of ASCII decimal digits.
pub open spec fn bytes_value(s: Seq<u8>) -> int
    decreases s.len(),
{
    if s.len() == 0 {
        0
    } else {
        10 * bytes_value(s.drop_last()) + (s.last() - 48)
    }
}

proof fn lemma_bytes_value_nonneg(s: Seq<u8>)
    requires
        forall|i: int| 0 <= i < s.len() ==> 48 <= #[trigger] s[i] <= 57,
    ensures
        bytes_value(s) >= 0,
    decreases s.len(),
{
    if s.len() > 0 {
        lemma_bytes_value_nonneg(s.drop_last());
    }
}

fn parse_u16_bytes(b: &[u8], lo: usize, hi: usize) -> (r: Option<u16>)
    requires
        lo <= hi <= b@.len(),
    ensures
        r == parse_u16_view(b@.subrange(lo as int, hi as int)),
{
    let ghost s = b@.subrange(lo as int, hi as int);
    let start = if lo < hi && b[lo] == 43u8 { lo + 1 } else { lo };
    let ghost d = if s.len() > 0 && s[0] == 43u8 { s.skip(1) } else { s };
    assert(d =~= b@.subrange(start as int, hi as int));
    if start == hi {
        return None;
    }
    let mut acc: u32 = 0;
    let mut i = start;
    while i < hi
        invariant
            start <= i <= hi,
            hi <= b@.len(),
            start < hi,
            s == b@.subrange(lo as int, hi as int),
            d == (if s.len() > 0 && s[0] == 43u8 { s.skip(1) } else { s }),
            d == b@.subrange(start as int, hi as int),
            forall|k: int| 0 <= k < i - start ==> 48 <= #[trigger] d[k] <= 57,
            acc == bytes_value(b@.subrange(start as int, i as int)),
            acc <= u16::MAX,
        decreases hi - i,
    {
        let c = b[i];
        if !(48u8 <= c && c <= 57u8) {
            assert(d[i - start] == c);
            assert(!(48 <= d[i - start] <= 57));
            return None;
        }
        let ghost t = b@.subrange(start as int, i + 1);
        assert(t.drop_last() =~= b@.subrange(start as int, i as int));
        assert(t.last() == c);
        assert(bytes_value(t) == 10 * bytes_value(t.drop_last()) + (c - 48));
        assert(forall|k: int| 0 <= k < i + 1 - start ==> 48 <= #[trigger] d[k] <= 57);
        let next = acc * 10 + (c - 48u8) as u32;
        if next > 65535 {
            proof {
                assert(d.take(i + 1 - start) =~= t);
                lemma_value_grows(d, i + 1 - start);
            }
            return None;
        }
        acc = next;
        i = i + 1;
    }
    Some(acc as u16)
}

proof fn lemma_value_grows(d: Seq<u8>, n: int)
    requires
        0 < n <= d.len(),
        forall|i: int| 0 <= i < n ==> 48 <= #[trigger] d[i] <= 57,
        bytes_value(d.take(n)) > u16::MAX,
    ensures
        !(ascii_digits(d) && bytes_value(d) <= u16::MAX),
    decreases d.len() - n,
{
    if n < d.len() && ascii_digits(d) {
        let t = d.take(n + 1);
        assert(t.drop_last() =~= d.take(n));
        lemma_bytes_value_nonneg(d.take(n));
        lemma_value_grows(d, n + 1);
    } else if n == d.len() {
        assert(d.take(n) =~= d);
    }
}

/// `YYYY-MM-DD` as `Date::parse` reads it: ten bytes with `-` at 4 and 7, three numbers read
/// as `u16` (month and day then truncated to `u8`), and a valid calendar date.
pub open spec fn date_parse_view(b: Seq<u8>) -> Option<(u16, u8, u8)> {
    if b.len() == 10 && b[4] == 45u8 && b[7] == 45u8 {
        match (
            parse_u16_view(b.subrange(0, 4)),
            parse_u16_view(b.subrange(5, 7)),
            parse_u16_view(b.subrange(8, 10)),
        ) {
            (Some(y), Some(m), Some(d)) => if date_valid(y as int, (m as u8) as int, (d as u8) as int) {
                Some((y, m as u8, d as u8))
            } else {
                None
            },
            _ => None,
        }
    } else {
        None
    }
}

/// The decimal digit for `k < 10` is the ASCII byte `48 + k`.
proof fn lemma_digit_byte(k: int)
    requires
        0 <= k < 10,
    ensures
        digit_char(k) as u8 == 48 + k,
        '0' <= digit_char(k) <= '9',
{
}

/// Four zero-padded digits of `n < 10000`, most significant first.
proof fn lemma_padded4(n: nat)
    requires
        n < 10000,
    ensures
        decimal_padded(n, 4) == seq![
            digit_char((n / 1000) as int),
            digit_char(((n / 100) % 10) as int),
            digit_char(((n / 10) % 10) as int),
            digit_char((n % 10) as int),
        ],
{
    reveal_with_fuel(decimal, 5);
    if n < 10 {
        assert(decimal_padded(n, 4) =~= seq!['0', '0', '0', digit_char(n as int)]);
    } else if n < 100 {
        assert(decimal(n / 10) == seq![digit_char((n / 10) as int)]);
        assert(decimal(n) =~= seq![digit_char((n / 10) as int), digit_char((n % 10) as int)]);
        assert(decimal_padded(n, 4) =~= seq!['0', '0', digit_char((n / 10) as int), digit_char((n % 10) as int)]);
    } else if n < 1000 {
        let a = n / 10;
        assert(decimal(a / 10) == seq![digit_char((a / 10) as int)]);
        assert(decimal(a) =~= seq![digit_char((a / 10) as int), digit_char((a % 10) as int)]);
        assert(decimal(n) =~= seq![digit_char((a / 10) as int), digit_char((a % 10) as int), digit_char((n % 10) as int)]);
        assert(a / 10 == n / 100);
        assert(a % 10 == (n / 10) % 10);
        assert(decimal_padded(n, 4) =~= seq!['0', digit_char((n / 100) as int), digit_char(((n / 10) % 10) as int), digit_char((n % 10) as int)]);
    } else {
        let a = n / 10;
        let b = a / 10;
        assert(decimal(b / 10) == seq![digit_char((b / 10) as int)]);
        assert(decimal(b) =~= seq![digit_char((b / 10) as int), digit_char((b % 10) as int)]);
        assert(decimal(a) =~= seq![digit_char((b / 10) as int), digit_char((b % 10) as int), digit_char((a % 10) as int)]);
        assert(decimal(n) =~= seq![
            digit_char((b / 10) as int),
            digit_char((b % 10) as int),
            digit_char((a % 10) as int),
            digit_char((n % 10) as int),
        ]);
        assert(b / 10 == n / 1000);
        assert(b % 10 == (n / 100) % 10);
        assert(a % 10 == (n / 10) % 10);
    }
}

/// Two zero-padded digits of `n < 100`.
proof fn lemma_padded2(n: nat)
    requires
        n < 100,
    ensures
        decimal_padded(n, 2) == seq![digit_char((n / 10) as int), digit_char((n % 10) as int)],
{
    reveal_with_fuel(decimal, 3);
    if n < 10 {
        assert(decimal_padded(n, 2) =~= seq!['0', digit_char(n as int)]);
    } else {
        assert(decimal(n / 10) == seq![digit_char((n / 10) as int)]);
        assert(decimal(n) =~= seq![digit_char((n / 10) as int), digit_char((n % 10) as int)]);
    }
}

/// The bytes of two or four digits read back as the number they spell.
proof fn lemma_digits_value(b: Seq<u8>, n: nat)
    requires
        (b.len() == 4 && n < 10000 && b[0] == 48 + n / 1000 && b[1] == 48 + (n / 100) % 10
            && b[2] == 48 + (n / 10) % 10 && b[3] == 48 + n % 10) || (b.len() == 2 && n < 100
            && b[0] == 48 + n / 10 && b[1] == 48 + n % 10),
    ensures
        parse_u16_view(b) == Some(n as u16),
{
    reveal_with_fuel(bytes_value, 5);
    assert(ascii_digits(b));
    if b.len() == 4 {
        assert(b.drop_last().drop_last().drop_last().drop_last() =~= Seq::<u8>::empty());
        assert(b.drop_last().drop_last().drop_last() =~= seq![b[0]]);
        assert(b.drop_last().drop_last() =~= seq![b[0], b[1]]);
        assert(b.drop_last() =~= seq![b[0], b[1], b[2]]);
        assert(bytes_value(b) == n);
    } else {
        assert(b.drop_last().drop_last() =~= Seq::<u8>::empty());
        assert(b.drop_last() =~= seq![b[0]]);
        assert(bytes_value(b) == n);
    }
}

/// A date reads back from its ISO text: what `Date::render` writes, `Date::parse` reads as
/// the same date, for every valid date of a year with at most four digits.
pub proof fn lemma_date_text_parses(year: u16, month: u8, day: u8)
    requires
        date_valid(year as int, month as int, day as int),
        year <= 9999,
    ensures
        date_parse_view(encode_utf8(date_text(year as int, month as int, day as int))) == Some((year, month, day)),
{
    let y = year as nat;
    let m = month as nat;
    let d = day as nat;
    lemma_padded4(y);
    lemma_padded2(m);
    lemma_padded2(d);
    lemma_digit_byte((y / 1000) as int);
    lemma_digit_byte(((y / 100) % 10) as int);
    lemma_digit_byte(((y / 10) % 10) as int);
    lemma_digit_byte((y % 10) as int);
    lemma_digit_byte((m / 10) as int);
    lemma_digit_byte((m % 10) as int);
    lemma_digit_byte((d / 10) as int);
    lemma_digit_byte((d % 10) as int);
    reveal_strlit("-");
    let c = date_text(year as int, month as int, day as int);
    assert(c =~= seq![
        digit_char((y / 1000) as int),
        digit_char(((y / 100) % 10) as int),
        digit_char(((y / 10) % 10) as int),
        digit_char((y % 10) as int),
        '-',
        digit_char((m / 10) as int),
        digit_char((m % 10) as int),
        '-',
        digit_char((d / 10) as int),
        digit_char((d % 10) as int),
    ]);
    assert(is_ascii_chars(c));
    is_ascii_chars_encode_utf8(c);
    let b = encode_utf8(c);
    assert(b[0] == c[0] as u8 && b[1] == c[1] as u8 && b[2] == c[2] as u8 && b[3] == c[3] as u8);
    assert(b[4] == c[4] as u8 && b[5] == c[5] as u8 && b[6] == c[6] as u8 && b[7] == c[7] as u8);
    assert(b[8] == c[8] as u8 && b[9] == c[9] as u8);
    lemma_digits_value(b.subrange(0, 4), y);
    lemma_digits_value(b.subrange(5, 7), m);
    lemma_digits_value(b.subrange(8, 10), d);
}

impl Date {
    pub fn new(year: u16, month: u8, day: u8) -> (r: Result<Date, IdError>)
        ensures
            r is Ok <==> date_valid(year as int, month as int, day as int),
            r matches Ok(d) ==> d == (Date { year, month, day }),
            r matches Err(e) ==> e.kind@ == "date"@ && e.found@ == date_text(
                year as int,
                month as int,
                day as int,
            ),
    {
        let d = Date { year, month, day };
        if d.is_valid() {
            Ok(d)
        } else {
            Err(IdError { kind: "date", found: d.render() })
        }
    }

    fn is_valid(&self) -> (r: bool)
        ensures
            r == date_valid(self.year as int, self.month as int, self.day as int),
    {
        if self.year == 0 || !(1 <= self.month && self.month <= 12) || self.day == 0 {
            return false;
        }
        self.day <= days_in_month(self.year, self.month)
    }

    /// Parse the ISO form.
    pub fn parse(s: &str) -> (r: Result<Date, IdError>)
        ensures
            r is Ok <==> date_parse_view(s.spec_bytes()) is Some,
            r matches Ok(d) ==> date_parse_view(s.spec_bytes()) == Some((d.year, d.month, d.day)),
            r matches Err(e) ==> e.kind@ == "date"@ && e.found@ == s@,
    {
        let b = s.as_bytes();
        if b.len() != 10 || b[4] != 45u8 || b[7] != 45u8 {
            return Err(IdError { kind: "date", found: owned(s) });
        }
        let y = parse_u16_bytes(b, 0, 4);
        let m = parse_u16_bytes(b, 5, 7);
        let d = parse_u16_bytes(b, 8, 10);
        match (y, m, d) {
            (Some(y), Some(m), Some(d)) => {
                let date = Date { year: y, month: m as u8, day: d as u8 };
                if date.is_valid() {
                    Ok(date)
                } else {
                    Err(IdError { kind: "date", found: owned(s) })
                }
            },
            _ => Err(IdError { kind: "date", found: owned(s) }),
        }
    }

    /// The ISO form `YYYY-MM-DD`.
    pub fn render(&self) -> (s: String)
        ensures
            s@ == date_text(self.year as int, self.month as int, self.day as int),
    {
        let mut s = String::new();
        push_decimal_padded(&mut s, self.year as u64, 4);
        push_str(&mut s, "-");
        push_decimal_padded(&mut s, self.month as u64, 2);
        push_str(&mut s, "-");
        push_decimal_padded(&mut s, self.day as u64, 2);
        assert(s@ =~= date_text(self.year as int, self.month as int, self.day as int));
        s
    }
}

// ---------------------------------------------------------------------------
// Source references
// ---------------------------------------------------------------------------

/// Where a measured or cited unit's claim comes from.
#[derive(Debug, Clone, PartialEq, Eq, PartialOrd, Ord, Hash)]
pub struct SourceRef {
    pub kind: SourceKind,
    pub reference: String,
    pub captured: Option<Date>,
}

impl SourceRef {
    pub fn new(kind: SourceKind, reference: &str) -> (r: SourceRef)
        ensures
            r.kind == kind,
            r.reference@ == reference@,
            r.captured is None,
    {
        SourceRef { kind, reference: owned(reference), captured: None }
    }

    pub fn captured_on(self, d: Date) -> (r: SourceRef)
        ensures
            r.kind == self.kind,
            r.reference == self.reference,
            r.captured == Some(d),
    {
        let mut s = self;
        s.captured = Some(d);
        s
    }

    /// `kind:reference`, then ` @YYYY-MM-DD` when a capture date is present.
    pub fn render(&self) -> (s: String)
        ensures
            s@ == self.kind.str_view() + ":"@ + self.reference@ + (match self.captured {
                Some(d) => " @"@ + date_text(d.year as int, d.month as int, d.day as int),
                None => Seq::<char>::empty(),
            }),
    {
        let mut s = owned(self.kind.as_str());
        push_str(&mut s, ":");
        push_str(&mut s, self.reference.as_str());
        if let Some(d) = &self.captured {
            push_str(&mut s, " @");
            let t = d.render();
            push_str(&mut s, t.as_str());
        }
        assert(s@ =~= self.kind.str_view() + ":"@ + self.reference@ + (match self.captured {
            Some(d) => " @"@ + date_text(d.year as int, d.month as int, d.day as int),
            None => Seq::<char>::empty(),
        }));
        s
    }

    /// A copy of this reference.
    pub fn duplicate(&self) -> (r: SourceRef)
        ensures
            r.kind == self.kind,
            r.reference@ == self.reference@,
            r.captured == self.captured,
    {
        SourceRef { kind: self.kind, reference: self.reference.clone(), captured: self.captured }
    }
}

} // verus!
