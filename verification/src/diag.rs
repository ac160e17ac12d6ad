//! The diagnostic registry and the report machinery built on it.
//!
//! Every diagnostic the implementation can emit has a stable [`Code`]. The wire string,
//! severity, group and one-line meaning of each code are declared once, here.

use vstd::prelude::*;
use vstd::string::StringSliceAdditionalSpecFns;

use crate::error::Error;
use crate::ids::{
    bytes_lt, lemma_bytes_lt_total, lemma_bytes_lt_transitive, lemma_uid_bytes_injective,
    lemma_uid_bytes_len, uid_lt, Uid,
};
use crate::text::{
    chars_eq, chars_less, chars_lt, chars_of, lemma_chars_lt_total, lemma_chars_lt_transitive, owned,
    push_decimal, push_str,
};

verus! {

// ---------------------------------------------------------------------------
// Severity
// ---------------------------------------------------------------------------

/// Diagnostic severity. Ordered: `Warn < Error`.
#[derive(Debug, Clone, Copy, PartialEq, Eq, Structural, PartialOrd, Ord, Hash)]
pub enum Severity {
    Warn,
    Error,
}

impl Severity {
    /// The position of a severity in its order.
    pub open spec fn rank(self) -> int {
        match self {
            Severity::Warn => 0,
            Severity::Error => 1,
        }
    }

    pub open spec fn str_view(self) -> Seq<char> {
        match self {
            Severity::Warn => "warning"@,
            Severity::Error => "error"@,
        }
    }

    pub fn as_str(self) -> (r: &'static str)
        ensures
            r@ == self.str_view(),
    {
        match self {
            Severity::Warn => "warning",
            Severity::Error => "error",
        }
    }

    /// Whether `self` is at or above `other`.
    pub fn at_least(self, other: Severity) -> (r: bool)
        ensures
            r == (self.rank() >= other.rank()),
    {
        match (self, other) {
            (Severity::Warn, Severity::Error) => false,
            _ => true,
        }
    }
}

// ---------------------------------------------------------------------------
// Byte spans
// ---------------------------------------------------------------------------

/// A half-open byte range into a surface-syntax source.
#[derive(Debug, Clone, Copy, PartialEq, Eq, Structural, PartialOrd, Ord, Hash)]
pub struct Span {
    pub start: usize,
    pub end: usize,
}

impl Span {
    pub fn new(start: usize, end: usize) -> (s: Span)
        ensures
            s.start == start,
            s.end == end,
    {
        Span { start, end }
    }

    pub fn len(self) -> (n: usize)
        ensures
            n == (if self.end >= self.start { self.end - self.start } else { 0 }),
    {
        if self.end >= self.start {
            self.end - self.start
        } else {
            0
        }
    }

    pub fn is_empty(self) -> (r: bool)
        ensures
            r == (self.start >= self.end),
    {
        self.start >= self.end
    }

    /// The smallest span covering both.
    pub fn join(self, other: Span) -> (s: Span)
        ensures
            s.start == (if self.start <= other.start { self.start } else { other.start }),
            s.end == (if self.end >= other.end { self.end } else { other.end }),
    {
        Span {
            start: if self.start <= other.start { self.start } else { other.start },
            end: if self.end >= other.end { self.end } else { other.end },
        }
    }

    /// The text the span covers, when both ends fall on character boundaries of `src`.
    pub fn slice<'a>(&self, src: &'a str) -> (r: Option<&'a str>)
        ensures
            r is Some <==> (self.start <= self.end && self.end <= src.spec_bytes().len()
                && vstd::utf8::is_char_boundary(src.spec_bytes(), self.start as int)
                && vstd::utf8::is_char_boundary(src.spec_bytes(), self.end as int)),
            r matches Some(t) ==> t.spec_bytes() == src.spec_bytes().subrange(
                self.start as int,
                self.end as int,
            ),
    {
        proof {
            vstd::utf8::encode_utf8_valid_utf8(src@);
        }
        if self.start > self.end || self.end > src.as_bytes().len() {
            return None;
        }
        if !src.is_char_boundary(self.start) || !src.is_char_boundary(self.end) {
            return None;
        }
        let (_, tail) = src.split_at(self.start);
        proof {
            vstd::utf8::encode_utf8_valid_utf8(src@);
            lemma_boundary_shift(src.spec_bytes(), self.start as int, self.end as int);
        }
        let (mid, _) = tail.split_at(self.end - self.start);
        assert(mid.spec_bytes() =~= src.spec_bytes().subrange(self.start as int, self.end as int));
        Some(mid)
    }

    /// The text form `start..end`.
    pub fn render(&self) -> (s: String)
        ensures
            s@ == crate::text::decimal(self.start as nat) + ".."@ + crate::text::decimal(
                self.end as nat,
            ),
    {
        let mut s = String::new();
        push_decimal(&mut s, self.start as u64);
        push_str(&mut s, "..");
        push_decimal(&mut s, self.end as u64);
        assert(s@ =~= Seq::<char>::empty() + crate::text::decimal(self.start as nat) + ".."@
            + crate::text::decimal(self.end as nat));
        s
    }
}

/// A character boundary at `end` of `b` is a boundary at `end - start` of the suffix from
/// `start`, when `start` is itself a boundary.
proof fn lemma_boundary_shift(b: Seq<u8>, start: int, end: int)
    requires
        vstd::utf8::valid_utf8(b),
        0 <= start <= end <= b.len(),
        vstd::utf8::is_char_boundary(b, start),
        vstd::utf8::is_char_boundary(b, end),
    ensures
        vstd::utf8::valid_utf8(b.subrange(start, b.len() as int)),
        vstd::utf8::is_char_boundary(b.subrange(start, b.len() as int), end - start),
    decreases b.len(),
{
    if start == 0 {
        assert(b.subrange(start, b.len() as int) =~= b);
    } else {
        let l = vstd::utf8::length_of_first_scalar(b);
        let p = vstd::utf8::pop_first_scalar(b);
        assert(vstd::utf8::valid_first_scalar(b) && vstd::utf8::valid_utf8(p));
        assert(1 <= l <= 4 && l <= b.len());
        assert(p.len() == b.len() - l);
        assert(vstd::utf8::is_char_boundary(p, start - l));
        assert(vstd::utf8::is_char_boundary(p, end - l));
        assert(start - l >= 0);
        lemma_boundary_shift(p, start - l, end - l);
        assert(p.subrange(start - l, p.len() as int) =~= b.subrange(start, b.len() as int));
    }
}

// ---------------------------------------------------------------------------
// The registry
// ---------------------------------------------------------------------------

/// Appendix D section a code belongs to. Used for grouped reporting only.
#[derive(Debug, Clone, Copy, PartialEq, Eq, Structural, PartialOrd, Ord, Hash)]
#[non_exhaustive]
pub enum Group {
    Parse,
    Identity,
    Lod,
    Epistemics,
    Merge,
    PackRender,
    Extension,
    Provider,
}

impl Group {
    /// Every variant, in declaration order.
    pub const ALL: [Group; 8] = [
        Group::Parse,
        Group::Identity,
        Group::Lod,
        Group::Epistemics,
        Group::Merge,
        Group::PackRender,
        Group::Extension,
        Group::Provider,
    ];

    /// The stable text name.
    pub open spec fn str_view(self) -> Seq<char> {
        match self {
            Group::Parse => "Parse"@,
            Group::Identity => "Identity"@,
            Group::Lod => "Lod"@,
            Group::Epistemics => "Epistemics"@,
            Group::Merge => "Merge"@,
            Group::PackRender => "PackRender"@,
            Group::Extension => "Extension"@,
            Group::Provider => "Provider"@,
        }
    }

    pub fn as_str(self) -> (r: &'static str)
        ensures
            r@ == self.str_view(),
    {
        match self {
            Group::Parse => "Parse",
            Group::Identity => "Identity",
            Group::Lod => "Lod",
            Group::Epistemics => "Epistemics",
            Group::Merge => "Merge",
            Group::PackRender => "PackRender",
            Group::Extension => "Extension",
            Group::Provider => "Provider",
        }
    }

    /// Distinct variants have distinct names.
    pub proof fn lemma_str_view_injective()
        ensures
            forall|a: Group, b: Group| a.str_view() == b.str_view() ==> a == b,
    {
        reveal_strlit("Parse");
        assert(Group::Parse.str_view().len() == 5);
        assert(Group::Parse.str_view()[0] == 'P');
        reveal_strlit("Identity");
        assert(Group::Identity.str_view().len() == 8);
        assert(Group::Identity.str_view()[0] == 'I');
        reveal_strlit("Lod");
        assert(Group::Lod.str_view().len() == 3);
        assert(Group::Lod.str_view()[0] == 'L');
        reveal_strlit("Epistemics");
        assert(Group::Epistemics.str_view().len() == 10);
        assert(Group::Epistemics.str_view()[0] == 'E');
        reveal_strlit("Merge");
        assert(Group::Merge.str_view().len() == 5);
        assert(Group::Merge.str_view()[0] == 'M');
        reveal_strlit("PackRender");
        assert(Group::PackRender.str_view().len() == 10);
        assert(Group::PackRender.str_view()[0] == 'P');
        reveal_strlit("Extension");
        assert(Group::Extension.str_view().len() == 9);
        assert(Group::Extension.str_view()[0] == 'E');
        reveal_strlit("Provider");
        assert(Group::Provider.str_view().len() == 8);
        assert(Group::Provider.str_view()[0] == 'P');
        assert forall|a: Group, b: Group| a.str_view() == b.str_view() implies a == b by {
            assert(a.str_view().len() == b.str_view().len());
            assert(a.str_view()[0] == b.str_view()[0]);
        }
    }

    /// The variant whose name is exactly `s`.
    pub fn parse(s: &str) -> (r: Option<Group>)
        ensures
            forall|k: Group| r == Some(k) <==> k.str_view() == s@,
            r is None <==> forall|k: Group| k.str_view() != s@,
    {
        proof {
            Group::lemma_str_view_injective();
        }
        if crate::text::str_eq(s, "Parse") {
            assert(Group::Parse.str_view() == s@);
            return Some(Group::Parse);
        }
        if crate::text::str_eq(s, "Identity") {
            assert(Group::Identity.str_view() == s@);
            return Some(Group::Identity);
        }
        if crate::text::str_eq(s, "Lod") {
            assert(Group::Lod.str_view() == s@);
            return Some(Group::Lod);
        }
        if crate::text::str_eq(s, "Epistemics") {
            assert(Group::Epistemics.str_view() == s@);
            return Some(Group::Epistemics);
        }
        if crate::text::str_eq(s, "Merge") {
            assert(Group::Merge.str_view() == s@);
            return Some(Group::Merge);
        }
        if crate::text::str_eq(s, "PackRender") {
            assert(Group::PackRender.str_view() == s@);
            return Some(Group::PackRender);
        }
        if crate::text::str_eq(s, "Extension") {
            assert(Group::Extension.str_view() == s@);
            return Some(Group::Extension);
        }
        if crate::text::str_eq(s, "Provider") {
            assert(Group::Provider.str_view() == s@);
            return Some(Group::Provider);
        }
        proof {
            assert forall|k: Group| k.str_view() != s@ by {
                match k {
                    Group::Parse => {},
                    Group::Identity => {},
                    Group::Lod => {},
                    Group::Epistemics => {},
                    Group::Merge => {},
                    Group::PackRender => {},
                    Group::Extension => {},
                    Group::Provider => {},
                }
            }
        }
        None
    }

}

/// A stable diagnostic code. Declaration order is registry order.
#[derive(Debug, Clone, Copy, PartialEq, Eq, Structural, PartialOrd, Ord, Hash)]
#[non_exhaustive]
pub enum Code {
    E001,
    E002,
    E003,
    E004,
    W014,
    E080,
    E081,
    E060,
    E061,
    W062,
    E070,
    E071,
    E072,
    W110,
    E020,
    E021,
    E022,
    E023,
    W024,
    E040,
    W041,
    E030,
    E031,
    E032,
    E033,
    E034,
    W035,
    W036,
    E050,
    E051,
    W052,
    W053,
    W054,
    W055,
    E200,
    E201,
    W202,
    E210,
    W211,
    W010,
    E011,
    E012,
    W013,
    E300,
    E301,
    E302,
    W303,
    W304,
    W305,
    W306,
}

impl Code {
    /// Every variant, in declaration order.
    pub const ALL: [Code; 50] = [
        Code::E001,
        Code::E002,
        Code::E003,
        Code::E004,
        Code::W014,
        Code::E080,
        Code::E081,
        Code::E060,
        Code::E061,
        Code::W062,
        Code::E070,
        Code::E071,
        Code::E072,
        Code::W110,
        Code::E020,
        Code::E021,
        Code::E022,
        Code::E023,
        Code::W024,
        Code::E040,
        Code::W041,
        Code::E030,
        Code::E031,
        Code::E032,
        Code::E033,
        Code::E034,
        Code::W035,
        Code::W036,
        Code::E050,
        Code::E051,
        Code::W052,
        Code::W053,
        Code::W054,
        Code::W055,
        Code::E200,
        Code::E201,
        Code::W202,
        Code::E210,
        Code::W211,
        Code::W010,
        Code::E011,
        Code::E012,
        Code::W013,
        Code::E300,
        Code::E301,
        Code::E302,
        Code::W303,
        Code::W304,
        Code::W305,
        Code::W306,
    ];

    /// The stable text name.
    pub open spec fn str_view(self) -> Seq<char> {
        match self {
            Code::E001 => "SMY-E001"@,
            Code::E002 => "SMY-E002"@,
            Code::E003 => "SMY-E003"@,
            Code::E004 => "SMY-E004"@,
            Code::W014 => "SMY-W014"@,
            Code::E080 => "SMY-E080"@,
            Code::E081 => "SMY-E081"@,
            Code::E060 => "SMY-E060"@,
            Code::E061 => "SMY-E061"@,
            Code::W062 => "SMY-W062"@,
            Code::E070 => "SMY-E070"@,
            Code::E071 => "SMY-E071"@,
            Code::E072 => "SMY-E072"@,
            Code::W110 => "SMY-W110"@,
            Code::E020 => "SMY-E020"@,
            Code::E021 => "SMY-E021"@,
            Code::E022 => "SMY-E022"@,
            Code::E023 => "SMY-E023"@,
            Code::W024 => "SMY-W024"@,
            Code::E040 => "SMY-E040"@,
            Code::W041 => "SMY-W041"@,
            Code::E030 => "SMY-E030"@,
            Code::E031 => "SMY-E031"@,
            Code::E032 => "SMY-E032"@,
            Code::E033 => "SMY-E033"@,
            Code::E034 => "SMY-E034"@,
            Code::W035 => "SMY-W035"@,
            Code::W036 => "SMY-W036"@,
            Code::E050 => "SMY-E050"@,
            Code::E051 => "SMY-E051"@,
            Code::W052 => "SMY-W052"@,
            Code::W053 => "SMY-W053"@,
            Code::W054 => "SMY-W054"@,
            Code::W055 => "SMY-W055"@,
            Code::E200 => "SMY-E200"@,
            Code::E201 => "SMY-E201"@,
            Code::W202 => "SMY-W202"@,
            Code::E210 => "SMY-E210"@,
            Code::W211 => "SMY-W211"@,
            Code::W010 => "SMY-W010"@,
            Code::E011 => "SMY-E011"@,
            Code::E012 => "SMY-E012"@,
            Code::W013 => "SMY-W013"@,
            Code::E300 => "SMY-E300"@,
            Code::E301 => "SMY-E301"@,
            Code::E302 => "SMY-E302"@,
            Code::W303 => "SMY-W303"@,
            Code::W304 => "SMY-W304"@,
            Code::W305 => "SMY-W305"@,
            Code::W306 => "SMY-W306"@,
        }
    }

    pub fn as_str(self) -> (r: &'static str)
        ensures
            r@ == self.str_view(),
    {
        match self {
            Code::E001 => "SMY-E001",
            Code::E002 => "SMY-E002",
            Code::E003 => "SMY-E003",
            Code::E004 => "SMY-E004",
            Code::W014 => "SMY-W014",
            Code::E080 => "SMY-E080",
            Code::E081 => "SMY-E081",
            Code::E060 => "SMY-E060",
            Code::E061 => "SMY-E061",
            Code::W062 => "SMY-W062",
            Code::E070 => "SMY-E070",
            Code::E071 => "SMY-E071",
            Code::E072 => "SMY-E072",
            Code::W110 => "SMY-W110",
            Code::E020 => "SMY-E020",
            Code::E021 => "SMY-E021",
            Code::E022 => "SMY-E022",
            Code::E023 => "SMY-E023",
            Code::W024 => "SMY-W024",
            Code::E040 => "SMY-E040",
            Code::W041 => "SMY-W041",
            Code::E030 => "SMY-E030",
            Code::E031 => "SMY-E031",
            Code::E032 => "SMY-E032",
            Code::E033 => "SMY-E033",
            Code::E034 => "SMY-E034",
            Code::W035 => "SMY-W035",
            Code::W036 => "SMY-W036",
            Code::E050 => "SMY-E050",
            Code::E051 => "SMY-E051",
            Code::W052 => "SMY-W052",
            Code::W053 => "SMY-W053",
            Code::W054 => "SMY-W054",
            Code::W055 => "SMY-W055",
            Code::E200 => "SMY-E200",
            Code::E201 => "SMY-E201",
            Code::W202 => "SMY-W202",
            Code::E210 => "SMY-E210",
            Code::W211 => "SMY-W211",
            Code::W010 => "SMY-W010",
            Code::E011 => "SMY-E011",
            Code::E012 => "SMY-E012",
            Code::W013 => "SMY-W013",
            Code::E300 => "SMY-E300",
            Code::E301 => "SMY-E301",
            Code::E302 => "SMY-E302",
            Code::W303 => "SMY-W303",
            Code::W304 => "SMY-W304",
            Code::W305 => "SMY-W305",
            Code::W306 => "SMY-W306",
        }
    }

    /// Distinct variants have distinct names.
    pub proof fn lemma_str_view_injective()
        ensures
            forall|a: Code, b: Code| a.str_view() == b.str_view() ==> a == b,
    {
        reveal_strlit("SMY-E001");
        assert(Code::E001.str_view().len() == 8);
        assert(Code::E001.str_view()[6] == '0');
        assert(Code::E001.str_view()[7] == '1');
        assert(Code::E001.str_view()[5] == '0');
        reveal_strlit("SMY-E002");
        assert(Code::E002.str_view().len() == 8);
        assert(Code::E002.str_view()[6] == '0');
        assert(Code::E002.str_view()[7] == '2');
        assert(Code::E002.str_view()[5] == '0');
        reveal_strlit("SMY-E003");
        assert(Code::E003.str_view().len() == 8);
        assert(Code::E003.str_view()[6] == '0');
        assert(Code::E003.str_view()[7] == '3');
        assert(Code::E003.str_view()[5] == '0');
        reveal_strlit("SMY-E004");
        assert(Code::E004.str_view().len() == 8);
        assert(Code::E004.str_view()[6] == '0');
        assert(Code::E004.str_view()[7] == '4');
        assert(Code::E004.str_view()[5] == '0');
        reveal_strlit("SMY-W014");
        assert(Code::W014.str_view().len() == 8);
        assert(Code::W014.str_view()[6] == '1');
        assert(Code::W014.str_view()[7] == '4');
        assert(Code::W014.str_view()[5] == '0');
        reveal_strlit("SMY-E080");
        assert(Code::E080.str_view().len() == 8);
        assert(Code::E080.str_view()[6] == '8');
        assert(Code::E080.str_view()[7] == '0');
        assert(Code::E080.str_view()[5] == '0');
        reveal_strlit("SMY-E081");
        assert(Code::E081.str_view().len() == 8);
        assert(Code::E081.str_view()[6] == '8');
        assert(Code::E081.str_view()[7] == '1');
        assert(Code::E081.str_view()[5] == '0');
        reveal_strlit("SMY-E060");
        assert(Code::E060.str_view().len() == 8);
        assert(Code::E060.str_view()[6] == '6');
        assert(Code::E060.str_view()[7] == '0');
        assert(Code::E060.str_view()[5] == '0');
        reveal_strlit("SMY-E061");
        assert(Code::E061.str_view().len() == 8);
        assert(Code::E061.str_view()[6] == '6');
        assert(Code::E061.str_view()[7] == '1');
        assert(Code::E061.str_view()[5] == '0');
        reveal_strlit("SMY-W062");
        assert(Code::W062.str_view().len() == 8);
        assert(Code::W062.str_view()[6] == '6');
        assert(Code::W062.str_view()[7] == '2');
        assert(Code::W062.str_view()[5] == '0');
        reveal_strlit("SMY-E070");
        assert(Code::E070.str_view().len() == 8);
        assert(Code::E070.str_view()[6] == '7');
        assert(Code::E070.str_view()[7] == '0');
        assert(Code::E070.str_view()[5] == '0');
        reveal_strlit("SMY-E071");
        assert(Code::E071.str_view().len() == 8);
        assert(Code::E071.str_view()[6] == '7');
        assert(Code::E071.str_view()[7] == '1');
        assert(Code::E071.str_view()[5] == '0');
        reveal_strlit("SMY-E072");
        assert(Code::E072.str_view().len() == 8);
        assert(Code::E072.str_view()[6] == '7');
        assert(Code::E072.str_view()[7] == '2');
        assert(Code::E072.str_view()[5] == '0');
        reveal_strlit("SMY-W110");
        assert(Code::W110.str_view().len() == 8);
        assert(Code::W110.str_view()[6] == '1');
        assert(Code::W110.str_view()[7] == '0');
        assert(Code::W110.str_view()[5] == '1');
        reveal_strlit("SMY-E020");
        assert(Code::E020.str_view().len() == 8);
        assert(Code::E020.str_view()[6] == '2');
        assert(Code::E020.str_view()[7] == '0');
        assert(Code::E020.str_view()[5] == '0');
        reveal_strlit("SMY-E021");
        assert(Code::E021.str_view().len() == 8);
        assert(Code::E021.str_view()[6] == '2');
        assert(Code::E021.str_view()[7] == '1');
        assert(Code::E021.str_view()[5] == '0');
        reveal_strlit("SMY-E022");
        assert(Code::E022.str_view().len() == 8);
        assert(Code::E022.str_view()[6] == '2');
        assert(Code::E022.str_view()[7] == '2');
        assert(Code::E022.str_view()[5] == '0');
        reveal_strlit("SMY-E023");
        assert(Code::E023.str_view().len() == 8);
        assert(Code::E023.str_view()[6] == '2');
        assert(Code::E023.str_view()[7] == '3');
        assert(Code::E023.str_view()[5] == '0');
        reveal_strlit("SMY-W024");
        assert(Code::W024.str_view().len() == 8);
        assert(Code::W024.str_view()[6] == '2');
        assert(Code::W024.str_view()[7] == '4');
        assert(Code::W024.str_view()[5] == '0');
        reveal_strlit("SMY-E040");
        assert(Code::E040.str_view().len() == 8);
        assert(Code::E040.str_view()[6] == '4');
        assert(Code::E040.str_view()[7] == '0');
        assert(Code::E040.str_view()[5] == '0');
        reveal_strlit("SMY-W041");
        assert(Code::W041.str_view().len() == 8);
        assert(Code::W041.str_view()[6] == '4');
        assert(Code::W041.str_view()[7] == '1');
        assert(Code::W041.str_view()[5] == '0');
        reveal_strlit("SMY-E030");
        assert(Code::E030.str_view().len() == 8);
        assert(Code::E030.str_view()[6] == '3');
        assert(Code::E030.str_view()[7] == '0');
        assert(Code::E030.str_view()[5] == '0');
        reveal_strlit("SMY-E031");
        assert(Code::E031.str_view().len() == 8);
        assert(Code::E031.str_view()[6] == '3');
        assert(Code::E031.str_view()[7] == '1');
        assert(Code::E031.str_view()[5] == '0');
        reveal_strlit("SMY-E032");
        assert(Code::E032.str_view().len() == 8);
        assert(Code::E032.str_view()[6] == '3');
        assert(Code::E032.str_view()[7] == '2');
        assert(Code::E032.str_view()[5] == '0');
        reveal_strlit("SMY-E033");
        assert(Code::E033.str_view().len() == 8);
        assert(Code::E033.str_view()[6] == '3');
        assert(Code::E033.str_view()[7] == '3');
        assert(Code::E033.str_view()[5] == '0');
        reveal_strlit("SMY-E034");
        assert(Code::E034.str_view().len() == 8);
        assert(Code::E034.str_view()[6] == '3');
        assert(Code::E034.str_view()[7] == '4');
        assert(Code::E034.str_view()[5] == '0');
        reveal_strlit("SMY-W035");
        assert(Code::W035.str_view().len() == 8);
        assert(Code::W035.str_view()[6] == '3');
        assert(Code::W035.str_view()[7] == '5');
        assert(Code::W035.str_view()[5] == '0');
        reveal_strlit("SMY-W036");
        assert(Code::W036.str_view().len() == 8);
        assert(Code::W036.str_view()[6] == '3');
        assert(Code::W036.str_view()[7] == '6');
        assert(Code::W036.str_view()[5] == '0');
        reveal_strlit("SMY-E050");
        assert(Code::E050.str_view().len() == 8);
        assert(Code::E050.str_view()[6] == '5');
        assert(Code::E050.str_view()[7] == '0');
        assert(Code::E050.str_view()[5] == '0');
        reveal_strlit("SMY-E051");
        assert(Code::E051.str_view().len() == 8);
        assert(Code::E051.str_view()[6] == '5');
        assert(Code::E051.str_view()[7] == '1');
        assert(Code::E051.str_view()[5] == '0');
        reveal_strlit("SMY-W052");
        assert(Code::W052.str_view().len() == 8);
        assert(Code::W052.str_view()[6] == '5');
        assert(Code::W052.str_view()[7] == '2');
        assert(Code::W052.str_view()[5] == '0');
        reveal_strlit("SMY-W053");
        assert(Code::W053.str_view().len() == 8);
        assert(Code::W053.str_view()[6] == '5');
        assert(Code::W053.str_view()[7] == '3');
        assert(Code::W053.str_view()[5] == '0');
        reveal_strlit("SMY-W054");
        assert(Code::W054.str_view().len() == 8);
        assert(Code::W054.str_view()[6] == '5');
        assert(Code::W054.str_view()[7] == '4');
        assert(Code::W054.str_view()[5] == '0');
        reveal_strlit("SMY-W055");
        assert(Code::W055.str_view().len() == 8);
        assert(Code::W055.str_view()[6] == '5');
        assert(Code::W055.str_view()[7] == '5');
        assert(Code::W055.str_view()[5] == '0');
        reveal_strlit("SMY-E200");
        assert(Code::E200.str_view().len() == 8);
        assert(Code::E200.str_view()[6] == '0');
        assert(Code::E200.str_view()[7] == '0');
        assert(Code::E200.str_view()[5] == '2');
        reveal_strlit("SMY-E201");
        assert(Code::E201.str_view().len() == 8);
        assert(Code::E201.str_view()[6] == '0');
        assert(Code::E201.str_view()[7] == '1');
        assert(Code::E201.str_view()[5] == '2');
        reveal_strlit("SMY-W202");
        assert(Code::W202.str_view().len() == 8);
        assert(Code::W202.str_view()[6] == '0');
        assert(Code::W202.str_view()[7] == '2');
        assert(Code::W202.str_view()[5] == '2');
        reveal_strlit("SMY-E210");
        assert(Code::E210.str_view().len() == 8);
        assert(Code::E210.str_view()[6] == '1');
        assert(Code::E210.str_view()[7] == '0');
        assert(Code::E210.str_view()[5] == '2');
        reveal_strlit("SMY-W211");
        assert(Code::W211.str_view().len() == 8);
        assert(Code::W211.str_view()[6] == '1');
        assert(Code::W211.str_view()[7] == '1');
        assert(Code::W211.str_view()[5] == '2');
        reveal_strlit("SMY-W010");
        assert(Code::W010.str_view().len() == 8);
        assert(Code::W010.str_view()[6] == '1');
        assert(Code::W010.str_view()[7] == '0');
        assert(Code::W010.str_view()[5] == '0');
        reveal_strlit("SMY-E011");
        assert(Code::E011.str_view().len() == 8);
        assert(Code::E011.str_view()[6] == '1');
        assert(Code::E011.str_view()[7] == '1');
        assert(Code::E011.str_view()[5] == '0');
        reveal_strlit("SMY-E012");
        assert(Code::E012.str_view().len() == 8);
        assert(Code::E012.str_view()[6] == '1');
        assert(Code::E012.str_view()[7] == '2');
        assert(Code::E012.str_view()[5] == '0');
        reveal_strlit("SMY-W013");
        assert(Code::W013.str_view().len() == 8);
        assert(Code::W013.str_view()[6] == '1');
        assert(Code::W013.str_view()[7] == '3');
        assert(Code::W013.str_view()[5] == '0');
        reveal_strlit("SMY-E300");
        assert(Code::E300.str_view().len() == 8);
        assert(Code::E300.str_view()[6] == '0');
        assert(Code::E300.str_view()[7] == '0');
        assert(Code::E300.str_view()[5] == '3');
        reveal_strlit("SMY-E301");
        assert(Code::E301.str_view().len() == 8);
        assert(Code::E301.str_view()[6] == '0');
        assert(Code::E301.str_view()[7] == '1');
        assert(Code::E301.str_view()[5] == '3');
        reveal_strlit("SMY-E302");
        assert(Code::E302.str_view().len() == 8);
        assert(Code::E302.str_view()[6] == '0');
        assert(Code::E302.str_view()[7] == '2');
        assert(Code::E302.str_view()[5] == '3');
        reveal_strlit("SMY-W303");
        assert(Code::W303.str_view().len() == 8);
        assert(Code::W303.str_view()[6] == '0');
        assert(Code::W303.str_view()[7] == '3');
        assert(Code::W303.str_view()[5] == '3');
        reveal_strlit("SMY-W304");
        assert(Code::W304.str_view().len() == 8);
        assert(Code::W304.str_view()[6] == '0');
        assert(Code::W304.str_view()[7] == '4');
        assert(Code::W304.str_view()[5] == '3');
        reveal_strlit("SMY-W305");
        assert(Code::W305.str_view().len() == 8);
        assert(Code::W305.str_view()[6] == '0');
        assert(Code::W305.str_view()[7] == '5');
        assert(Code::W305.str_view()[5] == '3');
        reveal_strlit("SMY-W306");
        assert(Code::W306.str_view().len() == 8);
        assert(Code::W306.str_view()[6] == '0');
        assert(Code::W306.str_view()[7] == '6');
        assert(Code::W306.str_view()[5] == '3');
        assert forall|a: Code, b: Code| a.str_view() == b.str_view() implies a == b by {
            assert(a.str_view().len() == b.str_view().len());
            assert(a.str_view()[6] == b.str_view()[6]);
            assert(a.str_view()[7] == b.str_view()[7]);
            assert(a.str_view()[5] == b.str_view()[5]);
        }
    }

    /// The variant whose name is exactly `s`.
    pub fn parse(s: &str) -> (r: Option<Code>)
        ensures
            forall|k: Code| r == Some(k) <==> k.str_view() == s@,
            r is None <==> forall|k: Code| k.str_view() != s@,
    {
        proof {
            Code::lemma_str_view_injective();
        }
        if crate::text::str_eq(s, "SMY-E001") {
            assert(Code::E001.str_view() == s@);
            return Some(Code::E001);
        }
        if crate::text::str_eq(s, "SMY-E002") {
            assert(Code::E002.str_view() == s@);
            return Some(Code::E002);
        }
        if crate::text::str_eq(s, "SMY-E003") {
            assert(Code::E003.str_view() == s@);
            return Some(Code::E003);
        }
        if crate::text::str_eq(s, "SMY-E004") {
            assert(Code::E004.str_view() == s@);
            return Some(Code::E004);
        }
        if crate::text::str_eq(s, "SMY-W014") {
            assert(Code::W014.str_view() == s@);
            return Some(Code::W014);
        }
        if crate::text::str_eq(s, "SMY-E080") {
            assert(Code::E080.str_view() == s@);
            return Some(Code::E080);
        }
        if crate::text::str_eq(s, "SMY-E081") {
            assert(Code::E081.str_view() == s@);
            return Some(Code::E081);
        }
        if crate::text::str_eq(s, "SMY-E060") {
            assert(Code::E060.str_view() == s@);
            return Some(Code::E060);
        }
        if crate::text::str_eq(s, "SMY-E061") {
            assert(Code::E061.str_view() == s@);
            return Some(Code::E061);
        }
        if crate::text::str_eq(s, "SMY-W062") {
            assert(Code::W062.str_view() == s@);
            return Some(Code::W062);
        }
        if crate::text::str_eq(s, "SMY-E070") {
            assert(Code::E070.str_view() == s@);
            return Some(Code::E070);
        }
        if crate::text::str_eq(s, "SMY-E071") {
            assert(Code::E071.str_view() == s@);
            return Some(Code::E071);
        }
        if crate::text::str_eq(s, "SMY-E072") {
            assert(Code::E072.str_view() == s@);
            return Some(Code::E072);
        }
        if crate::text::str_eq(s, "SMY-W110") {
            assert(Code::W110.str_view() == s@);
            return Some(Code::W110);
        }
        if crate::text::str_eq(s, "SMY-E020") {
            assert(Code::E020.str_view() == s@);
            return Some(Code::E020);
        }
        if crate::text::str_eq(s, "SMY-E021") {
            assert(Code::E021.str_view() == s@);
            return Some(Code::E021);
        }
        if crate::text::str_eq(s, "SMY-E022") {
            assert(Code::E022.str_view() == s@);
            return Some(Code::E022);
        }
        if crate::text::str_eq(s, "SMY-E023") {
            assert(Code::E023.str_view() == s@);
            return Some(Code::E023);
        }
        if crate::text::str_eq(s, "SMY-W024") {
            assert(Code::W024.str_view() == s@);
            return Some(Code::W024);
        }
        if crate::text::str_eq(s, "SMY-E040") {
            assert(Code::E040.str_view() == s@);
            return Some(Code::E040);
        }
        if crate::text::str_eq(s, "SMY-W041") {
            assert(Code::W041.str_view() == s@);
            return Some(Code::W041);
        }
        if crate::text::str_eq(s, "SMY-E030") {
            assert(Code::E030.str_view() == s@);
            return Some(Code::E030);
        }
        if crate::text::str_eq(s, "SMY-E031") {
            assert(Code::E031.str_view() == s@);
            return Some(Code::E031);
        }
        if crate::text::str_eq(s, "SMY-E032") {
            assert(Code::E032.str_view() == s@);
            return Some(Code::E032);
        }
        if crate::text::str_eq(s, "SMY-E033") {
            assert(Code::E033.str_view() == s@);
            return Some(Code::E033);
        }
        if crate::text::str_eq(s, "SMY-E034") {
            assert(Code::E034.str_view() == s@);
            return Some(Code::E034);
        }
        if crate::text::str_eq(s, "SMY-W035") {
            assert(Code::W035.str_view() == s@);
            return Some(Code::W035);
        }
        if crate::text::str_eq(s, "SMY-W036") {
            assert(Code::W036.str_view() == s@);
            return Some(Code::W036);
        }
        if crate::text::str_eq(s, "SMY-E050") {
            assert(Code::E050.str_view() == s@);
            return Some(Code::E050);
        }
        if crate::text::str_eq(s, "SMY-E051") {
            assert(Code::E051.str_view() == s@);
            return Some(Code::E051);
        }
        if crate::text::str_eq(s, "SMY-W052") {
            assert(Code::W052.str_view() == s@);
            return Some(Code::W052);
        }
        if crate::text::str_eq(s, "SMY-W053") {
            assert(Code::W053.str_view() == s@);
            return Some(Code::W053);
        }
        if crate::text::str_eq(s, "SMY-W054") {
            assert(Code::W054.str_view() == s@);
            return Some(Code::W054);
        }
        if crate::text::str_eq(s, "SMY-W055") {
            assert(Code::W055.str_view() == s@);
            return Some(Code::W055);
        }
        if crate::text::str_eq(s, "SMY-E200") {
            assert(Code::E200.str_view() == s@);
            return Some(Code::E200);
        }
        if crate::text::str_eq(s, "SMY-E201") {
            assert(Code::E201.str_view() == s@);
            return Some(Code::E201);
        }
        if crate::text::str_eq(s, "SMY-W202") {
            assert(Code::W202.str_view() == s@);
            return Some(Code::W202);
        }
        if crate::text::str_eq(s, "SMY-E210") {
            assert(Code::E210.str_view() == s@);
            return Some(Code::E210);
        }
        if crate::text::str_eq(s, "SMY-W211") {
            assert(Code::W211.str_view() == s@);
            return Some(Code::W211);
        }
        if crate::text::str_eq(s, "SMY-W010") {
            assert(Code::W010.str_view() == s@);
            return Some(Code::W010);
        }
        if crate::text::str_eq(s, "SMY-E011") {
            assert(Code::E011.str_view() == s@);
            return Some(Code::E011);
        }
        if crate::text::str_eq(s, "SMY-E012") {
            assert(Code::E012.str_view() == s@);
            return Some(Code::E012);
        }
        if crate::text::str_eq(s, "SMY-W013") {
            assert(Code::W013.str_view() == s@);
            return Some(Code::W013);
        }
        if crate::text::str_eq(s, "SMY-E300") {
            assert(Code::E300.str_view() == s@);
            return Some(Code::E300);
        }
        if crate::text::str_eq(s, "SMY-E301") {
            assert(Code::E301.str_view() == s@);
            return Some(Code::E301);
        }
        if crate::text::str_eq(s, "SMY-E302") {
            assert(Code::E302.str_view() == s@);
            return Some(Code::E302);
        }
        if crate::text::str_eq(s, "SMY-W303") {
            assert(Code::W303.str_view() == s@);
            return Some(Code::W303);
        }
        if crate::text::str_eq(s, "SMY-W304") {
            assert(Code::W304.str_view() == s@);
            return Some(Code::W304);
        }
        if crate::text::str_eq(s, "SMY-W305") {
            assert(Code::W305.str_view() == s@);
            return Some(Code::W305);
        }
        if crate::text::str_eq(s, "SMY-W306") {
            assert(Code::W306.str_view() == s@);
            return Some(Code::W306);
        }
        proof {
            assert forall|k: Code| k.str_view() != s@ by {
                match k {
                    Code::E001 => {},
                    Code::E002 => {},
                    Code::E003 => {},
                    Code::E004 => {},
                    Code::W014 => {},
                    Code::E080 => {},
                    Code::E081 => {},
                    Code::E060 => {},
                    Code::E061 => {},
                    Code::W062 => {},
                    Code::E070 => {},
                    Code::E071 => {},
                    Code::E072 => {},
                    Code::W110 => {},
                    Code::E020 => {},
                    Code::E021 => {},
                    Code::E022 => {},
                    Code::E023 => {},
                    Code::W024 => {},
                    Code::E040 => {},
                    Code::W041 => {},
                    Code::E030 => {},
                    Code::E031 => {},
                    Code::E032 => {},
                    Code::E033 => {},
                    Code::E034 => {},
                    Code::W035 => {},
                    Code::W036 => {},
                    Code::E050 => {},
                    Code::E051 => {},
                    Code::W052 => {},
                    Code::W053 => {},
                    Code::W054 => {},
                    Code::W055 => {},
                    Code::E200 => {},
                    Code::E201 => {},
                    Code::W202 => {},
                    Code::E210 => {},
                    Code::W211 => {},
                    Code::W010 => {},
                    Code::E011 => {},
                    Code::E012 => {},
                    Code::W013 => {},
                    Code::E300 => {},
                    Code::E301 => {},
                    Code::E302 => {},
                    Code::W303 => {},
                    Code::W304 => {},
                    Code::W305 => {},
                    Code::W306 => {},
                }
            }
        }
        None
    }

}

impl Code {
    /// The position of this code in the registry, which is its order.
    pub open spec fn index_view(self) -> u8 {
        match self {
            Code::E001 => 0u8,
            Code::E002 => 1u8,
            Code::E003 => 2u8,
            Code::E004 => 3u8,
            Code::W014 => 4u8,
            Code::E080 => 5u8,
            Code::E081 => 6u8,
            Code::E060 => 7u8,
            Code::E061 => 8u8,
            Code::W062 => 9u8,
            Code::E070 => 10u8,
            Code::E071 => 11u8,
            Code::E072 => 12u8,
            Code::W110 => 13u8,
            Code::E020 => 14u8,
            Code::E021 => 15u8,
            Code::E022 => 16u8,
            Code::E023 => 17u8,
            Code::W024 => 18u8,
            Code::E040 => 19u8,
            Code::W041 => 20u8,
            Code::E030 => 21u8,
            Code::E031 => 22u8,
            Code::E032 => 23u8,
            Code::E033 => 24u8,
            Code::E034 => 25u8,
            Code::W035 => 26u8,
            Code::W036 => 27u8,
            Code::E050 => 28u8,
            Code::E051 => 29u8,
            Code::W052 => 30u8,
            Code::W053 => 31u8,
            Code::W054 => 32u8,
            Code::W055 => 33u8,
            Code::E200 => 34u8,
            Code::E201 => 35u8,
            Code::W202 => 36u8,
            Code::E210 => 37u8,
            Code::W211 => 38u8,
            Code::W010 => 39u8,
            Code::E011 => 40u8,
            Code::E012 => 41u8,
            Code::W013 => 42u8,
            Code::E300 => 43u8,
            Code::E301 => 44u8,
            Code::E302 => 45u8,
            Code::W303 => 46u8,
            Code::W304 => 47u8,
            Code::W305 => 48u8,
            Code::W306 => 49u8,
        }
    }

    /// The position of this code in the registry.
    pub fn index(self) -> (r: u8)
        ensures
            r == self.index_view(),
    {
        match self {
            Code::E001 => 0,
            Code::E002 => 1,
            Code::E003 => 2,
            Code::E004 => 3,
            Code::W014 => 4,
            Code::E080 => 5,
            Code::E081 => 6,
            Code::E060 => 7,
            Code::E061 => 8,
            Code::W062 => 9,
            Code::E070 => 10,
            Code::E071 => 11,
            Code::E072 => 12,
            Code::W110 => 13,
            Code::E020 => 14,
            Code::E021 => 15,
            Code::E022 => 16,
            Code::E023 => 17,
            Code::W024 => 18,
            Code::E040 => 19,
            Code::W041 => 20,
            Code::E030 => 21,
            Code::E031 => 22,
            Code::E032 => 23,
            Code::E033 => 24,
            Code::E034 => 25,
            Code::W035 => 26,
            Code::W036 => 27,
            Code::E050 => 28,
            Code::E051 => 29,
            Code::W052 => 30,
            Code::W053 => 31,
            Code::W054 => 32,
            Code::W055 => 33,
            Code::E200 => 34,
            Code::E201 => 35,
            Code::W202 => 36,
            Code::E210 => 37,
            Code::W211 => 38,
            Code::W010 => 39,
            Code::E011 => 40,
            Code::E012 => 41,
            Code::W013 => 42,
            Code::E300 => 43,
            Code::E301 => 44,
            Code::E302 => 45,
            Code::W303 => 46,
            Code::W304 => 47,
            Code::W305 => 48,
            Code::W306 => 49,
        }
    }

    /// The code at a registry position.
    pub fn at_index(i: u8) -> (r: Option<Code>)
        ensures
            match r {
                Some(c) => c.index_view() == i,
                None => i >= 50,
            },
    {
        match i {
            0 => Some(Code::E001),
            1 => Some(Code::E002),
            2 => Some(Code::E003),
            3 => Some(Code::E004),
            4 => Some(Code::W014),
            5 => Some(Code::E080),
            6 => Some(Code::E081),
            7 => Some(Code::E060),
            8 => Some(Code::E061),
            9 => Some(Code::W062),
            10 => Some(Code::E070),
            11 => Some(Code::E071),
            12 => Some(Code::E072),
            13 => Some(Code::W110),
            14 => Some(Code::E020),
            15 => Some(Code::E021),
            16 => Some(Code::E022),
            17 => Some(Code::E023),
            18 => Some(Code::W024),
            19 => Some(Code::E040),
            20 => Some(Code::W041),
            21 => Some(Code::E030),
            22 => Some(Code::E031),
            23 => Some(Code::E032),
            24 => Some(Code::E033),
            25 => Some(Code::E034),
            26 => Some(Code::W035),
            27 => Some(Code::W036),
            28 => Some(Code::E050),
            29 => Some(Code::E051),
            30 => Some(Code::W052),
            31 => Some(Code::W053),
            32 => Some(Code::W054),
            33 => Some(Code::W055),
            34 => Some(Code::E200),
            35 => Some(Code::E201),
            36 => Some(Code::W202),
            37 => Some(Code::E210),
            38 => Some(Code::W211),
            39 => Some(Code::W010),
            40 => Some(Code::E011),
            41 => Some(Code::E012),
            42 => Some(Code::W013),
            43 => Some(Code::E300),
            44 => Some(Code::E301),
            45 => Some(Code::E302),
            46 => Some(Code::W303),
            47 => Some(Code::W304),
            48 => Some(Code::W305),
            49 => Some(Code::W306),
            _ => None,
        }
    }
}

impl Code {
    /// The code at a registry position.
    pub open spec fn from_index_view(i: u8) -> Code {
        if i == 0 {
            Code::E001
        } else if i == 1 {
            Code::E002
        } else if i == 2 {
            Code::E003
        } else if i == 3 {
            Code::E004
        } else if i == 4 {
            Code::W014
        } else if i == 5 {
            Code::E080
        } else if i == 6 {
            Code::E081
        } else if i == 7 {
            Code::E060
        } else if i == 8 {
            Code::E061
        } else if i == 9 {
            Code::W062
        } else if i == 10 {
            Code::E070
        } else if i == 11 {
            Code::E071
        } else if i == 12 {
            Code::E072
        } else if i == 13 {
            Code::W110
        } else if i == 14 {
            Code::E020
        } else if i == 15 {
            Code::E021
        } else if i == 16 {
            Code::E022
        } else if i == 17 {
            Code::E023
        } else if i == 18 {
            Code::W024
        } else if i == 19 {
            Code::E040
        } else if i == 20 {
            Code::W041
        } else if i == 21 {
            Code::E030
        } else if i == 22 {
            Code::E031
        } else if i == 23 {
            Code::E032
        } else if i == 24 {
            Code::E033
        } else if i == 25 {
            Code::E034
        } else if i == 26 {
            Code::W035
        } else if i == 27 {
            Code::W036
        } else if i == 28 {
            Code::E050
        } else if i == 29 {
            Code::E051
        } else if i == 30 {
            Code::W052
        } else if i == 31 {
            Code::W053
        } else if i == 32 {
            Code::W054
        } else if i == 33 {
            Code::W055
        } else if i == 34 {
            Code::E200
        } else if i == 35 {
            Code::E201
        } else if i == 36 {
            Code::W202
        } else if i == 37 {
            Code::E210
        } else if i == 38 {
            Code::W211
        } else if i == 39 {
            Code::W010
        } else if i == 40 {
            Code::E011
        } else if i == 41 {
            Code::E012
        } else if i == 42 {
            Code::W013
        } else if i == 43 {
            Code::E300
        } else if i == 44 {
            Code::E301
        } else if i == 45 {
            Code::E302
        } else if i == 46 {
            Code::W303
        } else if i == 47 {
            Code::W304
        } else if i == 48 {
            Code::W305
        } else {
            Code::W306
        }
    }

    /// Distinct codes sit at distinct registry positions.
    pub proof fn lemma_index_injective(a: Code, b: Code)
        ensures
            a.index_view() == b.index_view() ==> a == b,
    {
        assert(Code::from_index_view(a.index_view()) == a) by {
            match a {
                Code::E001 => {},
                Code::E002 => {},
                Code::E003 => {},
                Code::E004 => {},
                Code::W014 => {},
                Code::E080 => {},
                Code::E081 => {},
                Code::E060 => {},
                Code::E061 => {},
                Code::W062 => {},
                Code::E070 => {},
                Code::E071 => {},
                Code::E072 => {},
                Code::W110 => {},
                Code::E020 => {},
                Code::E021 => {},
                Code::E022 => {},
                Code::E023 => {},
                Code::W024 => {},
                Code::E040 => {},
                Code::W041 => {},
                Code::E030 => {},
                Code::E031 => {},
                Code::E032 => {},
                Code::E033 => {},
                Code::E034 => {},
                Code::W035 => {},
                Code::W036 => {},
                Code::E050 => {},
                Code::E051 => {},
                Code::W052 => {},
                Code::W053 => {},
                Code::W054 => {},
                Code::W055 => {},
                Code::E200 => {},
                Code::E201 => {},
                Code::W202 => {},
                Code::E210 => {},
                Code::W211 => {},
                Code::W010 => {},
                Code::E011 => {},
                Code::E012 => {},
                Code::W013 => {},
                Code::E300 => {},
                Code::E301 => {},
                Code::E302 => {},
                Code::W303 => {},
                Code::W304 => {},
                Code::W305 => {},
                Code::W306 => {},
            }
        }
        assert(Code::from_index_view(b.index_view()) == b) by {
            match b {
                Code::E001 => {},
                Code::E002 => {},
                Code::E003 => {},
                Code::E004 => {},
                Code::W014 => {},
                Code::E080 => {},
                Code::E081 => {},
                Code::E060 => {},
                Code::E061 => {},
                Code::W062 => {},
                Code::E070 => {},
                Code::E071 => {},
                Code::E072 => {},
                Code::W110 => {},
                Code::E020 => {},
                Code::E021 => {},
                Code::E022 => {},
                Code::E023 => {},
                Code::W024 => {},
                Code::E040 => {},
                Code::W041 => {},
                Code::E030 => {},
                Code::E031 => {},
                Code::E032 => {},
                Code::E033 => {},
                Code::E034 => {},
                Code::W035 => {},
                Code::W036 => {},
                Code::E050 => {},
                Code::E051 => {},
                Code::W052 => {},
                Code::W053 => {},
                Code::W054 => {},
                Code::W055 => {},
                Code::E200 => {},
                Code::E201 => {},
                Code::W202 => {},
                Code::E210 => {},
                Code::W211 => {},
                Code::W010 => {},
                Code::E011 => {},
                Code::E012 => {},
                Code::W013 => {},
                Code::E300 => {},
                Code::E301 => {},
                Code::E302 => {},
                Code::W303 => {},
                Code::W304 => {},
                Code::W305 => {},
                Code::W306 => {},
            }
        }
    }
}

impl Code {
    /// The severity this code is always emitted at.
    pub open spec fn severity_view(self) -> Severity {
        match self {
            Code::E001 => Severity::Error,
            Code::E002 => Severity::Error,
            Code::E003 => Severity::Error,
            Code::E004 => Severity::Error,
            Code::W014 => Severity::Warn,
            Code::E080 => Severity::Error,
            Code::E081 => Severity::Error,
            Code::E060 => Severity::Error,
            Code::E061 => Severity::Error,
            Code::W062 => Severity::Warn,
            Code::E070 => Severity::Error,
            Code::E071 => Severity::Error,
            Code::E072 => Severity::Error,
            Code::W110 => Severity::Warn,
            Code::E020 => Severity::Error,
            Code::E021 => Severity::Error,
            Code::E022 => Severity::Error,
            Code::E023 => Severity::Error,
            Code::W024 => Severity::Warn,
            Code::E040 => Severity::Error,
            Code::W041 => Severity::Warn,
            Code::E030 => Severity::Error,
            Code::E031 => Severity::Error,
            Code::E032 => Severity::Error,
            Code::E033 => Severity::Error,
            Code::E034 => Severity::Error,
            Code::W035 => Severity::Warn,
            Code::W036 => Severity::Warn,
            Code::E050 => Severity::Error,
            Code::E051 => Severity::Error,
            Code::W052 => Severity::Warn,
            Code::W053 => Severity::Warn,
            Code::W054 => Severity::Warn,
            Code::W055 => Severity::Warn,
            Code::E200 => Severity::Error,
            Code::E201 => Severity::Error,
            Code::W202 => Severity::Warn,
            Code::E210 => Severity::Error,
            Code::W211 => Severity::Warn,
            Code::W010 => Severity::Warn,
            Code::E011 => Severity::Error,
            Code::E012 => Severity::Error,
            Code::W013 => Severity::Warn,
            Code::E300 => Severity::Error,
            Code::E301 => Severity::Error,
            Code::E302 => Severity::Error,
            Code::W303 => Severity::Warn,
            Code::W304 => Severity::Warn,
            Code::W305 => Severity::Warn,
            Code::W306 => Severity::Warn,
        }
    }

    pub fn severity(self) -> (r: Severity)
        ensures
            r == self.severity_view(),
    {
        match self {
            Code::E001 => Severity::Error,
            Code::E002 => Severity::Error,
            Code::E003 => Severity::Error,
            Code::E004 => Severity::Error,
            Code::W014 => Severity::Warn,
            Code::E080 => Severity::Error,
            Code::E081 => Severity::Error,
            Code::E060 => Severity::Error,
            Code::E061 => Severity::Error,
            Code::W062 => Severity::Warn,
            Code::E070 => Severity::Error,
            Code::E071 => Severity::Error,
            Code::E072 => Severity::Error,
            Code::W110 => Severity::Warn,
            Code::E020 => Severity::Error,
            Code::E021 => Severity::Error,
            Code::E022 => Severity::Error,
            Code::E023 => Severity::Error,
            Code::W024 => Severity::Warn,
            Code::E040 => Severity::Error,
            Code::W041 => Severity::Warn,
            Code::E030 => Severity::Error,
            Code::E031 => Severity::Error,
            Code::E032 => Severity::Error,
            Code::E033 => Severity::Error,
            Code::E034 => Severity::Error,
            Code::W035 => Severity::Warn,
            Code::W036 => Severity::Warn,
            Code::E050 => Severity::Error,
            Code::E051 => Severity::Error,
            Code::W052 => Severity::Warn,
            Code::W053 => Severity::Warn,
            Code::W054 => Severity::Warn,
            Code::W055 => Severity::Warn,
            Code::E200 => Severity::Error,
            Code::E201 => Severity::Error,
            Code::W202 => Severity::Warn,
            Code::E210 => Severity::Error,
            Code::W211 => Severity::Warn,
            Code::W010 => Severity::Warn,
            Code::E011 => Severity::Error,
            Code::E012 => Severity::Error,
            Code::W013 => Severity::Warn,
            Code::E300 => Severity::Error,
            Code::E301 => Severity::Error,
            Code::E302 => Severity::Error,
            Code::W303 => Severity::Warn,
            Code::W304 => Severity::Warn,
            Code::W305 => Severity::Warn,
            Code::W306 => Severity::Warn,
        }
    }

    /// The section this code is registered under.
    pub open spec fn group_view(self) -> Group {
        match self {
            Code::E001 => Group::Parse,
            Code::E002 => Group::Parse,
            Code::E003 => Group::Parse,
            Code::E004 => Group::Parse,
            Code::W014 => Group::Parse,
            Code::E080 => Group::Parse,
            Code::E081 => Group::Parse,
            Code::E060 => Group::Identity,
            Code::E061 => Group::Identity,
            Code::W062 => Group::Identity,
            Code::E070 => Group::Identity,
            Code::E071 => Group::Identity,
            Code::E072 => Group::Identity,
            Code::W110 => Group::Identity,
            Code::E020 => Group::Lod,
            Code::E021 => Group::Lod,
            Code::E022 => Group::Lod,
            Code::E023 => Group::Lod,
            Code::W024 => Group::Lod,
            Code::E040 => Group::Lod,
            Code::W041 => Group::Lod,
            Code::E030 => Group::Epistemics,
            Code::E031 => Group::Epistemics,
            Code::E032 => Group::Epistemics,
            Code::E033 => Group::Epistemics,
            Code::E034 => Group::Epistemics,
            Code::W035 => Group::Epistemics,
            Code::W036 => Group::Epistemics,
            Code::E050 => Group::Merge,
            Code::E051 => Group::Merge,
            Code::W052 => Group::Merge,
            Code::W053 => Group::Merge,
            Code::W054 => Group::Merge,
            Code::W055 => Group::Merge,
            Code::E200 => Group::PackRender,
            Code::E201 => Group::PackRender,
            Code::W202 => Group::PackRender,
            Code::E210 => Group::PackRender,
            Code::W211 => Group::PackRender,
            Code::W010 => Group::Extension,
            Code::E011 => Group::Extension,
            Code::E012 => Group::Extension,
            Code::W013 => Group::Extension,
            Code::E300 => Group::Provider,
            Code::E301 => Group::Provider,
            Code::E302 => Group::Provider,
            Code::W303 => Group::Provider,
            Code::W304 => Group::Provider,
            Code::W305 => Group::Provider,
            Code::W306 => Group::Provider,
        }
    }

    pub fn group(self) -> (r: Group)
        ensures
            r == self.group_view(),
    {
        match self {
            Code::E001 => Group::Parse,
            Code::E002 => Group::Parse,
            Code::E003 => Group::Parse,
            Code::E004 => Group::Parse,
            Code::W014 => Group::Parse,
            Code::E080 => Group::Parse,
            Code::E081 => Group::Parse,
            Code::E060 => Group::Identity,
            Code::E061 => Group::Identity,
            Code::W062 => Group::Identity,
            Code::E070 => Group::Identity,
            Code::E071 => Group::Identity,
            Code::E072 => Group::Identity,
            Code::W110 => Group::Identity,
            Code::E020 => Group::Lod,
            Code::E021 => Group::Lod,
            Code::E022 => Group::Lod,
            Code::E023 => Group::Lod,
            Code::W024 => Group::Lod,
            Code::E040 => Group::Lod,
            Code::W041 => Group::Lod,
            Code::E030 => Group::Epistemics,
            Code::E031 => Group::Epistemics,
            Code::E032 => Group::Epistemics,
            Code::E033 => Group::Epistemics,
            Code::E034 => Group::Epistemics,
            Code::W035 => Group::Epistemics,
            Code::W036 => Group::Epistemics,
            Code::E050 => Group::Merge,
            Code::E051 => Group::Merge,
            Code::W052 => Group::Merge,
            Code::W053 => Group::Merge,
            Code::W054 => Group::Merge,
            Code::W055 => Group::Merge,
            Code::E200 => Group::PackRender,
            Code::E201 => Group::PackRender,
            Code::W202 => Group::PackRender,
            Code::E210 => Group::PackRender,
            Code::W211 => Group::PackRender,
            Code::W010 => Group::Extension,
            Code::E011 => Group::Extension,
            Code::E012 => Group::Extension,
            Code::W013 => Group::Extension,
            Code::E300 => Group::Provider,
            Code::E301 => Group::Provider,
            Code::E302 => Group::Provider,
            Code::W303 => Group::Provider,
            Code::W304 => Group::Provider,
            Code::W305 => Group::Provider,
            Code::W306 => Group::Provider,
        }
    }

    /// The registry's one-line meaning.
    pub open spec fn message_view(self) -> Seq<char> {
        match self {
            Code::E001 => "Surface parse error"@,
            Code::E002 => "Unsupported kernel major version"@,
            Code::E003 => "Unsupported format version"@,
            Code::E004 => "Malformed CBOR envelope"@,
            Code::W014 => "Unknown envelope type code - preserved verbatim, skipped semantically"@,
            Code::E080 => "Non-deterministic encoding (key order, indefinite length, non-shortest int, null optional, non-NFC text)"@,
            Code::E081 => "Float not binary32 or not quantised to 1/1024"@,
            Code::E060 => "Dangling reference"@,
            Code::E061 => "Cycle in deps"@,
            Code::W062 => "Cycle in causes or sequences"@,
            Code::E070 => "Hash mismatch - recomputed uid differs from stored uid"@,
            Code::E071 => "Truncated uid in a canonical record"@,
            Code::E072 => "Ambiguous uid prefix"@,
            Code::W110 => "Stale or corrupt index - rebuilding"@,
            Code::E020 => "L1 closure violation - body references a uid absent from deps or grounds"@,
            Code::E021 => "Missing gist"@,
            Code::E022 => "Gist exceeds l0_max"@,
            Code::E023 => "detail without body"@,
            Code::W024 => "Gist appears to depend on body (heuristic; confirm via attest)"@,
            Code::E040 => "Multi-assertion body under single-assertion admission"@,
            Code::W041 => "Body outside l1_range"@,
            Code::E030 => "Rule M violation - status exceeds weakest ground"@,
            Code::E031 => "derived/inferred with empty grounds"@,
            Code::E032 => "measured/cited without source"@,
            Code::E033 => "Rule T violation - status exceeds the ceiling for the attestation's rung"@,
            Code::E034 => "unfounded authored"@,
            Code::W035 => "measured with op: Authored rather than Imported"@,
            Code::W036 => "Rule M applied at ingest - status lowered to what its grounds support"@,
            Code::E050 => "Orphaned grounds - all grounds retracted under strict"@,
            Code::E051 => "Retraction authority not satisfied"@,
            Code::W052 => "Retracted unit retained under advisory"@,
            Code::W053 => "Concurrent supersession materialised as a contention"@,
            Code::W054 => "Label bound to differing uids across views in scope"@,
            Code::W055 => "Agent contention rate exceeds --max-contentions-per-agent"@,
            Code::E200 => "Pack infeasible - C3/C4/C5 unsatisfiable; reports minimum feasible budget"@,
            Code::E201 => "Focus unit absent from store"@,
            Code::W202 => "Greedy mode above exact_threshold; optimality gap reported"@,
            Code::E210 => "Rule V1 - profile lacks a rendering for some status"@,
            Code::W211 => "Rule V2 - contentions suppressed; recorded in output metadata"@,
            Code::W010 => "Unknown schema - degraded fidelity (rule X)"@,
            Code::E011 => "Rule X violation - unrecognised payload dropped on re-emission"@,
            Code::E012 => "Extension schema attempts to weaken a kernel rule"@,
            Code::W013 => "Unknown relation kind treated as elaborates for closure"@,
            Code::E300 => "Provider unreachable, no fallback configured"@,
            Code::E301 => "Offline violation"@,
            Code::E302 => "Context window exceeded after chunking"@,
            Code::W303 => "Structured output unsupported; fell back to the surface path"@,
            Code::W304 => "Span unrepairable; degraded to opaque prose (rule I)"@,
            Code::W305 => "Token count estimated rather than provider-reported"@,
            Code::W306 => "Usage threshold exceeded - informational only, never blocks"@,
        }
    }

    pub fn message(self) -> (r: &'static str)
        ensures
            r@ == self.message_view(),
    {
        match self {
            Code::E001 => "Surface parse error",
            Code::E002 => "Unsupported kernel major version",
            Code::E003 => "Unsupported format version",
            Code::E004 => "Malformed CBOR envelope",
            Code::W014 => "Unknown envelope type code - preserved verbatim, skipped semantically",
            Code::E080 => "Non-deterministic encoding (key order, indefinite length, non-shortest int, null optional, non-NFC text)",
            Code::E081 => "Float not binary32 or not quantised to 1/1024",
            Code::E060 => "Dangling reference",
            Code::E061 => "Cycle in deps",
            Code::W062 => "Cycle in causes or sequences",
            Code::E070 => "Hash mismatch - recomputed uid differs from stored uid",
            Code::E071 => "Truncated uid in a canonical record",
            Code::E072 => "Ambiguous uid prefix",
            Code::W110 => "Stale or corrupt index - rebuilding",
            Code::E020 => "L1 closure violation - body references a uid absent from deps or grounds",
            Code::E021 => "Missing gist",
            Code::E022 => "Gist exceeds l0_max",
            Code::E023 => "detail without body",
            Code::W024 => "Gist appears to depend on body (heuristic; confirm via attest)",
            Code::E040 => "Multi-assertion body under single-assertion admission",
            Code::W041 => "Body outside l1_range",
            Code::E030 => "Rule M violation - status exceeds weakest ground",
            Code::E031 => "derived/inferred with empty grounds",
            Code::E032 => "measured/cited without source",
            Code::E033 => "Rule T violation - status exceeds the ceiling for the attestation's rung",
            Code::E034 => "unfounded authored",
            Code::W035 => "measured with op: Authored rather than Imported",
            Code::W036 => "Rule M applied at ingest - status lowered to what its grounds support",
            Code::E050 => "Orphaned grounds - all grounds retracted under strict",
            Code::E051 => "Retraction authority not satisfied",
            Code::W052 => "Retracted unit retained under advisory",
            Code::W053 => "Concurrent supersession materialised as a contention",
            Code::W054 => "Label bound to differing uids across views in scope",
            Code::W055 => "Agent contention rate exceeds --max-contentions-per-agent",
            Code::E200 => "Pack infeasible - C3/C4/C5 unsatisfiable; reports minimum feasible budget",
            Code::E201 => "Focus unit absent from store",
            Code::W202 => "Greedy mode above exact_threshold; optimality gap reported",
            Code::E210 => "Rule V1 - profile lacks a rendering for some status",
            Code::W211 => "Rule V2 - contentions suppressed; recorded in output metadata",
            Code::W010 => "Unknown schema - degraded fidelity (rule X)",
            Code::E011 => "Rule X violation - unrecognised payload dropped on re-emission",
            Code::E012 => "Extension schema attempts to weaken a kernel rule",
            Code::W013 => "Unknown relation kind treated as elaborates for closure",
            Code::E300 => "Provider unreachable, no fallback configured",
            Code::E301 => "Offline violation",
            Code::E302 => "Context window exceeded after chunking",
            Code::W303 => "Structured output unsupported; fell back to the surface path",
            Code::W304 => "Span unrepairable; degraded to opaque prose (rule I)",
            Code::W305 => "Token count estimated rather than provider-reported",
            Code::W306 => "Usage threshold exceeded - informational only, never blocks",
        }
    }

    /// The severity a code is registered at agrees with the `E`/`W` letter of its wire form.
    pub proof fn lemma_severity_matches_letter(c: Code)
        ensures
            c.str_view().len() == 8,
            c.str_view()[4] == 'E' ==> c.severity_view() == Severity::Error,
            c.str_view()[4] == 'W' ==> c.severity_view() == Severity::Warn,
            c.str_view()[4] == 'E' || c.str_view()[4] == 'W',
    {
        match c {
            Code::E001 => {
                reveal_strlit("SMY-E001");
            },
            Code::E002 => {
                reveal_strlit("SMY-E002");
            },
            Code::E003 => {
                reveal_strlit("SMY-E003");
            },
            Code::E004 => {
                reveal_strlit("SMY-E004");
            },
            Code::W014 => {
                reveal_strlit("SMY-W014");
            },
            Code::E080 => {
                reveal_strlit("SMY-E080");
            },
            Code::E081 => {
                reveal_strlit("SMY-E081");
            },
            Code::E060 => {
                reveal_strlit("SMY-E060");
            },
            Code::E061 => {
                reveal_strlit("SMY-E061");
            },
            Code::W062 => {
                reveal_strlit("SMY-W062");
            },
            Code::E070 => {
                reveal_strlit("SMY-E070");
            },
            Code::E071 => {
                reveal_strlit("SMY-E071");
            },
            Code::E072 => {
                reveal_strlit("SMY-E072");
            },
            Code::W110 => {
                reveal_strlit("SMY-W110");
            },
            Code::E020 => {
                reveal_strlit("SMY-E020");
            },
            Code::E021 => {
                reveal_strlit("SMY-E021");
            },
            Code::E022 => {
                reveal_strlit("SMY-E022");
            },
            Code::E023 => {
                reveal_strlit("SMY-E023");
            },
            Code::W024 => {
                reveal_strlit("SMY-W024");
            },
            Code::E040 => {
                reveal_strlit("SMY-E040");
            },
            Code::W041 => {
                reveal_strlit("SMY-W041");
            },
            Code::E030 => {
                reveal_strlit("SMY-E030");
            },
            Code::E031 => {
                reveal_strlit("SMY-E031");
            },
            Code::E032 => {
                reveal_strlit("SMY-E032");
            },
            Code::E033 => {
                reveal_strlit("SMY-E033");
            },
            Code::E034 => {
                reveal_strlit("SMY-E034");
            },
            Code::W035 => {
                reveal_strlit("SMY-W035");
            },
            Code::W036 => {
                reveal_strlit("SMY-W036");
            },
            Code::E050 => {
                reveal_strlit("SMY-E050");
            },
            Code::E051 => {
                reveal_strlit("SMY-E051");
            },
            Code::W052 => {
                reveal_strlit("SMY-W052");
            },
            Code::W053 => {
                reveal_strlit("SMY-W053");
            },
            Code::W054 => {
                reveal_strlit("SMY-W054");
            },
            Code::W055 => {
                reveal_strlit("SMY-W055");
            },
            Code::E200 => {
                reveal_strlit("SMY-E200");
            },
            Code::E201 => {
                reveal_strlit("SMY-E201");
            },
            Code::W202 => {
                reveal_strlit("SMY-W202");
            },
            Code::E210 => {
                reveal_strlit("SMY-E210");
            },
            Code::W211 => {
                reveal_strlit("SMY-W211");
            },
            Code::W010 => {
                reveal_strlit("SMY-W010");
            },
            Code::E011 => {
                reveal_strlit("SMY-E011");
            },
            Code::E012 => {
                reveal_strlit("SMY-E012");
            },
            Code::W013 => {
                reveal_strlit("SMY-W013");
            },
            Code::E300 => {
                reveal_strlit("SMY-E300");
            },
            Code::E301 => {
                reveal_strlit("SMY-E301");
            },
            Code::E302 => {
                reveal_strlit("SMY-E302");
            },
            Code::W303 => {
                reveal_strlit("SMY-W303");
            },
            Code::W304 => {
                reveal_strlit("SMY-W304");
            },
            Code::W305 => {
                reveal_strlit("SMY-W305");
            },
            Code::W306 => {
                reveal_strlit("SMY-W306");
            },
        }
    }

}


impl Code {
    /// The wire form; what `Display` prints.
    pub fn to_wire(self) -> (r: String)
        ensures
            r@ == self.str_view(),
    {
        owned(self.as_str())
    }
}

// ---------------------------------------------------------------------------
// Diagnostic
// ---------------------------------------------------------------------------

/// What a diagnostic is about: a byte range in a source, a unit in a store, or neither.
#[derive(Debug, Clone, PartialEq, Eq, PartialOrd, Ord, Hash)]
pub enum Subject {
    /// A byte range in surface text.
    Span(Span),
    /// A unit, identified by uid.
    Unit(Uid),
    /// A whole-store or whole-run diagnostic.
    Store,
}

/// One diagnostic: a stable code, a severity, what it is about, and an optional fix.
#[derive(Debug, Clone, PartialEq, Eq, PartialOrd, Ord, Hash)]
pub struct Diagnostic {
    pub code: Code,
    pub severity: Severity,
    pub subject: Subject,
    /// Human-readable detail. Defaults to the code's registry message.
    pub message: String,
    /// Suggested fix, when one can be named mechanically.
    pub suggestion: Option<String>,
}

impl Diagnostic {
    /// A diagnostic at the code's registered severity, with the registry message.
    pub fn new(code: Code) -> (d: Diagnostic)
        ensures
            d.code == code,
            d.severity == code.severity_view(),
            d.subject == Subject::Store,
            d.message@ == code.message_view(),
            d.suggestion is None,
    {
        Diagnostic {
            code,
            severity: code.severity(),
            subject: Subject::Store,
            message: owned(code.message()),
            suggestion: None,
        }
    }

    pub fn at(code: Code, span: Span) -> (d: Diagnostic)
        ensures
            d.code == code,
            d.severity == code.severity_view(),
            d.subject == Subject::Span(span),
            d.message@ == code.message_view(),
            d.suggestion is None,
    {
        Diagnostic::new(code).with_subject(Subject::Span(span))
    }

    pub fn on(code: Code, uid: Uid) -> (d: Diagnostic)
        ensures
            d.code == code,
            d.severity == code.severity_view(),
            d.subject == Subject::Unit(uid),
            d.message@ == code.message_view(),
            d.suggestion is None,
    {
        Diagnostic::new(code).with_subject(Subject::Unit(uid))
    }

    pub fn with_subject(self, subject: Subject) -> (d: Diagnostic)
        ensures
            d == (Diagnostic { subject, ..self }),
    {
        let mut s = self;
        s.subject = subject;
        s
    }

    pub fn with_message(self, message: &str) -> (d: Diagnostic)
        ensures
            d.code == self.code,
            d.severity == self.severity,
            d.subject == self.subject,
            d.message@ == message@,
            d.suggestion == self.suggestion,
    {
        let mut s = self;
        s.message = owned(message);
        s
    }

    pub fn with_suggestion(self, suggestion: &str) -> (d: Diagnostic)
        ensures
            d.code == self.code,
            d.severity == self.severity,
            d.subject == self.subject,
            d.message == self.message,
            d.suggestion matches Some(t) && t@ == suggestion@,
    {
        let mut s = self;
        s.suggestion = Some(owned(suggestion));
        s
    }

    pub fn span(&self) -> (r: Option<Span>)
        ensures
            r == (match self.subject {
                Subject::Span(s) => Some(s),
                _ => None,
            }),
    {
        match self.subject {
            Subject::Span(s) => Some(s),
            _ => None,
        }
    }

    pub fn uid(&self) -> (r: Option<&Uid>)
        ensures
            r == (match self.subject {
                Subject::Unit(u) => Some(&u),
                _ => None,
            }),
    {
        match &self.subject {
            Subject::Unit(u) => Some(u),
            _ => None,
        }
    }

    pub fn is_error(&self) -> (r: bool)
        ensures
            r == (self.severity == Severity::Error),
    {
        self.severity == Severity::Error
    }

    /// A copy of this diagnostic.
    pub fn duplicate(&self) -> (d: Diagnostic)
        ensures
            d == *self,
    {
        Diagnostic {
            code: self.code,
            severity: self.severity,
            subject: match &self.subject {
                Subject::Span(s) => Subject::Span(*s),
                Subject::Unit(u) => Subject::Unit(*u),
                Subject::Store => Subject::Store,
            },
            message: self.message.clone(),
            suggestion: match &self.suggestion {
                Some(s) => Some(s.clone()),
                None => None,
            },
        }
    }
}

// ---------------------------------------------------------------------------
// The canonical order of diagnostics
// ---------------------------------------------------------------------------

impl Subject {
    /// The position of a subject's kind in the order: spans, then units, then the store.
    pub open spec fn rank(self) -> int {
        match self {
            Subject::Span(_) => 0,
            Subject::Unit(_) => 1,
            Subject::Store => 2,
        }
    }
}

/// Spans ordered by start, then end.
pub open spec fn span_lt(a: Span, b: Span) -> bool {
    a.start < b.start || (a.start == b.start && a.end < b.end)
}

/// Subjects ordered by kind, then spans by position and units by uid bytes.
pub open spec fn subject_lt(a: Subject, b: Subject) -> bool {
    match (a, b) {
        (Subject::Span(x), Subject::Span(y)) => span_lt(x, y),
        (Subject::Unit(x), Subject::Unit(y)) => bytes_lt(x.bytes(), y.bytes()),
        _ => a.rank() < b.rank(),
    }
}

/// A missing text before any text, texts in character order.
pub open spec fn opt_chars_lt(a: Option<Seq<char>>, b: Option<Seq<char>>) -> bool {
    match (a, b) {
        (None, Some(_)) => true,
        (Some(x), Some(y)) => chars_lt(x, y),
        _ => false,
    }
}

/// The text of a diagnostic's suggestion.
pub open spec fn suggestion_view(d: Diagnostic) -> Option<Seq<char>> {
    match d.suggestion {
        Some(t) => Some(t@),
        None => None,
    }
}

/// The canonical order of diagnostics: by code in registry order, then severity, subject,
/// message and suggestion.
pub open spec fn diag_lt(a: Diagnostic, b: Diagnostic) -> bool {
    ||| a.code.index_view() < b.code.index_view()
    ||| a.code == b.code && a.severity.rank() < b.severity.rank()
    ||| a.code == b.code && a.severity == b.severity && subject_lt(a.subject, b.subject)
    ||| a.code == b.code && a.severity == b.severity && a.subject == b.subject && chars_lt(
        a.message@,
        b.message@,
    )
    ||| a.code == b.code && a.severity == b.severity && a.subject == b.subject && a.message@
        == b.message@ && opt_chars_lt(suggestion_view(a), suggestion_view(b))
}

/// No diagnostic orders after a later one.
pub open spec fn diags_sorted(s: Seq<Diagnostic>) -> bool {
    forall|i: int, j: int| 0 <= i < j < s.len() ==> !diag_lt(#[trigger] s[j], #[trigger] s[i])
}

proof fn lemma_subject_lt_transitive(a: Subject, b: Subject, c: Subject)
    requires
        subject_lt(a, b),
        subject_lt(b, c),
    ensures
        subject_lt(a, c),
{
    match (a, b, c) {
        (Subject::Unit(x), Subject::Unit(y), Subject::Unit(z)) => {
            lemma_uid_bytes_len(x);
            lemma_uid_bytes_len(y);
            lemma_uid_bytes_len(z);
            lemma_bytes_lt_transitive(x.bytes(), y.bytes(), z.bytes());
        },
        _ => {},
    }
}

proof fn lemma_subject_lt_total(a: Subject, b: Subject)
    ensures
        !subject_lt(a, a),
        a == b || subject_lt(a, b) || subject_lt(b, a),
        !(subject_lt(a, b) && subject_lt(b, a)),
{
    match (a, b) {
        (Subject::Unit(x), Subject::Unit(y)) => {
            lemma_uid_bytes_len(x);
            lemma_uid_bytes_len(y);
            lemma_bytes_lt_total(x.bytes(), y.bytes());
            lemma_bytes_lt_total(x.bytes(), x.bytes());
            lemma_uid_bytes_injective(x, y);
        },
        (Subject::Unit(x), _) => {
            lemma_uid_bytes_len(x);
            lemma_bytes_lt_total(x.bytes(), x.bytes());
        },
        _ => {},
    }
}

proof fn lemma_opt_chars_lt(a: Option<Seq<char>>, b: Option<Seq<char>>, c: Option<Seq<char>>)
    ensures
        opt_chars_lt(a, b) && opt_chars_lt(b, c) ==> opt_chars_lt(a, c),
        !opt_chars_lt(a, a),
        a == b || opt_chars_lt(a, b) || opt_chars_lt(b, a),
        !(opt_chars_lt(a, b) && opt_chars_lt(b, a)),
{
    match (a, b, c) {
        (Some(x), Some(y), Some(z)) => {
            if chars_lt(x, y) && chars_lt(y, z) {
                lemma_chars_lt_transitive(x, y, z);
            }
        },
        _ => {},
    }
    match (a, b) {
        (Some(x), Some(y)) => {
            lemma_chars_lt_total(x, y);
        },
        (Some(x), None) => {
            lemma_chars_lt_total(x, x);
        },
        _ => {},
    }
}

/// The canonical order of diagnostics is a strict order: irreflexive and transitive.
pub proof fn lemma_diag_lt_order(a: Diagnostic, b: Diagnostic, c: Diagnostic)
    ensures
        !diag_lt(a, a),
        diag_lt(a, b) && diag_lt(b, c) ==> diag_lt(a, c),
{
    Code::lemma_index_injective(a.code, b.code);
    Code::lemma_index_injective(b.code, c.code);
    Code::lemma_index_injective(a.code, c.code);
    lemma_subject_lt_total(a.subject, b.subject);
    lemma_subject_lt_total(b.subject, c.subject);
    lemma_chars_lt_total(a.message@, b.message@);
    lemma_chars_lt_total(b.message@, c.message@);
    lemma_opt_chars_lt(suggestion_view(a), suggestion_view(b), suggestion_view(c));
    if subject_lt(a.subject, b.subject) && subject_lt(b.subject, c.subject) {
        lemma_subject_lt_transitive(a.subject, b.subject, c.subject);
    }
    if chars_lt(a.message@, b.message@) && chars_lt(b.message@, c.message@) {
        lemma_chars_lt_transitive(a.message@, b.message@, c.message@);
    }
}

/// Of two diagnostics that differ in their code, severity, subject, message text or
/// suggestion text, one orders before the other.
pub proof fn lemma_diag_lt_total(a: Diagnostic, b: Diagnostic)
    ensures
        diag_lt(a, b) || diag_lt(b, a) || (a.code == b.code && a.severity == b.severity && a.subject
            == b.subject && a.message@ == b.message@ && suggestion_view(a) == suggestion_view(b)),
        !(diag_lt(a, b) && diag_lt(b, a)),
{
    lemma_diag_lt_order(a, b, a);
    Code::lemma_index_injective(a.code, b.code);
    lemma_subject_lt_total(a.subject, b.subject);
    lemma_chars_lt_total(a.message@, b.message@);
    lemma_opt_chars_lt(suggestion_view(a), suggestion_view(b), suggestion_view(a));
}

fn severity_rank(s: Severity) -> (r: u8)
    ensures
        r == s.rank(),
{
    match s {
        Severity::Warn => 0,
        Severity::Error => 1,
    }
}

/// Where `a` stands against `b` in the order of subjects: 0 before, 1 the same, 2 after.
fn subject_position(a: &Subject, b: &Subject) -> (r: u8)
    ensures
        r == 0 <==> subject_lt(*a, *b),
        r == 1 <==> *a == *b,
        r == 2 <==> subject_lt(*b, *a),
{
    proof {
        lemma_subject_lt_total(*a, *b);
    }
    match (a, b) {
        (Subject::Span(x), Subject::Span(y)) => {
            if x.start < y.start || (x.start == y.start && x.end < y.end) {
                0
            } else if x.start == y.start && x.end == y.end {
                1
            } else {
                2
            }
        },
        (Subject::Unit(x), Subject::Unit(y)) => {
            if uid_lt(x, y) {
                0
            } else if uid_lt(y, x) {
                2
            } else {
                1
            }
        },
        (Subject::Store, Subject::Store) => 1,
        (Subject::Span(_), _) => 0,
        (Subject::Unit(_), Subject::Span(_)) => 2,
        (Subject::Unit(_), Subject::Store) => 0,
        (Subject::Store, _) => 2,
    }
}

/// Where text `a` stands against text `b`: 0 before, 1 the same, 2 after.
fn text_position(a: &String, b: &String) -> (r: u8)
    ensures
        r == 0 <==> chars_lt(a@, b@),
        r == 1 <==> a@ == b@,
        r == 2 <==> chars_lt(b@, a@),
{
    proof {
        lemma_chars_lt_total(a@, b@);
    }
    let x = chars_of(a.as_str());
    let y = chars_of(b.as_str());
    if chars_less(&x, &y) {
        0
    } else if chars_eq(&x, &y) {
        1
    } else {
        2
    }
}

/// Whether `a` orders strictly before `b` in the canonical order.
pub fn diag_less(a: &Diagnostic, b: &Diagnostic) -> (r: bool)
    ensures
        r == diag_lt(*a, *b),
{
    proof {
        Code::lemma_index_injective(a.code, b.code);
    }
    let ia = a.code.index();
    let ib = b.code.index();
    if ia != ib {
        return ia < ib;
    }
    let sa = severity_rank(a.severity);
    let sb = severity_rank(b.severity);
    if sa != sb {
        return sa < sb;
    }
    assert(a.severity == b.severity) by {
        match (a.severity, b.severity) {
            (Severity::Warn, Severity::Warn) => {},
            (Severity::Error, Severity::Error) => {},
            _ => {},
        }
    }
    let p = subject_position(&a.subject, &b.subject);
    if p != 1 {
        return p == 0;
    }
    let m = text_position(&a.message, &b.message);
    if m != 1 {
        return m == 0;
    }
    proof {
        lemma_opt_chars_lt(suggestion_view(*a), suggestion_view(*b), suggestion_view(*a));
    }
    match (&a.suggestion, &b.suggestion) {
        (None, Some(_)) => true,
        (Some(x), Some(y)) => text_position(x, y) == 0,
        _ => false,
    }
}

// ---------------------------------------------------------------------------
// Report
// ---------------------------------------------------------------------------

/// How many diagnostics in `s` carry `code`.
pub open spec fn count_code(s: Seq<Diagnostic>, code: Code) -> nat
    decreases s.len(),
{
    if s.len() == 0 {
        0
    } else {
        count_code(s.drop_last(), code) + (if s.last().code == code { 1nat } else { 0nat })
    }
}

/// Whether some diagnostic in `s` is at or above severity `sev`.
pub open spec fn any_at_least(s: Seq<Diagnostic>, sev: Severity) -> bool {
    exists|i: int| 0 <= i < s.len() && #[trigger] s[i].severity.rank() >= sev.rank()
}

/// A collected diagnostic set. Check passes never short-circuit, so a report carries the
/// full diagnostic set; per-code counts are derived from it.
#[derive(Debug, Clone, PartialEq, Eq)]
pub struct Report {
    pub diagnostics: Vec<Diagnostic>,
}

impl Report {
    pub fn new() -> (r: Report)
        ensures
            r.diagnostics@ == Seq::<Diagnostic>::empty(),
    {
        Report { diagnostics: Vec::new() }
    }

    pub fn push(&mut self, d: Diagnostic)
        ensures
            final(self).diagnostics@ == old(self).diagnostics@.push(d),
    {
        self.diagnostics.push(d);
    }

    pub fn extend(&mut self, other: Vec<Diagnostic>)
        ensures
            final(self).diagnostics@ == old(self).diagnostics@ + other@,
    {
        let mut other = other;
        self.diagnostics.append(&mut other);
    }

    /// Absorb another report: the union of diagnostics, so counts add.
    pub fn absorb(&mut self, other: Report)
        ensures
            final(self).diagnostics@ == old(self).diagnostics@ + other.diagnostics@,
    {
        self.extend(other.diagnostics);
    }

    pub fn count(&self, code: Code) -> (n: usize)
        ensures
            n == count_code(self.diagnostics@, code),
    {
        let mut n: usize = 0;
        let mut i: usize = 0;
        while i < self.diagnostics.len()
            invariant
                i <= self.diagnostics.len(),
                n == count_code(self.diagnostics@.take(i as int), code),
                n <= i,
            decreases self.diagnostics.len() - i,
        {
            assert(self.diagnostics@.take(i + 1).drop_last() =~= self.diagnostics@.take(i as int));
            if self.diagnostics[i].code == code {
                n = n + 1;
            }
            i = i + 1;
        }
        assert(self.diagnostics@.take(i as int) =~= self.diagnostics@);
        n
    }

    pub fn len(&self) -> (n: usize)
        ensures
            n == self.diagnostics@.len(),
    {
        self.diagnostics.len()
    }

    pub fn is_empty(&self) -> (r: bool)
        ensures
            r == (self.diagnostics@.len() == 0),
    {
        self.diagnostics.len() == 0
    }

    /// The highest severity present, if any diagnostic is.
    pub fn max_severity(&self) -> (r: Option<Severity>)
        ensures
            self.diagnostics@.len() == 0 ==> r is None,
            self.diagnostics@.len() > 0 ==> r == Some(if any_at_least(
                self.diagnostics@,
                Severity::Error,
            ) {
                Severity::Error
            } else {
                Severity::Warn
            }),
    {
        if self.diagnostics.len() == 0 {
            return None;
        }
        if self.has_errors() {
            Some(Severity::Error)
        } else {
            Some(Severity::Warn)
        }
    }

    pub fn has_errors(&self) -> (r: bool)
        ensures
            r == any_at_least(self.diagnostics@, Severity::Error),
    {
        self.any_at_least(Severity::Error)
    }

    fn any_at_least(&self, sev: Severity) -> (r: bool)
        ensures
            r == any_at_least(self.diagnostics@, sev),
    {
        let mut i: usize = 0;
        while i < self.diagnostics.len()
            invariant
                i <= self.diagnostics.len(),
                forall|j: int| 0 <= j < i ==> #[trigger] self.diagnostics@[j].severity.rank()
                    < sev.rank(),
            decreases self.diagnostics.len() - i,
        {
            if self.diagnostics[i].severity.at_least(sev) {
                return true;
            }
            i = i + 1;
        }
        false
    }

    /// No error-severity diagnostics. Warnings are compatible with a clean result.
    pub fn is_clean(&self) -> (r: bool)
        ensures
            r == !any_at_least(self.diagnostics@, Severity::Error),
    {
        !self.has_errors()
    }

    /// The diagnostics, in order.
    pub fn iter(&self) -> (it: std::slice::Iter<'_, Diagnostic>)
        ensures
            vstd::std_specs::slice::into_iter_elts(it) == self.diagnostics@,
    {
        let it = self.diagnostics.as_slice().iter();
        proof {
            broadcast use vstd::std_specs::slice::axiom_spec_slice_iter;
            assert(vstd::std_specs::iter::IteratorSpec::remaining(&it).unref() =~= self.diagnostics@);
        }
        it
    }

    /// Diagnostics of exactly this severity, in order.
    pub fn of_severity(&self, s: Severity) -> (r: Vec<&Diagnostic>)
        ensures
            r@.map_values(|d: &Diagnostic| *d) == self.diagnostics@.filter(
                |d: Diagnostic| d.severity == s,
            ),
    {
        let mut r: Vec<&Diagnostic> = Vec::new();
        let mut i: usize = 0;
        while i < self.diagnostics.len()
            invariant
                i <= self.diagnostics.len(),
                r@.map_values(|d: &Diagnostic| *d) == self.diagnostics@.take(i as int).filter(
                    |d: Diagnostic| d.severity == s,
                ),
            decreases self.diagnostics.len() - i,
        {
            let ghost pre = r@;
            assert(self.diagnostics@.take(i + 1).drop_last() =~= self.diagnostics@.take(i as int));
            reveal_with_fuel(Seq::filter, 1);
            if self.diagnostics[i].severity == s {
                r.push(&self.diagnostics[i]);
                assert(r@.map_values(|d: &Diagnostic| *d) =~= pre.map_values(|d: &Diagnostic| *d).push(
                    self.diagnostics@[i as int],
                ));
            }
            i = i + 1;
        }
        assert(self.diagnostics@.take(i as int) =~= self.diagnostics@);
        r
    }

    /// `Err` if any diagnostic is at or above `s`; the error carries the whole report.
    pub fn fail_on(&self, s: Severity) -> (r: Result<(), Error>)
        ensures
            r is Ok <==> !any_at_least(self.diagnostics@, s),
            r matches Err(e) ==> (e matches Error::Check(rep) && rep.diagnostics@
                == self.diagnostics@),
    {
        if self.any_at_least(s) {
            Err(Error::Check(self.duplicate()))
        } else {
            Ok(())
        }
    }

    /// Sorts the diagnostics into the canonical order, so that report output is
    /// reproducible. Nothing is added or lost, and a report already in order is left as it
    /// is, so sorting twice is sorting once.
    pub fn sort(&mut self)
        ensures
            diags_sorted(final(self).diagnostics@),
            final(self).diagnostics@.to_multiset() == old(self).diagnostics@.to_multiset(),
            diags_sorted(old(self).diagnostics@) ==> final(self).diagnostics@ == old(self).diagnostics@,
    {
        let mut src: Vec<Diagnostic> = Vec::new();
        std::mem::swap(&mut src, &mut self.diagnostics);
        let ghost orig = src@;
        let mut out: Vec<Diagnostic> = Vec::new();
        let ghost mut n: int = 0;
        assert(orig.skip(0) =~= orig);
        assert(orig.take(0) =~= Seq::<Diagnostic>::empty());
        while src.len() > 0
            invariant
                0 <= n <= orig.len(),
                src@ == orig.skip(n),
                diags_sorted(out@),
                out@.to_multiset() == orig.take(n).to_multiset(),
                diags_sorted(orig) ==> out@ == orig.take(n),
            decreases src.len(),
        {
            let d = src.remove(0);
            assert(d == orig[n]);
            assert(orig.skip(n).remove(0) =~= orig.skip(n + 1));
            assert(orig.take(n + 1) =~= orig.take(n).push(d));
            let mut p: usize = 0;
            while p < out.len() && !diag_less(&d, &out[p])
                invariant
                    p <= out.len(),
                    forall|k: int| 0 <= k < p ==> !diag_lt(d, #[trigger] out@[k]),
                decreases out.len() - p,
            {
                p = p + 1;
            }
            proof {
                if diags_sorted(orig) && p < out.len() {
                    assert(out@[p as int] == orig[p as int]);
                    assert(!diag_lt(orig[n], orig[p as int]));
                }
            }
            let ghost before = out@;
            out.insert(p, d);
            proof {
                assert forall|i: int, j: int| 0 <= i < j < out@.len() implies !diag_lt(
                    #[trigger] out@[j],
                    #[trigger] out@[i],
                ) by {
                    if i < p && j == p {
                    } else if i == p && j > p {
                        let e = before[j - 1];
                        lemma_diag_lt_order(e, d, before[p as int]);
                        lemma_diag_lt_order(d, before[p as int], d);
                        if j - 1 > p {
                            assert(!diag_lt(before[j - 1], before[p as int]));
                        }
                    } else if i < p && j > p {
                        assert(!diag_lt(before[j - 1], before[i]));
                    } else if j < p {
                        assert(!diag_lt(before[j], before[i]));
                    } else {
                        assert(!diag_lt(before[j - 1], before[i - 1]));
                    }
                }
                vstd::seq_lib::to_multiset_insert(before, p as int, d);
                vstd::seq_lib::to_multiset_build(orig.take(n), d);
                if diags_sorted(orig) {
                    assert(p == before.len());
                    assert(out@ =~= orig.take(n + 1));
                }
                n = n + 1;
            }
        }
        assert(orig.skip(n).len() == 0);
        assert(orig.take(n) =~= orig);
        self.diagnostics = out;
    }

    /// A copy of this report.
    pub fn duplicate(&self) -> (r: Report)
        ensures
            r.diagnostics@ == self.diagnostics@,
    {
        let mut v: Vec<Diagnostic> = Vec::new();
        let mut i: usize = 0;
        while i < self.diagnostics.len()
            invariant
                i <= self.diagnostics.len(),
                v@ == self.diagnostics@.take(i as int),
            decreases self.diagnostics.len() - i,
        {
            v.push(self.diagnostics[i].duplicate());
            assert(self.diagnostics@.take(i + 1) =~= self.diagnostics@.take(i as int).push(
                self.diagnostics@[i as int],
            ));
            i = i + 1;
        }
        assert(self.diagnostics@.take(i as int) =~= self.diagnostics@);
        Report { diagnostics: v }
    }
}

} // verus!
