//! Lifecycle records: withdrawing a relation, resolving a contention, committing to a unit.
//! Withdrawal and resolution are records of their own, never edits of what they act on.

use vstd::prelude::*;

use crate::hash::{blake3_digest, hash_bytes};
use crate::ids::{base32, label_shaped, lemma_five_bits_range, uid_set_from, uids_sorted, AgentId, ContentionId, Uid};
use crate::ids::{five_bits, ident};
use crate::text::{index_of, owned, push_str};
use crate::types::annex::DetectionKind;
use crate::types::provenance::Hlc;
use crate::types::Extra;

verus! {

/// An agent's withdrawal of a relation it asserted.
#[derive(Debug, Clone, PartialEq, Eq, PartialOrd, Ord, Hash)]
#[non_exhaustive]
pub struct Withdrawal {
    pub relation: Uid,
    pub agent: AgentId,
    pub ts: Hlc,
    pub reason: Option<Uid>,
    pub extra: Extra,
}

impl Withdrawal {
    pub fn new(relation: Uid, agent: AgentId, ts: Hlc) -> (w: Withdrawal)
        ensures
            w.relation == relation,
            w.agent == agent,
            w.ts == ts,
            w.reason is None,
            w.extra@ == Map::<u16, Vec<u8>>::empty(),
    {
        Withdrawal { relation, agent, ts, reason: None, extra: Extra::new() }
    }

    pub fn with_reason(self, reason: Uid) -> (w: Withdrawal)
        ensures
            w == (Withdrawal { reason: Some(reason), ..self }),
    {
        let mut w = self;
        w.reason = Some(reason);
        w
    }
}

/// What a resolution settles: a contention, or a relation.
#[derive(Debug, Clone, PartialEq, Eq, PartialOrd, Ord, Hash)]
#[non_exhaustive]
pub enum ResolutionTarget {
    Contention(ContentionId),
    Relation(Uid),
}

/// An agent's resolution of a contention or a relation.
#[derive(Debug, Clone, PartialEq, Eq, PartialOrd, Ord, Hash)]
#[non_exhaustive]
pub struct Resolution {
    pub target: ResolutionTarget,
    pub agent: AgentId,
    pub ts: Hlc,
    pub note: Option<Uid>,
    pub extra: Extra,
}

impl Resolution {
    pub fn new(target: ResolutionTarget, agent: AgentId, ts: Hlc) -> (r: Resolution)
        ensures
            r.target == target,
            r.agent == agent,
            r.ts == ts,
            r.note is None,
            r.extra@ == Map::<u16, Vec<u8>>::empty(),
    {
        Resolution { target, agent, ts, note: None, extra: Extra::new() }
    }

    pub fn with_note(self, note: Uid) -> (r: Resolution)
        ensures
            r == (Resolution { note: Some(note), ..self }),
    {
        let mut r = self;
        r.note = Some(note);
        r
    }
}

/// The uid bytes of `s`, one uid after another.
pub open spec fn uids_bytes(s: Seq<Uid>) -> Seq<u8>
    decreases s.len(),
{
    if s.len() == 0 {
        Seq::empty()
    } else {
        uids_bytes(s.drop_last()) + s.last().bytes()
    }
}

/// What a derived contention id hashes: the detection kind's code, the unit contended over,
/// and the positions as a canonical set.
pub open spec fn contention_input(kind: DetectionKind, over: Uid, sorted: Seq<Uid>) -> Seq<u8> {
    seq![kind.code_view()] + over.bytes() + uids_bytes(sorted)
}

impl ContentionId {
    /// The id of a contention derived from what it is about: `k/c` and the first 26 base32
    /// characters of the hash of the detection kind, the unit, and the set of positions. The
    /// order of the positions and any repeats do not matter.
    pub fn derive(kind: DetectionKind, over: &Uid, positions: &Vec<Uid>) -> (r: ContentionId)
        ensures
            exists|sorted: Seq<Uid>| uids_sorted(sorted) && sorted.to_set() == positions@.to_set() && r@ == "k/c"@
                + base32(blake3_digest(contention_input(kind, *over, sorted)), 26),
    {
        let sorted = uid_set_from(positions);
        let mut bytes: Vec<u8> = Vec::new();
        bytes.push(kind.as_u8());
        let ob = over.as_bytes();
        let mut i: usize = 0;
        while i < 32
            invariant
                i <= 32,
                ob@ == over.bytes(),
                ob@.len() == 32,
                bytes@ == seq![kind.code_view()] + ob@.take(i as int),
            decreases 32 - i,
        {
            bytes.push(ob[i]);
            assert(ob@.take(i + 1) =~= ob@.take(i as int).push(ob@[i as int]));
            i = i + 1;
        }
        assert(ob@.take(32) =~= ob@);
        let mut k: usize = 0;
        while k < sorted.len()
            invariant
                k <= sorted.len(),
                bytes@ == seq![kind.code_view()] + over.bytes() + uids_bytes(sorted@.take(k as int)),
            decreases sorted.len() - k,
        {
            let pb = sorted[k].as_bytes();
            let ghost before = bytes@;
            let mut j: usize = 0;
            while j < 32
                invariant
                    j <= 32,
                    pb@ == sorted@[k as int].bytes(),
                    pb@.len() == 32,
                    bytes@ == before + pb@.take(j as int),
                decreases 32 - j,
            {
                bytes.push(pb[j]);
                assert(pb@.take(j + 1) =~= pb@.take(j as int).push(pb@[j as int]));
                j = j + 1;
            }
            assert(pb@.take(32) =~= pb@);
            assert(sorted@.take(k + 1).drop_last() =~= sorted@.take(k as int));
            k = k + 1;
        }
        assert(sorted@.take(sorted.len() as int) =~= sorted@);
        let digest = Uid::from_bytes(hash_bytes(bytes.as_slice()));
        let short = digest.short();
        let sv = crate::text::chars_of(short.as_str());
        let mut s = owned("k/c");
        let tail = crate::text::string_from_range(&sv, 3, sv.len());
        push_str(&mut s, tail.as_str());
        proof {
            reveal_strlit("k/c");
            reveal_strlit("b3:");
            let t = base32(digest.bytes(), 26);
            assert(sv@.subrange(3, sv@.len() as int) =~= t);
            assert(s@ =~= "k/c"@ + t);
            assert(index_of(s@, '/') == 1) by {
                crate::text::lemma_index_of_is(s@, '/', 1);
            }
            assert(s@.take(1) =~= seq!['k']);
            assert(ident(s@.take(1)));
            assert forall|q: int| 0 <= q < t.len() implies ('a' <= #[trigger] t[q] && t[q] <= 'z') || ('2' <= t[q] && t[q] <= '7') by {
                lemma_five_bits_range(digest.bytes(), q * 5);
            }
            assert(s@.skip(2) =~= seq!['c'] + t);
            assert(ident(s@.skip(2)));
            assert(label_shaped(s@));
        }
        match ContentionId::new(s.as_str()) {
            Ok(id) => id,
            Err(_) => {
                proof {
                    assert(false);
                }
                ContentionId::new("k/c").unwrap()
            },
        }
    }
}

/// How firmly a unit is committed to, from floated to canonical; retconned withdraws it.
#[derive(Debug, Clone, Copy, PartialEq, Eq, Structural, PartialOrd, Ord, Hash)]
#[non_exhaustive]
pub enum Commitment {
    Floated,
    Drafted,
    Committed,
    Canonical,
    Retconned,
}

impl Commitment {
    /// Every variant, in declaration order.
    pub const ALL: [Commitment; 5] = [
        Commitment::Floated,
        Commitment::Drafted,
        Commitment::Committed,
        Commitment::Canonical,
        Commitment::Retconned,
    ];

    /// The stable text name.
    pub open spec fn str_view(self) -> Seq<char> {
        match self {
            Commitment::Floated => "floated"@,
            Commitment::Drafted => "drafted"@,
            Commitment::Committed => "committed"@,
            Commitment::Canonical => "canonical"@,
            Commitment::Retconned => "retconned"@,
        }
    }

    pub fn as_str(self) -> (r: &'static str)
        ensures
            r@ == self.str_view(),
    {
        match self {
            Commitment::Floated => "floated",
            Commitment::Drafted => "drafted",
            Commitment::Committed => "committed",
            Commitment::Canonical => "canonical",
            Commitment::Retconned => "retconned",
        }
    }

    /// Distinct variants have distinct names.
    pub proof fn lemma_str_view_injective()
        ensures
            forall|a: Commitment, b: Commitment| a.str_view() == b.str_view() ==> a == b,
    {
        reveal_strlit("floated");
        assert(Commitment::Floated.str_view().len() == 7);
        assert(Commitment::Floated.str_view()[1] == 'l');
        reveal_strlit("drafted");
        assert(Commitment::Drafted.str_view().len() == 7);
        assert(Commitment::Drafted.str_view()[1] == 'r');
        reveal_strlit("committed");
        assert(Commitment::Committed.str_view().len() == 9);
        assert(Commitment::Committed.str_view()[1] == 'o');
        reveal_strlit("canonical");
        assert(Commitment::Canonical.str_view().len() == 9);
        assert(Commitment::Canonical.str_view()[1] == 'a');
        reveal_strlit("retconned");
        assert(Commitment::Retconned.str_view().len() == 9);
        assert(Commitment::Retconned.str_view()[1] == 'e');
        assert forall|a: Commitment, b: Commitment| a.str_view() == b.str_view() implies a == b by {
            assert(a.str_view().len() == b.str_view().len());
            assert(a.str_view()[1] == b.str_view()[1]);
        }
    }

    /// The variant whose name is exactly `s`.
    pub fn parse(s: &str) -> (r: Option<Commitment>)
        ensures
            forall|k: Commitment| r == Some(k) <==> k.str_view() == s@,
            r is None <==> forall|k: Commitment| k.str_view() != s@,
    {
        proof {
            Commitment::lemma_str_view_injective();
        }
        if crate::text::str_eq(s, "floated") {
            assert(Commitment::Floated.str_view() == s@);
            return Some(Commitment::Floated);
        }
        if crate::text::str_eq(s, "drafted") {
            assert(Commitment::Drafted.str_view() == s@);
            return Some(Commitment::Drafted);
        }
        if crate::text::str_eq(s, "committed") {
            assert(Commitment::Committed.str_view() == s@);
            return Some(Commitment::Committed);
        }
        if crate::text::str_eq(s, "canonical") {
            assert(Commitment::Canonical.str_view() == s@);
            return Some(Commitment::Canonical);
        }
        if crate::text::str_eq(s, "retconned") {
            assert(Commitment::Retconned.str_view() == s@);
            return Some(Commitment::Retconned);
        }
        proof {
            assert forall|k: Commitment| k.str_view() != s@ by {
                match k {
                    Commitment::Floated => {},
                    Commitment::Drafted => {},
                    Commitment::Committed => {},
                    Commitment::Canonical => {},
                    Commitment::Retconned => {},
                }
            }
        }
        None
    }

    /// The wire code.
    pub open spec fn code_view(self) -> u8 {
        match self {
            Commitment::Floated => 0u8,
            Commitment::Drafted => 1u8,
            Commitment::Committed => 2u8,
            Commitment::Canonical => 3u8,
            Commitment::Retconned => 4u8,
        }
    }

    pub fn as_u8(self) -> (r: u8)
        ensures
            r == self.code_view(),
    {
        match self {
            Commitment::Floated => 0,
            Commitment::Drafted => 1,
            Commitment::Committed => 2,
            Commitment::Canonical => 3,
            Commitment::Retconned => 4,
        }
    }

    /// The variant with wire code `v`.
    pub fn from_u8(v: u8) -> (r: Option<Commitment>)
        ensures
            forall|k: Commitment| r == Some(k) <==> k.code_view() == v,
            r is None <==> forall|k: Commitment| k.code_view() != v,
    {
        match v {
            0 => {
                assert(Commitment::Floated.code_view() == v);
                Some(Commitment::Floated)
            },
            1 => {
                assert(Commitment::Drafted.code_view() == v);
                Some(Commitment::Drafted)
            },
            2 => {
                assert(Commitment::Committed.code_view() == v);
                Some(Commitment::Committed)
            },
            3 => {
                assert(Commitment::Canonical.code_view() == v);
                Some(Commitment::Canonical)
            },
            4 => {
                assert(Commitment::Retconned.code_view() == v);
                Some(Commitment::Retconned)
            },
            _ => None,
        }
    }

}

/// An agent's commitment to a unit at some level.
#[derive(Debug, Clone, PartialEq, Eq, PartialOrd, Ord, Hash)]
#[non_exhaustive]
pub struct Commit {
    pub unit: Uid,
    pub level: Commitment,
    pub agent: AgentId,
    pub ts: Hlc,
    pub note: Option<Uid>,
    pub extra: Extra,
}

impl Commit {
    pub fn new(unit: Uid, level: Commitment, agent: AgentId, ts: Hlc) -> (c: Commit)
        ensures
            c.unit == unit,
            c.level == level,
            c.agent == agent,
            c.ts == ts,
            c.note is None,
            c.extra@ == Map::<u16, Vec<u8>>::empty(),
    {
        Commit { unit, level, agent, ts, note: None, extra: Extra::new() }
    }

    pub fn with_note(self, note: Uid) -> (c: Commit)
        ensures
            c == (Commit { note: Some(note), ..self }),
    {
        let mut c = self;
        c.note = Some(note);
        c
    }
}

} // verus!
