//! Provenance: hybrid logical clocks, operations, evidential rungs and attestations.

use vstd::prelude::*;

use crate::ids::{uid_set_from, uids_sorted, AgentId, Uid};
use crate::text::{chars_of, owned};
use crate::types::epistemics::Status;
use crate::types::Extra;

verus! {

/// Lexicographic order on character strings by code point (the byte order of their UTF-8).
pub open spec fn chars_lt(a: Seq<char>, b: Seq<char>) -> bool {
    ||| exists|i: int|
        0 <= i < a.len() && i < b.len() && (a[i] as u32) < (b[i] as u32) && #[trigger] a.take(i) == b.take(i)
    ||| (a.len() < b.len() && a == b.take(a.len() as int))
}

/// Whether `a` orders strictly before `b`.
pub fn str_lt(a: &str, b: &str) -> (r: bool)
    ensures
        r == chars_lt(a@, b@),
{
    let x = chars_of(a);
    let y = chars_of(b);
    let mut i: usize = 0;
    while i < x.len() && i < y.len()
        invariant
            i <= x.len(),
            i <= y.len(),
            x@ == a@,
            y@ == b@,
            x@.take(i as int) == y@.take(i as int),
        decreases x.len() - i,
    {
        if x[i] != y[i] {
            proof {
                assert forall|j: int| 0 <= j < x@.len() && j < y@.len() && (x@[j] as u32) < (y@[j] as u32)
                    && #[trigger] x@.take(j) == y@.take(j) implies j == i by {
                    if j < i {
                        assert(x@.take(i as int)[j] == y@.take(i as int)[j]);
                    } else if j > i {
                        assert(x@.take(j)[i as int] == y@.take(j)[i as int]);
                    }
                }
                if x@.len() < y@.len() && x@ == y@.take(x@.len() as int) {
                    assert(y@.take(x@.len() as int)[i as int] == y@[i as int]);
                }
            }
            return (x[i] as u32) < (y[i] as u32);
        }
        assert(x@.take(i + 1) =~= x@.take(i as int).push(x@[i as int]));
        assert(y@.take(i + 1) =~= y@.take(i as int).push(y@[i as int]));
        i = i + 1;
    }
    proof {
        assert forall|j: int| 0 <= j < x@.len() && j < y@.len() && #[trigger] x@.take(j) == y@.take(j)
            implies !((x@[j] as u32) < (y@[j] as u32)) by {
            assert(x@.take(i as int)[j] == y@.take(i as int)[j]);
        }
        if x@.len() < y@.len() {
            assert(x@ =~= x@.take(i as int));
            assert(y@.take(x@.len() as int) =~= y@.take(i as int));
        } else if y@.len() < x@.len() {
        } else {
            assert(x@ =~= x@.take(i as int));
        }
    }
    x.len() < y.len()
}

// ---------------------------------------------------------------------------
// Hybrid logical clock
// ---------------------------------------------------------------------------

/// A hybrid logical clock: wall milliseconds, a counter, and the agent that ticked it.
#[derive(Debug, PartialEq, Eq, PartialOrd, Ord, Hash)]
pub struct Hlc {
    pub wall_ms: u64,
    pub counter: u32,
    pub agent: AgentId,
}

/// The order on clocks: wall time, then counter, then agent.
pub open spec fn hlc_lt(a: Hlc, b: Hlc) -> bool {
    a.wall_ms < b.wall_ms || (a.wall_ms == b.wall_ms && (a.counter < b.counter || (a.counter
        == b.counter && chars_lt(a.agent@, b.agent@))))
}

impl Clone for Hlc {
    fn clone(&self) -> (r: Hlc)
        ensures
            r.wall_ms == self.wall_ms,
            r.counter == self.counter,
            r.agent@ == self.agent@,
    {
        Hlc { wall_ms: self.wall_ms, counter: self.counter, agent: self.agent.clone() }
    }
}

/// The current wall-clock time in milliseconds since the Unix epoch, or 0 if the clock reads
/// before the epoch. Wraps `std::time::SystemTime::now`; nothing is stated of the value.
#[verifier::external_body]
fn system_time_ms() -> u64 {
    std::time::SystemTime::now().duration_since(std::time::UNIX_EPOCH).map(|d| d.as_millis() as u64).unwrap_or(0)
}

impl Hlc {
    pub fn new(wall_ms: u64, counter: u32, agent: AgentId) -> (h: Hlc)
        ensures
            h == (Hlc { wall_ms, counter, agent }),
    {
        Hlc { wall_ms, counter, agent }
    }

    pub fn zero(agent: AgentId) -> (h: Hlc)
        ensures
            h == (Hlc { wall_ms: 0, counter: 0, agent }),
    {
        Hlc { wall_ms: 0, counter: 0, agent }
    }

    /// Advance past `prev` at the current wall time.
    pub fn now(prev: &Hlc, agent: &AgentId) -> (h: Hlc)
        requires
            prev.counter < u32::MAX,
        ensures
            hlc_lt(*prev, h) || (h.wall_ms == prev.wall_ms && h.counter == prev.counter + 1),
            h.wall_ms >= prev.wall_ms,
            h.agent@ == agent@,
    {
        let wall = system_time_ms();
        Hlc::advance(prev, agent, wall)
    }

    /// Advance past `prev` given a wall reading: a later wall resets the counter, otherwise
    /// the counter ticks.
    pub fn advance(prev: &Hlc, agent: &AgentId, wall: u64) -> (h: Hlc)
        requires
            prev.counter < u32::MAX,
        ensures
            wall > prev.wall_ms ==> h.wall_ms == wall && h.counter == 0,
            wall <= prev.wall_ms ==> h.wall_ms == prev.wall_ms && h.counter == prev.counter + 1,
            h.agent@ == agent@,
    {
        if wall > prev.wall_ms {
            Hlc { wall_ms: wall, counter: 0, agent: agent.clone() }
        } else {
            Hlc { wall_ms: prev.wall_ms, counter: prev.counter + 1, agent: agent.clone() }
        }
    }

    /// Merge a remote clock into the local one on receipt.
    pub fn observe(local: &Hlc, remote: &Hlc, agent: &AgentId, wall: u64) -> (h: Hlc)
        requires
            local.counter < u32::MAX,
            remote.counter < u32::MAX,
        ensures
            h.wall_ms == vstd::math::max(vstd::math::max(local.wall_ms as int, remote.wall_ms as int), wall as int),
            h.counter == (if h.wall_ms == local.wall_ms && h.wall_ms == remote.wall_ms {
                vstd::math::max(local.counter as int, remote.counter as int) + 1
            } else if h.wall_ms == local.wall_ms {
                local.counter + 1
            } else if h.wall_ms == remote.wall_ms {
                remote.counter + 1
            } else {
                0
            }),
            h.agent@ == agent@,
    {
        let m = if local.wall_ms >= remote.wall_ms { local.wall_ms } else { remote.wall_ms };
        let hi = if m >= wall { m } else { wall };
        let counter = if hi == local.wall_ms && hi == remote.wall_ms {
            (if local.counter >= remote.counter { local.counter } else { remote.counter }) + 1
        } else if hi == local.wall_ms {
            local.counter + 1
        } else if hi == remote.wall_ms {
            remote.counter + 1
        } else {
            0
        };
        Hlc { wall_ms: hi, counter, agent: agent.clone() }
    }

    /// Whether `self` orders strictly before `other`.
    pub fn lt(&self, other: &Hlc) -> (r: bool)
        ensures
            r == hlc_lt(*self, *other),
    {
        if self.wall_ms != other.wall_ms {
            return self.wall_ms < other.wall_ms;
        }
        if self.counter != other.counter {
            return self.counter < other.counter;
        }
        str_lt(self.agent.as_str(), other.agent.as_str())
    }
}

/// What an attestation records the agent as having done.
#[derive(Debug, Clone, Copy, PartialEq, Eq, Structural, PartialOrd, Ord, Hash)]
#[non_exhaustive]
pub enum Op {
    Authored,
    Transformed,
    Imported,
    Attested,
}

impl Op {
    /// Every variant, in declaration order.
    pub const ALL: [Op; 4] = [
        Op::Authored,
        Op::Transformed,
        Op::Imported,
        Op::Attested,
    ];

    /// The stable text name.
    pub open spec fn str_view(self) -> Seq<char> {
        match self {
            Op::Authored => "authored"@,
            Op::Transformed => "transformed"@,
            Op::Imported => "imported"@,
            Op::Attested => "attested"@,
        }
    }

    pub fn as_str(self) -> (r: &'static str)
        ensures
            r@ == self.str_view(),
    {
        match self {
            Op::Authored => "authored",
            Op::Transformed => "transformed",
            Op::Imported => "imported",
            Op::Attested => "attested",
        }
    }

    /// Distinct variants have distinct names.
    pub proof fn lemma_str_view_injective()
        ensures
            forall|a: Op, b: Op| a.str_view() == b.str_view() ==> a == b,
    {
        reveal_strlit("authored");
        assert(Op::Authored.str_view().len() == 8);
        assert(Op::Authored.str_view()[1] == 'u');
        reveal_strlit("transformed");
        assert(Op::Transformed.str_view().len() == 11);
        assert(Op::Transformed.str_view()[1] == 'r');
        reveal_strlit("imported");
        assert(Op::Imported.str_view().len() == 8);
        assert(Op::Imported.str_view()[1] == 'm');
        reveal_strlit("attested");
        assert(Op::Attested.str_view().len() == 8);
        assert(Op::Attested.str_view()[1] == 't');
        assert forall|a: Op, b: Op| a.str_view() == b.str_view() implies a == b by {
            assert(a.str_view().len() == b.str_view().len());
            assert(a.str_view()[1] == b.str_view()[1]);
        }
    }

    /// The variant whose name is exactly `s`.
    pub fn parse(s: &str) -> (r: Option<Op>)
        ensures
            forall|k: Op| r == Some(k) <==> k.str_view() == s@,
            r is None <==> forall|k: Op| k.str_view() != s@,
    {
        proof {
            Op::lemma_str_view_injective();
        }
        if crate::text::str_eq(s, "authored") {
            assert(Op::Authored.str_view() == s@);
            return Some(Op::Authored);
        }
        if crate::text::str_eq(s, "transformed") {
            assert(Op::Transformed.str_view() == s@);
            return Some(Op::Transformed);
        }
        if crate::text::str_eq(s, "imported") {
            assert(Op::Imported.str_view() == s@);
            return Some(Op::Imported);
        }
        if crate::text::str_eq(s, "attested") {
            assert(Op::Attested.str_view() == s@);
            return Some(Op::Attested);
        }
        proof {
            assert forall|k: Op| k.str_view() != s@ by {
                match k {
                    Op::Authored => {},
                    Op::Transformed => {},
                    Op::Imported => {},
                    Op::Attested => {},
                }
            }
        }
        None
    }

    /// The wire code.
    pub open spec fn code_view(self) -> u8 {
        match self {
            Op::Authored => 0u8,
            Op::Transformed => 1u8,
            Op::Imported => 2u8,
            Op::Attested => 3u8,
        }
    }

    pub fn as_u8(self) -> (r: u8)
        ensures
            r == self.code_view(),
    {
        match self {
            Op::Authored => 0,
            Op::Transformed => 1,
            Op::Imported => 2,
            Op::Attested => 3,
        }
    }

    /// The variant with wire code `v`.
    pub fn from_u8(v: u8) -> (r: Option<Op>)
        ensures
            forall|k: Op| r == Some(k) <==> k.code_view() == v,
            r is None <==> forall|k: Op| k.code_view() != v,
    {
        match v {
            0 => {
                assert(Op::Authored.code_view() == v);
                Some(Op::Authored)
            },
            1 => {
                assert(Op::Transformed.code_view() == v);
                Some(Op::Transformed)
            },
            2 => {
                assert(Op::Imported.code_view() == v);
                Some(Op::Imported)
            },
            3 => {
                assert(Op::Attested.code_view() == v);
                Some(Op::Attested)
            },
            _ => None,
        }
    }

}

/// The evidential rung an attestation stands on; each has a status ceiling (rule T).
#[derive(Debug, Clone, Copy, PartialEq, Eq, Structural, PartialOrd, Ord, Hash)]
#[non_exhaustive]
pub enum Rung {
    Computed,
    Document,
    Web,
    Model,
}

impl Rung {
    /// Every variant, in declaration order.
    pub const ALL: [Rung; 4] = [
        Rung::Computed,
        Rung::Document,
        Rung::Web,
        Rung::Model,
    ];

    /// The stable text name.
    pub open spec fn str_view(self) -> Seq<char> {
        match self {
            Rung::Computed => "computed"@,
            Rung::Document => "document"@,
            Rung::Web => "web"@,
            Rung::Model => "model"@,
        }
    }

    pub fn as_str(self) -> (r: &'static str)
        ensures
            r@ == self.str_view(),
    {
        match self {
            Rung::Computed => "computed",
            Rung::Document => "document",
            Rung::Web => "web",
            Rung::Model => "model",
        }
    }

    /// Distinct variants have distinct names.
    pub proof fn lemma_str_view_injective()
        ensures
            forall|a: Rung, b: Rung| a.str_view() == b.str_view() ==> a == b,
    {
        reveal_strlit("computed");
        assert(Rung::Computed.str_view().len() == 8);
        assert(Rung::Computed.str_view()[0] == 'c');
        reveal_strlit("document");
        assert(Rung::Document.str_view().len() == 8);
        assert(Rung::Document.str_view()[0] == 'd');
        reveal_strlit("web");
        assert(Rung::Web.str_view().len() == 3);
        assert(Rung::Web.str_view()[0] == 'w');
        reveal_strlit("model");
        assert(Rung::Model.str_view().len() == 5);
        assert(Rung::Model.str_view()[0] == 'm');
        assert forall|a: Rung, b: Rung| a.str_view() == b.str_view() implies a == b by {
            assert(a.str_view().len() == b.str_view().len());
            assert(a.str_view()[0] == b.str_view()[0]);
        }
    }

    /// The variant whose name is exactly `s`.
    pub fn parse(s: &str) -> (r: Option<Rung>)
        ensures
            forall|k: Rung| r == Some(k) <==> k.str_view() == s@,
            r is None <==> forall|k: Rung| k.str_view() != s@,
    {
        proof {
            Rung::lemma_str_view_injective();
        }
        if crate::text::str_eq(s, "computed") {
            assert(Rung::Computed.str_view() == s@);
            return Some(Rung::Computed);
        }
        if crate::text::str_eq(s, "document") {
            assert(Rung::Document.str_view() == s@);
            return Some(Rung::Document);
        }
        if crate::text::str_eq(s, "web") {
            assert(Rung::Web.str_view() == s@);
            return Some(Rung::Web);
        }
        if crate::text::str_eq(s, "model") {
            assert(Rung::Model.str_view() == s@);
            return Some(Rung::Model);
        }
        proof {
            assert forall|k: Rung| k.str_view() != s@ by {
                match k {
                    Rung::Computed => {},
                    Rung::Document => {},
                    Rung::Web => {},
                    Rung::Model => {},
                }
            }
        }
        None
    }

    /// The wire code.
    pub open spec fn code_view(self) -> u8 {
        match self {
            Rung::Computed => 0u8,
            Rung::Document => 1u8,
            Rung::Web => 2u8,
            Rung::Model => 3u8,
        }
    }

    pub fn as_u8(self) -> (r: u8)
        ensures
            r == self.code_view(),
    {
        match self {
            Rung::Computed => 0,
            Rung::Document => 1,
            Rung::Web => 2,
            Rung::Model => 3,
        }
    }

    /// The variant with wire code `v`.
    pub fn from_u8(v: u8) -> (r: Option<Rung>)
        ensures
            forall|k: Rung| r == Some(k) <==> k.code_view() == v,
            r is None <==> forall|k: Rung| k.code_view() != v,
    {
        match v {
            0 => {
                assert(Rung::Computed.code_view() == v);
                Some(Rung::Computed)
            },
            1 => {
                assert(Rung::Document.code_view() == v);
                Some(Rung::Document)
            },
            2 => {
                assert(Rung::Web.code_view() == v);
                Some(Rung::Web)
            },
            3 => {
                assert(Rung::Model.code_view() == v);
                Some(Rung::Model)
            },
            _ => None,
        }
    }

}

impl Op {
    /// Only an import may assign `measured`.
    pub fn may_assign_measured(self) -> (r: bool)
        ensures
            r == (self == Op::Imported),
    {
        match self {
            Op::Imported => true,
            _ => false,
        }
    }
}

impl Rung {
    /// The highest status a unit attested on this rung may carry (rule T).
    pub open spec fn ceiling_view(self) -> Status {
        match self {
            Rung::Computed => Status::Derived,
            Rung::Document => Status::Cited,
            Rung::Web => Status::Cited,
            Rung::Model => Status::Inferred,
        }
    }

    pub fn ceiling(self) -> (s: Status)
        ensures
            s == self.ceiling_view(),
    {
        match self {
            Rung::Computed => Status::Derived,
            Rung::Document => Status::Cited,
            Rung::Web => Status::Cited,
            Rung::Model => Status::Inferred,
        }
    }

    /// Whether the ceiling itself demands a source.
    pub fn ceiling_requires_source(self) -> (r: bool)
        ensures
            r == (self.ceiling_view() == Status::Measured || self.ceiling_view() == Status::Cited),
    {
        self.ceiling().requires_source()
    }
}

// ---------------------------------------------------------------------------
// Attestation
// ---------------------------------------------------------------------------

/// Who did what to a unit, when, and on which rung. `parents` is a canonical uid set:
/// ascending, without duplicates.
#[derive(Debug, Clone, PartialEq, Eq, PartialOrd, Ord, Hash)]
pub struct Attestation {
    pub uid: Uid,
    pub agent: AgentId,
    pub hop: u32,
    pub parents: Vec<Uid>,
    pub ts: Hlc,
    pub op: Op,
    pub rung: Rung,
    pub recipe: Option<[u8; 32]>,
    pub family: Option<[u8; 32]>,
    pub sig: Option<Vec<u8>>,
    pub extra: Extra,
}

impl Attestation {
    pub fn new(uid: Uid, agent: AgentId, op: Op, rung: Rung, ts: Hlc) -> (a: Attestation)
        ensures
            a.uid == uid,
            a.agent == agent,
            a.hop == 0,
            a.parents@ == Seq::<Uid>::empty(),
            a.ts == ts,
            a.op == op,
            a.rung == rung,
            a.recipe is None,
            a.family is None,
            a.sig is None,
            a.extra@ == Map::<u16, Vec<u8>>::empty(),
    {
        Attestation {
            uid,
            agent,
            hop: 0,
            parents: Vec::new(),
            ts,
            op,
            rung,
            recipe: None,
            family: None,
            sig: None,
            extra: Extra::new(),
        }
    }

    pub fn at_hop(self, hop: u32) -> (a: Attestation)
        ensures
            a == (Attestation { hop, ..self }),
    {
        let mut s = self;
        s.hop = hop;
        s
    }

    /// Sets the parents, as a canonical set of the given uids.
    pub fn with_parents(self, parents: Vec<Uid>) -> (a: Attestation)
        ensures
            uids_sorted(a.parents@),
            a.parents@.to_set() == parents@.to_set(),
            a == (Attestation { parents: a.parents, ..self }),
    {
        let mut s = self;
        s.parents = uid_set_from(&parents);
        s
    }

    pub fn with_recipe(self, recipe: [u8; 32], family: [u8; 32]) -> (a: Attestation)
        ensures
            a == (Attestation { recipe: Some(recipe), family: Some(family), ..self }),
    {
        let mut s = self;
        s.recipe = Some(recipe);
        s.family = Some(family);
        s
    }

    /// What corroboration groups by: the agent and the recipe.
    pub fn corroboration_key(&self) -> (k: (String, Option<[u8; 32]>))
        ensures
            k.0@ == self.agent@,
            k.1 == self.recipe,
    {
        (owned(self.agent.as_str()), self.recipe)
    }

    pub fn ceiling(&self) -> (s: Status)
        ensures
            s == self.rung.ceiling_view(),
    {
        self.rung.ceiling()
    }
}

} // verus!
