//! The discourse plane: typed, immutable edges between units. Relations carry a weight,
//! which is a float; only their kinds stand here.

use vstd::prelude::*;

use crate::error::IdError;
use crate::cbor::writer::Enc;
use crate::hash::{blake3_digest, hash_bytes};
use crate::ids::Uid;
use vstd::utf8::encode_utf8;
use crate::types::provenance::Attestation;
use crate::types::Extra;
use crate::ids::{check_ext_segment, check_ident, ext_segment, ident};
use crate::text::{chars_of, find_char, index_of, owned, starts_with, str_eq};

verus! {

/// The kind of a relation: the closed kernel set, plus extension kinds carried by text.
/// An unknown kind is preserved and treated as `elaborates` for closure: dropping it would
/// lose data, and refusing it would make a store unreadable because its author knew more.
#[derive(Debug, Clone, PartialEq, Eq, PartialOrd, Ord, Hash)]
pub enum RelKind {
    Elaborates,
    Contrasts,
    Concedes,
    Causes,
    Enables,
    Exemplifies,
    Conditions,
    Sequences,
    Answers,
    Rebuts,
    Warrant,
    Backs,
    Supersedes,
    Retracts,
    /// `x.<domain>/<kind>`, carried by text rather than by code.
    Extension(String),
}

/// The text form of an extension relation kind: `x.`, a domain, `/`, and a kind segment.
pub open spec fn rel_extension(s: Seq<char>) -> bool {
    s.len() >= 2 && s.take(2) == "x."@ && index_of(s.skip(2), '/') >= 0 && ident(
        s.skip(2).take(index_of(s.skip(2), '/')),
    ) && ext_segment(s.skip(2).skip(index_of(s.skip(2), '/') + 1))
}

impl RelKind {
    /// The fourteen kernel kinds, in wire-code order.
    pub const KERNEL: [RelKind; 14] = [
        RelKind::Elaborates,
        RelKind::Contrasts,
        RelKind::Concedes,
        RelKind::Causes,
        RelKind::Enables,
        RelKind::Exemplifies,
        RelKind::Conditions,
        RelKind::Sequences,
        RelKind::Answers,
        RelKind::Rebuts,
        RelKind::Warrant,
        RelKind::Backs,
        RelKind::Supersedes,
        RelKind::Retracts,
    ];

    /// Whether `c` is one of the codes 14 to 63, which are reserved; extensions use the text
    /// form.
    pub fn is_reserved_code(c: u8) -> (r: bool)
        ensures
            r == (14 <= c <= 63),
    {
        14 <= c && c <= 63
    }

    /// The wire code of a kernel kind; extensions have none.
    pub open spec fn code_view(&self) -> Option<u8> {
        match self {
            RelKind::Elaborates => Some(0u8),
            RelKind::Contrasts => Some(1u8),
            RelKind::Concedes => Some(2u8),
            RelKind::Causes => Some(3u8),
            RelKind::Enables => Some(4u8),
            RelKind::Exemplifies => Some(5u8),
            RelKind::Conditions => Some(6u8),
            RelKind::Sequences => Some(7u8),
            RelKind::Answers => Some(8u8),
            RelKind::Rebuts => Some(9u8),
            RelKind::Warrant => Some(10u8),
            RelKind::Backs => Some(11u8),
            RelKind::Supersedes => Some(12u8),
            RelKind::Retracts => Some(13u8),
            RelKind::Extension(_) => None,
        }
    }

    /// The text form.
    pub open spec fn text(&self) -> Seq<char> {
        match self {
            RelKind::Elaborates => "elaborates"@,
            RelKind::Contrasts => "contrasts"@,
            RelKind::Concedes => "concedes"@,
            RelKind::Causes => "causes"@,
            RelKind::Enables => "enables"@,
            RelKind::Exemplifies => "exemplifies"@,
            RelKind::Conditions => "conditions"@,
            RelKind::Sequences => "sequences"@,
            RelKind::Answers => "answers"@,
            RelKind::Rebuts => "rebuts"@,
            RelKind::Warrant => "warrant"@,
            RelKind::Backs => "backs"@,
            RelKind::Supersedes => "supersedes"@,
            RelKind::Retracts => "retracts"@,
            RelKind::Extension(s) => s@,
        }
    }

    pub fn code(&self) -> (r: Option<u8>)
        ensures
            r == self.code_view(),
    {
        match self {
            RelKind::Elaborates => Some(0),
            RelKind::Contrasts => Some(1),
            RelKind::Concedes => Some(2),
            RelKind::Causes => Some(3),
            RelKind::Enables => Some(4),
            RelKind::Exemplifies => Some(5),
            RelKind::Conditions => Some(6),
            RelKind::Sequences => Some(7),
            RelKind::Answers => Some(8),
            RelKind::Rebuts => Some(9),
            RelKind::Warrant => Some(10),
            RelKind::Backs => Some(11),
            RelKind::Supersedes => Some(12),
            RelKind::Retracts => Some(13),
            RelKind::Extension(_) => None,
        }
    }

    /// The kernel kind with wire code `c`; codes past the kernel set are reserved.
    pub fn from_code(c: u8) -> (r: Option<RelKind>)
        ensures
            match r {
                Some(k) => k.code_view() == Some(c),
                None => c >= 14,
            },
    {
        match c {
            0 => Some(RelKind::Elaborates),
            1 => Some(RelKind::Contrasts),
            2 => Some(RelKind::Concedes),
            3 => Some(RelKind::Causes),
            4 => Some(RelKind::Enables),
            5 => Some(RelKind::Exemplifies),
            6 => Some(RelKind::Conditions),
            7 => Some(RelKind::Sequences),
            8 => Some(RelKind::Answers),
            9 => Some(RelKind::Rebuts),
            10 => Some(RelKind::Warrant),
            11 => Some(RelKind::Backs),
            12 => Some(RelKind::Supersedes),
            13 => Some(RelKind::Retracts),
            _ => None,
        }
    }

    pub fn as_str(&self) -> (r: &str)
        ensures
            r@ == self.text(),
    {
        match self {
            RelKind::Elaborates => "elaborates",
            RelKind::Contrasts => "contrasts",
            RelKind::Concedes => "concedes",
            RelKind::Causes => "causes",
            RelKind::Enables => "enables",
            RelKind::Exemplifies => "exemplifies",
            RelKind::Conditions => "conditions",
            RelKind::Sequences => "sequences",
            RelKind::Answers => "answers",
            RelKind::Rebuts => "rebuts",
            RelKind::Warrant => "warrant",
            RelKind::Backs => "backs",
            RelKind::Supersedes => "supersedes",
            RelKind::Retracts => "retracts",
            RelKind::Extension(s) => s.as_str(),
        }
    }

    /// Distinct kernel kinds have distinct names, and no kernel name has the extension form.
    pub proof fn lemma_kernel_text()
        ensures
            forall|a: RelKind, b: RelKind| a.code_view() is Some && b.code_view() is Some && a.text() == b.text()
                ==> a == b,
            forall|a: RelKind| a.code_view() is Some ==> !rel_extension(#[trigger] a.text()),
    {
        reveal_strlit("elaborates");
        assert(RelKind::Elaborates.text().len() == 10);
        assert(RelKind::Elaborates.text()[0] == 'e');
        reveal_strlit("contrasts");
        assert(RelKind::Contrasts.text().len() == 9);
        assert(RelKind::Contrasts.text()[0] == 'c');
        reveal_strlit("concedes");
        assert(RelKind::Concedes.text().len() == 8);
        assert(RelKind::Concedes.text()[0] == 'c');
        reveal_strlit("causes");
        assert(RelKind::Causes.text().len() == 6);
        assert(RelKind::Causes.text()[0] == 'c');
        reveal_strlit("enables");
        assert(RelKind::Enables.text().len() == 7);
        assert(RelKind::Enables.text()[0] == 'e');
        reveal_strlit("exemplifies");
        assert(RelKind::Exemplifies.text().len() == 11);
        assert(RelKind::Exemplifies.text()[0] == 'e');
        reveal_strlit("conditions");
        assert(RelKind::Conditions.text().len() == 10);
        assert(RelKind::Conditions.text()[0] == 'c');
        reveal_strlit("sequences");
        assert(RelKind::Sequences.text().len() == 9);
        assert(RelKind::Sequences.text()[0] == 's');
        reveal_strlit("answers");
        assert(RelKind::Answers.text().len() == 7);
        assert(RelKind::Answers.text()[0] == 'a');
        reveal_strlit("rebuts");
        assert(RelKind::Rebuts.text().len() == 6);
        assert(RelKind::Rebuts.text()[0] == 'r');
        reveal_strlit("warrant");
        assert(RelKind::Warrant.text().len() == 7);
        assert(RelKind::Warrant.text()[0] == 'w');
        reveal_strlit("backs");
        assert(RelKind::Backs.text().len() == 5);
        assert(RelKind::Backs.text()[0] == 'b');
        reveal_strlit("supersedes");
        assert(RelKind::Supersedes.text().len() == 10);
        assert(RelKind::Supersedes.text()[0] == 's');
        reveal_strlit("retracts");
        assert(RelKind::Retracts.text().len() == 8);
        assert(RelKind::Retracts.text()[0] == 'r');
        reveal_strlit("x.");
        assert forall|a: RelKind, b: RelKind| a.code_view() is Some && b.code_view() is Some && a.text() == b.text()
            implies a == b by {
            assert(a.text().len() == b.text().len());
            assert(a.text()[0] == b.text()[0]);
            if a.text().len() > 1 {
                assert(a.text()[1] == b.text()[1]);
            }
            if a.text().len() > 2 {
                assert(a.text()[2] == b.text()[2]);
            }
        }
        assert forall|a: RelKind| a.code_view() is Some implies !rel_extension(#[trigger] a.text()) by {
            if a.text().len() >= 2 && a.text().take(2) == "x."@ {
                assert(a.text()[0] == a.text().take(2)[0]);
            }
        }
    }

    /// Parses a kind: a kernel name, or an extension of the form `x.<domain>/<kind>`.
    pub fn parse(s: &str) -> (r: Result<RelKind, IdError>)
        ensures
            match r {
                Ok(k) => k.text() == s@ && (k.code_view() is Some || rel_extension(s@)),
                Err(e) => e.kind@ == "relation kind"@ && e.found@ == s@ && !rel_extension(s@) && forall|k: RelKind|
                    k.code_view() is Some ==> #[trigger] k.text() != s@,
            },
    {
        proof {
            RelKind::lemma_kernel_text();
        }
        if str_eq(s, "elaborates") {
            return Ok(RelKind::Elaborates);
        }
        if str_eq(s, "contrasts") {
            return Ok(RelKind::Contrasts);
        }
        if str_eq(s, "concedes") {
            return Ok(RelKind::Concedes);
        }
        if str_eq(s, "causes") {
            return Ok(RelKind::Causes);
        }
        if str_eq(s, "enables") {
            return Ok(RelKind::Enables);
        }
        if str_eq(s, "exemplifies") {
            return Ok(RelKind::Exemplifies);
        }
        if str_eq(s, "conditions") {
            return Ok(RelKind::Conditions);
        }
        if str_eq(s, "sequences") {
            return Ok(RelKind::Sequences);
        }
        if str_eq(s, "answers") {
            return Ok(RelKind::Answers);
        }
        if str_eq(s, "rebuts") {
            return Ok(RelKind::Rebuts);
        }
        if str_eq(s, "warrant") {
            return Ok(RelKind::Warrant);
        }
        if str_eq(s, "backs") {
            return Ok(RelKind::Backs);
        }
        if str_eq(s, "supersedes") {
            return Ok(RelKind::Supersedes);
        }
        if str_eq(s, "retracts") {
            return Ok(RelKind::Retracts);
        }
        proof {
            assert forall|k: RelKind| k.code_view() is Some implies #[trigger] k.text() != s@ by {
                match k {
                    RelKind::Elaborates => {},
                    RelKind::Contrasts => {},
                    RelKind::Concedes => {},
                    RelKind::Causes => {},
                    RelKind::Enables => {},
                    RelKind::Exemplifies => {},
                    RelKind::Conditions => {},
                    RelKind::Sequences => {},
                    RelKind::Answers => {},
                    RelKind::Rebuts => {},
                    RelKind::Warrant => {},
                    RelKind::Backs => {},
                    RelKind::Supersedes => {},
                    RelKind::Retracts => {},
                    RelKind::Extension(_) => {},
                }
            }
            reveal_strlit("x.");
            reveal_strlit("relation kind");
        }
        let v = chars_of(s);
        if !starts_with(&v, "x.") {
            return Err(IdError { kind: "relation kind", found: owned(s) });
        }
        let ghost rest = s@.skip(2);
        assert(rest =~= v@.skip(2));
        match find_char(&v, '/', 2) {
            None => Err(IdError { kind: "relation kind", found: owned(s) }),
            Some(j) => {
                assert(rest.take(j - 2) =~= v@.subrange(2, j as int));
                assert(rest.skip(j - 2 + 1) =~= v@.subrange(j + 1, v@.len() as int));
                if check_ident(&v, 2, j) && check_ext_segment(&v, j + 1, v.len()) {
                    Ok(RelKind::Extension(owned(s)))
                } else {
                    Err(IdError { kind: "relation kind", found: owned(s) })
                }
            },
        }
    }

    pub fn is_kernel(&self) -> (r: bool)
        ensures
            r == (self.code_view() is Some),
    {
        match self {
            RelKind::Extension(_) => false,
            _ => true,
        }
    }

    /// How this kind behaves for closure: a kernel kind as itself, an unknown kind as
    /// `elaborates`.
    pub fn closure_kind(&self) -> (r: RelKind)
        ensures
            self.code_view() is Some ==> r == *self,
            self.code_view() is None ==> r == RelKind::Elaborates,
    {
        match self {
            RelKind::Elaborates => RelKind::Elaborates,
            RelKind::Contrasts => RelKind::Contrasts,
            RelKind::Concedes => RelKind::Concedes,
            RelKind::Causes => RelKind::Causes,
            RelKind::Enables => RelKind::Enables,
            RelKind::Exemplifies => RelKind::Exemplifies,
            RelKind::Conditions => RelKind::Conditions,
            RelKind::Sequences => RelKind::Sequences,
            RelKind::Answers => RelKind::Answers,
            RelKind::Rebuts => RelKind::Rebuts,
            RelKind::Warrant => RelKind::Warrant,
            RelKind::Backs => RelKind::Backs,
            RelKind::Supersedes => RelKind::Supersedes,
            RelKind::Retracts => RelKind::Retracts,
            RelKind::Extension(_) => RelKind::Elaborates,
        }
    }

    /// Whether salience rank flows along this edge: `causes` and `answers`.
    pub fn carries_support(&self) -> (r: bool)
        ensures
            r == (*self == RelKind::Causes || *self == RelKind::Answers),
    {
        match self {
            RelKind::Causes | RelKind::Answers => true,
            _ => false,
        }
    }

    /// The kinds that order a thread: `sequences`, `causes` and `enables`.
    pub fn is_ordering(&self) -> (r: bool)
        ensures
            r == (*self == RelKind::Sequences || *self == RelKind::Causes || *self == RelKind::Enables),
    {
        match self {
            RelKind::Sequences | RelKind::Causes | RelKind::Enables => true,
            _ => false,
        }
    }

    /// The kinds that change what should be believed: `supersedes` and `retracts`.
    pub fn is_lifecycle(&self) -> (r: bool)
        ensures
            r == (*self == RelKind::Supersedes || *self == RelKind::Retracts),
    {
        match self {
            RelKind::Supersedes | RelKind::Retracts => true,
            _ => false,
        }
    }
}


/// A typed edge between two units. Its weight, where it has one, is the `binary32` bit
/// pattern of a value in `[0,1]` quantised to 1/1024, so the value held is the value written.
/// The attestations are held beside the edge and are not part of its payload.
#[derive(Debug, Clone, PartialEq, Eq)]
pub struct Relation {
    pub kind: RelKind,
    pub from: Uid,
    pub to: Uid,
    pub weight: Option<u32>,
    pub note: Option<Uid>,
    pub attestations: Vec<Attestation>,
    pub extra: Extra,
}

impl Relation {
    /// An edge with no weight, note, attestations or unknown keys.
    pub fn new(kind: RelKind, from: Uid, to: Uid) -> (r: Relation)
        ensures
            r.kind == kind,
            r.from == from,
            r.to == to,
            r.weight is None,
            r.note is None,
            r.attestations@.len() == 0,
            r.extra@ == Map::<u16, Vec<u8>>::empty(),
    {
        Relation { kind, from, to, weight: None, note: None, attestations: Vec::new(), extra: Extra::new() }
    }

    /// The edge with a unit carrying commentary on it.
    pub fn with_note(self, n: Uid) -> (r: Relation)
        ensures
            r == (Relation { note: Some(n), ..self }),
    {
        Relation { note: Some(n), ..self }
    }

    /// The identity of an edge: its kind and its two ends. Two relations with the same key are
    /// the same edge.
    pub fn key(&self) -> (k: (&RelKind, &Uid, &Uid))
        ensures
            k == (&self.kind, &self.from, &self.to),
    {
        (&self.kind, &self.from, &self.to)
    }

    /// The content address of the edge: BLAKE3 over the relation type code, the kind's name, a
    /// zero byte, and the two ends. Weight, note and attestations are not identity.
    pub fn uid(&self) -> (u: Uid)
        ensures
            u.bytes() == blake3_digest(relation_id_input(*self)),
    {
        let mut e = Enc::new();
        e.raw(&[3u8]);
        e.raw(self.kind.as_str().as_bytes());
        e.raw(&[0u8]);
        e.raw(self.from.as_bytes());
        e.raw(self.to.as_bytes());
        let b = e.into_bytes();
        assert(b@ =~= relation_id_input(*self));
        Uid::from_bytes(hash_bytes(b.as_slice()))
    }

    /// The earliest hop any agent attested the edge at; none for an edge nobody attested.
    pub fn hop(&self) -> (h: Option<u32>)
        ensures
            h is None <==> self.attestations@.len() == 0,
            h matches Some(x) ==> (exists|i: int| 0 <= i < self.attestations@.len() && #[trigger] self.attestations@[i].hop == x)
                && forall|i: int| 0 <= i < self.attestations@.len() ==> x <= #[trigger] self.attestations@[i].hop,
    {
        let mut best: Option<u32> = None;
        let mut i: usize = 0;
        while i < self.attestations.len()
            invariant
                i <= self.attestations@.len(),
                best is None <==> i == 0,
                best matches Some(x) ==> (exists|j: int| 0 <= j < i && #[trigger] self.attestations@[j].hop == x)
                    && forall|j: int| 0 <= j < i ==> x <= #[trigger] self.attestations@[j].hop,
            decreases self.attestations.len() - i,
        {
            let h = self.attestations[i].hop;
            best = match best {
                Some(x) => if h < x { Some(h) } else { Some(x) },
                None => Some(h),
            };
            i = i + 1;
        }
        best
    }

    /// Whether the edge rebuts `uid`: a rebuttal whose target is `uid`.
    pub fn rebuts(&self, uid: &Uid) -> (r: bool)
        ensures
            r == (self.kind is Rebuts && self.to.bytes() == uid.bytes()),
    {
        proof {
            crate::ids::lemma_uid_bytes_injective(self.to, *uid);
        }
        match self.kind {
            RelKind::Rebuts => self.to == *uid,
            _ => false,
        }
    }
}

/// What the content address of an edge is computed over.
pub open spec fn relation_id_input(r: Relation) -> Seq<u8> {
    seq![3u8] + encode_utf8(r.kind.text()) + seq![0u8] + r.from.bytes() + r.to.bytes()
}

} // verus!
