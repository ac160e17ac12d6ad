//! Units: the immutable hashed core. Attestations, salience and labels accrete around a unit
//! outside its core: identity is content, so the same claim from two agents is one unit.

use vstd::prelude::*;

use crate::error::ShapeError;
use crate::ids::{uid_set_from, uids_sorted, Label, SchemaId, Uid};
use crate::text::str_eq;
use crate::types::provenance::Attestation;
use crate::nfc::{nfc_of, normalise};
use crate::text::{blank, is_blank};
use crate::types::epistemics::{Lod, SourceRef, Status};
use crate::types::Extra;

verus! {

/// The hashed part of a unit, immutable once built. Its text is NFC, its gist is not blank,
/// and `deps` and `grounds` are canonical uid sets.
#[derive(Debug, Clone, PartialEq, Eq, PartialOrd, Ord, Hash)]
pub struct UnitCore {
    pub schema: SchemaId,
    /// The gist: required, interpretable from the gists of `deps` alone.
    pub gist: String,
    /// The body: interpretable from the gists of `deps` and `grounds`.
    pub body: Option<String>,
    /// The detail: unbounded.
    pub detail: Option<String>,
    pub deps: Vec<Uid>,
    pub grounds: Vec<Uid>,
    pub status: Status,
    /// Required when `status` is `measured` or `cited`.
    pub source: Option<SourceRef>,
    /// Opaque deterministic CBOR belonging to an extension schema.
    pub payload: Option<Vec<u8>>,
    /// Unknown keys from a later minor version, kept verbatim.
    pub extra: Extra,
}

/// What a unit core is built from: everything as the author gave it.
#[derive(Debug, Clone, PartialEq, Eq)]
pub struct UnitCoreBuilder {
    pub schema: SchemaId,
    pub gist: String,
    pub body: Option<String>,
    pub detail: Option<String>,
    pub deps: Vec<Uid>,
    pub grounds: Vec<Uid>,
    pub status: Status,
    pub source: Option<SourceRef>,
    pub payload: Option<Vec<u8>>,
    pub extra: Extra,
}

/// An optional text as a core keeps it: normalised to NFC, and absent when that is empty.
pub open spec fn kept_text(t: Option<String>) -> Option<Seq<char>> {
    match t {
        Some(s) => if nfc_of(s@).len() == 0 {
            None
        } else {
            Some(nfc_of(s@))
        },
        None => None,
    }
}

/// The text of an optional string.
pub open spec fn opt_view(t: Option<String>) -> Option<Seq<char>> {
    match t {
        Some(s) => Some(s@),
        None => None,
    }
}

/// The shape rule a builder breaks first, if any. Monotonicity is not checked here: shape is
/// local, and monotonicity needs the store.
pub open spec fn shape_error(b: UnitCoreBuilder) -> Option<ShapeError> {
    if blank(nfc_of(b.gist@)) {
        Some(ShapeError::MissingGist)
    } else if kept_text(b.detail) is Some && kept_text(b.body) is None {
        Some(ShapeError::DetailWithoutBody)
    } else if b.status == Status::Unfounded {
        Some(ShapeError::UnfoundedAuthored)
    } else if (b.status == Status::Measured || b.status == Status::Cited) && b.source is None {
        Some(ShapeError::SourceRequired)
    } else if (b.status == Status::Derived || b.status == Status::Inferred) && b.grounds@.len() == 0 {
        Some(ShapeError::GroundsRequired)
    } else {
        None
    }
}

fn keep_text(t: &Option<String>) -> (r: Option<String>)
    ensures
        opt_view(r) == kept_text(*t),
        r matches Some(s) ==> nfc_of(s@) == s@,
{
    match t {
        Some(s) => {
            let n = normalise(s.as_str());
            if n.as_str().as_bytes().len() == 0 {
                proof {
                    vstd::utf8::encode_utf8_decode_utf8(n@);
                }
                assert(n@.len() == 0);
                None
            } else {
                Some(n)
            }
        },
        None => None,
    }
}

impl UnitCoreBuilder {
    pub fn new(schema: SchemaId, gist: &str, status: Status) -> (b: UnitCoreBuilder)
        ensures
            b.schema == schema,
            b.gist@ == gist@,
            b.body is None,
            b.detail is None,
            b.deps@.len() == 0,
            b.grounds@.len() == 0,
            b.status == status,
            b.source is None,
            b.payload is None,
            b.extra@ == Map::<u16, Vec<u8>>::empty(),
    {
        UnitCoreBuilder {
            schema,
            gist: crate::text::owned(gist),
            body: None,
            detail: None,
            deps: Vec::new(),
            grounds: Vec::new(),
            status,
            source: None,
            payload: None,
            extra: Extra::new(),
        }
    }

    pub fn body(self, s: &str) -> (b: UnitCoreBuilder)
        ensures
            b.body matches Some(t) && t@ == s@,
            b == (UnitCoreBuilder { body: b.body, ..self }),
    {
        let mut b = self;
        b.body = Some(crate::text::owned(s));
        b
    }

    pub fn detail(self, s: &str) -> (b: UnitCoreBuilder)
        ensures
            b.detail matches Some(t) && t@ == s@,
            b == (UnitCoreBuilder { detail: b.detail, ..self }),
    {
        let mut b = self;
        b.detail = Some(crate::text::owned(s));
        b
    }

    /// Sets the interpretive prerequisites, as the canonical set of the given uids.
    pub fn deps(self, d: Vec<Uid>) -> (b: UnitCoreBuilder)
        ensures
            uids_sorted(b.deps@),
            b.deps@.to_set() == d@.to_set(),
            b == (UnitCoreBuilder { deps: b.deps, ..self }),
    {
        let mut b = self;
        b.deps = uid_set_from(&d);
        b
    }

    /// Sets the evidential support, as the canonical set of the given uids.
    pub fn grounds(self, g: Vec<Uid>) -> (b: UnitCoreBuilder)
        ensures
            uids_sorted(b.grounds@),
            b.grounds@.to_set() == g@.to_set(),
            b == (UnitCoreBuilder { grounds: b.grounds, ..self }),
    {
        let mut b = self;
        b.grounds = uid_set_from(&g);
        b
    }

    pub fn source(self, s: SourceRef) -> (b: UnitCoreBuilder)
        ensures
            b == (UnitCoreBuilder { source: Some(s), ..self }),
    {
        let mut b = self;
        b.source = Some(s);
        b
    }

    pub fn payload(self, p: Vec<u8>) -> (b: UnitCoreBuilder)
        ensures
            b == (UnitCoreBuilder { payload: Some(p), ..self }),
    {
        let mut b = self;
        b.payload = Some(p);
        b
    }

    pub fn build(self) -> (r: Result<UnitCore, ShapeError>)
        requires
            uids_sorted(self.deps@),
            uids_sorted(self.grounds@),
        ensures
            UnitCore::new_spec(self, r),
    {
        UnitCore::new(self)
    }
}

impl UnitCore {
    /// What a well-formed core holds: NFC text, a gist that is not blank, no empty optional
    /// text, no detail without a body, an authorable status with the source or grounds it
    /// needs, and canonical uid sets.
    pub open spec fn well_formed(&self) -> bool {
        &&& nfc_of(self.gist@) == self.gist@
        &&& !blank(self.gist@)
        &&& (self.body matches Some(t) ==> nfc_of(t@) == t@ && t@.len() > 0)
        &&& (self.detail matches Some(t) ==> nfc_of(t@) == t@ && t@.len() > 0)
        &&& (self.detail is Some ==> self.body is Some)
        &&& self.status != Status::Unfounded
        &&& ((self.status == Status::Measured || self.status == Status::Cited) ==> self.source is Some)
        &&& ((self.status == Status::Derived || self.status == Status::Inferred) ==> self.grounds@.len() > 0)
        &&& uids_sorted(self.deps@)
        &&& uids_sorted(self.grounds@)
    }

    /// The outcome of building from `b`: the first shape error, or the core that keeps the
    /// builder's fields with its text normalised to NFC and empty optional text dropped.
    pub open spec fn new_spec(b: UnitCoreBuilder, r: Result<UnitCore, ShapeError>) -> bool {
        match shape_error(b) {
            Some(e) => r == Err::<UnitCore, ShapeError>(e),
            None => r matches Ok(c) && c.well_formed() && c.schema == b.schema && c.gist@ == nfc_of(b.gist@)
                && opt_view(c.body) == kept_text(b.body) && opt_view(c.detail) == kept_text(b.detail)
                && c.deps == b.deps && c.grounds == b.grounds && c.status == b.status && c.source == b.source
                && c.payload == b.payload && c.extra == b.extra,
        }
    }

    /// Validates and normalises.
    pub fn new(b: UnitCoreBuilder) -> (r: Result<UnitCore, ShapeError>)
        requires
            uids_sorted(b.deps@),
            uids_sorted(b.grounds@),
        ensures
            UnitCore::new_spec(b, r),
    {
        let gist = normalise(b.gist.as_str());
        if is_blank(gist.as_str()) {
            return Err(ShapeError::MissingGist);
        }
        let body = keep_text(&b.body);
        let detail = keep_text(&b.detail);
        if detail.is_some() && body.is_none() {
            return Err(ShapeError::DetailWithoutBody);
        }
        if b.status == Status::Unfounded {
            return Err(ShapeError::UnfoundedAuthored);
        }
        if b.status.requires_source() && b.source.is_none() {
            return Err(ShapeError::SourceRequired);
        }
        if b.status.requires_grounds() && b.grounds.len() == 0 {
            return Err(ShapeError::GroundsRequired);
        }
        Ok(UnitCore {
            schema: b.schema,
            gist,
            body,
            detail,
            deps: b.deps,
            grounds: b.grounds,
            status: b.status,
            source: b.source,
            payload: b.payload,
            extra: b.extra,
        })
    }

    /// The text at a level of detail, or `None` if the unit was not authored that deep.
    pub fn text_at(&self, lod: Lod) -> (r: Option<&str>)
        ensures
            match lod {
                Lod::L0 => r matches Some(t) && t@ == self.gist@,
                Lod::L1 => opt_str(r) == opt_view(self.body),
                Lod::L2 => opt_str(r) == opt_view(self.detail),
            },
    {
        match lod {
            Lod::L0 => Some(self.gist.as_str()),
            Lod::L1 => match &self.body {
                Some(s) => Some(s.as_str()),
                None => None,
            },
            Lod::L2 => match &self.detail {
                Some(s) => Some(s.as_str()),
                None => None,
            },
        }
    }

    /// The deepest level this unit was authored at.
    pub fn max_lod(&self) -> (l: Lod)
        ensures
            l == (if self.detail is Some {
                Lod::L2
            } else if self.body is Some {
                Lod::L1
            } else {
                Lod::L0
            }),
    {
        if self.detail.is_some() {
            Lod::L2
        } else if self.body.is_some() {
            Lod::L1
        } else {
            Lod::L0
        }
    }

    /// Everything this unit points at: its interpretive prerequisites, then its evidential
    /// support.
    pub fn references(&self) -> (r: Vec<Uid>)
        ensures
            r@ == self.deps@ + self.grounds@,
    {
        let mut r: Vec<Uid> = Vec::new();
        let mut i: usize = 0;
        while i < self.deps.len()
            invariant
                i <= self.deps.len(),
                r@ == self.deps@.take(i as int),
            decreases self.deps.len() - i,
        {
            r.push(self.deps[i]);
            assert(self.deps@.take(i + 1) =~= self.deps@.take(i as int).push(self.deps@[i as int]));
            i = i + 1;
        }
        let mut j: usize = 0;
        while j < self.grounds.len()
            invariant
                j <= self.grounds.len(),
                i == self.deps.len(),
                r@ == self.deps@.take(i as int) + self.grounds@.take(j as int),
            decreases self.grounds.len() - j,
        {
            r.push(self.grounds[j]);
            assert(self.grounds@.take(j + 1) =~= self.grounds@.take(j as int).push(self.grounds@[j as int]));
            j = j + 1;
        }
        assert(self.deps@.take(i as int) =~= self.deps@);
        assert(self.grounds@.take(j as int) =~= self.grounds@);
        r
    }

    /// A gist-only unit: the usual shape of imported summary material.
    pub fn is_gist_only(&self) -> (r: bool)
        ensures
            r == (self.body is None && self.detail is None),
    {
        self.body.is_none() && self.detail.is_none()
    }
}

/// The text of an optional string slice.
pub open spec fn opt_str(t: Option<&str>) -> Option<Seq<char>> {
    match t {
        Some(s) => Some(s@),
        None => None,
    }
}


/// A unit: the immutable core, plus what accretes around it. Only the core is hashed; the
/// attestations (in the order added), the authored salience (a quantised `binary32` bit
/// pattern in `[0,1]`) and the view-scoped labels (each text once) are not identity.
pub struct Unit {
    pub core: UnitCore,
    pub attestations: Vec<Attestation>,
    pub salience: Option<u32>,
    pub labels: Vec<Label>,
}

/// What makes two attestations one corroboration group: the agent and the recipe.
pub open spec fn group_key(a: Attestation) -> (Seq<char>, Option<Seq<u8>>) {
    (a.agent@, match a.recipe {
        Some(r) => Some(r@),
        None => None,
    })
}

/// The corroboration groups among attestations.
pub open spec fn groups(s: Seq<Attestation>) -> Set<(Seq<char>, Option<Seq<u8>>)> {
    Set::new(|k: (Seq<char>, Option<Seq<u8>>)| exists|i: int| 0 <= i < s.len() && group_key(#[trigger] s[i]) == k)
}

/// The lowest hop among attestations, none for none.
pub open spec fn min_hop(s: Seq<Attestation>) -> Option<u32>
    decreases s.len(),
{
    if s.len() == 0 {
        None
    } else {
        match min_hop(s.drop_last()) {
            None => Some(s.last().hop),
            Some(h) => Some(if s.last().hop < h { s.last().hop } else { h }),
        }
    }
}

/// Whether some label has the text `t`.
pub open spec fn has_label(ls: Seq<Label>, t: Seq<char>) -> bool {
    exists|i: int| 0 <= i < ls.len() && (#[trigger] ls[i])@ == t
}

fn recipe_eq(a: &Option<[u8; 32]>, b: &Option<[u8; 32]>) -> (r: bool)
    ensures
        r == ((match *a {
            Some(x) => Some(x@),
            None => None::<Seq<u8>>,
        }) == (match *b {
            Some(x) => Some(x@),
            None => None::<Seq<u8>>,
        })),
{
    match a {
        None => b.is_none(),
        Some(x) => match b {
            None => false,
            Some(y) => {
                let mut i: usize = 0;
                while i < 32
                    invariant
                        i <= 32,
                        *a == Some(*x),
                        *b == Some(*y),
                        forall|j: int| 0 <= j < i ==> x@[j] == y@[j],
                    decreases 32 - i,
                {
                    if x[i] != y[i] {
                        assert(x@[i as int] != y@[i as int]);
                        assert(x@ != y@);
                        return false;
                    }
                    i = i + 1;
                }
                assert(x@ =~= y@);
                true
            },
        },
    }
}

impl Unit {
    pub fn new(core: UnitCore) -> (u: Unit)
        ensures
            u.core == core,
            u.attestations@.len() == 0,
            u.salience is None,
            u.labels@.len() == 0,
    {
        Unit { core, attestations: Vec::new(), salience: None, labels: Vec::new() }
    }

    pub fn with_attestation(self, a: Attestation) -> (u: Unit)
        ensures
            u.core == self.core,
            u.attestations@ == self.attestations@.push(a),
            u.salience == self.salience,
            u.labels@ == self.labels@,
    {
        let mut u = self;
        u.attestations.push(a);
        u
    }

    /// Adds a label, unless one with the same text is there.
    pub fn with_label(self, l: Label) -> (u: Unit)
        ensures
            u.core == self.core,
            u.attestations@ == self.attestations@,
            u.salience == self.salience,
            u.labels@ == if has_label(self.labels@, l@) { self.labels@ } else { self.labels@.push(l) },
    {
        let mut u = self;
        let mut i: usize = 0;
        while i < u.labels.len()
            invariant
                i <= u.labels@.len(),
                u.labels@ == self.labels@,
                u.core == self.core,
                u.attestations@ == self.attestations@,
                u.salience == self.salience,
                forall|j: int| 0 <= j < i ==> (#[trigger] u.labels@[j])@ != l@,
            decreases u.labels@.len() - i,
        {
            if str_eq(u.labels[i].as_str(), l.as_str()) {
                assert(u.labels@[i as int]@ == l@);
                assert(has_label(self.labels@, l@));
                return u;
            }
            i = i + 1;
        }
        u.labels.push(l);
        u
    }

    /// Sets the authored salience, a quantised `binary32` bit pattern.
    pub fn with_salience(self, bits: u32) -> (u: Unit)
        ensures
            u.core == self.core,
            u.attestations@ == self.attestations@,
            u.salience == Some(bits),
            u.labels@ == self.labels@,
    {
        let mut u = self;
        u.salience = Some(bits);
        u
    }

    pub fn status(&self) -> (s: Status)
        ensures
            s == self.core.status,
    {
        self.core.status
    }

    /// The lowest hop at which any agent attested this unit.
    pub fn first_hop(&self) -> (r: Option<u32>)
        ensures
            r == min_hop(self.attestations@),
    {
        let ghost s = self.attestations@;
        let mut best: Option<u32> = None;
        let mut i: usize = 0;
        assert(s.take(0) =~= Seq::<Attestation>::empty());
        while i < self.attestations.len()
            invariant
                i <= s.len(),
                s == self.attestations@,
                best == min_hop(s.take(i as int)),
            decreases s.len() - i,
        {
            assert(s.take(i + 1).drop_last() =~= s.take(i as int));
            let h = self.attestations[i].hop;
            best = match best {
                None => Some(h),
                Some(b) => Some(if h < b { h } else { b }),
            };
            i = i + 1;
        }
        assert(s.take(s.len() as int) =~= s);
        best
    }

    /// The number of distinct corroboration groups: the same agent under the same recipe is
    /// one group, whatever the hop.
    pub fn corroboration_groups(&self) -> (n: usize)
        ensures
            n == groups(self.attestations@).len(),
    {
        let ghost s = self.attestations@;
        let mut firsts: Vec<usize> = Vec::new();
        let ghost mut keys: Seq<(Seq<char>, Option<Seq<u8>>)> = Seq::empty();
        let mut i: usize = 0;
        while i < self.attestations.len()
            invariant
                i <= s.len(),
                s == self.attestations@,
                firsts@.len() == keys.len(),
                forall|j: int| 0 <= j < firsts@.len() ==> (#[trigger] firsts@[j]) < i && keys[j] == group_key(s[firsts@[j] as int]),
                keys.no_duplicates(),
                keys.to_set() == groups(s.take(i as int)),
            decreases s.len() - i,
        {
            let a = &self.attestations[i];
            let mut j: usize = 0;
            let mut found = false;
            while j < firsts.len() && !found
                invariant
                    j <= firsts@.len(),
                    i < s.len(),
                    *a == s[i as int],
                    s == self.attestations@,
                    firsts@.len() == keys.len(),
                    forall|x: int| 0 <= x < firsts@.len() ==> (#[trigger] firsts@[x]) < i && keys[x] == group_key(s[firsts@[x] as int]),
                    found ==> keys.contains(group_key(s[i as int])),
                    !found ==> forall|x: int| 0 <= x < j ==> keys[x] != group_key(s[i as int]),
                decreases firsts@.len() - j, (if found { 0int } else { 1int }),
            {
                let fj = firsts[j];
                assert(keys[j as int] == group_key(s[fj as int]));
                let b = &self.attestations[fj];
                assert(a.agent@ == s[i as int].agent@ && a.recipe == s[i as int].recipe);
                assert(b.agent@ == s[fj as int].agent@ && b.recipe == s[fj as int].recipe);
                let same_agent = str_eq(a.agent.as_str(), b.agent.as_str());
                let same_recipe = recipe_eq(&a.recipe, &b.recipe);
                if same_agent && same_recipe {
                    found = true;
                    assert(keys[j as int] == group_key(s[i as int]));
                } else {
                    assert(keys[j as int] != group_key(s[i as int]));
                    j = j + 1;
                }
            }
            let ghost k = group_key(s[i as int]);
            proof {
                assert(s.take(i + 1) =~= s.take(i as int).push(s[i as int]));
                assert(groups(s.take(i + 1)) =~= groups(s.take(i as int)).insert(k)) by {
                    assert forall|kk| groups(s.take(i + 1)).contains(kk) <==> groups(s.take(i as int)).insert(k).contains(kk) by {
                        if groups(s.take(i + 1)).contains(kk) {
                            let x = choose|x: int| 0 <= x < s.take(i + 1).len() && group_key(#[trigger] s.take(i + 1)[x]) == kk;
                            if x < i {
                                assert(s.take(i as int)[x] == s.take(i + 1)[x]);
                            }
                        }
                        if groups(s.take(i as int)).contains(kk) {
                            let x = choose|x: int| 0 <= x < s.take(i as int).len() && group_key(#[trigger] s.take(i as int)[x]) == kk;
                            assert(s.take(i + 1)[x] == s.take(i as int)[x]);
                        }
                        if kk == k {
                            assert(s.take(i + 1)[i as int] == s[i as int]);
                        }
                    }
                }
            }
            if !found {
                firsts.push(i);
                proof {
                    let k2 = keys.push(k);
                    assert(!keys.contains(k)) by {
                        if keys.contains(k) {
                            let x = choose|x: int| 0 <= x < keys.len() && keys[x] == k;
                        }
                    }
                    assert(k2.no_duplicates()) by {
                        assert forall|x: int, y: int| 0 <= x < k2.len() && 0 <= y < k2.len() && x != y implies k2[x] != k2[y] by {
                            if x == keys.len() as int {
                                assert(keys.contains(k2[y]));
                            } else if y == keys.len() as int {
                                assert(keys.contains(k2[x]));
                            }
                        }
                    }
                    assert forall|x| k2.to_set().contains(x) <==> keys.to_set().insert(k).contains(x) by {
                        if k2.contains(x) {
                            let y = choose|y: int| 0 <= y < k2.len() && k2[y] == x;
                            if y < keys.len() {
                                assert(keys[y] == x);
                            }
                        }
                        if keys.contains(x) {
                            let y = choose|y: int| 0 <= y < keys.len() && keys[y] == x;
                            assert(k2[y] == x);
                        }
                        if x == k {
                            assert(k2[keys.len() as int] == k);
                        }
                    }
                    assert(k2.to_set() =~= keys.to_set().insert(k));
                    keys = k2;
                }
            } else {
                proof {
                    assert(keys.to_set().contains(k));
                    assert(keys.to_set().insert(k) =~= keys.to_set());
                }
            }
            i = i + 1;
        }
        proof {
            assert(s.take(s.len() as int) =~= s);
            keys.unique_seq_to_set();
        }
        firsts.len()
    }
}

} // verus!
