//! Views and granularity. A view is a named root set, not a container: everything reachable from
//! its roots is in it, nothing is copied or owned, and merging views is a union.

use vstd::prelude::*;

use crate::ids::{uid_set_from, uid_set_insert, uids_sorted, LangTag, SchemaId, ThreadId, Uid, ViewId};
use crate::text::{owned, str_eq};
use crate::types::Extra;
use vstd::view::View as ViewTrait;

verus! {

/// How much a body may assert.
#[derive(Debug, Clone, Copy, PartialEq, Eq, Structural, PartialOrd, Ord, Hash)]
#[non_exhaustive]
pub enum Admission {
    SingleAssertion,
    Topical,
}

impl Admission {
    /// Every variant, in declaration order.
    pub const ALL: [Admission; 2] = [
        Admission::SingleAssertion,
        Admission::Topical,
    ];

    /// The stable text name.
    pub open spec fn str_view(self) -> Seq<char> {
        match self {
            Admission::SingleAssertion => "single-assertion"@,
            Admission::Topical => "topical"@,
        }
    }

    pub fn as_str(self) -> (r: &'static str)
        ensures
            r@ == self.str_view(),
    {
        match self {
            Admission::SingleAssertion => "single-assertion",
            Admission::Topical => "topical",
        }
    }

    /// Distinct variants have distinct names.
    pub proof fn lemma_str_view_injective()
        ensures
            forall|a: Admission, b: Admission| a.str_view() == b.str_view() ==> a == b,
    {
        reveal_strlit("single-assertion");
        assert(Admission::SingleAssertion.str_view().len() == 16);
        reveal_strlit("topical");
        assert(Admission::Topical.str_view().len() == 7);
        assert forall|a: Admission, b: Admission| a.str_view() == b.str_view() implies a == b by {
            assert(a.str_view().len() == b.str_view().len());
        }
    }

    /// The variant whose name is exactly `s`.
    pub fn parse(s: &str) -> (r: Option<Admission>)
        ensures
            forall|k: Admission| r == Some(k) <==> k.str_view() == s@,
            r is None <==> forall|k: Admission| k.str_view() != s@,
    {
        proof {
            Admission::lemma_str_view_injective();
        }
        if crate::text::str_eq(s, "single-assertion") {
            assert(Admission::SingleAssertion.str_view() == s@);
            return Some(Admission::SingleAssertion);
        }
        if crate::text::str_eq(s, "topical") {
            assert(Admission::Topical.str_view() == s@);
            return Some(Admission::Topical);
        }
        proof {
            assert forall|k: Admission| k.str_view() != s@ by {
                match k {
                    Admission::SingleAssertion => {},
                    Admission::Topical => {},
                }
            }
        }
        None
    }

    /// The wire code.
    pub open spec fn code_view(self) -> u8 {
        match self {
            Admission::SingleAssertion => 0u8,
            Admission::Topical => 1u8,
        }
    }

    pub fn as_u8(self) -> (r: u8)
        ensures
            r == self.code_view(),
    {
        match self {
            Admission::SingleAssertion => 0,
            Admission::Topical => 1,
        }
    }

    /// The variant with wire code `v`.
    pub fn from_u8(v: u8) -> (r: Option<Admission>)
        ensures
            forall|k: Admission| r == Some(k) <==> k.code_view() == v,
            r is None <==> forall|k: Admission| k.code_view() != v,
    {
        match v {
            0 => {
                assert(Admission::SingleAssertion.code_view() == v);
                Some(Admission::SingleAssertion)
            },
            1 => {
                assert(Admission::Topical.code_view() == v);
                Some(Admission::Topical)
            },
            _ => None,
        }
    }

}

/// A granularity profile: bounds, in estimated tokens, on what one unit may say. Granularity
/// constrains production, not the store: a merged store may mix profiles.
#[derive(Debug, Clone, PartialEq, Eq, Hash)]
pub struct GranularityProfile {
    pub profile: String,
    pub l0_max: u32,
    pub l1_min: u32,
    pub l1_max: u32,
    pub admission: Admission,
}

/// The profile a preset name stands for: its name, `l0_max`, `l1_min`, `l1_max` and admission.
pub open spec fn preset_view(name: Seq<char>) -> Option<(Seq<char>, u32, u32, u32, Admission)> {
    if name == "coarse"@ {
        Some(("coarse"@, 30u32, 120u32, 400u32, Admission::Topical))
    } else if name == "default"@ {
        Some(("default"@, 30u32, 40u32, 120u32, Admission::SingleAssertion))
    } else if name == "fine"@ {
        Some(("fine"@, 30u32, 20u32, 60u32, Admission::SingleAssertion))
    } else {
        None
    }
}

impl GranularityProfile {
    /// The profile's fields as a tuple, its name by its characters.
    pub open spec fn fields(&self) -> (Seq<char>, u32, u32, u32, Admission) {
        (self.profile@, self.l0_max, self.l1_min, self.l1_max, self.admission)
    }

    /// Narrative: topical admission, long bodies.
    pub fn coarse() -> (g: GranularityProfile)
        ensures
            preset_view("coarse"@) == Some(g.fields()),
    {
        GranularityProfile { profile: owned("coarse"), l0_max: 30, l1_min: 120, l1_max: 400, admission: Admission::Topical }
    }

    /// Reports, docs, briefs.
    pub fn standard() -> (g: GranularityProfile)
        ensures
            preset_view("default"@) == Some(g.fields()),
    {
        proof {
            reveal_strlit("coarse");
            reveal_strlit("default");
        }
        GranularityProfile {
            profile: owned("default"),
            l0_max: 30,
            l1_min: 40,
            l1_max: 120,
            admission: Admission::SingleAssertion,
        }
    }

    /// Analysis and research traces.
    pub fn fine() -> (g: GranularityProfile)
        ensures
            preset_view("fine"@) == Some(g.fields()),
    {
        proof {
            reveal_strlit("coarse");
            reveal_strlit("default");
            reveal_strlit("fine");
        }
        GranularityProfile { profile: owned("fine"), l0_max: 30, l1_min: 20, l1_max: 60, admission: Admission::SingleAssertion }
    }

    /// The preset named `name`, if there is one.
    pub fn preset(name: &str) -> (r: Option<GranularityProfile>)
        ensures
            match r {
                Some(g) => preset_view(name@) == Some(g.fields()),
                None => preset_view(name@) is None,
            },
    {
        if str_eq(name, "coarse") {
            Some(GranularityProfile::coarse())
        } else if str_eq(name, "default") {
            Some(GranularityProfile::standard())
        } else if str_eq(name, "fine") {
            Some(GranularityProfile::fine())
        } else {
            None
        }
    }

    /// Whether a body of `tokens` lies within `[l1_min, l1_max]`, both ends included.
    pub fn body_in_range(&self, tokens: u32) -> (r: bool)
        ensures
            r == (self.l1_min <= tokens && tokens <= self.l1_max),
    {
        self.l1_min <= tokens && tokens <= self.l1_max
    }

    /// Whether a gist of `tokens` is within `l0_max`.
    pub fn gist_within_bound(&self, tokens: u32) -> (r: bool)
        ensures
            r == (tokens <= self.l0_max),
    {
        tokens <= self.l0_max
    }
}

impl Default for GranularityProfile {
    fn default() -> (g: GranularityProfile)
        ensures
            preset_view("default"@) == Some(g.fields()),
    {
        GranularityProfile::standard()
    }
}

/// What a consumer can do with a view.
#[derive(Debug, Clone, Copy, PartialEq, Eq, Structural, PartialOrd, Ord, Hash)]
#[non_exhaustive]
pub enum Fidelity {
    Full,
    Degraded,
    /// A consumer must not silently degrade here.
    Refuse,
}

/// The texts of a list of thread ids.
pub open spec fn thread_texts(v: Seq<ThreadId>) -> Set<Seq<char>> {
    Set::new(|t: Seq<char>| exists|i: int| 0 <= i < v.len() && #[trigger] v[i]@ == t)
}

/// No two thread ids of the list have the same text.
pub open spec fn threads_distinct(v: Seq<ThreadId>) -> bool {
    forall|i: int, j: int| 0 <= i < j < v.len() ==> #[trigger] v[i]@ != #[trigger] v[j]@
}

/// The texts of a list of schema ids.
pub open spec fn schema_texts(v: Seq<SchemaId>) -> Set<Seq<char>> {
    Set::new(|t: Seq<char>| exists|i: int| 0 <= i < v.len() && #[trigger] v[i].text() == t)
}

/// No two schema ids of the list have the same text.
pub open spec fn schemas_distinct(v: Seq<SchemaId>) -> bool {
    forall|i: int, j: int| 0 <= i < j < v.len() ==> #[trigger] v[i].text() != #[trigger] v[j].text()
}

/// Adds `t` to a list of distinct thread ids, unless its text is already there.
pub fn thread_set_add(v: &mut Vec<ThreadId>, t: ThreadId)
    requires
        threads_distinct(old(v)@),
    ensures
        threads_distinct(final(v)@),
        thread_texts(final(v)@) == thread_texts(old(v)@).insert(t@),
{
    let mut i: usize = 0;
    while i < v.len()
        invariant
            i <= v.len(),
            v@ == old(v)@,
            threads_distinct(v@),
            forall|j: int| 0 <= j < i ==> v@[j]@ != t@,
        decreases v.len() - i,
    {
        if str_eq(v[i].as_str(), t.as_str()) {
            assert(thread_texts(v@) =~= thread_texts(v@).insert(t@));
            return;
        }
        i = i + 1;
    }
    let ghost old_v = v@;
    v.push(t);
    assert forall|a: int, b: int| 0 <= a < b < v@.len() implies #[trigger] v@[a]@ != #[trigger] v@[b]@ by {
        if b < old_v.len() {
            assert(old_v[a]@ != old_v[b]@);
        }
    }
    assert(thread_texts(v@) =~= thread_texts(old_v).insert(t@)) by {
        assert forall|x: Seq<char>| thread_texts(v@).contains(x) implies thread_texts(old_v).insert(t@).contains(x) by {
            let k = choose|k: int| 0 <= k < v@.len() && #[trigger] v@[k]@ == x;
            if k < old_v.len() {
                assert(old_v[k]@ == x);
            }
        }
        assert forall|x: Seq<char>| thread_texts(old_v).insert(t@).contains(x) implies thread_texts(v@).contains(x) by {
            if x == t@ {
                assert(v@[old_v.len() as int]@ == x);
            } else {
                let k = choose|k: int| 0 <= k < old_v.len() && #[trigger] old_v[k]@ == x;
                assert(v@[k]@ == x);
            }
        }
    }
}

/// Adds `s` to a list of distinct schema ids, unless its text is already there.
pub fn schema_set_add(v: &mut Vec<SchemaId>, s: SchemaId)
    requires
        schemas_distinct(old(v)@),
    ensures
        schemas_distinct(final(v)@),
        schema_texts(final(v)@) == schema_texts(old(v)@).insert(s.text()),
{
    let mut i: usize = 0;
    while i < v.len()
        invariant
            i <= v.len(),
            v@ == old(v)@,
            schemas_distinct(v@),
            forall|j: int| 0 <= j < i ==> v@[j].text() != s.text(),
        decreases v.len() - i,
    {
        if str_eq(v[i].as_str(), s.as_str()) {
            assert(schema_texts(v@) =~= schema_texts(v@).insert(s.text()));
            return;
        }
        i = i + 1;
    }
    let ghost old_v = v@;
    v.push(s);
    assert forall|a: int, b: int| 0 <= a < b < v@.len() implies #[trigger] v@[a].text() != #[trigger] v@[b].text() by {
        if b < old_v.len() {
            assert(old_v[a].text() != old_v[b].text());
        }
    }
    assert(schema_texts(v@) =~= schema_texts(old_v).insert(s.text())) by {
        assert forall|x: Seq<char>| schema_texts(v@).contains(x) implies schema_texts(old_v).insert(s.text()).contains(x) by {
            let k = choose|k: int| 0 <= k < v@.len() && #[trigger] v@[k].text() == x;
            if k < old_v.len() {
                assert(old_v[k].text() == x);
            }
        }
        assert forall|x: Seq<char>| schema_texts(old_v).insert(s.text()).contains(x) implies schema_texts(v@).contains(x) by {
            if x == s.text() {
                assert(v@[old_v.len() as int].text() == x);
            } else {
                let k = choose|k: int| 0 <= k < old_v.len() && #[trigger] old_v[k].text() == x;
                assert(v@[k].text() == x);
            }
        }
    }
}

/// Whether the schema ids of `v` are among those of `w`, by text.
pub fn schemas_subset(v: &Vec<SchemaId>, w: &Vec<SchemaId>) -> (r: bool)
    ensures
        r == schema_texts(v@).subset_of(schema_texts(w@)),
{
    let mut i: usize = 0;
    while i < v.len()
        invariant
            i <= v.len(),
            forall|j: int| 0 <= j < i ==> schema_texts(w@).contains(#[trigger] v@[j].text()),
        decreases v.len() - i,
    {
        let mut found = false;
        let mut k: usize = 0;
        while k < w.len()
            invariant
                k <= w.len(),
                i < v.len(),
                found ==> schema_texts(w@).contains(v@[i as int].text()),
                !found ==> forall|j: int| 0 <= j < k ==> w@[j].text() != v@[i as int].text(),
            decreases w.len() - k,
        {
            if str_eq(w[k].as_str(), v[i].as_str()) {
                found = true;
                assert(w@[k as int].text() == v@[i as int].text());
            }
            k = k + 1;
        }
        if !found {
            proof {
                assert(schema_texts(v@).contains(v@[i as int].text()));
                assert(!schema_texts(w@).contains(v@[i as int].text()));
            }
            return false;
        }
        i = i + 1;
    }
    proof {
        assert forall|x: Seq<char>| schema_texts(v@).contains(x) implies schema_texts(w@).contains(x) by {
            let k = choose|k: int| 0 <= k < v@.len() && #[trigger] v@[k].text() == x;
        }
    }
    true
}

/// A named root set plus the threads published over it. A view is not a container: it copies
/// and owns nothing, which is why merging views is a union. `roots` is a canonical uid set;
/// `threads` and `requires` hold no two ids of the same text.
#[derive(Debug, PartialEq, Eq)]
pub struct View {
    pub id: ViewId,
    pub roots: Vec<Uid>,
    pub threads: Vec<ThreadId>,
    /// Schemas a consumer must implement for full fidelity. Missing one degrades the view; it
    /// does not refuse it.
    pub requires: Vec<SchemaId>,
    pub granularity: GranularityProfile,
    pub intent: String,
    pub lang: LangTag,
    pub extra: Extra,
}

impl View {
    /// Whether the three sets are in canonical form.
    pub open spec fn well_formed(&self) -> bool {
        uids_sorted(self.roots@) && threads_distinct(self.threads@) && schemas_distinct(self.requires@)
    }

    pub fn new(id: ViewId, intent: &str) -> (v: View)
        ensures
            v.well_formed(),
            v.id == id,
            v.roots@.len() == 0,
            v.threads@.len() == 0,
            v.requires@.len() == 0,
            preset_view("default"@) == Some(v.granularity.fields()),
            v.intent@ == intent@,
            v.lang@ == "en"@,
            v.extra@ == Map::<u16, Vec<u8>>::empty(),
    {
        View {
            id,
            roots: Vec::new(),
            threads: Vec::new(),
            requires: Vec::new(),
            granularity: GranularityProfile::standard(),
            intent: owned(intent),
            lang: LangTag::default(),
            extra: Extra::new(),
        }
    }

    /// Sets the roots, as the canonical set of the given uids.
    pub fn with_roots(self, r: Vec<Uid>) -> (v: View)
        ensures
            uids_sorted(v.roots@),
            v.roots@.to_set() == r@.to_set(),
            v == (View { roots: v.roots, ..self }),
    {
        let mut s = self;
        s.roots = uid_set_from(&r);
        s
    }

    /// Sets the threads, keeping one id per text.
    pub fn with_threads(self, t: Vec<ThreadId>) -> (v: View)
        ensures
            threads_distinct(v.threads@),
            thread_texts(v.threads@) == thread_texts(t@),
            v == (View { threads: v.threads, ..self }),
    {
        let mut out: Vec<ThreadId> = Vec::new();
        let mut t = t;
        let ghost orig = t@;
        while t.len() > 0
            invariant
                threads_distinct(out@),
                thread_texts(out@).union(thread_texts(t@)) == thread_texts(orig),
            decreases t.len(),
        {
            let ghost before = t@;
            let x = t.remove(0);
            proof {
                assert(thread_texts(before) =~= thread_texts(t@).insert(x@)) by {
                    assert forall|y: Seq<char>| thread_texts(before).contains(y) implies thread_texts(t@).insert(x@).contains(y) by {
                        let k = choose|k: int| 0 <= k < before.len() && #[trigger] before[k]@ == y;
                        if k > 0 {
                            assert(t@[k - 1]@ == y);
                        }
                    }
                    assert forall|y: Seq<char>| thread_texts(t@).insert(x@).contains(y) implies thread_texts(before).contains(y) by {
                        if y == x@ {
                            assert(before[0]@ == y);
                        } else {
                            let k = choose|k: int| 0 <= k < t@.len() && #[trigger] t@[k]@ == y;
                            assert(before[k + 1]@ == y);
                        }
                    }
                }
            }
            thread_set_add(&mut out, x);
            assert(thread_texts(out@).union(thread_texts(t@)) =~= thread_texts(orig));
        }
        assert(thread_texts(t@) =~= Set::empty());
        assert(thread_texts(out@) =~= thread_texts(orig));
        let mut s = self;
        s.threads = out;
        s
    }

    /// Sets the required schemas, keeping one id per text.
    pub fn requiring(self, req: Vec<SchemaId>) -> (v: View)
        ensures
            schemas_distinct(v.requires@),
            schema_texts(v.requires@) == schema_texts(req@),
            v == (View { requires: v.requires, ..self }),
    {
        let mut out: Vec<SchemaId> = Vec::new();
        let mut t = req;
        let ghost orig = t@;
        while t.len() > 0
            invariant
                schemas_distinct(out@),
                schema_texts(out@).union(schema_texts(t@)) == schema_texts(orig),
            decreases t.len(),
        {
            let ghost before = t@;
            let x = t.remove(0);
            proof {
                assert(schema_texts(before) =~= schema_texts(t@).insert(x.text())) by {
                    assert forall|y: Seq<char>| schema_texts(before).contains(y) implies schema_texts(t@).insert(x.text()).contains(y) by {
                        let k = choose|k: int| 0 <= k < before.len() && #[trigger] before[k].text() == y;
                        if k > 0 {
                            assert(t@[k - 1].text() == y);
                        }
                    }
                    assert forall|y: Seq<char>| schema_texts(t@).insert(x.text()).contains(y) implies schema_texts(before).contains(y) by {
                        if y == x.text() {
                            assert(before[0].text() == y);
                        } else {
                            let k = choose|k: int| 0 <= k < t@.len() && #[trigger] t@[k].text() == y;
                            assert(before[k + 1].text() == y);
                        }
                    }
                }
            }
            schema_set_add(&mut out, x);
            assert(schema_texts(out@).union(schema_texts(t@)) =~= schema_texts(orig));
        }
        assert(schema_texts(t@) =~= Set::empty());
        assert(schema_texts(out@) =~= schema_texts(orig));
        let mut s = self;
        s.requires = out;
        s
    }

    pub fn with_granularity(self, g: GranularityProfile) -> (v: View)
        ensures
            v == (View { granularity: g, ..self }),
    {
        let mut s = self;
        s.granularity = g;
        s
    }

    pub fn with_lang(self, l: LangTag) -> (v: View)
        ensures
            v == (View { lang: l, ..self }),
    {
        let mut s = self;
        s.lang = l;
        s
    }

    /// The fidelity a consumer implementing `implemented` gets: refused when the kernel major
    /// is missing, full when every required schema is implemented, degraded otherwise.
    pub fn negotiate(&self, implemented: &Vec<SchemaId>, kernel_major_ok: bool) -> (f: Fidelity)
        ensures
            f == (if !kernel_major_ok {
                Fidelity::Refuse
            } else if schema_texts(self.requires@).subset_of(schema_texts(implemented@)) {
                Fidelity::Full
            } else {
                Fidelity::Degraded
            }),
    {
        if !kernel_major_ok {
            Fidelity::Refuse
        } else if schemas_subset(&self.requires, implemented) {
            Fidelity::Full
        } else {
            Fidelity::Degraded
        }
    }

    /// Merges two views: the union of their roots, threads and requirements. Neither owns
    /// anything, so there is nothing to reconcile.
    pub fn union(self, other: &View) -> (v: View)
        requires
            self.well_formed(),
        ensures
            v.well_formed(),
            v.roots@.to_set() == self.roots@.to_set().union(other.roots@.to_set()),
            thread_texts(v.threads@) == thread_texts(self.threads@).union(thread_texts(other.threads@)),
            schema_texts(v.requires@) == schema_texts(self.requires@).union(schema_texts(other.requires@)),
            v.id == self.id,
            v.granularity == self.granularity,
            v.intent == self.intent,
            v.lang == self.lang,
            v.extra == self.extra,
    {
        let mut roots = self.roots;
        let mut threads = self.threads;
        let mut reqs = self.requires;
        let ghost r0 = roots@.to_set();
        let ghost t0 = thread_texts(threads@);
        let ghost q0 = schema_texts(reqs@);
        let mut i: usize = 0;
        while i < other.roots.len()
            invariant
                i <= other.roots.len(),
                uids_sorted(roots@),
                roots@.to_set() == r0.union(other.roots@.take(i as int).to_set()),
            decreases other.roots.len() - i,
        {
            uid_set_insert(&mut roots, other.roots[i]);
            assert(other.roots@.take(i + 1) =~= other.roots@.take(i as int).push(other.roots@[i as int]));
            proof {
                other.roots@.take(i as int).lemma_push_to_set_commute(other.roots@[i as int]);
            }
            assert(roots@.to_set() =~= r0.union(other.roots@.take(i + 1).to_set()));
            i = i + 1;
        }
        assert(other.roots@.take(other.roots.len() as int) =~= other.roots@);
        let mut i: usize = 0;
        while i < other.threads.len()
            invariant
                i <= other.threads.len(),
                threads_distinct(threads@),
                thread_texts(threads@) == t0.union(thread_texts(other.threads@.take(i as int))),
            decreases other.threads.len() - i,
        {
            thread_set_add(&mut threads, other.threads[i].clone());
            assert(thread_texts(other.threads@.take(i + 1)) =~= thread_texts(other.threads@.take(i as int)).insert(other.threads@[i as int]@)) by {
                let a = other.threads@.take(i + 1);
                let b = other.threads@.take(i as int);
                assert forall|y: Seq<char>| thread_texts(a).contains(y) implies thread_texts(b).insert(other.threads@[i as int]@).contains(y) by {
                    let k = choose|k: int| 0 <= k < a.len() && #[trigger] a[k]@ == y;
                    if k < i {
                        assert(b[k]@ == y);
                    }
                }
                assert forall|y: Seq<char>| thread_texts(b).insert(other.threads@[i as int]@).contains(y) implies thread_texts(a).contains(y) by {
                    if y == other.threads@[i as int]@ {
                        assert(a[i as int]@ == y);
                    } else {
                        let k = choose|k: int| 0 <= k < b.len() && #[trigger] b[k]@ == y;
                        assert(a[k]@ == y);
                    }
                }
            }
            assert(thread_texts(threads@) =~= t0.union(thread_texts(other.threads@.take(i + 1))));
            i = i + 1;
        }
        assert(other.threads@.take(other.threads.len() as int) =~= other.threads@);
        let mut i: usize = 0;
        while i < other.requires.len()
            invariant
                i <= other.requires.len(),
                schemas_distinct(reqs@),
                schema_texts(reqs@) == q0.union(schema_texts(other.requires@.take(i as int))),
            decreases other.requires.len() - i,
        {
            schema_set_add(&mut reqs, other.requires[i].duplicate());
            assert(schema_texts(other.requires@.take(i + 1)) =~= schema_texts(other.requires@.take(i as int)).insert(other.requires@[i as int].text())) by {
                let a = other.requires@.take(i + 1);
                let b = other.requires@.take(i as int);
                assert forall|y: Seq<char>| schema_texts(a).contains(y) implies schema_texts(b).insert(other.requires@[i as int].text()).contains(y) by {
                    let k = choose|k: int| 0 <= k < a.len() && #[trigger] a[k].text() == y;
                    if k < i {
                        assert(b[k].text() == y);
                    }
                }
                assert forall|y: Seq<char>| schema_texts(b).insert(other.requires@[i as int].text()).contains(y) implies schema_texts(a).contains(y) by {
                    if y == other.requires@[i as int].text() {
                        assert(a[i as int].text() == y);
                    } else {
                        let k = choose|k: int| 0 <= k < b.len() && #[trigger] b[k].text() == y;
                        assert(a[k].text() == y);
                    }
                }
            }
            assert(schema_texts(reqs@) =~= q0.union(schema_texts(other.requires@.take(i + 1))));
            i = i + 1;
        }
        assert(other.requires@.take(other.requires.len() as int) =~= other.requires@);
        View {
            id: self.id,
            roots,
            threads,
            requires: reqs,
            granularity: self.granularity,
            intent: self.intent,
            lang: self.lang,
            extra: self.extra,
        }
    }
}

} // verus!
