//! Annex records: contentions, schema declarations and label bindings, with the enums they
//! and packing use. A contention is surfaced, never silently resolved.

use vstd::prelude::*;

use crate::diag::Code;
use crate::ids::{ContentionId, Label, SchemaId, ThreadId, Uid};
use crate::types::epistemics::Lod;
use crate::types::provenance::Hlc;
use crate::types::relation::RelKind;
use crate::types::Extra;

verus! {

/// How a contention was detected.
#[derive(Debug, Clone, Copy, PartialEq, Eq, Structural, PartialOrd, Ord, Hash)]
#[non_exhaustive]
pub enum DetectionKind {
    SupersessionFork,
    LiveRebuttal,
    LabelCollision,
}

impl DetectionKind {
    /// Every variant, in declaration order.
    pub const ALL: [DetectionKind; 3] = [
        DetectionKind::SupersessionFork,
        DetectionKind::LiveRebuttal,
        DetectionKind::LabelCollision,
    ];

    /// The stable text name.
    pub open spec fn str_view(self) -> Seq<char> {
        match self {
            DetectionKind::SupersessionFork => "supersession-fork"@,
            DetectionKind::LiveRebuttal => "live-rebuttal"@,
            DetectionKind::LabelCollision => "label-collision"@,
        }
    }

    pub fn as_str(self) -> (r: &'static str)
        ensures
            r@ == self.str_view(),
    {
        match self {
            DetectionKind::SupersessionFork => "supersession-fork",
            DetectionKind::LiveRebuttal => "live-rebuttal",
            DetectionKind::LabelCollision => "label-collision",
        }
    }

    /// Distinct variants have distinct names.
    pub proof fn lemma_str_view_injective()
        ensures
            forall|a: DetectionKind, b: DetectionKind| a.str_view() == b.str_view() ==> a == b,
    {
        reveal_strlit("supersession-fork");
        assert(DetectionKind::SupersessionFork.str_view().len() == 17);
        reveal_strlit("live-rebuttal");
        assert(DetectionKind::LiveRebuttal.str_view().len() == 13);
        reveal_strlit("label-collision");
        assert(DetectionKind::LabelCollision.str_view().len() == 15);
        assert forall|a: DetectionKind, b: DetectionKind| a.str_view() == b.str_view() implies a == b by {
            assert(a.str_view().len() == b.str_view().len());
        }
    }

    /// The variant whose name is exactly `s`.
    pub fn parse(s: &str) -> (r: Option<DetectionKind>)
        ensures
            forall|k: DetectionKind| r == Some(k) <==> k.str_view() == s@,
            r is None <==> forall|k: DetectionKind| k.str_view() != s@,
    {
        proof {
            DetectionKind::lemma_str_view_injective();
        }
        if crate::text::str_eq(s, "supersession-fork") {
            assert(DetectionKind::SupersessionFork.str_view() == s@);
            return Some(DetectionKind::SupersessionFork);
        }
        if crate::text::str_eq(s, "live-rebuttal") {
            assert(DetectionKind::LiveRebuttal.str_view() == s@);
            return Some(DetectionKind::LiveRebuttal);
        }
        if crate::text::str_eq(s, "label-collision") {
            assert(DetectionKind::LabelCollision.str_view() == s@);
            return Some(DetectionKind::LabelCollision);
        }
        proof {
            assert forall|k: DetectionKind| k.str_view() != s@ by {
                match k {
                    DetectionKind::SupersessionFork => {},
                    DetectionKind::LiveRebuttal => {},
                    DetectionKind::LabelCollision => {},
                }
            }
        }
        None
    }

    /// The wire code.
    pub open spec fn code_view(self) -> u8 {
        match self {
            DetectionKind::SupersessionFork => 0u8,
            DetectionKind::LiveRebuttal => 1u8,
            DetectionKind::LabelCollision => 2u8,
        }
    }

    pub fn as_u8(self) -> (r: u8)
        ensures
            r == self.code_view(),
    {
        match self {
            DetectionKind::SupersessionFork => 0,
            DetectionKind::LiveRebuttal => 1,
            DetectionKind::LabelCollision => 2,
        }
    }

    /// The variant with wire code `v`.
    pub fn from_u8(v: u8) -> (r: Option<DetectionKind>)
        ensures
            forall|k: DetectionKind| r == Some(k) <==> k.code_view() == v,
            r is None <==> forall|k: DetectionKind| k.code_view() != v,
    {
        match v {
            0 => {
                assert(DetectionKind::SupersessionFork.code_view() == v);
                Some(DetectionKind::SupersessionFork)
            },
            1 => {
                assert(DetectionKind::LiveRebuttal.code_view() == v);
                Some(DetectionKind::LiveRebuttal)
            },
            2 => {
                assert(DetectionKind::LabelCollision.code_view() == v);
                Some(DetectionKind::LabelCollision)
            },
            _ => None,
        }
    }

}

/// Whether a contention is still live.
#[derive(Debug, Clone, Copy, PartialEq, Eq, Structural, PartialOrd, Ord, Hash)]
#[non_exhaustive]
pub enum ContentionStatus {
    Open,
    Resolved,
    Stale,
}

impl ContentionStatus {
    /// Every variant, in declaration order.
    pub const ALL: [ContentionStatus; 3] = [
        ContentionStatus::Open,
        ContentionStatus::Resolved,
        ContentionStatus::Stale,
    ];

    /// The stable text name.
    pub open spec fn str_view(self) -> Seq<char> {
        match self {
            ContentionStatus::Open => "open"@,
            ContentionStatus::Resolved => "resolved"@,
            ContentionStatus::Stale => "stale"@,
        }
    }

    pub fn as_str(self) -> (r: &'static str)
        ensures
            r@ == self.str_view(),
    {
        match self {
            ContentionStatus::Open => "open",
            ContentionStatus::Resolved => "resolved",
            ContentionStatus::Stale => "stale",
        }
    }

    /// Distinct variants have distinct names.
    pub proof fn lemma_str_view_injective()
        ensures
            forall|a: ContentionStatus, b: ContentionStatus| a.str_view() == b.str_view() ==> a == b,
    {
        reveal_strlit("open");
        assert(ContentionStatus::Open.str_view().len() == 4);
        reveal_strlit("resolved");
        assert(ContentionStatus::Resolved.str_view().len() == 8);
        reveal_strlit("stale");
        assert(ContentionStatus::Stale.str_view().len() == 5);
        assert forall|a: ContentionStatus, b: ContentionStatus| a.str_view() == b.str_view() implies a == b by {
            assert(a.str_view().len() == b.str_view().len());
        }
    }

    /// The variant whose name is exactly `s`.
    pub fn parse(s: &str) -> (r: Option<ContentionStatus>)
        ensures
            forall|k: ContentionStatus| r == Some(k) <==> k.str_view() == s@,
            r is None <==> forall|k: ContentionStatus| k.str_view() != s@,
    {
        proof {
            ContentionStatus::lemma_str_view_injective();
        }
        if crate::text::str_eq(s, "open") {
            assert(ContentionStatus::Open.str_view() == s@);
            return Some(ContentionStatus::Open);
        }
        if crate::text::str_eq(s, "resolved") {
            assert(ContentionStatus::Resolved.str_view() == s@);
            return Some(ContentionStatus::Resolved);
        }
        if crate::text::str_eq(s, "stale") {
            assert(ContentionStatus::Stale.str_view() == s@);
            return Some(ContentionStatus::Stale);
        }
        proof {
            assert forall|k: ContentionStatus| k.str_view() != s@ by {
                match k {
                    ContentionStatus::Open => {},
                    ContentionStatus::Resolved => {},
                    ContentionStatus::Stale => {},
                }
            }
        }
        None
    }

    /// The wire code.
    pub open spec fn code_view(self) -> u8 {
        match self {
            ContentionStatus::Open => 0u8,
            ContentionStatus::Resolved => 1u8,
            ContentionStatus::Stale => 2u8,
        }
    }

    pub fn as_u8(self) -> (r: u8)
        ensures
            r == self.code_view(),
    {
        match self {
            ContentionStatus::Open => 0,
            ContentionStatus::Resolved => 1,
            ContentionStatus::Stale => 2,
        }
    }

    /// The variant with wire code `v`.
    pub fn from_u8(v: u8) -> (r: Option<ContentionStatus>)
        ensures
            forall|k: ContentionStatus| r == Some(k) <==> k.code_view() == v,
            r is None <==> forall|k: ContentionStatus| k.code_view() != v,
    {
        match v {
            0 => {
                assert(ContentionStatus::Open.code_view() == v);
                Some(ContentionStatus::Open)
            },
            1 => {
                assert(ContentionStatus::Resolved.code_view() == v);
                Some(ContentionStatus::Resolved)
            },
            2 => {
                assert(ContentionStatus::Stale.code_view() == v);
                Some(ContentionStatus::Stale)
            },
            _ => None,
        }
    }

}

/// Why packing left a unit out.
#[derive(Debug, Clone, Copy, PartialEq, Eq, Structural, PartialOrd, Ord, Hash)]
#[non_exhaustive]
pub enum DropReason {
    Budget,
    ClosureCost,
    LowValue,
    OutOfScope,
}

impl DropReason {
    /// Every variant, in declaration order.
    pub const ALL: [DropReason; 4] = [
        DropReason::Budget,
        DropReason::ClosureCost,
        DropReason::LowValue,
        DropReason::OutOfScope,
    ];

    /// The stable text name.
    pub open spec fn str_view(self) -> Seq<char> {
        match self {
            DropReason::Budget => "budget"@,
            DropReason::ClosureCost => "closure-cost"@,
            DropReason::LowValue => "low-value"@,
            DropReason::OutOfScope => "out-of-scope"@,
        }
    }

    pub fn as_str(self) -> (r: &'static str)
        ensures
            r@ == self.str_view(),
    {
        match self {
            DropReason::Budget => "budget",
            DropReason::ClosureCost => "closure-cost",
            DropReason::LowValue => "low-value",
            DropReason::OutOfScope => "out-of-scope",
        }
    }

    /// Distinct variants have distinct names.
    pub proof fn lemma_str_view_injective()
        ensures
            forall|a: DropReason, b: DropReason| a.str_view() == b.str_view() ==> a == b,
    {
        reveal_strlit("budget");
        assert(DropReason::Budget.str_view().len() == 6);
        assert(DropReason::Budget.str_view()[0] == 'b');
        reveal_strlit("closure-cost");
        assert(DropReason::ClosureCost.str_view().len() == 12);
        assert(DropReason::ClosureCost.str_view()[0] == 'c');
        reveal_strlit("low-value");
        assert(DropReason::LowValue.str_view().len() == 9);
        assert(DropReason::LowValue.str_view()[0] == 'l');
        reveal_strlit("out-of-scope");
        assert(DropReason::OutOfScope.str_view().len() == 12);
        assert(DropReason::OutOfScope.str_view()[0] == 'o');
        assert forall|a: DropReason, b: DropReason| a.str_view() == b.str_view() implies a == b by {
            assert(a.str_view().len() == b.str_view().len());
            assert(a.str_view()[0] == b.str_view()[0]);
        }
    }

    /// The variant whose name is exactly `s`.
    pub fn parse(s: &str) -> (r: Option<DropReason>)
        ensures
            forall|k: DropReason| r == Some(k) <==> k.str_view() == s@,
            r is None <==> forall|k: DropReason| k.str_view() != s@,
    {
        proof {
            DropReason::lemma_str_view_injective();
        }
        if crate::text::str_eq(s, "budget") {
            assert(DropReason::Budget.str_view() == s@);
            return Some(DropReason::Budget);
        }
        if crate::text::str_eq(s, "closure-cost") {
            assert(DropReason::ClosureCost.str_view() == s@);
            return Some(DropReason::ClosureCost);
        }
        if crate::text::str_eq(s, "low-value") {
            assert(DropReason::LowValue.str_view() == s@);
            return Some(DropReason::LowValue);
        }
        if crate::text::str_eq(s, "out-of-scope") {
            assert(DropReason::OutOfScope.str_view() == s@);
            return Some(DropReason::OutOfScope);
        }
        proof {
            assert forall|k: DropReason| k.str_view() != s@ by {
                match k {
                    DropReason::Budget => {},
                    DropReason::ClosureCost => {},
                    DropReason::LowValue => {},
                    DropReason::OutOfScope => {},
                }
            }
        }
        None
    }

    /// The wire code.
    pub open spec fn code_view(self) -> u8 {
        match self {
            DropReason::Budget => 0u8,
            DropReason::ClosureCost => 1u8,
            DropReason::LowValue => 2u8,
            DropReason::OutOfScope => 3u8,
        }
    }

    pub fn as_u8(self) -> (r: u8)
        ensures
            r == self.code_view(),
    {
        match self {
            DropReason::Budget => 0,
            DropReason::ClosureCost => 1,
            DropReason::LowValue => 2,
            DropReason::OutOfScope => 3,
        }
    }

    /// The variant with wire code `v`.
    pub fn from_u8(v: u8) -> (r: Option<DropReason>)
        ensures
            forall|k: DropReason| r == Some(k) <==> k.code_view() == v,
            r is None <==> forall|k: DropReason| k.code_view() != v,
    {
        match v {
            0 => {
                assert(DropReason::Budget.code_view() == v);
                Some(DropReason::Budget)
            },
            1 => {
                assert(DropReason::ClosureCost.code_view() == v);
                Some(DropReason::ClosureCost)
            },
            2 => {
                assert(DropReason::LowValue.code_view() == v);
                Some(DropReason::LowValue)
            },
            3 => {
                assert(DropReason::OutOfScope.code_view() == v);
                Some(DropReason::OutOfScope)
            },
            _ => None,
        }
    }

}

/// How packing selected units.
#[derive(Debug, Clone, Copy, PartialEq, Eq, Structural, PartialOrd, Ord, Hash)]
#[non_exhaustive]
pub enum PackMode {
    Greedy,
    Exact,
}

impl PackMode {
    /// Every variant, in declaration order.
    pub const ALL: [PackMode; 2] = [
        PackMode::Greedy,
        PackMode::Exact,
    ];

    /// The stable text name.
    pub open spec fn str_view(self) -> Seq<char> {
        match self {
            PackMode::Greedy => "greedy"@,
            PackMode::Exact => "exact"@,
        }
    }

    pub fn as_str(self) -> (r: &'static str)
        ensures
            r@ == self.str_view(),
    {
        match self {
            PackMode::Greedy => "greedy",
            PackMode::Exact => "exact",
        }
    }

    /// Distinct variants have distinct names.
    pub proof fn lemma_str_view_injective()
        ensures
            forall|a: PackMode, b: PackMode| a.str_view() == b.str_view() ==> a == b,
    {
        reveal_strlit("greedy");
        assert(PackMode::Greedy.str_view().len() == 6);
        reveal_strlit("exact");
        assert(PackMode::Exact.str_view().len() == 5);
        assert forall|a: PackMode, b: PackMode| a.str_view() == b.str_view() implies a == b by {
            assert(a.str_view().len() == b.str_view().len());
        }
    }

    /// The variant whose name is exactly `s`.
    pub fn parse(s: &str) -> (r: Option<PackMode>)
        ensures
            forall|k: PackMode| r == Some(k) <==> k.str_view() == s@,
            r is None <==> forall|k: PackMode| k.str_view() != s@,
    {
        proof {
            PackMode::lemma_str_view_injective();
        }
        if crate::text::str_eq(s, "greedy") {
            assert(PackMode::Greedy.str_view() == s@);
            return Some(PackMode::Greedy);
        }
        if crate::text::str_eq(s, "exact") {
            assert(PackMode::Exact.str_view() == s@);
            return Some(PackMode::Exact);
        }
        proof {
            assert forall|k: PackMode| k.str_view() != s@ by {
                match k {
                    PackMode::Greedy => {},
                    PackMode::Exact => {},
                }
            }
        }
        None
    }

    /// The wire code.
    pub open spec fn code_view(self) -> u8 {
        match self {
            PackMode::Greedy => 0u8,
            PackMode::Exact => 1u8,
        }
    }

    pub fn as_u8(self) -> (r: u8)
        ensures
            r == self.code_view(),
    {
        match self {
            PackMode::Greedy => 0,
            PackMode::Exact => 1,
        }
    }

    /// The variant with wire code `v`.
    pub fn from_u8(v: u8) -> (r: Option<PackMode>)
        ensures
            forall|k: PackMode| r == Some(k) <==> k.code_view() == v,
            r is None <==> forall|k: PackMode| k.code_view() != v,
    {
        match v {
            0 => {
                assert(PackMode::Greedy.code_view() == v);
                Some(PackMode::Greedy)
            },
            1 => {
                assert(PackMode::Exact.code_view() == v);
                Some(PackMode::Exact)
            },
            _ => None,
        }
    }

}

impl DetectionKind {
    /// The diagnostic a detection raises.
    pub open spec fn diag_code_view(self) -> Code {
        match self {
            DetectionKind::SupersessionFork => Code::W053,
            DetectionKind::LiveRebuttal => Code::W053,
            DetectionKind::LabelCollision => Code::W054,
        }
    }

    pub fn code(self) -> (c: Code)
        ensures
            c == self.diag_code_view(),
    {
        match self {
            DetectionKind::SupersessionFork => Code::W053,
            DetectionKind::LiveRebuttal => Code::W053,
            DetectionKind::LabelCollision => Code::W054,
        }
    }
}

/// How and when a contention was detected.
#[derive(Debug, Clone, PartialEq, Eq, PartialOrd, Ord, Hash)]
pub struct Detected {
    pub kind: DetectionKind,
    pub ts: Hlc,
}

/// A surfaced disagreement over a unit: the positions in contention, and while it is open,
/// the units it pins against silent resolution.
#[derive(Debug, Clone, PartialEq, Eq)]
pub struct Contention {
    pub id: ContentionId,
    pub over: Uid,
    pub positions: Vec<Uid>,
    pub detected: Detected,
    pub status: ContentionStatus,
    pub extra: Extra,
}

impl Contention {
    /// A contention starts open.
    pub fn new(id: ContentionId, over: Uid, positions: Vec<Uid>, detected: Detected) -> (c: Contention)
        ensures
            c.id == id,
            c.over == over,
            c.positions == positions,
            c.detected == detected,
            c.status == ContentionStatus::Open,
            c.extra@ == Map::<u16, Vec<u8>>::empty(),
    {
        Contention { id, over, positions, detected, status: ContentionStatus::Open, extra: Extra::new() }
    }

    pub fn is_open(&self) -> (r: bool)
        ensures
            r == (self.status == ContentionStatus::Open),
    {
        match self.status {
            ContentionStatus::Open => true,
            _ => false,
        }
    }

    /// Whether this contention pins `uid`: while open, it pins the unit it is over and every
    /// position.
    pub fn pins(&self, uid: &Uid) -> (r: bool)
        ensures
            r == (self.status == ContentionStatus::Open && (self.over.bytes() == uid.bytes() || exists|i: int|
                0 <= i < self.positions@.len() && #[trigger] self.positions@[i].bytes() == uid.bytes())),
    {
        if !self.is_open() {
            return false;
        }
        if self.over == *uid {
            return true;
        }
        let mut i: usize = 0;
        while i < self.positions.len()
            invariant
                i <= self.positions.len(),
                self.status == ContentionStatus::Open,
                self.over.bytes() != uid.bytes(),
                forall|j: int| 0 <= j < i ==> #[trigger] self.positions@[j].bytes() != uid.bytes(),
            decreases self.positions.len() - i,
        {
            if self.positions[i] == *uid {
                assert(self.positions@[i as int].bytes() == uid.bytes());
                return true;
            }
            i = i + 1;
        }
        false
    }
}

/// An extension schema's declaration: the types and relation kinds it adds.
#[derive(Debug, Clone, PartialEq, Eq)]
pub struct SchemaDecl {
    pub id: SchemaId,
    pub version: u32,
    pub types: Vec<SchemaId>,
    pub relations: Vec<RelKind>,
    pub payload_shape: Option<Vec<u8>>,
    pub extra: Extra,
}

impl SchemaDecl {
    pub fn new(id: SchemaId, version: u32) -> (d: SchemaDecl)
        ensures
            d.id == id,
            d.version == version,
            d.types@.len() == 0,
            d.relations@.len() == 0,
            d.payload_shape is None,
            d.extra@ == Map::<u16, Vec<u8>>::empty(),
    {
        SchemaDecl { id, version, types: Vec::new(), relations: Vec::new(), payload_shape: None, extra: Extra::new() }
    }

    /// Whether the declaration claims a kernel type, the kernel schema, or a kernel relation
    /// kind: an extension may add to the kernel, never redefine it.
    pub fn redefines_kernel(&self) -> (r: bool)
        ensures
            r == ((exists|i: int| 0 <= i < self.types@.len() && (#[trigger] self.types@[i] is Kernel
                || self.types@[i] is KernelSchema)) || (exists|i: int| 0 <= i < self.relations@.len()
                && (#[trigger] self.relations@[i]).code_view() is Some)),
    {
        let mut i: usize = 0;
        while i < self.types.len()
            invariant
                i <= self.types.len(),
                forall|j: int| 0 <= j < i ==> !(#[trigger] self.types@[j] is Kernel || self.types@[j] is KernelSchema),
            decreases self.types.len() - i,
        {
            if self.types[i].is_kernel() || self.types[i].is_kernel_schema() {
                return true;
            }
            i = i + 1;
        }
        let mut k: usize = 0;
        while k < self.relations.len()
            invariant
                k <= self.relations.len(),
                forall|j: int| 0 <= j < self.types@.len() ==> !(#[trigger] self.types@[j] is Kernel
                    || self.types@[j] is KernelSchema),
                forall|j: int| 0 <= j < k ==> (#[trigger] self.relations@[j]).code_view() is None,
            decreases self.relations.len() - k,
        {
            if self.relations[k].is_kernel() {
                return true;
            }
            k = k + 1;
        }
        false
    }
}

/// How a pack was chosen, and how far from optimal it may be.
#[derive(Debug, Clone, Copy, PartialEq, Eq)]
pub struct Optimality {
    pub mode: PackMode,
    /// The `binary32` bit pattern of the upper bound on the value left on the table, in
    /// `[0,1]`, quantised to 1/1024. Zero means proven optimal.
    pub gap: u32,
}

/// The self-description every pack emits: its budget and use, what it dropped and why, what
/// it degraded to a coarser level of detail, and the cost model it was built under.
#[derive(Debug, Clone, PartialEq, Eq)]
pub struct PackInfo {
    pub budget: u64,
    pub used: u64,
    pub thread: Option<ThreadId>,
    pub dropped: Vec<(Uid, DropReason)>,
    pub degraded: Vec<(Uid, Lod)>,
    pub optimality: Optimality,
    pub estimator: String,
    pub extra: Extra,
}

impl PackInfo {
    /// A pack that dropped and degraded nothing, chosen greedily with no gap stated.
    pub fn new(budget: u64, used: u64, estimator: &str) -> (p: PackInfo)
        ensures
            p.budget == budget,
            p.used == used,
            p.thread is None,
            p.dropped@.len() == 0,
            p.degraded@.len() == 0,
            p.optimality == (Optimality { mode: PackMode::Greedy, gap: 0 }),
            p.estimator@ == estimator@,
            p.extra@ == Map::<u16, Vec<u8>>::empty(),
    {
        PackInfo {
            budget,
            used,
            thread: None,
            dropped: Vec::new(),
            degraded: Vec::new(),
            optimality: Optimality { mode: PackMode::Greedy, gap: 0 },
            estimator: crate::text::owned(estimator),
            extra: Extra::new(),
        }
    }

    /// How many of `dropped` were dropped for each reason, in reason order, leaving out the
    /// reasons nothing was dropped for.
    pub fn drop_histogram(&self) -> (h: Vec<(DropReason, usize)>)
        ensures
            h@ == drop_histogram_view(self.dropped@, 4),
    {
        let reasons = [DropReason::Budget, DropReason::ClosureCost, DropReason::LowValue, DropReason::OutOfScope];
        let mut out: Vec<(DropReason, usize)> = Vec::new();
        let mut i: usize = 0;
        while i < 4
            invariant
                i <= 4,
                reasons@ == seq![DropReason::Budget, DropReason::ClosureCost, DropReason::LowValue, DropReason::OutOfScope],
                out@ == drop_histogram_view(self.dropped@, i as nat),
            decreases 4 - i,
        {
            let r = reasons[i];
            assert(r == reason_at(i as int));
            let mut n: usize = 0;
            let mut j: usize = 0;
            while j < self.dropped.len()
                invariant
                    j <= self.dropped@.len(),
                    n == dropped_for(self.dropped@.take(j as int), r),
                    n <= j,
                decreases self.dropped.len() - j,
            {
                assert(self.dropped@.take(j + 1).drop_last() =~= self.dropped@.take(j as int));
                if self.dropped[j].1 == r {
                    n = n + 1;
                }
                j = j + 1;
            }
            assert(self.dropped@.take(self.dropped@.len() as int) =~= self.dropped@);
            if n > 0 {
                out.push((r, n));
            }
            i = i + 1;
        }
        out
    }

    /// Whether the pack kept everything at its requested level of detail.
    pub fn is_complete(&self) -> (r: bool)
        ensures
            r == (self.dropped@.len() == 0 && self.degraded@.len() == 0),
    {
        self.dropped.len() == 0 && self.degraded.len() == 0
    }
}

/// The drop reasons in declaration order, by position.
pub open spec fn reason_at(i: int) -> DropReason {
    if i == 0 {
        DropReason::Budget
    } else if i == 1 {
        DropReason::ClosureCost
    } else if i == 2 {
        DropReason::LowValue
    } else {
        DropReason::OutOfScope
    }
}

/// How many of `v` were dropped for reason `r`.
pub open spec fn dropped_for(v: Seq<(Uid, DropReason)>, r: DropReason) -> nat
    decreases v.len(),
{
    if v.len() == 0 {
        0
    } else {
        dropped_for(v.drop_last(), r) + if v.last().1 == r { 1nat } else { 0nat }
    }
}

/// The counts of the first `i` reasons, in order, those with none left out.
pub open spec fn drop_histogram_view(v: Seq<(Uid, DropReason)>, i: nat) -> Seq<(DropReason, usize)>
    decreases i,
{
    if i == 0 {
        Seq::empty()
    } else {
        let before = drop_histogram_view(v, (i - 1) as nat);
        let n = dropped_for(v, reason_at(i - 1));
        if n > 0 {
            before.push((reason_at(i - 1), n as usize))
        } else {
            before
        }
    }
}

/// A view-scoped alias for a unit.
#[derive(Debug, Clone, PartialEq, Eq, PartialOrd, Ord, Hash)]
pub struct LabelBinding {
    pub label: Label,
    pub uid: Uid,
    pub extra: Extra,
}

impl LabelBinding {
    pub fn new(label: Label, uid: Uid) -> (b: LabelBinding)
        ensures
            b.label == label,
            b.uid == uid,
            b.extra@ == Map::<u16, Vec<u8>>::empty(),
    {
        LabelBinding { label, uid, extra: Extra::new() }
    }
}

} // verus!
