//! The thread plane: named, ordered, role-annotated walks over the graph. A thread is keyed by
//! its id and its owner and resolved last-writer-wins within that key.

use vstd::prelude::*;

use crate::ids::{AgentId, ThreadId, Uid};
use crate::text::{owned, str_eq};
use crate::types::provenance::{hlc_lt, Hlc};
use crate::types::Extra;

verus! {

/// The five thread schemas.
#[derive(Debug, Clone, Copy, PartialEq, Eq, Structural, PartialOrd, Ord, Hash)]
#[non_exhaustive]
pub enum ThreadSchema {
    Analysis,
    Narrative,
    Brief,
    Qa,
    Plan,
}

impl ThreadSchema {
    /// Every variant, in declaration order.
    pub const ALL: [ThreadSchema; 5] = [
        ThreadSchema::Analysis,
        ThreadSchema::Narrative,
        ThreadSchema::Brief,
        ThreadSchema::Qa,
        ThreadSchema::Plan,
    ];

    /// The stable text name.
    pub open spec fn str_view(self) -> Seq<char> {
        match self {
            ThreadSchema::Analysis => "analysis"@,
            ThreadSchema::Narrative => "narrative"@,
            ThreadSchema::Brief => "brief"@,
            ThreadSchema::Qa => "qa"@,
            ThreadSchema::Plan => "plan"@,
        }
    }

    pub fn as_str(self) -> (r: &'static str)
        ensures
            r@ == self.str_view(),
    {
        match self {
            ThreadSchema::Analysis => "analysis",
            ThreadSchema::Narrative => "narrative",
            ThreadSchema::Brief => "brief",
            ThreadSchema::Qa => "qa",
            ThreadSchema::Plan => "plan",
        }
    }

    /// Distinct variants have distinct names.
    pub proof fn lemma_str_view_injective()
        ensures
            forall|a: ThreadSchema, b: ThreadSchema| a.str_view() == b.str_view() ==> a == b,
    {
        reveal_strlit("analysis");
        assert(ThreadSchema::Analysis.str_view().len() == 8);
        reveal_strlit("narrative");
        assert(ThreadSchema::Narrative.str_view().len() == 9);
        reveal_strlit("brief");
        assert(ThreadSchema::Brief.str_view().len() == 5);
        reveal_strlit("qa");
        assert(ThreadSchema::Qa.str_view().len() == 2);
        reveal_strlit("plan");
        assert(ThreadSchema::Plan.str_view().len() == 4);
        assert forall|a: ThreadSchema, b: ThreadSchema| a.str_view() == b.str_view() implies a == b by {
            assert(a.str_view().len() == b.str_view().len());
        }
    }

    /// The variant whose name is exactly `s`.
    pub fn parse(s: &str) -> (r: Option<ThreadSchema>)
        ensures
            forall|k: ThreadSchema| r == Some(k) <==> k.str_view() == s@,
            r is None <==> forall|k: ThreadSchema| k.str_view() != s@,
    {
        proof {
            ThreadSchema::lemma_str_view_injective();
        }
        if crate::text::str_eq(s, "analysis") {
            assert(ThreadSchema::Analysis.str_view() == s@);
            return Some(ThreadSchema::Analysis);
        }
        if crate::text::str_eq(s, "narrative") {
            assert(ThreadSchema::Narrative.str_view() == s@);
            return Some(ThreadSchema::Narrative);
        }
        if crate::text::str_eq(s, "brief") {
            assert(ThreadSchema::Brief.str_view() == s@);
            return Some(ThreadSchema::Brief);
        }
        if crate::text::str_eq(s, "qa") {
            assert(ThreadSchema::Qa.str_view() == s@);
            return Some(ThreadSchema::Qa);
        }
        if crate::text::str_eq(s, "plan") {
            assert(ThreadSchema::Plan.str_view() == s@);
            return Some(ThreadSchema::Plan);
        }
        proof {
            assert forall|k: ThreadSchema| k.str_view() != s@ by {
                match k {
                    ThreadSchema::Analysis => {},
                    ThreadSchema::Narrative => {},
                    ThreadSchema::Brief => {},
                    ThreadSchema::Qa => {},
                    ThreadSchema::Plan => {},
                }
            }
        }
        None
    }

    /// The wire code.
    pub open spec fn code_view(self) -> u8 {
        match self {
            ThreadSchema::Analysis => 0u8,
            ThreadSchema::Narrative => 1u8,
            ThreadSchema::Brief => 2u8,
            ThreadSchema::Qa => 3u8,
            ThreadSchema::Plan => 4u8,
        }
    }

    pub fn as_u8(self) -> (r: u8)
        ensures
            r == self.code_view(),
    {
        match self {
            ThreadSchema::Analysis => 0,
            ThreadSchema::Narrative => 1,
            ThreadSchema::Brief => 2,
            ThreadSchema::Qa => 3,
            ThreadSchema::Plan => 4,
        }
    }

    /// The variant with wire code `v`.
    pub fn from_u8(v: u8) -> (r: Option<ThreadSchema>)
        ensures
            forall|k: ThreadSchema| r == Some(k) <==> k.code_view() == v,
            r is None <==> forall|k: ThreadSchema| k.code_view() != v,
    {
        match v {
            0 => {
                assert(ThreadSchema::Analysis.code_view() == v);
                Some(ThreadSchema::Analysis)
            },
            1 => {
                assert(ThreadSchema::Narrative.code_view() == v);
                Some(ThreadSchema::Narrative)
            },
            2 => {
                assert(ThreadSchema::Brief.code_view() == v);
                Some(ThreadSchema::Brief)
            },
            3 => {
                assert(ThreadSchema::Qa.code_view() == v);
                Some(ThreadSchema::Qa)
            },
            4 => {
                assert(ThreadSchema::Plan.code_view() == v);
                Some(ThreadSchema::Plan)
            },
            _ => None,
        }
    }

}

/// A role a step plays in a thread.
#[derive(Debug, Clone, Copy, PartialEq, Eq, Structural, PartialOrd, Ord, Hash)]
#[non_exhaustive]
pub enum Role {
    Context,
    Tension,
    Approach,
    Finding,
    Rebuttal,
    Implication,
    Next,
    Setup,
    Complication,
    Turn,
    Resolution,
    Coda,
    BottomLine,
    Support,
    Risk,
    Ask,
    Question,
    Evidence,
    Answer,
    Caveat,
    Goal,
    Constraint,
    Step,
    Decision,
}

impl Role {
    /// Every variant, in declaration order.
    pub const ALL: [Role; 24] = [
        Role::Context,
        Role::Tension,
        Role::Approach,
        Role::Finding,
        Role::Rebuttal,
        Role::Implication,
        Role::Next,
        Role::Setup,
        Role::Complication,
        Role::Turn,
        Role::Resolution,
        Role::Coda,
        Role::BottomLine,
        Role::Support,
        Role::Risk,
        Role::Ask,
        Role::Question,
        Role::Evidence,
        Role::Answer,
        Role::Caveat,
        Role::Goal,
        Role::Constraint,
        Role::Step,
        Role::Decision,
    ];

    /// The stable text name.
    pub open spec fn str_view(self) -> Seq<char> {
        match self {
            Role::Context => "context"@,
            Role::Tension => "tension"@,
            Role::Approach => "approach"@,
            Role::Finding => "finding"@,
            Role::Rebuttal => "rebuttal"@,
            Role::Implication => "implication"@,
            Role::Next => "next"@,
            Role::Setup => "setup"@,
            Role::Complication => "complication"@,
            Role::Turn => "turn"@,
            Role::Resolution => "resolution"@,
            Role::Coda => "coda"@,
            Role::BottomLine => "bottom-line"@,
            Role::Support => "support"@,
            Role::Risk => "risk"@,
            Role::Ask => "ask"@,
            Role::Question => "question"@,
            Role::Evidence => "evidence"@,
            Role::Answer => "answer"@,
            Role::Caveat => "caveat"@,
            Role::Goal => "goal"@,
            Role::Constraint => "constraint"@,
            Role::Step => "step"@,
            Role::Decision => "decision"@,
        }
    }

    pub fn as_str(self) -> (r: &'static str)
        ensures
            r@ == self.str_view(),
    {
        match self {
            Role::Context => "context",
            Role::Tension => "tension",
            Role::Approach => "approach",
            Role::Finding => "finding",
            Role::Rebuttal => "rebuttal",
            Role::Implication => "implication",
            Role::Next => "next",
            Role::Setup => "setup",
            Role::Complication => "complication",
            Role::Turn => "turn",
            Role::Resolution => "resolution",
            Role::Coda => "coda",
            Role::BottomLine => "bottom-line",
            Role::Support => "support",
            Role::Risk => "risk",
            Role::Ask => "ask",
            Role::Question => "question",
            Role::Evidence => "evidence",
            Role::Answer => "answer",
            Role::Caveat => "caveat",
            Role::Goal => "goal",
            Role::Constraint => "constraint",
            Role::Step => "step",
            Role::Decision => "decision",
        }
    }

    /// Distinct variants have distinct names.
    pub proof fn lemma_str_view_injective()
        ensures
            forall|a: Role, b: Role| a.str_view() == b.str_view() ==> a == b,
    {
        reveal_strlit("context");
        assert(Role::Context.str_view().len() == 7);
        assert(Role::Context.str_view()[0] == 'c');
        reveal_strlit("tension");
        assert(Role::Tension.str_view().len() == 7);
        assert(Role::Tension.str_view()[0] == 't');
        reveal_strlit("approach");
        assert(Role::Approach.str_view().len() == 8);
        assert(Role::Approach.str_view()[0] == 'a');
        reveal_strlit("finding");
        assert(Role::Finding.str_view().len() == 7);
        assert(Role::Finding.str_view()[0] == 'f');
        reveal_strlit("rebuttal");
        assert(Role::Rebuttal.str_view().len() == 8);
        assert(Role::Rebuttal.str_view()[0] == 'r');
        reveal_strlit("implication");
        assert(Role::Implication.str_view().len() == 11);
        assert(Role::Implication.str_view()[0] == 'i');
        reveal_strlit("next");
        assert(Role::Next.str_view().len() == 4);
        assert(Role::Next.str_view()[0] == 'n');
        reveal_strlit("setup");
        assert(Role::Setup.str_view().len() == 5);
        assert(Role::Setup.str_view()[0] == 's');
        reveal_strlit("complication");
        assert(Role::Complication.str_view().len() == 12);
        assert(Role::Complication.str_view()[0] == 'c');
        reveal_strlit("turn");
        assert(Role::Turn.str_view().len() == 4);
        assert(Role::Turn.str_view()[0] == 't');
        reveal_strlit("resolution");
        assert(Role::Resolution.str_view().len() == 10);
        assert(Role::Resolution.str_view()[0] == 'r');
        reveal_strlit("coda");
        assert(Role::Coda.str_view().len() == 4);
        assert(Role::Coda.str_view()[0] == 'c');
        reveal_strlit("bottom-line");
        assert(Role::BottomLine.str_view().len() == 11);
        assert(Role::BottomLine.str_view()[0] == 'b');
        reveal_strlit("support");
        assert(Role::Support.str_view().len() == 7);
        assert(Role::Support.str_view()[0] == 's');
        reveal_strlit("risk");
        assert(Role::Risk.str_view().len() == 4);
        assert(Role::Risk.str_view()[0] == 'r');
        reveal_strlit("ask");
        assert(Role::Ask.str_view().len() == 3);
        assert(Role::Ask.str_view()[0] == 'a');
        reveal_strlit("question");
        assert(Role::Question.str_view().len() == 8);
        assert(Role::Question.str_view()[0] == 'q');
        reveal_strlit("evidence");
        assert(Role::Evidence.str_view().len() == 8);
        assert(Role::Evidence.str_view()[0] == 'e');
        reveal_strlit("answer");
        assert(Role::Answer.str_view().len() == 6);
        assert(Role::Answer.str_view()[0] == 'a');
        reveal_strlit("caveat");
        assert(Role::Caveat.str_view().len() == 6);
        assert(Role::Caveat.str_view()[0] == 'c');
        reveal_strlit("goal");
        assert(Role::Goal.str_view().len() == 4);
        assert(Role::Goal.str_view()[0] == 'g');
        reveal_strlit("constraint");
        assert(Role::Constraint.str_view().len() == 10);
        assert(Role::Constraint.str_view()[0] == 'c');
        reveal_strlit("step");
        assert(Role::Step.str_view().len() == 4);
        assert(Role::Step.str_view()[0] == 's');
        reveal_strlit("decision");
        assert(Role::Decision.str_view().len() == 8);
        assert(Role::Decision.str_view()[0] == 'd');
        assert forall|a: Role, b: Role| a.str_view() == b.str_view() implies a == b by {
            assert(a.str_view().len() == b.str_view().len());
            assert(a.str_view()[0] == b.str_view()[0]);
        }
    }

    /// The variant whose name is exactly `s`.
    pub fn parse(s: &str) -> (r: Option<Role>)
        ensures
            forall|k: Role| r == Some(k) <==> k.str_view() == s@,
            r is None <==> forall|k: Role| k.str_view() != s@,
    {
        proof {
            Role::lemma_str_view_injective();
        }
        if crate::text::str_eq(s, "context") {
            assert(Role::Context.str_view() == s@);
            return Some(Role::Context);
        }
        if crate::text::str_eq(s, "tension") {
            assert(Role::Tension.str_view() == s@);
            return Some(Role::Tension);
        }
        if crate::text::str_eq(s, "approach") {
            assert(Role::Approach.str_view() == s@);
            return Some(Role::Approach);
        }
        if crate::text::str_eq(s, "finding") {
            assert(Role::Finding.str_view() == s@);
            return Some(Role::Finding);
        }
        if crate::text::str_eq(s, "rebuttal") {
            assert(Role::Rebuttal.str_view() == s@);
            return Some(Role::Rebuttal);
        }
        if crate::text::str_eq(s, "implication") {
            assert(Role::Implication.str_view() == s@);
            return Some(Role::Implication);
        }
        if crate::text::str_eq(s, "next") {
            assert(Role::Next.str_view() == s@);
            return Some(Role::Next);
        }
        if crate::text::str_eq(s, "setup") {
            assert(Role::Setup.str_view() == s@);
            return Some(Role::Setup);
        }
        if crate::text::str_eq(s, "complication") {
            assert(Role::Complication.str_view() == s@);
            return Some(Role::Complication);
        }
        if crate::text::str_eq(s, "turn") {
            assert(Role::Turn.str_view() == s@);
            return Some(Role::Turn);
        }
        if crate::text::str_eq(s, "resolution") {
            assert(Role::Resolution.str_view() == s@);
            return Some(Role::Resolution);
        }
        if crate::text::str_eq(s, "coda") {
            assert(Role::Coda.str_view() == s@);
            return Some(Role::Coda);
        }
        if crate::text::str_eq(s, "bottom-line") {
            assert(Role::BottomLine.str_view() == s@);
            return Some(Role::BottomLine);
        }
        if crate::text::str_eq(s, "support") {
            assert(Role::Support.str_view() == s@);
            return Some(Role::Support);
        }
        if crate::text::str_eq(s, "risk") {
            assert(Role::Risk.str_view() == s@);
            return Some(Role::Risk);
        }
        if crate::text::str_eq(s, "ask") {
            assert(Role::Ask.str_view() == s@);
            return Some(Role::Ask);
        }
        if crate::text::str_eq(s, "question") {
            assert(Role::Question.str_view() == s@);
            return Some(Role::Question);
        }
        if crate::text::str_eq(s, "evidence") {
            assert(Role::Evidence.str_view() == s@);
            return Some(Role::Evidence);
        }
        if crate::text::str_eq(s, "answer") {
            assert(Role::Answer.str_view() == s@);
            return Some(Role::Answer);
        }
        if crate::text::str_eq(s, "caveat") {
            assert(Role::Caveat.str_view() == s@);
            return Some(Role::Caveat);
        }
        if crate::text::str_eq(s, "goal") {
            assert(Role::Goal.str_view() == s@);
            return Some(Role::Goal);
        }
        if crate::text::str_eq(s, "constraint") {
            assert(Role::Constraint.str_view() == s@);
            return Some(Role::Constraint);
        }
        if crate::text::str_eq(s, "step") {
            assert(Role::Step.str_view() == s@);
            return Some(Role::Step);
        }
        if crate::text::str_eq(s, "decision") {
            assert(Role::Decision.str_view() == s@);
            return Some(Role::Decision);
        }
        proof {
            assert forall|k: Role| k.str_view() != s@ by {
                match k {
                    Role::Context => {},
                    Role::Tension => {},
                    Role::Approach => {},
                    Role::Finding => {},
                    Role::Rebuttal => {},
                    Role::Implication => {},
                    Role::Next => {},
                    Role::Setup => {},
                    Role::Complication => {},
                    Role::Turn => {},
                    Role::Resolution => {},
                    Role::Coda => {},
                    Role::BottomLine => {},
                    Role::Support => {},
                    Role::Risk => {},
                    Role::Ask => {},
                    Role::Question => {},
                    Role::Evidence => {},
                    Role::Answer => {},
                    Role::Caveat => {},
                    Role::Goal => {},
                    Role::Constraint => {},
                    Role::Step => {},
                    Role::Decision => {},
                }
            }
        }
        None
    }

    /// The wire code.
    pub open spec fn code_view(self) -> u8 {
        match self {
            Role::Context => 0u8,
            Role::Tension => 1u8,
            Role::Approach => 2u8,
            Role::Finding => 3u8,
            Role::Rebuttal => 4u8,
            Role::Implication => 5u8,
            Role::Next => 6u8,
            Role::Setup => 7u8,
            Role::Complication => 8u8,
            Role::Turn => 9u8,
            Role::Resolution => 10u8,
            Role::Coda => 11u8,
            Role::BottomLine => 12u8,
            Role::Support => 13u8,
            Role::Risk => 14u8,
            Role::Ask => 15u8,
            Role::Question => 16u8,
            Role::Evidence => 17u8,
            Role::Answer => 18u8,
            Role::Caveat => 19u8,
            Role::Goal => 20u8,
            Role::Constraint => 21u8,
            Role::Step => 22u8,
            Role::Decision => 23u8,
        }
    }

    pub fn as_u8(self) -> (r: u8)
        ensures
            r == self.code_view(),
    {
        match self {
            Role::Context => 0,
            Role::Tension => 1,
            Role::Approach => 2,
            Role::Finding => 3,
            Role::Rebuttal => 4,
            Role::Implication => 5,
            Role::Next => 6,
            Role::Setup => 7,
            Role::Complication => 8,
            Role::Turn => 9,
            Role::Resolution => 10,
            Role::Coda => 11,
            Role::BottomLine => 12,
            Role::Support => 13,
            Role::Risk => 14,
            Role::Ask => 15,
            Role::Question => 16,
            Role::Evidence => 17,
            Role::Answer => 18,
            Role::Caveat => 19,
            Role::Goal => 20,
            Role::Constraint => 21,
            Role::Step => 22,
            Role::Decision => 23,
        }
    }

    /// The variant with wire code `v`.
    pub fn from_u8(v: u8) -> (r: Option<Role>)
        ensures
            forall|k: Role| r == Some(k) <==> k.code_view() == v,
            r is None <==> forall|k: Role| k.code_view() != v,
    {
        match v {
            0 => {
                assert(Role::Context.code_view() == v);
                Some(Role::Context)
            },
            1 => {
                assert(Role::Tension.code_view() == v);
                Some(Role::Tension)
            },
            2 => {
                assert(Role::Approach.code_view() == v);
                Some(Role::Approach)
            },
            3 => {
                assert(Role::Finding.code_view() == v);
                Some(Role::Finding)
            },
            4 => {
                assert(Role::Rebuttal.code_view() == v);
                Some(Role::Rebuttal)
            },
            5 => {
                assert(Role::Implication.code_view() == v);
                Some(Role::Implication)
            },
            6 => {
                assert(Role::Next.code_view() == v);
                Some(Role::Next)
            },
            7 => {
                assert(Role::Setup.code_view() == v);
                Some(Role::Setup)
            },
            8 => {
                assert(Role::Complication.code_view() == v);
                Some(Role::Complication)
            },
            9 => {
                assert(Role::Turn.code_view() == v);
                Some(Role::Turn)
            },
            10 => {
                assert(Role::Resolution.code_view() == v);
                Some(Role::Resolution)
            },
            11 => {
                assert(Role::Coda.code_view() == v);
                Some(Role::Coda)
            },
            12 => {
                assert(Role::BottomLine.code_view() == v);
                Some(Role::BottomLine)
            },
            13 => {
                assert(Role::Support.code_view() == v);
                Some(Role::Support)
            },
            14 => {
                assert(Role::Risk.code_view() == v);
                Some(Role::Risk)
            },
            15 => {
                assert(Role::Ask.code_view() == v);
                Some(Role::Ask)
            },
            16 => {
                assert(Role::Question.code_view() == v);
                Some(Role::Question)
            },
            17 => {
                assert(Role::Evidence.code_view() == v);
                Some(Role::Evidence)
            },
            18 => {
                assert(Role::Answer.code_view() == v);
                Some(Role::Answer)
            },
            19 => {
                assert(Role::Caveat.code_view() == v);
                Some(Role::Caveat)
            },
            20 => {
                assert(Role::Goal.code_view() == v);
                Some(Role::Goal)
            },
            21 => {
                assert(Role::Constraint.code_view() == v);
                Some(Role::Constraint)
            },
            22 => {
                assert(Role::Step.code_view() == v);
                Some(Role::Step)
            },
            23 => {
                assert(Role::Decision.code_view() == v);
                Some(Role::Decision)
            },
            _ => None,
        }
    }

}

impl ThreadSchema {
    /// The roles this schema uses, in narrative order.
    pub open spec fn roles_view(self) -> Seq<Role> {
        match self {
            ThreadSchema::Analysis => seq![
                Role::Context,
                Role::Tension,
                Role::Approach,
                Role::Finding,
                Role::Rebuttal,
                Role::Implication,
                Role::Next,
            ],
            ThreadSchema::Narrative => seq![
                Role::Setup,
                Role::Complication,
                Role::Turn,
                Role::Resolution,
                Role::Coda,
            ],
            ThreadSchema::Brief => seq![Role::BottomLine, Role::Support, Role::Risk, Role::Ask],
            ThreadSchema::Qa => seq![Role::Question, Role::Evidence, Role::Answer, Role::Caveat],
            ThreadSchema::Plan => seq![
                Role::Goal,
                Role::Constraint,
                Role::Step,
                Role::Decision,
                Role::Risk,
            ],
        }
    }

    /// The roles this schema uses, in narrative order.
    pub fn roles(self) -> (r: Vec<Role>)
        ensures
            r@ == self.roles_view(),
    {
        let r = match self {
            ThreadSchema::Analysis => vec![
                Role::Context,
                Role::Tension,
                Role::Approach,
                Role::Finding,
                Role::Rebuttal,
                Role::Implication,
                Role::Next,
            ],
            ThreadSchema::Narrative => vec![
                Role::Setup,
                Role::Complication,
                Role::Turn,
                Role::Resolution,
                Role::Coda,
            ],
            ThreadSchema::Brief => vec![Role::BottomLine, Role::Support, Role::Risk, Role::Ask],
            ThreadSchema::Qa => vec![Role::Question, Role::Evidence, Role::Answer, Role::Caveat],
            ThreadSchema::Plan => vec![
                Role::Goal,
                Role::Constraint,
                Role::Step,
                Role::Decision,
                Role::Risk,
            ],
        };
        assert(r@ =~= self.roles_view());
        r
    }

    /// Whether `role` is one of this schema's roles.
    pub fn allows(self, role: Role) -> (r: bool)
        ensures
            r == self.roles_view().contains(role),
    {
        let roles = self.roles();
        let mut i: usize = 0;
        while i < roles.len()
            invariant
                i <= roles.len(),
                roles@ == self.roles_view(),
                forall|j: int| 0 <= j < i ==> roles@[j] != role,
            decreases roles.len() - i,
        {
            if roles[i] == role {
                return true;
            }
            i = i + 1;
        }
        false
    }
}

/// Every role belongs to at least one schema.
pub proof fn lemma_every_role_has_a_schema(r: Role)
    ensures
        exists|s: ThreadSchema| #[trigger] s.roles_view().contains(r),
{
    let a = ThreadSchema::Analysis.roles_view();
    let n = ThreadSchema::Narrative.roles_view();
    let b = ThreadSchema::Brief.roles_view();
    let q = ThreadSchema::Qa.roles_view();
    let p = ThreadSchema::Plan.roles_view();
    match r {
        Role::Context => { assert(a[0] == r); assert(a.contains(r)); },
        Role::Tension => { assert(a[1] == r); assert(a.contains(r)); },
        Role::Approach => { assert(a[2] == r); assert(a.contains(r)); },
        Role::Finding => { assert(a[3] == r); assert(a.contains(r)); },
        Role::Rebuttal => { assert(a[4] == r); assert(a.contains(r)); },
        Role::Implication => { assert(a[5] == r); assert(a.contains(r)); },
        Role::Next => { assert(a[6] == r); assert(a.contains(r)); },
        Role::Setup => { assert(n[0] == r); assert(n.contains(r)); },
        Role::Complication => { assert(n[1] == r); assert(n.contains(r)); },
        Role::Turn => { assert(n[2] == r); assert(n.contains(r)); },
        Role::Resolution => { assert(n[3] == r); assert(n.contains(r)); },
        Role::Coda => { assert(n[4] == r); assert(n.contains(r)); },
        Role::BottomLine => { assert(b[0] == r); assert(b.contains(r)); },
        Role::Support => { assert(b[1] == r); assert(b.contains(r)); },
        Role::Risk => { assert(b[2] == r); assert(b.contains(r)); },
        Role::Ask => { assert(b[3] == r); assert(b.contains(r)); },
        Role::Question => { assert(q[0] == r); assert(q.contains(r)); },
        Role::Evidence => { assert(q[1] == r); assert(q.contains(r)); },
        Role::Answer => { assert(q[2] == r); assert(q.contains(r)); },
        Role::Caveat => { assert(q[3] == r); assert(q.contains(r)); },
        Role::Goal => { assert(p[0] == r); assert(p.contains(r)); },
        Role::Constraint => { assert(p[1] == r); assert(p.contains(r)); },
        Role::Step => { assert(p[2] == r); assert(p.contains(r)); },
        Role::Decision => { assert(p[3] == r); assert(p.contains(r)); },
    }
}

/// Every wire code below the number of roles names a role.
pub proof fn lemma_role_codes_dense(k: u8)
    requires
        k < 24,
    ensures
        exists|r: Role| #[trigger] r.code_view() == k,
{
    if k == 0 {
        assert(Role::Context.code_view() == k);
    } else if k == 1 {
        assert(Role::Tension.code_view() == k);
    } else if k == 2 {
        assert(Role::Approach.code_view() == k);
    } else if k == 3 {
        assert(Role::Finding.code_view() == k);
    } else if k == 4 {
        assert(Role::Rebuttal.code_view() == k);
    } else if k == 5 {
        assert(Role::Implication.code_view() == k);
    } else if k == 6 {
        assert(Role::Next.code_view() == k);
    } else if k == 7 {
        assert(Role::Setup.code_view() == k);
    } else if k == 8 {
        assert(Role::Complication.code_view() == k);
    } else if k == 9 {
        assert(Role::Turn.code_view() == k);
    } else if k == 10 {
        assert(Role::Resolution.code_view() == k);
    } else if k == 11 {
        assert(Role::Coda.code_view() == k);
    } else if k == 12 {
        assert(Role::BottomLine.code_view() == k);
    } else if k == 13 {
        assert(Role::Support.code_view() == k);
    } else if k == 14 {
        assert(Role::Risk.code_view() == k);
    } else if k == 15 {
        assert(Role::Ask.code_view() == k);
    } else if k == 16 {
        assert(Role::Question.code_view() == k);
    } else if k == 17 {
        assert(Role::Evidence.code_view() == k);
    } else if k == 18 {
        assert(Role::Answer.code_view() == k);
    } else if k == 19 {
        assert(Role::Caveat.code_view() == k);
    } else if k == 20 {
        assert(Role::Goal.code_view() == k);
    } else if k == 21 {
        assert(Role::Constraint.code_view() == k);
    } else if k == 22 {
        assert(Role::Step.code_view() == k);
    } else {
        assert(Role::Decision.code_view() == k);
    }
}

/// One position in a thread.
#[derive(Debug, Clone, PartialEq, Eq, PartialOrd, Ord, Hash)]
pub struct Step {
    pub role: Role,
    pub unit: Uid,
    pub note: Option<String>,
}

impl Step {
    pub fn new(role: Role, unit: Uid) -> (s: Step)
        ensures
            s == (Step { role, unit, note: None }),
    {
        Step { role, unit, note: None }
    }

    pub fn with_note(self, n: &str) -> (s: Step)
        ensures
            s.role == self.role,
            s.unit == self.unit,
            s.note matches Some(t) && t@ == n@,
    {
        let mut s = self;
        s.note = Some(owned(n));
        s
    }
}

/// A named, ordered, role-annotated walk over the graph, owned by one agent.
#[derive(Debug, PartialEq, Eq)]
pub struct Thread {
    pub id: ThreadId,
    pub schema: ThreadSchema,
    pub owner: AgentId,
    pub gist: String,
    pub steps: Vec<Step>,
    pub ts: Hlc,
    pub extra: Extra,
}

/// The roles of `steps` that `schema` does not declare.
pub open spec fn is_foreign(schema: ThreadSchema, steps: Seq<Step>, r: Role) -> bool {
    !schema.roles_view().contains(r) && exists|i: int| 0 <= i < steps.len() && #[trigger] steps[i].role == r
}

/// Roles strictly ascending by wire code.
pub open spec fn roles_ascending(v: Seq<Role>) -> bool {
    forall|i: int, j: int| 0 <= i < j < v.len() ==> #[trigger] v[i].code_view() < #[trigger] v[j].code_view()
}

impl Thread {
    pub fn new(id: ThreadId, schema: ThreadSchema, owner: AgentId, gist: &str, ts: Hlc) -> (t: Thread)
        ensures
            t.id == id,
            t.schema == schema,
            t.owner == owner,
            t.gist@ == gist@,
            t.steps@ == Seq::<Step>::empty(),
            t.ts == ts,
            t.extra@ == Map::<u16, Vec<u8>>::empty(),
    {
        Thread { id, schema, owner, gist: owned(gist), steps: Vec::new(), ts, extra: Extra::new() }
    }

    pub fn with_steps(self, steps: Vec<Step>) -> (t: Thread)
        ensures
            t == (Thread { steps, ..self }),
    {
        let mut s = self;
        s.steps = steps;
        s
    }

    /// The key of the last-writer-wins register this thread is: its id and its owner. Two
    /// agents publishing the same thread id publish two registers.
    pub fn register_key(&self) -> (k: (&ThreadId, &AgentId))
        ensures
            *k.0 == self.id,
            *k.1 == self.owner,
    {
        (&self.id, &self.owner)
    }

    /// Whether `other` supersedes this register: same key, strictly later clock. A clock
    /// never adjudicates between different owners.
    pub fn superseded_by(&self, other: &Thread) -> (r: bool)
        ensures
            r == (self.id@ == other.id@ && self.owner@ == other.owner@ && hlc_lt(self.ts, other.ts)),
    {
        str_eq(self.id.as_str(), other.id.as_str()) && str_eq(self.owner.as_str(), other.owner.as_str())
            && self.ts.lt(&other.ts)
    }

    /// The units of the steps, in step order.
    pub fn units(&self) -> (u: Vec<Uid>)
        ensures
            u@.len() == self.steps@.len(),
            forall|i: int| 0 <= i < u@.len() ==> #[trigger] u@[i] == self.steps@[i].unit,
    {
        let mut u: Vec<Uid> = Vec::new();
        let mut i: usize = 0;
        while i < self.steps.len()
            invariant
                i <= self.steps.len(),
                u@.len() == i,
                forall|j: int| 0 <= j < i ==> #[trigger] u@[j] == self.steps@[j].unit,
            decreases self.steps.len() - i,
        {
            u.push(self.steps[i].unit);
            i = i + 1;
        }
        u
    }

    /// The roles of steps that the declared schema does not use, ascending and without
    /// repeats. A derived thread never has any; an imported one might.
    pub fn foreign_roles(&self) -> (v: Vec<Role>)
        ensures
            roles_ascending(v@),
            forall|r: Role| v@.contains(r) <==> is_foreign(self.schema, self.steps@, r),
    {
        let mut v: Vec<Role> = Vec::new();
        let mut k: u8 = 0;
        while k < 24
            invariant
                k <= 24,
                roles_ascending(v@),
                forall|j: int| 0 <= j < v@.len() ==> #[trigger] v@[j].code_view() < k,
                forall|r: Role| (r.code_view() < k && is_foreign(self.schema, self.steps@, r)) <==> v@.contains(r),
            decreases 24 - k,
        {
            let r = match Role::from_u8(k) {
                Some(r) => r,
                None => {
                    proof {
                        lemma_role_codes_dense(k);
                    }
                    return v;
                },
            };
            let mut found = false;
            let mut i: usize = 0;
            while i < self.steps.len()
                invariant
                    i <= self.steps.len(),
                    found <==> exists|j: int| 0 <= j < i && #[trigger] self.steps@[j].role == r,
                decreases self.steps.len() - i,
            {
                if self.steps[i].role == r {
                    found = true;
                }
                i = i + 1;
            }
            let allowed = self.schema.allows(r);
            let ghost old_v = v@;
            if found && !allowed {
                v.push(r);
                proof {
                    assert forall|r2: Role| (r2.code_view() < k + 1 && is_foreign(self.schema, self.steps@, r2)) <==> v@.contains(r2) by {
                        if r2 == r {
                            assert(v@[v@.len() - 1] == r);
                        } else {
                            if v@.contains(r2) {
                                let idx = choose|idx: int| 0 <= idx < v@.len() && v@[idx] == r2;
                                assert(idx < old_v.len());
                                assert(old_v.contains(r2));
                            }
                            if old_v.contains(r2) {
                                let idx = choose|idx: int| 0 <= idx < old_v.len() && old_v[idx] == r2;
                                assert(v@[idx] == r2);
                            }
                        }
                    }
                }
            } else {
                proof {
                    assert forall|r2: Role| (r2.code_view() < k + 1 && is_foreign(self.schema, self.steps@, r2)) <==> v@.contains(r2) by {
                        if r2.code_view() == k {
                            assert(r2 == r);
                        }
                    }
                }
            }
            k = k + 1;
        }
        v
    }
}

} // verus!
