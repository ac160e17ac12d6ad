//! Rule M, epistemic monotonicity: a derived or inferred unit is no stronger than the weakest
//! of its grounds. Measured and cited units are exempt, because they ground out in a source
//! rather than in another unit. The diagnostic names the weakest ground, which is the
//! actionable part.

use vstd::prelude::*;

use crate::check::{reported, unit_diag};
use crate::diag::{Code, Diagnostic, Report};
use crate::ids::{bytes_lt, lemma_bytes_lt_total, lemma_bytes_lt_transitive, uid_lt, Uid};
use crate::text::{owned, push_str};
use crate::types::epistemics::Status;
use crate::types::unit::UnitCore;

verus! {

/// The status of the unit `g` among the units present in a store, each with its uid; the
/// first listed where a uid is listed twice.
pub open spec fn status_in(present: Seq<(Uid, Status)>, g: Uid) -> Option<Status>
    decreases present.len(),
{
    if present.len() == 0 {
        None
    } else if present[0].0 == g {
        Some(present[0].1)
    } else {
        status_in(present.drop_first(), g)
    }
}

/// The order in which grounds are weighed: by status, weakest first, then by uid, so the
/// ground named is a function of the graph rather than of the order it was read in.
pub open spec fn ground_lt(a: (Status, Uid), b: (Status, Uid)) -> bool {
    a.0.code_view() < b.0.code_view() || (a.0 == b.0 && bytes_lt(a.1.bytes(), b.1.bytes()))
}

/// The weakest present ground among `gs`, with its status.
pub open spec fn weakest_view(gs: Seq<Uid>, present: Seq<(Uid, Status)>) -> Option<(Status, Uid)>
    decreases gs.len(),
{
    if gs.len() == 0 {
        None
    } else {
        let rest = weakest_view(gs.drop_last(), present);
        match status_in(present, gs.last()) {
            None => rest,
            Some(s) => match rest {
                None => Some((s, gs.last())),
                Some(r) => if ground_lt((s, gs.last()), r) {
                    Some((s, gs.last()))
                } else {
                    rest
                },
            },
        }
    }
}

/// The status of `g` among the present units.
fn status_of(present: &Vec<(Uid, Status)>, g: &Uid) -> (r: Option<Status>)
    ensures
        r == status_in(present@, *g),
{
    let mut i: usize = 0;
    assert(present@.skip(0) =~= present@);
    while i < present.len()
        invariant
            i <= present@.len(),
            status_in(present@, *g) == status_in(present@.skip(i as int), *g),
        decreases present@.len() - i,
    {
        assert(present@.skip(i as int)[0] == present@[i as int]);
        assert(present@.skip(i as int).drop_first() =~= present@.skip(i + 1));
        if present[i].0 == *g {
            proof {
                crate::ids::lemma_uid_bytes_injective(present@[i as int].0, *g);
            }
            return Some(present[i].1);
        }
        i = i + 1;
    }
    assert(present@.skip(i as int).len() == 0);
    None
}

/// The weakest present ground of a unit and its status, or `None` when no ground is present.
pub fn weakest_ground(grounds: &Vec<Uid>, present: &Vec<(Uid, Status)>) -> (r: Option<(Status, Uid)>)
    ensures
        r == weakest_view(grounds@, present@),
{
    let mut best: Option<(Status, Uid)> = None;
    let mut i: usize = 0;
    assert(grounds@.take(0) =~= Seq::<Uid>::empty());
    while i < grounds.len()
        invariant
            i <= grounds@.len(),
            best == weakest_view(grounds@.take(i as int), present@),
        decreases grounds@.len() - i,
    {
        let g = grounds[i];
        let ghost pre = grounds@.take(i as int);
        assert(grounds@.take(i + 1).drop_last() =~= pre);
        assert(grounds@.take(i + 1).last() == g);
        match status_of(present, &g) {
            None => {},
            Some(s) => {
                match best {
                    None => {
                        best = Some((s, g));
                    },
                    Some((bs, bu)) => {
                        if s.as_u8() < bs.as_u8() || (s == bs && uid_lt(&g, &bu)) {
                            best = Some((s, g));
                        }
                    },
                }
            },
        }
        i = i + 1;
    }
    assert(grounds@.take(grounds@.len() as int) =~= grounds@);
    best
}

/// The weakest present ground is one of the grounds, present, and no present ground is
/// weaker.
pub proof fn lemma_weakest_is_least(gs: Seq<Uid>, present: Seq<(Uid, Status)>)
    ensures
        weakest_view(gs, present) is None <==> forall|i: int| 0 <= i < gs.len() ==> status_in(present, #[trigger] gs[i]) is None,
        weakest_view(gs, present) matches Some((s, w)) ==> {
            &&& exists|i: int| 0 <= i < gs.len() && #[trigger] gs[i] == w
            &&& status_in(present, w) == Some(s)
            &&& forall|i: int| 0 <= i < gs.len() ==> (status_in(present, #[trigger] gs[i]) matches Some(t) ==> !ground_lt((t, gs[i]), (s, w)))
        },
    decreases gs.len(),
{
    if gs.len() > 0 {
        let init = gs.drop_last();
        lemma_weakest_is_least(init, present);
        assert forall|i: int| 0 <= i < init.len() implies #[trigger] init[i] == gs[i] by {}
        let last = gs.len() - 1;
        assert(gs[last] == gs.last());
        match weakest_view(gs, present) {
            Some((s, w)) => {
                match status_in(present, gs.last()) {
                    None => {
                        let j = choose|j: int| 0 <= j < init.len() && #[trigger] init[j] == w;
                        assert(gs[j] == w);
                        assert forall|i: int| 0 <= i < gs.len() implies (status_in(present, #[trigger] gs[i]) matches Some(u)
                            ==> !ground_lt((u, gs[i]), (s, w))) by {
                            if i < init.len() {
                                assert(init[i] == gs[i]);
                            }
                        }
                    },
                    Some(t) => {
                        match weakest_view(init, present) {
                            None => {
                                assert(gs[last] == w);
                                assert forall|i: int| 0 <= i < gs.len() implies (status_in(present, #[trigger] gs[i]) matches Some(u)
                                    ==> !ground_lt((u, gs[i]), (s, w))) by {
                                    if i < init.len() {
                                        assert(init[i] == gs[i]);
                                    } else {
                                        lemma_ground_lt_order((t, w), (t, w), (t, w));
                                    }
                                }
                            },
                            Some((rs, rw)) => {
                                if ground_lt((t, gs.last()), (rs, rw)) {
                                    assert(gs[last] == w);
                                    assert forall|i: int| 0 <= i < gs.len() implies (status_in(present, #[trigger] gs[i]) matches Some(u)
                                        ==> !ground_lt((u, gs[i]), (s, w))) by {
                                        if i < init.len() {
                                            assert(init[i] == gs[i]);
                                            if let Some(u) = status_in(present, gs[i]) {
                                                assert(!ground_lt((u, init[i]), (rs, rw)));
                                                lemma_ground_lt_order((u, gs[i]), (t, gs.last()), (rs, rw));
                                            }
                                        } else {
                                            lemma_ground_lt_order((t, w), (t, w), (t, w));
                                        }
                                    }
                                } else {
                                    let j = choose|j: int| 0 <= j < init.len() && #[trigger] init[j] == w;
                                    assert(gs[j] == w);
                                    assert forall|i: int| 0 <= i < gs.len() implies (status_in(present, #[trigger] gs[i]) matches Some(u)
                                        ==> !ground_lt((u, gs[i]), (s, w))) by {
                                        if i < init.len() {
                                            assert(init[i] == gs[i]);
                                        }
                                    }
                                }
                            },
                        }
                    },
                }
            },
            None => {
                assert forall|i: int| 0 <= i < gs.len() implies status_in(present, #[trigger] gs[i]) is None by {
                    if i < init.len() {
                        assert(init[i] == gs[i]);
                    }
                }
            },
        }
        if forall|i: int| 0 <= i < gs.len() ==> status_in(present, #[trigger] gs[i]) is None {
            assert forall|i: int| 0 <= i < init.len() implies status_in(present, #[trigger] init[i]) is None by {
                assert(init[i] == gs[i]);
            }
            assert(status_in(present, gs[gs.len() - 1]) is None);
        }
    }
}

/// The order grounds are weighed in is a strict order: irreflexive and transitive.
proof fn lemma_ground_lt_order(a: (Status, Uid), b: (Status, Uid), c: (Status, Uid))
    ensures
        !ground_lt(a, a),
        ground_lt(a, b) && ground_lt(b, c) ==> ground_lt(a, c),
{
    lemma_bytes_lt_total(a.1.bytes(), a.1.bytes());
    if ground_lt(a, b) && ground_lt(b, c) && a.0 == b.0 && b.0 == c.0 {
        lemma_bytes_lt_transitive(a.1.bytes(), b.1.bytes(), c.1.bytes());
    }
}

/// What rule M reports on a unit: when a derived or inferred unit outruns the weakest of its
/// present grounds, one error naming that ground. A unit none of whose grounds is present is
/// left to reference integrity, which reports the dangling grounds.
pub open spec fn rule_m_findings(core: UnitCore, present: Seq<(Uid, Status)>) -> Seq<(Code, Seq<char>, Option<Seq<char>>)> {
    if !(core.status == Status::Derived || core.status == Status::Inferred) {
        Seq::empty()
    } else {
        match weakest_view(core.grounds@, present) {
            None => Seq::empty(),
            Some((cap, w)) => if core.status.code_view() > cap.code_view() {
                seq![
                    (
                        Code::E030,
                        core.status.str_view() + " exceeds the cap of "@ + cap.str_view() + " set by its weakest ground "@
                            + w.text_form(26),
                        Some("weaken this unit to "@ + cap.str_view() + ", or strengthen "@ + w.text_form(26)),
                    ),
                ]
            } else {
                Seq::empty()
            },
        }
    }
}

/// Rule M holds of a unit exactly when nothing is reported on it: a constrained unit is then
/// at most as strong as every present ground.
pub proof fn lemma_rule_m(core: UnitCore, present: Seq<(Uid, Status)>)
    ensures
        rule_m_findings(core, present).len() == 0 <==> (!(core.status == Status::Derived || core.status
            == Status::Inferred) || forall|i: int|
            0 <= i < core.grounds@.len() ==> (status_in(present, #[trigger] core.grounds@[i]) matches Some(t)
                ==> core.status.code_view() <= t.code_view())),
{
    let gs = core.grounds@;
    lemma_weakest_is_least(gs, present);
    if let Some((cap, w)) = weakest_view(gs, present) {
        let j = choose|j: int| 0 <= j < gs.len() && #[trigger] gs[j] == w;
        assert(status_in(present, gs[j]) == Some(cap));
        assert forall|i: int| 0 <= i < gs.len() implies (status_in(present, #[trigger] gs[i]) matches Some(t)
            ==> cap.code_view() <= t.code_view()) by {
            if let Some(t) = status_in(present, gs[i]) {
                assert(!ground_lt((t, gs[i]), (cap, w)));
            }
        }
    }
}

/// Checks one unit against rule M, appending what it finds. `present` lists the units of the
/// store with their statuses.
pub fn check_unit(uid: &Uid, core: &UnitCore, present: &Vec<(Uid, Status)>, report: &mut Report)
    ensures
        reported(old(report).diagnostics@, final(report).diagnostics@, *uid, rule_m_findings(*core, present@)),
{
    let ghost start = report.diagnostics@;
    assert(start.take(start.len() as int) =~= start);
    if !core.status.is_rule_m_constrained() {
        return;
    }
    let (cap, weakest) = match weakest_ground(&core.grounds, present) {
        Some(x) => x,
        None => return,
    };
    if core.status.as_u8() > cap.as_u8() {
        let short = weakest.short();
        let mut m = owned(core.status.as_str());
        push_str(&mut m, " exceeds the cap of ");
        push_str(&mut m, cap.as_str());
        push_str(&mut m, " set by its weakest ground ");
        push_str(&mut m, short.as_str());
        let mut sg = owned("weaken this unit to ");
        push_str(&mut sg, cap.as_str());
        push_str(&mut sg, ", or strengthen ");
        push_str(&mut sg, short.as_str());
        let d = Diagnostic::on(Code::E030, *uid).with_message(m.as_str()).with_suggestion(sg.as_str());
        report.push(d);
        proof {
            let f = rule_m_findings(*core, present@);
            assert(unit_diag(report.diagnostics@[start.len() as int], f[0].0, *uid, f[0].1, f[0].2));
            assert(report.diagnostics@.take(start.len() as int) =~= start);
        }
    }
}

/// The units of a store as rule M reads them: each uid with its status.
pub open spec fn statuses(units: Seq<(Uid, UnitCore)>) -> Seq<(Uid, Status)> {
    Seq::new(units.len(), |j: int| (units[j].0, units[j].1.status))
}

/// What rule M reports on the first `k` units of a store, in order, each finding with the uid
/// it is about.
pub open spec fn store_findings(units: Seq<(Uid, UnitCore)>, k: int) -> Seq<(Uid, (Code, Seq<char>, Option<Seq<char>>))>
    decreases k,
{
    if k <= 0 {
        Seq::empty()
    } else {
        let u = units[k - 1];
        store_findings(units, k - 1) + rule_m_findings(u.1, statuses(units)).map_values(
            |f: (Code, Seq<char>, Option<Seq<char>>)| (u.0, f),
        )
    }
}

/// `after` is `before` with one diagnostic appended for each finding, in order, each about its
/// own unit.
pub open spec fn reported_store(before: Seq<Diagnostic>, after: Seq<Diagnostic>, items: Seq<(Uid, (Code, Seq<char>, Option<Seq<char>>))>) -> bool {
    &&& after.len() == before.len() + items.len()
    &&& after.take(before.len() as int) == before
    &&& forall|i: int| 0 <= i < items.len() ==> unit_diag(#[trigger] after[before.len() + i], items[i].1.0, items[i].0, items[i].1.1, items[i].1.2)
}

/// Checks every unit of a store against rule M, in the order given, each against the statuses
/// of all the units.
pub fn check_units(units: &Vec<(Uid, UnitCore)>, report: &mut Report)
    ensures
        reported_store(old(report).diagnostics@, final(report).diagnostics@, store_findings(units@, units@.len() as int)),
{
    let mut present: Vec<(Uid, Status)> = Vec::new();
    let mut i: usize = 0;
    while i < units.len()
        invariant
            i <= units@.len(),
            present@.len() == i,
            forall|j: int| 0 <= j < i ==> #[trigger] present@[j] == (units@[j].0, units@[j].1.status),
        decreases units@.len() - i,
    {
        present.push((units[i].0, units[i].1.status));
        i = i + 1;
    }
    assert(present@ =~= statuses(units@));
    let ghost start = report.diagnostics@;
    let mut k: usize = 0;
    assert(start.take(start.len() as int) =~= start);
    while k < units.len()
        invariant
            k <= units@.len(),
            present@ == statuses(units@),
            reported_store(start, report.diagnostics@, store_findings(units@, k as int)),
        decreases units@.len() - k,
    {
        let ghost before = report.diagnostics@;
        let ghost prev = store_findings(units@, k as int);
        check_unit(&units[k].0, &units[k].1, &present, report);
        proof {
            let after = report.diagnostics@;
            let u = units@[k as int];
            let f = rule_m_findings(u.1, present@);
            let items = store_findings(units@, k + 1);
            assert(items =~= prev + f.map_values(|x: (Code, Seq<char>, Option<Seq<char>>)| (u.0, x)));
            assert(after.take(start.len() as int) =~= start) by {
                assert forall|x: int| 0 <= x < start.len() implies after[x] == start[x] by {
                    assert(after.take(before.len() as int)[x] == before[x]);
                    assert(before.take(start.len() as int)[x] == start[x]);
                }
            }
            assert forall|i: int| 0 <= i < items.len() implies unit_diag(#[trigger] after[start.len() + i], items[i].1.0, items[i].0, items[i].1.1, items[i].1.2) by {
                if i < prev.len() {
                    assert(after.take(before.len() as int)[start.len() + i] == before[start.len() + i]);
                    assert(unit_diag(before[start.len() + i], prev[i].1.0, prev[i].0, prev[i].1.1, prev[i].1.2));
                } else {
                    let j = i - prev.len();
                    assert(unit_diag(after[before.len() + j], f[j].0, u.0, f[j].1, f[j].2));
                    assert(before.len() + j == start.len() + i);
                }
            }
        }
        k = k + 1;
    }
}

} // verus!
