//! Shape: the gist bound, which depends on a granularity profile and so only this pass can
//! see, and the constructor's rules again, as defence in depth against a unit that reached a
//! store without passing through the constructor.

use vstd::prelude::*;

use crate::check::{reported, unit_diag};
use crate::diag::{Code, Diagnostic, Report};
use crate::ids::Uid;
use crate::text::{blank, decimal, is_blank, push_decimal, push_str};
use crate::types::epistemics::Status;
use crate::types::token_estimate;
use crate::types::unit::UnitCore;
use crate::types::view::GranularityProfile;
use crate::check::granularity::encode_len;

verus! {

/// One finding when `cond` holds, none otherwise.
pub open spec fn finding_if(cond: bool, code: Code, message: Seq<char>, suggestion: Option<Seq<char>>) -> Seq<(Code, Seq<char>, Option<Seq<char>>)> {
    if cond {
        seq![(code, message, suggestion)]
    } else {
        Seq::empty()
    }
}

/// What the shape pass reports on a unit, in order.
pub open spec fn shape_findings(core: UnitCore, g: GranularityProfile) -> Seq<(Code, Seq<char>, Option<Seq<char>>)> {
    let n = token_estimate(encode_len(core.gist@));
    finding_if(
        !(n <= g.l0_max),
        Code::E022,
        "gist is "@ + decimal(n as nat) + " tokens, "@ + g.profile@ + " allows "@ + decimal(g.l0_max as nat),
        Some("move the detail into `body` and shorten the gist"@),
    ) + finding_if(blank(core.gist@), Code::E021, "empty gist"@, None) + finding_if(
        core.detail is Some && core.body is None,
        Code::E023,
        "detail without body"@,
        None,
    ) + finding_if(
        core.status == Status::Unfounded,
        Code::E034,
        "unfounded is reachable only by retraction, never by authoring"@,
        None,
    ) + finding_if(
        (core.status == Status::Measured || core.status == Status::Cited) && core.source is None,
        Code::E032,
        core.status.str_view() + " without a source"@,
        None,
    ) + finding_if(
        (core.status == Status::Derived || core.status == Status::Inferred) && core.grounds@.len() == 0,
        Code::E031,
        core.status.str_view() + " with no grounds"@,
        None,
    )
}

fn note(report: &mut Report, uid: &Uid, code: Code, message: &str, suggestion: Option<&str>)
    ensures
        reported(
            old(report).diagnostics@,
            final(report).diagnostics@,
            *uid,
            seq![(code, message@, match suggestion {
                Some(s) => Some(s@),
                None => None,
            })],
        ),
{
    let d = Diagnostic::on(code, *uid).with_message(message);
    let d = match suggestion {
        Some(s) => d.with_suggestion(s),
        None => d,
    };
    report.push(d);
    assert(report.diagnostics@.take(old(report).diagnostics@.len() as int) =~= old(report).diagnostics@);
}

proof fn lemma_reported_chain(
    a: Seq<Diagnostic>,
    b: Seq<Diagnostic>,
    c: Seq<Diagnostic>,
    uid: Uid,
    f: Seq<(Code, Seq<char>, Option<Seq<char>>)>,
    g: Seq<(Code, Seq<char>, Option<Seq<char>>)>,
)
    requires
        reported(a, b, uid, f),
        reported(b, c, uid, g),
    ensures
        reported(a, c, uid, f + g),
{
    assert(c.take(a.len() as int) =~= a) by {
        assert forall|i: int| 0 <= i < a.len() implies c[i] == a[i] by {
            assert(c.take(b.len() as int)[i] == b[i]);
            assert(b.take(a.len() as int)[i] == a[i]);
        }
    }
    assert forall|i: int| 0 <= i < (f + g).len() implies unit_diag(#[trigger] c[a.len() + i], (f + g)[i].0, uid, (f + g)[i].1, (f + g)[i].2) by {
        if i < f.len() {
            assert(c.take(b.len() as int)[a.len() + i] == b[a.len() + i]);
            assert(unit_diag(b[a.len() + i], f[i].0, uid, f[i].1, f[i].2));
        } else {
            assert(unit_diag(c[b.len() + (i - f.len())], g[i - f.len()].0, uid, g[i - f.len()].1, g[i - f.len()].2));
        }
    }
}

proof fn lemma_reported_none(a: Seq<Diagnostic>, uid: Uid)
    ensures
        reported(a, a, uid, Seq::empty()),
{
    assert(a.take(a.len() as int) =~= a);
}

/// Checks one unit's shape, appending what it finds: a gist over the profile's bound, and
/// any of the constructor's rules broken.
pub fn check_unit(uid: &Uid, core: &UnitCore, granularity: &GranularityProfile, report: &mut Report)
    ensures
        reported(old(report).diagnostics@, final(report).diagnostics@, *uid, shape_findings(*core, *granularity)),
{
    let ghost s0 = report.diagnostics@;
    proof {
        lemma_reported_none(s0, *uid);
    }
    let gist_tokens = crate::types::tokens(core.gist.as_str());
    let ghost f1 = finding_if(
        !(gist_tokens <= granularity.l0_max),
        Code::E022,
        "gist is "@ + decimal(gist_tokens as nat) + " tokens, "@ + granularity.profile@ + " allows "@ + decimal(
            granularity.l0_max as nat,
        ),
        Some("move the detail into `body` and shorten the gist"@),
    );
    if !granularity.gist_within_bound(gist_tokens) {
        let mut m = crate::text::owned("gist is ");
        push_decimal(&mut m, gist_tokens as u64);
        push_str(&mut m, " tokens, ");
        push_str(&mut m, granularity.profile.as_str());
        push_str(&mut m, " allows ");
        push_decimal(&mut m, granularity.l0_max as u64);
        note(report, uid, Code::E022, m.as_str(), Some("move the detail into `body` and shorten the gist"));
        assert(seq![(Code::E022, m@, Some("move the detail into `body` and shorten the gist"@))] =~= f1);
    }
    let ghost s1 = report.diagnostics@;
    assert(reported(s0, s1, *uid, f1));
    let ghost f2 = finding_if(blank(core.gist@), Code::E021, "empty gist"@, None);
    if is_blank(core.gist.as_str()) {
        note(report, uid, Code::E021, "empty gist", None);
    } else {
        proof {
            lemma_reported_none(s1, *uid);
        }
    }
    proof {
        lemma_reported_chain(s0, s1, report.diagnostics@, *uid, f1, f2);
    }
    let ghost s2 = report.diagnostics@;
    let ghost f3 = finding_if(core.detail is Some && core.body is None, Code::E023, "detail without body"@, None);
    if core.detail.is_some() && core.body.is_none() {
        note(report, uid, Code::E023, "detail without body", None);
    } else {
        proof {
            lemma_reported_none(s2, *uid);
        }
    }
    proof {
        lemma_reported_chain(s0, s2, report.diagnostics@, *uid, f1 + f2, f3);
    }
    let ghost s3 = report.diagnostics@;
    let ghost f4 = finding_if(
        core.status == Status::Unfounded,
        Code::E034,
        "unfounded is reachable only by retraction, never by authoring"@,
        None,
    );
    if core.status == Status::Unfounded {
        note(report, uid, Code::E034, "unfounded is reachable only by retraction, never by authoring", None);
    } else {
        proof {
            lemma_reported_none(s3, *uid);
        }
    }
    proof {
        lemma_reported_chain(s0, s3, report.diagnostics@, *uid, f1 + f2 + f3, f4);
    }
    let ghost s4 = report.diagnostics@;
    let ghost f5 = finding_if(
        (core.status == Status::Measured || core.status == Status::Cited) && core.source is None,
        Code::E032,
        core.status.str_view() + " without a source"@,
        None,
    );
    if core.status.requires_source() && core.source.is_none() {
        let mut m = crate::text::owned(core.status.as_str());
        push_str(&mut m, " without a source");
        note(report, uid, Code::E032, m.as_str(), None);
    } else {
        proof {
            lemma_reported_none(s4, *uid);
        }
    }
    proof {
        lemma_reported_chain(s0, s4, report.diagnostics@, *uid, f1 + f2 + f3 + f4, f5);
    }
    let ghost s5 = report.diagnostics@;
    let ghost f6 = finding_if(
        (core.status == Status::Derived || core.status == Status::Inferred) && core.grounds@.len() == 0,
        Code::E031,
        core.status.str_view() + " with no grounds"@,
        None,
    );
    if core.status.requires_grounds() && core.grounds.len() == 0 {
        let mut m = crate::text::owned(core.status.as_str());
        push_str(&mut m, " with no grounds");
        note(report, uid, Code::E031, m.as_str(), None);
    } else {
        proof {
            lemma_reported_none(s5, *uid);
        }
    }
    proof {
        lemma_reported_chain(s0, s5, report.diagnostics@, *uid, f1 + f2 + f3 + f4 + f5, f6);
        assert(shape_findings(*core, *granularity) =~= f1 + f2 + f3 + f4 + f5 + f6);
    }
}

} // verus!
