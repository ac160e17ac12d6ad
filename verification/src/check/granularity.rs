//! Granularity. `SMY-E040` is an error, so it is decided by layout, not by reading the
//! prose: a body of two paragraphs, or a list of two or more items, is more than one
//! assertion; a single paragraph never is, however long. Granularity constrains production,
//! not the store, and this pass reports against the profile the units were produced under.

use vstd::prelude::*;

use crate::check::{reported, unit_diag};
use crate::diag::{Code, Diagnostic, Report};
use crate::ids::{KernelType, Uid};
use crate::text::{blank, chars_of, decimal, is_whitespace, push_decimal, push_str, string_from_range};
use crate::types::token_estimate;
use crate::types::unit::UnitCore;
use crate::types::view::{Admission, GranularityProfile};
use crate::surface::lex::{starts, trim_start};
use vstd::string::StringSliceAdditionalSpecFns;

verus! {

/// The first blank-line separator, `\n\n`, in `s`, from `k`: its index, or -1.
pub open spec fn first_break(s: Seq<char>, k: int) -> int
    decreases s.len() - k,
{
    if k < 0 || k + 1 >= s.len() {
        -1
    } else if s[k] == '\n' && s[k + 1] == '\n' {
        k
    } else {
        first_break(s, k + 1)
    }
}

pub proof fn lemma_first_break(s: Seq<char>, k: int)
    requires
        0 <= k,
    ensures
        first_break(s, k) == -1 || (k <= first_break(s, k) && first_break(s, k) + 1 < s.len()),
    decreases s.len() - k,
{
    if k + 1 < s.len() && !(s[k] == '\n' && s[k + 1] == '\n') {
        lemma_first_break(s, k + 1);
    }
}

/// The paragraphs of `s` that are not blank, splitting at each `\n\n` from the left.
pub open spec fn paragraph_count(s: Seq<char>) -> nat
    decreases s.len(),
{
    let j = first_break(s, 0);
    if j < 0 {
        if blank(s) {
            0
        } else {
            1
        }
    } else {
        proof {
            lemma_first_break(s, 0);
        }
        (if blank(s.take(j)) {
            0nat
        } else {
            1nat
        }) + paragraph_count(s.skip(j + 2))
    }
}

/// The first `. ` in `t`: its index, or -1.
pub open spec fn first_stop(t: Seq<char>, k: int) -> int
    decreases t.len() - k,
{
    if k < 0 || k + 1 >= t.len() {
        -1
    } else if t[k] == '.' && t[k + 1] == ' ' {
        k
    } else {
        first_stop(t, k + 1)
    }
}

/// A line that is a list item: after its indent, `- `, `* ` or `+ `, or a number followed by
/// the first `. ` on the line.
pub open spec fn list_item(l: Seq<char>) -> bool {
    let t = trim_start(l);
    let k = first_stop(t, 0);
    starts(t, "- "@) || starts(t, "* "@) || starts(t, "+ "@) || (k > 0 && forall|q: int|
        0 <= q < k ==> '0' <= #[trigger] t[q] && t[q] <= '9')
}

/// The first `\n` in `s` from `k`, or `s.len()`.
pub open spec fn line_end(s: Seq<char>, k: int) -> int
    decreases s.len() - k,
{
    if k < 0 || k >= s.len() {
        s.len() as int
    } else if s[k] == '\n' {
        k
    } else {
        line_end(s, k + 1)
    }
}

pub proof fn lemma_line_end(s: Seq<char>, k: int)
    requires
        0 <= k <= s.len(),
    ensures
        k <= line_end(s, k) <= s.len(),
        forall|q: int| k <= q < line_end(s, k) ==> s[q] != '\n',
        line_end(s, k) < s.len() ==> s[line_end(s, k)] == '\n',
    decreases s.len() - k,
{
    if k < s.len() && s[k] != '\n' {
        lemma_line_end(s, k + 1);
    }
}

/// The lines of `s` from `k` that are list items.
pub open spec fn list_items_from(s: Seq<char>, k: int) -> nat
    decreases s.len() - k + 1,
{
    if k < 0 || k > s.len() {
        0
    } else {
        let e = line_end(s, k);
        proof {
            lemma_line_end(s, k);
        }
        (if list_item(s.subrange(k, e)) {
            1nat
        } else {
            0nat
        }) + if e < s.len() {
            list_items_from(s, e + 1)
        } else {
            0nat
        }
    }
}

fn starts_at(v: &Vec<char>, k: usize, a: char, b: char) -> (r: bool)
    requires
        k <= v.len(),
    ensures
        r == (v@.len() >= k + 2 && v@[k as int] == a && v@[k + 1] == b),
{
    v.len() - k >= 2 && v[k] == a && v[k + 1] == b
}

fn blank_range(v: &Vec<char>, lo: usize, hi: usize) -> (r: bool)
    requires
        lo <= hi <= v.len(),
    ensures
        r == blank(v@.subrange(lo as int, hi as int)),
{
    let mut i = lo;
    while i < hi
        invariant
            lo <= i <= hi <= v.len(),
            forall|q: int| lo <= q < i ==> crate::text::is_ws(#[trigger] v@[q]),
        decreases hi - i,
    {
        if !is_whitespace(v[i]) {
            assert(v@.subrange(lo as int, hi as int)[i - lo] == v@[i as int]);
            return false;
        }
        i = i + 1;
    }
    assert forall|q: int| 0 <= q < v@.subrange(lo as int, hi as int).len() implies crate::text::is_ws(
        #[trigger] v@.subrange(lo as int, hi as int)[q],
    ) by {
        assert(v@.subrange(lo as int, hi as int)[q] == v@[q + lo]);
    }
    true
}

/// The number of paragraphs of a body that are not blank.
pub fn paragraphs(body: &str) -> (n: usize)
    ensures
        n == paragraph_count(body@),
{
    let v = chars_of(body);
    let mut count: usize = 0;
    let mut k: usize = 0;
    assert(v@.skip(0) =~= v@);
    loop
        invariant
            k <= v.len(),
            v@ == body@,
            count <= k,
            count + paragraph_count(v@.skip(k as int)) == paragraph_count(body@),
        decreases v.len() - k,
    {
        let ghost rest = v@.skip(k as int);
        let mut j = k;
        while j < v.len() && !starts_at(&v, j, '\n', '\n')
            invariant
                k <= j <= v.len(),
                rest == v@.skip(k as int),
                first_break(rest, 0) == first_break(rest, j - k),
            decreases v.len() - j,
        {
            j = j + 1;
        }
        assert(v@.subrange(k as int, v.len() as int) =~= rest);
        if j >= v.len() {
            assert(first_break(rest, j - k) == -1);
            if !blank_range(&v, k, v.len()) {
                count = count + 1;
            }
            return count;
        }
        assert(first_break(rest, j - k) == j - k);
        assert(rest.take(j - k) =~= v@.subrange(k as int, j as int));
        assert(rest.skip(j - k + 2) =~= v@.skip(j + 2));
        if !blank_range(&v, k, j) {
            count = count + 1;
        }
        k = j + 2;
    }
}

fn trim_start_from(v: &Vec<char>, lo: usize, hi: usize) -> (n: usize)
    requires
        lo <= hi <= v.len(),
    ensures
        lo <= n <= hi,
        trim_start(v@.subrange(lo as int, hi as int)) == v@.subrange(n as int, hi as int),
{
    let mut n = lo;
    while n < hi && is_whitespace(v[n])
        invariant
            lo <= n <= hi <= v.len(),
            trim_start(v@.subrange(lo as int, hi as int)) == trim_start(v@.subrange(n as int, hi as int)),
        decreases hi - n,
    {
        assert(v@.subrange(n as int, hi as int).drop_first() =~= v@.subrange(n + 1, hi as int));
        n = n + 1;
    }
    n
}

fn is_list_item(v: &Vec<char>, lo: usize, hi: usize) -> (r: bool)
    requires
        lo <= hi <= v.len(),
    ensures
        r == list_item(v@.subrange(lo as int, hi as int)),
{
    let s = trim_start_from(v, lo, hi);
    let ghost t = v@.subrange(s as int, hi as int);
    proof {
        reveal_strlit("- ");
        reveal_strlit("* ");
        reveal_strlit("+ ");
    }
    if hi - s >= 2 && v[s + 1] == ' ' && (v[s] == '-' || v[s] == '*' || v[s] == '+') {
        assert(t.take(2) =~= seq![v@[s as int], ' ']);
        if v[s] == '-' {
            assert(t.take(2) =~= "- "@);
        } else if v[s] == '*' {
            assert(t.take(2) =~= "* "@);
        } else {
            assert(t.take(2) =~= "+ "@);
        }
        return true;
    }
    assert(!(starts(t, "- "@) || starts(t, "* "@) || starts(t, "+ "@))) by {
        if t.len() >= 2 {
            assert(t.take(2)[0] == t[0] && t.take(2)[1] == t[1]);
        }
    }
    let mut k = s;
    while k < hi && !(hi - k >= 2 && v[k] == '.' && v[k + 1] == ' ')
        invariant
            s <= k <= hi <= v.len(),
            t == v@.subrange(s as int, hi as int),
            first_stop(t, 0) == first_stop(t, k - s),
        decreases hi - k,
    {
        k = k + 1;
    }
    if k >= hi {
        return false;
    }
    assert(first_stop(t, k - s) == k - s);
    if k == s {
        return false;
    }
    assert(list_item(v@.subrange(lo as int, hi as int)) <==> (forall|p: int| 0 <= p < k - s ==> '0' <= #[trigger] t[p] && t[p] <= '9'));
    let mut q = s;
    while q < k
        invariant
            s <= q <= k < hi <= v.len(),
            t == v@.subrange(s as int, hi as int),
            list_item(v@.subrange(lo as int, hi as int)) <==> (forall|p: int| 0 <= p < k - s ==> '0' <= #[trigger] t[p] && t[p] <= '9'),
            forall|p: int| s <= p < q ==> '0' <= #[trigger] v@[p] && v@[p] <= '9',
        decreases k - q,
    {
        if !('0' <= v[q] && v[q] <= '9') {
            assert(t[q - s] == v@[q as int]);
            return false;
        }
        q = q + 1;
    }
    assert forall|p: int| 0 <= p < k - s implies '0' <= #[trigger] t[p] && t[p] <= '9' by {
        assert(t[p] == v@[p + s]);
    }
    true
}

/// The number of lines of a body that are list items.
pub fn list_items(body: &str) -> (n: usize)
    ensures
        n == list_items_from(body@, 0),
{
    let v = chars_of(body);
    let mut count: usize = 0;
    let mut k: usize = 0;
    loop
        invariant
            k <= v.len(),
            v@ == body@,
            count <= k,
            count + list_items_from(v@, k as int) == list_items_from(v@, 0),
        decreases v.len() - k,
    {
        let mut e = k;
        while e < v.len() && v[e] != '\n'
            invariant
                k <= e <= v.len(),
                line_end(v@, k as int) == line_end(v@, e as int),
            decreases v.len() - e,
        {
            e = e + 1;
        }
        proof {
            reveal_strlit("- ");
            reveal_strlit("* ");
            reveal_strlit("+ ");
            lemma_line_end(v@, k as int);
            assert(!list_item(v@.subrange(k as int, k as int))) by {
                assert(v@.subrange(k as int, k as int) =~= Seq::<char>::empty());
                assert(trim_start(Seq::<char>::empty()) =~= Seq::<char>::empty());
            }
        }
        if e > k && is_list_item(&v, k, e) {
            count = count + 1;
        }
        if e >= v.len() {
            return count;
        }
        k = e + 1;
    }
}

/// Why a body is structurally more than one assertion, if it is.
pub open spec fn multi_assertion_view(body: Seq<char>) -> Option<Seq<char>> {
    if paragraph_count(body) > 1 {
        Some("body has more than one paragraph"@)
    } else if list_items_from(body, 0) > 1 {
        Some("body is a list of more than one item"@)
    } else {
        None
    }
}

/// Whether a body is structurally more than one assertion, and why.
pub fn multi_assertion(body: &str) -> (r: Option<&'static str>)
    ensures
        match r {
            Some(t) => multi_assertion_view(body@) == Some(t@),
            None => multi_assertion_view(body@) is None,
        },
{
    if paragraphs(body) > 1 {
        return Some("body has more than one paragraph");
    }
    if list_items(body) > 1 {
        return Some("body is a list of more than one item");
    }
    None
}

/// What the granularity pass reports on a unit's body: more than one assertion under
/// single-assertion admission (`prose` exempt), then a body outside the profile's range.
pub open spec fn granularity_findings(core: UnitCore, g: GranularityProfile) -> Seq<(Code, Seq<char>, Option<Seq<char>>)> {
    match core.body {
        None => Seq::empty(),
        Some(body) => {
            let opaque = core.schema matches crate::ids::SchemaId::Kernel(k) && k == KernelType::Prose;
            let e040 = if g.admission == Admission::SingleAssertion && !opaque && multi_assertion_view(body@) is Some {
                seq![(Code::E040, multi_assertion_view(body@)->Some_0 + " under single-assertion admission"@, Some("split into one unit per assertion, or move to `coarse`"@))]
            } else {
                Seq::empty()
            };
            let n = token_estimate(encode_len(body@));
            let w041 = if !(g.l1_min <= n && n <= g.l1_max) {
                seq![(Code::W041, "body is "@ + decimal(n as nat) + " tokens, "@ + (if n < g.l1_min { "under"@ } else { "over"@ }) + " the "@ + g.profile@ + " range "@ + decimal(g.l1_min as nat) + ".."@ + decimal(g.l1_max as nat), None)]
            } else {
                Seq::empty()
            };
            e040 + w041
        },
    }
}

/// `prose` is exempt from the single-assertion rule: whatever its body and whatever the
/// profile, a prose unit never draws SMY-E040, and what it draws does not depend on the
/// profile's admission.
pub proof fn lemma_prose_is_exempt(core: UnitCore, g: GranularityProfile, a: Admission)
    requires
        core.schema == crate::ids::SchemaId::Kernel(KernelType::Prose),
    ensures
        forall|i: int| 0 <= i < granularity_findings(core, g).len() ==> (#[trigger] granularity_findings(core, g)[i]).0
            != Code::E040,
        granularity_findings(core, g) == granularity_findings(core, GranularityProfile { admission: a, ..g }),
{
    if let Some(body) = core.body {
        let w = granularity_findings(core, g);
        assert forall|i: int| 0 <= i < w.len() implies (#[trigger] w[i]).0 != Code::E040 by {
            assert(w[i].0 == Code::W041);
        }
    }
}

/// The UTF-8 length of a text.
pub open spec fn encode_len(s: Seq<char>) -> nat {
    vstd::utf8::encode_utf8(s).len()
}

/// Checks one unit's body against a granularity profile, appending what it finds.
pub fn check_unit(uid: &Uid, core: &UnitCore, granularity: &GranularityProfile, report: &mut Report)
    ensures
        reported(old(report).diagnostics@, final(report).diagnostics@, *uid, granularity_findings(*core, *granularity)),
{
    let ghost start = report.diagnostics@;
    let body = match &core.body {
        Some(b) => b,
        None => {
            assert(report.diagnostics@.take(start.len() as int) =~= start);
            return;
        },
    };
    let opaque = match core.schema.kernel() {
        Some(k) => k == KernelType::Prose,
        None => false,
    };
    let ghost body_view = body@;
    let ghost e040: Seq<(Code, Seq<char>, Option<Seq<char>>)> = Seq::empty();
    if granularity.admission == Admission::SingleAssertion && !opaque {
        if let Some(reason) = multi_assertion(body.as_str()) {
            let mut m = crate::text::owned(reason);
            push_str(&mut m, " under single-assertion admission");
            let d = Diagnostic::on(Code::E040, *uid).with_message(m.as_str()).with_suggestion(
                "split into one unit per assertion, or move to `coarse`",
            );
            report.push(d);
            proof {
                e040 = seq![(Code::E040, m@, Some("split into one unit per assertion, or move to `coarse`"@))];
                assert(unit_diag(report.diagnostics@[start.len() as int], e040[0].0, *uid, e040[0].1, e040[0].2));
            }
        }
    }
    let ghost mid = report.diagnostics@;
    assert(mid.len() == start.len() + e040.len());
    assert(mid.take(start.len() as int) =~= start);
    let n = crate::types::tokens(body.as_str());
    let ghost w041: Seq<(Code, Seq<char>, Option<Seq<char>>)> = Seq::empty();
    if !granularity.body_in_range(n) {
        let mut m = crate::text::owned("body is ");
        push_decimal(&mut m, n as u64);
        push_str(&mut m, " tokens, ");
        push_str(&mut m, if n < granularity.l1_min { "under" } else { "over" });
        push_str(&mut m, " the ");
        push_str(&mut m, granularity.profile.as_str());
        push_str(&mut m, " range ");
        push_decimal(&mut m, granularity.l1_min as u64);
        push_str(&mut m, "..");
        push_decimal(&mut m, granularity.l1_max as u64);
        let d = Diagnostic::on(Code::W041, *uid).with_message(m.as_str());
        report.push(d);
        proof {
            w041 = seq![(Code::W041, m@, None)];
        }
    }
    proof {
        let f = granularity_findings(*core, *granularity);
        assert(f =~= e040 + w041);
        let after = report.diagnostics@;
        assert(after.take(start.len() as int) =~= start);
        assert forall|i: int| 0 <= i < f.len() implies unit_diag(#[trigger] after[start.len() + i], f[i].0, *uid, f[i].1, f[i].2) by {
            if i < e040.len() {
                assert(after[start.len() + i] == mid[start.len() + i]);
            }
        }
    }
}

} // verus!
