//! Attributing a unit to the text it came from, and checking the attribution. A quote a
//! model gives for a unit is just another assertion, but one that can be checked against text
//! already held: if it does not occur in the source, it was invented.
//!
//! Three outcomes. Present: the quote occurs in the source once case, whitespace, quotation
//! marks, dashes and Markdown markers are normalised. Loose: every word occurs in order, but
//! not contiguously, as in an elision. Absent: the words are not there in that order.
//! Present means the evidence exists, never that the claim follows from it.

use vstd::prelude::*;

use crate::cbor::envelope::{extra_above, unit_core_encoding};
use crate::cbor::keys;
use crate::diag::Severity;
use crate::hash::{blake3_digest, canonical_uid};
use crate::ids::Uid;
use crate::surface::hjson::{entries_hview, hview, HValue, HView, Spanned};
use crate::surface::payload::{lemma_entries_hview_len, object_at, payload_to_object};
use crate::text::{chars_eq, chars_of, owned, push_char, push_str, str_eq, string_from_range};
use crate::types::unit::UnitCore;
use vstd::string::StringSliceAdditionalSpecFns;
use vstd::utf8::{encode_scalar, encode_utf8};

verus! {

/// The payload key an attributed quote travels under.
pub const QUOTE_KEY: &'static str = "ingest:quote";

/// The lowercase mapping of a character, as `char::to_lowercase` gives it.
pub uninterp spec fn lower_of(c: char) -> Seq<char>;

/// Whether a character is alphabetic or numeric, as `char::is_alphanumeric` says.
pub uninterp spec fn alnum(c: char) -> bool;

/// The lowercase of an ASCII character: a capital letter becomes its small letter, every
/// other ASCII character stays.
pub open spec fn ascii_lower(c: char) -> char {
    if 'A' <= c && c <= 'Z' {
        ((c as u32) + 32) as char
    } else {
        c
    }
}

/// The lowercase form of `c`: `char::to_lowercase`, collected. Of an ASCII character that
/// is the one character `char::to_ascii_lowercase` gives; of any other character the
/// contract says only that it is `lower_of(c)`.
#[verifier::external_body]
fn to_lower(c: char) -> (r: Vec<char>)
    ensures
        r@ == lower_of(c),
        c <= '\u{7f}' ==> r@ == seq![ascii_lower(c)],
{
    c.to_lowercase().collect()
}

/// `char::is_alphanumeric`.
#[verifier::external_body]
fn is_alnum(c: char) -> (r: bool)
    ensures
        r == alnum(c),
{
    c.is_alphanumeric()
}

/// The UTF-8 width of a character.
pub open spec fn clen(c: char) -> int {
    encode_scalar(c as u32).len() as int
}

pub(crate) fn char_len(c: char) -> (n: usize)
    ensures
        n == clen(c),
        1 <= n <= 4,
{
    let v = c as u32;
    proof {
        vstd::utf8::char_is_scalar(c);
    }
    if v < 0x80 {
        1
    } else if v < 0x800 {
        2
    } else if v < 0x10000 {
        3
    } else {
        4
    }
}

/// Encoding a sequence with one more character appends that character's encoding.
pub proof fn lemma_encode_push(a: Seq<char>, c: char)
    ensures
        encode_utf8(a.push(c)) == encode_utf8(a) + encode_scalar(c as u32),
    decreases a.len(),
{
    if a.len() == 0 {
        assert(a.push(c).drop_first() =~= Seq::<char>::empty());
        assert(encode_utf8(Seq::<char>::empty()) =~= Seq::<u8>::empty());
        assert(encode_utf8(a.push(c)) =~= encode_scalar(c as u32) + Seq::<u8>::empty());
        assert(encode_utf8(a) =~= Seq::<u8>::empty());
    } else {
        lemma_encode_push(a.drop_first(), c);
        assert(a.push(c).drop_first() =~= a.drop_first().push(c));
    }
}

/// Encoding a concatenation concatenates the encodings.
pub proof fn lemma_encode_concat(a: Seq<char>, b: Seq<char>)
    ensures
        encode_utf8(a + b) == encode_utf8(a) + encode_utf8(b),
    decreases b.len(),
{
    if b.len() == 0 {
        assert(a + b =~= a);
        assert(encode_utf8(b) =~= Seq::<u8>::empty());
        assert(encode_utf8(a) + encode_utf8(b) =~= encode_utf8(a));
    } else {
        lemma_encode_concat(a, b.drop_last());
        assert(a + b =~= (a + b.drop_last()).push(b.last()));
        assert(b =~= b.drop_last().push(b.last()));
        lemma_encode_push(a + b.drop_last(), b.last());
        lemma_encode_push(b.drop_last(), b.last());
    }
}

/// What normalisation makes of one character before anything else: Markdown code and
/// emphasis markers vanish, every quotation mark is one mark, every dash a hyphen, and a
/// non-breaking space a space. An underscore is kept: in code `foo_bar` is not `foobar`.
pub open spec fn fold(c: char) -> Option<char> {
    if c == '`' || c == '*' {
        None
    } else if c == '\u{2018}' || c == '\u{2019}' || c == '\u{201B}' || c == '\u{201C}' || c == '\u{201D}' || c
        == '\u{201F}' || c == '\'' {
        Some('"')
    } else if ('\u{2010}' <= c && c <= '\u{2015}') || c == '\u{2212}' {
        Some('-')
    } else if c == '\u{A0}' {
        Some(' ')
    } else {
        Some(c)
    }
}

fn fold_char(c: char) -> (r: Option<char>)
    ensures
        r == fold(c),
{
    if c == '`' || c == '*' {
        None
    } else if c == '\u{2018}' || c == '\u{2019}' || c == '\u{201B}' || c == '\u{201C}' || c == '\u{201D}' || c
        == '\u{201F}' || c == '\'' {
        Some('"')
    } else if ('\u{2010}' <= c && c <= '\u{2015}') || c == '\u{2212}' {
        Some('-')
    } else if c == '\u{A0}' {
        Some(' ')
    } else {
        Some(c)
    }
}

/// The quotation marks: straight and curly, single and double.
pub open spec fn quotation_mark(c: char) -> bool {
    c == '"' || c == '\'' || c == '\u{2018}' || c == '\u{2019}' || c == '\u{201B}' || c == '\u{201C}' || c == '\u{201D}'
        || c == '\u{201F}'
}

/// Quotation marks are one mark: normalisation turns every one of them into `"`, and
/// nothing else.
pub proof fn lemma_quotation_marks_are_one(c: char)
    ensures
        quotation_mark(c) <==> fold(c) == Some('"'),
{
}

/// Two texts that differ at most in which quotation mark stands where.
pub open spec fn same_but_marks(a: Seq<char>, b: Seq<char>) -> bool {
    &&& a.len() == b.len()
    &&& forall|i: int| 0 <= i < a.len() ==> a[i] == b[i] || (quotation_mark(a[i]) && quotation_mark(b[i]))
}

/// Characters that fold alike leave the same normal form.
proof fn lemma_norm_fold_alike(a: Seq<char>, b: Seq<char>)
    requires
        a.len() == b.len(),
        forall|i: int| 0 <= i < a.len() ==> fold(#[trigger] a[i]) == fold(b[i]),
    ensures
        norm_state(a).out == norm_state(b).out,
        (norm_state(a).space is Some) == (norm_state(b).space is Some),
    decreases a.len(),
{
    if a.len() > 0 {
        let a1 = a.drop_last();
        let b1 = b.drop_last();
        assert forall|i: int| 0 <= i < a1.len() implies fold(#[trigger] a1[i]) == fold(b1[i]) by {
            assert(a1[i] == a[i] && b1[i] == b[i]);
        }
        lemma_norm_fold_alike(a1, b1);
        assert(fold(a.last()) == fold(b.last()));
    }
}

/// Quotation style does not matter: exchanging any quotation mark for any other, in the quote
/// or in the source, leaves the verdict as it was.
pub proof fn lemma_support_ignores_quote_style(q: Seq<char>, q2: Seq<char>, s: Seq<char>, s2: Seq<char>)
    requires
        same_but_marks(q, q2),
        same_but_marks(s, s2),
    ensures
        support_of(q, s) == support_of(q2, s2),
{
    assert forall|i: int| 0 <= i < q.len() implies fold(#[trigger] q[i]) == fold(q2[i]) by {
        if q[i] != q2[i] {
            lemma_quotation_marks_are_one(q[i]);
            lemma_quotation_marks_are_one(q2[i]);
        }
    }
    assert forall|i: int| 0 <= i < s.len() implies fold(#[trigger] s[i]) == fold(s2[i]) by {
        if s[i] != s2[i] {
            lemma_quotation_marks_are_one(s[i]);
            lemma_quotation_marks_are_one(s2[i]);
        }
    }
    lemma_norm_fold_alike(q, q2);
    lemma_norm_fold_alike(s, s2);
}

/// Where normalisation stands after a prefix of the text: what it has written, for each byte
/// of that the source offset it came from, where a pending run of white space began, where the
/// last content character ends, and the byte offset of the next character.
pub struct NormState {
    pub out: Seq<char>,
    pub map: Seq<int>,
    pub space: Option<int>,
    pub content_ends: int,
    pub at: int,
}

/// One character's effect on the normal form. White space is held back until the next word,
/// and becomes one space, mapped to where the run began; other characters are lowercased and
/// mapped to where they came from.
pub open spec fn norm_step(st: NormState, c: char) -> NormState {
    let next = st.at + clen(c);
    match fold(c) {
        None => NormState { at: next, ..st },
        Some(d) => if crate::text::is_ws(d) {
            NormState { space: if st.space is None { Some(st.at) } else { st.space }, at: next, ..st }
        } else {
            let (out1, map1) = if st.space is Some && st.out.len() > 0 {
                (st.out.push(' '), st.map.push(st.space->Some_0))
            } else {
                (st.out, st.map)
            };
            let out2 = out1 + lower_of(d);
            let grow = encode_utf8(out2).len() - encode_utf8(out1).len();
            NormState {
                out: out2,
                map: map1 + Seq::new(grow as nat, |i: int| st.at),
                space: None,
                content_ends: st.at + clen(d),
                at: next,
            }
        },
    }
}

/// The state after normalising all of `s`.
pub open spec fn norm_state(s: Seq<char>) -> NormState
    decreases s.len(),
{
    if s.len() == 0 {
        NormState { out: Seq::empty(), map: Seq::empty(), space: None, content_ends: 0, at: 0 }
    } else {
        norm_step(norm_state(s.drop_last()), s.last())
    }
}

/// The normal form of a text: case folded, white space runs collapsed to one space and
/// trimmed, quotation marks one mark, dashes hyphens, Markdown markers deleted. No stemming
/// and no synonyms: a reworded claim is not an attributed one.
pub open spec fn norm(s: Seq<char>) -> Seq<char> {
    norm_state(s).out
}

/// For each byte of the normal form of `s`, the byte of `s` it came from, then where the
/// last content character ends.
pub open spec fn norm_map(s: Seq<char>) -> Seq<int> {
    norm_state(s).map.push(norm_state(s).content_ends)
}

/// Normalises `s` and records, for each byte written, the source offset it came from.
fn normalise_mapped(s: &str) -> (r: (String, Vec<usize>))
    ensures
        r.0@ == norm(s@),
        r.1@.len() == norm_map(s@).len(),
        forall|i: int| 0 <= i < r.1@.len() ==> #[trigger] r.1@[i] == norm_map(s@)[i],
{
    let v = chars_of(s);
    let mut out = String::new();
    let mut map: Vec<usize> = Vec::new();
    let mut space: Option<usize> = None;
    let mut content_ends: usize = 0;
    let mut at: usize = 0;
    let mut i: usize = 0;
    let total = s.as_bytes().len();
    assert(v@.take(0) =~= Seq::<char>::empty());
    while i < v.len()
        invariant
            i <= v.len(),
            v@ == s@,
            at == encode_utf8(v@.take(i as int)).len(),
            encode_utf8(v@).len() <= usize::MAX,
            ({
                let st = norm_state(v@.take(i as int));
                &&& out@ == st.out
                &&& map@.len() == st.map.len()
                &&& forall|j: int| 0 <= j < map@.len() ==> #[trigger] map@[j] == st.map[j]
                &&& map@.len() == encode_utf8(out@).len()
                &&& (match space {
                    Some(f) => st.space == Some(f as int),
                    None => st.space is None,
                })
                &&& content_ends == st.content_ends
                &&& st.at == at
                &&& st.content_ends <= at
                &&& (st.space matches Some(f) ==> f <= at)
                &&& (forall|j: int| 0 <= j < map@.len() ==> #[trigger] map@[j] <= at)
            }),
        decreases v.len() - i,
    {
        let c = v[i];
        let cl = char_len(c);
        let ghost pre = v@.take(i as int);
        assert(v@.take(i + 1) =~= pre.push(c));
        proof {
            lemma_encode_push(pre, c);
            lemma_encode_concat(v@.take(i + 1), v@.skip(i + 1));
            assert(v@ =~= v@.take(i + 1) + v@.skip(i + 1));
        }
        let next = at + cl;
        let ghost st = norm_state(pre);
        let ghost st2 = norm_step(st, c);
        assert(norm_state(v@.take(i + 1)) == st2) by {
            assert(v@.take(i + 1).drop_last() =~= pre);
        }
        proof {
            lemma_fold_width(c);
        }
        match fold_char(c) {
            None => {},
            Some(d) => {
                if is_ws_char(d) {
                    if space.is_none() {
                        space = Some(at);
                    }
                } else {
                    let ghost out0 = out@;
                    let ghost smap1 = if st.space is Some && st.out.len() > 0 {
                        st.map.push(st.space->Some_0)
                    } else {
                        st.map
                    };
                    let ghost sout1 = if st.space is Some && st.out.len() > 0 {
                        st.out.push(' ')
                    } else {
                        st.out
                    };
                    if let Some(from) = space {
                        if out.as_str().as_bytes().len() > 0 {
                            push_char(&mut out, ' ');
                            map.push(from);
                            proof {
                                lemma_encode_push(out0, ' ');
                                assert(out0.len() > 0) by {
                                    if out0.len() == 0 {
                                        assert(encode_utf8(out0) =~= Seq::<u8>::empty());
                                    }
                                }
                            }
                        } else {
                            proof {
                                assert(out0.len() == 0) by {
                                    if out0.len() > 0 {
                                        vstd::utf8::char_is_scalar(out0[0]);
                                        assert(out0 =~= seq![out0[0]] + out0.drop_first());
                                        lemma_encode_concat(seq![out0[0]], out0.drop_first());
                                        assert(seq![out0[0]].drop_first() =~= Seq::<char>::empty());
                                    }
                                }
                            }
                        }
                    }
                    space = None;
                    let ghost out1 = out@;
                    let ghost map1 = map@;
                    assert(out1 == sout1);
                    assert(map1.len() == smap1.len());
                    assert(forall|j: int| 0 <= j < map1.len() ==> #[trigger] map1[j] == smap1[j]);
                    assert(map1.len() == encode_utf8(out1).len());
                    let lower = to_lower(d);
                    let before = out.as_str().as_bytes().len();
                    let mut k: usize = 0;
                    while k < lower.len()
                        invariant
                            k <= lower.len(),
                            out@ == out1 + lower@.take(k as int),
                        decreases lower.len() - k,
                    {
                        push_char(&mut out, lower[k]);
                        assert(lower@.take(k + 1) =~= lower@.take(k as int).push(lower@[k as int]));
                        k = k + 1;
                    }
                    assert(lower@.take(lower.len() as int) =~= lower@);
                    let after = out.as_str().as_bytes().len();
                    proof {
                        lemma_encode_concat(out1, lower@);
                    }
                    while map.len() < after
                        invariant
                            map1.len() <= map@.len() <= after,
                            forall|j: int| 0 <= j < map1.len() ==> #[trigger] map@[j] == map1[j],
                            forall|j: int| map1.len() <= j < map@.len() ==> #[trigger] map@[j] == at,
                        decreases after - map.len(),
                    {
                        map.push(at);
                    }
                    content_ends = at + char_len(d);
                    proof {
                        assert(out@ =~= out1 + lower_of(d));
                        assert(st2.out == out@);
                        assert(st2.map.len() == map@.len());
                        assert forall|j: int| 0 <= j < map@.len() implies #[trigger] map@[j] == st2.map[j] by {
                            if j < map1.len() {
                                assert(map@[j] == map1[j]);
                            }
                        }
                    }
                }
            },
        }
        at = next;
        i = i + 1;
    }
    assert(v@.take(v.len() as int) =~= v@);
    map.push(content_ends);
    (out, map)
}

/// Folding never widens a character.
proof fn lemma_fold_width(c: char)
    ensures
        fold(c) matches Some(d) ==> clen(d) <= clen(c),
{
    vstd::utf8::char_is_scalar(c);
}

fn is_ws_char(c: char) -> (r: bool)
    ensures
        r == crate::text::is_ws(c),
{
    crate::text::is_whitespace(c)
}


/// The normal form of `s`: case folded, white space runs collapsed to one space and trimmed,
/// quotation marks one mark, dashes hyphens, Markdown code and emphasis markers deleted, an
/// underscore kept.
pub fn normalise(s: &str) -> (r: String)
    ensures
        r@ == norm(s@),
{
    let (out, _map) = normalise_mapped(s);
    out
}

/// The number of bytes the first `i` characters of `s` take in UTF-8.
pub open spec fn byte_at(s: Seq<char>, i: int) -> int {
    encode_utf8(s.take(i)).len() as int
}

/// For each character position of `v`, and its end, the byte offset it stands at.
pub(crate) fn byte_offsets(v: &Vec<char>) -> (r: Vec<usize>)
    requires
        encode_utf8(v@).len() <= usize::MAX,
    ensures
        r@.len() == v@.len() + 1,
        forall|i: int| 0 <= i <= v@.len() ==> #[trigger] r@[i] == byte_at(v@, i),
{
    let mut r: Vec<usize> = Vec::new();
    let mut at: usize = 0;
    let mut i: usize = 0;
    assert(v@.take(0) =~= Seq::<char>::empty());
    while i < v.len()
        invariant
            i <= v.len(),
            r@.len() == i,
            at == byte_at(v@, i as int),
            encode_utf8(v@).len() <= usize::MAX,
            forall|j: int| 0 <= j < i ==> #[trigger] r@[j] == byte_at(v@, j),
        decreases v.len() - i,
    {
        r.push(at);
        let c = v[i];
        proof {
            lemma_encode_push(v@.take(i as int), c);
            assert(v@.take(i + 1) =~= v@.take(i as int).push(c));
            lemma_encode_concat(v@.take(i + 1), v@.skip(i + 1));
            assert(v@ =~= v@.take(i + 1) + v@.skip(i + 1));
        }
        at = at + char_len(c);
        i = i + 1;
    }
    assert(v@.take(v.len() as int) =~= v@);
    r.push(at);
    r
}

/// How a left-to-right scan for words stands: the words closed so far, as character spans,
/// and where the open word began.
pub struct WordScan {
    pub spans: Seq<(int, int)>,
    pub start: Option<int>,
}

pub open spec fn scan_words(s: Seq<char>) -> WordScan
    decreases s.len(),
{
    if s.len() == 0 {
        WordScan { spans: Seq::empty(), start: None }
    } else {
        let st = scan_words(s.drop_last());
        let i = s.len() - 1;
        if crate::text::is_ws(s.last()) {
            match st.start {
                Some(b) => WordScan { spans: st.spans.push((b, i)), start: None },
                None => st,
            }
        } else {
            match st.start {
                None => WordScan { spans: st.spans, start: Some(i) },
                Some(_) => st,
            }
        }
    }
}

/// The character spans of the white-space separated words of `s`, in order.
pub open spec fn word_spans(s: Seq<char>) -> Seq<(int, int)> {
    let st = scan_words(s);
    match st.start {
        Some(b) => st.spans.push((b, s.len() as int)),
        None => st.spans,
    }
}

/// The white-space separated words of `s`.
pub open spec fn words(s: Seq<char>) -> Seq<Seq<char>> {
    word_spans(s).map_values(|sp: (int, int)| s.subrange(sp.0, sp.1))
}

/// The word spans of `v`, as character positions.
fn word_spans_of(v: &Vec<char>) -> (r: Vec<(usize, usize)>)
    ensures
        r@.len() == word_spans(v@).len(),
        forall|k: int|
            0 <= k < r@.len() ==> (#[trigger] r@[k]).0 == word_spans(v@)[k].0 && r@[k].1
                == word_spans(v@)[k].1 && r@[k].0 < r@[k].1 <= v@.len(),
{
    let mut r: Vec<(usize, usize)> = Vec::new();
    let mut start: Option<usize> = None;
    let mut i: usize = 0;
    assert(v@.take(0) =~= Seq::<char>::empty());
    while i < v.len()
        invariant
            i <= v.len(),
            ({
                let st = scan_words(v@.take(i as int));
                &&& r@.len() == st.spans.len()
                &&& forall|k: int|
                    0 <= k < r@.len() ==> (#[trigger] r@[k]).0 == st.spans[k].0 && r@[k].1
                        == st.spans[k].1 && r@[k].0 < r@[k].1 <= i
                &&& match start {
                    Some(b) => st.start == Some(b as int) && b < i,
                    None => st.start is None,
                }
            }),
        decreases v.len() - i,
    {
        let c = v[i];
        assert(v@.take(i + 1).drop_last() =~= v@.take(i as int));
        assert(v@.take(i + 1).last() == c);
        if crate::text::is_whitespace(c) {
            if let Some(b) = start {
                r.push((b, i));
                start = None;
            }
        } else {
            if start.is_none() {
                start = Some(i);
            }
        }
        i = i + 1;
    }
    assert(v@.take(v.len() as int) =~= v@);
    if let Some(b) = start {
        r.push((b, v.len()));
    }
    r
}

/// The length of the run of characters at and after `i` that are neither letters nor digits,
/// plus `i`: where a word's leading punctuation ends.
pub open spec fn lead_end(w: Seq<char>, i: int) -> int
    decreases w.len() - i,
{
    if i < 0 || i >= w.len() || alnum(w[i]) {
        i
    } else {
        lead_end(w, i + 1)
    }
}

/// Where a word's trailing punctuation, ending at `j`, begins.
pub open spec fn trail_start(w: Seq<char>, j: int) -> int
    decreases j,
{
    if j <= 0 || j > w.len() || alnum(w[j - 1]) {
        j
    } else {
        trail_start(w, j - 1)
    }
}

/// A word with the characters at its edges that are neither letters nor digits removed:
/// `saturated,` and `(saturated` are `saturated`; `c-produce` and `2026-07-22` keep their
/// inner punctuation. A word with no letter or digit is empty.
pub open spec fn bare_view(w: Seq<char>) -> Seq<char> {
    let a = lead_end(w, 0);
    let b = trail_start(w, w.len() as int);
    if a < b {
        w.subrange(a, b)
    } else {
        Seq::empty()
    }
}

proof fn lemma_lead_end(w: Seq<char>, i: int)
    requires
        0 <= i <= w.len(),
    ensures
        i <= lead_end(w, i) <= w.len(),
        forall|k: int| i <= k < lead_end(w, i) ==> !alnum(#[trigger] w[k]),
        lead_end(w, i) < w.len() ==> alnum(w[lead_end(w, i)]),
    decreases w.len() - i,
{
    if i < w.len() && !alnum(w[i]) {
        lemma_lead_end(w, i + 1);
    }
}

proof fn lemma_trail_start(w: Seq<char>, j: int)
    requires
        0 <= j <= w.len(),
    ensures
        0 <= trail_start(w, j) <= j,
        forall|k: int| trail_start(w, j) <= k < j ==> !alnum(#[trigger] w[k]),
        trail_start(w, j) > 0 ==> alnum(w[trail_start(w, j) - 1]),
    decreases j,
{
    if j > 0 && !alnum(w[j - 1]) {
        lemma_trail_start(w, j - 1);
    }
}

/// `w` with its edge punctuation removed.
fn bare_chars(w: &Vec<char>) -> (r: Vec<char>)
    ensures
        r@ == bare_view(w@),
{
    let mut a: usize = 0;
    while a < w.len() && !is_alnum(w[a])
        invariant
            a <= w.len(),
            lead_end(w@, 0) == lead_end(w@, a as int),
        decreases w.len() - a,
    {
        a = a + 1;
    }
    let mut b: usize = w.len();
    while b > 0 && !is_alnum(w[b - 1])
        invariant
            b <= w.len(),
            trail_start(w@, w@.len() as int) == trail_start(w@, b as int),
        decreases b,
    {
        b = b - 1;
    }
    let mut r: Vec<char> = Vec::new();
    if a < b {
        let mut k = a;
        while k < b
            invariant
                a <= k <= b,
                b <= w.len(),
                r@ == w@.subrange(a as int, k as int),
            decreases b - k,
        {
            r.push(w[k]);
            assert(w@.subrange(a as int, k + 1) =~= w@.subrange(a as int, k as int).push(w@[k as int]));
            k = k + 1;
        }
    }
    r
}

/// Whether a token is an elision marker: nothing but `.`, `…`, `[` and `]`, and not empty.
pub open spec fn elision_view(t: Seq<char>) -> bool {
    t.len() > 0 && forall|i: int|
        0 <= i < t.len() ==> #[trigger] t[i] == '.' || t[i] == '\u{2026}' || t[i] == '[' || t[i]
            == ']'
}

fn elision_chars(t: &Vec<char>) -> (r: bool)
    ensures
        r == elision_view(t@),
{
    if t.len() == 0 {
        return false;
    }
    let mut i: usize = 0;
    while i < t.len()
        invariant
            i <= t.len(),
            forall|j: int|
                0 <= j < i ==> #[trigger] t@[j] == '.' || t@[j] == '\u{2026}' || t@[j] == '['
                    || t@[j] == ']',
        decreases t.len() - i,
    {
        let c = t[i];
        if !(c == '.' || c == '\u{2026}' || c == '[' || c == ']') {
            return false;
        }
        i = i + 1;
    }
    true
}

/// Whether a token is an elision marker rather than a word to find: `...`, `…` and `[...]`
/// say that something was left out, and are never words of the source.
pub fn is_elision(token: &str) -> (r: bool)
    ensures
        r == elision_view(token@),
{
    let t = chars_of(token);
    elision_chars(&t)
}

/// The words of a quote that are looked for: elision markers dropped, edge punctuation
/// removed, and words left empty by that dropped.
pub open spec fn keep_words(ws: Seq<Seq<char>>) -> Seq<Seq<char>>
    decreases ws.len(),
{
    if ws.len() == 0 {
        Seq::empty()
    } else {
        let rest = keep_words(ws.drop_last());
        let w = ws.last();
        if elision_view(w) || bare_view(w).len() == 0 {
            rest
        } else {
            rest.push(bare_view(w))
        }
    }
}

pub open spec fn needle_words(q: Seq<char>) -> Seq<Seq<char>> {
    keep_words(words(q))
}

/// The words of a text with their edge punctuation removed, in order.
pub open spec fn hay_words(s: Seq<char>) -> Seq<Seq<char>> {
    words(s).map_values(|w: Seq<char>| bare_view(w))
}

/// The first position at or after `at` where `hay` holds `w`.
pub open spec fn first_match(hay: Seq<Seq<char>>, w: Seq<char>, at: int) -> Option<int>
    decreases hay.len() - at,
{
    if at < 0 || at >= hay.len() {
        None
    } else if hay[at] == w {
        Some(at)
    } else {
        first_match(hay, w, at + 1)
    }
}

/// The earliest embedding of `qw` in `hay` from `at` on: each word matched at the first
/// place it occurs after the previous one.
pub open spec fn greedy(qw: Seq<Seq<char>>, hay: Seq<Seq<char>>, at: int) -> Option<Seq<int>>
    decreases qw.len(),
{
    if qw.len() == 0 {
        Some(Seq::empty())
    } else {
        match first_match(hay, qw[0], at) {
            None => None,
            Some(k) => match greedy(qw.drop_first(), hay, k + 1) {
                None => None,
                Some(rest) => Some(seq![k] + rest),
            },
        }
    }
}

/// Where the words of `q` occur in order in `s`, as byte offsets into `s`: from the start of
/// the first word matched to the end of the last, taking the earliest embedding. `None` when
/// they do not, and always for a quote with no words.
pub open spec fn loose_region(q: Seq<char>, s: Seq<char>) -> Option<(int, int)> {
    let qw = needle_words(q);
    let sp = word_spans(s);
    if qw.len() == 0 {
        None
    } else {
        match greedy(qw, hay_words(s), 0) {
            None => None,
            Some(ix) => Some((byte_at(s, sp[ix[0]].0), byte_at(s, sp[ix.last()].1))),
        }
    }
}

proof fn lemma_first_match(hay: Seq<Seq<char>>, w: Seq<char>, at: int)
    requires
        0 <= at,
    ensures
        first_match(hay, w, at) matches Some(k) ==> at <= k < hay.len() && hay[k] == w,
    decreases hay.len() - at,
{
    if at < hay.len() && hay[at] != w {
        lemma_first_match(hay, w, at + 1);
    }
}

proof fn lemma_greedy(qw: Seq<Seq<char>>, hay: Seq<Seq<char>>, at: int)
    requires
        0 <= at,
    ensures
        greedy(qw, hay, at) matches Some(ix) ==> ix.len() == qw.len() && (forall|j: int|
            0 <= j < ix.len() ==> at <= #[trigger] ix[j] < hay.len()),
    decreases qw.len(),
{
    if qw.len() > 0 {
        lemma_first_match(hay, qw[0], at);
        if let Some(k) = first_match(hay, qw[0], at) {
            lemma_greedy(qw.drop_first(), hay, k + 1);
        }
    }
}

/// The words of `v` that a quote looks for.
fn needle_words_of(v: &Vec<char>) -> (r: Vec<Vec<char>>)
    ensures
        r@.len() == needle_words(v@).len(),
        forall|k: int| 0 <= k < r@.len() ==> (#[trigger] r@[k])@ == needle_words(v@)[k],
{
    let spans = word_spans_of(v);
    let ghost ws = words(v@);
    let mut r: Vec<Vec<char>> = Vec::new();
    let mut k: usize = 0;
    assert(ws.take(0) =~= Seq::<Seq<char>>::empty());
    while k < spans.len()
        invariant
            k <= spans.len(),
            spans@.len() == word_spans(v@).len(),
            ws == words(v@),
            forall|m: int|
                0 <= m < spans@.len() ==> (#[trigger] spans@[m]).0 == word_spans(v@)[m].0
                    && spans@[m].1 == word_spans(v@)[m].1 && spans@[m].0 < spans@[m].1 <= v@.len(),
            r@.len() == keep_words(ws.take(k as int)).len(),
            forall|m: int|
                0 <= m < r@.len() ==> (#[trigger] r@[m])@ == keep_words(ws.take(k as int))[m],
        decreases spans.len() - k,
    {
        let (a, b) = spans[k];
        let mut w: Vec<char> = Vec::new();
        let mut j = a;
        while j < b
            invariant
                a <= j <= b,
                b <= v.len(),
                w@ == v@.subrange(a as int, j as int),
            decreases b - j,
        {
            w.push(v[j]);
            assert(v@.subrange(a as int, j + 1) =~= v@.subrange(a as int, j as int).push(v@[j as int]));
            j = j + 1;
        }
        assert(w@ == ws[k as int]);
        assert(ws.take(k + 1).drop_last() =~= ws.take(k as int));
        assert(ws.take(k + 1).last() == ws[k as int]);
        if !elision_chars(&w) {
            let bw = bare_chars(&w);
            if bw.len() > 0 {
                r.push(bw);
            }
        }
        k = k + 1;
    }
    assert(ws.take(spans.len() as int) =~= ws);
    r
}

/// The edge-stripped words of `v`, with the character span each came from.
fn hay_words_of(v: &Vec<char>) -> (r: (Vec<Vec<char>>, Vec<(usize, usize)>))
    ensures
        r.0@.len() == hay_words(v@).len(),
        r.1@.len() == word_spans(v@).len(),
        forall|k: int| 0 <= k < r.0@.len() ==> (#[trigger] r.0@[k])@ == hay_words(v@)[k],
        forall|k: int|
            0 <= k < r.1@.len() ==> (#[trigger] r.1@[k]).0 == word_spans(v@)[k].0 && r.1@[k].1
                == word_spans(v@)[k].1 && r.1@[k].0 < r.1@[k].1 <= v@.len(),
{
    let spans = word_spans_of(v);
    let mut r: Vec<Vec<char>> = Vec::new();
    let mut k: usize = 0;
    while k < spans.len()
        invariant
            k <= spans.len(),
            spans@.len() == word_spans(v@).len(),
            forall|m: int|
                0 <= m < spans@.len() ==> (#[trigger] spans@[m]).0 == word_spans(v@)[m].0
                    && spans@[m].1 == word_spans(v@)[m].1 && spans@[m].0 < spans@[m].1 <= v@.len(),
            r@.len() == k,
            forall|m: int| 0 <= m < k ==> (#[trigger] r@[m])@ == hay_words(v@)[m],
        decreases spans.len() - k,
    {
        let (a, b) = spans[k];
        let mut w: Vec<char> = Vec::new();
        let mut j = a;
        while j < b
            invariant
                a <= j <= b,
                b <= v.len(),
                w@ == v@.subrange(a as int, j as int),
            decreases b - j,
        {
            w.push(v[j]);
            assert(v@.subrange(a as int, j + 1) =~= v@.subrange(a as int, j as int).push(v@[j as int]));
            j = j + 1;
        }
        let bw = bare_chars(&w);
        r.push(bw);
        k = k + 1;
    }
    (r, spans)
}

/// The first position at or after `from` where `hay` holds `w`.
fn find_word(hay: &Vec<Vec<char>>, word: &Vec<char>, from: usize) -> (r: Option<usize>)
    requires
        from <= hay.len(),
    ensures
        r == (match first_match(hay@.map_values(|w: Vec<char>| w@), word@, from as int) {
            Some(k) => Some(k as usize),
            None => None::<usize>,
        }),
        r matches Some(k) ==> from <= k < hay.len(),
{
    let ghost hs = hay@.map_values(|w: Vec<char>| w@);
    let mut k = from;
    while k < hay.len()
        invariant
            from <= k <= hay.len(),
            hs == hay@.map_values(|w: Vec<char>| w@),
            first_match(hs, word@, from as int) == first_match(hs, word@, k as int),
        decreases hay.len() - k,
    {
        if chars_eq(&hay[k], word) {
            return Some(k);
        }
        k = k + 1;
    }
    None
}

/// The earliest embedding of the quote's words in the text's, found left to right.
fn greedy_of(qw: &Vec<Vec<char>>, hay: &Vec<Vec<char>>) -> (r: Option<Vec<usize>>)
    ensures
        ({
            let qs = qw@.map_values(|w: Vec<char>| w@);
            let hs = hay@.map_values(|w: Vec<char>| w@);
            match r {
                Some(ix) => greedy(qs, hs, 0) matches Some(g) && ix@.len() == g.len() && forall|
                    j: int,
                | 0 <= j < g.len() ==> #[trigger] ix@[j] == g[j],
                None => greedy(qs, hs, 0) is None,
            }
        }),
{
    let ghost qs = qw@.map_values(|w: Vec<char>| w@);
    let ghost hs = hay@.map_values(|w: Vec<char>| w@);
    let mut found: Vec<usize> = Vec::new();
    let mut at: usize = 0;
    let mut n: usize = 0;
    assert(qs.skip(0) =~= qs);
    while n < qw.len()
        invariant
            n <= qw.len(),
            at <= hay.len(),
            qs == qw@.map_values(|w: Vec<char>| w@),
            hs == hay@.map_values(|w: Vec<char>| w@),
            found@.len() == n,
            greedy(qs, hs, 0) == (match greedy(qs.skip(n as int), hs, at as int) {
                None => None,
                Some(rest) => Some(found@.map_values(|x: usize| x as int) + rest),
            }),
        decreases qw.len() - n,
    {
        let ghost tail = qs.skip(n as int);
        assert(tail.drop_first() =~= qs.skip(n + 1));
        assert(tail[0] == qw@[n as int]@);
        let hit = find_word(hay, &qw[n], at);
        match hit {
            None => {
                return None;
            },
            Some(k) => {
                let ghost old_found = found@;
                found.push(k);
                assert(found@.map_values(|x: usize| x as int) =~= old_found.map_values(|x: usize| x as int)
                    + seq![k as int]);
                proof {
                    lemma_first_match(hs, tail[0], at as int);
                    assert(first_match(hs, tail[0], at as int) == Some(k as int));
                    assert(greedy(tail, hs, at as int) == (match greedy(qs.skip(n + 1), hs, k + 1) {
                        None => None,
                        Some(rest) => Some(seq![k as int] + rest),
                    }));
                    match greedy(qs.skip(n + 1), hs, k + 1) {
                        None => {},
                        Some(rest) => {
                            assert(old_found.map_values(|x: usize| x as int) + (seq![k as int] + rest)
                                =~= found@.map_values(|x: usize| x as int) + rest);
                        },
                    }
                }
                at = k + 1;
            },
        }
        n = n + 1;
    }
    proof {
        assert(qs.skip(n as int).len() == 0);
        assert(found@.map_values(|x: usize| x as int) + Seq::<int>::empty() =~= found@.map_values(
            |x: usize| x as int,
        ));
    }
    Some(found)
}

/// Where the words of `needle` occur in order in `haystack`, allowing gaps: from the start of
/// the first word matched to the end of the last, as byte offsets into `haystack`, taking the
/// earliest embedding. Words are compared whole after their edge punctuation is removed, and
/// elision markers are not looked for.
fn loose_span(needle: &str, haystack: &str) -> (r: Option<(usize, usize)>)
    ensures
        match loose_region(needle@, haystack@) {
            Some((a, b)) => r matches Some((x, y)) && x == a && y == b,
            None => r is None,
        },
{
    let qv = chars_of(needle);
    let qw = needle_words_of(&qv);
    assert(qw@.map_values(|w: Vec<char>| w@) =~= needle_words(needle@));
    if qw.len() == 0 {
        return None;
    }
    let hv = chars_of(haystack);
    let total = haystack.as_bytes().len();
    let (hw, spans) = hay_words_of(&hv);
    assert(hw@.map_values(|w: Vec<char>| w@) =~= hay_words(haystack@));
    let offs = byte_offsets(&hv);
    match greedy_of(&qw, &hw) {
        None => None,
        Some(ix) => {
            proof {
                lemma_greedy(needle_words(needle@), hay_words(haystack@), 0);
            }
            let f = ix[0];
            let l = ix[ix.len() - 1];
            let a = offs[spans[f].0];
            let b = offs[spans[l].1];
            Some((a, b))
        },
    }
}

/// Whether `needle`'s words appear in `haystack` in order, allowing gaps.
fn words_in_order(needle: &str, haystack: &str) -> (r: bool)
    ensures
        r == loose_region(needle@, haystack@) is Some,
{
    loose_span(needle, haystack).is_some()
}

/// Whether `q` occurs in `s` starting at character `i`.
pub open spec fn occurs_at(s: Seq<char>, q: Seq<char>, i: int) -> bool {
    0 <= i && i + q.len() <= s.len() && s.subrange(i, i + q.len()) == q
}

/// The first character position at or after `i` where `q` occurs in `s`.
pub open spec fn find_from(s: Seq<char>, q: Seq<char>, i: int) -> Option<int>
    decreases s.len() + 1 - i,
{
    if i < 0 || i > s.len() || i + q.len() > s.len() {
        None
    } else if s.subrange(i, i + q.len()) == q {
        Some(i)
    } else {
        find_from(s, q, i + 1)
    }
}

/// `find_from` finds the first occurrence, and finds one whenever there is one.
pub proof fn lemma_find_from(s: Seq<char>, q: Seq<char>, i: int)
    requires
        0 <= i,
    ensures
        find_from(s, q, i) matches Some(k) ==> i <= k && occurs_at(s, q, k) && forall|j: int|
            i <= j < k ==> !occurs_at(s, q, j),
        find_from(s, q, i) is None ==> forall|j: int| i <= j ==> !occurs_at(s, q, j),
    decreases s.len() + 1 - i,
{
    if i <= s.len() && i + q.len() <= s.len() && s.subrange(i, i + q.len()) != q {
        lemma_find_from(s, q, i + 1);
    }
}

/// The first position where `q` occurs in `s`.
fn find_chars(s: &Vec<char>, q: &Vec<char>) -> (r: Option<usize>)
    ensures
        r == (match find_from(s@, q@, 0) {
            Some(k) => Some(k as usize),
            None => None::<usize>,
        }),
        r matches Some(k) ==> k + q.len() <= s.len(),
{
    proof {
        lemma_find_from(s@, q@, 0);
    }
    if q.len() > s.len() {
        return None;
    }
    let mut i: usize = 0;
    let last = s.len() - q.len();
    while i <= last
        invariant
            last == s.len() - q.len(),
            i <= last + 1,
            q.len() <= s.len(),
            find_from(s@, q@, 0) == find_from(s@, q@, i as int),
        decreases last + 1 - i,
    {
        let mut j: usize = 0;
        let mut same = true;
        while j < q.len()
            invariant
                j <= q.len(),
                i + q.len() <= s.len(),
                same == (forall|m: int| 0 <= m < j ==> s@[i + m] == q@[m]),
            decreases q.len() - j,
        {
            if s[i + j] != q[j] {
                same = false;
            }
            j = j + 1;
        }
        if same {
            assert(s@.subrange(i as int, i + q.len()) =~= q@);
            return Some(i);
        } else {
            assert(s@.subrange(i as int, i + q.len()) != q@) by {
                let m = choose|m: int| 0 <= m < q.len() && s@[i + m] != q@[m];
                assert(s@.subrange(i as int, i + q.len())[m] != q@[m]);
            }
        }
        i = i + 1;
    }
    None
}

/// How well a quote is supported by the text it claims to come from.
#[derive(Debug, Clone, Copy, PartialEq, Eq, Structural)]
#[non_exhaustive]
pub enum Support {
    Present,
    Loose,
    Absent,
}

/// How well `source` supports `quote`. Both are normalised first; then the quote is
/// `Present` if it occurs contiguously, `Loose` if its words occur in order with gaps, and
/// `Absent` otherwise, and always when it has nothing left after normalising.
pub open spec fn support_of(quote: Seq<char>, source: Seq<char>) -> Support {
    support_normal_of(norm(quote), norm(source))
}

/// How well an already normalised source `s` supports an already normalised quote `q`.
pub open spec fn support_normal_of(q: Seq<char>, s: Seq<char>) -> Support {
    if q.len() == 0 {
        Support::Absent
    } else if exists|i: int| occurs_at(s, q, i) {
        Support::Present
    } else if loose_region(q, s) is Some {
        Support::Loose
    } else {
        Support::Absent
    }
}

/// How well the source supports a quote: `Present` if the normalised quote occurs
/// contiguously in the normalised source, `Loose` if its words occur in order with gaps,
/// compared whole after their edge punctuation is removed and ignoring elision markers,
/// `Absent` otherwise and always for a quote with no words. No stemming and no synonyms.
pub fn support(quote: &str, source: &str) -> (r: Support)
    ensures
        r == support_of(quote@, source@),
{
    let q = normalise(quote);
    let s = normalise(source);
    support_normal(q.as_str(), s.as_str())
}

/// How well a normalised source supports a normalised quote, as [`support`] decides once
/// both are normalised: `Present` for a contiguous occurrence, `Loose` for its words in
/// order with gaps, `Absent` otherwise and always for an empty quote.
pub fn support_normal(q: &str, s: &str) -> (r: Support)
    ensures
        r == support_normal_of(q@, s@),
{
    if q.as_bytes().len() == 0 {
        proof {
            empty_encoding(q@);
        }
        return Support::Absent;
    }
    proof {
        empty_encoding(q@);
    }
    let qv = chars_of(q);
    let sv = chars_of(s);
    proof {
        lemma_find_from(sv@, qv@, 0);
    }
    if find_chars(&sv, &qv).is_some() {
        return Support::Present;
    }
    if words_in_order(q, s) {
        return Support::Loose;
    }
    Support::Absent
}

/// A text encodes to no bytes exactly when it has no characters.
proof fn empty_encoding(s: Seq<char>)
    ensures
        (encode_utf8(s).len() == 0) == (s.len() == 0),
{
    if s.len() == 0 {
        assert(encode_utf8(s) =~= Seq::<u8>::empty());
    } else {
        vstd::utf8::char_is_scalar(s[0]);
        assert(s =~= seq![s[0]] + s.drop_first());
        lemma_encode_concat(seq![s[0]], s.drop_first());
        assert(seq![s[0]].drop_first() =~= Seq::<char>::empty());
    }
}

/// The source offset a byte of the normal form came from, or `len` past its end.
pub open spec fn source_at(map: Seq<int>, i: int, len: int) -> int {
    if 0 <= i < map.len() {
        map[i]
    } else {
        len
    }
}

/// Where in `source` the match `support_of` found lies, as byte offsets into `source` as
/// given: the contiguous match when the quote is present, from the first word matched to the
/// last when it is loose, and nothing when it is absent.
pub open spec fn span_of(quote: Seq<char>, source: Seq<char>) -> Option<(int, int)> {
    let q = norm(quote);
    let s = norm(source);
    let m = norm_map(source);
    let len = encode_utf8(source).len() as int;
    if q.len() == 0 {
        None
    } else {
        match find_from(s, q, 0) {
            Some(k) => Some(
                (source_at(m, byte_at(s, k), len), source_at(m, byte_at(s, k + q.len()), len)),
            ),
            None => match loose_region(q, s) {
                Some((a, b)) => Some((source_at(m, a, len), source_at(m, b, len))),
                None => None,
            },
        }
    }
}

/// Whether a range holds the offsets `o` names.
pub open spec fn range_is(r: Option<core::ops::Range<usize>>, o: Option<(int, int)>) -> bool {
    match r {
        Some(rg) => o == Some((rg.start as int, rg.end as int)),
        None => o is None,
    }
}

fn map_at(map: &Vec<usize>, i: usize, dflt: usize) -> (r: usize)
    ensures
        r == (if i < map@.len() {
            map@[i as int]
        } else {
            dflt
        }),
{
    if i < map.len() {
        map[i]
    } else {
        dflt
    }
}

/// `support`, and where in `source` the match was found: bytes into `source` as given, not
/// into its normal form. `Present` spans the contiguous match, `Loose` runs from the first
/// word matched to the last, taking the earliest embedding, and `Absent` has no range.
pub fn support_span(quote: &str, source: &str) -> (r: (Support, Option<core::ops::Range<usize>>))
    ensures
        r.0 == support_of(quote@, source@),
        range_is(r.1, span_of(quote@, source@)),
{
    let q = normalise(quote);
    proof {
        empty_encoding(q@);
    }
    if q.as_str().as_bytes().len() == 0 {
        return (Support::Absent, None);
    }
    let (s, map) = normalise_mapped(source);
    let total = source.as_bytes().len();
    let ghost m = norm_map(source@);
    let qv = chars_of(q.as_str());
    let sv = chars_of(s.as_str());
    let slen = s.as_str().as_bytes().len();
    proof {
        lemma_find_from(sv@, qv@, 0);
    }
    match find_chars(&sv, &qv) {
        Some(k) => {
            let offs = byte_offsets(&sv);
            let a = map_at(&map, offs[k], total);
            let b = map_at(&map, offs[k + qv.len()], total);
            return (Support::Present, Some(a..b));
        },
        None => {},
    }
    match loose_span(q.as_str(), s.as_str()) {
        Some((x, y)) => {
            let a = map_at(&map, x, total);
            let b = map_at(&map, y, total);
            (Support::Loose, Some(a..b))
        },
        None => (Support::Absent, None),
    }
}

/// The first source, from `from` on, that supports `quote` at `level`.
pub open spec fn first_at_level(quote: Seq<char>, texts: Seq<Seq<char>>, level: Support, from: int) -> Option<int>
    decreases texts.len() - from,
{
    if from < 0 || from >= texts.len() {
        None
    } else if support_of(quote, texts[from]) == level {
        Some(from)
    } else {
        first_at_level(quote, texts, level, from + 1)
    }
}

/// The texts of named sources.
pub open spec fn texts_of(sources: Seq<(&str, &str)>) -> Seq<Seq<char>> {
    sources.map_values(|p: (&str, &str)| p.1@)
}

proof fn lemma_first_at_level(quote: Seq<char>, texts: Seq<Seq<char>>, level: Support, from: int)
    requires
        0 <= from,
    ensures
        first_at_level(quote, texts, level, from) matches Some(k) ==> from <= k < texts.len(),
    decreases texts.len() - from,
{
    if from < texts.len() && support_of(quote, texts[from]) != level {
        lemma_first_at_level(quote, texts, level, from + 1);
    }
}

/// How well any of several named sources supports a quote, and which one. `Present` anywhere
/// beats `Loose` anywhere, whatever order the sources are listed in; between sources of equal
/// support the first listed wins.
pub fn support_in<'a>(quote: &str, sources: &[(&'a str, &str)]) -> (r: (Support, Option<&'a str>))
    ensures
        match first_at_level(quote@, texts_of(sources@), Support::Present, 0) {
            Some(k) => r == (Support::Present, Some(sources@[k].0)),
            None => match first_at_level(quote@, texts_of(sources@), Support::Loose, 0) {
                Some(k) => r == (Support::Loose, Some(sources@[k].0)),
                None => r == (Support::Absent, None::<&'a str>),
            },
        },
{
    let ghost texts = texts_of(sources@);
    let mut loose: Option<usize> = None;
    let mut i: usize = 0;
    while i < sources.len()
        invariant
            i <= sources.len(),
            texts == texts_of(sources@),
            first_at_level(quote@, texts, Support::Present, 0) == first_at_level(
                quote@,
                texts,
                Support::Present,
                i as int,
            ),
            match loose {
                Some(k) => k < i && first_at_level(quote@, texts, Support::Loose, 0) == Some(k as int),
                None => first_at_level(quote@, texts, Support::Loose, 0) == first_at_level(
                    quote@,
                    texts,
                    Support::Loose,
                    i as int,
                ),
            },
        decreases sources.len() - i,
    {
        let (name, text) = sources[i];
        let v = support(quote, text);
        if v == Support::Present {
            return (Support::Present, Some(name));
        }
        if v == Support::Loose && loose.is_none() {
            loose = Some(i);
        }
        i = i + 1;
    }
    match loose {
        Some(k) => (Support::Loose, Some(sources[k].0)),
        None => (Support::Absent, None),
    }
}

/// `support_in`, with the range in the chosen source that matched.
pub fn support_in_span<'a>(quote: &str, sources: &[(&'a str, &str)]) -> (r: (
    Support,
    Option<&'a str>,
    Option<core::ops::Range<usize>>,
))
    ensures
        match first_at_level(quote@, texts_of(sources@), Support::Present, 0) {
            Some(k) => r.0 == Support::Present && r.1 == Some(sources@[k].0) && range_is(
                r.2,
                span_of(quote@, sources@[k].1@),
            ),
            None => match first_at_level(quote@, texts_of(sources@), Support::Loose, 0) {
                Some(k) => r.0 == Support::Loose && r.1 == Some(sources@[k].0) && range_is(
                    r.2,
                    span_of(quote@, sources@[k].1@),
                ),
                None => r.0 == Support::Absent && r.1 is None && r.2 is None,
            },
        },
{
    let ghost texts = texts_of(sources@);
    let mut loose: Option<(usize, core::ops::Range<usize>)> = None;
    let mut i: usize = 0;
    while i < sources.len()
        invariant
            i <= sources.len(),
            texts == texts_of(sources@),
            first_at_level(quote@, texts, Support::Present, 0) == first_at_level(
                quote@,
                texts,
                Support::Present,
                i as int,
            ),
            match loose {
                Some((k, rg)) => k < i && first_at_level(quote@, texts, Support::Loose, 0) == Some(
                    k as int,
                ) && range_is(Some(rg), span_of(quote@, sources@[k as int].1@)),
                None => first_at_level(quote@, texts, Support::Loose, 0) == first_at_level(
                    quote@,
                    texts,
                    Support::Loose,
                    i as int,
                ),
            },
        decreases sources.len() - i,
    {
        let (name, text) = sources[i];
        let (v, span) = support_span(quote, text);
        if v == Support::Present {
            return (Support::Present, Some(name), span);
        }
        if v == Support::Loose && loose.is_none() {
            match span {
                Some(rg) => {
                    loose = Some((i, rg));
                },
                None => {
                    assert(false);
                },
            }
        }
        i = i + 1;
    }
    match loose {
        Some((k, rg)) => (Support::Loose, Some(sources[k].0), Some(rg)),
        None => (Support::Absent, None, None),
    }
}


// ---------------------------------------------------------------------------
// Checking the quotes of a batch
// ---------------------------------------------------------------------------

/// The quote the first entry under `QUOTE_KEY` holds, from entry `i` on, if that entry is text.
pub open spec fn quote_entry(es: Seq<(Seq<char>, crate::diag::Span, HView, crate::diag::Span)>, i: int) -> Option<Seq<char>>
    decreases es.len() - i,
{
    if i < 0 || i >= es.len() {
        None
    } else if es[i].0 == QUOTE_KEY@ {
        match es[i].2 {
            HView::Str(t) => Some(t),
            _ => None,
        }
    } else {
        quote_entry(es, i + 1)
    }
}

/// The quote a unit attributes itself to: the text under `QUOTE_KEY` in its payload, when
/// the payload reads back and the first entry under that key is text.
pub open spec fn quote_view(payload: Option<Vec<u8>>) -> Option<Seq<char>> {
    match payload {
        None => None,
        Some(b) => match object_at(b@) {
            Err(_) => None,
            Ok(es) => quote_entry(es, 0),
        },
    }
}

/// The view of one entry is the entry's key, its spans and the view of its value.
proof fn lemma_entries_hview_index(s: Seq<(Spanned<String>, Spanned<HValue>)>, i: int)
    requires
        0 <= i < s.len(),
    ensures
        entries_hview(s)[i] == (s[i].0.value@, s[i].0.span, hview(s[i].1.value), s[i].1.span),
    decreases s.len(),
{
    lemma_entries_hview_len(s.drop_last());
    if i < s.len() - 1 {
        lemma_entries_hview_index(s.drop_last(), i);
    }
}

/// The quote a unit attributes itself to, if it declared one.
pub fn quote_of(core: &UnitCore) -> (r: Option<String>)
    ensures
        match quote_view(core.payload) {
            Some(t) => r matches Some(x) && x@ == t,
            None => r is None,
        },
{
    let bytes = match &core.payload {
        Some(b) => b,
        None => return None,
    };
    let o = match payload_to_object(bytes.as_slice()) {
        Ok(o) => o,
        Err(_) => return None,
    };
    let ghost es = entries_hview(o.entries@);
    proof {
        lemma_entries_hview_len(o.entries@);
        reveal_strlit("ingest:quote");
    }
    let mut i: usize = 0;
    while i < o.entries.len()
        invariant
            i <= o.entries@.len(),
            es == entries_hview(o.entries@),
            es.len() == o.entries@.len(),
            quote_view(core.payload) == quote_entry(es, 0),
            quote_entry(es, 0) == quote_entry(es, i as int),
        decreases o.entries@.len() - i,
    {
        proof {
            lemma_entries_hview_index(o.entries@, i as int);
        }
        if str_eq(o.entries[i].0.value.as_str(), QUOTE_KEY) {
            assert(es[i as int].0 == QUOTE_KEY@);
            assert(quote_entry(es, i as int) == (match hview(o.entries@[i as int].1.value) {
                HView::Str(t) => Some(t),
                _ => None::<Seq<char>>,
            }));
            let v = &o.entries[i].1.value;
            match v {
                HValue::Str(t) => {
                    assert(hview(*v) == HView::Str(t@));
                    return Some(owned(t.as_str()));
                },
                _ => {
                    assert(!(hview(*v) is Str));
                    return None;
                },
            }
        }
        i = i + 1;
    }
    None
}

/// The most of a quote a finding repeats: its first 80 characters, then an ellipsis.
pub open spec fn clip_view(q: Seq<char>) -> Seq<char> {
    if q.len() <= 80 {
        q
    } else {
        q.take(80).push('\u{2026}')
    }
}

/// A quote is untrusted input, and a finding reaches logs: its first 80 characters at most.
fn clip(q: &str) -> (r: String)
    ensures
        r@ == clip_view(q@),
{
    let v = chars_of(q);
    if v.len() <= 80 {
        return owned(q);
    }
    let mut r = string_from_range(&v, 0, 80);
    push_char(&mut r, '\u{2026}');
    assert(v@.subrange(0, 80) =~= q@.take(80));
    r
}

/// How `{:?}` spells a text: the text quoted, with the characters Rust escapes escaped.
pub uninterp spec fn debug_text(s: Seq<char>) -> Seq<char>;

/// `<str as Debug>::fmt`, through `format!("{:?}")`: its output is a function of the text
/// alone, and the contract says no more of it than that.
#[verifier::external_body]
fn debug_quoted(s: &str) -> (r: String)
    ensures
        r@ == debug_text(s@),
{
    format!("{:?}", s)
}

/// The two findings a quote can earn.
#[derive(Debug, Clone, Copy, PartialEq, Eq, Structural)]
pub enum QuoteCode {
    /// The quote's words are not in the source in that order: a fabrication.
    E307,
    /// The quote's words are in the source in order but not contiguously: an elision.
    W308,
}

impl QuoteCode {
    /// The stable text name.
    pub open spec fn str_view(self) -> Seq<char> {
        match self {
            QuoteCode::E307 => "SMY-E307"@,
            QuoteCode::W308 => "SMY-W308"@,
        }
    }

    /// The stable text name.
    pub fn as_str(self) -> (r: &'static str)
        ensures
            r@ == self.str_view(),
    {
        match self {
            QuoteCode::E307 => "SMY-E307",
            QuoteCode::W308 => "SMY-W308",
        }
    }

    pub open spec fn severity_view(self) -> Severity {
        match self {
            QuoteCode::E307 => Severity::Error,
            QuoteCode::W308 => Severity::Warn,
        }
    }

    /// An invented quote is an error; an elided one a warning.
    pub fn severity(self) -> (r: Severity)
        ensures
            r == self.severity_view(),
    {
        match self {
            QuoteCode::E307 => Severity::Error,
            QuoteCode::W308 => Severity::Warn,
        }
    }
}

/// A quote the source does not support: which finding, about which unit, what it says and
/// what would fix it.
#[derive(Debug, Clone)]
pub struct QuoteFinding {
    pub code: QuoteCode,
    pub severity: Severity,
    pub uid: Uid,
    pub message: String,
    pub suggestion: String,
}

impl QuoteFinding {
    /// The finding as one line: severity, code, message, the unit it is about and the fix,
    /// laid out as a diagnostic is.
    pub fn render(&self) -> (r: String)
        ensures
            r@ == self.severity.str_view() + ": "@ + self.code.str_view() + ": "@ + self.message@ + " (at "@
                + self.uid.text_form(52) + ") [try: "@ + self.suggestion@ + "]"@,
    {
        let mut r = owned(self.severity.as_str());
        push_str(&mut r, ": ");
        push_str(&mut r, self.code.as_str());
        push_str(&mut r, ": ");
        push_str(&mut r, self.message.as_str());
        push_str(&mut r, " (at ");
        let u = self.uid.canonical();
        push_str(&mut r, u.as_str());
        push_str(&mut r, ") [try: ");
        push_str(&mut r, self.suggestion.as_str());
        push_str(&mut r, "]");
        r
    }
}

/// A finding as plain data: code, the uid's bytes, message and suggestion.
pub struct FindingView {
    pub code: QuoteCode,
    pub uid: Seq<u8>,
    pub message: Seq<char>,
    pub suggestion: Seq<char>,
}

pub open spec fn finding_view(f: QuoteFinding) -> FindingView {
    FindingView { code: f.code, uid: f.uid.bytes(), message: f.message@, suggestion: f.suggestion@ }
}

pub open spec fn findings_view(s: Seq<QuoteFinding>) -> Seq<FindingView> {
    s.map_values(|f: QuoteFinding| finding_view(f))
}

/// What one unit earns: nothing without a quote or with a present one; W308 for a loose
/// one; E307 for an absent one. The message repeats the clipped quote as `{:?}` spells it.
pub open spec fn unit_findings(u: UnitCore, source: Seq<char>) -> Seq<FindingView> {
    match quote_view(u.payload) {
        None => Seq::empty(),
        Some(q) => {
            let uid = blake3_digest(unit_core_encoding(u));
            match support_of(q, source) {
                Support::Present => Seq::empty(),
                Support::Loose => seq![FindingView {
                    code: QuoteCode::W308,
                    uid,
                    message: "attributed quote is elided or reworded: "@ + debug_text(clip_view(q)),
                    suggestion: "quote the source verbatim, or drop the attribution"@,
                }],
                Support::Absent => seq![FindingView {
                    code: QuoteCode::E307,
                    uid,
                    message: "attributed quote is not in the source: "@ + debug_text(clip_view(q)),
                    suggestion: "quote text that appears in the document, or omit `quote`"@,
                }],
            }
        },
    }
}

/// The findings of a batch, unit by unit in order.
pub open spec fn quote_findings(units: Seq<UnitCore>, source: Seq<char>) -> Seq<FindingView>
    decreases units.len(),
{
    if units.len() == 0 {
        Seq::empty()
    } else {
        quote_findings(units.drop_last(), source) + unit_findings(units.last(), source)
    }
}

/// Checks every attributed quote in a batch against the text it was drawn from. A unit that
/// attributes nothing is not faulted: a missing quote is a thinner record, not a false one.
pub fn verify_quotes(units: &Vec<UnitCore>, source: &str) -> (out: Vec<QuoteFinding>)
    requires
        forall|i: int| 0 <= i < units@.len() ==> extra_above(#[trigger] units@[i].extra@, keys::unit::HIGHEST),
    ensures
        findings_view(out@) == quote_findings(units@, source@),
{
    let mut out: Vec<QuoteFinding> = Vec::new();
    let mut i: usize = 0;
    assert(units@.take(0) =~= Seq::<UnitCore>::empty());
    while i < units.len()
        invariant
            i <= units@.len(),
            forall|k: int| 0 <= k < units@.len() ==> extra_above(#[trigger] units@[k].extra@, keys::unit::HIGHEST),
            findings_view(out@) == quote_findings(units@.take(i as int), source@),
        decreases units@.len() - i,
    {
        let u = &units[i];
        assert(units@.take(i + 1).drop_last() =~= units@.take(i as int));
        let ghost before = out@;
        match quote_of(u) {
            None => {},
            Some(q) => {
                let uid = canonical_uid(u);
                let sup = support(q.as_str(), source);
                let shown = debug_quoted(clip(q.as_str()).as_str());
                match sup {
                    Support::Present => {},
                    Support::Loose => {
                        let mut m = owned("attributed quote is elided or reworded: ");
                        push_str(&mut m, shown.as_str());
                        out.push(QuoteFinding {
                            code: QuoteCode::W308,
                            severity: Severity::Warn,
                            uid,
                            message: m,
                            suggestion: owned("quote the source verbatim, or drop the attribution"),
                        });
                    },
                    Support::Absent => {
                        let mut m = owned("attributed quote is not in the source: ");
                        push_str(&mut m, shown.as_str());
                        out.push(QuoteFinding {
                            code: QuoteCode::E307,
                            severity: Severity::Error,
                            uid,
                            message: m,
                            suggestion: owned("quote text that appears in the document, or omit `quote`"),
                        });
                    },
                }
            },
        }
        assert(findings_view(out@) =~= findings_view(before) + unit_findings(units@[i as int], source@));
        i = i + 1;
    }
    assert(units@.take(units@.len() as int) =~= units@);
    out
}

} // verus!
