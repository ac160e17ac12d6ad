//! Line classification of the surface syntax. Every line gets exactly one class. On a parse
//! error, recovery skips to the next line that starts a record, which is what lets one
//! malformed record leave every other record readable.

use vstd::prelude::*;

use crate::diag::Span;
use crate::ids::{schema_shape, KernelType, SchemaId};
use crate::text::{blank, chars_of, is_blank, is_whitespace, is_ws, string_from_range};
use vstd::string::StringSliceAdditionalSpecFns;
use vstd::utf8::{is_char_boundary, is_continuation_byte, length_of_first_scalar, pop_first_scalar, valid_utf8};

verus! {

/// What a line is.
#[derive(Debug, Clone, Copy, PartialEq, Eq, Structural)]
#[non_exhaustive]
pub enum LineClass {
    /// `@doc smysl/0.1 { ... }`
    DocHeader,
    /// `@claim c/x { ... }`: a kernel or extension type at column 0.
    RecordStart,
    /// `@rel a --kind--> b`
    RelLine,
    /// `@thread t/x { ... }`
    ThreadStart,
    /// `  role -> ref`
    Step,
    /// `~ the gist`
    Gist,
    /// `--` alone on its line.
    Separator,
    Blank,
    /// Anything else: body, detail, or a gist continuation.
    Text,
}

impl LineClass {
    /// The classes that begin a record, and so are recovery points.
    pub open spec fn starts_record_view(self) -> bool {
        self == LineClass::DocHeader || self == LineClass::RecordStart || self == LineClass::RelLine || self
            == LineClass::ThreadStart
    }

    /// Whether this class begins a new record.
    pub fn starts_record(self) -> (r: bool)
        ensures
            r == self.starts_record_view(),
    {
        match self {
            LineClass::DocHeader | LineClass::RecordStart | LineClass::RelLine | LineClass::ThreadStart => true,
            _ => false,
        }
    }
}

/// `s` without its trailing white space.
pub open spec fn trim_end(s: Seq<char>) -> Seq<char>
    decreases s.len(),
{
    if s.len() > 0 && is_ws(s.last()) {
        trim_end(s.drop_last())
    } else {
        s
    }
}

/// `s` without its leading white space.
pub open spec fn trim_start(s: Seq<char>) -> Seq<char>
    decreases s.len(),
{
    if s.len() > 0 && is_ws(s[0]) {
        trim_start(s.drop_first())
    } else {
        s
    }
}

/// `s` begins with `p`.
pub open spec fn starts(s: Seq<char>, p: Seq<char>) -> bool {
    s.len() >= p.len() && s.take(p.len() as int) == p
}

/// The length of the word at the start of `s`: up to the first white space or `{`.
pub open spec fn word_len(s: Seq<char>) -> int
    decreases s.len(),
{
    if s.len() == 0 || is_ws(s[0]) || s[0] == '{' {
        0
    } else {
        1 + word_len(s.drop_first())
    }
}

/// A recognised unit type: a kernel type, or an `x.<domain>/<type>` extension.
pub open spec fn record_type(w: Seq<char>) -> bool {
    (exists|k: KernelType| k.str_view() == w) || (starts(w, "x."@) && schema_shape(w) == 2)
}

/// Whether an arrow, `→` or `->`, begins at character `j` of `s`.
pub open spec fn arrow_char_at(s: Seq<char>, j: int) -> bool {
    0 <= j < s.len() && (s[j] == '\u{2192}' || (s[j] == '-' && j + 1 < s.len() && s[j + 1] == '>'))
}

/// The character index of the first arrow in `s` from `k`, or -1.
pub open spec fn first_arrow_char(s: Seq<char>, k: int) -> int
    decreases s.len() - k,
{
    if k < 0 || k >= s.len() {
        -1
    } else if arrow_char_at(s, k) {
        k
    } else {
        first_arrow_char(s, k + 1)
    }
}

/// A role name: lowercase ASCII letters, digits and `-`.
pub open spec fn role_chars(s: Seq<char>) -> bool {
    forall|i: int| 0 <= i < s.len() ==> ('a' <= #[trigger] s[i] && s[i] <= 'z') || s[i] == '-' || ('0' <= s[i]
        && s[i] <= '9')
}

/// A step line: exactly the two-space indent, a role, and an arrow.
pub open spec fn step_line(l: Seq<char>) -> bool {
    let rest = l.skip(2);
    let j = first_arrow_char(rest, 0);
    starts(l, "  "@) && !(rest.len() > 0 && rest[0] == ' ') && j >= 0 && trim_end(rest.take(j)).len() > 0
        && role_chars(trim_end(rest.take(j)))
}

/// The class of a line, by its characters.
pub open spec fn classify_view(l: Seq<char>) -> LineClass {
    if blank(l) {
        LineClass::Blank
    } else if trim_end(l) == "--"@ && !(l.len() > 0 && l[0] == ' ') {
        LineClass::Separator
    } else if l.len() > 0 && l[0] == '@' {
        let w = l.skip(1).take(word_len(l.skip(1)));
        if w == "doc"@ {
            LineClass::DocHeader
        } else if w == "rel"@ {
            LineClass::RelLine
        } else if w == "thread"@ {
            LineClass::ThreadStart
        } else if record_type(w) {
            LineClass::RecordStart
        } else {
            LineClass::Text
        }
    } else if starts(l, "~ "@) || l == "~"@ || starts(l, "~\t"@) {
        LineClass::Gist
    } else if step_line(l) {
        LineClass::Step
    } else {
        LineClass::Text
    }
}

fn trim_end_len(v: &Vec<char>, lo: usize, hi: usize) -> (n: usize)
    requires
        lo <= hi <= v.len(),
    ensures
        lo <= n <= hi,
        trim_end(v@.subrange(lo as int, hi as int)) == v@.subrange(lo as int, n as int),
{
    let mut n = hi;
    while n > lo && is_whitespace(v[n - 1])
        invariant
            lo <= n <= hi <= v.len(),
            trim_end(v@.subrange(lo as int, hi as int)) == trim_end(v@.subrange(lo as int, n as int)),
        decreases n - lo,
    {
        assert(v@.subrange(lo as int, n as int).drop_last() =~= v@.subrange(lo as int, n - 1));
        n = n - 1;
    }
    n
}

fn chars_start_with(v: &Vec<char>, lo: usize, p: &str) -> (r: bool)
    requires
        lo <= v.len(),
    ensures
        r == starts(v@.skip(lo as int), p@),
{
    let pv = chars_of(p);
    if v.len() - lo < pv.len() {
        return false;
    }
    let mut i: usize = 0;
    while i < pv.len()
        invariant
            i <= pv.len(),
            pv@ == p@,
            lo + pv.len() <= v.len(),
            forall|j: int| 0 <= j < i ==> v@[lo + j] == pv@[j],
        decreases pv.len() - i,
    {
        if v[lo + i] != pv[i] {
            assert(v@.skip(lo as int).take(pv@.len() as int)[i as int] != p@[i as int]);
            return false;
        }
        i = i + 1;
    }
    assert(v@.skip(lo as int).take(pv@.len() as int) =~= p@);
    true
}

/// Whether `word` is a recognised unit type: a kernel type, or an `x.<domain>/<type>`
/// extension. Only recognised types start a record, so a body line that begins with `@`, a
/// mention say, stays body text.
pub fn is_record_type(word: &str) -> (r: bool)
    ensures
        r == record_type(word@),
{
    if KernelType::parse(word).is_some() {
        return true;
    }
    let v = chars_of(word);
    if !chars_start_with(&v, 0, "x.") {
        assert(v@.skip(0) =~= v@);
        return false;
    }
    assert(v@.skip(0) =~= v@);
    proof {
        reveal_strlit("x.");
    }
    match SchemaId::parse(word) {
        Ok(_) => {
            proof {
                if schema_shape(word@) == 1 {
                    reveal_strlit("smysl.kernel/");
                    assert(word@.take(2)[0] == 'x');
                    assert(word@.take(13)[0] == 's');
                }
            }
            true
        },
        Err(_) => false,
    }
}

fn is_step(v: &Vec<char>) -> (r: bool)
    ensures
        r == step_line(v@),
{
    proof {
        reveal_strlit("  ");
    }
    if !chars_start_with(v, 0, "  ") {
        assert(v@.skip(0) =~= v@);
        return false;
    }
    assert(v@.skip(0) =~= v@);
    let ghost rest = v@.skip(2);
    if v.len() > 2 && v[2] == ' ' {
        return false;
    }
    let mut j: usize = 2;
    while j < v.len() && !(v[j] == '\u{2192}' || (v[j] == '-' && j + 1 < v.len() && v[j + 1] == '>'))
        invariant
            2 <= j <= v.len(),
            rest == v@.skip(2),
            first_arrow_char(rest, 0) == first_arrow_char(rest, j - 2),
        decreases v.len() - j,
    {
        j = j + 1;
    }
    if j >= v.len() {
        return false;
    }
    assert(first_arrow_char(rest, j - 2) == j - 2);
    let n = trim_end_len(v, 2, j);
    assert(rest.take(j - 2) =~= v@.subrange(2, j as int));
    assert(v@.subrange(2, n as int).len() == n - 2);
    if n == 2 {
        return false;
    }
    assert(step_line(v@) <==> role_chars(v@.subrange(2, n as int)));
    let mut i: usize = 2;
    while i < n
        invariant
            2 <= i <= n <= v.len(),
            step_line(v@) <==> role_chars(v@.subrange(2, n as int)),
            forall|q: int| 2 <= q < i ==> ('a' <= #[trigger] v@[q] && v@[q] <= 'z') || v@[q] == '-' || ('0'
                <= v@[q] && v@[q] <= '9'),
        decreases n - i,
    {
        let c = v[i];
        if !(('a' <= c && c <= 'z') || c == '-' || ('0' <= c && c <= '9')) {
            assert(v@.subrange(2, n as int)[i - 2] == c);
            return false;
        }
        i = i + 1;
    }
    assert(role_chars(v@.subrange(2, n as int))) by {
        assert forall|q: int| 0 <= q < v@.subrange(2, n as int).len() implies ('a' <= #[trigger] v@.subrange(
            2,
            n as int,
        )[q] && v@.subrange(2, n as int)[q] <= 'z') || v@.subrange(2, n as int)[q] == '-' || ('0'
            <= v@.subrange(2, n as int)[q] && v@.subrange(2, n as int)[q] <= '9') by {
            assert(v@.subrange(2, n as int)[q] == v@[q + 2]);
        }
    }
    true
}

/// The class of a line.
pub fn classify(line: &str) -> (c: LineClass)
    ensures
        c == classify_view(line@),
{
    let v = chars_of(line);
    if is_blank(line) {
        return LineClass::Blank;
    }
    let n = trim_end_len(&v, 0, v.len());
    assert(v@.subrange(0, v@.len() as int) =~= v@);
    proof {
        reveal_strlit("--");
    }
    if n == 2 && v[0] == '-' && v[1] == '-' && !(v.len() > 0 && v[0] == ' ') {
        assert(v@.subrange(0, 2) =~= "--"@);
        return LineClass::Separator;
    }
    assert(!(trim_end(v@) == "--"@ && !(v@.len() > 0 && v@[0] == ' '))) by {
        if trim_end(v@) == "--"@ {
            assert(v@.subrange(0, n as int).len() == 2);
            assert(v@.subrange(0, n as int)[0] == '-');
            assert(v@.subrange(0, n as int)[1] == '-');
        }
    }
    if v.len() > 0 && v[0] == '@' {
        let mut e: usize = 1;
        while e < v.len() && !(is_whitespace(v[e]) || v[e] == '{')
            invariant
                1 <= e <= v.len(),
                word_len(v@.skip(1)) == (e - 1) + word_len(v@.skip(e as int)),
            decreases v.len() - e,
        {
            assert(v@.skip(e as int).drop_first() =~= v@.skip(e + 1));
            e = e + 1;
        }
        let word = string_from_range(&v, 1, e);
        assert(v@.skip(1).take(word_len(v@.skip(1))) =~= v@.subrange(1, e as int));
        proof {
            reveal_strlit("doc");
            reveal_strlit("rel");
            reveal_strlit("thread");
        }
        if crate::text::str_eq(word.as_str(), "doc") {
            assert(v@.skip(1).take(word_len(v@.skip(1))) == "doc"@);
            return LineClass::DocHeader;
        }
        if crate::text::str_eq(word.as_str(), "rel") {
            return LineClass::RelLine;
        }
        if crate::text::str_eq(word.as_str(), "thread") {
            return LineClass::ThreadStart;
        }
        if is_record_type(word.as_str()) {
            return LineClass::RecordStart;
        }
        return LineClass::Text;
    }
    proof {
        reveal_strlit("~ ");
        reveal_strlit("~");
        reveal_strlit("~\t");
    }
    if chars_start_with(&v, 0, "~ ") || (v.len() == 1 && v[0] == '~') || chars_start_with(&v, 0, "~\t") {
        assert(v@.skip(0) =~= v@);
        if v.len() == 1 && v[0] == '~' {
            assert(v@ =~= "~"@);
        }
        return LineClass::Gist;
    }
    assert(v@.skip(0) =~= v@);
    proof {
        if v@ == "~"@ {
            assert(v@[0] == '~');
        }
    }
    if is_step(&v) {
        return LineClass::Step;
    }
    LineClass::Text
}


/// Whether an arrow begins at byte `i` of `b`: the UTF-8 of `→`, or `->`.
pub open spec fn arrow_at(b: Seq<u8>, i: int) -> bool {
    0 <= i && ((i + 3 <= b.len() && b[i] == 0xE2 && b[i + 1] == 0x86 && b[i + 2] == 0x92) || (i + 2 <= b.len()
        && b[i] == 0x2D && b[i + 1] == 0x3E))
}

/// The byte offset of the first `→` or `->` in `s`, if any.
pub fn find_arrow(s: &str) -> (r: Option<usize>)
    ensures
        match r {
            Some(i) => arrow_at(s.spec_bytes(), i as int) && forall|j: int| 0 <= j < i ==> !arrow_at(s.spec_bytes(), j),
            None => forall|j: int| !arrow_at(s.spec_bytes(), j),
        },
{
    let b = s.as_bytes();
    let mut i: usize = 0;
    while i < b.len()
        invariant
            i <= b.len(),
            b@ == s.spec_bytes(),
            forall|j: int| 0 <= j < i ==> !arrow_at(b@, j),
        decreases b.len() - i,
    {
        if (b.len() - i >= 3 && b[i] == 0xE2 && b[i + 1] == 0x86 && b[i + 2] == 0x92) || (b.len() - i >= 2 && b[i]
            == 0x2D && b[i + 1] == 0x3E) {
            return Some(i);
        }
        i = i + 1;
    }
    None
}

/// The width in bytes of the arrow at byte `at`: three for `→`, two for `->`.
pub fn arrow_len(s: &str, at: usize) -> (n: usize)
    requires
        at <= s.spec_bytes().len(),
        is_char_boundary(s.spec_bytes(), at as int),
    ensures
        n == (if at + 3 <= s.spec_bytes().len() && s.spec_bytes()[at as int] == 0xE2 && s.spec_bytes()[at + 1]
            == 0x86 && s.spec_bytes()[at + 2] == 0x92 {
            3usize
        } else {
            2usize
        }),
{
    let b = s.as_bytes();
    if b.len() - at >= 3 && b[at] == 0xE2 && b[at + 1] == 0x86 && b[at + 2] == 0x92 {
        3
    } else {
        2
    }
}

/// One classified line: its class, the bytes it occupies without its terminator, its text,
/// and its one-based number.
#[derive(Debug, Clone, Copy, PartialEq)]
pub struct Line<'a> {
    pub class: LineClass,
    pub span: Span,
    pub text: &'a str,
    /// One-based, for messages people read.
    pub number: usize,
}

/// The text of a gist line after its sigils and the white space that follows them.
pub open spec fn gist_view(t: Seq<char>) -> Seq<char> {
    trim_start(t.skip(tilde_run(t)))
}

/// The number of leading `~` characters.
pub open spec fn tilde_run(t: Seq<char>) -> int
    decreases t.len(),
{
    if t.len() > 0 && t[0] == '~' {
        1 + tilde_run(t.drop_first())
    } else {
        0
    }
}

impl<'a> Line<'a> {
    /// The text after the leading sigil, for a gist line.
    pub fn gist_text(&self) -> (r: String)
        ensures
            r@ == gist_view(self.text@),
    {
        let v = chars_of(self.text);
        let mut i: usize = 0;
        assert(v@.skip(0) =~= v@);
        while i < v.len() && v[i] == '~'
            invariant
                i <= v.len(),
                tilde_run(v@) == i + tilde_run(v@.skip(i as int)),
            decreases v.len() - i,
        {
            assert(v@.skip(i as int).drop_first() =~= v@.skip(i + 1));
            i = i + 1;
        }
        let k = i;
        while i < v.len() && is_whitespace(v[i])
            invariant
                k <= i <= v.len(),
                trim_start(v@.skip(k as int)) == trim_start(v@.skip(i as int)),
            decreases v.len() - i,
        {
            assert(v@.skip(i as int).drop_first() =~= v@.skip(i + 1));
            i = i + 1;
        }
        assert(v@.skip(k as int) == v@.skip(k as int));
        assert(v@.subrange(i as int, v@.len() as int) =~= v@.skip(i as int));
        string_from_range(&v, i, v.len())
    }
}

/// The next `\n` at or after byte `k`, or the end.
pub open spec fn next_newline(b: Seq<u8>, k: int) -> int
    decreases b.len() - k,
{
    if k < 0 || k >= b.len() {
        b.len() as int
    } else if b[k] == 0x0A {
        k
    } else {
        next_newline(b, k + 1)
    }
}

pub proof fn lemma_next_newline(b: Seq<u8>, k: int)
    requires
        0 <= k <= b.len(),
    ensures
        k <= next_newline(b, k) <= b.len(),
        next_newline(b, k) < b.len() ==> b[next_newline(b, k)] == 0x0A,
        forall|j: int| k <= j < next_newline(b, k) ==> b[j] != 0x0A,
    decreases b.len() - k,
{
    if k < b.len() && b[k] != 0x0A {
        lemma_next_newline(b, k + 1);
    }
}

/// The pieces of `b` from byte `k`, split at each `\n`: where each starts and ends.
pub open spec fn pieces_from(b: Seq<u8>, k: int) -> Seq<(int, int)>
    decreases b.len() - k + 1,
{
    if k < 0 || k > b.len() {
        Seq::empty()
    } else {
        let e = next_newline(b, k);
        if e >= b.len() {
            seq![(k, b.len() as int)]
        } else {
            proof {
                lemma_next_newline(b, k);
            }
            seq![(k, e)] + pieces_from(b, e + 1)
        }
    }
}

/// A piece without the `\r` that ends it, if one does.
pub open spec fn text_end(b: Seq<u8>, p: (int, int)) -> int {
    if p.1 > p.0 && b[p.1 - 1] == 0x0D {
        p.1 - 1
    } else {
        p.1
    }
}

/// The lines of a source: its pieces without their `\r`, less a last piece that is empty
/// after a final newline, as (start, end) byte offsets.
pub open spec fn line_spans(b: Seq<u8>) -> Seq<(int, int)> {
    let ps = pieces_from(b, 0);
    let all = Seq::new(ps.len(), |i: int| (ps[i].0, text_end(b, ps[i])));
    let last = all.last();
    if ps.len() > 0 && last.0 == last.1 && last.0 > 0 {
        all.drop_last()
    } else {
        all
    }
}

/// In valid UTF-8, the byte after an ASCII character that starts a character starts one too.
proof fn lemma_boundary_after_ascii(b: Seq<u8>, i: int)
    requires
        valid_utf8(b),
        0 <= i < b.len(),
        b[i] < 0x80,
        is_char_boundary(b, i),
    ensures
        is_char_boundary(b, i + 1),
    decreases b.len(),
{
    let l = length_of_first_scalar(b);
    let rest = pop_first_scalar(b);
    if i == 0 {
        assert(l == 1);
        assert(is_char_boundary(rest, 0));
    } else {
        assert(is_char_boundary(rest, i - l));
        if i - l < 0 {
            assert(false);
        }
        assert(rest[i - l] == b[i]);
        lemma_boundary_after_ascii(rest, i - l);
    }
}


/// Line `l` is line `i` of a source with bytes `b`, occupying `sp`.
pub open spec fn line_at(l: Line<'_>, b: Seq<u8>, sp: (int, int), i: int) -> bool {
    &&& l.span.start == sp.0
    &&& l.span.end == sp.1
    &&& 0 <= sp.0 <= sp.1 <= b.len()
    &&& l.text.spec_bytes() == b.subrange(sp.0, sp.1)
    &&& l.number == i + 1
    &&& l.class == classify_view(l.text@)
}

/// Classifies every line of `src`. A final newline does not add an empty line, and a `\r`
/// before a newline is not part of the line.
pub fn lex<'a>(src: &'a str) -> (out: Vec<Line<'a>>)
    requires
        src.spec_bytes().len() < usize::MAX,
    ensures
        out@.len() == line_spans(src.spec_bytes()).len(),
        forall|i: int| 0 <= i < out@.len() ==> line_at(#[trigger] out@[i], src.spec_bytes(), line_spans(src.spec_bytes())[i], i),
{
    let b = src.as_bytes();
    let ghost bs = src.spec_bytes();
    let ghost ps = pieces_from(bs, 0);
    proof {
        vstd::utf8::encode_utf8_valid_utf8(src@);
        vstd::utf8::is_char_boundary_start_end_of_seq(bs);
    }
    let n = b.len();
    let mut out: Vec<Line<'a>> = Vec::new();
    let mut k: usize = 0;
    let mut idx: usize = 0;
    loop
        invariant
            b@ == bs,
            bs == src.spec_bytes(),
            n == bs.len(),
            n < usize::MAX,
            valid_utf8(bs),
            k <= n,
            idx <= k,
            k == 0 || bs[k - 1] == 0x0A,
            ps == pieces_from(bs, 0),
            ps.skip(idx as int) == pieces_from(bs, k as int),
            idx <= ps.len(),
            out@.len() == idx,
            forall|i: int| 0 <= i < idx ==> line_at(#[trigger] out@[i], bs, (ps[i].0, text_end(bs, ps[i])), i),
        decreases n - k,
    {
        let mut e = k;
        while e < n && b[e] != 0x0A
            invariant
                k <= e <= n,
                n == b@.len(),
                next_newline(b@, k as int) == next_newline(b@, e as int),
            decreases n - e,
        {
            e = e + 1;
        }
        proof {
            lemma_next_newline(bs, k as int);
        }
        assert(e == next_newline(bs, k as int));
        let is_last = e >= n;
        let te = if e > k && b[e - 1] == 0x0D { e - 1 } else { e };
        let ghost piece = (k as int, e as int);
        assert(pieces_from(bs, k as int)[0] == piece);
        assert(ps.skip(idx as int).len() >= 1);
        assert(ps[idx as int] == piece) by {
            assert(ps.skip(idx as int)[0] == ps[idx as int]);
        }
        assert(te == text_end(bs, piece));
        if !(is_last && te == k && k > 0) {
            let span = Span::new(k, te);
            proof {
                vstd::utf8::is_char_boundary_start_end_of_seq(bs);
                if k > 0 {
                    vstd::utf8::is_char_boundary_iff_not_is_continuation_byte(bs, k - 1);
                    lemma_boundary_after_ascii(bs, k - 1);
                }
                if te < n {
                    vstd::utf8::is_char_boundary_iff_not_is_continuation_byte(bs, te as int);
                }
                assert(is_char_boundary(bs, k as int));
                assert(is_char_boundary(bs, te as int));
            }
            let text = match span.slice(src) {
                Some(t) => t,
                None => {
                    assert(false);
                    return out;
                },
            };
            let class = classify(text);
            let ghost before = out@;
            out.push(Line { class, span, text, number: idx + 1 });
            assert forall|i: int| 0 <= i < idx + 1 implies line_at(#[trigger] out@[i], bs, (ps[i].0, text_end(bs, ps[i])), i) by {
                if i < idx {
                    assert(out@[i] == before[i]);
                }
            }
        }
        if is_last {
            proof {
                assert(pieces_from(bs, k as int) =~= seq![piece]);
                assert(ps.len() == idx + 1) by {
                    assert(ps.skip(idx as int).len() == 1);
                }
                let all = Seq::new(ps.len(), |i: int| (ps[i].0, text_end(bs, ps[i])));
                assert(all.last() == (k as int, te as int));
                if te == k && k > 0 {
                    assert(line_spans(bs) =~= all.drop_last());
                } else {
                    assert(line_spans(bs) =~= all);
                }
            }
            return out;
        }
        proof {
            assert(pieces_from(bs, k as int) == seq![piece] + pieces_from(bs, e + 1));
            assert(ps.skip(idx + 1) =~= ps.skip(idx as int).drop_first());
            assert(pieces_from(bs, e + 1).len() >= 1);
        }
        k = e + 1;
        idx = idx + 1;
    }
}

} // verus!
