//! The values the HJSON payload syntax is read into: each with the byte range it came from,
//! and the error a malformed payload is reported as.

use vstd::prelude::*;

use crate::diag::Span;
use crate::quote::{byte_at, char_len, clen};
use crate::text::{all_digits, chars_of, decimal, push_decimal, digits_value, is_digit, is_whitespace, is_ws, owned, push_char, push_str, str_eq, string_from_range};
use vstd::utf8::{encode_scalar, encode_utf8};
use crate::quote::byte_offsets;

verus! {

/// A value with the byte range it was parsed from.
#[derive(Debug, Clone, PartialEq)]
pub struct Spanned<T> {
    pub value: T,
    pub span: Span,
}

impl<T> Spanned<T> {
    pub fn new(value: T, span: Span) -> (r: Spanned<T>)
        ensures
            r.value == value,
            r.span == span,
    {
        Spanned { value, span }
    }
}

/// A syntax error, with the byte offset it was found at.
#[derive(Debug, Clone, PartialEq, Eq)]
pub struct HError {
    pub at: usize,
    pub message: String,
}

impl HError {
    pub fn new(at: usize, message: &str) -> (e: HError)
        ensures
            e.at == at,
            e.message@ == message@,
    {
        HError { at, message: crate::text::owned(message) }
    }
}

/// An HJSON value. A float keeps the text it was written as.
#[derive(Debug, PartialEq)]
pub enum HValue {
    Null,
    Bool(bool),
    Int(i64),
    Float(String),
    Str(String),
    Array(Vec<Spanned<HValue>>),
    Object(HObject),
}

/// An object, preserving authored key order.
#[derive(Debug, PartialEq)]
pub struct HObject {
    pub entries: Vec<(Spanned<String>, Spanned<HValue>)>,
}

/// A value as plain data: its kind and contents, each element with its span.
pub enum HView {
    Null,
    Bool(bool),
    Int(i64),
    Float(Seq<char>),
    Str(Seq<char>),
    Array(Seq<(HView, Span)>),
    Object(Seq<(Seq<char>, Span, HView, Span)>),
}

pub open spec fn hview(v: HValue) -> HView
    decreases v,
{
    match v {
        HValue::Null => HView::Null,
        HValue::Bool(b) => HView::Bool(b),
        HValue::Int(i) => HView::Int(i),
        HValue::Float(t) => HView::Float(t@),
        HValue::Str(t) => HView::Str(t@),
        HValue::Array(items) => HView::Array(items_hview(items@)),
        HValue::Object(o) => HView::Object(entries_hview(o.entries@)),
    }
}

pub open spec fn items_hview(s: Seq<Spanned<HValue>>) -> Seq<(HView, Span)>
    decreases s,
{
    if s.len() == 0 {
        Seq::empty()
    } else {
        items_hview(s.drop_last()).push((hview(s.last().value), s.last().span))
    }
}

pub open spec fn entries_hview(s: Seq<(Spanned<String>, Spanned<HValue>)>) -> Seq<(Seq<char>, Span, HView, Span)>
    decreases s,
{
    if s.len() == 0 {
        Seq::empty()
    } else {
        entries_hview(s.drop_last()).push((s.last().0.value@, s.last().0.span, hview(s.last().1.value), s.last().1.span))
    }
}

// ---------------------------------------------------------------------------
// The grammar, over the characters of the source
// ---------------------------------------------------------------------------

/// Trivia never ends before where it starts.
pub proof fn lemma_trivia_end_ge(s: Seq<char>, p: int, mode: int)
    requires
        0 <= p <= s.len(),
    ensures
        trivia_end(s, p, mode) >= p,
    decreases s.len() - p, mode,
{
    if p < s.len() {
        if mode == 1 {
            if s[p] == '\n' {
                lemma_trivia_end_ge(s, p, 0);
            } else {
                lemma_trivia_end_ge(s, p + 1, 1);
            }
        } else if mode == 2 {
            if s[p] == '*' && p + 1 < s.len() && s[p + 1] == '/' {
                lemma_trivia_end_ge(s, p + 2, 0);
            } else {
                lemma_trivia_end_ge(s, p + 1, 2);
            }
        } else if ascii_ws(s[p]) {
            lemma_trivia_end_ge(s, p + 1, 0);
        } else if s[p] == '#' {
            lemma_trivia_end_ge(s, p + 1, 1);
        } else if s[p] == '/' && p + 1 < s.len() && s[p + 1] == '/' {
            lemma_trivia_end_ge(s, p + 2, 1);
        } else if s[p] == '/' && p + 1 < s.len() && s[p + 1] == '*' {
            lemma_trivia_end_ge(s, p + 2, 2);
        }
    }
}

/// Inside a line comment, trivia runs past every character up to the end of the line.
proof fn lemma_line_comment_runs(s: Seq<char>, p: int, k: int)
    requires
        0 <= p <= k < s.len(),
        forall|j: int| p <= j <= k ==> s[j] != '\n',
    ensures
        trivia_end(s, p, 1) > k,
    decreases s.len() - p,
{
    if p < k {
        lemma_line_comment_runs(s, p + 1, k);
    } else {
        lemma_trivia_end_ge(s, p + 1, 1);
    }
}

/// Trivia from `q` on reads nothing before `q`.
proof fn lemma_trivia_end_local(s: Seq<char>, t: Seq<char>, q: int, mode: int)
    requires
        0 <= q <= s.len(),
        s.len() == t.len(),
        forall|j: int| q <= j < s.len() ==> s[j] == t[j],
    ensures
        trivia_end(s, q, mode) == trivia_end(t, q, mode),
    decreases s.len() - q, mode,
{
    if q < s.len() {
        if mode == 1 {
            if s[q] == '\n' {
                lemma_trivia_end_local(s, t, q, 0);
            } else {
                lemma_trivia_end_local(s, t, q + 1, 1);
            }
        } else if mode == 2 {
            if s[q] == '*' && q + 1 < s.len() && s[q + 1] == '/' {
                lemma_trivia_end_local(s, t, q + 2, 0);
            } else {
                lemma_trivia_end_local(s, t, q + 1, 2);
            }
        } else if ascii_ws(s[q]) {
            lemma_trivia_end_local(s, t, q + 1, 0);
        } else if s[q] == '#' {
            lemma_trivia_end_local(s, t, q + 1, 1);
        } else if s[q] == '/' && q + 1 < s.len() && s[q + 1] == '/' {
            lemma_trivia_end_local(s, t, q + 2, 1);
        } else if s[q] == '/' && q + 1 < s.len() && s[q + 1] == '*' {
            lemma_trivia_end_local(s, t, q + 2, 2);
        }
    }
}

/// No line ends among the characters from `p` to `k`.
pub open spec fn no_newline(s: Seq<char>, p: int, k: int) -> bool {
    forall|j: int| p <= j <= k ==> s[j] != '\n'
}

/// `//` opens a line comment exactly as `#` does: where white space may stand, trivia from a
/// `//` ends where it would from a `#` in its place, past the whole rest of the line.
pub proof fn lemma_slash_comment_is_trivia(s: Seq<char>, p: int)
    requires
        0 <= p,
        p + 1 < s.len(),
        s[p] == '/',
        s[p + 1] == '/',
    ensures
        trivia_end(s, p, 0) == trivia_end(s.update(p, '#'), p, 0),
        forall|k: int| p <= k < s.len() && #[trigger] no_newline(s, p, k) ==> trivia_end(s, p, 0) > k,
{
    let t = s.update(p, '#');
    lemma_trivia_end_local(s, t, p + 1, 1);
    lemma_trivia_end_local(s, t, p + 2, 1);
    assert(t[p + 1] == '/');
    assert forall|k: int| p <= k < s.len() && #[trigger] no_newline(s, p, k) implies trivia_end(s, p, 0) > k by {
        if k >= p + 2 {
            lemma_line_comment_runs(s, p + 2, k);
        } else {
            lemma_trivia_end_ge(s, p + 2, 1);
        }
    }
}

/// A syntax error as plain data: the byte offset and the message.
pub struct HErrView {
    pub at: int,
    pub message: Seq<char>,
}

/// The deepest nesting the parser descends to; the CBOR reader's limit.
pub open spec fn depth_limit() -> int {
    crate::cbor::MAX_NESTING as int
}

/// The error at character position `p`, offsets counted in bytes from `base`.
pub open spec fn herr(s: Seq<char>, base: int, p: int, m: Seq<char>) -> HErrView {
    HErrView { at: base + byte_at(s, p), message: m }
}

/// The span from character `a` to character `b`, in bytes from `base`.
pub open spec fn span_of(s: Seq<char>, base: int, a: int, b: int) -> Span {
    Span { start: (base + byte_at(s, a)) as usize, end: (base + byte_at(s, b)) as usize }
}

pub open spec fn eof_msg(what: Seq<char>) -> Seq<char> {
    "unexpected end of input in "@ + what
}

pub open spec fn nesting_msg() -> Seq<char> {
    "nesting deeper than "@ + decimal(crate::cbor::MAX_NESTING as nat)
}

/// ASCII white space, as `u8::is_ascii_whitespace` has it.
pub open spec fn ascii_ws(c: char) -> bool {
    c == ' ' || c == '\t' || c == '\n' || c == '\u{c}' || c == '\r'
}

/// Where white space and comments starting at `p` end. `mode` is 0 between them, 1 inside a
/// line comment, 2 inside a block comment.
pub open spec fn trivia_end(s: Seq<char>, p: int, mode: int) -> int
    decreases s.len() - p, mode,
{
    if p >= s.len() || p < 0 {
        if mode == 2 && p >= 0 {
            s.len() as int
        } else {
            p
        }
    } else if mode == 1 {
        if s[p] == '\n' {
            trivia_end(s, p, 0)
        } else {
            trivia_end(s, p + 1, 1)
        }
    } else if mode == 2 {
        if s[p] == '*' && p + 1 < s.len() && s[p + 1] == '/' {
            trivia_end(s, p + 2, 0)
        } else {
            trivia_end(s, p + 1, 2)
        }
    } else if ascii_ws(s[p]) {
        trivia_end(s, p + 1, 0)
    } else if s[p] == '#' {
        trivia_end(s, p + 1, 1)
    } else if s[p] == '/' && p + 1 < s.len() && s[p + 1] == '/' {
        trivia_end(s, p + 2, 1)
    } else if s[p] == '/' && p + 1 < s.len() && s[p + 1] == '*' {
        trivia_end(s, p + 2, 2)
    } else {
        p
    }
}

/// Where spaces and comments starting at `p` end without crossing a line: a newline
/// separates. `mode` is 0 between them, 1 inside a line comment.
pub open spec fn inline_end(s: Seq<char>, p: int, mode: int) -> int
    decreases s.len() - p,
{
    if p >= s.len() || p < 0 {
        p
    } else if mode == 1 {
        if s[p] == '\n' {
            p
        } else {
            inline_end(s, p + 1, 1)
        }
    } else if s[p] == ' ' || s[p] == '\t' || s[p] == '\r' {
        inline_end(s, p + 1, 0)
    } else if s[p] == '#' {
        inline_end(s, p + 1, 1)
    } else if s[p] == '/' && p + 1 < s.len() && s[p + 1] == '/' {
        inline_end(s, p + 2, 1)
    } else {
        p
    }
}

/// Where a key written without quotes, starting at `p`, ends.
pub open spec fn bare_key_end(s: Seq<char>, p: int) -> int
    decreases s.len() - p,
{
    if p < 0 || p >= s.len() || s[p] == ':' || ascii_ws(s[p]) || s[p] == ',' || s[p] == '{' || s[p] == '}' {
        p
    } else {
        bare_key_end(s, p + 1)
    }
}

/// Where a value written without quotes, starting at `p`, runs to: a comma, a closing
/// bracket, or the end of the line.
pub open spec fn quoteless_end(s: Seq<char>, p: int) -> int
    decreases s.len() - p,
{
    if p < 0 || p >= s.len() || s[p] == ',' || s[p] == '}' || s[p] == ']' || s[p] == '\n' || s[p] == '\r' {
        p
    } else {
        quoteless_end(s, p + 1)
    }
}

/// Where the text between `p` and `e` ends once trailing white space is trimmed, as
/// `str::trim_end` trims.
pub open spec fn trim_end_at(s: Seq<char>, p: int, e: int) -> int
    decreases e - p,
{
    if e <= p || !is_ws(s[e - 1]) {
        e
    } else {
        trim_end_at(s, p, e - 1)
    }
}

/// A character takes one to four bytes.
pub proof fn lemma_clen_bounds(c: char)
    ensures
        1 <= clen(c) <= 4,
{
}

/// A run of whole characters that makes `n` bytes stays within the source.
pub proof fn lemma_chars_for_bytes_bound(s: Seq<char>, p: int, n: int)
    ensures
        chars_for_bytes(s, p, n) matches Some(k) ==> 0 <= k && (k > 0 ==> 0 <= p && p + k <= s.len()),
    decreases n,
{
    if n > 0 && 0 <= p < s.len() && clen(s[p]) <= n {
        lemma_clen_bounds(s[p]);
        lemma_chars_for_bytes_bound(s, p + 1, n - clen(s[p]));
    }
}

/// The number of characters from `p` whose UTF-8 encodings make exactly `n` bytes, if a
/// run of whole characters does.
pub open spec fn chars_for_bytes(s: Seq<char>, p: int, n: int) -> Option<int>
    decreases n,
{
    if n <= 0 {
        if n == 0 {
            Some(0)
        } else {
            None
        }
    } else if p < 0 || p >= s.len() || clen(s[p]) > n {
        None
    } else {
        proof {
            lemma_clen_bounds(s[p]);
        }
        match chars_for_bytes(s, p + 1, n - clen(s[p])) {
            Some(k) => Some(k + 1),
            None => None,
        }
    }
}

/// The value of a hexadecimal digit, if `c` is one.
pub open spec fn hex_digit(c: char) -> Option<u32> {
    if '0' <= c <= '9' {
        Some((c as u32 - '0' as u32) as u32)
    } else if 'a' <= c <= 'f' {
        Some((c as u32 - 'a' as u32 + 10) as u32)
    } else if 'A' <= c <= 'F' {
        Some((c as u32 - 'A' as u32 + 10) as u32)
    } else {
        None
    }
}

/// Four characters read as `u32::from_str_radix(_, 16)` reads them: four hexadecimal digits,
/// or a plus sign and three.
pub open spec fn hex4(t: Seq<char>) -> Option<u32> {
    if t.len() != 4 {
        None
    } else if t[0] == '+' {
        match (hex_digit(t[1]), hex_digit(t[2]), hex_digit(t[3])) {
            (Some(a), Some(b), Some(c)) => Some((a * 256 + b * 16 + c) as u32),
            _ => None,
        }
    } else {
        match (hex_digit(t[0]), hex_digit(t[1]), hex_digit(t[2]), hex_digit(t[3])) {
            (Some(a), Some(b), Some(c), Some(d)) => Some((a * 4096 + b * 256 + c * 16 + d) as u32),
            _ => None,
        }
    }
}

/// What `other as char` gives for the first byte of `c`'s encoding: the character with that
/// byte's value.
pub open spec fn lead_char(c: char) -> char {
    (encode_scalar(c as u32)[0] as u32) as char
}

/// The character a simple escape stands for.
pub open spec fn simple_escape(e: char) -> Option<char> {
    if e == '"' {
        Some('"')
    } else if e == '\\' {
        Some('\\')
    } else if e == '/' {
        Some('/')
    } else if e == 'n' {
        Some('\n')
    } else if e == 't' {
        Some('\t')
    } else if e == 'r' {
        Some('\r')
    } else if e == 'b' {
        Some('\u{8}')
    } else if e == 'f' {
        Some('\u{c}')
    } else {
        None
    }
}

/// Reading the rest of a quoted string from `p`, with `acc` read so far: the text and where
/// reading stops, just past the closing quote.
pub open spec fn quoted_walk(s: Seq<char>, base: int, p: int, acc: Seq<char>) -> Result<(Seq<char>, int), HErrView>
    decreases s.len() - p,
{
    if p < 0 || p >= s.len() {
        Err(herr(s, base, p, eof_msg("string"@)))
    } else if s[p] == '"' {
        Ok((acc, p + 1))
    } else if s[p] == '\\' {
        if p + 1 >= s.len() {
            Err(herr(s, base, p + 1, eof_msg("escape"@)))
        } else {
            let e = s[p + 1];
            match simple_escape(e) {
                Some(c) => quoted_walk(s, base, p + 2, acc.push(c)),
                None => if e == 'u' {
                    let h = p + 2;
                    proof {
                        lemma_chars_for_bytes_bound(s, h, 4);
                    }
                    match chars_for_bytes(s, h, 4) {
                        None => Err(herr(s, base, h, eof_msg("unicode escape"@))),
                        Some(k) => if k != 4 || hex4(s.subrange(h, h + 4)) is None {
                            Err(herr(s, base, h, "invalid unicode escape"@))
                        } else {
                            let n = hex4(s.subrange(h, h + 4))->Some_0;
                            if 0xD800 <= n <= 0xDFFF {
                                Err(herr(s, base, h, "invalid code point"@))
                            } else {
                                quoted_walk(s, base, h + 4, acc.push(n as char))
                            }
                        },
                    }
                } else {
                    Err(herr(s, base, p + 1, "unknown escape `\\"@ + seq![lead_char(e)] + "`"@))
                },
            }
        }
    } else {
        quoted_walk(s, base, p + 1, acc.push(s[p]))
    }
}

/// Reading a quoted string at `p`, which holds the opening quote.
pub open spec fn quoted_at(s: Seq<char>, base: int, p: int) -> Result<(Seq<char>, int), HErrView> {
    quoted_walk(s, base, p + 1, Seq::empty())
}

/// Reading a key at `p`: a quoted string, or a run of characters up to a colon, white space,
/// a comma or a brace.
pub open spec fn key_at(s: Seq<char>, base: int, p: int) -> Result<((Seq<char>, Span), int), HErrView> {
    if 0 <= p < s.len() && s[p] == '"' {
        match quoted_at(s, base, p) {
            Err(e) => Err(e),
            Ok((t, q)) => Ok(((t, span_of(s, base, p, q)), q)),
        }
    } else {
        let q = bare_key_end(s, p);
        if q == p {
            Err(herr(s, base, p, "expected a key"@))
        } else {
            Ok(((s.subrange(p, q), span_of(s, base, p, q)), q))
        }
    }
}

/// The position after an optional sign at `i`.
pub open spec fn after_sign(t: Seq<char>, i: int) -> int {
    if 0 <= i < t.len() && (t[i] == '+' || t[i] == '-') {
        i + 1
    } else {
        i
    }
}

/// Where a run of decimal digits starting at `i` ends.
pub open spec fn digits_end(t: Seq<char>, i: int) -> int
    decreases t.len() - i,
{
    if i < 0 || i >= t.len() || !is_digit(t[i]) {
        i
    } else {
        digits_end(t, i + 1)
    }
}

/// Whether `t` is read by `str::parse::<f64>` without its `inf` and `nan` forms: an optional
/// sign, digits with at most one point and at least one digit, and an optional exponent of
/// `e` or `E`, an optional sign and digits.
pub open spec fn float_text(t: Seq<char>) -> bool {
    let i0 = after_sign(t, 0);
    let i1 = digits_end(t, i0);
    let frac = i1 < t.len() && t[i1] == '.';
    let i2 = if frac { digits_end(t, i1 + 1) } else { i1 };
    let mantissa = (i1 - i0) + (if frac { i2 - i1 - 1 } else { 0 });
    &&& mantissa > 0
    &&& (i2 == t.len() || ((t[i2] == 'e' || t[i2] == 'E') && {
        let i3 = after_sign(t, i2 + 1);
        let i4 = digits_end(t, i3);
        i4 > i3 && i4 == t.len()
    }))
}

/// `t` read as `str::parse::<i64>` reads it: an optional sign and decimal digits, in range.
pub open spec fn i64_text(t: Seq<char>) -> Option<i64> {
    let i0 = after_sign(t, 0);
    let d = t.skip(i0);
    if d.len() == 0 || !all_digits(d) {
        None
    } else {
        let v = if i0 == 1 && t[0] == '-' { -digits_value(d) } else { digits_value(d) };
        if i64::MIN <= v <= i64::MAX {
            Some(v as i64)
        } else {
            None
        }
    }
}

/// What a token written without quotes is: a literal, an integer, a number, or else a string,
/// which is what lets dates, versions and ids go unquoted.
pub open spec fn classify(t: Seq<char>) -> HView {
    if t == "true"@ {
        HView::Bool(true)
    } else if t == "false"@ {
        HView::Bool(false)
    } else if t == "null"@ {
        HView::Null
    } else if i64_text(t) is Some {
        HView::Int(i64_text(t)->Some_0)
    } else if float_text(t) {
        HView::Float(t)
    } else {
        HView::Str(t)
    }
}

/// Reading a value written without quotes at `p`: up to a comma, a closing bracket or the end
/// of the line, trailing white space trimmed.
pub open spec fn quoteless_at(s: Seq<char>, base: int, p: int) -> Result<((HView, Span), int), HErrView> {
    let e = trim_end_at(s, p, quoteless_end(s, p));
    if e == p {
        Err(herr(s, base, p, "expected a value"@))
    } else {
        Ok(((classify(s.subrange(p, e)), span_of(s, base, p, e)), e))
    }
}

/// The measure that bounds the descent: nesting left before the limit.
pub open spec fn depth_room(depth: int) -> int {
    if depth <= depth_limit() {
        depth_limit() + 1 - depth
    } else {
        0
    }
}

/// Reading a value at `p`, at nesting `depth`: spaces and comments on the same line first,
/// then an object, an array, a quoted string, or a token.
pub open spec fn value_at(s: Seq<char>, base: int, p: int, depth: int) -> Result<((HView, Span), int), HErrView>
    decreases depth_room(depth), 3int, s.len() - p,
{
    let p1 = inline_end(s, p, 0);
    if p1 < 0 || p1 >= s.len() {
        Err(herr(s, base, p1, eof_msg("value"@)))
    } else if s[p1] == '{' {
        match object_at(s, base, p1, depth + 1) {
            Err(e) => Err(e),
            Ok(((o, sp), q)) => Ok(((HView::Object(o), sp), q)),
        }
    } else if s[p1] == '[' {
        array_at(s, base, p1, depth + 1)
    } else if s[p1] == '"' {
        match quoted_at(s, base, p1) {
            Err(e) => Err(e),
            Ok((t, q)) => Ok(((HView::Str(t), span_of(s, base, p1, q)), q)),
        }
    } else {
        quoteless_at(s, base, p1)
    }
}

/// Reading an object at `p`, at nesting `depth`.
pub open spec fn object_at(s: Seq<char>, base: int, p: int, depth: int) -> Result<((Seq<(Seq<char>, Span, HView, Span)>, Span), int), HErrView>
    decreases depth_room(depth), 2int, s.len() - p,
{
    if depth > depth_limit() {
        Err(herr(s, base, p, nesting_msg()))
    } else if p < 0 || p >= s.len() || s[p] != '{' {
        Err(herr(s, base, p, "expected `{`"@))
    } else {
        object_walk(s, base, p, p + 1, depth, Seq::empty())
    }
}

/// Reading the rest of an object that began at `start`, from `p`, with the entries `acc`
/// read so far. Commas between entries are optional, and repeated ones are passed over.
pub open spec fn object_walk(s: Seq<char>, base: int, start: int, p: int, depth: int, acc: Seq<(Seq<char>, Span, HView, Span)>) -> Result<((Seq<(Seq<char>, Span, HView, Span)>, Span), int), HErrView>
    decreases depth_room(depth), 0int, s.len() - p,
{
    let q = trivia_end(s, p, 0);
    if depth > depth_limit() {
        Err(herr(s, base, p, nesting_msg()))
    } else if q < p || q >= s.len() {
        Err(herr(s, base, q, eof_msg("object"@)))
    } else if s[q] == '}' {
        Ok(((acc, span_of(s, base, start, q + 1)), q + 1))
    } else if s[q] == ',' {
        object_walk(s, base, start, q + 1, depth, acc)
    } else {
        match key_at(s, base, q) {
            Err(e) => Err(e),
            Ok(((k, ksp), q1)) => {
                let q2 = trivia_end(s, q1, 0);
                if q2 < 0 || q2 >= s.len() || s[q2] != ':' {
                    Err(herr(s, base, q2, "expected `:` after key `"@ + k + "`"@))
                } else {
                    match value_at(s, base, inline_end(s, q2 + 1, 0), depth + 1) {
                        Err(e) => Err(e),
                        Ok(((v, vsp), q3)) => if p < q3 <= s.len() {
                            object_walk(s, base, start, q3, depth, acc.push((k, ksp, v, vsp)))
                        } else {
                            // reading a value always moves forward, so this does not happen
                            Err(herr(s, base, q3, eof_msg("object"@)))
                        },
                    }
                }
            },
        }
    }
}

/// Reading an array at `p`, which holds its opening bracket, at nesting `depth`.
pub open spec fn array_at(s: Seq<char>, base: int, p: int, depth: int) -> Result<((HView, Span), int), HErrView>
    decreases depth_room(depth), 2int, s.len() - p,
{
    if depth > depth_limit() {
        Err(herr(s, base, p, nesting_msg()))
    } else {
        array_walk(s, base, p, p + 1, depth, Seq::empty())
    }
}

/// Reading the rest of an array that began at `start`, from `p`, with the items `acc` read
/// so far.
pub open spec fn array_walk(s: Seq<char>, base: int, start: int, p: int, depth: int, acc: Seq<(HView, Span)>) -> Result<((HView, Span), int), HErrView>
    decreases depth_room(depth), 0int, s.len() - p,
{
    let q = trivia_end(s, p, 0);
    if depth > depth_limit() {
        Err(herr(s, base, p, nesting_msg()))
    } else if q < p || q >= s.len() {
        Err(herr(s, base, q, eof_msg("array"@)))
    } else if s[q] == ']' {
        Ok(((HView::Array(acc), span_of(s, base, start, q + 1)), q + 1))
    } else if s[q] == ',' {
        array_walk(s, base, start, q + 1, depth, acc)
    } else {
        match value_at(s, base, q, depth + 1) {
            Err(e) => Err(e),
            Ok(((v, vsp), q3)) => if p < q3 <= s.len() {
                array_walk(s, base, start, q3, depth, acc.push((v, vsp)))
            } else {
                // reading a value always moves forward, so this does not happen
                Err(herr(s, base, q3, eof_msg("array"@)))
            },
        }
    }
}

// ---------------------------------------------------------------------------
// The parser
// ---------------------------------------------------------------------------

/// `char::from_u32`: the character with code point `n`, unless `n` is a surrogate or beyond
/// the last code point.
#[verifier::external_body]
fn char_from_u32(n: u32) -> (r: Option<char>)
    ensures
        r is Some <==> (n < 0xD800 || (0xDFFF < n && n <= 0x10FFFF)),
        r matches Some(c) ==> c as u32 == n,
{
    char::from_u32(n)
}

/// The source being parsed: its characters, the byte offset each stands at (and the end's),
/// and the offset of the whole source in a larger text.
struct Src {
    cs: Vec<char>,
    offs: Vec<usize>,
    base: usize,
}

impl Src {
    spec fn ok(&self) -> bool {
        &&& self.offs@.len() == self.cs@.len() + 1
        &&& forall|i: int| 0 <= i <= self.cs@.len() ==> #[trigger] self.offs@[i] == byte_at(self.cs@, i)
        &&& self.base + byte_at(self.cs@, self.cs@.len() as int) <= usize::MAX
    }
}

/// Byte offsets grow with character positions.
proof fn lemma_byte_at_mono(s: Seq<char>, i: int, j: int)
    requires
        0 <= i <= j <= s.len(),
    ensures
        byte_at(s, i) <= byte_at(s, j),
{
    crate::quote::lemma_encode_concat(s.take(i), s.subrange(i, j));
    assert(s.take(i) + s.subrange(i, j) =~= s.take(j));
}

/// The error at character position `p`.
fn err_at(src: &Src, p: usize, message: String) -> (e: HError)
    requires
        src.ok(),
        p <= src.cs@.len(),
    ensures
        e.at == herr(src.cs@, src.base as int, p as int, message@).at,
        e.message@ == message@,
{
    proof {
        lemma_byte_at_mono(src.cs@, p as int, src.cs@.len() as int);
    }
    HError { at: src.base + src.offs[p], message }
}

/// The error of input ending inside `what`.
fn eof(src: &Src, p: usize, what: &str) -> (e: HError)
    requires
        src.ok(),
        p <= src.cs@.len(),
    ensures
        e.at == herr(src.cs@, src.base as int, p as int, eof_msg(what@)).at,
        e.message@ == eof_msg(what@),
{
    let mut m = owned("unexpected end of input in ");
    push_str(&mut m, what);
    proof {
        reveal_strlit("unexpected end of input in ");
    }
    err_at(src, p, m)
}

/// The span from character `a` to character `b`.
fn span(src: &Src, a: usize, b: usize) -> (sp: Span)
    requires
        src.ok(),
        a <= b <= src.cs@.len(),
    ensures
        sp == span_of(src.cs@, src.base as int, a as int, b as int),
{
    proof {
        lemma_byte_at_mono(src.cs@, a as int, src.cs@.len() as int);
        lemma_byte_at_mono(src.cs@, b as int, src.cs@.len() as int);
    }
    Span::new(src.base + src.offs[a], src.base + src.offs[b])
}

fn is_ascii_ws(c: char) -> (r: bool)
    ensures
        r == ascii_ws(c),
{
    c == ' ' || c == '\t' || c == '\n' || c == '\u{c}' || c == '\r'
}

/// Skips white space and comments.
fn skip_trivia(cs: &Vec<char>, p: usize) -> (r: usize)
    requires
        p <= cs@.len(),
    ensures
        r == trivia_end(cs@, p as int, 0),
        p <= r <= cs@.len(),
{
    let ghost s = cs@;
    let n = cs.len();
    let mut i = p;
    let mut mode: usize = 0;
    loop
        invariant
            p <= i <= n,
            n == s.len(),
            s == cs@,
            mode <= 2,
            trivia_end(s, p as int, 0) == trivia_end(s, i as int, mode as int),
        decreases n - i, mode,
    {
        if i >= n {
            if mode == 2 {
                i = n;
            }
            return i;
        }
        let c = cs[i];
        if mode == 1 {
            if c == '\n' {
                mode = 0;
            } else {
                i = i + 1;
            }
        } else if mode == 2 {
            if c == '*' && i + 1 < n && cs[i + 1] == '/' {
                i = i + 2;
                mode = 0;
            } else {
                i = i + 1;
            }
        } else if is_ascii_ws(c) {
            i = i + 1;
        } else if c == '#' {
            i = i + 1;
            mode = 1;
        } else if c == '/' && i + 1 < n && cs[i + 1] == '/' {
            i = i + 2;
            mode = 1;
        } else if c == '/' && i + 1 < n && cs[i + 1] == '*' {
            i = i + 2;
            mode = 2;
        } else {
            return i;
        }
    }
}

/// Skips spaces and comments, stopping at a newline.
fn skip_inline(cs: &Vec<char>, p: usize) -> (r: usize)
    requires
        p <= cs@.len(),
    ensures
        r == inline_end(cs@, p as int, 0),
        p <= r <= cs@.len(),
{
    let ghost s = cs@;
    let n = cs.len();
    let mut i = p;
    let mut mode: usize = 0;
    loop
        invariant
            p <= i <= n,
            n == s.len(),
            s == cs@,
            mode <= 1,
            inline_end(s, p as int, 0) == inline_end(s, i as int, mode as int),
        decreases n - i,
    {
        if i >= n {
            return i;
        }
        let c = cs[i];
        if mode == 1 {
            if c == '\n' {
                return i;
            }
            i = i + 1;
        } else if c == ' ' || c == '\t' || c == '\r' {
            i = i + 1;
        } else if c == '#' {
            i = i + 1;
            mode = 1;
        } else if c == '/' && i + 1 < n && cs[i + 1] == '/' {
            i = i + 2;
            mode = 1;
        } else {
            return i;
        }
    }
}

fn find_bare_key_end(cs: &Vec<char>, p: usize) -> (r: usize)
    requires
        p <= cs@.len(),
    ensures
        r == bare_key_end(cs@, p as int),
        p <= r <= cs@.len(),
{
    let mut i = p;
    while i < cs.len() && !(cs[i] == ':' || is_ascii_ws(cs[i]) || cs[i] == ',' || cs[i] == '{' || cs[i] == '}')
        invariant
            p <= i <= cs@.len(),
            bare_key_end(cs@, p as int) == bare_key_end(cs@, i as int),
        decreases cs@.len() - i,
    {
        i = i + 1;
    }
    i
}

fn find_quoteless_end(cs: &Vec<char>, p: usize) -> (r: usize)
    requires
        p <= cs@.len(),
    ensures
        r == quoteless_end(cs@, p as int),
        p <= r <= cs@.len(),
{
    let mut i = p;
    while i < cs.len() && !(cs[i] == ',' || cs[i] == '}' || cs[i] == ']' || cs[i] == '\n' || cs[i] == '\r')
        invariant
            p <= i <= cs@.len(),
            quoteless_end(cs@, p as int) == quoteless_end(cs@, i as int),
        decreases cs@.len() - i,
    {
        i = i + 1;
    }
    i
}

fn find_trim_end(cs: &Vec<char>, p: usize, e: usize) -> (r: usize)
    requires
        p <= e <= cs@.len(),
    ensures
        r == trim_end_at(cs@, p as int, e as int),
        p <= r <= e,
{
    let mut j = e;
    while j > p && is_whitespace(cs[j - 1])
        invariant
            p <= j <= e,
            e <= cs@.len(),
            trim_end_at(cs@, p as int, e as int) == trim_end_at(cs@, p as int, j as int),
        decreases j,
    {
        j = j - 1;
    }
    j
}

/// How many whole characters from `h` make four bytes, if a run of them does.
fn four_bytes(cs: &Vec<char>, h: usize) -> (r: Option<usize>)
    requires
        h <= cs@.len(),
    ensures
        match chars_for_bytes(cs@, h as int, 4) {
            Some(k) => r matches Some(j) && j == k,
            None => r is None,
        },
        r matches Some(k) ==> h + k <= cs@.len() && k <= 4,
{
    let ghost s = cs@;
    let n = cs.len();
    let mut acc: usize = 0;
    let mut k: usize = 0;
    while acc < 4
        invariant
            n == s.len(),
            acc <= 4,
            k <= acc,
            h + k <= s.len(),
            s == cs@,
            chars_for_bytes(s, h as int, 4) == match chars_for_bytes(s, (h + k) as int, 4 - acc) {
                Some(j) => Some(j + k),
                None => None::<int>,
            },
        decreases 4 - acc,
    {
        if h + k >= n {
            return None;
        }
        let w = char_len(cs[h + k]);
        if acc + w > 4 {
            return None;
        }
        acc = acc + w;
        k = k + 1;
    }
    Some(k)
}

fn hex_digit_of(c: char) -> (r: Option<u32>)
    ensures
        r == hex_digit(c),
{
    if '0' <= c && c <= '9' {
        Some(c as u32 - '0' as u32)
    } else if 'a' <= c && c <= 'f' {
        Some(c as u32 - 'a' as u32 + 10)
    } else if 'A' <= c && c <= 'F' {
        Some(c as u32 - 'A' as u32 + 10)
    } else {
        None
    }
}

/// The four characters from `h` read as a hexadecimal number.
fn read_hex4(cs: &Vec<char>, h: usize) -> (r: Option<u32>)
    requires
        h + 4 <= cs@.len(),
    ensures
        r == hex4(cs@.subrange(h as int, h + 4)),
{
    let n = cs.len();
    let ghost t = cs@.subrange(h as int, h + 4);
    assert(t[0] == cs@[h as int] && t[1] == cs@[h + 1] && t[2] == cs@[h + 2] && t[3] == cs@[h + 3]);
    if cs[h] == '+' {
        match (hex_digit_of(cs[h + 1]), hex_digit_of(cs[h + 2]), hex_digit_of(cs[h + 3])) {
            (Some(a), Some(b), Some(c)) => Some(a * 256 + b * 16 + c),
            _ => None,
        }
    } else {
        match (hex_digit_of(cs[h]), hex_digit_of(cs[h + 1]), hex_digit_of(cs[h + 2]), hex_digit_of(cs[h + 3])) {
            (Some(a), Some(b), Some(c), Some(d)) => Some(a * 4096 + b * 256 + c * 16 + d),
            _ => None,
        }
    }
}

/// The character whose value is the first byte of `c`'s encoding.
fn lead_char_of(c: char) -> (r: char)
    ensures
        r == lead_char(c),
{
    let v = c as u32;
    proof {
        vstd::utf8::char_is_scalar(c);
    }
    let b: u8 = if v < 0x80 {
        let b = (v & 0x7F) as u8;
        assert(b == vstd::utf8::leading_byte_width_1(v));
        b
    } else if v < 0x800 {
        let b = 0xC0 | ((v >> 6) & 0x1F) as u8;
        assert(b == vstd::utf8::leading_byte_width_2(v));
        b
    } else if v < 0x10000 {
        let b = 0xE0 | ((v >> 12) & 0x0F) as u8;
        assert(b == vstd::utf8::leading_byte_width_3(v));
        b
    } else {
        let b = 0xF0 | ((v >> 18) & 0x7) as u8;
        assert(b == vstd::utf8::leading_byte_width_4(v));
        b
    };
    assert(b == encode_scalar(v)[0]);
    match char_from_u32(b as u32) {
        Some(x) => {
            proof {
                vstd::utf8::char_u32_cast(x, b as u32);
            }
            x
        },
        None => {
            assert(false);
            ' '
        },
    }
}

/// The character a simple escape stands for.
fn simple_escape_of(e: char) -> (r: Option<char>)
    ensures
        r == simple_escape(e),
{
    if e == '"' {
        Some('"')
    } else if e == '\\' {
        Some('\\')
    } else if e == '/' {
        Some('/')
    } else if e == 'n' {
        Some('\n')
    } else if e == 't' {
        Some('\t')
    } else if e == 'r' {
        Some('\r')
    } else if e == 'b' {
        Some('\u{8}')
    } else if e == 'f' {
        Some('\u{c}')
    } else {
        None
    }
}

/// Reads a quoted string at `p`, which holds the opening quote.
fn quoted(src: &Src, p: usize) -> (r: Result<(String, usize), HError>)
    requires
        src.ok(),
        p < src.cs@.len(),
    ensures
        match quoted_at(src.cs@, src.base as int, p as int) {
            Ok((t, q)) => r matches Ok((x, q2)) && x@ == t && q2 == q && p < q <= src.cs@.len(),
            Err(e) => r matches Err(x) && x.at == e.at && x.message@ == e.message,
        },
{
    let ghost s = src.cs@;
    let ghost base = src.base as int;
    let cs = &src.cs;
    let n = cs.len();
    let mut out = String::new();
    let mut i = p + 1;
    assert(out@ =~= Seq::<char>::empty());
    loop
        invariant
            p < i <= n,
            n == s.len(),
            s == src.cs@,
            cs@ == s,
            base == src.base,
            src.ok(),
            quoted_at(s, base, p as int) == quoted_walk(s, base, i as int, out@),
        decreases n - i,
    {
        if i >= n {
            return Err(eof(src, i, "string"));
        }
        let c = cs[i];
        if c == '"' {
            return Ok((out, i + 1));
        }
        if c == '\\' {
            if i + 1 >= n {
                return Err(eof(src, i + 1, "escape"));
            }
            let e = cs[i + 1];
            match simple_escape_of(e) {
                Some(x) => {
                    push_char(&mut out, x);
                    i = i + 2;
                },
                None => {
                    if e == 'u' {
                        let h = i + 2;
                        match four_bytes(cs, h) {
                            None => return Err(eof(src, h, "unicode escape")),
                            Some(k) => {
                                if k != 4 {
                                    return Err(err_at(src, h, owned("invalid unicode escape")));
                                }
                                match read_hex4(cs, h) {
                                    None => return Err(err_at(src, h, owned("invalid unicode escape"))),
                                    Some(v) => {
                                        if 0xD800 <= v && v <= 0xDFFF {
                                            return Err(err_at(src, h, owned("invalid code point")));
                                        }
                                        match char_from_u32(v) {
                                            Some(ch) => {
                                                proof {
                                                    vstd::utf8::char_u32_cast(ch, v);
                                                }
                                                push_char(&mut out, ch);
                                                i = h + 4;
                                            },
                                            None => {
                                                assert(false);
                                                return Err(err_at(src, h, owned("invalid code point")));
                                            },
                                        }
                                    },
                                }
                            },
                        }
                    } else {
                        let mut m = owned("unknown escape `\\");
                        push_char(&mut m, lead_char_of(e));
                        push_str(&mut m, "`");
                        return Err(err_at(src, i + 1, m));
                    }
                },
            }
        } else {
            push_char(&mut out, c);
            i = i + 1;
        }
    }
}

/// Reads a key at `p`.
fn key(src: &Src, p: usize) -> (r: Result<(Spanned<String>, usize), HError>)
    requires
        src.ok(),
        p <= src.cs@.len(),
    ensures
        match key_at(src.cs@, src.base as int, p as int) {
            Ok(((k, sp), q)) => r matches Ok((x, q2)) && x.value@ == k && x.span == sp && q2 == q && p < q
                <= src.cs@.len(),
            Err(e) => r matches Err(x) && x.at == e.at && x.message@ == e.message,
        },
{
    if p < src.cs.len() && src.cs[p] == '"' {
        match quoted(src, p) {
            Err(e) => Err(e),
            Ok((t, q)) => Ok((Spanned::new(t, span(src, p, q)), q)),
        }
    } else {
        let q = find_bare_key_end(&src.cs, p);
        if q == p {
            Err(err_at(src, p, owned("expected a key")))
        } else {
            Ok((Spanned::new(string_from_range(&src.cs, p, q), span(src, p, q)), q))
        }
    }
}

/// Decimal digits keep their value as a prefix of a longer run of digits, and never go below
/// zero.
proof fn lemma_digits_prefix(d: Seq<char>, k: int)
    requires
        all_digits(d),
        0 <= k <= d.len(),
    ensures
        0 <= digits_value(d.take(k)) <= digits_value(d),
    decreases d.len(),
{
    if k == d.len() {
        assert(d.take(k) =~= d);
        if d.len() > 0 {
            lemma_digits_prefix(d.drop_last(), k - 1);
            assert(d.drop_last().take(k - 1) =~= d.drop_last());
        }
    } else {
        lemma_digits_prefix(d.drop_last(), k);
        assert(d.drop_last().take(k) =~= d.take(k));
        lemma_digits_prefix(d.drop_last(), d.len() - 1);
        assert(d.drop_last().take(d.len() - 1) =~= d.drop_last());
    }
}

/// A token read as `str::parse::<i64>` reads it.
fn i64_of(t: &Vec<char>) -> (r: Option<i64>)
    ensures
        r == i64_text(t@),
{
    let n = t.len();
    let neg = n > 0 && t[0] == '-';
    let start: usize = if n > 0 && (t[0] == '+' || t[0] == '-') { 1 } else { 0 };
    let ghost d = t@.skip(start as int);
    if start == n {
        return None;
    }
    let limit: u64 = if neg { 0x8000_0000_0000_0000 } else { 0x7FFF_FFFF_FFFF_FFFF };
    let mut acc: u64 = 0;
    let mut i = start;
    assert(d.take(0) =~= Seq::<char>::empty());
    while i < n
        invariant
            start <= i <= n,
            n == t@.len(),
            d == t@.skip(start as int),
            start == after_sign(t@, 0),
            acc == digits_value(d.take(i - start)),
            all_digits(d.take(i - start)),
            acc <= limit,
            0x7FFF_FFFF_FFFF_FFFF <= limit <= 0x8000_0000_0000_0000,
            limit == (if neg { 0x8000_0000_0000_0000u64 } else { 0x7FFF_FFFF_FFFF_FFFFu64 }),
            neg == (t@.len() > 0 && t@[0] == '-'),
        decreases n - i,
    {
        let c = t[i];
        if !('0' <= c && c <= '9') {
            assert(d[i - start] == c);
            assert(!is_digit(d[i - start]));
            return None;
        }
        let dg = (c as u32 - '0' as u32) as u64;
        assert(d.take(i - start + 1).drop_last() =~= d.take(i - start));
        if acc > (limit - dg) / 10 {
            proof {
                assert(acc * 10 + dg > limit) by (nonlinear_arith)
                    requires
                        acc > (limit - dg) / 10,
                        dg <= 9,
                        dg <= limit,
                ;
                assert(d[i - start] == c);
                assert(d.take(i - start + 1).last() == c);
                assert(digits_value(d.take(i - start + 1)) == acc * 10 + dg);
                if all_digits(d) {
                    lemma_digits_prefix(d, i - start + 1);
                    assert(digits_value(d) > limit);
                }
            }
            return None;
        }
        assert(acc * 10 + dg <= limit) by (nonlinear_arith)
            requires
                acc <= (limit - dg) / 10,
                dg <= 9,
                dg <= limit,
        ;
        acc = acc * 10 + dg;
        i = i + 1;
    }
    assert(d.take(n - start) =~= d);
    if neg {
        if acc == 0x8000_0000_0000_0000 {
            Some(i64::MIN)
        } else {
            Some(-(acc as i64))
        }
    } else {
        Some(acc as i64)
    }
}

/// Where a run of decimal digits from `i` ends.
fn digits_to(t: &Vec<char>, i: usize) -> (r: usize)
    requires
        i <= t@.len(),
    ensures
        r == digits_end(t@, i as int),
        i <= r <= t@.len(),
{
    let mut j = i;
    while j < t.len() && '0' <= t[j] && t[j] <= '9'
        invariant
            i <= j <= t@.len(),
            digits_end(t@, i as int) == digits_end(t@, j as int),
        decreases t@.len() - j,
    {
        j = j + 1;
    }
    j
}

/// Whether a token reads as a floating-point number.
pub(crate) fn float_text_of(t: &Vec<char>) -> (r: bool)
    ensures
        r == float_text(t@),
{
    let n = t.len();
    let i0: usize = if n > 0 && (t[0] == '+' || t[0] == '-') { 1 } else { 0 };
    let i1 = digits_to(t, i0);
    let frac = i1 < n && t[i1] == '.';
    let i2 = if frac { digits_to(t, i1 + 1) } else { i1 };
    let mantissa = (i1 - i0) + (if frac { i2 - i1 - 1 } else { 0 });
    if mantissa == 0 {
        return false;
    }
    if i2 == n {
        return true;
    }
    if !(t[i2] == 'e' || t[i2] == 'E') {
        return false;
    }
    let i3 = if i2 + 1 < n && (t[i2 + 1] == '+' || t[i2 + 1] == '-') { i2 + 2 } else { i2 + 1 };
    let i4 = digits_to(t, i3);
    i4 > i3 && i4 == n
}

/// What a token written without quotes is.
fn classify_token(t: String) -> (v: HValue)
    ensures
        hview(v) == classify(t@),
{
    if str_eq(t.as_str(), "true") {
        HValue::Bool(true)
    } else if str_eq(t.as_str(), "false") {
        HValue::Bool(false)
    } else if str_eq(t.as_str(), "null") {
        HValue::Null
    } else {
        let tv = chars_of(t.as_str());
        match i64_of(&tv) {
            Some(i) => HValue::Int(i),
            None => if float_text_of(&tv) {
                HValue::Float(t)
            } else {
                HValue::Str(t)
            },
        }
    }
}

/// Reads a value written without quotes at `p`.
fn quoteless(src: &Src, p: usize) -> (r: Result<(Spanned<HValue>, usize), HError>)
    requires
        src.ok(),
        p <= src.cs@.len(),
    ensures
        match quoteless_at(src.cs@, src.base as int, p as int) {
            Ok(((v, sp), q)) => r matches Ok((x, q2)) && hview(x.value) == v && x.span == sp && q2 == q && p < q
                <= src.cs@.len(),
            Err(e) => r matches Err(x) && x.at == e.at && x.message@ == e.message,
        },
{
    let q0 = find_quoteless_end(&src.cs, p);
    let e = find_trim_end(&src.cs, p, q0);
    if e == p {
        return Err(err_at(src, p, owned("expected a value")));
    }
    let t = string_from_range(&src.cs, p, e);
    Ok((Spanned::new(classify_token(t), span(src, p, e)), e))
}

/// The error of nesting deeper than the limit, at `p`.
fn nesting_err(src: &Src, p: usize) -> (e: HError)
    requires
        src.ok(),
        p <= src.cs@.len(),
    ensures
        e.at == herr(src.cs@, src.base as int, p as int, nesting_msg()).at,
        e.message@ == nesting_msg(),
{
    let mut m = owned("nesting deeper than ");
    push_decimal(&mut m, crate::cbor::MAX_NESTING as u64);
    err_at(src, p, m)
}

/// Reads a value at `p`, at nesting `depth`.
fn value(src: &Src, p: usize, depth: usize) -> (r: Result<(Spanned<HValue>, usize), HError>)
    requires
        src.ok(),
        p <= src.cs@.len(),
        depth <= depth_limit() + 1,
    ensures
        match value_at(src.cs@, src.base as int, p as int, depth as int) {
            Ok(((v, sp), q)) => r matches Ok((x, q2)) && hview(x.value) == v && x.span == sp && q2 == q && p < q
                <= src.cs@.len(),
            Err(e) => r matches Err(x) && x.at == e.at && x.message@ == e.message,
        },
    decreases depth_room(depth as int), 3int, src.cs@.len() - p,
{
    let p1 = skip_inline(&src.cs, p);
    if p1 >= src.cs.len() {
        return Err(eof(src, p1, "value"));
    }
    let c = src.cs[p1];
    if c == '{' {
        match object(src, p1, depth + 1) {
            Err(e) => Err(e),
            Ok((o, q)) => Ok((Spanned::new(HValue::Object(o.value), o.span), q)),
        }
    } else if c == '[' {
        array(src, p1, depth + 1)
    } else if c == '"' {
        match quoted(src, p1) {
            Err(e) => Err(e),
            Ok((t, q)) => Ok((Spanned::new(HValue::Str(t), span(src, p1, q)), q)),
        }
    } else {
        quoteless(src, p1)
    }
}

/// Reads an object at `p`, at nesting `depth`.
fn object(src: &Src, p: usize, depth: usize) -> (r: Result<(Spanned<HObject>, usize), HError>)
    requires
        src.ok(),
        p <= src.cs@.len(),
        depth <= depth_limit() + 2,
    ensures
        match object_at(src.cs@, src.base as int, p as int, depth as int) {
            Ok(((o, sp), q)) => r matches Ok((x, q2)) && entries_hview(x.value.entries@) == o && x.span == sp && q2
                == q && p < q <= src.cs@.len(),
            Err(e) => r matches Err(x) && x.at == e.at && x.message@ == e.message,
        },
    decreases depth_room(depth as int), 2int, src.cs@.len() - p,
{
    let ghost s = src.cs@;
    let ghost base = src.base as int;
    let n = src.cs.len();
    if depth > crate::cbor::MAX_NESTING {
        return Err(nesting_err(src, p));
    }
    if p >= n || src.cs[p] != '{' {
        return Err(err_at(src, p, owned("expected `{`")));
    }
    let mut entries: Vec<(Spanned<String>, Spanned<HValue>)> = Vec::new();
    let mut i = p + 1;
    assert(entries_hview(entries@) =~= Seq::<(Seq<char>, Span, HView, Span)>::empty());
    loop
        invariant
            p < i <= n,
            n == s.len(),
            s == src.cs@,
            base == src.base,
            src.ok(),
            depth <= depth_limit(),
            object_at(s, base, p as int, depth as int) == object_walk(
                s,
                base,
                p as int,
                i as int,
                depth as int,
                entries_hview(entries@),
            ),
        decreases n - i,
    {
        let q = skip_trivia(&src.cs, i);
        if q >= n {
            return Err(eof(src, q, "object"));
        }
        let c = src.cs[q];
        if c == '}' {
            return Ok((Spanned::new(HObject { entries }, span(src, p, q + 1)), q + 1));
        }
        if c == ',' {
            i = q + 1;
        } else {
            let (k, q1) = match key(src, q) {
                Ok(x) => x,
                Err(e) => return Err(e),
            };
            let q2 = skip_trivia(&src.cs, q1);
            if q2 >= n || src.cs[q2] != ':' {
                let mut m = owned("expected `:` after key `");
                push_str(&mut m, k.value.as_str());
                push_str(&mut m, "`");
                return Err(err_at(src, q2, m));
            }
            let q2b = skip_inline(&src.cs, q2 + 1);
            let (v, q3) = match value(src, q2b, depth + 1) {
                Ok(x) => x,
                Err(e) => return Err(e),
            };
            let ghost before = entries@;
            let ghost item = (k.value@, k.span, hview(v.value), v.span);
            entries.push((k, v));
            assert(entries@.drop_last() =~= before);
            assert(entries_hview(entries@) == entries_hview(before).push(item));
            i = q3;
        }
    }
}

/// Reads an array at `p`, which holds its opening bracket, at nesting `depth`.
fn array(src: &Src, p: usize, depth: usize) -> (r: Result<(Spanned<HValue>, usize), HError>)
    requires
        src.ok(),
        p < src.cs@.len(),
        depth <= depth_limit() + 2,
    ensures
        match array_at(src.cs@, src.base as int, p as int, depth as int) {
            Ok(((v, sp), q)) => r matches Ok((x, q2)) && hview(x.value) == v && x.span == sp && q2 == q && p < q
                <= src.cs@.len(),
            Err(e) => r matches Err(x) && x.at == e.at && x.message@ == e.message,
        },
    decreases depth_room(depth as int), 2int, src.cs@.len() - p,
{
    let ghost s = src.cs@;
    let ghost base = src.base as int;
    let n = src.cs.len();
    if depth > crate::cbor::MAX_NESTING {
        return Err(nesting_err(src, p));
    }
    let mut items: Vec<Spanned<HValue>> = Vec::new();
    let mut i = p + 1;
    assert(items_hview(items@) =~= Seq::<(HView, Span)>::empty());
    loop
        invariant
            p < i <= n,
            n == s.len(),
            s == src.cs@,
            base == src.base,
            src.ok(),
            depth <= depth_limit(),
            array_at(s, base, p as int, depth as int) == array_walk(
                s,
                base,
                p as int,
                i as int,
                depth as int,
                items_hview(items@),
            ),
        decreases n - i,
    {
        let q = skip_trivia(&src.cs, i);
        if q >= n {
            return Err(eof(src, q, "array"));
        }
        let c = src.cs[q];
        if c == ']' {
            let ghost acc = items_hview(items@);
            let sp = span(src, p, q + 1);
            let x = HValue::Array(items);
            assert(hview(x) == HView::Array(acc));
            return Ok((Spanned::new(x, sp), q + 1));
        }
        if c == ',' {
            i = q + 1;
        } else {
            let (v, q3) = match value(src, q, depth + 1) {
                Ok(x) => x,
                Err(e) => return Err(e),
            };
            let ghost before = items@;
            let ghost item = (hview(v.value), v.span);
            items.push(v);
            assert(items@.drop_last() =~= before);
            assert(items_hview(items@) == items_hview(before).push(item));
            i = q3;
        }
    }
}

// ---------------------------------------------------------------------------
// Entry points
// ---------------------------------------------------------------------------

/// Parsing `s` as one object, with nothing after it but white space and comments.
pub open spec fn object_doc(s: Seq<char>, base: int) -> Result<(Seq<(Seq<char>, Span, HView, Span)>, Span), HErrView> {
    match object_at(s, base, trivia_end(s, 0, 0), 0) {
        Err(e) => Err(e),
        Ok(((o, sp), q)) => if trivia_end(s, q, 0) < s.len() {
            Err(herr(s, base, trivia_end(s, q, 0), "trailing content after object"@))
        } else {
            Ok((o, sp))
        },
    }
}

/// Parsing the object at the start of `s`, whatever follows it.
pub open spec fn object_prefix_doc(s: Seq<char>, base: int) -> Result<(Seq<(Seq<char>, Span, HView, Span)>, Span), HErrView> {
    match object_at(s, base, trivia_end(s, 0, 0), 0) {
        Err(e) => Err(e),
        Ok(((o, sp), q)) => Ok((o, sp)),
    }
}

/// Parsing `s` as one value, with nothing after it but white space and comments.
pub open spec fn value_doc(s: Seq<char>, base: int) -> Result<(HView, Span), HErrView> {
    match value_at(s, base, trivia_end(s, 0, 0), 0) {
        Err(e) => Err(e),
        Ok(((v, sp), q)) => if trivia_end(s, q, 0) < s.len() {
            Err(herr(s, base, trivia_end(s, q, 0), "trailing content after value"@))
        } else {
            Ok((v, sp))
        },
    }
}

/// The characters of `src` with their byte offsets, counted from `base`.
fn make_src(src: &str, base: usize) -> (r: Src)
    requires
        base + encode_utf8(src@).len() <= usize::MAX,
    ensures
        r.ok(),
        r.cs@ == src@,
        r.base == base,
{
    let cs = chars_of(src);
    let offs = byte_offsets(&cs);
    proof {
        assert(cs@.take(cs@.len() as int) =~= cs@);
    }
    Src { cs, offs, base }
}

/// Parses one object starting at the first `{` in `src`, whose byte offsets are reported
/// relative to `base`. Anything after the object but white space and comments is an error.
pub fn parse_object(src: &str, base: usize) -> (r: Result<Spanned<HObject>, HError>)
    requires
        base + encode_utf8(src@).len() <= usize::MAX,
    ensures
        match object_doc(src@, base as int) {
            Ok((o, sp)) => r matches Ok(x) && entries_hview(x.value.entries@) == o && x.span == sp,
            Err(e) => r matches Err(x) && x.at == e.at && x.message@ == e.message,
        },
{
    let sr = make_src(src, base);
    let p = skip_trivia(&sr.cs, 0);
    let (o, q) = match object(&sr, p, 0) {
        Ok(x) => x,
        Err(e) => return Err(e),
    };
    let t = skip_trivia(&sr.cs, q);
    if t < sr.cs.len() {
        return Err(err_at(&sr, t, owned("trailing content after object")));
    }
    Ok(o)
}

/// Parses one object at the start of `src`, leaving whatever follows it alone: a record
/// header is followed by its gist. The span says where the object ended.
pub fn parse_object_prefix(src: &str, base: usize) -> (r: Result<Spanned<HObject>, HError>)
    requires
        base + encode_utf8(src@).len() <= usize::MAX,
    ensures
        match object_prefix_doc(src@, base as int) {
            Ok((o, sp)) => r matches Ok(x) && entries_hview(x.value.entries@) == o && x.span == sp,
            Err(e) => r matches Err(x) && x.at == e.at && x.message@ == e.message,
        },
{
    let sr = make_src(src, base);
    let p = skip_trivia(&sr.cs, 0);
    match object(&sr, p, 0) {
        Ok((o, _)) => Ok(o),
        Err(e) => Err(e),
    }
}

/// Parses a bare value, for configuration files.
pub fn parse_value(src: &str, base: usize) -> (r: Result<Spanned<HValue>, HError>)
    requires
        base + encode_utf8(src@).len() <= usize::MAX,
    ensures
        match value_doc(src@, base as int) {
            Ok((v, sp)) => r matches Ok(x) && hview(x.value) == v && x.span == sp,
            Err(e) => r matches Err(x) && x.at == e.at && x.message@ == e.message,
        },
{
    let sr = make_src(src, base);
    let p = skip_trivia(&sr.cs, 0);
    let (v, q) = match value(&sr, p, 0) {
        Ok(x) => x,
        Err(e) => return Err(e),
    };
    let t = skip_trivia(&sr.cs, q);
    if t < sr.cs.len() {
        return Err(err_at(&sr, t, owned("trailing content after value")));
    }
    Ok(v)
}

// ---------------------------------------------------------------------------
// Values and objects
// ---------------------------------------------------------------------------

impl HValue {
    /// The name of the value's kind.
    pub fn kind_name(&self) -> (r: &'static str)
        ensures
            r@ == (match self {
                HValue::Null => "null"@,
                HValue::Bool(_) => "boolean"@,
                HValue::Int(_) => "integer"@,
                HValue::Float(_) => "float"@,
                HValue::Str(_) => "string"@,
                HValue::Array(_) => "array"@,
                HValue::Object(_) => "object"@,
            }),
    {
        match self {
            HValue::Null => "null",
            HValue::Bool(_) => "boolean",
            HValue::Int(_) => "integer",
            HValue::Float(_) => "float",
            HValue::Str(_) => "string",
            HValue::Array(_) => "array",
            HValue::Object(_) => "object",
        }
    }

    pub fn as_str(&self) -> (r: Option<&str>)
        ensures
            match self {
                HValue::Str(t) => r matches Some(x) && x@ == t@,
                _ => r is None,
            },
    {
        match self {
            HValue::Str(t) => Some(t.as_str()),
            _ => None,
        }
    }

    pub fn as_int(&self) -> (r: Option<i64>)
        ensures
            r == (match self {
                HValue::Int(i) => Some(*i),
                _ => None,
            }),
    {
        match self {
            HValue::Int(i) => Some(*i),
            _ => None,
        }
    }

    pub fn as_bool(&self) -> (r: Option<bool>)
        ensures
            r == (match self {
                HValue::Bool(b) => Some(*b),
                _ => None,
            }),
    {
        match self {
            HValue::Bool(b) => Some(*b),
            _ => None,
        }
    }

    pub fn as_array(&self) -> (r: Option<&[Spanned<HValue>]>)
        ensures
            match self {
                HValue::Array(items) => r matches Some(x) && x@ == items@,
                _ => r is None,
            },
    {
        match self {
            HValue::Array(items) => Some(items.as_slice()),
            _ => None,
        }
    }

    pub fn as_object(&self) -> (r: Option<&HObject>)
        ensures
            match self {
                HValue::Object(o) => r == Some(o),
                _ => r is None,
            },
    {
        match self {
            HValue::Object(o) => Some(o),
            _ => None,
        }
    }
}

/// The position of the first entry of `s` under key `k`, if there is one.
pub open spec fn first_key(s: Seq<(Spanned<String>, Spanned<HValue>)>, k: Seq<char>) -> Option<int> {
    if exists|i: int| 0 <= i < s.len() && #[trigger] s[i].0.value@ == k {
        Some(choose|i: int| 0 <= i < s.len() && #[trigger] s[i].0.value@ == k && forall|j: int| 0 <= j < i ==> s[j].0.value@ != k)
    } else {
        None
    }
}

/// The entries of `s` under any key but `k`, in order.
pub open spec fn without_key(s: Seq<(Spanned<String>, Spanned<HValue>)>, k: Seq<char>) -> Seq<(Spanned<String>, Spanned<HValue>)>
    decreases s.len(),
{
    if s.len() == 0 {
        s
    } else if s.last().0.value@ == k {
        without_key(s.drop_last(), k)
    } else {
        without_key(s.drop_last(), k).push(s.last())
    }
}

/// Taking one more entry into account: it is dropped if it is under the key, kept otherwise.
proof fn lemma_without_key_step(o: Seq<(Spanned<String>, Spanned<HValue>)>, k: Seq<char>, j: int)
    requires
        0 <= j < o.len(),
    ensures
        without_key(o.take(j + 1), k) == if o[j].0.value@ == k {
            without_key(o.take(j), k)
        } else {
            without_key(o.take(j), k).push(o[j])
        },
{
    assert(o.take(j + 1).drop_last() =~= o.take(j));
}

/// A sequence kept so far followed by what is still to see: its next element is the next
/// one to see, removing that element or moving it to the kept part each leave the rest.
proof fn lemma_splice_step<E>(w: Seq<E>, o: Seq<E>, j: int)
    requires
        0 <= j < o.len(),
    ensures
        (w + o.skip(j))[w.len() as int] == o[j],
        (w + o.skip(j)).len() == w.len() + o.len() - j,
        (w + o.skip(j)).remove(w.len() as int) == w + o.skip(j + 1),
        w.push(o[j]) + o.skip(j + 1) == w + o.skip(j),
{
    assert((w + o.skip(j)).remove(w.len() as int) =~= w + o.skip(j + 1));
    assert(w.push(o[j]) + o.skip(j + 1) =~= w + o.skip(j));
}

/// There is a first entry under a key that some entry has.
proof fn lemma_first_key(s: Seq<(Spanned<String>, Spanned<HValue>)>, k: Seq<char>, i: int)
    requires
        0 <= i < s.len(),
        s[i].0.value@ == k,
        forall|j: int| 0 <= j < i ==> s[j].0.value@ != k,
    ensures
        first_key(s, k) == Some(i),
{
    let c = choose|c: int| 0 <= c < s.len() && #[trigger] s[c].0.value@ == k && forall|j: int| 0 <= j < c ==> s[j].0.value@ != k;
    assert(0 <= c < s.len() && s[c].0.value@ == k && forall|j: int| 0 <= j < c ==> s[j].0.value@ != k);
    if c < i {
        assert(s[c].0.value@ != k);
    } else if i < c {
        assert(s[i].0.value@ != k);
    }
}

impl HObject {
    pub fn new() -> (o: HObject)
        ensures
            o.entries@.len() == 0,
    {
        HObject { entries: Vec::new() }
    }

    pub fn len(&self) -> (n: usize)
        ensures
            n == self.entries@.len(),
    {
        self.entries.len()
    }

    pub fn is_empty(&self) -> (r: bool)
        ensures
            r == (self.entries@.len() == 0),
    {
        self.entries.len() == 0
    }

    /// The value of the first entry under `key`.
    pub fn get(&self, key: &str) -> (r: Option<&Spanned<HValue>>)
        ensures
            match first_key(self.entries@, key@) {
                Some(i) => r == Some(&self.entries@[i].1),
                None => r is None,
            },
    {
        let mut i: usize = 0;
        while i < self.entries.len()
            invariant
                i <= self.entries@.len(),
                forall|j: int| 0 <= j < i ==> self.entries@[j].0.value@ != key@,
            decreases self.entries@.len() - i,
        {
            if str_eq(self.entries[i].0.value.as_str(), key) {
                proof {
                    lemma_first_key(self.entries@, key@, i as int);
                }
                return Some(&self.entries[i].1);
            }
            i = i + 1;
        }
        None
    }

    pub fn contains(&self, key: &str) -> (r: bool)
        ensures
            r == first_key(self.entries@, key@) is Some,
    {
        self.get(key).is_some()
    }

    /// Removes every entry under `key`, returning the first. Header parsing takes the keys it
    /// knows this way, so whatever remains is by definition unrecognised; taking them all
    /// leaves no duplicate behind to pass for an unknown key. First wins.
    pub fn take(&mut self, key: &str) -> (r: Option<Spanned<HValue>>)
        ensures
            match first_key(old(self).entries@, key@) {
                Some(i) => r == Some(old(self).entries@[i].1),
                None => r is None,
            },
            final(self).entries@ == without_key(old(self).entries@, key@),
    {
        let ghost o = self.entries@;
        let mut first: Option<Spanned<HValue>> = None;
        let mut i: usize = 0;
        let ghost mut j: int = 0;
        assert(without_key(o.take(0), key@) =~= Seq::<(Spanned<String>, Spanned<HValue>)>::empty());
        assert(o.skip(0) =~= o);
        while i < self.entries.len()
            invariant
                0 <= j <= o.len(),
                i == without_key(o.take(j), key@).len(),
                self.entries@ == without_key(o.take(j), key@) + o.skip(j),
                match first {
                    Some(v) => first_key(o, key@) matches Some(f) && f < j && v == o[f].1,
                    None => forall|x: int| 0 <= x < j ==> o[x].0.value@ != key@,
                },
            decreases self.entries@.len() - i,
        {
            proof {
                lemma_without_key_step(o, key@, j);
                lemma_splice_step(without_key(o.take(j), key@), o, j);
            }
            if str_eq(self.entries[i].0.value.as_str(), key) {
                let e = self.entries.remove(i);
                proof {
                    if first is None {
                        lemma_first_key(o, key@, j);
                    }
                }
                if first.is_none() {
                    first = Some(e.1);
                }
            } else {
                i = i + 1;
            }
            proof {
                j = j + 1;
            }
        }
        assert(j == o.len()) by {
            if j < o.len() {
                assert(self.entries@.len() == i + o.skip(j).len());
            }
        }
        assert(o.take(j) =~= o);
        assert(o.skip(j) =~= Seq::<(Spanned<String>, Spanned<HValue>)>::empty());
        assert(self.entries@ =~= without_key(o, key@));
        first
    }

    pub fn insert(&mut self, key: Spanned<String>, value: Spanned<HValue>)
        ensures
            final(self).entries@ == old(self).entries@.push((key, value)),
    {
        self.entries.push((key, value));
    }

    /// The entries, in authored order.
    pub fn iter(&self) -> (r: &[(Spanned<String>, Spanned<HValue>)])
        ensures
            r@ == self.entries@,
    {
        self.entries.as_slice()
    }

    /// The keys, in authored order.
    pub fn keys(&self) -> (r: Vec<&str>)
        ensures
            r@.len() == self.entries@.len(),
            forall|i: int| 0 <= i < r@.len() ==> (#[trigger] r@[i])@ == self.entries@[i].0.value@,
    {
        let mut r: Vec<&str> = Vec::new();
        let mut i: usize = 0;
        while i < self.entries.len()
            invariant
                i <= self.entries@.len(),
                r@.len() == i,
                forall|k: int| 0 <= k < i ==> (#[trigger] r@[k])@ == self.entries@[k].0.value@,
            decreases self.entries@.len() - i,
        {
            r.push(self.entries[i].0.value.as_str());
            i = i + 1;
        }
        r
    }
}

} // verus!
