//! What the surface writer emits for text: a header value quoteless where it reads back
//! unchanged and quoted otherwise, a key likewise, and a body whose lines a reader would take
//! for comments escaped with a backslash.

use vstd::prelude::*;

use crate::diag::Span;
use crate::surface::hjson::{
    after_sign, bare_key_end, classify, digits_end, key_at, float_text, i64_text, inline_end, quoted_at, quoted_walk, quoteless_end, span_of,
    trim_end_at, value_at, HErrView, HView,
};
use crate::cbor::envelope::{extra_above, unit_core_encoding};
use crate::cbor::keys;
use crate::cbor::packinfo::bits_quantised;
use crate::hash::{blake3_digest, canonical_uid};
use crate::ids::{Label, Uid};
use crate::surface::hjson::{entries_hview, hview, items_hview, HObject, HValue, Spanned};
use crate::surface::payload::{lemma_entries_hview_len, lemma_items_hview_len, object_at, payload_to_object, scaled_1024, scaled_of, trim_zeros};
use crate::text::{decimal, decimal_padded, push_decimal, push_decimal_padded, push_decimal_wide};
use crate::text::is_digit;
use crate::types::epistemics::date_text;
use crate::types::record::Record;
use crate::types::relation::Relation;
use crate::types::thread::{Step, Thread};
use crate::types::epistemics::SourceRef;
use crate::types::unit::UnitCore;
use crate::text::{chars_of, find_char, index_of, is_whitespace, is_ws, owned, push_char, push_str, str_eq, string_from_range};

verus! {

// ---------------------------------------------------------------------------
// Quoting
// ---------------------------------------------------------------------------

/// `c` with ASCII capitals made small.
pub open spec fn ascii_lower(c: char) -> char {
    if 'A' <= c <= 'Z' {
        ((c as u32) + 32) as char
    } else {
        c
    }
}

/// Whether `t` spells `w` in any mix of ASCII case.
pub open spec fn spells(t: Seq<char>, w: Seq<char>) -> bool {
    t.len() == w.len() && forall|i: int| 0 <= i < t.len() ==> #[trigger] ascii_lower(t[i]) == w[i]
}

/// Whether `str::parse::<f64>` reads `s`: a decimal number, or `inf`, `infinity` or `nan` in
/// any case, each after an optional sign.
pub open spec fn f64_text(s: Seq<char>) -> bool {
    let r = s.skip(after_sign(s, 0));
    float_text(s) || spells(r, "inf"@) || spells(r, "infinity"@) || spells(r, "nan"@)
}

/// A character that ends or breaks a value written without quotes.
pub open spec fn value_breaker(c: char) -> bool {
    c == ',' || c == '}' || c == ']' || c == '{' || c == '[' || c == '"' || c == '\\' || c == '\n' || c == '\r'
        || c == '\t'
}

/// Whether a header value must be quoted to read back as the same string: it is empty,
/// starts or ends with white space, holds a character that ends or breaks a value, spells a
/// literal, starts as a comment would, or reads as a number.
pub open spec fn value_needs_quotes(s: Seq<char>) -> bool {
    ||| s.len() == 0
    ||| is_ws(s[0])
    ||| is_ws(s.last())
    ||| exists|i: int| 0 <= i < s.len() && value_breaker(#[trigger] s[i])
    ||| s == "true"@ || s == "false"@ || s == "null"@
    ||| s[0] == '#'
    ||| (s.len() >= 2 && s[0] == '/' && s[1] == '/')
    ||| f64_text(s)
}

/// The escape of one character inside quotes.
pub open spec fn escape_char(c: char) -> Seq<char> {
    if c == '"' {
        seq!['\\', '"']
    } else if c == '\\' {
        seq!['\\', '\\']
    } else if c == '\n' {
        seq!['\\', 'n']
    } else if c == '\r' {
        seq!['\\', 'r']
    } else if c == '\t' {
        seq!['\\', 't']
    } else {
        seq![c]
    }
}

/// The characters of `s` escaped.
pub open spec fn escaped(s: Seq<char>) -> Seq<char>
    decreases s.len(),
{
    if s.len() == 0 {
        Seq::empty()
    } else {
        escaped(s.drop_last()) + escape_char(s.last())
    }
}

/// The quoted form of `s`, with the escapes the parser understands.
pub open spec fn quoted_text(s: Seq<char>) -> Seq<char> {
    seq!['"'] + escaped(s) + seq!['"']
}

/// The quoted form of `s`.
pub fn quoted(s: &str) -> (r: String)
    ensures
        r@ == quoted_text(s@),
{
    let v = chars_of(s);
    let mut out = String::new();
    push_char(&mut out, '"');
    let mut i: usize = 0;
    assert(v@.take(0) =~= Seq::<char>::empty());
    while i < v.len()
        invariant
            i <= v@.len(),
            v@ == s@,
            out@ == seq!['"'] + escaped(v@.take(i as int)),
        decreases v@.len() - i,
    {
        let c = v[i];
        let ghost before = out@;
        if c == '"' {
            push_str(&mut out, "\\\"");
        } else if c == '\\' {
            push_str(&mut out, "\\\\");
        } else if c == '\n' {
            push_str(&mut out, "\\n");
        } else if c == '\r' {
            push_str(&mut out, "\\r");
        } else if c == '\t' {
            push_str(&mut out, "\\t");
        } else {
            push_char(&mut out, c);
        }
        proof {
            reveal_strlit("\\\"");
            reveal_strlit("\\\\");
            reveal_strlit("\\n");
            reveal_strlit("\\r");
            reveal_strlit("\\t");
            assert(v@.take(i + 1).drop_last() =~= v@.take(i as int));
            assert(out@ =~= before + escape_char(c));
        }
        i = i + 1;
    }
    push_char(&mut out, '"');
    assert(v@.take(v@.len() as int) =~= v@);
    out
}

/// `c` with an ASCII capital made small.
fn lower_ascii(c: char) -> (r: char)
    ensures
        r == ascii_lower(c),
{
    if 'A' <= c && c <= 'Z' {
        let x: u32 = c as u32 + 32;
        let b = x as u8;
        assert(b as u32 == x);
        match char_from_ascii(b) {
            Some(y) => y,
            None => c,
        }
    } else {
        c
    }
}

/// Whether the characters of `t` from `from` spell `w` in any ASCII case.
fn spells_exec(t: &Vec<char>, from: usize, w: &str) -> (r: bool)
    requires
        from <= t@.len(),
    ensures
        r == spells(t@.skip(from as int), w@),
{
    let wv = chars_of(w);
    let n = t.len();
    if n - from != wv.len() {
        return false;
    }
    let ghost u = t@.skip(from as int);
    let mut i: usize = 0;
    while i < wv.len()
        invariant
            i <= wv@.len(),
            wv@ == w@,
            n == t@.len(),
            from <= n,
            u == t@.skip(from as int),
            n - from == wv@.len(),
            forall|j: int| 0 <= j < i ==> #[trigger] ascii_lower(u[j]) == wv@[j],
        decreases wv@.len() - i,
    {
        let c = t[from + i];
        assert(u[i as int] == c);
        if lower_ascii(c) != wv[i] {
            return false;
        }
        i = i + 1;
    }
    true
}

/// The character of an ASCII byte.
fn char_from_ascii(b: u8) -> (r: Option<char>)
    ensures
        b < 128 ==> r == Some((b as u32) as char),
{
    if b < 128 {
        let c = b as char;
        assert(c as u32 == b as u32);
        proof {
            vstd::utf8::char_u32_cast(c, b as u32);
        }
        Some(c)
    } else {
        None
    }
}

/// Whether `str::parse::<f64>` reads `s`.
fn reads_as_f64(v: &Vec<char>) -> (r: bool)
    ensures
        r == f64_text(v@),
{
    let n = v.len();
    let i0: usize = if n > 0 && (v[0] == '+' || v[0] == '-') { 1 } else { 0 };
    crate::surface::hjson::float_text_of(v) || spells_exec(v, i0, "inf") || spells_exec(v, i0, "infinity")
        || spells_exec(v, i0, "nan")
}

/// A header value as written: quoteless where it reads back unchanged, quoted otherwise.
pub fn quoteless_or_quoted(s: &str) -> (r: String)
    ensures
        r@ == (if value_needs_quotes(s@) { quoted_text(s@) } else { s@ }),
{
    let v = chars_of(s);
    let n = v.len();
    let mut needs = n == 0;
    if !needs {
        needs = is_whitespace(v[0]) || is_whitespace(v[n - 1]);
    }
    if !needs {
        let mut i: usize = 0;
        while i < n && !needs
            invariant
                i <= n,
                n == v@.len(),
                !needs ==> forall|j: int| 0 <= j < i ==> !value_breaker(#[trigger] v@[j]),
                needs ==> exists|j: int| 0 <= j < n && value_breaker(#[trigger] v@[j]),
            decreases n - i,
        {
            let c = v[i];
            if c == ',' || c == '}' || c == ']' || c == '{' || c == '[' || c == '"' || c == '\\' || c == '\n'
                || c == '\r' || c == '\t' {
                needs = true;
                assert(value_breaker(v@[i as int]));
            }
            i = i + 1;
        }
        proof {
            if !needs {
                assert(forall|j: int| 0 <= j < v@.len() ==> !value_breaker(#[trigger] v@[j]));
            }
        }
    }
    if !needs {
        needs = str_eq(s, "true") || str_eq(s, "false") || str_eq(s, "null") || v[0] == '#' || (n >= 2 && v[0]
            == '/' && v[1] == '/') || reads_as_f64(&v);
    }
    if needs {
        quoted(s)
    } else {
        owned(s)
    }
}

/// A character that ends a key written without quotes, or breaks it.
pub open spec fn key_breaker(c: char) -> bool {
    is_ws(c) || c == ':' || c == ',' || c == '{' || c == '}' || c == '"' || c == '\\'
}

/// Whether a key must be quoted: it is empty, starts as a comment would, or holds white space
/// or a character that ends or breaks a key.
pub open spec fn key_needs_quotes(s: Seq<char>) -> bool {
    ||| s.len() == 0
    ||| s[0] == '#'
    ||| (s.len() >= 2 && s[0] == '/' && s[1] == '/')
    ||| exists|i: int| 0 <= i < s.len() && key_breaker(#[trigger] s[i])
}

/// A key as written: quoteless where it reads back unchanged, quoted otherwise.
pub fn quoted_key(s: &str) -> (r: String)
    ensures
        r@ == (if key_needs_quotes(s@) { quoted_text(s@) } else { s@ }),
{
    let v = chars_of(s);
    let n = v.len();
    let mut needs = n == 0 || v[0] == '#' || (n >= 2 && v[0] == '/' && v[1] == '/');
    if !needs {
        let mut i: usize = 0;
        while i < n && !needs
            invariant
                i <= n,
                n == v@.len(),
                !needs ==> forall|j: int| 0 <= j < i ==> !key_breaker(#[trigger] v@[j]),
                needs ==> exists|j: int| 0 <= j < n && key_breaker(#[trigger] v@[j]),
            decreases n - i,
        {
            let c = v[i];
            if is_whitespace(c) || c == ':' || c == ',' || c == '{' || c == '}' || c == '"' || c == '\\' {
                needs = true;
                assert(key_breaker(v@[i as int]));
            }
            i = i + 1;
        }
        proof {
            if !needs {
                assert(forall|j: int| 0 <= j < v@.len() ==> !key_breaker(#[trigger] v@[j]));
            }
        }
    }
    if needs {
        quoted(s)
    } else {
        owned(s)
    }
}

// ---------------------------------------------------------------------------
// Body text
// ---------------------------------------------------------------------------

/// A line without the carriage return of a CRLF ending.
pub open spec fn strip_cr(l: Seq<char>) -> Seq<char> {
    if l.len() > 0 && l.last() == '\r' {
        l.drop_last()
    } else {
        l
    }
}

/// The lines of `s` from `p` on, as `str::lines` splits them: at each newline, a carriage
/// return before it dropped, and no empty line after a final newline.
pub open spec fn lines_from(s: Seq<char>, p: int) -> Seq<Seq<char>>
    decreases s.len() - p,
{
    if p < 0 || p >= s.len() {
        Seq::empty()
    } else {
        let i = index_of(s.skip(p), '\n');
        proof {
            crate::text::lemma_index_of(s.skip(p), '\n');
        }
        if i < 0 {
            seq![s.skip(p)]
        } else {
            seq![strip_cr(s.subrange(p, p + i))] + lines_from(s, p + i + 1)
        }
    }
}

/// Whether a reader would take a body line for a comment or an escape: it starts with `#`,
/// `//` or a backslash.
pub open spec fn line_needs_escape(l: Seq<char>) -> bool {
    l.len() > 0 && (l[0] == '#' || l[0] == '\\' || (l.len() >= 2 && l[0] == '/' && l[1] == '/'))
}

/// A body line as written.
pub open spec fn escape_line(l: Seq<char>) -> Seq<char> {
    if line_needs_escape(l) {
        seq!['\\'] + l
    } else {
        l
    }
}

/// Lines joined by newlines.
pub open spec fn join_lines(ls: Seq<Seq<char>>) -> Seq<char>
    decreases ls.len(),
{
    if ls.len() == 0 {
        Seq::empty()
    } else if ls.len() == 1 {
        ls[0]
    } else {
        join_lines(ls.drop_last()) + seq!['\n'] + ls.last()
    }
}

/// Body text as written: unchanged when no line needs escaping, else each line escaped as
/// it needs and the lines joined by newlines.
pub open spec fn escape_block_view(s: Seq<char>) -> Seq<char> {
    let ls = lines_from(s, 0);
    if !exists|k: int| 0 <= k < ls.len() && line_needs_escape(#[trigger] ls[k]) {
        s
    } else {
        join_lines(ls.map_values(|l: Seq<char>| escape_line(l)))
    }
}

/// The lines of `v`, as `str::lines` splits them.
fn split_lines(v: &Vec<char>) -> (r: Vec<String>)
    ensures
        r@.map_values(|x: String| x@) == lines_from(v@, 0),
{
    let mut out: Vec<String> = Vec::new();
    let mut p: usize = 0;
    let n = v.len();
    assert(out@.map_values(|x: String| x@) + lines_from(v@, 0) =~= lines_from(v@, 0));
    while p < n
        invariant
            p <= n,
            n == v@.len(),
            out@.map_values(|x: String| x@) + lines_from(v@, p as int) == lines_from(v@, 0),
        decreases n - p,
    {
        let ghost before = out@.map_values(|x: String| x@);
        match find_char(v, '\n', p) {
            None => {
                let l = string_from_range(v, p, n);
                assert(v@.subrange(p as int, n as int) =~= v@.skip(p as int));
                out.push(l);
                assert(out@.map_values(|x: String| x@) =~= before.push(v@.skip(p as int)));
                assert(lines_from(v@, n as int) =~= Seq::<Seq<char>>::empty());
                assert(before + lines_from(v@, p as int) =~= out@.map_values(|x: String| x@) + lines_from(v@, n as int));
                p = n;
            },
            Some(i) => {
                let e = if i > p && v[i - 1] == '\r' { i - 1 } else { i };
                let l = string_from_range(v, p, e);
                let ghost line = v@.subrange(p as int, i as int);
                assert(l@ == strip_cr(line)) by {
                    if i > p && v@[i - 1] == '\r' {
                        assert(line.drop_last() =~= v@.subrange(p as int, e as int));
                    } else {
                        assert(line =~= v@.subrange(p as int, e as int));
                    }
                }
                out.push(l);
                assert(out@.map_values(|x: String| x@) =~= before.push(strip_cr(line)));
                assert(before + lines_from(v@, p as int) =~= out@.map_values(|x: String| x@) + lines_from(
                    v@,
                    i + 1,
                ));
                p = i + 1;
            },
        }
    }
    assert(lines_from(v@, n as int) =~= Seq::<Seq<char>>::empty());
    assert(out@.map_values(|x: String| x@) + Seq::<Seq<char>>::empty() =~= out@.map_values(|x: String| x@));
    out
}

/// Whether a line starts with `#`, `//` or a backslash.
fn needs_escape(l: &str) -> (r: bool)
    ensures
        r == line_needs_escape(l@),
{
    let v = chars_of(l);
    v.len() > 0 && (v[0] == '#' || v[0] == '\\' || (v.len() >= 2 && v[0] == '/' && v[1] == '/'))
}

/// Body text with the lines a reader would take for comments escaped. Text that needs no
/// escaping is returned as it is.
pub fn escape_block(text: &str) -> (r: String)
    ensures
        r@ == escape_block_view(text@),
{
    let v = chars_of(text);
    let lines = split_lines(&v);
    let ghost ls = lines_from(text@, 0);
    let mut any = false;
    let mut k: usize = 0;
    while k < lines.len() && !any
        invariant
            k <= lines@.len(),
            lines@.map_values(|x: String| x@) == ls,
            !any ==> forall|j: int| 0 <= j < k ==> !line_needs_escape(#[trigger] ls[j]),
            any ==> exists|j: int| 0 <= j < ls.len() && line_needs_escape(#[trigger] ls[j]),
        decreases lines@.len() - k,
    {
        if needs_escape(lines[k].as_str()) {
            any = true;
            assert(ls[k as int] == lines@[k as int]@);
        }
        k = k + 1;
    }
    if !any {
        assert(!exists|j: int| 0 <= j < ls.len() && line_needs_escape(#[trigger] ls[j]));
        return owned(text);
    }
    let ghost es = ls.map_values(|l: Seq<char>| escape_line(l));
    let mut out = String::new();
    let mut j: usize = 0;
    assert(out@ =~= join_lines(es.take(0)));
    while j < lines.len()
        invariant
            j <= lines@.len(),
            lines@.map_values(|x: String| x@) == ls,
            es == ls.map_values(|l: Seq<char>| escape_line(l)),
            out@ == join_lines(es.take(j as int)),
        decreases lines@.len() - j,
    {
        let ghost before = out@;
        if j > 0 {
            push_char(&mut out, '\n');
        }
        if needs_escape(lines[j].as_str()) {
            push_char(&mut out, '\\');
        }
        push_str(&mut out, lines[j].as_str());
        proof {
            assert(es.take(j + 1).drop_last() =~= es.take(j as int));
            if j > 0 {
                assert(out@ =~= before + seq!['\n'] + escape_line(ls[j as int]));
            } else {
                assert(out@ =~= escape_line(ls[j as int]));
            }
        }
        j = j + 1;
    }
    assert(es.take(lines@.len() as int) =~= es);
    out
}

// ---------------------------------------------------------------------------
// What the writer quotes, the parser reads back
// ---------------------------------------------------------------------------

/// Escaping distributes over concatenation.
pub proof fn lemma_escaped_concat(a: Seq<char>, b: Seq<char>)
    ensures
        escaped(a + b) == escaped(a) + escaped(b),
    decreases b.len(),
{
    if b.len() == 0 {
        assert(a + b =~= a);
        assert(escaped(a) + escaped(b) =~= escaped(a));
    } else {
        lemma_escaped_concat(a, b.drop_last());
        assert((a + b).drop_last() =~= a + b.drop_last());
        assert(escaped(a) + escaped(b) =~= escaped(a) + escaped(b.drop_last()) + escape_char(b.last()));
    }
}

/// Reading the escaped characters of `t` and a closing quote, from `p`, gives back `t`.
proof fn lemma_quoted_walk(s: Seq<char>, base: int, p: int, acc: Seq<char>, t: Seq<char>)
    requires
        0 <= p,
        p + escaped(t).len() + 1 <= s.len(),
        s.subrange(p, p + escaped(t).len() + 1) == escaped(t) + seq!['"'],
    ensures
        quoted_walk(s, base, p, acc) == Ok::<(Seq<char>, int), HErrView>((acc + t, p + escaped(t).len() + 1)),
    decreases t.len(),
{
    if t.len() == 0 {
        assert(escaped(t) =~= Seq::<char>::empty());
        assert(s[p] == s.subrange(p, p + 1)[0]);
        assert(acc + t =~= acc);
    } else {
        let c = t[0];
        let rest = t.drop_first();
        assert(t =~= seq![c] + rest);
        lemma_escaped_concat(seq![c], rest);
        assert(escaped(seq![c]) =~= escape_char(c)) by {
            assert(seq![c].drop_last() =~= Seq::<char>::empty());
            assert(seq![c].last() == c);
            assert(escaped(Seq::<char>::empty()) =~= Seq::<char>::empty());
            assert(escaped(seq![c]) == escaped(seq![c].drop_last()) + escape_char(c));
        }
        let w = escape_char(c).len();
        let sub = s.subrange(p, p + escaped(t).len() + 1);
        assert(s[p] == sub[0]);
        if w == 2 {
            assert(s[p + 1] == sub[1]);
        }
        assert(s.subrange(p + w, p + w + escaped(rest).len() + 1) =~= escaped(rest) + seq!['"']) by {
            assert forall|i: int| 0 <= i < escaped(rest).len() + 1 implies s.subrange(p + w, p + w + escaped(rest).len()
                + 1)[i] == (escaped(rest) + seq!['"'])[i] by {
                assert(sub[w + i] == s[p + w + i]);
            }
        }
        lemma_quoted_walk(s, base, p + w, acc.push(c), rest);
        assert(acc.push(c) + rest =~= acc + t);
    }
}

/// What the writer quotes, the quoted-string reader gives back, whatever follows it.
pub proof fn lemma_quoted_reads_back(t: Seq<char>, tail: Seq<char>, base: int)
    ensures
        quoted_at(quoted_text(t) + tail, base, 0) == Ok::<(Seq<char>, int), HErrView>((t, quoted_text(t).len() as int)),
{
    let s = quoted_text(t) + tail;
    assert(s.subrange(1, 1 + escaped(t).len() as int + 1) =~= escaped(t) + seq!['"']);
    lemma_quoted_walk(s, base, 1, Seq::empty(), t);
    assert(Seq::<char>::empty() + t =~= t);
}

/// Digits from `i` to the end leave nothing after them.
proof fn lemma_digits_run_to_end(t: Seq<char>, i: int)
    requires
        0 <= i <= t.len(),
        forall|j: int| i <= j < t.len() ==> is_digit(#[trigger] t[j]),
    ensures
        digits_end(t, i) == t.len(),
    decreases t.len() - i,
{
    if i < t.len() {
        lemma_digits_run_to_end(t, i + 1);
    }
}

/// Whatever reads as an integer reads as a number too.
proof fn lemma_integer_is_number(t: Seq<char>)
    requires
        i64_text(t) is Some,
    ensures
        float_text(t),
{
    let i0 = after_sign(t, 0);
    let d = t.skip(i0);
    assert forall|j: int| i0 <= j < t.len() implies is_digit(#[trigger] t[j]) by {
        assert(d[j - i0] == t[j]);
    }
    lemma_digits_run_to_end(t, i0);
}

/// A run of characters with no comma, closing bracket or line break, ended by one or by the
/// end of the text, is where a value written without quotes ends.
proof fn lemma_quoteless_runs(s: Seq<char>, p: int, e: int)
    requires
        0 <= p <= e <= s.len(),
        forall|j: int| p <= j < e ==> !value_breaker(#[trigger] s[j]),
        e == s.len() || s[e] == ',' || s[e] == '}' || s[e] == ']' || s[e] == '\n' || s[e] == '\r',
    ensures
        quoteless_end(s, p) == e,
    decreases e - p,
{
    if p < e {
        lemma_quoteless_runs(s, p + 1, e);
    }
}

/// What a value written without quotes may be followed by: a comma, a closing bracket, a line
/// break, or nothing.
pub open spec fn value_ends(tail: Seq<char>) -> bool {
    tail.len() == 0 || tail[0] == ',' || tail[0] == '}' || tail[0] == ']' || tail[0] == '\n' || tail[0] == '\r'
}

/// Every header value the writer emits reads back as the string it wrote: quoted text through
/// its escapes, and unquoted text because the writer quotes whatever would read otherwise.
pub proof fn lemma_header_value_reads_back(t: Seq<char>, tail: Seq<char>, base: int, depth: int)
    requires
        value_needs_quotes(t) || value_ends(tail),
    ensures
        ({
            let w = if value_needs_quotes(t) { quoted_text(t) } else { t };
            value_at(w + tail, base, 0, depth) == Ok::<((HView, Span), int), HErrView>(
                ((HView::Str(t), span_of(w + tail, base, 0, w.len() as int)), w.len() as int),
            )
        }),
{
    if value_needs_quotes(t) {
        let s = quoted_text(t) + tail;
        assert(s[0] == '"');
        lemma_quoted_reads_back(t, tail, base);
    } else {
        let s = t + tail;
        let n = t.len() as int;
        assert(s[0] == t[0]);
        assert(!is_ws(t[0]) && t[0] != '#' && !value_breaker(t[0]));
        if n >= 2 {
            assert(s[1] == t[1]);
        }
        assert(inline_end(s, 0, 0) == 0);
        assert forall|j: int| 0 <= j < n implies !value_breaker(#[trigger] s[j]) by {
            assert(s[j] == t[j]);
            assert(!value_breaker(t[j]));
        }
        if n < s.len() {
            assert(s[n] == tail[0]);
        }
        lemma_quoteless_runs(s, 0, n);
        assert(s[n - 1] == t.last());
        assert(trim_end_at(s, 0, n) == n);
        assert(s.subrange(0, n) =~= t);
        if i64_text(t) is Some {
            lemma_integer_is_number(t);
        }
        assert(classify(t) == HView::Str(t));
    }
}

/// A run of characters none of which ends a key, ended by one, is where a key written
/// without quotes ends.
proof fn lemma_bare_key_runs(s: Seq<char>, p: int, e: int)
    requires
        0 <= p <= e < s.len(),
        forall|j: int| p <= j < e ==> !key_breaker(#[trigger] s[j]),
        s[e] == ':',
    ensures
        bare_key_end(s, p) == e,
    decreases e - p,
{
    if p < e {
        assert(!key_breaker(s[p]));
        lemma_bare_key_runs(s, p + 1, e);
    }
}

/// Every key the writer emits, followed by its colon, reads back as the key it wrote.
pub proof fn lemma_key_reads_back(t: Seq<char>, tail: Seq<char>, base: int)
    requires
        tail.len() > 0,
        tail[0] == ':',
    ensures
        ({
            let w = if key_needs_quotes(t) { quoted_text(t) } else { t };
            key_at(w + tail, base, 0) == Ok::<((Seq<char>, Span), int), HErrView>(
                ((t, span_of(w + tail, base, 0, w.len() as int)), w.len() as int),
            )
        }),
{
    if key_needs_quotes(t) {
        let s = quoted_text(t) + tail;
        assert(s[0] == '"');
        lemma_quoted_reads_back(t, tail, base);
    } else {
        let s = t + tail;
        let n = t.len() as int;
        assert(s[0] == t[0]);
        assert(!key_breaker(t[0]));
        assert forall|j: int| 0 <= j < n implies !key_breaker(#[trigger] s[j]) by {
            assert(s[j] == t[j]);
            assert(!key_breaker(t[j]));
        }
        assert(s[n] == tail[0]);
        lemma_bare_key_runs(s, 0, n);
        assert(s.subrange(0, n) =~= t);
    }
}


// ---------------------------------------------------------------------------
// The canonical emitter
// ---------------------------------------------------------------------------

/// Everything the writer needs that is not in the records themselves: the label each uid is
/// referred to by (the first listed for a uid wins), the salience of units as quantised
/// `binary32` bit patterns, and the version the `@doc` header declares.
pub struct WriteContext {
    pub labels: Vec<(Uid, Label)>,
    pub salience: Vec<(Uid, u32)>,
    pub format_version: String,
}

/// The label listed first for the uid with bytes `u`.
pub open spec fn label_for(ls: Seq<(Uid, Label)>, u: Seq<u8>) -> Option<Seq<char>>
    decreases ls.len(),
{
    if ls.len() == 0 {
        None
    } else if ls[0].0.bytes() == u {
        Some(ls[0].1@)
    } else {
        label_for(ls.drop_first(), u)
    }
}

/// The salience listed first for the uid with bytes `u`.
pub open spec fn salience_for(ss: Seq<(Uid, u32)>, u: Seq<u8>) -> Option<u32>
    decreases ss.len(),
{
    if ss.len() == 0 {
        None
    } else if ss[0].0.bytes() == u {
        Some(ss[0].1)
    } else {
        salience_for(ss.drop_first(), u)
    }
}

/// A reference as it appears: the label bound to the uid, else its canonical form.
pub open spec fn ref_text(ls: Seq<(Uid, Label)>, u: Uid) -> Seq<char> {
    match label_for(ls, u.bytes()) {
        Some(l) => l,
        None => u.text_form(52),
    }
}

/// Parts joined with `sep` between them.
pub open spec fn join(parts: Seq<Seq<char>>, sep: Seq<char>) -> Seq<char>
    decreases parts.len(),
{
    if parts.len() == 0 {
        Seq::empty()
    } else if parts.len() == 1 {
        parts[0]
    } else {
        join(parts.drop_last(), sep) + sep + parts.last()
    }
}

impl WriteContext {
    /// No labels, no salience, and the default format version.
    pub fn new() -> (c: WriteContext)
        ensures
            c.labels@.len() == 0,
            c.salience@.len() == 0,
            c.format_version@ == crate::FORMAT_VERSION_DEFAULT@,
    {
        WriteContext { labels: Vec::new(), salience: Vec::new(), format_version: owned(crate::FORMAT_VERSION_DEFAULT) }
    }

    /// From the label bindings a parse produced, in label order: where two labels name one
    /// uid, the first in that order is the one references use.
    pub fn from_labels(labels: &Vec<(Label, Uid)>) -> (c: WriteContext)
        ensures
            c.labels@.len() == labels@.len(),
            forall|i: int| 0 <= i < labels@.len() ==> (#[trigger] c.labels@[i]).0 == labels@[i].1 && c.labels@[i].1@
                == labels@[i].0@,
            c.salience@.len() == 0,
            c.format_version@ == crate::FORMAT_VERSION_DEFAULT@,
    {
        let mut out: Vec<(Uid, Label)> = Vec::new();
        let mut i: usize = 0;
        while i < labels.len()
            invariant
                i <= labels@.len(),
                out@.len() == i,
                forall|k: int| 0 <= k < i ==> (#[trigger] out@[k]).0 == labels@[k].1 && out@[k].1@ == labels@[k].0@,
            decreases labels@.len() - i,
        {
            out.push((labels[i].1, labels[i].0.clone()));
            i = i + 1;
        }
        WriteContext { labels: out, salience: Vec::new(), format_version: owned(crate::FORMAT_VERSION_DEFAULT) }
    }

    /// Emit the version a document declared rather than the default.
    pub fn with_format_version(self, version: &str) -> (c: WriteContext)
        ensures
            c.labels == self.labels,
            c.salience == self.salience,
            c.format_version@ == version@,
    {
        WriteContext { labels: self.labels, salience: self.salience, format_version: owned(version) }
    }

    pub fn with_salience(self, salience: Vec<(Uid, u32)>) -> (c: WriteContext)
        ensures
            c.labels == self.labels,
            c.salience == salience,
            c.format_version == self.format_version,
    {
        WriteContext { labels: self.labels, salience, format_version: self.format_version }
    }

    /// A reference as it should appear: the label if one is bound, else the canonical uid.
    pub fn reference(&self, u: &Uid) -> (r: String)
        ensures
            r@ == ref_text(self.labels@, *u),
    {
        let ghost ls = self.labels@;
        let mut i: usize = 0;
        assert(ls.skip(0) =~= ls);
        while i < self.labels.len()
            invariant
                i <= ls.len(),
                ls == self.labels@,
                label_for(ls, u.bytes()) == label_for(ls.skip(i as int), u.bytes()),
            decreases ls.len() - i,
        {
            assert(ls.skip(i as int)[0] == ls[i as int]);
            assert(ls.skip(i as int).drop_first() =~= ls.skip(i + 1));
            if self.labels[i].0 == *u {
                return owned(self.labels[i].1.as_str());
            }
            i = i + 1;
        }
        u.canonical()
    }

    /// The salience bound to a uid.
    fn salience_of(&self, u: &Uid) -> (r: Option<u32>)
        ensures
            r == salience_for(self.salience@, u.bytes()),
    {
        let ghost ss = self.salience@;
        let mut i: usize = 0;
        assert(ss.skip(0) =~= ss);
        while i < self.salience.len()
            invariant
                i <= ss.len(),
                ss == self.salience@,
                salience_for(ss, u.bytes()) == salience_for(ss.skip(i as int), u.bytes()),
            decreases ss.len() - i,
        {
            assert(ss.skip(i as int)[0] == ss[i as int]);
            assert(ss.skip(i as int).drop_first() =~= ss.skip(i + 1));
            if self.salience[i].0 == *u {
                return Some(self.salience[i].1);
            }
            i = i + 1;
        }
        None
    }

    /// The label bound to a uid.
    fn label_of(&self, u: &Uid) -> (r: Option<String>)
        ensures
            match label_for(self.labels@, u.bytes()) {
                Some(l) => r matches Some(x) && x@ == l,
                None => r is None,
            },
    {
        let ghost ls = self.labels@;
        let mut i: usize = 0;
        assert(ls.skip(0) =~= ls);
        while i < self.labels.len()
            invariant
                i <= ls.len(),
                ls == self.labels@,
                label_for(ls, u.bytes()) == label_for(ls.skip(i as int), u.bytes()),
            decreases ls.len() - i,
        {
            assert(ls.skip(i as int)[0] == ls[i as int]);
            assert(ls.skip(i as int).drop_first() =~= ls.skip(i + 1));
            if self.labels[i].0 == *u {
                return Some(owned(self.labels[i].1.as_str()));
            }
            i = i + 1;
        }
        None
    }
}


/// Strings as plain text.
pub open spec fn strings_view(v: Seq<String>) -> Seq<Seq<char>> {
    Seq::new(v.len(), |i: int| v[i]@)
}

/// Joining one more part.
proof fn lemma_join_step(parts: Seq<Seq<char>>, sep: Seq<char>, i: int)
    requires
        0 <= i < parts.len(),
    ensures
        join(parts.take(i + 1), sep) == if i == 0 {
            parts[0]
        } else {
            join(parts.take(i), sep) + sep + parts[i]
        },
{
    assert(parts.take(i + 1).drop_last() =~= parts.take(i));
}

/// `parts` joined with `sep`.
fn join_strings(parts: &Vec<String>, sep: &str) -> (r: String)
    ensures
        r@ == join(strings_view(parts@), sep@),
{
    let ghost pv = strings_view(parts@);
    let mut r = String::new();
    let mut i: usize = 0;
    assert(pv.take(0) =~= Seq::<Seq<char>>::empty());
    assert(r@ =~= join(pv.take(0), sep@));
    while i < parts.len()
        invariant
            i <= parts@.len(),
            pv == strings_view(parts@),
            r@ == join(pv.take(i as int), sep@),
        decreases parts@.len() - i,
    {
        proof {
            lemma_join_step(pv, sep@, i as int);
        }
        if i > 0 {
            push_str(&mut r, sep);
        }
        let ghost before = r@;
        push_str(&mut r, parts[i].as_str());
        assert(pv[i as int] == parts@[i as int]@);
        if i == 0 {
            assert(r@ =~= pv[0]);
        }
        i = i + 1;
    }
    assert(pv.take(parts@.len() as int) =~= pv);
    r
}

/// References to each uid, separated by commas.
pub open spec fn refs_text(ls: Seq<(Uid, Label)>, us: Seq<Uid>) -> Seq<char> {
    join(ref_parts(ls, us), ", "@)
}

/// The reference to each uid.
pub open spec fn ref_parts(ls: Seq<(Uid, Label)>, us: Seq<Uid>) -> Seq<Seq<char>> {
    Seq::new(us.len(), |i: int| ref_text(ls, us[i]))
}

fn refs(ctx: &WriteContext, us: &Vec<Uid>) -> (r: String)
    ensures
        r@ == refs_text(ctx.labels@, us@),
{
    let mut parts: Vec<String> = Vec::new();
    let mut i: usize = 0;
    while i < us.len()
        invariant
            i <= us@.len(),
            parts@.len() == i,
            forall|k: int| 0 <= k < i ==> (#[trigger] parts@[k])@ == ref_text(ctx.labels@, us@[k]),
        decreases us@.len() - i,
    {
        let t = ctx.reference(&us[i]);
        parts.push(t);
        i = i + 1;
    }
    assert(strings_view(parts@) =~= ref_parts(ctx.labels@, us@));
    join_strings(&parts, ", ")
}

/// A header value: quoteless where it reads back unchanged.
pub open spec fn qoq(s: Seq<char>) -> Seq<char> {
    if value_needs_quotes(s) { quoted_text(s) } else { s }
}

/// A header key: bare where it reads back as the same key.
pub open spec fn key_text(s: Seq<char>) -> Seq<char> {
    if key_needs_quotes(s) { quoted_text(s) } else { s }
}

/// The decimal text of an integer.
pub open spec fn int_text(i: i64) -> Seq<char> {
    if i < 0 {
        "-"@ + decimal((-(i as int)) as nat)
    } else {
        decimal(i as nat)
    }
}

fn int_string(i: i64) -> (r: String)
    ensures
        r@ == int_text(i),
{
    let mut r = String::new();
    if i < 0 {
        push_char(&mut r, '-');
        let w: i128 = i as i128;
        let n: u64 = (-w) as u64;
        assert(n as int == -(i as int));
        push_decimal(&mut r, n);
        proof {
            reveal_strlit("-");
        }
    } else {
        push_decimal(&mut r, i as u64);
    }
    assert(r@ =~= int_text(i));
    r
}

/// A value of an unknown header key as the writer spells it. A float keeps the text it
/// holds: read back from a payload, that is the exact value of the quantised float.
pub open spec fn value_text(v: HView) -> Seq<char>
    decreases v,
{
    match v {
        HView::Null => "null"@,
        HView::Bool(b) => if b { "true"@ } else { "false"@ },
        HView::Int(i) => int_text(i),
        HView::Float(t) => t,
        HView::Str(t) => qoq(t),
        HView::Array(items) => "["@ + items_text(items) + "]"@,
        HView::Object(es) => "{ "@ + entries_text(es) + " }"@,
    }
}

/// Array elements, separated by commas.
pub open spec fn items_text(s: Seq<(HView, Span)>) -> Seq<char>
    decreases s,
{
    if s.len() == 0 {
        Seq::empty()
    } else if s.len() == 1 {
        value_text(s[0].0)
    } else {
        items_text(s.drop_last()) + ", "@ + value_text(s.last().0)
    }
}

/// Object entries as `key: value`, separated by commas.
pub open spec fn entries_text(s: Seq<(Seq<char>, Span, HView, Span)>) -> Seq<char>
    decreases s,
{
    if s.len() == 0 {
        Seq::empty()
    } else if s.len() == 1 {
        key_text(s[0].0) + ": "@ + value_text(s[0].2)
    } else {
        entries_text(s.drop_last()) + ", "@ + key_text(s.last().0) + ": "@ + value_text(s.last().2)
    }
}

fn render_value(v: &HValue) -> (r: String)
    ensures
        r@ == value_text(hview(*v)),
    decreases *v,
{
    match v {
        HValue::Null => owned("null"),
        HValue::Bool(b) => if *b { owned("true") } else { owned("false") },
        HValue::Int(i) => int_string(*i),
        HValue::Float(t) => owned(t.as_str()),
        HValue::Str(t) => quoteless_or_quoted(t.as_str()),
        HValue::Array(items) => render_items(items),
        HValue::Object(o) => render_object(o),
    }
}

fn render_items(items: &Vec<Spanned<HValue>>) -> (r: String)
    ensures
        r@ == value_text(HView::Array(items_hview(items@))),
    decreases *items,
{
    let mut r = owned("[");
    let ghost start = r@;
    let mut i: usize = 0;
    assert(items@.take(0) =~= Seq::<Spanned<HValue>>::empty());
    while i < items.len()
        invariant
            i <= items@.len(),
            start == "["@,
            r@ == start + items_text(items_hview(items@.take(i as int))),
        decreases items@.len() - i,
    {
        proof {
            assert(decreases_to!(*items => items@));
            assert(decreases_to!(items@ => items@[i as int]));
            assert(decreases_to!(items@[i as int] => items@[i as int].value));
            assert(items@.take(i + 1).drop_last() =~= items@.take(i as int));
            lemma_items_hview_len(items@.take(i as int));
        }
        if i > 0 {
            push_str(&mut r, ", ");
        }
        let t = render_value(&items[i].value);
        push_str(&mut r, t.as_str());
        proof {
            let cur = items_hview(items@.take(i + 1));
            assert(cur.drop_last() == items_hview(items@.take(i as int)));
            assert(cur.last().0 == hview(items@[i as int].value));
            if i == 0 {
                assert(cur[0] == cur.last());
            }
        }
        assert(r@ =~= start + items_text(items_hview(items@.take(i + 1))));
        i = i + 1;
    }
    assert(items@.take(items@.len() as int) =~= items@);
    push_str(&mut r, "]");
    r
}

fn render_entries(o: &HObject) -> (r: String)
    ensures
        r@ == entries_text(entries_hview(o.entries@)),
    decreases *o, 1int,
{
    let ghost es = o.entries@;
    let mut r = String::new();
    let mut i: usize = 0;
    assert(es.take(0) =~= Seq::<(Spanned<String>, Spanned<HValue>)>::empty());
    assert(r@ =~= entries_text(entries_hview(es.take(0))));
    while i < o.entries.len()
        invariant
            i <= es.len(),
            es == o.entries@,
            r@ == entries_text(entries_hview(es.take(i as int))),
        decreases es.len() - i,
    {
        proof {
            assert(decreases_to!(*o => (*o).entries));
            assert(decreases_to!(o.entries => o.entries@));
            assert(decreases_to!(o.entries@ => o.entries@[i as int]));
            assert(decreases_to!(o.entries@[i as int] => o.entries@[i as int].1));
            assert(decreases_to!(o.entries@[i as int].1 => o.entries@[i as int].1.value));
            assert(es.take(i + 1).drop_last() =~= es.take(i as int));
            lemma_entries_hview_len(es.take(i as int));
        }
        if i > 0 {
            push_str(&mut r, ", ");
        }
        let k = quoted_key(o.entries[i].0.value.as_str());
        push_str(&mut r, k.as_str());
        push_str(&mut r, ": ");
        let t = render_value(&o.entries[i].1.value);
        push_str(&mut r, t.as_str());
        proof {
            let cur = entries_hview(es.take(i + 1));
            assert(cur.drop_last() == entries_hview(es.take(i as int)));
            assert(cur.last().0 == es[i as int].0.value@);
            assert(cur.last().2 == hview(es[i as int].1.value));
            if i == 0 {
                assert(cur[0] == cur.last());
            }
        }
        assert(r@ =~= entries_text(entries_hview(es.take(i + 1))));
        i = i + 1;
    }
    assert(es.take(es.len() as int) =~= es);
    r
}

fn render_object(o: &HObject) -> (r: String)
    ensures
        r@ == value_text(HView::Object(entries_hview(o.entries@))),
    decreases *o, 2int,
{
    let mut r = owned("{ ");
    let t = render_entries(o);
    push_str(&mut r, t.as_str());
    push_str(&mut r, " }");
    r
}

/// The six-decimal rounding, ties to even, of `r / 1024` for `r < 1024`, in millionths.
pub open spec fn round_six(r: nat) -> nat {
    let n = r * 15625;
    let q = n / 16;
    let m = n % 16;
    if m > 8 || (m == 8 && q % 2 == 1) {
        q + 1
    } else {
        q
    }
}

/// A quantised float as the writer prints it: six decimals, trailing zeros dropped, at least
/// one digit after the point.
pub open spec fn six_text(b: u32) -> Seq<char> {
    let k = scaled_1024(b);
    (if b >= 0x8000_0000 { "-"@ } else { Seq::<char>::empty() }) + decimal(k / 1024) + "."@ + trim_zeros(
        decimal_padded(round_six(k % 1024), 6),
    )
}

fn six_string(b: u32) -> (r: String)
    requires
        bits_quantised(b),
    ensures
        r@ == six_text(b),
{
    let k = scaled_of(b);
    let mut r = String::new();
    if b >= 0x8000_0000 {
        push_char(&mut r, '-');
    }
    push_decimal_wide(&mut r, k / 1024);
    push_char(&mut r, '.');
    let rem: u64 = (k % 1024) as u64;
    let n: u64 = rem * 15625;
    let q: u64 = n / 16;
    let m: u64 = n % 16;
    let six: u64 = if m > 8 || (m == 8 && q % 2 == 1) { q + 1 } else { q };
    assert(six == round_six(rem as nat));
    let mut padded = String::new();
    push_decimal_padded(&mut padded, six, 6);
    let digits = chars_of(padded.as_str());
    proof {
        assert(digits@ =~= decimal_padded(six as nat, 6));
        crate::text::lemma_decimal_len_pos(six as nat);
    }
    let keep = crate::surface::payload::trimmed_len(&digits);
    let ghost before = r@;
    let mut i: usize = 0;
    while i < keep
        invariant
            i <= keep <= digits@.len(),
            r@ == before + digits@.take(i as int),
        decreases keep - i,
    {
        push_char(&mut r, digits[i]);
        assert(digits@.take(i + 1) =~= digits@.take(i as int).push(digits@[i as int]));
        i = i + 1;
    }
    proof {
        reveal_strlit("-");
        reveal_strlit(".");
        assert(rem as nat == (k as nat) % 1024);
        assert(scaled_1024(b) == k as nat);
        assert(r@ == (if b >= 0x8000_0000 { "-"@ } else { Seq::<char>::empty() }) + decimal((k / 1024) as nat) + "."@
            + trim_zeros(decimal_padded(round_six(rem as nat), 6)));
    }
    assert(r@ =~= six_text(b));
    r
}


/// Every salience listed is a quantised float.
pub open spec fn saliences_quantised(ss: Seq<(Uid, u32)>) -> bool {
    forall|i: int| 0 <= i < ss.len() ==> bits_quantised(#[trigger] ss[i].1)
}

proof fn lemma_salience_quantised(ss: Seq<(Uid, u32)>, u: Seq<u8>)
    requires
        saliences_quantised(ss),
    ensures
        salience_for(ss, u) matches Some(x) ==> bits_quantised(x),
    decreases ss.len(),
{
    if ss.len() > 0 {
        assert(bits_quantised(ss[0].1));
        assert forall|i: int| 0 <= i < ss.drop_first().len() implies bits_quantised(#[trigger] ss.drop_first()[i].1) by {
            assert(ss.drop_first()[i] == ss[i + 1]);
        }
        lemma_salience_quantised(ss.drop_first(), u);
    }
}

/// A source as a unit header spells it.
pub open spec fn source_text(sr: SourceRef) -> Seq<char> {
    "source: { kind: "@ + sr.kind.str_view() + ", ref: "@ + qoq(sr.reference@) + (match sr.captured {
        Some(d) => ", captured: "@ + date_text(d.year as int, d.month as int, d.day as int),
        None => Seq::<char>::empty(),
    }) + " }"@
}

/// The header fields the kernel defines, in their fixed order.
pub open spec fn unit_fields(u: UnitCore, ls: Seq<(Uid, Label)>, ss: Seq<(Uid, u32)>) -> Seq<Seq<char>> {
    let ub = blake3_digest(unit_core_encoding(u));
    seq!["status: "@ + u.status.str_view()] + (if u.deps@.len() > 0 {
        seq!["deps: ["@ + refs_text(ls, u.deps@) + "]"@]
    } else {
        Seq::empty()
    }) + (if u.grounds@.len() > 0 {
        seq!["grounds: ["@ + refs_text(ls, u.grounds@) + "]"@]
    } else {
        Seq::empty()
    }) + (match u.source {
        Some(sr) => seq![source_text(sr)],
        None => Seq::empty(),
    }) + (match salience_for(ss, ub) {
        Some(x) => seq!["salience: "@ + six_text(x)],
        None => Seq::empty(),
    })
}

/// The unknown header keys a payload carries, each after a comma: nothing when there is no
/// payload or it does not read back.
pub open spec fn payload_fields(p: Option<Vec<u8>>) -> Seq<char> {
    match p {
        Some(b) => match object_at(b@) {
            Ok(es) => if es.len() > 0 { ", "@ + entries_text(es) } else { Seq::empty() },
            Err(_) => Seq::empty(),
        },
        None => Seq::empty(),
    }
}

/// A unit: its type and label, the header, the gist, and the body and detail when present.
pub open spec fn unit_text(u: UnitCore, ls: Seq<(Uid, Label)>, ss: Seq<(Uid, u32)>) -> Seq<char> {
    let ub = blake3_digest(unit_core_encoding(u));
    "@"@ + u.schema.text() + (match label_for(ls, ub) {
        Some(l) => " "@ + l,
        None => Seq::empty(),
    }) + " { "@ + join(unit_fields(u, ls, ss), ", "@) + payload_fields(u.payload) + " }\n"@ + unit_tail(u)
}

fn source_string(sr: &SourceRef) -> (r: String)
    ensures
        r@ == source_text(*sr),
{
    let mut r = owned("source: { kind: ");
    push_str(&mut r, sr.kind.as_str());
    push_str(&mut r, ", ref: ");
    let q = quoteless_or_quoted(sr.reference.as_str());
    push_str(&mut r, q.as_str());
    let ghost mid = r@;
    match &sr.captured {
        Some(d) => {
            push_str(&mut r, ", captured: ");
            let t = d.render();
            push_str(&mut r, t.as_str());
        },
        None => {},
    }
    push_str(&mut r, " }");
    assert(r@ =~= source_text(*sr));
    r
}

fn unit_field_strings(u: &UnitCore, ctx: &WriteContext, uid: &Uid) -> (r: Vec<String>)
    requires
        uid.bytes() == blake3_digest(unit_core_encoding(*u)),
        saliences_quantised(ctx.salience@),
    ensures
        strings_view(r@) == unit_fields(*u, ctx.labels@, ctx.salience@),
{
    let ghost ub = uid.bytes();
    let mut fields: Vec<String> = Vec::new();
    let mut st = owned("status: ");
    push_str(&mut st, u.status.as_str());
    fields.push(st);
    if u.deps.len() > 0 {
        let mut f = owned("deps: [");
        let t = refs(ctx, &u.deps);
        push_str(&mut f, t.as_str());
        push_str(&mut f, "]");
        fields.push(f);
    }
    if u.grounds.len() > 0 {
        let mut f = owned("grounds: [");
        let t = refs(ctx, &u.grounds);
        push_str(&mut f, t.as_str());
        push_str(&mut f, "]");
        fields.push(f);
    }
    match &u.source {
        Some(sr) => {
            fields.push(source_string(sr));
        },
        None => {},
    }
    proof {
        lemma_salience_quantised(ctx.salience@, ub);
    }
    match ctx.salience_of(uid) {
        Some(x) => {
            let mut f = owned("salience: ");
            let t = six_string(x);
            push_str(&mut f, t.as_str());
            fields.push(f);
        },
        None => {},
    }
    assert(strings_view(fields@) =~= unit_fields(*u, ctx.labels@, ctx.salience@));
    fields
}

fn payload_fields_string(p: &Option<Vec<u8>>) -> (r: String)
    ensures
        r@ == payload_fields(*p),
{
    match p {
        Some(b) => match payload_to_object(b.as_slice()) {
            Ok(o) => {
                proof {
                    lemma_entries_hview_len(o.entries@);
                }
                if o.entries.len() > 0 {
                    let mut r = owned(", ");
                    let t = render_entries(&o);
                    push_str(&mut r, t.as_str());
                    r
                } else {
                    String::new()
                }
            },
            Err(_) => String::new(),
        },
        None => String::new(),
    }
}

/// The gist line, then body and detail when present, then the blank line after a unit.
pub open spec fn unit_tail(u: UnitCore) -> Seq<char> {
    "~ "@ + u.gist@ + "\n"@ + (match u.body {
        Some(b) => "\n"@ + escape_block_view(b@) + "\n"@,
        None => Seq::empty(),
    }) + (match u.detail {
        Some(d) => "\n--\n"@ + escape_block_view(d@) + "\n"@,
        None => Seq::empty(),
    }) + "\n"@
}

fn unit_tail_string(u: &UnitCore) -> (r: String)
    ensures
        r@ == unit_tail(*u),
{
    let mut r = owned("~ ");
    push_str(&mut r, u.gist.as_str());
    push_str(&mut r, "\n");
    let ghost a = r@;
    match &u.body {
        Some(b) => {
            push_str(&mut r, "\n");
            let t = escape_block(b.as_str());
            push_str(&mut r, t.as_str());
            push_str(&mut r, "\n");
        },
        None => {},
    }
    let ghost c = r@;
    match &u.detail {
        Some(d) => {
            push_str(&mut r, "\n--\n");
            let t = escape_block(d.as_str());
            push_str(&mut r, t.as_str());
            push_str(&mut r, "\n");
        },
        None => {},
    }
    push_str(&mut r, "\n");
    assert(r@ =~= unit_tail(*u));
    r
}

fn write_unit(out: &mut String, u: &UnitCore, ctx: &WriteContext)
    requires
        extra_above(u.extra@, keys::unit::HIGHEST),
        saliences_quantised(ctx.salience@),
    ensures
        final(out)@ == old(out)@ + unit_text(*u, ctx.labels@, ctx.salience@),
{
    let uid = canonical_uid(u);
    let mut r = owned("@");
    push_str(&mut r, u.schema.as_str());
    match ctx.label_of(&uid) {
        Some(l) => {
            push_str(&mut r, " ");
            push_str(&mut r, l.as_str());
        },
        None => {},
    }
    let ghost head = r@;
    let fields = unit_field_strings(u, ctx, &uid);
    push_str(&mut r, " { ");
    let j = join_strings(&fields, ", ");
    push_str(&mut r, j.as_str());
    let pf = payload_fields_string(&u.payload);
    push_str(&mut r, pf.as_str());
    push_str(&mut r, " }\n");
    let tail = unit_tail_string(u);
    push_str(&mut r, tail.as_str());
    assert(r@ =~= unit_text(*u, ctx.labels@, ctx.salience@));
    push_str(out, r.as_str());
}


/// The optional fields of a relation: its weight and its note.
pub open spec fn rel_fields(r: Relation, ls: Seq<(Uid, Label)>) -> Seq<Seq<char>> {
    (match r.weight {
        Some(w) => seq!["weight: "@ + six_text(w)],
        None => Seq::empty(),
    }) + (match r.note {
        Some(n) => seq!["note: "@ + ref_text(ls, n)],
        None => Seq::empty(),
    })
}

/// A relation: its ends and kind, with the arrow, then its optional fields in braces.
pub open spec fn relation_text(r: Relation, ls: Seq<(Uid, Label)>) -> Seq<char> {
    "@rel "@ + ref_text(ls, r.from) + " --"@ + r.kind.text() + "--> "@ + ref_text(ls, r.to) + (if rel_fields(r, ls).len()
        > 0 {
        " { "@ + join(rel_fields(r, ls), ", "@) + " }"@
    } else {
        Seq::empty()
    }) + "\n\n"@
}

fn write_relation(out: &mut String, r: &Relation, ctx: &WriteContext)
    requires
        r.weight matches Some(w) ==> bits_quantised(w),
    ensures
        final(out)@ == old(out)@ + relation_text(*r, ctx.labels@),
{
    let mut s = owned("@rel ");
    let a = ctx.reference(&r.from);
    push_str(&mut s, a.as_str());
    push_str(&mut s, " --");
    push_str(&mut s, r.kind.as_str());
    push_str(&mut s, "--> ");
    let b = ctx.reference(&r.to);
    push_str(&mut s, b.as_str());
    let mut fields: Vec<String> = Vec::new();
    match r.weight {
        Some(w) => {
            let mut f = owned("weight: ");
            let t = six_string(w);
            push_str(&mut f, t.as_str());
            fields.push(f);
        },
        None => {},
    }
    match &r.note {
        Some(n) => {
            let mut f = owned("note: ");
            let t = ctx.reference(n);
            push_str(&mut f, t.as_str());
            fields.push(f);
        },
        None => {},
    }
    assert(strings_view(fields@) =~= rel_fields(*r, ctx.labels@));
    let ghost mid = s@;
    if fields.len() > 0 {
        push_str(&mut s, " { ");
        let j = join_strings(&fields, ", ");
        push_str(&mut s, j.as_str());
        push_str(&mut s, " }");
    }
    push_str(&mut s, "\n\n");
    assert(s@ =~= relation_text(*r, ctx.labels@));
    push_str(out, s.as_str());
}

/// One step of a thread: its role, the arrow, the unit, and its note after a colon.
pub open spec fn step_text(st: Step, ls: Seq<(Uid, Label)>) -> Seq<char> {
    "  "@ + st.role.str_view() + " \u{2192} "@ + ref_text(ls, st.unit) + (match st.note {
        Some(n) => ": "@ + n@,
        None => Seq::empty(),
    }) + "\n"@
}

/// The steps of a thread, one line each, in authored order.
pub open spec fn steps_text(s: Seq<Step>, ls: Seq<(Uid, Label)>) -> Seq<char>
    decreases s.len(),
{
    if s.len() == 0 {
        Seq::empty()
    } else {
        steps_text(s.drop_last(), ls) + step_text(s.last(), ls)
    }
}

/// A thread: its header, its gist, and a line per step.
pub open spec fn thread_text(t: Thread, ls: Seq<(Uid, Label)>) -> Seq<char> {
    "@thread "@ + t.id@ + " { schema: "@ + t.schema.str_view() + ", owner: "@ + qoq(t.owner@) + ", ts: ["@ + decimal(
        t.ts.wall_ms as nat,
    ) + ", "@ + decimal(t.ts.counter as nat) + "] }\n"@ + "~ "@ + t.gist@ + "\n"@ + steps_text(t.steps@, ls) + "\n"@
}

fn write_thread(out: &mut String, t: &Thread, ctx: &WriteContext)
    ensures
        final(out)@ == old(out)@ + thread_text(*t, ctx.labels@),
{
    let mut s = owned("@thread ");
    push_str(&mut s, t.id.as_str());
    push_str(&mut s, " { schema: ");
    push_str(&mut s, t.schema.as_str());
    push_str(&mut s, ", owner: ");
    let o = quoteless_or_quoted(t.owner.as_str());
    push_str(&mut s, o.as_str());
    push_str(&mut s, ", ts: [");
    push_decimal(&mut s, t.ts.wall_ms);
    push_str(&mut s, ", ");
    push_decimal(&mut s, t.ts.counter as u64);
    push_str(&mut s, "] }\n~ ");
    push_str(&mut s, t.gist.as_str());
    push_str(&mut s, "\n");
    proof {
        reveal_strlit("] }\n~ ");
        reveal_strlit("] }\n");
        reveal_strlit("~ ");
    }
    let ghost head = s@;
    let mut i: usize = 0;
    assert(t.steps@.take(0) =~= Seq::<Step>::empty());
    while i < t.steps.len()
        invariant
            i <= t.steps@.len(),
            s@ == head + steps_text(t.steps@.take(i as int), ctx.labels@),
        decreases t.steps@.len() - i,
    {
        let st = &t.steps[i];
        push_str(&mut s, "  ");
        push_str(&mut s, st.role.as_str());
        push_str(&mut s, " \u{2192} ");
        let u = ctx.reference(&st.unit);
        push_str(&mut s, u.as_str());
        match &st.note {
            Some(n) => {
                push_str(&mut s, ": ");
                push_str(&mut s, n.as_str());
            },
            None => {},
        }
        push_str(&mut s, "\n");
        assert(t.steps@.take(i + 1).drop_last() =~= t.steps@.take(i as int));
        assert(s@ =~= head + steps_text(t.steps@.take(i + 1), ctx.labels@));
        i = i + 1;
    }
    assert(t.steps@.take(t.steps@.len() as int) =~= t.steps@);
    push_str(&mut s, "\n");
    assert(s@ =~= thread_text(*t, ctx.labels@));
    push_str(out, s.as_str());
}


/// Schema names, each as a header value.
pub open spec fn schema_parts(rs: Seq<crate::ids::SchemaId>) -> Seq<Seq<char>> {
    Seq::new(rs.len(), |i: int| qoq(rs[i].text()))
}

/// Thread ids, each as a header value.
pub open spec fn thread_parts(ts: Seq<crate::ids::ThreadId>) -> Seq<Seq<char>> {
    Seq::new(ts.len(), |i: int| qoq(ts[i]@))
}

/// The intent line, when there is an intent.
pub open spec fn intent_line(v: crate::types::view::View) -> Seq<char> {
    if v.intent@.len() > 0 {
        "  intent: "@ + qoq(v.intent@) + "\n"@
    } else {
        Seq::empty()
    }
}

/// The required schemas line, when there are any.
pub open spec fn requires_line(v: crate::types::view::View) -> Seq<char> {
    if v.requires@.len() > 0 {
        "  requires: ["@ + join(schema_parts(v.requires@), ", "@) + "]\n"@
    } else {
        Seq::empty()
    }
}

/// The granularity profile line.
pub open spec fn granularity_text(g: crate::types::view::GranularityProfile) -> Seq<char> {
    "  granularity: { profile: "@ + qoq(g.profile@) + ", l0_max: "@ + decimal(g.l0_max as nat) + ", l1_range: ["@
        + decimal(g.l1_min as nat) + ", "@ + decimal(g.l1_max as nat) + "], admission: "@ + g.admission.str_view()
        + " }\n"@
}

/// The threads line, when there are any.
pub open spec fn threads_line(v: crate::types::view::View) -> Seq<char> {
    if v.threads@.len() > 0 {
        "  threads: ["@ + join(thread_parts(v.threads@), ", "@) + "]\n"@
    } else {
        Seq::empty()
    }
}

/// The roots line, when there are any.
pub open spec fn roots_line(v: crate::types::view::View, ls: Seq<(Uid, Label)>) -> Seq<char> {
    if v.roots@.len() > 0 {
        "  roots: ["@ + refs_text(ls, v.roots@) + "]\n"@
    } else {
        Seq::empty()
    }
}

/// The `@doc` header: the declared version, then id, intent when there is one, language,
/// required schemas when there are any, the granularity profile, threads and roots when
/// there are any.
pub open spec fn doc_text(v: crate::types::view::View, ls: Seq<(Uid, Label)>, fv: Seq<char>) -> Seq<char> {
    "@doc "@ + fv + " {\n"@ + "  id: "@ + qoq(v.id@) + "\n"@ + intent_line(v) + "  lang: "@ + qoq(v.lang@) + "\n"@
        + requires_line(v) + granularity_text(v.granularity) + threads_line(v) + roots_line(v, ls) + "}\n\n"@
}

fn granularity_line(g: &crate::types::view::GranularityProfile) -> (r: String)
    ensures
        r@ == granularity_text(*g),
{
    let mut s = owned("  granularity: { profile: ");
    let p = quoteless_or_quoted(g.profile.as_str());
    push_str(&mut s, p.as_str());
    push_str(&mut s, ", l0_max: ");
    push_decimal(&mut s, g.l0_max as u64);
    push_str(&mut s, ", l1_range: [");
    push_decimal(&mut s, g.l1_min as u64);
    push_str(&mut s, ", ");
    push_decimal(&mut s, g.l1_max as u64);
    push_str(&mut s, "], admission: ");
    push_str(&mut s, g.admission.as_str());
    push_str(&mut s, " }\n");
    s
}

fn intent_string(v: &crate::types::view::View) -> (r: String)
    ensures
        r@ == intent_line(*v),
{
    proof {
        if v.intent@.len() > 0 {
            vstd::utf8::char_is_scalar(v.intent@[0]);
            assert(v.intent@ =~= seq![v.intent@[0]] + v.intent@.drop_first());
            crate::quote::lemma_encode_concat(seq![v.intent@[0]], v.intent@.drop_first());
            assert(seq![v.intent@[0]].drop_first() =~= Seq::<char>::empty());
        } else {
            assert(vstd::utf8::encode_utf8(v.intent@) =~= Seq::<u8>::empty());
        }
    }
    if v.intent.as_str().as_bytes().len() > 0 {
        let mut s = owned("  intent: ");
        let t = quoteless_or_quoted(v.intent.as_str());
        push_str(&mut s, t.as_str());
        push_str(&mut s, "\n");
        s
    } else {
        String::new()
    }
}

fn requires_string(v: &crate::types::view::View) -> (r: String)
    ensures
        r@ == requires_line(*v),
{
    if v.requires.len() == 0 {
        return String::new();
    }
    let mut parts: Vec<String> = Vec::new();
    let mut i: usize = 0;
    while i < v.requires.len()
        invariant
            i <= v.requires@.len(),
            parts@.len() == i,
            forall|k: int| 0 <= k < i ==> (#[trigger] parts@[k])@ == qoq(v.requires@[k].text()),
        decreases v.requires@.len() - i,
    {
        parts.push(quoteless_or_quoted(v.requires[i].as_str()));
        i = i + 1;
    }
    assert(strings_view(parts@) =~= schema_parts(v.requires@));
    let mut s = owned("  requires: [");
    let j = join_strings(&parts, ", ");
    push_str(&mut s, j.as_str());
    push_str(&mut s, "]\n");
    s
}

fn threads_string(v: &crate::types::view::View) -> (r: String)
    ensures
        r@ == threads_line(*v),
{
    if v.threads.len() == 0 {
        return String::new();
    }
    let mut parts: Vec<String> = Vec::new();
    let mut i: usize = 0;
    while i < v.threads.len()
        invariant
            i <= v.threads@.len(),
            parts@.len() == i,
            forall|k: int| 0 <= k < i ==> (#[trigger] parts@[k])@ == qoq(v.threads@[k]@),
        decreases v.threads@.len() - i,
    {
        parts.push(quoteless_or_quoted(v.threads[i].as_str()));
        i = i + 1;
    }
    assert(strings_view(parts@) =~= thread_parts(v.threads@));
    let mut s = owned("  threads: [");
    let j = join_strings(&parts, ", ");
    push_str(&mut s, j.as_str());
    push_str(&mut s, "]\n");
    s
}

fn roots_string(v: &crate::types::view::View, ctx: &WriteContext) -> (r: String)
    ensures
        r@ == roots_line(*v, ctx.labels@),
{
    if v.roots.len() == 0 {
        return String::new();
    }
    let mut s = owned("  roots: [");
    let j = refs(ctx, &v.roots);
    push_str(&mut s, j.as_str());
    push_str(&mut s, "]\n");
    s
}

fn write_doc(out: &mut String, v: &crate::types::view::View, ctx: &WriteContext)
    ensures
        final(out)@ == old(out)@ + doc_text(*v, ctx.labels@, ctx.format_version@),
{
    let mut s = owned("@doc ");
    push_str(&mut s, ctx.format_version.as_str());
    push_str(&mut s, " {\n");
    push_str(&mut s, "  id: ");
    let id = quoteless_or_quoted(v.id.as_str());
    push_str(&mut s, id.as_str());
    push_str(&mut s, "\n");
    let t = intent_string(v);
    push_str(&mut s, t.as_str());
    push_str(&mut s, "  lang: ");
    let l = quoteless_or_quoted(v.lang.as_str());
    push_str(&mut s, l.as_str());
    push_str(&mut s, "\n");
    let rq = requires_string(v);
    push_str(&mut s, rq.as_str());
    let gl = granularity_line(&v.granularity);
    push_str(&mut s, gl.as_str());
    let th = threads_string(v);
    push_str(&mut s, th.as_str());
    let ro = roots_string(v, ctx);
    push_str(&mut s, ro.as_str());
    push_str(&mut s, "}\n\n");
    assert(s@ =~= doc_text(*v, ctx.labels@, ctx.format_version@));
    push_str(out, s.as_str());
}

/// What one record contributes: a unit, a relation or a thread in surface form; nothing for
/// a record with no surface form, which travels as CBOR only.
pub open spec fn record_text(r: Record, ls: Seq<(Uid, Label)>, ss: Seq<(Uid, u32)>) -> Seq<char> {
    match r {
        Record::Unit(u) => unit_text(u, ls, ss),
        Record::Relation(rel) => relation_text(rel, ls),
        Record::Thread(t) => thread_text(t, ls),
        _ => Seq::empty(),
    }
}

pub open spec fn records_text(rs: Seq<Record>, ls: Seq<(Uid, Label)>, ss: Seq<(Uid, u32)>) -> Seq<char>
    decreases rs.len(),
{
    if rs.len() == 0 {
        Seq::empty()
    } else {
        records_text(rs.drop_last(), ls, ss) + record_text(rs.last(), ls, ss)
    }
}

/// A text with its run of trailing blank lines cut back to one line end.
pub open spec fn trim_blank_tail(s: Seq<char>) -> Seq<char>
    decreases s.len(),
{
    if s.len() >= 2 && s[s.len() - 1] == '\n' && s[s.len() - 2] == '\n' {
        trim_blank_tail(s.drop_last())
    } else {
        s
    }
}

/// The canonical surface text of a document.
pub open spec fn surface_text(
    view: Option<crate::types::view::View>,
    rs: Seq<Record>,
    ls: Seq<(Uid, Label)>,
    ss: Seq<(Uid, u32)>,
    fv: Seq<char>,
) -> Seq<char> {
    trim_blank_tail(
        (match view {
            Some(v) => doc_text(v, ls, fv),
            None => Seq::empty(),
        }) + records_text(rs, ls, ss),
    )
}

/// What the writer can render: every unit's unknown top-level keys above the kernel's, and
/// every weight and salience a quantised float.
pub open spec fn writable(rs: Seq<Record>, ctx: WriteContext) -> bool {
    &&& saliences_quantised(ctx.salience@)
    &&& forall|i: int| 0 <= i < rs.len() ==> match #[trigger] rs[i] {
        Record::Unit(u) => extra_above(u.extra@, keys::unit::HIGHEST),
        Record::Relation(r) => r.weight matches Some(w) ==> bits_quantised(w),
        _ => true,
    }
}

/// Emits a document in canonical surface form: the `@doc` header if there is a view, then
/// each unit, relation and thread in order, field order fixed and quoting decided by content,
/// with no blank line at the end.
pub fn write_surface(view: Option<&crate::types::view::View>, records: &[Record], ctx: &WriteContext) -> (s: String)
    requires
        writable(records@, *ctx),
    ensures
        s@ == surface_text(
            match view {
                Some(v) => Some(*v),
                None => None,
            },
            records@,
            ctx.labels@,
            ctx.salience@,
            ctx.format_version@,
        ),
{
    let mut out = String::new();
    match view {
        Some(v) => write_doc(&mut out, v, ctx),
        None => {},
    }
    let ghost head = out@;
    let mut i: usize = 0;
    assert(records@.take(0) =~= Seq::<Record>::empty());
    while i < records.len()
        invariant
            i <= records@.len(),
            writable(records@, *ctx),
            out@ == head + records_text(records@.take(i as int), ctx.labels@, ctx.salience@),
        decreases records@.len() - i,
    {
        assert(records@.take(i + 1).drop_last() =~= records@.take(i as int));
        let ghost before = out@;
        match &records[i] {
            Record::Unit(u) => write_unit(&mut out, u, ctx),
            Record::Relation(r) => write_relation(&mut out, r, ctx),
            Record::Thread(t) => write_thread(&mut out, t, ctx),
            _ => {},
        }
        assert(out@ =~= head + records_text(records@.take(i + 1), ctx.labels@, ctx.salience@));
        i = i + 1;
    }
    assert(records@.take(records@.len() as int) =~= records@);
    let v = chars_of(out.as_str());
    let mut n: usize = v.len();
    assert(v@.take(n as int) =~= v@);
    while n >= 2 && v[n - 1] == '\n' && v[n - 2] == '\n'
        invariant
            n <= v@.len(),
            trim_blank_tail(v@) == trim_blank_tail(v@.take(n as int)),
        decreases n,
    {
        assert(v@.take(n as int).drop_last() =~= v@.take(n - 1));
        n = n - 1;
    }
    assert(trim_blank_tail(v@.take(n as int)) == v@.take(n as int));
    string_from_range(&v, 0, n)
}

} // verus!
