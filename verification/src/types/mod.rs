//! The kernel type system.

use vstd::prelude::*;

use crate::text::{chars_of, push_char, push_str};
use vstd::string::StringSliceAdditionalSpecFns;

pub mod epistemics;
pub mod provenance;
pub mod thread;
pub mod view;
pub mod unit;
pub mod relation;
pub mod annex;
pub mod lifecycle;
pub mod record;

verus! {

/// Unknown map keys of a record, kept verbatim so re-emission preserves them.
pub type Extra = std::collections::BTreeMap<u16, Vec<u8>>;

/// The bundled deterministic token estimate of a text of `n` UTF-8 bytes: a quarter of them,
/// rounded up, the byte count taken as a `u32`.
pub open spec fn token_estimate(n: nat) -> int {
    let x = (n as u32) as int;
    x / 4 + if x % 4 == 0 { 0int } else { 1int }
}

/// The token estimate of `text`: `ceil(utf8_len(text) / 4)`. Packing must be pure and
/// provider tokenisers are neither offline nor stable, so budgets are approximate against any
/// given model by design. Granularity bounds are in the same tokens.
pub fn tokens(text: &str) -> (t: u32)
    ensures
        t == token_estimate(text.spec_bytes().len()),
{
    let n = text.as_bytes().len() as u32;
    n / 4 + if n % 4 == 0 { 0 } else { 1 }
}

/// The lowercase hexadecimal digit for `v` below 16.
pub open spec fn hex_digit(v: int) -> char {
    if v < 10 {
        (48 + v) as char
    } else {
        (87 + v) as char
    }
}

/// How one character stands in a JSON string: quote, backslash and the named controls by
/// their short escapes, other controls below `U+0020` as `\u00XX`, everything else as itself.
pub open spec fn json_char(c: char) -> Seq<char> {
    if c == '"' {
        seq!['\\', '"']
    } else if c == '\\' {
        seq!['\\', '\\']
    } else if c == '\n' {
        seq!['\\', 'n']
    } else if c == '\r' {
        seq!['\\', 'r']
    } else if c == '\t' {
        seq!['\\', 't']
    } else if c == '\u{8}' {
        seq!['\\', 'b']
    } else if c == '\u{c}' {
        seq!['\\', 'f']
    } else if (c as u32) < 0x20 {
        seq!['\\', 'u', '0', '0', hex_digit((c as u32) as int / 16), hex_digit((c as u32) as int % 16)]
    } else {
        seq![c]
    }
}

/// The escaped characters of `s`, one after another.
pub open spec fn json_chars(s: Seq<char>) -> Seq<char>
    decreases s.len(),
{
    if s.len() == 0 {
        Seq::empty()
    } else {
        json_chars(s.drop_last()) + json_char(s.last())
    }
}

/// `s` as a JSON string value, quotes included. Control characters take the four-digit
/// form, which every JSON parser reads.
pub fn json_escape(s: &str) -> (r: String)
    ensures
        r@ == seq!['"'] + json_chars(s@) + seq!['"'],
{
    let v = chars_of(s);
    let mut out = String::new();
    push_char(&mut out, '"');
    let mut i: usize = 0;
    while i < v.len()
        invariant
            i <= v.len(),
            v@ == s@,
            out@ == seq!['"'] + json_chars(v@.take(i as int)),
        decreases v.len() - i,
    {
        let c = v[i];
        let ghost before = out@;
        if c == '"' {
            push_char(&mut out, '\\');
            push_char(&mut out, '"');
        } else if c == '\\' {
            push_char(&mut out, '\\');
            push_char(&mut out, '\\');
        } else if c == '\n' {
            push_char(&mut out, '\\');
            push_char(&mut out, 'n');
        } else if c == '\r' {
            push_char(&mut out, '\\');
            push_char(&mut out, 'r');
        } else if c == '\t' {
            push_char(&mut out, '\\');
            push_char(&mut out, 't');
        } else if c == '\u{8}' {
            push_char(&mut out, '\\');
            push_char(&mut out, 'b');
        } else if c == '\u{c}' {
            push_char(&mut out, '\\');
            push_char(&mut out, 'f');
        } else if (c as u32) < 0x20 {
            let code = c as u32;
            push_char(&mut out, '\\');
            push_char(&mut out, 'u');
            push_char(&mut out, '0');
            push_char(&mut out, '0');
            push_char(&mut out, hex(code / 16));
            push_char(&mut out, hex(code % 16));
        } else {
            push_char(&mut out, c);
        }
        assert(out@ =~= before + json_char(c));
        assert(v@.take(i + 1).drop_last() =~= v@.take(i as int));
        i = i + 1;
    }
    assert(v@.take(v.len() as int) =~= v@);
    push_char(&mut out, '"');
    out
}

/// The lowercase hexadecimal digit for `v`.
fn hex(v: u32) -> (c: char)
    requires
        v < 16,
    ensures
        c == hex_digit(v as int),
{
    if v < 10 {
        ((48 + v) as u8) as char
    } else {
        ((87 + v) as u8) as char
    }
}

} // verus!
