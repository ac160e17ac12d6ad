//! `smysl`: kernel types, the deterministic codec, identity, diagnostics and the structural
//! checks of a data interchange format for agents and humans.

use vstd::prelude::*;

pub mod text;
pub mod nfc;
pub mod ids;
pub mod error;
pub mod diag;
pub mod types;
pub mod cbor;
pub mod hash;
pub mod surface;
pub mod check;
pub mod quote;

use crate::text::{chars_of, find_char, index_of, parse_u32_range, parse_u32_view, starts_with, str_eq};

verus! {

/// Format versions this implementation accepts in a `@doc` header. `[0]` is what a document
/// declares when nothing tells the writer otherwise.
pub const FORMAT_VERSIONS_SUPPORTED: [&'static str; 2] = ["smysl/0.1", "smysl/1.0"];

/// What a document declares when the writer has nothing better to go on.
pub const FORMAT_VERSION_DEFAULT: &'static str = "smysl/0.1";

/// The kernel schema this implementation implements.
pub const KERNEL_SCHEMA: &'static str = "smysl.kernel/0.1";

/// The major component of [`KERNEL_SCHEMA`].
pub const KERNEL_MAJOR: u32 = 0;

/// True if this implementation can read a store declaring `version`.
pub fn format_version_supported(version: &str) -> (r: bool)
    ensures
        r == (version@ == "smysl/0.1"@ || version@ == "smysl/1.0"@),
{
    str_eq(version, "smysl/0.1") || str_eq(version, "smysl/1.0")
}

/// The major number of a `smysl.kernel/MAJOR[.MINOR]` schema id: the digits after the
/// prefix and before the first `.`, read as `str::parse::<u32>` reads them.
pub open spec fn kernel_major_view(s: Seq<char>) -> Option<u32> {
    if s.len() >= 13 && s.take(13) == "smysl.kernel/"@ {
        let v = s.skip(13);
        let j = index_of(v, '.');
        parse_u32_view(if j >= 0 { v.take(j) } else { v })
    } else {
        None
    }
}

/// The major number of a kernel schema id, if it is well-formed.
pub fn kernel_major(schema: &str) -> (r: Option<u32>)
    ensures
        r == kernel_major_view(schema@),
{
    let v = chars_of(schema);
    if !starts_with(&v, "smysl.kernel/") {
        return None;
    }
    proof {
        reveal_strlit("smysl.kernel/");
    }
    let ghost rest = schema@.skip(13);
    assert(rest =~= v@.skip(13));
    match find_char(&v, '.', 13) {
        Some(j) => {
            assert(rest.take(j - 13) =~= v@.subrange(13, j as int));
            parse_u32_range(&v, 13, j)
        },
        None => {
            assert(rest =~= v@.subrange(13, v@.len() as int));
            parse_u32_range(&v, 13, v.len())
        },
    }
}

} // verus!
