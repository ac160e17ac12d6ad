//! Unicode normalisation form C, from `unicode_normalization`.

use vstd::prelude::*;

use unicode_normalization::UnicodeNormalization;
use vstd::utf8::is_ascii_chars;

verus! {

/// The NFC normalisation of a character sequence, as `unicode_normalization` computes it.
pub uninterp spec fn nfc_of(s: Seq<char>) -> Seq<char>;

/// Whether `s` is already in NFC: `unicode_normalization::is_nfc`, which its documentation
/// calls authoritative, holds exactly when normalising `s` leaves it unchanged. ASCII text
/// is in NFC (Unicode normalisation leaves every ASCII character as it is).
#[verifier::external_body]
pub fn is_nfc(s: &str) -> (r: bool)
    ensures
        r == (nfc_of(s@) == s@),
        is_ascii_chars(s@) ==> r,
{
    unicode_normalization::is_nfc(s)
}

/// `s` normalised to NFC, through the `nfc` iterator of `unicode_normalization`. What comes
/// out is itself in NFC: normalising it again changes nothing. ASCII text comes out as
/// it went in.
#[verifier::external_body]
pub fn to_nfc(s: &str) -> (r: String)
    ensures
        r@ == nfc_of(s@),
        nfc_of(r@) == r@,
        is_ascii_chars(s@) ==> r@ == s@,
{
    s.nfc().collect()
}

/// `s` in NFC: copied as it is when it already is, normalised otherwise.
pub fn normalise(s: &str) -> (r: String)
    ensures
        r@ == nfc_of(s@),
        nfc_of(r@) == r@,
{
    if is_nfc(s) {
        crate::text::owned(s)
    } else {
        to_nfc(s)
    }
}

} // verus!
