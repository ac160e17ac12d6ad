//! Identifiers: uids and their base32 text forms, label-shaped ids, agent ids, schema ids
//! and language tags. Every identifier is validated on construction.

use vstd::prelude::*;

use crate::error::IdError;
pub use crate::cbor::order::{bytes_lt, lemma_bytes_lt_total, lemma_bytes_lt_transitive};
use crate::cbor::order::bytes_less;
use crate::text::{
    chars_of, find_char, index_of, is_digit, is_lower, is_upper, owned, push_char, starts_with,
    str_eq, string_from_range,
};

verus! {

// ---------------------------------------------------------------------------
// base32 (RFC 4648 alphabet, lowercased)
// ---------------------------------------------------------------------------

/// The character for a 5-bit value: `a`..`z` then `2`..`7`.
pub open spec fn alphabet(v: int) -> char {
    if v < 26 {
        (97 + v) as char
    } else {
        (50 + v - 26) as char
    }
}

/// The 5-bit value a base32 character stands for, if it is in the alphabet.
pub open spec fn decode_value(c: char) -> Option<int> {
    if 'a' <= c && c <= 'z' {
        Some(c as int - 97)
    } else if '2' <= c && c <= '7' {
        Some(c as int - 50 + 26)
    } else {
        None
    }
}

proof fn lemma_alphabet_decodes(v: int)
    requires
        0 <= v < 32,
    ensures
        decode_value(alphabet(v)) == Some(v),
{
}

fn alphabet_char(v: usize) -> (c: char)
    requires
        v < 32,
    ensures
        c == alphabet(v as int),
{
    if v < 26 {
        ((97u8 + v as u8) as char)
    } else {
        ((50u8 + (v as u8 - 26)) as char)
    }
}

fn decode_char(c: char) -> (r: Option<u8>)
    ensures
        match decode_value(c) {
            Some(v) => r == Some(v as u8) && 0 <= v < 32,
            None => r is None,
        },
{
    if 'a' <= c && c <= 'z' {
        Some((c as u32 - 97) as u8)
    } else if '2' <= c && c <= '7' {
        Some((c as u32 - 50 + 26) as u8)
    } else {
        None
    }
}

/// Bit `k` of a 256-bit value held MSB-first in 32 bytes; bits past 256 read as zero.
pub open spec fn bit(bytes: Seq<u8>, k: int) -> bool {
    0 <= k < 256 && ((bytes[k / 8] >> ((7 - k % 8) as u8)) & 1u8) == 1u8
}

/// Bit `j` (0 = most significant) of a 5-bit value.
pub open spec fn bit5(v: int, j: int) -> bool {
    ((v as u8) >> ((4 - j) as u8)) & 1u8 == 1u8
}

/// The 5-bit value whose bits are bits `off .. off + 5` of `bytes`.
pub open spec fn five_bits(bytes: Seq<u8>, off: int) -> int {
    (if bit(bytes, off) { 16int } else { 0 }) + (if bit(bytes, off + 1) { 8int } else { 0 }) + (
    if bit(bytes, off + 2) { 4int } else { 0 }) + (if bit(bytes, off + 3) { 2int } else { 0 }) + (
    if bit(bytes, off + 4) { 1int } else { 0 })
}

/// The first `n` base32 characters of a 256-bit value.
pub open spec fn base32(bytes: Seq<u8>, n: nat) -> Seq<char> {
    Seq::new(n, |i: int| alphabet(five_bits(bytes, i * 5)))
}

pub proof fn lemma_five_bits_range(bytes: Seq<u8>, off: int)
    ensures
        0 <= five_bits(bytes, off) < 32,
{
}

proof fn lemma_bit5_of_five_bits(bytes: Seq<u8>, off: int, j: int)
    requires
        0 <= j < 5,
    ensures
        bit5(five_bits(bytes, off), j) == bit(bytes, off + j),
{
    let b0 = bit(bytes, off);
    let b1 = bit(bytes, off + 1);
    let b2 = bit(bytes, off + 2);
    let b3 = bit(bytes, off + 3);
    let b4 = bit(bytes, off + 4);
    let v: u8 = ((if b0 { 16u8 } else { 0u8 }) + (if b1 { 8u8 } else { 0u8 }) + (if b2 {
        4u8
    } else {
        0u8
    }) + (if b3 { 2u8 } else { 0u8 }) + (if b4 { 1u8 } else { 0u8 })) as u8;
    assert(v as int == five_bits(bytes, off));
    let jj: u8 = j as u8;
    assert(((v >> ((4u8 - jj) as u8)) & 1u8 == 1u8) == (if jj == 0 { b0 } else if jj == 1 { b1 } else if jj
        == 2 { b2 } else if jj == 3 { b3 } else { b4 })) by (bit_vector)
        requires
            jj < 5,
            v == ((if b0 { 16u8 } else { 0u8 }) + (if b1 { 8u8 } else { 0u8 }) + (if b2 {
                4u8
            } else {
                0u8
            }) + (if b3 { 2u8 } else { 0u8 }) + (if b4 { 1u8 } else { 0u8 })),
    ;
}

fn bit_at(bytes: &[u8; 32], k: usize) -> (r: bool)
    ensures
        r == bit(bytes@, k as int),
{
    if k >= 256 {
        return false;
    }
    let b = bytes[k / 8];
    let sh: u8 = (7 - k % 8) as u8;
    (b >> sh) & 1 == 1
}

/// The 5 bits starting at bit offset `off`, MSB-first, zero-padded past the end.
fn five_bits_at(bytes: &[u8; 32], off: usize) -> (v: usize)
    requires
        off < 300,
    ensures
        v as int == five_bits(bytes@, off as int),
        v < 32,
{
    let mut v: usize = 0;
    if bit_at(bytes, off) {
        v = v + 16;
    }
    if bit_at(bytes, off + 1) {
        v = v + 8;
    }
    if bit_at(bytes, off + 2) {
        v = v + 4;
    }
    if bit_at(bytes, off + 3) {
        v = v + 2;
    }
    if bit_at(bytes, off + 4) {
        v = v + 1;
    }
    v
}

proof fn lemma_set_bit(b: u8, r: u8, r2: u8)
    requires
        r < 8,
        r2 < 8,
    ensures
        (((b | (1u8 << ((7u8 - r) as u8))) >> ((7u8 - r2) as u8)) & 1u8 == 1u8) == (r == r2 || ((b >> ((7u8 - r2) as u8))
            & 1u8 == 1u8)),
{
    assert((((b | (1u8 << ((7u8 - r) as u8))) >> ((7u8 - r2) as u8)) & 1u8 == 1u8) == (r == r2 || ((b >> ((7u8 - r2) as u8)) & 1u8 == 1u8))) by (bit_vector)
        requires
            r < 8,
            r2 < 8,
    ;
}

proof fn lemma_zero_bits(k: int)
    ensures
        !bit(Seq::new(32, |i: int| 0u8), k),
{
    if 0 <= k < 256 {
        let s: u8 = (7 - k % 8) as u8;
        assert((0u8 >> s) & 1u8 == 0u8) by (bit_vector);
    }
}

/// Bytes are equal when every bit is.
proof fn lemma_bits_determine_bytes(a: Seq<u8>, b: Seq<u8>)
    requires
        a.len() == 32,
        b.len() == 32,
        forall|k: int| 0 <= k < 256 ==> bit(a, k) == bit(b, k),
    ensures
        a == b,
{
    assert forall|i: int| 0 <= i < 32 implies a[i] == b[i] by {
        let x = a[i];
        let y = b[i];
        assert(bit(a, i * 8) == bit(b, i * 8));
        assert(bit(a, i * 8 + 1) == bit(b, i * 8 + 1));
        assert(bit(a, i * 8 + 2) == bit(b, i * 8 + 2));
        assert(bit(a, i * 8 + 3) == bit(b, i * 8 + 3));
        assert(bit(a, i * 8 + 4) == bit(b, i * 8 + 4));
        assert(bit(a, i * 8 + 5) == bit(b, i * 8 + 5));
        assert(bit(a, i * 8 + 6) == bit(b, i * 8 + 6));
        assert(bit(a, i * 8 + 7) == bit(b, i * 8 + 7));
        assert((i * 8) / 8 == i && (i * 8) % 8 == 0) by (nonlinear_arith);
        assert((i * 8 + 1) / 8 == i && (i * 8 + 1) % 8 == 1) by (nonlinear_arith);
        assert((i * 8 + 2) / 8 == i && (i * 8 + 2) % 8 == 2) by (nonlinear_arith);
        assert((i * 8 + 3) / 8 == i && (i * 8 + 3) % 8 == 3) by (nonlinear_arith);
        assert((i * 8 + 4) / 8 == i && (i * 8 + 4) % 8 == 4) by (nonlinear_arith);
        assert((i * 8 + 5) / 8 == i && (i * 8 + 5) % 8 == 5) by (nonlinear_arith);
        assert((i * 8 + 6) / 8 == i && (i * 8 + 6) % 8 == 6) by (nonlinear_arith);
        assert((i * 8 + 7) / 8 == i && (i * 8 + 7) % 8 == 7) by (nonlinear_arith);
        assert(x == y) by (bit_vector)
            requires
                ((x >> 7u8) & 1u8 == 1u8) == ((y >> 7u8) & 1u8 == 1u8),
                ((x >> 6u8) & 1u8 == 1u8) == ((y >> 6u8) & 1u8 == 1u8),
                ((x >> 5u8) & 1u8 == 1u8) == ((y >> 5u8) & 1u8 == 1u8),
                ((x >> 4u8) & 1u8 == 1u8) == ((y >> 4u8) & 1u8 == 1u8),
                ((x >> 3u8) & 1u8 == 1u8) == ((y >> 3u8) & 1u8 == 1u8),
                ((x >> 2u8) & 1u8 == 1u8) == ((y >> 2u8) & 1u8 == 1u8),
                ((x >> 1u8) & 1u8 == 1u8) == ((y >> 1u8) & 1u8 == 1u8),
                ((x >> 0u8) & 1u8 == 1u8) == ((y >> 0u8) & 1u8 == 1u8),
        ;
    }
    assert(a =~= b);
}

/// Writes the 5 bits of `v` at bit offset `off`, MSB-first, into bits that are still zero;
/// bits past 256 are discarded.
fn put_five_bits(bytes: &mut [u8; 32], off: usize, v: u8)
    requires
        off < 300,
        v < 32,
    ensures
        forall|k: int|
            #![trigger bit(final(bytes)@, k)]
            0 <= k < 256 ==> bit(final(bytes)@, k) == (bit(old(bytes)@, k) || (off <= k < off + 5
                && bit5(v as int, k - off))),
{
    let mut j: usize = 0;
    while j < 5
        invariant
            j <= 5,
            off < 300,
            v < 32,
            forall|k: int|
                #![trigger bit(bytes@, k)]
                0 <= k < 256 ==> bit(bytes@, k) == (bit(old(bytes)@, k) || (off <= k < off + j
                    && bit5(v as int, k - off))),
        decreases 5 - j,
    {
        let b = off + j;
        if b >= 256 {
            assert forall|k: int| 0 <= k < 256 implies bit(bytes@, k) == (bit(old(bytes)@, k) || (
            off <= k < off + 5 && bit5(v as int, k - off))) by {
                assert(off <= k < off + 5 ==> k < off + j);
            }
            return;
        }
        let jj: u8 = j as u8;
        let set = (v >> (4 - jj)) & 1 == 1;
        assert(set == bit5(v as int, j as int));
        let ghost pre = bytes@;
        if set {
            let idx = b / 8;
            let r: u8 = (b % 8) as u8;
            let old_byte = bytes[idx];
            bytes[idx] = old_byte | (1u8 << (7 - r));
            assert forall|k: int| 0 <= k < 256 implies #[trigger] bit(bytes@, k) == (bit(pre, k)
                || k == b) by {
                if k / 8 == idx as int {
                    let r2: u8 = (k % 8) as u8;
                    lemma_set_bit(old_byte, r, r2);
                    assert(k == b <==> r == r2);
                    assert(bytes@[k / 8] == old_byte | (1u8 << ((7u8 - r) as u8)));
                    assert(((7 - k % 8) as u8) == ((7u8 - r2) as u8));
                } else {
                    assert(bytes@[k / 8] == pre[k / 8]);
                    assert(k != b);
                }
            }
        }
        assert forall|k: int|
            #![trigger bit(bytes@, k)]
            0 <= k < 256 implies bit(bytes@, k) == (bit(old(bytes)@, k) || (off <= k < off + j + 1
                && bit5(v as int, k - off))) by {
            assert(bit(pre, k) == (bit(old(bytes)@, k) || (off <= k < off + j && bit5(
                v as int,
                k - off,
            ))));
            if k == b {
                assert(k - off == j);
            }
        }
        j = j + 1;
    }
}

// ---------------------------------------------------------------------------
// Uid
// ---------------------------------------------------------------------------

/// `uid = BLAKE3-256(det_cbor(core))`. A `Uid` always carries all 256 bits; comparison
/// is over the full width.
#[derive(Clone, Copy, Eq, PartialOrd, Ord, Hash, Debug)]
pub struct Uid([u8; 32]);

impl PartialEq for Uid {
    fn eq(&self, other: &Uid) -> (r: bool) {
        let mut i: usize = 0;
        while i < 32
            invariant
                i <= 32,
                forall|j: int| 0 <= j < i ==> self.0@[j] == other.0@[j],
            decreases 32 - i,
        {
            if self.0[i] != other.0[i] {
                return false;
            }
            i = i + 1;
        }
        assert(self.0@ =~= other.0@);
        true
    }
}

impl vstd::std_specs::cmp::PartialEqSpecImpl for Uid {
    open spec fn obeys_eq_spec() -> bool {
        true
    }

    open spec fn eq_spec(&self, other: &Uid) -> bool {
        self.bytes() == other.bytes()
    }
}

impl Uid {
    /// Characters in the short display form: the first 130 bits.
    pub const SHORT_CHARS: usize = 26;

    /// Characters in the canonical display form: all 256 bits, zero-padded to 260.
    pub const FULL_CHARS: usize = 52;

    /// The textual prefix that marks a uid as BLAKE3.
    pub const PREFIX: &'static str = "b3:";

    /// The 32 bytes of this uid.
    pub closed spec fn bytes(self) -> Seq<u8> {
        self.0@
    }

    pub fn from_bytes(b: [u8; 32]) -> (u: Uid)
        ensures
            u.bytes() == b@,
    {
        Uid(b)
    }

    pub fn as_bytes(&self) -> (b: &[u8; 32])
        ensures
            b@ == self.bytes(),
    {
        &self.0
    }

    pub fn to_bytes(self) -> (b: [u8; 32])
        ensures
            b@ == self.bytes(),
    {
        self.0
    }

    /// The text form with the first `n` base32 characters.
    pub open spec fn text_form(self, n: nat) -> Seq<char> {
        "b3:"@ + base32(self.bytes(), n)
    }

    fn encode(&self, chars: usize) -> (s: String)
        requires
            chars <= 52,
        ensures
            s@ == self.text_form(chars as nat),
    {
        let mut s = owned("b3:");
        let mut i: usize = 0;
        while i < chars
            invariant
                i <= chars,
                chars <= 52,
                s@ == "b3:"@ + base32(self.bytes(), i as nat),
            decreases chars - i,
        {
            let v = five_bits_at(&self.0, i * 5);
            push_char(&mut s, alphabet_char(v));
            assert(base32(self.bytes(), i as nat).push(alphabet(v as int)) =~= base32(
                self.bytes(),
                (i + 1) as nat,
            ));
            assert(("b3:"@ + base32(self.bytes(), i as nat)).push(alphabet(v as int)) =~= "b3:"@
                + base32(self.bytes(), i as nat).push(alphabet(v as int)));
            i = i + 1;
        }
        s
    }

    /// `b3:` + 26 base32 characters (the first 130 bits). Display form; not canonical.
    pub fn short(&self) -> (s: String)
        ensures
            s@ == self.text_form(26),
    {
        self.encode(26)
    }

    /// `b3:` + 52 base32 characters (all 256 bits). The canonical text form.
    pub fn canonical(&self) -> (s: String)
        ensures
            s@ == self.text_form(52),
    {
        self.encode(52)
    }

    /// Parse a canonical, full-width uid. Anything else, a short form included, is
    /// `SMY-E071`.
    pub fn parse(s: &str) -> (r: Result<Uid, crate::error::IntegrityError>)
        ensures
            r is Ok <==> uid_text_ok(s@, 52, 52),
            r matches Ok(u) ==> bits_read_from(u.bytes(), s@),
            r matches Err(e) ==> (e matches crate::error::IntegrityError::TruncatedUid { found } && found@ == s@),
    {
        match read_bits(s, 52, 52) {
            Some((bytes, _)) => Ok(Uid(bytes)),
            None => Err(crate::error::IntegrityError::TruncatedUid { found: owned(s) }),
        }
    }
}

/// `s` is `b3:` followed by between `min` and `max` alphabet characters.
pub open spec fn uid_text_ok(s: Seq<char>, min: nat, max: nat) -> bool {
    &&& s.len() >= 3
    &&& s.take(3) == "b3:"@
    &&& min <= s.len() - 3 <= max
    &&& forall|i: int| 3 <= i < s.len() ==> decode_value(#[trigger] s[i]) is Some
}

/// Bit `k` of the value spelled by the characters after the `b3:` prefix.
pub open spec fn text_bit(s: Seq<char>, k: int) -> bool {
    3 + k / 5 < s.len() && bit5(decode_value(s[3 + k / 5])->0, k % 5)
}

/// Every bit of `bytes` is the corresponding bit spelled by the text `s`; bits the text
/// does not reach are zero.
pub open spec fn bits_read_from(bytes: Seq<u8>, s: Seq<char>) -> bool {
    &&& bytes.len() == 32
    &&& forall|k: int| 0 <= k < 256 ==> #[trigger] bit(bytes, k) == text_bit(s, k)
}

/// Reads the bits spelled by `b3:` + between `min` and `max` base32 characters.
fn read_bits(s: &str, min: usize, max: usize) -> (r: Option<([u8; 32], usize)>)
    requires
        max <= 52,
    ensures
        r is Some <==> uid_text_ok(s@, min as nat, max as nat),
        r matches Some((b, n)) ==> bits_read_from(b@, s@) && n == s@.len() - 3,
{
    let cs = chars_of(s);
    proof {
        reveal_strlit("b3:");
    }
    if cs.len() < 3 || cs[0] != 'b' || cs[1] != '3' || cs[2] != ':' {
        proof {
            if s@.len() >= 3 && s@.take(3) == "b3:"@ {
                assert(s@.take(3)[0] == 'b' && s@.take(3)[1] == '3' && s@.take(3)[2] == ':');
            }
        }
        return None;
    }
    assert(s@.take(3) =~= "b3:"@);
    let n = cs.len() - 3;
    if n < min || n > max {
        return None;
    }
    let mut bytes = [0u8; 32];
    assert forall|k: int| 0 <= k < 256 implies !bit(bytes@, k) by {
        assert(bytes@ =~= Seq::new(32, |i: int| 0u8));
        lemma_zero_bits(k);
    }
    let mut i: usize = 0;
    while i < n
        invariant
            n == cs.len() - 3,
            cs@ == s@,
            n <= 52,
            i <= n,
            forall|j: int| 3 <= j < 3 + i ==> decode_value(#[trigger] s@[j]) is Some,
            forall|k: int|
                0 <= k < 256 ==> #[trigger] bit(bytes@, k) == (k < 5 * i && text_bit(s@, k)),
        decreases n - i,
    {
        let c = cs[i + 3];
        match decode_char(c) {
            None => {
                return None;
            },
            Some(v) => {
                let ghost pre = bytes@;
                put_five_bits(&mut bytes, i * 5, v);
                assert forall|k: int|
                    0 <= k < 256 implies #[trigger] bit(bytes@, k) == (k < 5 * (i + 1) && text_bit(
                    s@,
                    k,
                )) by {
                    if 5 * i <= k < 5 * i + 5 {
                        assert(k / 5 == i) by (nonlinear_arith)
                            requires
                                5 * i <= k < 5 * i + 5,
                        ;
                        assert(k % 5 == k - 5 * i) by (nonlinear_arith)
                            requires
                                5 * i <= k < 5 * i + 5,
                        ;
                    } else if k < 5 * i {
                        assert(bit(pre, k) == text_bit(s@, k));
                    }
                }
            },
        }
        i = i + 1;
    }
    assert forall|k: int| 0 <= k < 256 implies #[trigger] bit(bytes@, k) == text_bit(s@, k) by {
        if k >= 5 * n {
            assert(k / 5 >= n) by (nonlinear_arith)
                requires
                    k >= 5 * n,
            ;
        }
    }
    Some((bytes, n))
}

/// Canonical text round-trips: parsing the canonical form of a uid gives that uid back.
pub proof fn lemma_canonical_round_trip(u: Uid, s: Seq<char>)
    requires
        s == u.text_form(52),
    ensures
        uid_text_ok(s, 52, 52),
        forall|b: Seq<u8>| bits_read_from(b, s) ==> b == u.bytes(),
{
    reveal_strlit("b3:");
    assert(s.take(3) =~= "b3:"@);
    assert forall|i: int| 3 <= i < s.len() implies decode_value(#[trigger] s[i]) is Some by {
        lemma_five_bits_range(u.bytes(), (i - 3) * 5);
        lemma_alphabet_decodes(five_bits(u.bytes(), (i - 3) * 5));
    }
    assert forall|b: Seq<u8>| bits_read_from(b, s) implies b == u.bytes() by {
        assert forall|k: int| 0 <= k < 256 implies bit(b, k) == bit(u.bytes(), k) by {
            let i = k / 5;
            let j = k % 5;
            assert(0 <= i < 52);
            assert(s[3 + i] == alphabet(five_bits(u.bytes(), i * 5)));
            lemma_five_bits_range(u.bytes(), i * 5);
            lemma_alphabet_decodes(five_bits(u.bytes(), i * 5));
            lemma_bit5_of_five_bits(u.bytes(), i * 5, j);
            assert(i * 5 + j == k);
        }
        lemma_bits_determine_bytes(b, u.bytes());
    }
}

/// Two uids spell the same first `n` base32 characters exactly when they agree on their first
/// `5 n` bits.
pub proof fn lemma_text_form_bits(u: Uid, v: Uid, n: nat)
    requires
        n <= 52,
    ensures
        (u.text_form(n) == v.text_form(n)) <==> (forall|k: int| 0 <= k < 5 * n ==> bit(u.bytes(), k) == bit(v.bytes(), k)),
{
    reveal_strlit("b3:");
    let a = u.bytes();
    let b = v.bytes();
    if u.text_form(n) == v.text_form(n) {
        assert forall|k: int| 0 <= k < 5 * n implies bit(a, k) == bit(b, k) by {
            let i = k / 5;
            let j = k % 5;
            assert(0 <= i < n);
            assert(u.text_form(n)[3 + i] == v.text_form(n)[3 + i]);
            assert(u.text_form(n)[3 + i] == alphabet(five_bits(a, i * 5)));
            assert(v.text_form(n)[3 + i] == alphabet(five_bits(b, i * 5)));
            lemma_five_bits_range(a, i * 5);
            lemma_five_bits_range(b, i * 5);
            lemma_alphabet_decodes(five_bits(a, i * 5));
            lemma_alphabet_decodes(five_bits(b, i * 5));
            lemma_bit5_of_five_bits(a, i * 5, j);
            lemma_bit5_of_five_bits(b, i * 5, j);
            assert(i * 5 + j == k);
        }
    }
    if forall|k: int| 0 <= k < 5 * n ==> bit(a, k) == bit(b, k) {
        assert forall|i: int| 0 <= i < n implies #[trigger] five_bits(a, i * 5) == five_bits(b, i * 5) by {
            assert(bit(a, i * 5) == bit(b, i * 5));
            assert(bit(a, i * 5 + 1) == bit(b, i * 5 + 1));
            assert(bit(a, i * 5 + 2) == bit(b, i * 5 + 2));
            assert(bit(a, i * 5 + 3) == bit(b, i * 5 + 3));
            assert(bit(a, i * 5 + 4) == bit(b, i * 5 + 4));
        }
        assert(base32(a, n) =~= base32(b, n));
    }
}

/// The short form covers exactly the first 130 bits: two uids share it exactly when they agree
/// on those bits.
pub proof fn lemma_short_form_bits(u: Uid, v: Uid)
    ensures
        (u.text_form(26) == v.text_form(26)) <==> (forall|k: int| 0 <= k < 130 ==> bit(u.bytes(), k) == bit(v.bytes(), k)),
{
    lemma_text_form_bits(u, v, 26);
}

/// The canonical form is `b3:` and 52 base32 characters, 55 in all, begins with the short
/// form, and names one uid: two uids share it exactly when they are the same uid.
pub proof fn lemma_canonical_form(u: Uid, v: Uid)
    ensures
        u.text_form(52).len() == 55,
        u.text_form(52).take(3) == "b3:"@,
        u.text_form(52).take(29) == u.text_form(26),
        forall|i: int| 3 <= i < 55 ==> decode_value(#[trigger] u.text_form(52)[i]) is Some,
        (u.text_form(52) == v.text_form(52)) <==> u == v,
{
    reveal_strlit("b3:");
    let a = u.bytes();
    assert(u.text_form(52).take(3) =~= "b3:"@);
    assert(u.text_form(52).take(29) =~= u.text_form(26));
    assert forall|i: int| 3 <= i < 55 implies decode_value(#[trigger] u.text_form(52)[i]) is Some by {
        lemma_five_bits_range(a, (i - 3) * 5);
        lemma_alphabet_decodes(five_bits(a, (i - 3) * 5));
    }
    lemma_text_form_bits(u, v, 52);
    lemma_uid_bytes_injective(u, v);
    if u.text_form(52) == v.text_form(52) {
        lemma_bits_determine_bytes(u.bytes(), v.bytes());
    }
}

// ---------------------------------------------------------------------------
// Kernel types and agent kinds
// ---------------------------------------------------------------------------

/// The closed kernel type set.
#[derive(Debug, Clone, Copy, PartialEq, Eq, Structural, PartialOrd, Ord, Hash)]
#[non_exhaustive]
pub enum KernelType {
    Claim,
    Evidence,
    Definition,
    Question,
    Hypothesis,
    Finding,
    Procedure,
    Decision,
    Constraint,
    Observation,
    Data,
    ArtifactRef,
    Prose,
    Contention,
    PackInfo,
}

impl KernelType {
    /// Every variant, in declaration order.
    pub const ALL: [KernelType; 15] = [
        KernelType::Claim,
        KernelType::Evidence,
        KernelType::Definition,
        KernelType::Question,
        KernelType::Hypothesis,
        KernelType::Finding,
        KernelType::Procedure,
        KernelType::Decision,
        KernelType::Constraint,
        KernelType::Observation,
        KernelType::Data,
        KernelType::ArtifactRef,
        KernelType::Prose,
        KernelType::Contention,
        KernelType::PackInfo,
    ];

    /// The stable text name.
    pub open spec fn str_view(self) -> Seq<char> {
        match self {
            KernelType::Claim => "claim"@,
            KernelType::Evidence => "evidence"@,
            KernelType::Definition => "definition"@,
            KernelType::Question => "question"@,
            KernelType::Hypothesis => "hypothesis"@,
            KernelType::Finding => "finding"@,
            KernelType::Procedure => "procedure"@,
            KernelType::Decision => "decision"@,
            KernelType::Constraint => "constraint"@,
            KernelType::Observation => "observation"@,
            KernelType::Data => "data"@,
            KernelType::ArtifactRef => "artifact-ref"@,
            KernelType::Prose => "prose"@,
            KernelType::Contention => "contention"@,
            KernelType::PackInfo => "packinfo"@,
        }
    }

    pub fn as_str(self) -> (r: &'static str)
        ensures
            r@ == self.str_view(),
    {
        match self {
            KernelType::Claim => "claim",
            KernelType::Evidence => "evidence",
            KernelType::Definition => "definition",
            KernelType::Question => "question",
            KernelType::Hypothesis => "hypothesis",
            KernelType::Finding => "finding",
            KernelType::Procedure => "procedure",
            KernelType::Decision => "decision",
            KernelType::Constraint => "constraint",
            KernelType::Observation => "observation",
            KernelType::Data => "data",
            KernelType::ArtifactRef => "artifact-ref",
            KernelType::Prose => "prose",
            KernelType::Contention => "contention",
            KernelType::PackInfo => "packinfo",
        }
    }

    /// Distinct variants have distinct names.
    pub proof fn lemma_str_view_injective()
        ensures
            forall|a: KernelType, b: KernelType| a.str_view() == b.str_view() ==> a == b,
    {
        reveal_strlit("claim");
        assert(KernelType::Claim.str_view().len() == 5);
        assert(KernelType::Claim.str_view()[3] == 'i');
        reveal_strlit("evidence");
        assert(KernelType::Evidence.str_view().len() == 8);
        assert(KernelType::Evidence.str_view()[3] == 'd');
        reveal_strlit("definition");
        assert(KernelType::Definition.str_view().len() == 10);
        assert(KernelType::Definition.str_view()[3] == 'i');
        reveal_strlit("question");
        assert(KernelType::Question.str_view().len() == 8);
        assert(KernelType::Question.str_view()[3] == 's');
        reveal_strlit("hypothesis");
        assert(KernelType::Hypothesis.str_view().len() == 10);
        assert(KernelType::Hypothesis.str_view()[3] == 'o');
        reveal_strlit("finding");
        assert(KernelType::Finding.str_view().len() == 7);
        assert(KernelType::Finding.str_view()[3] == 'd');
        reveal_strlit("procedure");
        assert(KernelType::Procedure.str_view().len() == 9);
        assert(KernelType::Procedure.str_view()[3] == 'c');
        reveal_strlit("decision");
        assert(KernelType::Decision.str_view().len() == 8);
        assert(KernelType::Decision.str_view()[3] == 'i');
        reveal_strlit("constraint");
        assert(KernelType::Constraint.str_view().len() == 10);
        assert(KernelType::Constraint.str_view()[3] == 's');
        reveal_strlit("observation");
        assert(KernelType::Observation.str_view().len() == 11);
        assert(KernelType::Observation.str_view()[3] == 'e');
        reveal_strlit("data");
        assert(KernelType::Data.str_view().len() == 4);
        assert(KernelType::Data.str_view()[3] == 'a');
        reveal_strlit("artifact-ref");
        assert(KernelType::ArtifactRef.str_view().len() == 12);
        assert(KernelType::ArtifactRef.str_view()[3] == 'i');
        reveal_strlit("prose");
        assert(KernelType::Prose.str_view().len() == 5);
        assert(KernelType::Prose.str_view()[3] == 's');
        reveal_strlit("contention");
        assert(KernelType::Contention.str_view().len() == 10);
        assert(KernelType::Contention.str_view()[3] == 't');
        reveal_strlit("packinfo");
        assert(KernelType::PackInfo.str_view().len() == 8);
        assert(KernelType::PackInfo.str_view()[3] == 'k');
        assert forall|a: KernelType, b: KernelType| a.str_view() == b.str_view() implies a == b by {
            assert(a.str_view().len() == b.str_view().len());
            assert(a.str_view()[3] == b.str_view()[3]);
        }
    }

    /// The variant whose name is exactly `s`.
    pub fn parse(s: &str) -> (r: Option<KernelType>)
        ensures
            forall|k: KernelType| r == Some(k) <==> k.str_view() == s@,
            r is None <==> forall|k: KernelType| k.str_view() != s@,
    {
        proof {
            KernelType::lemma_str_view_injective();
        }
        if crate::text::str_eq(s, "claim") {
            assert(KernelType::Claim.str_view() == s@);
            return Some(KernelType::Claim);
        }
        if crate::text::str_eq(s, "evidence") {
            assert(KernelType::Evidence.str_view() == s@);
            return Some(KernelType::Evidence);
        }
        if crate::text::str_eq(s, "definition") {
            assert(KernelType::Definition.str_view() == s@);
            return Some(KernelType::Definition);
        }
        if crate::text::str_eq(s, "question") {
            assert(KernelType::Question.str_view() == s@);
            return Some(KernelType::Question);
        }
        if crate::text::str_eq(s, "hypothesis") {
            assert(KernelType::Hypothesis.str_view() == s@);
            return Some(KernelType::Hypothesis);
        }
        if crate::text::str_eq(s, "finding") {
            assert(KernelType::Finding.str_view() == s@);
            return Some(KernelType::Finding);
        }
        if crate::text::str_eq(s, "procedure") {
            assert(KernelType::Procedure.str_view() == s@);
            return Some(KernelType::Procedure);
        }
        if crate::text::str_eq(s, "decision") {
            assert(KernelType::Decision.str_view() == s@);
            return Some(KernelType::Decision);
        }
        if crate::text::str_eq(s, "constraint") {
            assert(KernelType::Constraint.str_view() == s@);
            return Some(KernelType::Constraint);
        }
        if crate::text::str_eq(s, "observation") {
            assert(KernelType::Observation.str_view() == s@);
            return Some(KernelType::Observation);
        }
        if crate::text::str_eq(s, "data") {
            assert(KernelType::Data.str_view() == s@);
            return Some(KernelType::Data);
        }
        if crate::text::str_eq(s, "artifact-ref") {
            assert(KernelType::ArtifactRef.str_view() == s@);
            return Some(KernelType::ArtifactRef);
        }
        if crate::text::str_eq(s, "prose") {
            assert(KernelType::Prose.str_view() == s@);
            return Some(KernelType::Prose);
        }
        if crate::text::str_eq(s, "contention") {
            assert(KernelType::Contention.str_view() == s@);
            return Some(KernelType::Contention);
        }
        if crate::text::str_eq(s, "packinfo") {
            assert(KernelType::PackInfo.str_view() == s@);
            return Some(KernelType::PackInfo);
        }
        proof {
            assert forall|k: KernelType| k.str_view() != s@ by {
                match k {
                    KernelType::Claim => {},
                    KernelType::Evidence => {},
                    KernelType::Definition => {},
                    KernelType::Question => {},
                    KernelType::Hypothesis => {},
                    KernelType::Finding => {},
                    KernelType::Procedure => {},
                    KernelType::Decision => {},
                    KernelType::Constraint => {},
                    KernelType::Observation => {},
                    KernelType::Data => {},
                    KernelType::ArtifactRef => {},
                    KernelType::Prose => {},
                    KernelType::Contention => {},
                    KernelType::PackInfo => {},
                }
            }
        }
        None
    }

}

/// The kind an `AgentId` declares before the colon.
#[derive(Debug, Clone, Copy, PartialEq, Eq, Structural, PartialOrd, Ord, Hash)]
#[non_exhaustive]
pub enum AgentKind {
    Model,
    Human,
    Tool,
}

impl AgentKind {
    /// The stable text name.
    pub open spec fn str_view(self) -> Seq<char> {
        match self {
            AgentKind::Model => "model"@,
            AgentKind::Human => "human"@,
            AgentKind::Tool => "tool"@,
        }
    }

    pub fn as_str(self) -> (r: &'static str)
        ensures
            r@ == self.str_view(),
    {
        match self {
            AgentKind::Model => "model",
            AgentKind::Human => "human",
            AgentKind::Tool => "tool",
        }
    }

    /// Distinct variants have distinct names.
    pub proof fn lemma_str_view_injective()
        ensures
            forall|a: AgentKind, b: AgentKind| a.str_view() == b.str_view() ==> a == b,
    {
        reveal_strlit("model");
        assert(AgentKind::Model.str_view().len() == 5);
        assert(AgentKind::Model.str_view()[0] == 'm');
        reveal_strlit("human");
        assert(AgentKind::Human.str_view().len() == 5);
        assert(AgentKind::Human.str_view()[0] == 'h');
        reveal_strlit("tool");
        assert(AgentKind::Tool.str_view().len() == 4);
        assert(AgentKind::Tool.str_view()[0] == 't');
        assert forall|a: AgentKind, b: AgentKind| a.str_view() == b.str_view() implies a == b by {
            assert(a.str_view().len() == b.str_view().len());
            assert(a.str_view()[0] == b.str_view()[0]);
        }
    }

    /// The variant whose name is exactly `s`.
    pub fn parse_kind(s: &str) -> (r: Option<AgentKind>)
        ensures
            forall|k: AgentKind| r == Some(k) <==> k.str_view() == s@,
            r is None <==> forall|k: AgentKind| k.str_view() != s@,
    {
        proof {
            AgentKind::lemma_str_view_injective();
        }
        if crate::text::str_eq(s, "model") {
            assert(AgentKind::Model.str_view() == s@);
            return Some(AgentKind::Model);
        }
        if crate::text::str_eq(s, "human") {
            assert(AgentKind::Human.str_view() == s@);
            return Some(AgentKind::Human);
        }
        if crate::text::str_eq(s, "tool") {
            assert(AgentKind::Tool.str_view() == s@);
            return Some(AgentKind::Tool);
        }
        proof {
            assert forall|k: AgentKind| k.str_view() != s@ by {
                match k {
                    AgentKind::Model => {},
                    AgentKind::Human => {},
                    AgentKind::Tool => {},
                }
            }
        }
        None
    }

}



// ---------------------------------------------------------------------------
// UidPrefix
// ---------------------------------------------------------------------------

/// An abbreviated uid, for interactive resolution only. A prefix is never an identity.
#[derive(Debug, Clone, Copy, PartialEq, Eq)]
pub struct UidPrefix {
    bits: usize,
    bytes: [u8; 32],
}

impl UidPrefix {
    /// How many leading bits the prefix fixes.
    pub closed spec fn bits_view(self) -> nat {
        self.bits as nat
    }

    /// Bit `k` of the prefix value.
    pub closed spec fn bit_view(self, k: int) -> bool {
        bit(self.bytes@, k)
    }

    /// The prefix agrees with `u` on every bit it fixes.
    pub open spec fn matches_view(self, u: Uid) -> bool {
        forall|k: int| 0 <= k < self.bits_view() ==> #[trigger] self.bit_view(k) == bit(u.bytes(), k)
    }

    /// Parse `b3:` plus 26 to 52 base32 characters.
    pub fn parse(s: &str) -> (r: Result<UidPrefix, crate::error::IntegrityError>)
        ensures
            r is Ok <==> uid_text_ok(s@, 26, 52),
            r matches Ok(p) ==> p.bits_view() == (if 5 * (s@.len() - 3) <= 256 {
                5 * (s@.len() - 3)
            } else {
                256
            }) && forall|k: int| 0 <= k < 256 ==> #[trigger] p.bit_view(k) == text_bit(s@, k),
            r matches Err(e) ==> (e matches crate::error::IntegrityError::TruncatedUid { found }
                && found@ == s@),
    {
        match read_bits(s, 26, 52) {
            Some((bytes, n)) => {
                let b = if n * 5 <= 256 { n * 5 } else { 256 };
                Ok(UidPrefix { bits: b, bytes })
            },
            None => Err(crate::error::IntegrityError::TruncatedUid { found: owned(s) }),
        }
    }

    pub fn matches(&self, uid: &Uid) -> (r: bool)
        ensures
            r == self.matches_view(*uid),
    {
        let full = self.bits / 8;
        let rest = self.bits % 8;
        let ub = uid.as_bytes();
        if self.bits > 256 {
            // never constructed: parse caps the width at 256
            return self.matches_slow(uid);
        }
        let mut i: usize = 0;
        while i < full
            invariant
                i <= full,
                full == self.bits / 8,
                self.bits <= 256,
                ub@ == uid.bytes(),
                forall|j: int| 0 <= j < i ==> self.bytes@[j] == ub@[j],
            decreases full - i,
        {
            if self.bytes[i] != ub[i] {
                proof {
                    lemma_byte_bits_differ(self.bytes@, ub@, i as int);
                    let k = choose|k: int| i * 8 <= k < i * 8 + 8 && #[trigger] bit(self.bytes@, k) != bit(ub@, k);
                    assert(self.bit_view(k) != bit(uid.bytes(), k));
                }
                return false;
            }
            i = i + 1;
        }
        if rest == 0 {
            proof {
                assert forall|k: int| 0 <= k < self.bits_view() implies #[trigger] self.bit_view(k)
                    == bit(uid.bytes(), k) by {
                    assert(k / 8 < full);
                }
            }
            return true;
        }
        let mask: u8 = 0xFFu8 << (8 - rest as u8);
        let x = self.bytes[full];
        let y = ub[full];
        let eq = x & mask == y & mask;
        proof {
            let r8: u8 = rest as u8;
            lemma_mask_bits(x, y, r8);
            assert(forall|k: int| 0 <= k < 256 ==> #[trigger] bit(self.bytes@, k) == bitj(self.bytes@[k / 8], k % 8));
            assert(forall|k: int| 0 <= k < 256 ==> #[trigger] bit(ub@, k) == bitj(ub@[k / 8], k % 8));
            if eq {
                assert forall|k: int| 0 <= k < self.bits_view() implies #[trigger] self.bit_view(k)
                    == bit(uid.bytes(), k) by {
                    if k / 8 < full {
                    } else {
                        assert(k / 8 == full);
                        let j = k % 8;
                        assert(j < rest);
                        assert(j == 0 || j == 1 || j == 2 || j == 3 || j == 4 || j == 5 || j == 6 || j == 7);
                    }
                }
            } else {
                let j: int = if !(0 < r8 ==> bitj(x, 0) == bitj(y, 0)) { 0 }
                    else if !(1 < r8 ==> bitj(x, 1) == bitj(y, 1)) { 1 }
                    else if !(2 < r8 ==> bitj(x, 2) == bitj(y, 2)) { 2 }
                    else if !(3 < r8 ==> bitj(x, 3) == bitj(y, 3)) { 3 }
                    else if !(4 < r8 ==> bitj(x, 4) == bitj(y, 4)) { 4 }
                    else if !(5 < r8 ==> bitj(x, 5) == bitj(y, 5)) { 5 }
                    else if !(6 < r8 ==> bitj(x, 6) == bitj(y, 6)) { 6 }
                    else { 7 };
                let k = full * 8 + j;
                assert(k / 8 == full && k % 8 == j);
                assert(self.bit_view(k) != bit(uid.bytes(), k));
            }
        }
        eq
    }

    fn matches_slow(&self, uid: &Uid) -> (r: bool)
        ensures
            r == self.matches_view(*uid),
    {
        let ub = uid.as_bytes();
        let mut k: usize = 0;
        while k < self.bits
            invariant
                ub@ == uid.bytes(),
                forall|j: int| 0 <= j < k ==> #[trigger] bit(self.bytes@, j) == bit(ub@, j),
            decreases self.bits - k,
        {
            if bit_at(&self.bytes, k) != bit_at(ub, k) {
                assert(self.bit_view(k as int) != bit(uid.bytes(), k as int));
                return false;
            }
            k = k + 1;
        }
        assert forall|j: int| 0 <= j < self.bits_view() implies #[trigger] self.bit_view(j) == bit(uid.bytes(), j) by {
            assert(bit(self.bytes@, j) == bit(ub@, j));
        }
        true
    }

    pub fn bits(&self) -> (n: usize)
        ensures
            n == self.bits_view(),
    {
        self.bits
    }
}

/// Bit `j` (0 = most significant) of a byte.
pub open spec fn bitj(x: u8, j: int) -> bool {
    (x >> ((7 - j) as u8)) & 1u8 == 1u8
}

proof fn lemma_byte_from_bits(x: u8, y: u8)
    requires
        bitj(x, 0) == bitj(y, 0) && bitj(x, 1) == bitj(y, 1) && bitj(x, 2) == bitj(y, 2) && bitj(x, 3) == bitj(y, 3) && bitj(x, 4) == bitj(y, 4) && bitj(x, 5) == bitj(y, 5) && bitj(x, 6) == bitj(y, 6) && bitj(x, 7) == bitj(y, 7),
    ensures
        x == y,
{
    assert(x == y) by (bit_vector)
        requires
            bitj(x, 0) == bitj(y, 0) && bitj(x, 1) == bitj(y, 1) && bitj(x, 2) == bitj(y, 2) && bitj(x, 3) == bitj(y, 3) && bitj(x, 4) == bitj(y, 4) && bitj(x, 5) == bitj(y, 5) && bitj(x, 6) == bitj(y, 6) && bitj(x, 7) == bitj(y, 7),
    ;
}

proof fn lemma_byte_bits_differ(a: Seq<u8>, b: Seq<u8>, i: int)
    requires
        a.len() == 32,
        b.len() == 32,
        0 <= i < 32,
        a[i] != b[i],
    ensures
        exists|k: int| i * 8 <= k < i * 8 + 8 && #[trigger] bit(a, k) != bit(b, k),
{
    let x = a[i];
    let y = b[i];
    if !(exists|k: int| i * 8 <= k < i * 8 + 8 && #[trigger] bit(a, k) != bit(b, k)) {
        assert((i * 8 + 0) / 8 == i && (i * 8 + 0) % 8 == 0) by (nonlinear_arith)
            requires
                0 <= i,
        ;
        assert(bit(a, i * 8 + 0) == bit(b, i * 8 + 0));
        assert((i * 8 + 1) / 8 == i && (i * 8 + 1) % 8 == 1) by (nonlinear_arith)
            requires
                0 <= i,
        ;
        assert(bit(a, i * 8 + 1) == bit(b, i * 8 + 1));
        assert((i * 8 + 2) / 8 == i && (i * 8 + 2) % 8 == 2) by (nonlinear_arith)
            requires
                0 <= i,
        ;
        assert(bit(a, i * 8 + 2) == bit(b, i * 8 + 2));
        assert((i * 8 + 3) / 8 == i && (i * 8 + 3) % 8 == 3) by (nonlinear_arith)
            requires
                0 <= i,
        ;
        assert(bit(a, i * 8 + 3) == bit(b, i * 8 + 3));
        assert((i * 8 + 4) / 8 == i && (i * 8 + 4) % 8 == 4) by (nonlinear_arith)
            requires
                0 <= i,
        ;
        assert(bit(a, i * 8 + 4) == bit(b, i * 8 + 4));
        assert((i * 8 + 5) / 8 == i && (i * 8 + 5) % 8 == 5) by (nonlinear_arith)
            requires
                0 <= i,
        ;
        assert(bit(a, i * 8 + 5) == bit(b, i * 8 + 5));
        assert((i * 8 + 6) / 8 == i && (i * 8 + 6) % 8 == 6) by (nonlinear_arith)
            requires
                0 <= i,
        ;
        assert(bit(a, i * 8 + 6) == bit(b, i * 8 + 6));
        assert((i * 8 + 7) / 8 == i && (i * 8 + 7) % 8 == 7) by (nonlinear_arith)
            requires
                0 <= i,
        ;
        assert(bit(a, i * 8 + 7) == bit(b, i * 8 + 7));
        lemma_byte_from_bits(x, y);
    }
}

proof fn lemma_mask_bits(x: u8, y: u8, r: u8)
    requires
        1 <= r < 8,
    ensures
        ((x & (0xFFu8 << ((8u8 - r) as u8))) == (y & (0xFFu8 << ((8u8 - r) as u8)))) <==> ((0 < r ==> bitj(x, 0) == bitj(y, 0)) && (1 < r ==> bitj(x, 1) == bitj(y, 1)) && (2 < r ==> bitj(x, 2) == bitj(y, 2)) && (3 < r ==> bitj(x, 3) == bitj(y, 3)) && (4 < r ==> bitj(x, 4) == bitj(y, 4)) && (5 < r ==> bitj(x, 5) == bitj(y, 5)) && (6 < r ==> bitj(x, 6) == bitj(y, 6)) && (7 < r ==> bitj(x, 7) == bitj(y, 7))),
{
    assert(((x & (0xFFu8 << ((8u8 - r) as u8))) == (y & (0xFFu8 << ((8u8 - r) as u8)))) <==> ((0 < r ==> bitj(x, 0) == bitj(y, 0)) && (1 < r ==> bitj(x, 1) == bitj(y, 1)) && (2 < r ==> bitj(x, 2) == bitj(y, 2)) && (3 < r ==> bitj(x, 3) == bitj(y, 3)) && (4 < r ==> bitj(x, 4) == bitj(y, 4)) && (5 < r ==> bitj(x, 5) == bitj(y, 5)) && (6 < r ==> bitj(x, 6) == bitj(y, 6)) && (7 < r ==> bitj(x, 7) == bitj(y, 7)))) by (bit_vector)
        requires
            1 <= r < 8,
    ;
}

/// A uid's short display form, read back as a prefix, matches that uid.
pub proof fn lemma_short_form_prefix_matches(u: Uid, s: Seq<char>, p: UidPrefix)
    requires
        s == u.text_form(26),
        p.bits_view() == 130,
        forall|k: int| 0 <= k < 256 ==> #[trigger] p.bit_view(k) == text_bit(s, k),
    ensures
        uid_text_ok(s, 26, 52),
        p.matches_view(u),
{
    reveal_strlit("b3:");
    assert(s.take(3) =~= "b3:"@);
    assert forall|i: int| 3 <= i < s.len() implies decode_value(#[trigger] s[i]) is Some by {
        lemma_five_bits_range(u.bytes(), (i - 3) * 5);
        lemma_alphabet_decodes(five_bits(u.bytes(), (i - 3) * 5));
    }
    assert forall|k: int| 0 <= k < p.bits_view() implies #[trigger] p.bit_view(k) == bit(u.bytes(), k) by {
        let i = k / 5;
        let j = k % 5;
        assert(0 <= i < 26);
        lemma_five_bits_range(u.bytes(), i * 5);
        lemma_alphabet_decodes(five_bits(u.bytes(), i * 5));
        lemma_bit5_of_five_bits(u.bytes(), i * 5, j);
        assert(i * 5 + j == k);
    }
}

/// The text form of a uid spells its bits: bit `k` read from `b3:` and `n` characters is bit
/// `k` of the uid, for every `k` the characters reach.
proof fn lemma_text_form_spells(u: Uid, n: nat, k: int)
    requires
        n <= 52,
        0 <= k < 5 * n,
    ensures
        text_bit(u.text_form(n), k) == bit(u.bytes(), k),
{
    reveal_strlit("b3:");
    let i = k / 5;
    let j = k % 5;
    assert(0 <= i < n);
    lemma_five_bits_range(u.bytes(), i * 5);
    lemma_alphabet_decodes(five_bits(u.bytes(), i * 5));
    lemma_bit5_of_five_bits(u.bytes(), i * 5, j);
    assert(i * 5 + j == k);
}

/// A prefix read from a uid's canonical form matches that uid and no other.
pub proof fn lemma_canonical_prefix_matches(u: Uid, v: Uid, p: UidPrefix)
    requires
        p.bits_view() == 256,
        forall|k: int| 0 <= k < 256 ==> #[trigger] p.bit_view(k) == text_bit(u.text_form(52), k),
    ensures
        p.matches_view(v) <==> u == v,
{
    assert forall|k: int| 0 <= k < 256 implies #[trigger] p.bit_view(k) == bit(u.bytes(), k) by {
        lemma_text_form_spells(u, 52, k);
    }
    lemma_uid_bytes_injective(u, v);
    if p.matches_view(v) {
        assert forall|k: int| 0 <= k < 256 implies bit(u.bytes(), k) == bit(v.bytes(), k) by {
            assert(p.bit_view(k) == bit(v.bytes(), k));
        }
        lemma_bits_determine_bytes(u.bytes(), v.bytes());
    }
}

/// A prefix of `n` characters matches exactly the uids that agree with the bits it spells:
/// the first `5 n` of them, or all 256 where that is more. So a prefix read from any text
/// form of a uid matches that uid.
pub proof fn lemma_prefix_matches_bits(s: Seq<char>, p: UidPrefix, u: Uid)
    requires
        uid_text_ok(s, 26, 52),
        p.bits_view() == (if 5 * (s.len() - 3) <= 256 { 5 * (s.len() - 3) } else { 256 }),
        forall|k: int| 0 <= k < 256 ==> #[trigger] p.bit_view(k) == text_bit(s, k),
    ensures
        p.matches_view(u) <==> (forall|k: int| 0 <= k < p.bits_view() ==> text_bit(s, k) == bit(u.bytes(), k)),
        s == u.text_form((s.len() - 3) as nat) ==> p.matches_view(u),
{
    assert(p.bits_view() <= 256);
    if p.matches_view(u) {
        assert forall|k: int| 0 <= k < p.bits_view() implies text_bit(s, k) == bit(u.bytes(), k) by {
            assert(p.bit_view(k) == bit(u.bytes(), k));
        }
    }
    if forall|k: int| 0 <= k < p.bits_view() ==> text_bit(s, k) == bit(u.bytes(), k) {
        assert forall|k: int| 0 <= k < p.bits_view() implies #[trigger] p.bit_view(k) == bit(u.bytes(), k) by {
            assert(text_bit(s, k) == bit(u.bytes(), k));
        }
    }
    if s == u.text_form((s.len() - 3) as nat) {
        reveal_strlit("b3:");
        assert forall|k: int| 0 <= k < p.bits_view() implies #[trigger] p.bit_view(k) == bit(u.bytes(), k) by {
            lemma_text_form_spells(u, (s.len() - 3) as nat, k);
        }
    }
}

// ---------------------------------------------------------------------------
// String-shaped identifiers
// ---------------------------------------------------------------------------

/// `ident = lower , { lower | digit | "-" | "_" }`.
pub open spec fn ident(s: Seq<char>) -> bool {
    &&& s.len() > 0
    &&& is_lower(s[0])
    &&& forall|i: int|
        0 <= i < s.len() ==> is_lower(#[trigger] s[i]) || is_digit(s[i]) || s[i] == '-' || s[i]
            == '_'
}

/// The trailing segment of an extension id: a leading lowercase letter or digit, then
/// lowercase letters, digits, `-`, `_` or `.`.
pub open spec fn ext_segment(s: Seq<char>) -> bool {
    &&& s.len() > 0
    &&& (is_lower(s[0]) || is_digit(s[0]))
    &&& forall|i: int|
        0 <= i < s.len() ==> is_lower(#[trigger] s[i]) || is_digit(s[i]) || s[i] == '-' || s[i]
            == '_' || s[i] == '.'
}

pub(crate) fn check_ident(v: &Vec<char>, lo: usize, hi: usize) -> (r: bool)
    requires
        lo <= hi <= v.len(),
    ensures
        r == ident(v@.subrange(lo as int, hi as int)),
{
    let ghost s = v@.subrange(lo as int, hi as int);
    if lo == hi || !('a' <= v[lo] && v[lo] <= 'z') {
        return false;
    }
    let mut i = lo;
    while i < hi
        invariant
            lo <= i <= hi,
            hi <= v.len(),
            s == v@.subrange(lo as int, hi as int),
            forall|j: int|
                0 <= j < i - lo ==> is_lower(#[trigger] s[j]) || is_digit(s[j]) || s[j] == '-' || s[j]
                    == '_',
        decreases hi - i,
    {
        let c = v[i];
        if !(('a' <= c && c <= 'z') || ('0' <= c && c <= '9') || c == '-' || c == '_') {
            assert(s[i - lo] == c);
            return false;
        }
        i = i + 1;
    }
    true
}

pub(crate) fn check_ext_segment(v: &Vec<char>, lo: usize, hi: usize) -> (r: bool)
    requires
        lo <= hi <= v.len(),
    ensures
        r == ext_segment(v@.subrange(lo as int, hi as int)),
{
    let ghost s = v@.subrange(lo as int, hi as int);
    if lo == hi || !(('a' <= v[lo] && v[lo] <= 'z') || ('0' <= v[lo] && v[lo] <= '9')) {
        return false;
    }
    let mut i = lo;
    while i < hi
        invariant
            lo <= i <= hi,
            hi <= v.len(),
            s == v@.subrange(lo as int, hi as int),
            forall|j: int|
                0 <= j < i - lo ==> is_lower(#[trigger] s[j]) || is_digit(s[j]) || s[j] == '-' || s[j]
                    == '_' || s[j] == '.',
        decreases hi - i,
    {
        let c = v[i];
        if !(('a' <= c && c <= 'z') || ('0' <= c && c <= '9') || c == '-' || c == '_' || c == '.') {
            assert(s[i - lo] == c);
            return false;
        }
        i = i + 1;
    }
    true
}

/// Whether `s` is an extension segment.
pub fn is_ext_segment(s: &str) -> (r: bool)
    ensures
        r == ext_segment(s@),
{
    let v = chars_of(s);
    assert(v@.subrange(0, v@.len() as int) =~= v@);
    check_ext_segment(&v, 0, v.len())
}

/// `ident/ident`: the shape of labels, thread, view and contention ids.
pub open spec fn label_shaped(s: Seq<char>) -> bool {
    let i = index_of(s, '/');
    i >= 0 && ident(s.take(i)) && ident(s.skip(i + 1))
}

fn is_label_shaped(s: &str) -> (r: bool)
    ensures
        r == label_shaped(s@),
{
    let v = chars_of(s);
    assert(v@.skip(0) =~= v@);
    match find_char(&v, '/', 0) {
        None => false,
        Some(i) => {
            assert(v@.take(i as int) =~= v@.subrange(0, i as int));
            assert(v@.skip(i + 1) =~= v@.subrange(i + 1, v@.len() as int));
            check_ident(&v, 0, i) && check_ident(&v, i + 1, v.len())
        },
    }
}

fn label_namespace(s: &str) -> (r: &str)
    requires
        label_shaped(s@),
    ensures
        r@ == s@.take(index_of(s@, '/')),
{
    let v = chars_of(s);
    assert(v@.skip(0) =~= v@);
    match find_char(&v, '/', 0) {
        None => s,
        Some(i) => {
            let r = s.substring_char(0, i);
            assert(r@ =~= s@.take(i as int));
            r
        },
    }
}

/// A view-scoped alias such as `c/auth-p95`. Labels are not identity: they are not hashed.
#[derive(Debug, PartialEq, Eq, PartialOrd, Ord, Hash)]
pub struct Label(String);

impl View for Label {
    type V = Seq<char>;

    closed spec fn view(&self) -> Seq<char> {
        self.0@
    }
}

impl Clone for Label {
    fn clone(&self) -> (r: Label)
        ensures
            r@ == self@,
    {
        proof {
            use_type_invariant(self);
        }
        Label(self.0.clone())
    }
}

impl Label {
    #[verifier::type_invariant]
    spec fn inv(self) -> bool {
        label_shaped(self.0@)
    }

    /// A well-formed `ident/ident` identifier.
    pub fn new(s: &str) -> (r: Result<Label, IdError>)
        ensures
            r is Ok <==> label_shaped(s@),
            r matches Ok(l) ==> l@ == s@,
            r matches Err(e) ==> e.kind@ == "label"@ && e.found@ == s@,
    {
        if is_label_shaped(s) {
            Ok(Label(owned(s)))
        } else {
            Err(IdError { kind: "label", found: owned(s) })
        }
    }

    pub fn as_str(&self) -> (r: &str)
        ensures
            r@ == self@,
    {
        self.0.as_str()
    }

    pub fn into_string(self) -> (r: String)
        ensures
            r@ == self@,
    {
        self.0
    }

    /// The namespace segment before the `/`.
    pub fn namespace(&self) -> (r: &str)
        ensures
            r@ == self@.take(index_of(self@, '/')),
    {
        proof {
            use_type_invariant(self);
        }
        label_namespace(self.0.as_str())
    }
}

/// A thread identifier such as `t/brief`.
#[derive(Debug, PartialEq, Eq, PartialOrd, Ord, Hash)]
pub struct ThreadId(String);

impl View for ThreadId {
    type V = Seq<char>;

    closed spec fn view(&self) -> Seq<char> {
        self.0@
    }
}

impl Clone for ThreadId {
    fn clone(&self) -> (r: ThreadId)
        ensures
            r@ == self@,
    {
        proof {
            use_type_invariant(self);
        }
        ThreadId(self.0.clone())
    }
}

impl ThreadId {
    #[verifier::type_invariant]
    spec fn inv(self) -> bool {
        label_shaped(self.0@)
    }

    /// A well-formed `ident/ident` identifier.
    pub fn new(s: &str) -> (r: Result<ThreadId, IdError>)
        ensures
            r is Ok <==> label_shaped(s@),
            r matches Ok(l) ==> l@ == s@,
            r matches Err(e) ==> e.kind@ == "thread id"@ && e.found@ == s@,
    {
        if is_label_shaped(s) {
            Ok(ThreadId(owned(s)))
        } else {
            Err(IdError { kind: "thread id", found: owned(s) })
        }
    }

    pub fn as_str(&self) -> (r: &str)
        ensures
            r@ == self@,
    {
        self.0.as_str()
    }

    pub fn into_string(self) -> (r: String)
        ensures
            r@ == self@,
    {
        self.0
    }

    /// The namespace segment before the `/`.
    pub fn namespace(&self) -> (r: &str)
        ensures
            r@ == self@.take(index_of(self@, '/')),
    {
        proof {
            use_type_invariant(self);
        }
        label_namespace(self.0.as_str())
    }
}

/// A view identifier such as `v/incident`.
#[derive(Debug, PartialEq, Eq, PartialOrd, Ord, Hash)]
pub struct ViewId(String);

impl View for ViewId {
    type V = Seq<char>;

    closed spec fn view(&self) -> Seq<char> {
        self.0@
    }
}

impl Clone for ViewId {
    fn clone(&self) -> (r: ViewId)
        ensures
            r@ == self@,
    {
        proof {
            use_type_invariant(self);
        }
        ViewId(self.0.clone())
    }
}

impl ViewId {
    #[verifier::type_invariant]
    spec fn inv(self) -> bool {
        label_shaped(self.0@)
    }

    /// A well-formed `ident/ident` identifier.
    pub fn new(s: &str) -> (r: Result<ViewId, IdError>)
        ensures
            r is Ok <==> label_shaped(s@),
            r matches Ok(l) ==> l@ == s@,
            r matches Err(e) ==> e.kind@ == "view id"@ && e.found@ == s@,
    {
        if is_label_shaped(s) {
            Ok(ViewId(owned(s)))
        } else {
            Err(IdError { kind: "view id", found: owned(s) })
        }
    }

    pub fn as_str(&self) -> (r: &str)
        ensures
            r@ == self@,
    {
        self.0.as_str()
    }

    pub fn into_string(self) -> (r: String)
        ensures
            r@ == self@,
    {
        self.0
    }

    /// The namespace segment before the `/`.
    pub fn namespace(&self) -> (r: &str)
        ensures
            r@ == self@.take(index_of(self@, '/')),
    {
        proof {
            use_type_invariant(self);
        }
        label_namespace(self.0.as_str())
    }
}

/// A contention identifier such as `k/pool-vs-index`.
#[derive(Debug, PartialEq, Eq, PartialOrd, Ord, Hash)]
pub struct ContentionId(String);

impl View for ContentionId {
    type V = Seq<char>;

    closed spec fn view(&self) -> Seq<char> {
        self.0@
    }
}

impl Clone for ContentionId {
    fn clone(&self) -> (r: ContentionId)
        ensures
            r@ == self@,
    {
        proof {
            use_type_invariant(self);
        }
        ContentionId(self.0.clone())
    }
}

impl ContentionId {
    #[verifier::type_invariant]
    spec fn inv(self) -> bool {
        label_shaped(self.0@)
    }

    /// A well-formed `ident/ident` identifier.
    pub fn new(s: &str) -> (r: Result<ContentionId, IdError>)
        ensures
            r is Ok <==> label_shaped(s@),
            r matches Ok(l) ==> l@ == s@,
            r matches Err(e) ==> e.kind@ == "contention id"@ && e.found@ == s@,
    {
        if is_label_shaped(s) {
            Ok(ContentionId(owned(s)))
        } else {
            Err(IdError { kind: "contention id", found: owned(s) })
        }
    }

    pub fn as_str(&self) -> (r: &str)
        ensures
            r@ == self@,
    {
        self.0.as_str()
    }

    pub fn into_string(self) -> (r: String)
        ensures
            r@ == self@,
    {
        self.0
    }

    /// The namespace segment before the `/`.
    pub fn namespace(&self) -> (r: &str)
        ensures
            r@ == self@.take(index_of(self@, '/')),
    {
        proof {
            use_type_invariant(self);
        }
        label_namespace(self.0.as_str())
    }
}


// ---------------------------------------------------------------------------
// Agent ids
// ---------------------------------------------------------------------------

/// A character allowed in the head of an agent id.
pub open spec fn agent_head_char(c: char) -> bool {
    is_lower(c) || is_digit(c) || c == '.' || c == '_' || c == '-'
}

/// A character allowed in the tail of an agent id.
pub open spec fn agent_tail_char(c: char) -> bool {
    agent_head_char(c) || c == ':' || c == '/'
}

/// The part of an agent id after the first colon.
pub open spec fn agent_rest(s: Seq<char>) -> Seq<char> {
    s.skip(index_of(s, ':') + 1)
}

/// The part of an agent id's rest before its first `/`, or all of it.
pub open spec fn agent_head(s: Seq<char>) -> Seq<char> {
    let rest = agent_rest(s);
    let j = index_of(rest, '/');
    if j >= 0 {
        rest.take(j)
    } else {
        rest
    }
}

/// The part of an agent id's rest after its first `/`.
pub open spec fn agent_tail(s: Seq<char>) -> Seq<char> {
    let rest = agent_rest(s);
    rest.skip(index_of(rest, '/') + 1)
}

/// `(model|human|tool):[a-z0-9._-]+(/[a-z0-9._:-]+)?`
pub open spec fn agent_ok(s: Seq<char>) -> bool {
    let i = index_of(s, ':');
    let kind = s.take(i);
    &&& i >= 0
    &&& (kind == "model"@ || kind == "human"@ || kind == "tool"@)
    &&& agent_head(s).len() > 0
    &&& forall|k: int| 0 <= k < agent_head(s).len() ==> agent_head_char(#[trigger] agent_head(s)[k])
    &&& index_of(agent_rest(s), '/') >= 0 ==> {
        &&& agent_tail(s).len() > 0
        &&& forall|k: int| 0 <= k < agent_tail(s).len() ==> agent_tail_char(#[trigger] agent_tail(s)[k])
    }
}

/// The characters `[a-z0-9._-]` of an agent id's head.
pub open spec fn agent_name_char(c: char) -> bool {
    ('a' <= c && c <= 'z') || ('0' <= c && c <= '9') || c == '.' || c == '_' || c == '-'
}

/// The kinds an agent id may declare.
pub open spec fn agent_kind_text(k: Seq<char>) -> bool {
    k == "model"@ || k == "human"@ || k == "tool"@
}

proof fn lemma_kind_has_no_colon(k: Seq<char>)
    requires
        agent_kind_text(k),
    ensures
        forall|i: int| 0 <= i < k.len() ==> k[i] != ':' && k[i] != '/' && agent_name_char(#[trigger] k[i]),
{
    reveal_strlit("model");
    reveal_strlit("human");
    reveal_strlit("tool");
}

/// Every `kind:head` with a declared kind and a non-empty head of `[a-z0-9._-]` is an agent
/// id, and so is every `kind:head/tail` whose tail is non-empty and of `[a-z0-9._:/-]`.
pub proof fn lemma_agent_ids_accepted(k: Seq<char>, h: Seq<char>, t: Option<Seq<char>>)
    requires
        agent_kind_text(k),
        h.len() > 0,
        forall|i: int| 0 <= i < h.len() ==> agent_name_char(#[trigger] h[i]),
        t matches Some(tt) ==> tt.len() > 0 && forall|i: int| 0 <= i < tt.len() ==> (agent_name_char(#[trigger] tt[i])
            || tt[i] == ':' || tt[i] == '/'),
    ensures
        agent_ok(
            k + ":"@ + h + match t {
                Some(tt) => "/"@ + tt,
                None => Seq::<char>::empty(),
            },
        ),
{
    reveal_strlit(":");
    reveal_strlit("/");
    lemma_kind_has_no_colon(k);
    let rest = h + match t {
        Some(tt) => "/"@ + tt,
        None => Seq::<char>::empty(),
    };
    let s = k + ":"@ + rest;
    assert(s =~= k + (seq![':'] + rest));
    crate::text::lemma_index_of_is(s, ':', k.len() as int);
    assert(s.take(k.len() as int) =~= k);
    assert(agent_rest(s) =~= rest);
    match t {
        Some(tt) => {
            assert(k + ":"@ + h + ("/"@ + tt) =~= s);
            assert(rest =~= h + (seq!['/'] + tt));
            assert(rest[h.len() as int] == '/');
            assert forall|j: int| 0 <= j < h.len() implies rest[j] != '/' by {
                assert(rest[j] == h[j]);
            }
            crate::text::lemma_index_of_is(rest, '/', h.len() as int);
            assert(agent_head(s) =~= h);
            assert(agent_tail(s) =~= tt);
        },
        None => {
            assert(rest =~= h);
            crate::text::lemma_index_of_is(rest, '/', -1);
            assert(agent_head(s) =~= h);
        },
    }
}

/// An agent id is made of `[a-z0-9._:/-]` alone, and has a colon.
pub proof fn lemma_agent_id_chars(s: Seq<char>)
    requires
        agent_ok(s),
    ensures
        forall|i: int| 0 <= i < s.len() ==> agent_name_char(#[trigger] s[i]) || s[i] == ':' || s[i] == '/',
        s.contains(':'),
{
    let i = index_of(s, ':');
    crate::text::lemma_index_of(s, ':');
    let kind = s.take(i);
    lemma_kind_has_no_colon(kind);
    let rest = agent_rest(s);
    let j = index_of(rest, '/');
    crate::text::lemma_index_of(rest, '/');
    assert forall|x: int| 0 <= x < s.len() implies agent_name_char(#[trigger] s[x]) || s[x] == ':' || s[x] == '/' by {
        if x < i {
            assert(kind[x] == s[x]);
        } else if x > i {
            let y = x - i - 1;
            assert(rest[y] == s[x]);
            if j >= 0 {
                if y < j {
                    assert(agent_head(s)[y] == rest[y]);
                } else if y > j {
                    assert(agent_tail(s)[y - j - 1] == rest[y]);
                }
            } else {
                assert(agent_head(s)[y] == rest[y]);
            }
        }
    }
}

fn all_agent_head(v: &Vec<char>, lo: usize, hi: usize) -> (r: bool)
    requires
        lo <= hi <= v.len(),
    ensures
        r == forall|k: int| 0 <= k < hi - lo ==> agent_head_char(#[trigger] v@.subrange(lo as int, hi as int)[k]),
{
    let mut i = lo;
    while i < hi
        invariant
            lo <= i <= hi,
            hi <= v.len(),
            forall|k: int| 0 <= k < i - lo ==> agent_head_char(#[trigger] v@.subrange(lo as int, hi as int)[k]),
        decreases hi - i,
    {
        let c = v[i];
        if !(('a' <= c && c <= 'z') || ('0' <= c && c <= '9') || c == '.' || c == '_' || c == '-') {
            assert(v@.subrange(lo as int, hi as int)[i - lo] == c);
            return false;
        }
        i = i + 1;
    }
    true
}

fn all_agent_tail(v: &Vec<char>, lo: usize, hi: usize) -> (r: bool)
    requires
        lo <= hi <= v.len(),
    ensures
        r == forall|k: int| 0 <= k < hi - lo ==> agent_tail_char(#[trigger] v@.subrange(lo as int, hi as int)[k]),
{
    let mut i = lo;
    while i < hi
        invariant
            lo <= i <= hi,
            hi <= v.len(),
            forall|k: int| 0 <= k < i - lo ==> agent_tail_char(#[trigger] v@.subrange(lo as int, hi as int)[k]),
        decreases hi - i,
    {
        let c = v[i];
        if !(('a' <= c && c <= 'z') || ('0' <= c && c <= '9') || c == '.' || c == '_' || c == '-'
            || c == ':' || c == '/') {
            assert(v@.subrange(lo as int, hi as int)[i - lo] == c);
            return false;
        }
        i = i + 1;
    }
    true
}

fn agent_valid(s: &str) -> (r: bool)
    ensures
        r == agent_ok(s@),
{
    let v = chars_of(s);
    assert(v@.skip(0) =~= v@);
    let i = match find_char(&v, ':', 0) {
        None => {
            return false;
        },
        Some(i) => i,
    };
    let kind = string_from_range(&v, 0, i);
    assert(s@.take(i as int) =~= v@.subrange(0, i as int));
    if !(str_eq(kind.as_str(), "model") || str_eq(kind.as_str(), "human") || str_eq(
        kind.as_str(),
        "tool",
    )) {
        return false;
    }
    assert(s@.take(i as int) == "model"@ || s@.take(i as int) == "human"@ || s@.take(i as int) == "tool"@);
    let ghost rest = agent_rest(s@);
    assert(index_of(s@, ':') == i);
    assert(rest =~= v@.skip(i + 1));
    match find_char(&v, '/', i + 1) {
        Some(j) => {
            let ghost jj = j - i - 1;
            assert(index_of(rest, '/') == jj);
            let ghost head = rest.take(jj);
            let ghost tail = rest.skip(jj + 1);
            assert(head =~= v@.subrange(i + 1, j as int));
            assert(tail =~= v@.subrange(j + 1, v@.len() as int));
            let head_ok = i + 1 < j && all_agent_head(&v, i + 1, j);
            let tail_ok = j + 1 < v.len() && all_agent_tail(&v, j + 1, v.len());
            assert(head_ok == (head.len() > 0 && forall|k: int| 0 <= k < head.len() ==> agent_head_char(#[trigger] head[k])));
            assert(tail_ok == (tail.len() > 0 && forall|k: int| 0 <= k < tail.len() ==> agent_tail_char(#[trigger] tail[k])));
            assert(head == agent_head(s@));
            assert(tail == agent_tail(s@));
            head_ok && tail_ok
        },
        None => {
            assert(index_of(rest, '/') == -1);
            assert(rest =~= v@.subrange(i + 1, v@.len() as int));
            let ok = i + 1 < v.len() && all_agent_head(&v, i + 1, v.len());
            assert(ok == (rest.len() > 0 && forall|k: int| 0 <= k < rest.len() ==> agent_head_char(#[trigger] rest[k])));
            assert(rest == agent_head(s@));
            ok
        },
    }
}

/// `model:...`, `human:...` or `tool:...`: who made an attestation.
#[derive(Debug, PartialEq, Eq, PartialOrd, Ord, Hash)]
pub struct AgentId(String);

impl View for AgentId {
    type V = Seq<char>;

    closed spec fn view(&self) -> Seq<char> {
        self.0@
    }
}

impl Clone for AgentId {
    fn clone(&self) -> (r: AgentId)
        ensures
            r@ == self@,
    {
        proof {
            use_type_invariant(self);
        }
        AgentId(self.0.clone())
    }
}

impl AgentId {
    #[verifier::type_invariant]
    spec fn inv(self) -> bool {
        agent_ok(self.0@)
    }

    pub fn new(s: &str) -> (r: Result<AgentId, IdError>)
        ensures
            r is Ok <==> agent_ok(s@),
            r matches Ok(a) ==> a@ == s@,
            r matches Err(e) ==> e.kind@ == "agent id"@ && e.found@ == s@,
    {
        if agent_valid(s) {
            Ok(AgentId(owned(s)))
        } else {
            Err(IdError { kind: "agent id", found: owned(s) })
        }
    }

    pub fn as_str(&self) -> (r: &str)
        ensures
            r@ == self@,
    {
        self.0.as_str()
    }

    /// The kind declared before the colon.
    pub fn kind(&self) -> (k: AgentKind)
        ensures
            k.str_view() == self@.take(index_of(self@, ':')),
    {
        proof {
            use_type_invariant(self);
        }
        let v = chars_of(self.0.as_str());
        assert(v@.skip(0) =~= v@);
        let i = match find_char(&v, ':', 0) {
            Some(i) => i,
            None => 0,
        };
        let k = string_from_range(&v, 0, i);
        assert(self@.take(index_of(self@, ':')) =~= v@.subrange(0, i as int));
        proof {
            reveal_strlit("model");
            reveal_strlit("human");
            reveal_strlit("tool");
        }
        if str_eq(k.as_str(), "human") {
            AgentKind::Human
        } else if str_eq(k.as_str(), "tool") {
            AgentKind::Tool
        } else {
            AgentKind::Model
        }
    }

    /// The provider segment of a model agent: what stands between `model:` and the first
    /// `/`; `None` when the id has no `/`.
    pub fn provider(&self) -> (r: Option<String>)
        ensures
            index_of(agent_rest(self@), '/') < 0 ==> r is None,
            index_of(agent_rest(self@), '/') >= 0 ==> (r matches Some(p) && p@ == agent_rest(
                self@,
            ).take(index_of(agent_rest(self@), '/'))),
    {
        proof {
            use_type_invariant(self);
        }
        let v = chars_of(self.0.as_str());
        assert(v@.skip(0) =~= v@);
        let i = match find_char(&v, ':', 0) {
            Some(i) => i,
            None => 0,
        };
        assert(agent_rest(self@) =~= v@.skip(i + 1));
        match find_char(&v, '/', i + 1) {
            Some(j) => {
                assert(agent_rest(self@).take(j - i - 1) =~= v@.subrange(i + 1, j as int));
                Some(string_from_range(&v, i + 1, j))
            },
            None => None,
        }
    }
}

// ---------------------------------------------------------------------------
// Schema ids
// ---------------------------------------------------------------------------

/// What a unit is: a kernel type, the kernel schema, an extension type, or a bare type name
/// this build does not know (produced only by decoding).
#[derive(Debug, Clone, PartialEq, Eq, PartialOrd, Ord, Hash)]
pub enum SchemaId {
    Kernel(KernelType),
    KernelSchema(String),
    Extension(String),
    UnknownKernel(String),
}

/// Which shape a schema id text has: 0 a kernel unit type, 1 the kernel schema, 2 an
/// extension, 3 none.
pub open spec fn schema_shape(s: Seq<char>) -> int {
    if exists|k: KernelType| k.str_view() == s {
        0
    } else if s.len() >= 13 && s.take(13) == "smysl.kernel/"@ {
        if ext_segment(s.skip(13)) {
            1
        } else {
            3
        }
    } else if s.len() >= 2 && s.take(2) == "x."@ {
        let rest = s.skip(2);
        let j = index_of(rest, '/');
        if j >= 0 && ident(rest.take(j)) && ext_segment(rest.skip(j + 1)) {
            2
        } else {
            3
        }
    } else {
        3
    }
}

/// An id that claims a namespace: an extension, the kernel schema, or anything with a `/`.
pub open spec fn claims_namespace(s: Seq<char>) -> bool {
    (s.len() >= 2 && s.take(2) == "x."@) || (s.len() >= 13 && s.take(13) == "smysl.kernel/"@)
        || index_of(s, '/') >= 0
}

/// A schema id text that decoding accepts: one that parses, or a well-formed bare name
/// that claims no namespace (a unit type that a later version may have added).
pub open spec fn schema_forward_ok(s: Seq<char>) -> bool {
    schema_shape(s) != 3 || (!claims_namespace(s) && ext_segment(s))
}

impl SchemaId {
    /// The text form.
    pub open spec fn text(&self) -> Seq<char> {
        match self {
            SchemaId::Kernel(k) => k.str_view(),
            SchemaId::KernelSchema(s) => s@,
            SchemaId::Extension(s) => s@,
            SchemaId::UnknownKernel(s) => s@,
        }
    }

    pub fn parse(s: &str) -> (r: Result<SchemaId, IdError>)
        ensures
            schema_shape(s@) == 0 ==> (r matches Ok(SchemaId::Kernel(k)) && k.str_view() == s@),
            schema_shape(s@) == 1 ==> (r matches Ok(SchemaId::KernelSchema(t)) && t@ == s@),
            schema_shape(s@) == 2 ==> (r matches Ok(SchemaId::Extension(t)) && t@ == s@),
            schema_shape(s@) == 3 ==> (r matches Err(e) && e.kind@ == "schema id"@ && e.found@
                == s@),
    {
        if let Some(k) = KernelType::parse(s) {
            return Ok(SchemaId::Kernel(k));
        }
        let v = chars_of(s);
        if starts_with(&v, "smysl.kernel/") {
            proof {
                reveal_strlit("smysl.kernel/");
            }
            assert(s@.skip(13) =~= v@.subrange(13, v@.len() as int));
            if check_ext_segment(&v, 13, v.len()) {
                return Ok(SchemaId::KernelSchema(owned(s)));
            } else {
                return Err(IdError { kind: "schema id", found: owned(s) });
            }
        }
        proof {
            reveal_strlit("smysl.kernel/");
            reveal_strlit("x.");
        }
        if !starts_with(&v, "x.") {
            return Err(IdError { kind: "schema id", found: owned(s) });
        }
        let ghost rest = s@.skip(2);
        assert(rest =~= v@.skip(2));
        match find_char(&v, '/', 2) {
            None => Err(IdError { kind: "schema id", found: owned(s) }),
            Some(j) => {
                assert(rest.take(j - 2) =~= v@.subrange(2, j as int));
                assert(rest.skip(j - 2 + 1) =~= v@.subrange(j + 1, v@.len() as int));
                if check_ident(&v, 2, j) && check_ext_segment(&v, j + 1, v.len()) {
                    Ok(SchemaId::Extension(owned(s)))
                } else {
                    Err(IdError { kind: "schema id", found: owned(s) })
                }
            },
        }
    }

    /// Parse for decoding, where an unrecognised bare type is preserved rather than refused.
    pub fn parse_forward(s: &str) -> (r: Result<SchemaId, IdError>)
        ensures
            schema_shape(s@) == 0 ==> (r matches Ok(SchemaId::Kernel(k)) && k.str_view() == s@),
            schema_shape(s@) == 1 ==> (r matches Ok(SchemaId::KernelSchema(t)) && t@ == s@),
            schema_shape(s@) == 2 ==> (r matches Ok(SchemaId::Extension(t)) && t@ == s@),
            schema_shape(s@) == 3 && !claims_namespace(s@) && ext_segment(s@) ==> (r matches Ok(
                SchemaId::UnknownKernel(t),
            ) && t@ == s@),
            schema_shape(s@) == 3 && !(!claims_namespace(s@) && ext_segment(s@)) ==> (r matches Err(
                e,
            ) && e.kind@ == "schema id"@ && e.found@ == s@),
    {
        match SchemaId::parse(s) {
            Ok(id) => Ok(id),
            Err(e) => {
                let v = chars_of(s);
                assert(v@.skip(0) =~= v@);
                proof {
                    reveal_strlit("x.");
                    reveal_strlit("smysl.kernel/");
                }
                let a = starts_with(&v, "x.");
                let b = starts_with(&v, "smysl.kernel/");
                let c = find_char(&v, '/', 0).is_some();
                assert(c == (index_of(s@, '/') >= 0));
                let claims = a || b || c;
                assert(claims == claims_namespace(s@));
                if !claims && is_ext_segment(s) {
                    Ok(SchemaId::UnknownKernel(owned(s)))
                } else {
                    Err(e)
                }
            },
        }
    }

    pub fn as_str(&self) -> (r: &str)
        ensures
            r@ == self.text(),
    {
        match self {
            SchemaId::Kernel(k) => k.as_str(),
            SchemaId::KernelSchema(s) => s.as_str(),
            SchemaId::Extension(s) => s.as_str(),
            SchemaId::UnknownKernel(s) => s.as_str(),
        }
    }

    /// Whether this names a kernel unit type.
    pub fn is_kernel(&self) -> (r: bool)
        ensures
            r == (self is Kernel),
    {
        match self {
            SchemaId::Kernel(_) => true,
            _ => false,
        }
    }

    /// Whether this names the kernel schema itself.
    pub fn is_kernel_schema(&self) -> (r: bool)
        ensures
            r == (self is KernelSchema),
    {
        match self {
            SchemaId::KernelSchema(_) => true,
            _ => false,
        }
    }

    /// The kernel major this id requires, if it is a kernel schema id.
    pub fn kernel_major(&self) -> (r: Option<u32>)
        ensures
            r == (match self {
                SchemaId::KernelSchema(s) => crate::kernel_major_view(s@),
                _ => None,
            }),
    {
        match self {
            SchemaId::KernelSchema(s) => crate::kernel_major(s.as_str()),
            _ => None,
        }
    }

    pub fn kernel(&self) -> (r: Option<KernelType>)
        ensures
            r == (match self {
                SchemaId::Kernel(k) => Some(*k),
                _ => None,
            }),
    {
        match self {
            SchemaId::Kernel(k) => Some(*k),
            _ => None,
        }
    }

    /// A copy of this id.
    pub fn duplicate(&self) -> (r: SchemaId)
        ensures
            r.text() == self.text(),
            (r is Kernel) == (self is Kernel),
            (r is KernelSchema) == (self is KernelSchema),
            (r is Extension) == (self is Extension),
            (r is UnknownKernel) == (self is UnknownKernel),
            self is Kernel ==> r == *self,
    {
        match self {
            SchemaId::Kernel(k) => SchemaId::Kernel(*k),
            SchemaId::KernelSchema(s) => SchemaId::KernelSchema(s.clone()),
            SchemaId::Extension(s) => SchemaId::Extension(s.clone()),
            SchemaId::UnknownKernel(s) => SchemaId::UnknownKernel(s.clone()),
        }
    }
}

impl From<KernelType> for SchemaId {
    fn from(k: KernelType) -> (r: SchemaId) {
        SchemaId::Kernel(k)
    }
}

impl vstd::std_specs::convert::FromSpecImpl<KernelType> for SchemaId {
    open spec fn obeys_from_spec() -> bool {
        true
    }

    open spec fn from_spec(k: KernelType) -> SchemaId {
        SchemaId::Kernel(k)
    }
}

// ---------------------------------------------------------------------------
// Language tags
// ---------------------------------------------------------------------------

/// A BCP 47-shaped tag: 1 to 35 characters, ASCII alphanumeric segments joined by `-`.
pub open spec fn lang_ok(s: Seq<char>) -> bool {
    &&& s.len() > 0
    &&& s.len() <= 35
    &&& forall|i: int| 0 <= i < s.len() ==> is_lower(#[trigger] s[i]) || is_upper(s[i]) || is_digit(s[i])
        || s[i] == '-'
    &&& s[0] != '-'
    &&& s[s.len() - 1] != '-'
    &&& forall|i: int| 0 <= i < s.len() - 1 ==> !(#[trigger] s[i] == '-' && s[i + 1] == '-')
}

/// A view's language.
#[derive(Debug, PartialEq, Eq, PartialOrd, Ord, Hash)]
pub struct LangTag(String);

impl View for LangTag {
    type V = Seq<char>;

    closed spec fn view(&self) -> Seq<char> {
        self.0@
    }
}

impl Clone for LangTag {
    fn clone(&self) -> (r: LangTag)
        ensures
            r@ == self@,
    {
        LangTag(self.0.clone())
    }
}

impl LangTag {
    pub fn new(s: &str) -> (r: Result<LangTag, IdError>)
        ensures
            r is Ok <==> lang_ok(s@),
            r matches Ok(t) ==> t@ == s@,
            r matches Err(e) ==> e.kind@ == "language tag"@ && e.found@ == s@,
    {
        let v = chars_of(s);
        let n = v.len();
        let mut ok = n > 0 && n <= 35 && v[0] != '-' && v[n - 1] != '-';
        let mut i: usize = 0;
        while ok && i < n
            invariant
                v@ == s@,
                n == v.len(),
                i <= n,
                ok ==> forall|j: int| 0 <= j < i ==> is_lower(#[trigger] s@[j]) || is_upper(s@[j])
                    || is_digit(s@[j]) || s@[j] == '-',
                ok ==> forall|j: int| 0 <= j < i && j < n - 1 ==> !(#[trigger] s@[j] == '-' && s@[j
                    + 1] == '-'),
                ok ==> n > 0 && n <= 35 && s@[0] != '-' && s@[n - 1] != '-',
                !ok ==> !lang_ok(s@),
            decreases n - i,
        {
            let c = v[i];
            if !(('a' <= c && c <= 'z') || ('A' <= c && c <= 'Z') || ('0' <= c && c <= '9') || c
                == '-') {
                ok = false;
            } else if c == '-' && i + 1 < n && v[i + 1] == '-' {
                ok = false;
            }
            i = i + 1;
        }
        if ok {
            Ok(LangTag(owned(s)))
        } else {
            Err(IdError { kind: "language tag", found: owned(s) })
        }
    }

    pub fn as_str(&self) -> (r: &str)
        ensures
            r@ == self@,
    {
        self.0.as_str()
    }

    /// `en`.
    pub fn default() -> (r: LangTag)
        ensures
            r@ == "en"@,
    {
        LangTag(owned("en"))
    }
}


// ---------------------------------------------------------------------------
// Byte order and uid sets
// ---------------------------------------------------------------------------

/// Strictly ascending uids: the canonical form of a uid set.
pub open spec fn uids_sorted(s: Seq<Uid>) -> bool {
    forall|i: int, j: int| 0 <= i < j < s.len() ==> bytes_lt(#[trigger] s[i].bytes(), #[trigger] s[j].bytes())
}

pub proof fn lemma_uid_bytes_len(u: Uid)
    ensures
        u.bytes().len() == 32,
{
}

/// Uids with the same bytes are the same uid.
pub proof fn lemma_uid_bytes_injective(a: Uid, b: Uid)
    ensures
        a.bytes() == b.bytes() ==> a == b,
{
    if a.bytes() == b.bytes() {
        assert(a.0 =~= b.0);
    }
}

/// Whether `a` orders strictly before `b`.
pub fn uid_lt(a: &Uid, b: &Uid) -> (r: bool)
    ensures
        r == bytes_lt(a.bytes(), b.bytes()),
{
    bytes_less(a.as_bytes(), b.as_bytes())
}

/// Adds `u` to a canonical uid set, keeping it ascending and free of duplicates.
pub fn uid_set_insert(v: &mut Vec<Uid>, u: Uid)
    requires
        uids_sorted(old(v)@),
    ensures
        uids_sorted(final(v)@),
        final(v)@.to_set() == old(v)@.to_set().insert(u),
{
    let mut p: usize = 0;
    while p < v.len() && uid_lt(&v[p], &u)
        invariant
            p <= v.len(),
            v@ == old(v)@,
            forall|i: int| 0 <= i < p ==> bytes_lt(#[trigger] v@[i].bytes(), u.bytes()),
        decreases v.len() - p,
    {
        p = p + 1;
    }
    if p < v.len() && v[p] == u {
        assert(v@.to_set().contains(u)) by {
            assert(v@.contains(u)) by {
                lemma_uid_bytes_injective(v@[p as int], u);
                assert(v@[p as int] == u);
            }
        }
        assert(v@.to_set().insert(u) =~= v@.to_set());
        return;
    }
    let ghost pre = v@;
    proof {
        if p < pre.len() {
            lemma_uid_bytes_len(pre[p as int]);
            lemma_uid_bytes_len(u);
            lemma_bytes_lt_total(pre[p as int].bytes(), u.bytes());
            lemma_uid_bytes_injective(pre[p as int], u);
        }
    }
    v.insert(p, u);
    assert(v@ =~= pre.take(p as int).push(u) + pre.skip(p as int));
    assert(v@[p as int] == u);
    assert(v@.contains(u));
    assert forall|i: int, j: int| 0 <= i < j < v@.len() implies bytes_lt(#[trigger] v@[i].bytes(), #[trigger] v@[j].bytes()) by {
        lemma_uid_bytes_len(u);
        if j < p {
        } else if j == p {
        } else if i < p {
            lemma_uid_bytes_len(pre[i]);
            lemma_uid_bytes_len(pre[j - 1]);
            if p < pre.len() {
                lemma_uid_bytes_len(pre[p as int]);
            }
        } else if i == p {
            lemma_uid_bytes_len(pre[j - 1]);
            lemma_uid_bytes_len(pre[p as int]);
            if j - 1 > p {
                lemma_bytes_lt_transitive(u.bytes(), pre[p as int].bytes(), pre[j - 1].bytes());
            }
        } else {
        }
    }
    proof {
        // ascending below p, and from p on everything in `pre` lies above `u`
        assert forall|i: int, j: int| 0 <= i < p && p < j < v@.len() implies bytes_lt(v@[i].bytes(), v@[j].bytes()) by {
            lemma_uid_bytes_len(pre[i]);
            lemma_uid_bytes_len(pre[p as int]);
            lemma_uid_bytes_len(pre[j - 1]);
            if j - 1 > p {
                lemma_bytes_lt_transitive(pre[i].bytes(), pre[p as int].bytes(), pre[j - 1].bytes());
            }
        }
    }
    assert(v@.to_set() =~= pre.to_set().insert(u)) by {
        assert forall|x: Uid| v@.to_set().contains(x) <==> pre.to_set().insert(u).contains(x) by {
            if v@.contains(x) {
                let k = choose|k: int| 0 <= k < v@.len() && v@[k] == x;
                if k < p {
                    assert(pre[k] == x);
                } else if k > p {
                    assert(pre[k - 1] == x);
                }
            }
            if pre.contains(x) {
                let k = choose|k: int| 0 <= k < pre.len() && pre[k] == x;
                if k < p {
                    assert(v@[k] == x);
                } else {
                    assert(v@[k + 1] == x);
                }
            }
            if x == u {
                assert(v@.contains(u));
            }
        }
    }
}

/// The canonical uid set holding exactly the uids of `items`.
pub fn uid_set_from(items: &Vec<Uid>) -> (r: Vec<Uid>)
    ensures
        uids_sorted(r@),
        r@.to_set() == items@.to_set(),
{
    let mut r: Vec<Uid> = Vec::new();
    let mut i: usize = 0;
    while i < items.len()
        invariant
            i <= items.len(),
            uids_sorted(r@),
            r@.to_set() == items@.take(i as int).to_set(),
        decreases items.len() - i,
    {
        uid_set_insert(&mut r, items[i]);
        assert(items@.take(i + 1) =~= items@.take(i as int).push(items@[i as int]));
        proof {
            items@.take(i as int).lemma_push_to_set_commute(items@[i as int]);
        }
        i = i + 1;
    }
    assert(items@.take(i as int) =~= items@);
    r
}

impl core::str::FromStr for Uid {
    type Err = crate::error::IntegrityError;

    fn from_str(s: &str) -> Result<Uid, crate::error::IntegrityError> {
        Uid::parse(s)
    }
}

impl core::str::FromStr for Label {
    type Err = IdError;

    fn from_str(s: &str) -> Result<Label, IdError> {
        Label::new(s)
    }
}

impl core::str::FromStr for ThreadId {
    type Err = IdError;

    fn from_str(s: &str) -> Result<ThreadId, IdError> {
        ThreadId::new(s)
    }
}

impl core::str::FromStr for ViewId {
    type Err = IdError;

    fn from_str(s: &str) -> Result<ViewId, IdError> {
        ViewId::new(s)
    }
}

impl core::str::FromStr for ContentionId {
    type Err = IdError;

    fn from_str(s: &str) -> Result<ContentionId, IdError> {
        ContentionId::new(s)
    }
}

impl core::str::FromStr for AgentId {
    type Err = IdError;

    fn from_str(s: &str) -> Result<AgentId, IdError> {
        AgentId::new(s)
    }
}

impl core::str::FromStr for SchemaId {
    type Err = IdError;

    fn from_str(s: &str) -> Result<SchemaId, IdError> {
        SchemaId::parse(s)
    }
}

impl core::str::FromStr for LangTag {
    type Err = IdError;

    fn from_str(s: &str) -> Result<LangTag, IdError> {
        LangTag::new(s)
    }
}

} // verus!
