//! The strict decoder. Every rejection is a determinism constraint: a decoder that repaired a
//! non-shortest integer, or accepted `null` for an absent optional, would read two byte
//! sequences as one value, which content addressing cannot survive.

use vstd::prelude::*;

use crate::cbor::major;
use crate::cbor::writer::{be2, be4, be8, head_bytes, uid_item};
use crate::cbor::{F32_HEAD, INDEFINITE, MAX_NESTING, NULL};
use crate::error::{CodecError, NonDetReason};
use crate::ids::{bytes_lt, lemma_bytes_lt_transitive, uid_lt, uids_sorted, Uid};
use crate::nfc::{is_nfc, nfc_of};
use crate::text::utf8_str;
use vstd::string::StringSliceAdditionalSpecFns;
use vstd::utf8::{decode_utf8, valid_utf8};

verus! {

/// Two bytes read big-endian.
pub open spec fn be_value2(a: u8, b: u8) -> u64 {
    ((a as u64) << 8u64) | (b as u64)
}

/// Four bytes read big-endian.
pub open spec fn be_value4(a: u8, b: u8, c: u8, d: u8) -> u64 {
    ((a as u64) << 24u64) | ((b as u64) << 16u64) | ((c as u64) << 8u64) | (d as u64)
}

/// Eight bytes read big-endian.
pub open spec fn be_value8(b0: u8, b1: u8, b2: u8, b3: u8, b4: u8, b5: u8, b6: u8, b7: u8) -> u64 {
    ((b0 as u64) << 56u64) | ((b1 as u64) << 48u64) | ((b2 as u64) << 40u64) | ((b3 as u64) << 32u64)
        | ((b4 as u64) << 24u64) | ((b5 as u64) << 16u64) | ((b6 as u64) << 8u64) | (b7 as u64)
}

/// The number of argument bytes that follow an initial byte with additional information `ai`
/// in 24..=27.
pub open spec fn arg_width(ai: u8) -> int {
    if ai == 24 {
        1
    } else if ai == 25 {
        2
    } else if ai == 26 {
        4
    } else {
        8
    }
}

/// The smallest argument that needs the width that `ai` announces.
pub open spec fn arg_floor(ai: u8) -> u64 {
    if ai == 24 {
        24
    } else if ai == 25 {
        0x100
    } else if ai == 26 {
        0x1_0000
    } else {
        0x1_0000_0000
    }
}

/// The argument bytes at `p`, read big-endian, `ai` announcing their number.
pub open spec fn arg_value(s: Seq<u8>, p: int, ai: u8) -> u64 {
    if ai == 24 {
        s[p] as u64
    } else if ai == 25 {
        be_value2(s[p], s[p + 1])
    } else if ai == 26 {
        be_value4(s[p], s[p + 1], s[p + 2], s[p + 3])
    } else {
        be_value8(s[p], s[p + 1], s[p + 2], s[p + 3], s[p + 4], s[p + 5], s[p + 6], s[p + 7])
    }
}

/// Reading a head at `p`: the major type and argument, or the error, and where reading
/// stops. Shortest form is enforced and indefinite lengths are refused.
pub open spec fn head_at(s: Seq<u8>, p: int) -> (Result<(u8, u64), CodecError>, int) {
    if !(0 <= p < s.len()) {
        (Err(CodecError::Truncated { at: p as usize }), p)
    } else {
        let b = s[p];
        let m = b / 32;
        let ai = b % 32;
        if ai == INDEFINITE {
            (Err(CodecError::NonDeterministic { at: p as usize, reason: NonDetReason::IndefiniteLength }), p + 1)
        } else if ai < 24 {
            (Ok((m, ai as u64)), p + 1)
        } else if ai <= 27 {
            let n = arg_width(ai);
            if p + 1 + n > s.len() {
                (Err(CodecError::Truncated { at: (p + 1) as usize }), p + 1)
            } else if arg_value(s, p + 1, ai) < arg_floor(ai) {
                (Err(CodecError::NonDeterministic { at: p as usize, reason: NonDetReason::NonShortestInt }), p + 1 + n)
            } else {
                (Ok((m, arg_value(s, p + 1, ai))), p + 1 + n)
            }
        } else {
            (Err(CodecError::MalformedEnvelope { at: (p + 1) as usize }), p + 1)
        }
    }
}

/// Reading a head at `p` that must be of major type `want`. A mismatch leaves the position
/// where it was.
pub open spec fn expect_at(s: Seq<u8>, p: int, want: u8) -> (Result<u64, CodecError>, int) {
    match head_at(s, p).0 {
        Err(e) => (Err(e), head_at(s, p).1),
        Ok((m, a)) => if m != want {
            (Err(CodecError::MalformedEnvelope { at: p as usize }), p)
        } else {
            (Ok(a), head_at(s, p).1)
        },
    }
}

/// Taking `n` bytes at `p`: where reading stops, or the error.
pub open spec fn take_at(s: Seq<u8>, p: int, n: int) -> Result<int, CodecError> {
    if p + n > usize::MAX {
        Err(CodecError::MalformedEnvelope { at: p as usize })
    } else if p + n > s.len() {
        Err(CodecError::Truncated { at: p as usize })
    } else {
        Ok(p + n)
    }
}

/// Reading a byte string at `p`: its contents and where reading stops.
pub open spec fn bytes_at(s: Seq<u8>, p: int) -> (Result<Seq<u8>, CodecError>, int) {
    let (r, q) = expect_at(s, p, major::BYTES);
    match r {
        Err(e) => (Err(e), q),
        Ok(a) => match take_at(s, q, (a as usize) as int) {
            Err(e) => (Err(e), q),
            Ok(end) => (Ok(s.subrange(q, end)), end),
        },
    }
}

/// Reading a uid at `p`: a byte string that must be exactly 32 bytes wide.
pub open spec fn uid_at(s: Seq<u8>, p: int) -> (Result<Seq<u8>, CodecError>, int) {
    let (r, q) = bytes_at(s, p);
    match r {
        Err(e) => (Err(e), q),
        Ok(b) => if b.len() == 32 {
            (Ok(b), q)
        } else {
            (Err(CodecError::TruncatedUid { at: p as usize, len: b.len() as usize }), q)
        },
    }
}

/// Reading `n` more uids from `p` into a set that must ascend strictly; `set_at` is where the
/// set began, `prev` the last uid read.
pub open spec fn uids_at(s: Seq<u8>, p: int, n: nat, prev: Option<Seq<u8>>, set_at: int) -> (Result<Seq<Seq<u8>>, CodecError>, int)
    decreases n,
{
    if n == 0 {
        (Ok(Seq::empty()), p)
    } else {
        let (r, q) = uid_at(s, p);
        match r {
            Err(e) => (Err(e), q),
            Ok(u) => if prev matches Some(pv) && !bytes_lt(pv, u) {
                (Err(CodecError::NonDeterministic { at: set_at as usize, reason: NonDetReason::UnsortedSet }), q)
            } else {
                let (rest, q2) = uids_at(s, q, (n - 1) as nat, Some(u), set_at);
                match rest {
                    Err(e) => (Err(e), q2),
                    Ok(us) => (Ok(seq![u] + us), q2),
                }
            },
        }
    }
}

/// Reading a uid set at `p`: an array of uids ascending strictly by bytes.
pub open spec fn uid_set_at(s: Seq<u8>, p: int) -> (Result<Seq<Seq<u8>>, CodecError>, int) {
    let (r, q) = expect_at(s, p, major::ARRAY);
    match r {
        Err(e) => (Err(e), q),
        Ok(n) => uids_at(s, q, (n as usize) as nat, None, p),
    }
}

/// Reading a map key at `p` after the key `prev`: an unsigned integer that fits 16 bits and
/// ascends strictly.
pub open spec fn map_key_at(s: Seq<u8>, p: int, prev: Option<u16>) -> (Result<u16, CodecError>, int) {
    let (r, q) = expect_at(s, p, major::UINT);
    match r {
        Err(e) => (Err(e), q),
        Ok(k) => if k > u16::MAX {
            (Err(CodecError::MalformedEnvelope { at: p as usize }), q)
        } else if prev matches Some(pk) && k == pk {
            (Err(CodecError::NonDeterministic { at: p as usize, reason: NonDetReason::DuplicateMapKey }), q)
        } else if prev matches Some(pk) && k < pk {
            (Err(CodecError::NonDeterministic { at: p as usize, reason: NonDetReason::UnsortedMapKeys }), q)
        } else {
            (Ok(k as u16), q)
        },
    }
}

/// The bound on nesting, one above the deepest level walked, that makes skipping terminate.
pub open spec fn depth_bound() -> int {
    MAX_NESTING + 2
}

/// Skipping one complete item at `p`, found at nesting `depth`. Nested items are skipped
/// strictly: `null`, tags, indefinite lengths and non-shortest heads are refused anywhere.
pub open spec fn skip_at(s: Seq<u8>, p: int, depth: int) -> (Result<(), CodecError>, int)
    decreases depth_bound() - depth, 0int,
{
    if depth > MAX_NESTING {
        (Err(CodecError::NestingTooDeep { at: p as usize, limit: MAX_NESTING }), p)
    } else if !(0 <= p < s.len()) {
        (Err(CodecError::Truncated { at: p as usize }), p)
    } else if s[p] == NULL {
        (Err(CodecError::NonDeterministic { at: p as usize, reason: NonDetReason::NullOptional }), p)
    } else if s[p] / 32 == major::SIMPLE {
        if s[p] == F32_HEAD {
            match take_at(s, p + 1, 4) {
                Err(e) => (Err(e), p + 1),
                Ok(q) => (Ok(()), q),
            }
        } else if s[p] == 0xF4 || s[p] == 0xF5 {
            (Ok(()), p + 1)
        } else {
            (Err(CodecError::MalformedEnvelope { at: p as usize }), p)
        }
    } else {
        let (r, q) = head_at(s, p);
        match r {
            Err(e) => (Err(e), q),
            Ok((m, a)) => if m == major::UINT || m == major::NEGINT {
                (Ok(()), q)
            } else if m == major::BYTES || m == major::TEXT {
                match take_at(s, q, (a as usize) as int) {
                    Err(e) => (Err(e), q),
                    Ok(end) => (Ok(()), end),
                }
            } else if m == major::ARRAY {
                skip_items_at(s, q, depth + 1, a as int)
            } else if m == major::MAP {
                skip_items_at(s, q, depth + 1, 2 * a)
            } else {
                (Err(CodecError::MalformedEnvelope { at: q as usize }), q)
            },
        }
    }
}

/// Skipping `n` items in a row at nesting `depth`.
pub open spec fn skip_items_at(s: Seq<u8>, p: int, depth: int, n: int) -> (Result<(), CodecError>, int)
    decreases depth_bound() - depth, if n > 0 { n } else { 0 },
{
    if n <= 0 {
        (Ok(()), p)
    } else if depth > MAX_NESTING + 1 {
        (Err(CodecError::NestingTooDeep { at: p as usize, limit: MAX_NESTING }), p)
    } else {
        let (r, q) = skip_at(s, p, depth);
        match r {
            Err(e) => (Err(e), q),
            Ok(()) => skip_items_at(s, q, depth, n - 1),
        }
    }
}

/// A uid set the reader accepts holds 32-byte uids in strictly ascending byte order, each
/// after the uid read before it.
pub proof fn lemma_uids_at_sorted(s: Seq<u8>, p: int, n: nat, prev: Option<Seq<u8>>, set_at: int)
    requires
        prev matches Some(pv) ==> pv.len() == 32,
    ensures
        uids_at(s, p, n, prev, set_at).0 matches Ok(us) ==> {
            &&& forall|i: int| 0 <= i < us.len() ==> (#[trigger] us[i]).len() == 32
            &&& forall|i: int, j: int| 0 <= i < j < us.len() ==> bytes_lt(#[trigger] us[i], #[trigger] us[j])
            &&& (us.len() > 0 ==> (prev matches Some(pv) ==> bytes_lt(pv, us[0])))
        },
    decreases n,
{
    if n > 0 {
        let (r, q) = uid_at(s, p);
        if let Ok(u) = r {
            if !(prev matches Some(pv) && !bytes_lt(pv, u)) {
                lemma_uids_at_sorted(s, q, (n - 1) as nat, Some(u), set_at);
                let (rest, q2) = uids_at(s, q, (n - 1) as nat, Some(u), set_at);
                if let Ok(tail) = rest {
                    let us = seq![u] + tail;
                    assert forall|i: int, j: int| 0 <= i < j < us.len() implies bytes_lt(#[trigger] us[i], #[trigger] us[j]) by {
                        if i == 0 {
                            if j > 1 {
                                lemma_bytes_lt_transitive(u, tail[0], tail[j - 1]);
                            }
                        } else {
                            assert(us[i] == tail[i - 1] && us[j] == tail[j - 1]);
                        }
                    }
                }
            }
        }
    }
}

proof fn lemma_be2(v: u64)
    requires
        v < 0x1_0000,
    ensures
        be_value2(be2(v)[0], be2(v)[1]) == v,
{
    let a = (v >> 8u64) as u8;
    let b = v as u8;
    assert(((a as u64) << 8u64) | (b as u64) == v) by (bit_vector)
        requires
            v < 0x1_0000,
            a == (v >> 8u64) as u8,
            b == v as u8,
    ;
}

proof fn lemma_be2_inverse(a: u8, b: u8)
    ensures
        be2(be_value2(a, b)) == seq![a, b],
        be_value2(a, b) < 0x1_0000,
{
    let v = be_value2(a, b);
    assert(((v >> 8u64) as u8) == a && (v as u8) == b && v < 0x1_0000) by (bit_vector)
        requires
            v == ((a as u64) << 8u64) | (b as u64),
    ;
    assert(be2(v) =~= seq![a, b]);
}

proof fn lemma_be4(v: u64)
    requires
        v < 0x1_0000_0000,
    ensures
        be_value4(be4(v)[0], be4(v)[1], be4(v)[2], be4(v)[3]) == v,
{
    let a = (v >> 24u64) as u8;
    let b = (v >> 16u64) as u8;
    let c = (v >> 8u64) as u8;
    let d = v as u8;
    assert(((a as u64) << 24u64) | ((b as u64) << 16u64) | ((c as u64) << 8u64) | (d as u64) == v) by (bit_vector)
        requires
            v < 0x1_0000_0000,
            a == (v >> 24u64) as u8,
            b == (v >> 16u64) as u8,
            c == (v >> 8u64) as u8,
            d == v as u8,
    ;
}

proof fn lemma_be4_inverse(a: u8, b: u8, c: u8, d: u8)
    ensures
        be4(be_value4(a, b, c, d)) == seq![a, b, c, d],
        be_value4(a, b, c, d) < 0x1_0000_0000,
{
    let v = be_value4(a, b, c, d);
    assert(((v >> 24u64) as u8) == a && ((v >> 16u64) as u8) == b && ((v >> 8u64) as u8) == c && (v as u8)
        == d && v < 0x1_0000_0000) by (bit_vector)
        requires
            v == ((a as u64) << 24u64) | ((b as u64) << 16u64) | ((c as u64) << 8u64) | (d as u64),
    ;
    assert(be4(v) =~= seq![a, b, c, d]);
}

proof fn lemma_be8(v: u64)
    ensures
        be_value8(be8(v)[0], be8(v)[1], be8(v)[2], be8(v)[3], be8(v)[4], be8(v)[5], be8(v)[6], be8(v)[7]) == v,
{
    let b0 = (v >> 56u64) as u8;
    let b1 = (v >> 48u64) as u8;
    let b2 = (v >> 40u64) as u8;
    let b3 = (v >> 32u64) as u8;
    let b4 = (v >> 24u64) as u8;
    let b5 = (v >> 16u64) as u8;
    let b6 = (v >> 8u64) as u8;
    let b7 = v as u8;
    assert(((b0 as u64) << 56u64) | ((b1 as u64) << 48u64) | ((b2 as u64) << 40u64) | ((b3 as u64) << 32u64)
        | ((b4 as u64) << 24u64) | ((b5 as u64) << 16u64) | ((b6 as u64) << 8u64) | (b7 as u64) == v) by (bit_vector)
        requires
            b0 == (v >> 56u64) as u8,
            b1 == (v >> 48u64) as u8,
            b2 == (v >> 40u64) as u8,
            b3 == (v >> 32u64) as u8,
            b4 == (v >> 24u64) as u8,
            b5 == (v >> 16u64) as u8,
            b6 == (v >> 8u64) as u8,
            b7 == v as u8,
    ;
}

proof fn lemma_be8_inverse(b0: u8, b1: u8, b2: u8, b3: u8, b4: u8, b5: u8, b6: u8, b7: u8)
    ensures
        be8(be_value8(b0, b1, b2, b3, b4, b5, b6, b7)) == seq![b0, b1, b2, b3, b4, b5, b6, b7],
{
    let v = be_value8(b0, b1, b2, b3, b4, b5, b6, b7);
    assert(((v >> 56u64) as u8) == b0 && ((v >> 48u64) as u8) == b1 && ((v >> 40u64) as u8) == b2 && ((v
        >> 32u64) as u8) == b3 && ((v >> 24u64) as u8) == b4 && ((v >> 16u64) as u8) == b5 && ((v >> 8u64) as u8)
        == b6 && (v as u8) == b7) by (bit_vector)
        requires
            v == ((b0 as u64) << 56u64) | ((b1 as u64) << 48u64) | ((b2 as u64) << 40u64) | ((b3 as u64)
                << 32u64) | ((b4 as u64) << 24u64) | ((b5 as u64) << 16u64) | ((b6 as u64) << 8u64) | (b7 as u64),
    ;
    assert(be8(v) =~= seq![b0, b1, b2, b3, b4, b5, b6, b7]);
}

/// What the encoder writes for a head, the decoder reads back: the same major type and
/// argument, ending right after the head, whatever precedes or follows it.
pub proof fn lemma_head_round_trip(m: u8, arg: u64, s: Seq<u8>, p: int)
    requires
        m < 8,
        0 <= p,
        p + head_bytes(m, arg).len() <= s.len(),
        s.subrange(p, p + head_bytes(m, arg).len()) == head_bytes(m, arg),
    ensures
        head_at(s, p) == (Ok::<(u8, u64), CodecError>((m, arg)), p + head_bytes(m, arg).len()),
{
    let h = head_bytes(m, arg);
    assert(s[p] == h[0]);
    if arg < 24 {
        assert((m * 32 + arg) as u8 / 32 == m && (m * 32 + arg) as u8 % 32 == arg);
    } else if arg < 0x100 {
        assert(s[p + 1] == h[1]);
    } else if arg < 0x1_0000 {
        assert(s[p + 1] == h[1] && s[p + 2] == h[2]);
        lemma_be2(arg);
    } else if arg < 0x1_0000_0000 {
        assert(s[p + 1] == h[1] && s[p + 2] == h[2] && s[p + 3] == h[3] && s[p + 4] == h[4]);
        lemma_be4(arg);
    } else {
        assert(s[p + 1] == h[1] && s[p + 2] == h[2] && s[p + 3] == h[3] && s[p + 4] == h[4]);
        assert(s[p + 5] == h[5] && s[p + 6] == h[6] && s[p + 7] == h[7] && s[p + 8] == h[8]);
        lemma_be8(arg);
    }
}

/// Whatever head the decoder accepts is exactly the one the encoder writes for the value it
/// read: each major type and argument has one head, and no other spelling gets through.
pub proof fn lemma_head_canonical(s: Seq<u8>, p: int)
    requires
        head_at(s, p).0 is Ok,
    ensures
        ({
            let (m, arg) = head_at(s, p).0->Ok_0;
            &&& m < 8
            &&& s.subrange(p, head_at(s, p).1) == head_bytes(m, arg)
        }),
{
    let b = s[p];
    let m = b / 32;
    let ai = b % 32;
    let q = head_at(s, p).1;
    let (mm, arg) = head_at(s, p).0->Ok_0;
    assert(mm == m);
    assert(b == m * 32 + ai);
    if ai < 24 {
        assert(s.subrange(p, q) =~= head_bytes(m, arg));
    } else if ai == 24 {
        assert(s.subrange(p, q) =~= head_bytes(m, arg));
    } else if ai == 25 {
        lemma_be2_inverse(s[p + 1], s[p + 2]);
        assert(s.subrange(p, q) =~= head_bytes(m, arg));
    } else if ai == 26 {
        lemma_be4_inverse(s[p + 1], s[p + 2], s[p + 3], s[p + 4]);
        assert(s.subrange(p, q) =~= head_bytes(m, arg));
    } else {
        lemma_be8_inverse(s[p + 1], s[p + 2], s[p + 3], s[p + 4], s[p + 5], s[p + 6], s[p + 7], s[p + 8]);
        assert(s.subrange(p, q) =~= head_bytes(m, arg));
    }
}


/// Reading text at `p`: the UTF-8 bytes of a text string, which must decode and be in NFC.
pub open spec fn text_at(s: Seq<u8>, p: int) -> (Result<Seq<u8>, CodecError>, int) {
    let (r, q) = expect_at(s, p, major::TEXT);
    match r {
        Err(e) => (Err(e), q),
        Ok(a) => match take_at(s, q, (a as usize) as int) {
            Err(e) => (Err(e), q),
            Ok(end) => {
                let raw = s.subrange(q, end);
                if !valid_utf8(raw) {
                    (Err(CodecError::MalformedEnvelope { at: p as usize }), end)
                } else if nfc_of(decode_utf8(raw)) != decode_utf8(raw) {
                    (Err(CodecError::NonDeterministic { at: p as usize, reason: NonDetReason::NonNfcText }), end)
                } else {
                    (Ok(raw), end)
                }
            },
        },
    }
}

/// The byte at `p`, or truncation.
pub open spec fn peek_at(s: Seq<u8>, p: int) -> Result<u8, CodecError> {
    if 0 <= p < s.len() {
        Ok(s[p])
    } else {
        Err(CodecError::Truncated { at: p as usize })
    }
}

/// A strict, position-tracking CBOR decoder over a byte slice.
#[derive(Debug, Clone)]
pub struct Dec<'a> {
    buf: &'a [u8],
    pos: usize,
}

impl<'a> Dec<'a> {
    /// The bytes being read.
    pub closed spec fn input(&self) -> Seq<u8> {
        self.buf@
    }

    /// The offset of the next byte to read.
    pub closed spec fn offset(&self) -> int {
        self.pos as int
    }

    pub fn new(buf: &'a [u8]) -> (d: Dec<'a>)
        ensures
            d.input() == buf@,
            d.offset() == 0,
    {
        Dec { buf, pos: 0 }
    }

    /// The input is a slice, so its length fits in `usize`.
    pub proof fn lemma_input_fits(&self)
        ensures
            self.input().len() <= usize::MAX,
    {
        assert(self.buf@.len() == self.buf.len());
    }

    pub fn position(&self) -> (p: usize)
        ensures
            p == self.offset(),
    {
        self.pos
    }

    /// Moves to an absolute offset: only to re-read a value already located, never to skip
    /// validation.
    pub fn set_position(&mut self, pos: usize)
        ensures
            final(self).input() == old(self).input(),
            final(self).offset() == pos,
    {
        self.pos = pos;
    }

    /// The next byte, not consumed.
    pub fn peek_byte(&self) -> (r: Result<u8, CodecError>)
        ensures
            r == peek_at(self.input(), self.offset()),
    {
        if self.pos < self.buf.len() {
            Ok(self.buf[self.pos])
        } else {
            Err(CodecError::Truncated { at: self.pos })
        }
    }

    /// Consumes `n` bytes a caller has already inspected, stopping at the end of the input.
    pub fn advance(&mut self, n: usize)
        requires
            old(self).offset() + n <= usize::MAX,
        ensures
            final(self).input() == old(self).input(),
            final(self).offset() == vstd::math::min(old(self).offset() + n, old(self).input().len() as int),
    {
        let end = self.pos + n;
        self.pos = if end < self.buf.len() { end } else { self.buf.len() };
    }

    /// The major type of the next item, not consumed.
    pub fn peek_major(&self) -> (r: Result<u8, CodecError>)
        ensures
            r == (match peek_at(self.input(), self.offset()) {
                Ok(b) => Ok::<u8, CodecError>(b / 32),
                Err(e) => Err(e),
            }),
    {
        match self.peek_byte() {
            Ok(b) => Ok(b / 32),
            Err(e) => Err(e),
        }
    }

    /// The bytes from `start` up to the current position: the items read since then.
    pub fn read_since(&self, start: usize) -> (r: &'a [u8])
        requires
            start <= self.offset() <= self.input().len(),
        ensures
            r@ == self.input().subrange(start as int, self.offset()),
    {
        vstd::slice::slice_subrange(self.buf, start, self.pos)
    }

    /// The number of bytes left.
    pub fn remaining(&self) -> (n: usize)
        ensures
            n == (if self.offset() < self.input().len() { self.input().len() - self.offset() } else { 0 }),
    {
        if self.pos < self.buf.len() {
            self.buf.len() - self.pos
        } else {
            0
        }
    }

    pub fn is_done(&self) -> (r: bool)
        ensures
            r == (self.offset() >= self.input().len()),
    {
        self.pos >= self.buf.len()
    }

    fn take(&mut self, n: usize) -> (r: Result<&'a [u8], CodecError>)
        ensures
            final(self).input() == old(self).input(),
            match take_at(old(self).input(), old(self).offset(), n as int) {
                Err(e) => r == Err::<&'a [u8], CodecError>(e) && final(self).offset() == old(self).offset(),
                Ok(end) => r matches Ok(b) && b@ == old(self).input().subrange(old(self).offset(), end)
                    && final(self).offset() == end,
            },
    {
        let end = match self.pos.checked_add(n) {
            Some(e) => e,
            None => return Err(CodecError::MalformedEnvelope { at: self.pos }),
        };
        if end > self.buf.len() {
            return Err(CodecError::Truncated { at: self.pos });
        }
        let s = vstd::slice::slice_subrange(self.buf, self.pos, end);
        self.pos = end;
        Ok(s)
    }

    /// Reads a head, enforcing shortest form and refusing indefinite lengths.
    pub fn head(&mut self) -> (r: Result<(u8, u64), CodecError>)
        ensures
            final(self).input() == old(self).input(),
            r == head_at(old(self).input(), old(self).offset()).0,
            final(self).offset() == head_at(old(self).input(), old(self).offset()).1,
    {
        let ghost s = self.input();
        let p = self.pos;
        if p >= self.buf.len() {
            return Err(CodecError::Truncated { at: p });
        }
        let b = self.buf[p];
        let m = b / 32;
        let ai = b % 32;
        self.pos = p + 1;
        if ai == INDEFINITE {
            return Err(CodecError::NonDeterministic { at: p, reason: NonDetReason::IndefiniteLength });
        }
        if ai < 24 {
            return Ok((m, ai as u64));
        }
        if ai > 27 {
            return Err(CodecError::MalformedEnvelope { at: p + 1 });
        }
        let n: usize = if ai == 24 { 1 } else if ai == 25 { 2 } else if ai == 26 { 4 } else { 8 };
        if self.buf.len() - (p + 1) < n {
            return Err(CodecError::Truncated { at: p + 1 });
        }
        let q = p + 1;
        let bs = self.buf;
        let v: u64 = if ai == 24 {
            bs[q] as u64
        } else if ai == 25 {
            ((bs[q] as u64) << 8u64) | (bs[q + 1] as u64)
        } else if ai == 26 {
            ((bs[q] as u64) << 24u64) | ((bs[q + 1] as u64) << 16u64) | ((bs[q + 2] as u64) << 8u64) | (bs[q
                + 3] as u64)
        } else {
            ((bs[q] as u64) << 56u64) | ((bs[q + 1] as u64) << 48u64) | ((bs[q + 2] as u64) << 40u64) | ((bs[q
                + 3] as u64) << 32u64) | ((bs[q + 4] as u64) << 24u64) | ((bs[q + 5] as u64) << 16u64) | ((bs[q
                + 6] as u64) << 8u64) | (bs[q + 7] as u64)
        };
        assert(v == arg_value(s, q as int, ai));
        self.pos = q + n;
        let floor: u64 = if ai == 24 { 24 } else if ai == 25 { 0x100 } else if ai == 26 { 0x1_0000 } else { 0x1_0000_0000 };
        if v < floor {
            return Err(CodecError::NonDeterministic { at: p, reason: NonDetReason::NonShortestInt });
        }
        Ok((m, v))
    }

    fn expect(&mut self, want: u8) -> (r: Result<u64, CodecError>)
        ensures
            final(self).input() == old(self).input(),
            r == expect_at(old(self).input(), old(self).offset(), want).0,
            final(self).offset() == expect_at(old(self).input(), old(self).offset(), want).1,
    {
        let at = self.pos;
        let (m, arg) = match self.head() {
            Ok(h) => h,
            Err(e) => return Err(e),
        };
        if m != want {
            self.pos = at;
            return Err(CodecError::MalformedEnvelope { at });
        }
        Ok(arg)
    }

    pub fn uint(&mut self) -> (r: Result<u64, CodecError>)
        ensures
            final(self).input() == old(self).input(),
            r == expect_at(old(self).input(), old(self).offset(), major::UINT).0,
            final(self).offset() == expect_at(old(self).input(), old(self).offset(), major::UINT).1,
    {
        self.expect(major::UINT)
    }

    pub fn bytes(&mut self) -> (r: Result<&'a [u8], CodecError>)
        ensures
            final(self).input() == old(self).input(),
            final(self).offset() == bytes_at(old(self).input(), old(self).offset()).1,
            match bytes_at(old(self).input(), old(self).offset()).0 {
                Ok(b) => r matches Ok(x) && x@ == b,
                Err(e) => r == Err::<&'a [u8], CodecError>(e),
            },
    {
        let n = match self.expect(major::BYTES) {
            Ok(n) => n,
            Err(e) => return Err(e),
        };
        self.take(n as usize)
    }

    /// Reads text, refusing invalid UTF-8 and anything not in NFC.
    pub fn text(&mut self) -> (r: Result<&'a str, CodecError>)
        ensures
            final(self).input() == old(self).input(),
            final(self).offset() == text_at(old(self).input(), old(self).offset()).1,
            match text_at(old(self).input(), old(self).offset()).0 {
                Ok(b) => r matches Ok(t) && t.spec_bytes() == b,
                Err(e) => r == Err::<&'a str, CodecError>(e),
            },
    {
        let at = self.pos;
        let n = match self.expect(major::TEXT) {
            Ok(n) => n,
            Err(e) => return Err(e),
        };
        let raw = match self.take(n as usize) {
            Ok(b) => b,
            Err(e) => return Err(e),
        };
        let s = match utf8_str(raw) {
            Some(s) => s,
            None => return Err(CodecError::MalformedEnvelope { at }),
        };
        proof {
            vstd::utf8::encode_utf8_decode_utf8(s@);
        }
        if !is_nfc(s) {
            return Err(CodecError::NonDeterministic { at, reason: NonDetReason::NonNfcText });
        }
        Ok(s)
    }

    /// Reads a 32-byte uid. A shorter byte string is a display abbreviation, not an identity.
    pub fn uid(&mut self) -> (r: Result<Uid, CodecError>)
        ensures
            final(self).input() == old(self).input(),
            final(self).offset() == uid_at(old(self).input(), old(self).offset()).1,
            match uid_at(old(self).input(), old(self).offset()).0 {
                Ok(b) => r matches Ok(u) && u.bytes() == b,
                Err(e) => r == Err::<Uid, CodecError>(e),
            },
    {
        let at = self.pos;
        let b = match self.bytes() {
            Ok(b) => b,
            Err(e) => return Err(e),
        };
        if b.len() != 32 {
            return Err(CodecError::TruncatedUid { at, len: b.len() });
        }
        let mut a = [0u8; 32];
        let mut i: usize = 0;
        while i < 32
            invariant
                i <= 32,
                b@.len() == 32,
                forall|j: int| 0 <= j < i ==> a@[j] == b@[j],
            decreases 32 - i,
        {
            a[i] = b[i];
            i = i + 1;
        }
        assert(a@ =~= b@);
        Ok(Uid::from_bytes(a))
    }

    pub fn array_head(&mut self) -> (r: Result<usize, CodecError>)
        ensures
            final(self).input() == old(self).input(),
            final(self).offset() == expect_at(old(self).input(), old(self).offset(), major::ARRAY).1,
            match expect_at(old(self).input(), old(self).offset(), major::ARRAY).0 {
                Ok(n) => r == Ok::<usize, CodecError>(n as usize),
                Err(e) => r == Err::<usize, CodecError>(e),
            },
    {
        match self.expect(major::ARRAY) {
            Ok(n) => Ok(n as usize),
            Err(e) => Err(e),
        }
    }

    pub fn map_head(&mut self) -> (r: Result<usize, CodecError>)
        ensures
            final(self).input() == old(self).input(),
            final(self).offset() == expect_at(old(self).input(), old(self).offset(), major::MAP).1,
            match expect_at(old(self).input(), old(self).offset(), major::MAP).0 {
                Ok(n) => r == Ok::<usize, CodecError>(n as usize),
                Err(e) => r == Err::<usize, CodecError>(e),
            },
    {
        match self.expect(major::MAP) {
            Ok(n) => Ok(n as usize),
            Err(e) => Err(e),
        }
    }

    /// Reads a uid set: an array of uids that must ascend strictly by bytes, so a repeated
    /// element is refused like an unsorted one.
    pub fn uid_set(&mut self) -> (r: Result<Vec<Uid>, CodecError>)
        ensures
            final(self).input() == old(self).input(),
            final(self).offset() == uid_set_at(old(self).input(), old(self).offset()).1,
            match uid_set_at(old(self).input(), old(self).offset()).0 {
                Ok(us) => r matches Ok(v) && v@.len() == us.len() && (forall|i: int|
                    0 <= i < us.len() ==> #[trigger] v@[i].bytes() == us[i]) && uids_sorted(v@),
                Err(e) => r == Err::<Vec<Uid>, CodecError>(e),
            },
    {
        let ghost s = self.input();
        let at = self.pos;
        proof {
            let (r0, q0) = expect_at(s, at as int, major::ARRAY);
            if let Ok(n0) = r0 {
                lemma_uids_at_sorted(s, q0, (n0 as usize) as nat, None, at as int);
            }
        }
        let n = match self.array_head() {
            Ok(n) => n,
            Err(e) => return Err(e),
        };
        let ghost q0 = self.offset();
        let mut out: Vec<Uid> = Vec::new();
        let mut prev: Option<Uid> = None;
        let mut i: usize = 0;
        while i < n
            invariant
                i <= n,
                self.input() == s,
                s == old(self).input(),
                at == old(self).offset(),
                uid_set_at(s, at as int) == uids_at(s, q0, n as nat, None, at as int),
                out@.len() == i,
                prev is None <==> i == 0,
                prev matches Some(pu) ==> pu.bytes() == out@[i - 1].bytes(),
                ({
                    let (total, qt) = uids_at(s, q0, n as nat, None, at as int);
                    let (rest, qr) = uids_at(s, self.offset(), (n - i) as nat, match prev {
                        Some(pu) => Some(pu.bytes()),
                        None => None,
                    }, at as int);
                    qt == qr && match rest {
                        Err(e) => total == Err::<Seq<Seq<u8>>, CodecError>(e),
                        Ok(us) => total == Ok::<Seq<Seq<u8>>, CodecError>(
                            Seq::new(i as nat, |j: int| out@[j].bytes()) + us,
                        ),
                    }
                }),
            decreases n - i,
        {
            let ghost pb = match prev {
                Some(pu) => Some(pu.bytes()),
                None => None::<Seq<u8>>,
            };
            let ghost p0 = self.offset();
            let u = match self.uid() {
                Ok(u) => u,
                Err(e) => {
                    return Err(e);
                },
            };
            if let Some(pu) = prev {
                if !uid_lt(&pu, &u) {
                    return Err(CodecError::NonDeterministic { at, reason: NonDetReason::UnsortedSet });
                }
            }
            let ghost before = Seq::new(i as nat, |j: int| out@[j].bytes());
            out.push(u);
            prev = Some(u);
            proof {
                let ghost after = Seq::new((i + 1) as nat, |j: int| out@[j].bytes());
                assert(after =~= before.push(u.bytes()));
                let (rest, qr) = uids_at(s, self.offset(), (n - i - 1) as nat, Some(u.bytes()), at as int);
                match rest {
                    Ok(us) => {
                        assert(before + (seq![u.bytes()] + us) =~= after + us);
                    },
                    Err(_) => {},
                }
            }
            i = i + 1;
        }
        proof {
            let us = Seq::new(n as nat, |j: int| out@[j].bytes());
            assert(us + Seq::<Seq<u8>>::empty() =~= us);
            assert(uid_set_at(s, at as int).0 == Ok::<Seq<Seq<u8>>, CodecError>(us));
            assert forall|i: int, j: int| 0 <= i < j < out@.len() implies bytes_lt(
                #[trigger] out@[i].bytes(),
                #[trigger] out@[j].bytes(),
            ) by {
                assert(us[i] == out@[i].bytes() && us[j] == out@[j].bytes());
            }
        }
        Ok(out)
    }

    /// Reads a map key, which must ascend strictly after `prev`; a repeat is told apart from
    /// a key out of order.
    pub fn map_key(&mut self, prev: Option<u16>) -> (r: Result<u16, CodecError>)
        ensures
            final(self).input() == old(self).input(),
            r == map_key_at(old(self).input(), old(self).offset(), prev).0,
            final(self).offset() == map_key_at(old(self).input(), old(self).offset(), prev).1,
    {
        let at = self.pos;
        let k = match self.uint() {
            Ok(k) => k,
            Err(e) => return Err(e),
        };
        if k > 0xFFFF {
            return Err(CodecError::MalformedEnvelope { at });
        }
        let k = k as u16;
        match prev {
            Some(p) => {
                if k == p {
                    return Err(CodecError::NonDeterministic { at, reason: NonDetReason::DuplicateMapKey });
                }
                if k < p {
                    return Err(CodecError::NonDeterministic { at, reason: NonDetReason::UnsortedMapKeys });
                }
                Ok(k)
            },
            None => Ok(k),
        }
    }

    /// Refuses `null` where an absent optional belongs: an absent optional is omitted.
    pub fn reject_null(&self) -> (r: Result<(), CodecError>)
        ensures
            r == (match peek_at(self.input(), self.offset()) {
                Err(e) => Err(e),
                Ok(b) => if b == NULL {
                    Err(CodecError::NonDeterministic { at: self.offset() as usize, reason: NonDetReason::NullOptional })
                } else {
                    Ok(())
                },
            }),
    {
        match self.peek_byte() {
            Err(e) => Err(e),
            Ok(b) => if b == NULL {
                Err(CodecError::NonDeterministic { at: self.pos, reason: NonDetReason::NullOptional })
            } else {
                Ok(())
            },
        }
    }

    /// Skips one complete item and returns its bytes, so an unknown key can be kept verbatim.
    pub fn skip_item(&mut self) -> (r: Result<&'a [u8], CodecError>)
        ensures
            final(self).input() == old(self).input(),
            final(self).offset() == skip_at(old(self).input(), old(self).offset(), 0).1,
            match skip_at(old(self).input(), old(self).offset(), 0).0 {
                Ok(()) => r matches Ok(b) && b@ == old(self).input().subrange(old(self).offset(), final(self).offset()),
                Err(e) => r == Err::<&'a [u8], CodecError>(e),
            },
    {
        let start = self.pos;
        match self.skip_one(0) {
            Ok(()) => {},
            Err(e) => return Err(e),
        }
        proof {
            lemma_skip_advances(self.input(), start as int, 0);
        }
        Ok(vstd::slice::slice_subrange(self.buf, start, self.pos))
    }

    fn skip_one(&mut self, depth: usize) -> (r: Result<(), CodecError>)
        requires
            depth <= MAX_NESTING + 1,
        ensures
            final(self).input() == old(self).input(),
            r == skip_at(old(self).input(), old(self).offset(), depth as int).0,
            final(self).offset() == skip_at(old(self).input(), old(self).offset(), depth as int).1,
        decreases depth_bound() - depth,
    {
        if depth > MAX_NESTING {
            return Err(CodecError::NestingTooDeep { at: self.pos, limit: MAX_NESTING });
        }
        if self.pos >= self.buf.len() {
            return Err(CodecError::Truncated { at: self.pos });
        }
        let b = self.buf[self.pos];
        if b == NULL {
            return Err(CodecError::NonDeterministic { at: self.pos, reason: NonDetReason::NullOptional });
        }
        if b / 32 == major::SIMPLE {
            if b == F32_HEAD {
                self.pos = self.pos + 1;
                return match self.take(4) {
                    Ok(_) => Ok(()),
                    Err(e) => Err(e),
                };
            } else if b == 0xF4 || b == 0xF5 {
                self.pos = self.pos + 1;
                return Ok(());
            } else {
                return Err(CodecError::MalformedEnvelope { at: self.pos });
            }
        }
        let ghost s = self.input();
        let ghost p0 = self.offset();
        let (m, arg) = match self.head() {
            Ok(h) => h,
            Err(e) => return Err(e),
        };
        if m == major::UINT || m == major::NEGINT {
            Ok(())
        } else if m == major::BYTES || m == major::TEXT {
            match self.take(arg as usize) {
                Ok(_) => Ok(()),
                Err(e) => Err(e),
            }
        } else if m == major::ARRAY || m == major::MAP {
            let per: u64 = if m == major::ARRAY { 1 } else { 2 };
            assert(skip_at(s, p0, depth as int) == skip_items_at(s, self.offset(), depth + 1, per * arg));
            let mut k: u64 = 0;
            while k < arg
                invariant
                    k <= arg,
                    depth < MAX_NESTING + 1,
                    self.input() == s,
                    s == old(self).input(),
                    p0 == old(self).offset(),
                    per == 1 || per == 2,
                    skip_at(s, p0, depth as int) == skip_items_at(s, self.offset(), depth + 1, per * (arg - k)),
                decreases arg - k,
            {
                assert(per * (arg - k) > 0) by (nonlinear_arith)
                    requires
                        per >= 1,
                        arg - k > 0,
                ;
                match self.skip_one(depth + 1) {
                    Ok(()) => {},
                    Err(e) => {
                        return Err(e);
                    },
                }
                assert(skip_at(s, p0, depth as int) == skip_items_at(s, self.offset(), depth + 1, per * (arg - k) - 1));
                if per == 2 {
                    assert(per * (arg - k) - 1 > 0);
                    match self.skip_one(depth + 1) {
                        Ok(()) => {},
                        Err(e) => {
                            return Err(e);
                        },
                    }
                    assert(per * (arg - k) - 2 == per * (arg - (k + 1)));
                } else {
                    assert(per * (arg - k) - 1 == per * (arg - (k + 1)));
                }
                k = k + 1;
            }
            Ok(())
        } else {
            Err(CodecError::MalformedEnvelope { at: self.pos })
        }
    }
}

/// A successful skip never moves backwards.
proof fn lemma_skip_advances(s: Seq<u8>, p: int, depth: int)
    requires
        skip_at(s, p, depth).0 is Ok,
    ensures
        p <= skip_at(s, p, depth).1 <= s.len(),
    decreases depth_bound() - depth, 0int,
{
    let (r, q) = head_at(s, p);
    if depth <= MAX_NESTING && 0 <= p < s.len() && s[p] != NULL && s[p] / 32 != major::SIMPLE {
        if let Ok((m, a)) = r {
            if m == major::ARRAY {
                lemma_skip_items_advance(s, q, depth + 1, a as int);
            } else if m == major::MAP {
                lemma_skip_items_advance(s, q, depth + 1, 2 * a);
            }
        }
    }
}

proof fn lemma_skip_items_advance(s: Seq<u8>, p: int, depth: int, n: int)
    requires
        skip_items_at(s, p, depth, n).0 is Ok,
        0 <= p <= s.len(),
    ensures
        p <= skip_items_at(s, p, depth, n).1 <= s.len(),
    decreases depth_bound() - depth, if n > 0 { n } else { 0 },
{
    if n > 0 && depth <= MAX_NESTING + 1 {
        lemma_skip_advances(s, p, depth);
        let q = skip_at(s, p, depth).1;
        lemma_skip_items_advance(s, q, depth, n - 1);
    }
}

} // verus!
