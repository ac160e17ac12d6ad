//! The pack self-description on the wire: its budget and use, the units it dropped with a
//! reason and the units it degraded with a level of detail, how it was chosen, and the cost
//! model it was built under. Its one number that is not whole, the optimality gap, travels as
//! a quantised `binary32`, held here by its bit pattern.

use vstd::prelude::*;

use crate::cbor::decode::{bad, extra_view, lemma_u16_keys_total, malformed, null_check};
use crate::cbor::envelope::{opt_entry, text_bytes, text_item, uint_bytes, extra_above, extra_entries};
use crate::cbor::keys;
use crate::cbor::major;
use crate::cbor::F32_HEAD;
use crate::cbor::payloads::{array_entry, close_map, lemma_fields_ascend};
use crate::cbor::reader::{expect_at, map_key_at, peek_at, skip_at, text_at, uid_at, Dec};
use crate::cbor::writer::{head_bytes, map_bytes, uid_item, Enc, MapBuilder};
use crate::error::CodecError;
use crate::ids::{label_shaped, ThreadId, Uid};
use crate::types::annex::{DropReason, Optimality, PackInfo, PackMode};
use crate::types::epistemics::Lod;
use crate::types::Extra;
use vstd::utf8::decode_utf8;

verus! {

/// `m` is a multiple of `2^k`.
pub open spec fn low_zero(m: nat, k: nat) -> bool
    decreases k,
{
    if k == 0 {
        true
    } else {
        m % 2 == 0 && low_zero(m / 2, (k - 1) as nat)
    }
}

/// The `binary32` value with bit pattern `b` is finite, stays finite when scaled by 1024, and
/// is then a whole number: an exact multiple of 1/1024. With exponent field `e` and fraction
/// `f`, the value is `f * 2^-149` when `e` is zero and `(2^23 + f) * 2^(e - 150)` otherwise;
/// scaling by 1024 overflows from `e = 245` on, and `e = 255` is not finite.
pub open spec fn bits_quantised(b: u32) -> bool {
    let e = (b / 0x80_0000) % 256;
    let f = b % 0x80_0000;
    if e >= 245 {
        false
    } else if e == 0 {
        f == 0
    } else if e >= 140 {
        true
    } else {
        low_zero((f + 0x80_0000) as nat, (140 - e) as nat)
    }
}

fn is_low_zero(m: u32, k: u32) -> (r: bool)
    ensures
        r == low_zero(m as nat, k as nat),
{
    let mut x = m;
    let mut j = k;
    let mut ok = true;
    while j > 0 && ok
        invariant
            low_zero(m as nat, k as nat) == (ok && low_zero(x as nat, j as nat)),
        decreases j, (if ok { 1int } else { 0int }),
    {
        if x % 2 != 0 {
            ok = false;
        } else {
            x = x / 2;
            j = j - 1;
        }
    }
    ok
}

/// Whether `b` is the bit pattern of a quantised `binary32`.
pub fn is_quantised_bits(b: u32) -> (r: bool)
    ensures
        r == bits_quantised(b),
{
    let e = (b / 0x80_0000) % 256;
    let f = b % 0x80_0000;
    if e >= 245 {
        false
    } else if e == 0 {
        f == 0
    } else if e >= 140 {
        true
    } else {
        is_low_zero(f + 0x80_0000, 140 - e)
    }
}

/// The four bytes of `b`, most significant first.
pub open spec fn be32_bytes(b: u32) -> Seq<u8> {
    seq![(b / 0x100_0000) as u8, ((b / 0x1_0000) % 256) as u8, ((b / 0x100) % 256) as u8, (b % 256) as u8]
}

/// The number four bytes spell, most significant first.
pub open spec fn be32_value(x: Seq<u8>) -> u32 {
    (x[0] * 0x100_0000 + x[1] * 0x1_0000 + x[2] * 0x100 + x[3]) as u32
}

/// A `binary32` item by its bit pattern.
pub open spec fn f32_item(b: u32) -> Seq<u8> {
    seq![F32_HEAD] + be32_bytes(b)
}

/// Reading a quantised `binary32` at `p`: any other initial byte is a float of the wrong
/// width, four bytes must follow, and their value must be quantised.
pub open spec fn f32q_at(s: Seq<u8>, p: int) -> (Result<u32, CodecError>, int) {
    match peek_at(s, p) {
        Err(e) => (Err(e), p),
        Ok(b) => if b != F32_HEAD {
            (Err(CodecError::Float { at: p as usize }), p + 1)
        } else if p + 5 > s.len() {
            (Err(CodecError::Truncated { at: (p + 1) as usize }), p + 1)
        } else if !bits_quantised(be32_value(s.subrange(p + 1, p + 5))) {
            (Err(CodecError::Float { at: p as usize }), p + 5)
        } else {
            (Ok(be32_value(s.subrange(p + 1, p + 5))), p + 5)
        },
    }
}

/// Writes the bit pattern of a quantised `binary32` as its item.
pub fn enc_f32_bits(e: &mut Enc, b: u32)
    ensures
        final(e)@ == old(e)@ + f32_item(b),
{
    let x = [
        F32_HEAD,
        (b / 0x100_0000) as u8,
        ((b / 0x1_0000) % 256) as u8,
        ((b / 0x100) % 256) as u8,
        (b % 256) as u8,
    ];
    e.raw(&x);
    assert(x@ =~= f32_item(b));
}

/// Reads a quantised `binary32` by its bit pattern.
pub fn dec_f32_bits(d: &mut Dec) -> (r: Result<u32, CodecError>)
    ensures
        final(d).input() == old(d).input(),
        final(d).offset() == f32q_at(old(d).input(), old(d).offset()).1,
        r == f32q_at(old(d).input(), old(d).offset()).0,
{
    let at = d.position();
    proof {
        d.lemma_input_fits();
    }
    let b = match d.peek_byte() {
        Ok(b) => b,
        Err(e) => return Err(e),
    };
    if b != F32_HEAD {
        d.advance(1);
        return Err(CodecError::Float { at });
    }
    if d.remaining() < 5 {
        d.advance(1);
        return Err(CodecError::Truncated { at: at + 1 });
    }
    d.advance(5);
    let raw = d.read_since(at + 1);
    let bits: u32 = (raw[0] as u32) * 0x100_0000 + (raw[1] as u32) * 0x1_0000 + (raw[2] as u32) * 0x100
        + raw[3] as u32;
    if !is_quantised_bits(bits) {
        return Err(CodecError::Float { at });
    }
    Ok(bits)
}

/// Whether `v` is the wire code of a drop reason, or of a level of detail where `lod`.
pub open spec fn pair_code_ok(lod: bool, v: u8) -> bool {
    if lod {
        exists|k: Lod| k.code_view() == v
    } else {
        exists|k: DropReason| k.code_view() == v
    }
}

/// Reading a pair at `p`: an array of a uid and a code, a drop reason's or, where `lod`, a
/// level of detail's. Any other shape is malformed at the pair.
pub open spec fn pair_at(s: Seq<u8>, p: int, lod: bool) -> (Result<(Seq<u8>, u8), CodecError>, int) {
    let (r, q) = expect_at(s, p, major::ARRAY);
    match r {
        Err(e) => (Err(e), q),
        Ok(m) => if (m as usize) != 2 {
            (Err(bad(p)), q)
        } else {
            let (ru, q1) = uid_at(s, q);
            match ru {
                Err(e) => (Err(e), q1),
                Ok(u) => {
                    let (rv, q2) = expect_at(s, q1, major::UINT);
                    match rv {
                        Err(e) => (Err(e), q2),
                        Ok(v) => if v > 255 || !pair_code_ok(lod, v as u8) {
                            (Err(bad(p)), q2)
                        } else {
                            (Ok((u, v as u8)), q2)
                        },
                    }
                },
            }
        },
    }
}

/// Reading `n` more pairs from `p`, in the order they come.
pub open spec fn pairs_walk(s: Seq<u8>, p: int, n: nat, lod: bool) -> (Result<Seq<(Seq<u8>, u8)>, CodecError>, int)
    decreases n,
{
    if n == 0 {
        (Ok(Seq::empty()), p)
    } else {
        let (r, q) = pair_at(s, p, lod);
        match r {
            Err(e) => (Err(e), q),
            Ok(x) => {
                let (rest, q2) = pairs_walk(s, q, (n - 1) as nat, lod);
                match rest {
                    Err(e) => (Err(e), q2),
                    Ok(xs) => (Ok(seq![x] + xs), q2),
                }
            },
        }
    }
}

/// Reading an array of pairs at `p`.
pub open spec fn pairs_at(s: Seq<u8>, p: int, lod: bool) -> (Result<Seq<(Seq<u8>, u8)>, CodecError>, int) {
    let (r, q) = expect_at(s, p, major::ARRAY);
    match r {
        Err(e) => (Err(e), q),
        Ok(n) => pairs_walk(s, q, (n as usize) as nat, lod),
    }
}

/// Reads one pair: a uid and a valid code.
fn dec_pair(d: &mut Dec, lod: bool) -> (r: Result<(Uid, u8), CodecError>)
    ensures
        final(d).input() == old(d).input(),
        final(d).offset() == pair_at(old(d).input(), old(d).offset(), lod).1,
        match pair_at(old(d).input(), old(d).offset(), lod).0 {
            Ok(x) => r matches Ok(y) && y.0.bytes() == x.0 && y.1 == x.1,
            Err(e) => r == Err::<(Uid, u8), CodecError>(e),
        },
{
    let a = d.position();
    let m = match d.array_head() {
        Ok(m) => m,
        Err(e) => return Err(e),
    };
    if m != 2 {
        return Err(malformed(a));
    }
    let u = match d.uid() {
        Ok(u) => u,
        Err(e) => return Err(e),
    };
    let v = match d.uint() {
        Ok(v) => v,
        Err(e) => return Err(e),
    };
    if v > 255 {
        return Err(malformed(a));
    }
    let ok = if lod {
        Lod::from_u8(v as u8).is_some()
    } else {
        DropReason::from_u8(v as u8).is_some()
    };
    if !ok {
        return Err(malformed(a));
    }
    Ok((u, v as u8))
}

/// The dropped units of a pack by their uids and reasons' codes.
pub open spec fn dropped_view(v: Seq<(Uid, DropReason)>) -> Seq<(Seq<u8>, u8)> {
    v.map_values(|x: (Uid, DropReason)| (x.0.bytes(), x.1.code_view()))
}

/// The degraded units of a pack by their uids and levels' codes.
pub open spec fn degraded_view(v: Seq<(Uid, Lod)>) -> Seq<(Seq<u8>, u8)> {
    v.map_values(|x: (Uid, Lod)| (x.0.bytes(), x.1.code_view()))
}

/// Reads the dropped units of a pack, in the order they come.
pub fn dec_dropped(d: &mut Dec) -> (r: Result<Vec<(Uid, DropReason)>, CodecError>)
    ensures
        final(d).input() == old(d).input(),
        match pairs_at(old(d).input(), old(d).offset(), false).0 {
            Ok(v) => r matches Ok(xs) && dropped_view(xs@) == v && final(d).offset() == pairs_at(
                old(d).input(),
                old(d).offset(),
                false,
            ).1,
            Err(e) => r == Err::<Vec<(Uid, DropReason)>, CodecError>(e),
        },
{
    let ghost s = d.input();
    let n = match d.array_head() {
        Ok(n) => n,
        Err(e) => return Err(e),
    };
    let ghost q0 = d.offset();
    let mut out: Vec<(Uid, DropReason)> = Vec::new();
    let mut i: usize = 0;
    while i < n
        invariant
            i <= n,
            d.input() == s,
            s == old(d).input(),
            expect_at(s, old(d).offset(), major::ARRAY).0 matches Ok(n0) && (n0 as usize) == n,
            expect_at(s, old(d).offset(), major::ARRAY).1 == q0,
            out@.len() == i,
            ({
                let (total, qt) = pairs_walk(s, q0, n as nat, false);
                let (rest, qr) = pairs_walk(s, d.offset(), (n - i) as nat, false);
                qt == qr && match rest {
                    Err(e) => total == Err::<Seq<(Seq<u8>, u8)>, CodecError>(e),
                    Ok(xs) => total == Ok::<Seq<(Seq<u8>, u8)>, CodecError>(dropped_view(out@) + xs),
                }
            }),
        decreases n - i,
    {
        let (u, c) = match dec_pair(d, false) {
            Ok(x) => x,
            Err(e) => return Err(e),
        };
        let k = match DropReason::from_u8(c) {
            Some(k) => k,
            None => return Err(malformed(0)),
        };
        let ghost before = dropped_view(out@);
        out.push((u, k));
        proof {
            let after = dropped_view(out@);
            assert(after =~= before.push((u.bytes(), c)));
            let (rest, qr) = pairs_walk(s, d.offset(), (n - i - 1) as nat, false);
            match rest {
                Ok(xs) => {
                    assert(before + (seq![(u.bytes(), c)] + xs) =~= after + xs);
                },
                Err(_) => {},
            }
        }
        i = i + 1;
    }
    proof {
        let v = dropped_view(out@);
        assert(v + Seq::<(Seq<u8>, u8)>::empty() =~= v);
    }
    Ok(out)
}

/// Reads the degraded units of a pack, in the order they come.
pub fn dec_degraded(d: &mut Dec) -> (r: Result<Vec<(Uid, Lod)>, CodecError>)
    ensures
        final(d).input() == old(d).input(),
        match pairs_at(old(d).input(), old(d).offset(), true).0 {
            Ok(v) => r matches Ok(xs) && degraded_view(xs@) == v && final(d).offset() == pairs_at(
                old(d).input(),
                old(d).offset(),
                true,
            ).1,
            Err(e) => r == Err::<Vec<(Uid, Lod)>, CodecError>(e),
        },
{
    let ghost s = d.input();
    let n = match d.array_head() {
        Ok(n) => n,
        Err(e) => return Err(e),
    };
    let ghost q0 = d.offset();
    let mut out: Vec<(Uid, Lod)> = Vec::new();
    let mut i: usize = 0;
    while i < n
        invariant
            i <= n,
            d.input() == s,
            s == old(d).input(),
            expect_at(s, old(d).offset(), major::ARRAY).0 matches Ok(n0) && (n0 as usize) == n,
            expect_at(s, old(d).offset(), major::ARRAY).1 == q0,
            out@.len() == i,
            ({
                let (total, qt) = pairs_walk(s, q0, n as nat, true);
                let (rest, qr) = pairs_walk(s, d.offset(), (n - i) as nat, true);
                qt == qr && match rest {
                    Err(e) => total == Err::<Seq<(Seq<u8>, u8)>, CodecError>(e),
                    Ok(xs) => total == Ok::<Seq<(Seq<u8>, u8)>, CodecError>(degraded_view(out@) + xs),
                }
            }),
        decreases n - i,
    {
        let (u, c) = match dec_pair(d, true) {
            Ok(x) => x,
            Err(e) => return Err(e),
        };
        let k = match Lod::from_u8(c) {
            Some(k) => k,
            None => return Err(malformed(0)),
        };
        let ghost before = degraded_view(out@);
        out.push((u, k));
        proof {
            let after = degraded_view(out@);
            assert(after =~= before.push((u.bytes(), c)));
            let (rest, qr) = pairs_walk(s, d.offset(), (n - i - 1) as nat, true);
            match rest {
                Ok(xs) => {
                    assert(before + (seq![(u.bytes(), c)] + xs) =~= after + xs);
                },
                Err(_) => {},
            }
        }
        i = i + 1;
    }
    proof {
        let v = degraded_view(out@);
        assert(v + Seq::<(Seq<u8>, u8)>::empty() =~= v);
    }
    Ok(out)
}

/// The pack mode with wire code `v`, if there is one.
pub open spec fn pack_mode_of(v: u8) -> Option<PackMode> {
    if exists|k: PackMode| k.code_view() == v {
        Some(choose|k: PackMode| k.code_view() == v)
    } else {
        None
    }
}

/// Reading how a pack was chosen, at `p`: an array of a mode's code and a quantised gap.
pub open spec fn optimality_at(s: Seq<u8>, p: int) -> (Result<(PackMode, u32), CodecError>, int) {
    let (r, q) = expect_at(s, p, major::ARRAY);
    match r {
        Err(e) => (Err(e), q),
        Ok(m) => if (m as usize) != 2 {
            (Err(bad(p)), q)
        } else {
            let (rv, q1) = expect_at(s, q, major::UINT);
            match rv {
                Err(e) => (Err(e), q1),
                Ok(v) => if v > 255 || pack_mode_of(v as u8) is None {
                    (Err(bad(p)), q1)
                } else {
                    let (rg, q2) = f32q_at(s, q1);
                    match rg {
                        Err(e) => (Err(e), q2),
                        Ok(g) => (Ok((pack_mode_of(v as u8)->Some_0, g)), q2),
                    }
                },
            }
        },
    }
}

/// Reads how a pack was chosen.
pub fn dec_optimality(d: &mut Dec) -> (r: Result<Optimality, CodecError>)
    ensures
        final(d).input() == old(d).input(),
        final(d).offset() == optimality_at(old(d).input(), old(d).offset()).1,
        match optimality_at(old(d).input(), old(d).offset()).0 {
            Ok(v) => r matches Ok(o) && (o.mode, o.gap) == v,
            Err(e) => r == Err::<Optimality, CodecError>(e),
        },
{
    let a = d.position();
    let m = match d.array_head() {
        Ok(m) => m,
        Err(e) => return Err(e),
    };
    if m != 2 {
        return Err(malformed(a));
    }
    let v = match d.uint() {
        Ok(v) => v,
        Err(e) => return Err(e),
    };
    if v > 255 {
        return Err(malformed(a));
    }
    let mode = match PackMode::from_u8(v as u8) {
        Some(k) => k,
        None => return Err(malformed(a)),
    };
    let gap = match dec_f32_bits(d) {
        Ok(g) => g,
        Err(e) => return Err(e),
    };
    Ok(Optimality { mode, gap })
}

/// A pack's self-description as the reader sees it.
pub struct PackInfoView {
    pub budget: u64,
    pub used: u64,
    pub thread: Option<Seq<char>>,
    pub dropped: Seq<(Seq<u8>, u8)>,
    pub degraded: Seq<(Seq<u8>, u8)>,
    pub mode: PackMode,
    pub gap: u32,
    pub estimator: Seq<char>,
    pub extra: Map<u16, Seq<u8>>,
}

/// What a pack's self-description holds before its map is read: nothing used of no budget,
/// nothing dropped or degraded, chosen greedily with no gap, and no estimator named.
pub open spec fn no_packinfo_fields() -> PackInfoView {
    PackInfoView {
        budget: 0,
        used: 0,
        thread: None,
        dropped: Seq::empty(),
        degraded: Seq::empty(),
        mode: PackMode::Greedy,
        gap: 0,
        estimator: Seq::empty(),
        extra: Map::empty(),
    }
}

pub open spec fn opt_thread_view(t: Option<ThreadId>) -> Option<Seq<char>> {
    match t {
        Some(x) => Some(x@),
        None => None,
    }
}

/// A pack's self-description by its plain values.
pub open spec fn packinfo_view(p: PackInfo) -> PackInfoView {
    PackInfoView {
        budget: p.budget,
        used: p.used,
        thread: opt_thread_view(p.thread),
        dropped: dropped_view(p.dropped@),
        degraded: degraded_view(p.degraded@),
        mode: p.optimality.mode,
        gap: p.optimality.gap,
        estimator: p.estimator@,
        extra: extra_view(p.extra@),
    }
}

/// Reading the value under key `k` of a pack's map that began at `at`.
#[verifier::opaque]
pub open spec fn packinfo_value(s: Seq<u8>, at: int, p: int, k: u16, st: PackInfoView) -> (Result<PackInfoView, CodecError>, int) {
    if k == keys::packinfo::BUDGET || k == keys::packinfo::USED {
        let (r, q) = expect_at(s, p, major::UINT);
        match r {
            Err(e) => (Err(e), q),
            Ok(v) => if k == keys::packinfo::BUDGET {
                (Ok(PackInfoView { budget: v, ..st }), q)
            } else {
                (Ok(PackInfoView { used: v, ..st }), q)
            },
        }
    } else if k == keys::packinfo::THREAD || k == keys::packinfo::ESTIMATOR {
        let (r, q) = text_at(s, p);
        match r {
            Err(e) => (Err(e), q),
            Ok(b) => if k == keys::packinfo::ESTIMATOR {
                (Ok(PackInfoView { estimator: decode_utf8(b), ..st }), q)
            } else if !label_shaped(decode_utf8(b)) {
                (Err(bad(at)), q)
            } else {
                (Ok(PackInfoView { thread: Some(decode_utf8(b)), ..st }), q)
            },
        }
    } else if k == keys::packinfo::DROPPED || k == keys::packinfo::DEGRADED {
        let (r, q) = pairs_at(s, p, k == keys::packinfo::DEGRADED);
        match r {
            Err(e) => (Err(e), q),
            Ok(xs) => if k == keys::packinfo::DROPPED {
                (Ok(PackInfoView { dropped: xs, ..st }), q)
            } else {
                (Ok(PackInfoView { degraded: xs, ..st }), q)
            },
        }
    } else if k == keys::packinfo::OPTIMALITY {
        let (r, q) = optimality_at(s, p);
        match r {
            Err(e) => (Err(e), q),
            Ok(o) => (Ok(PackInfoView { mode: o.0, gap: o.1, ..st }), q),
        }
    } else {
        let (r, q) = skip_at(s, p, 0);
        match r {
            Err(e) => (Err(e), q),
            Ok(_) => (Ok(PackInfoView { extra: st.extra.insert(k, s.subrange(p, q)), ..st }), q),
        }
    }
}

/// Reading the `n` remaining entries of a pack's map from `p`, after key `prev`.
#[verifier::opaque]
pub open spec fn packinfo_walk(s: Seq<u8>, at: int, p: int, n: nat, prev: Option<u16>, st: PackInfoView) -> (Result<PackInfoView, CodecError>, int)
    decreases n,
{
    if n == 0 {
        (Ok(st), p)
    } else {
        let (rk, p1) = map_key_at(s, p, prev);
        match rk {
            Err(e) => (Err(e), p1),
            Ok(k) => match null_check(s, p1) {
                Some(e) => (Err(e), p1),
                None => {
                    let (r, p2) = packinfo_value(s, at, p1, k, st);
                    match r {
                        Err(e) => (Err(e), p2),
                        Ok(st2) => packinfo_walk(s, at, p2, (n - 1) as nat, Some(k), st2),
                    }
                },
            },
        }
    }
}

/// Reading a pack's self-description at `p`: every field has a default.
pub open spec fn packinfo_at(s: Seq<u8>, p: int) -> (Result<PackInfoView, CodecError>, int) {
    let (r, q) = expect_at(s, p, major::MAP);
    match r {
        Err(e) => (Err(e), q),
        Ok(n) => packinfo_walk(s, p, q, (n as usize) as nat, None, no_packinfo_fields()),
    }
}

/// The fields of a pack's self-description held so far, by their plain values.
pub open spec fn packinfo_fields_view(
    budget: u64,
    used: u64,
    thread: Option<ThreadId>,
    dropped: Seq<(Uid, DropReason)>,
    degraded: Seq<(Uid, Lod)>,
    optimality: Optimality,
    estimator: Seq<char>,
    extra: Map<u16, Vec<u8>>,
) -> PackInfoView {
    PackInfoView {
        budget,
        used,
        thread: opt_thread_view(thread),
        dropped: dropped_view(dropped),
        degraded: degraded_view(degraded),
        mode: optimality.mode,
        gap: optimality.gap,
        estimator,
        extra: extra_view(extra),
    }
}

/// Reads a pack's self-description: each known key to its field, each unknown key kept
/// verbatim; a field the map does not hold keeps its default.
pub fn dec_packinfo(d: &mut Dec) -> (r: Result<PackInfo, CodecError>)
    ensures
        final(d).input() == old(d).input(),
        match packinfo_at(old(d).input(), old(d).offset()).0 {
            Ok(v) => r matches Ok(pk) && packinfo_view(pk) == v && final(d).offset() == packinfo_at(
                old(d).input(),
                old(d).offset(),
            ).1,
            Err(e) => r == Err::<PackInfo, CodecError>(e),
        },
{
    reveal(packinfo_walk);
    let ghost s = d.input();
    let at = d.position();
    let n = match d.map_head() {
        Ok(n) => n,
        Err(e) => return Err(e),
    };
    let ghost q0 = d.offset();
    let mut budget: u64 = 0;
    let mut used: u64 = 0;
    let mut thread: Option<ThreadId> = None;
    let mut dropped: Vec<(Uid, DropReason)> = Vec::new();
    let mut degraded: Vec<(Uid, Lod)> = Vec::new();
    let mut optimality = Optimality { mode: PackMode::Greedy, gap: 0 };
    let mut estimator = String::new();
    let mut extra: Extra = Extra::new();
    let mut prev: Option<u16> = None;
    let mut i: usize = 0;
    assert(extra_view(extra@) =~= Map::<u16, Seq<u8>>::empty());
    assert(dropped_view(dropped@) =~= Seq::<(Seq<u8>, u8)>::empty());
    assert(degraded_view(degraded@) =~= Seq::<(Seq<u8>, u8)>::empty());
    while i < n
        invariant
            i <= n,
            d.input() == s,
            s == old(d).input(),
            at == old(d).offset(),
            expect_at(s, at as int, major::MAP).0 matches Ok(n0) && (n0 as usize) == n,
            expect_at(s, at as int, major::MAP).1 == q0,
            packinfo_walk(s, at as int, q0, n as nat, None, no_packinfo_fields()) == packinfo_walk(
                s,
                at as int,
                d.offset(),
                (n - i) as nat,
                prev,
                packinfo_fields_view(budget, used, thread, dropped@, degraded@, optimality, estimator@, extra@),
            ),
        decreases n - i,
    {
        proof {
            reveal(packinfo_walk);
            reveal(packinfo_value);
        }
        let k = match d.map_key(prev) {
            Ok(k) => k,
            Err(e) => return Err(e),
        };
        match d.reject_null() {
            Ok(()) => {},
            Err(e) => return Err(e),
        }
        let ghost p1 = d.offset();
        if k == keys::packinfo::BUDGET || k == keys::packinfo::USED {
            let v = match d.uint() {
                Ok(v) => v,
                Err(e) => return Err(e),
            };
            if k == keys::packinfo::BUDGET {
                budget = v;
            } else {
                used = v;
            }
        } else if k == keys::packinfo::THREAD || k == keys::packinfo::ESTIMATOR {
            let t = match d.text() {
                Ok(t) => t,
                Err(e) => return Err(e),
            };
            proof {
                vstd::utf8::encode_utf8_decode_utf8(t@);
            }
            if k == keys::packinfo::ESTIMATOR {
                estimator = crate::text::owned(t);
            } else {
                match ThreadId::new(t) {
                    Ok(x) => {
                        thread = Some(x);
                    },
                    Err(_) => return Err(malformed(at)),
                }
            }
        } else if k == keys::packinfo::DROPPED {
            dropped = match dec_dropped(d) {
                Ok(x) => x,
                Err(e) => return Err(e),
            };
        } else if k == keys::packinfo::DEGRADED {
            degraded = match dec_degraded(d) {
                Ok(x) => x,
                Err(e) => return Err(e),
            };
        } else if k == keys::packinfo::OPTIMALITY {
            optimality = match dec_optimality(d) {
                Ok(x) => x,
                Err(e) => return Err(e),
            };
        } else {
            let raw = match d.skip_item() {
                Ok(raw) => raw,
                Err(e) => return Err(e),
            };
            let ghost before = extra@;
            proof {
                lemma_u16_keys_total();
            }
            extra.insert(k, vstd::slice::slice_to_vec(raw));
            proof {
                assert(extra_view(extra@) =~= extra_view(before).insert(k, s.subrange(p1, d.offset())));
            }
        }
        prev = Some(k);
        i = i + 1;
    }
    Ok(PackInfo { budget, used, thread, dropped, degraded, optimality, estimator, extra })
}

/// A pair as an item: an array of a uid and a code.
pub open spec fn pair_item(u: Uid, c: u8) -> Seq<u8> {
    head_bytes(major::ARRAY, 2) + uid_item(u) + head_bytes(major::UINT, c as u64)
}

/// The dropped units of a pack as items, in order.
pub open spec fn dropped_items(v: Seq<(Uid, DropReason)>) -> Seq<Seq<u8>> {
    Seq::new(v.len(), |i: int| pair_item(v[i].0, v[i].1.code_view()))
}

/// The degraded units of a pack as items, in order.
pub open spec fn degraded_items(v: Seq<(Uid, Lod)>) -> Seq<Seq<u8>> {
    Seq::new(v.len(), |i: int| pair_item(v[i].0, v[i].1.code_view()))
}

/// How a pack was chosen, as an item.
pub open spec fn optimality_item(o: Optimality) -> Seq<u8> {
    head_bytes(major::ARRAY, 2) + head_bytes(major::UINT, o.mode.code_view() as u64) + f32_item(o.gap)
}

/// The known fields of a pack's self-description as map entries, ascending by key.
pub open spec fn packinfo_fields(p: PackInfo) -> Seq<(u16, Seq<u8>)> {
    seq![
        (keys::packinfo::BUDGET, head_bytes(major::UINT, p.budget)),
        (keys::packinfo::USED, head_bytes(major::UINT, p.used)),
    ] + opt_entry(
        keys::packinfo::THREAD,
        match p.thread {
            Some(t) => Some(text_item(t@)),
            None => None,
        },
    ) + array_entry(keys::packinfo::DROPPED, dropped_items(p.dropped@)) + array_entry(
        keys::packinfo::DEGRADED,
        degraded_items(p.degraded@),
    ) + seq![
        (keys::packinfo::OPTIMALITY, optimality_item(p.optimality)),
        (keys::packinfo::ESTIMATOR, text_item(p.estimator@)),
    ]
}

/// The canonical bytes of a pack's self-description.
pub open spec fn packinfo_encoding(p: PackInfo) -> Seq<u8> {
    map_bytes(packinfo_fields(p) + extra_entries(p.extra@))
}

fn pair_bytes(u: &Uid, c: u8) -> (b: Vec<u8>)
    ensures
        b@ == pair_item(*u, c),
{
    let mut e = Enc::new();
    e.array_head(2);
    e.uid(u);
    e.uint(c as u64);
    e.into_bytes()
}

/// The canonical bytes of a pack's self-description. Unknown keys carried from a later minor
/// version lie above the known ones.
pub fn packinfo_bytes(p: &PackInfo) -> (b: Vec<u8>)
    requires
        extra_above(p.extra@, keys::packinfo::HIGHEST),
    ensures
        b@ == packinfo_encoding(*p),
{
    let mut dropped: Vec<Vec<u8>> = Vec::new();
    let mut i: usize = 0;
    while i < p.dropped.len()
        invariant
            i <= p.dropped.len(),
            dropped@.len() == i,
            forall|j: int| 0 <= j < i ==> (#[trigger] dropped@[j])@ == dropped_items(p.dropped@)[j],
        decreases p.dropped.len() - i,
    {
        let (u, r) = &p.dropped[i];
        dropped.push(pair_bytes(u, r.as_u8()));
        i = i + 1;
    }
    let mut degraded: Vec<Vec<u8>> = Vec::new();
    let mut i: usize = 0;
    while i < p.degraded.len()
        invariant
            i <= p.degraded.len(),
            degraded@.len() == i,
            forall|j: int| 0 <= j < i ==> (#[trigger] degraded@[j])@ == degraded_items(p.degraded@)[j],
        decreases p.degraded.len() - i,
    {
        let (u, l) = &p.degraded[i];
        degraded.push(pair_bytes(u, l.as_u8()));
        i = i + 1;
    }
    let mut o = Enc::new();
    o.array_head(2);
    o.uint(p.optimality.mode.as_u8() as u64);
    enc_f32_bits(&mut o, p.optimality.gap);
    let opt = o.into_bytes();
    assert(opt@ =~= optimality_item(p.optimality));
    let mut m = MapBuilder::new();
    m.put(keys::packinfo::BUDGET, uint_bytes(p.budget));
    m.put(keys::packinfo::USED, uint_bytes(p.used));
    match &p.thread {
        Some(t) => m.put(keys::packinfo::THREAD, text_bytes(t.as_str())),
        None => {},
    }
    let ghost dv = Seq::new(dropped@.len(), |j: int| dropped@[j]@);
    assert(dv =~= dropped_items(p.dropped@));
    m.put_array(keys::packinfo::DROPPED, dropped);
    let ghost gv = Seq::new(degraded@.len(), |j: int| degraded@[j]@);
    assert(gv =~= degraded_items(p.degraded@));
    m.put_array(keys::packinfo::DEGRADED, degraded);
    m.put(keys::packinfo::OPTIMALITY, opt);
    m.put(keys::packinfo::ESTIMATOR, text_bytes(p.estimator.as_str()));
    assert(m@ =~= packinfo_fields(*p));
    proof {
        lemma_fields_ascend(m@, keys::packinfo::HIGHEST);
    }
    close_map(m, &p.extra, keys::packinfo::HIGHEST)
}

} // verus!
