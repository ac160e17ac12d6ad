//! Header keys the kernel does not know, carried as deterministic CBOR in a unit's payload.
//!
//! Unknown keys are preserved rather than rejected, and a consumer re-emits them verbatim, so
//! the value model of the surface syntax maps to CBOR and back. A payload map's keys are
//! author-chosen names, so they are text, laid out in the order of their encoded bytes (length
//! first, then content): authored order never reaches the bytes, which are hash input. Of two
//! entries under one key the first authored wins. A float travels as a `binary32` quantised to
//! 1/1024; turning the authored text of a float into that bit pattern is float arithmetic, so
//! the caller hands each float text's bits in, and a float the caller gave no bits for has no
//! encoding.

use vstd::prelude::*;

use crate::cbor::envelope::text_item;
use crate::cbor::major;
use crate::cbor::order::{bytes_less, bytes_lt, lemma_bytes_lt_total, lemma_bytes_lt_transitive};
use crate::cbor::packinfo::{enc_f32_bits, f32_item};
use crate::cbor::packinfo::{dec_f32_bits, f32q_at};
use crate::cbor::reader::{expect_at, head_at, peek_at, text_at, Dec};
use crate::cbor::writer::{head_bytes, Enc};
use crate::cbor::{F32_HEAD, NULL};
use crate::diag::Span;
use crate::error::{CodecError, NonDetReason};
use vstd::string::StringSliceAdditionalSpecFns;
use vstd::utf8::{decode_utf8, encode_utf8};
use crate::surface::hjson::{entries_hview, hview, items_hview, HObject, HValue, HView, Spanned};
use crate::cbor::packinfo::bits_quantised;
use crate::text::{chars_of, decimal, decimal_padded, owned, push_char, push_decimal_padded, push_decimal_wide, str_eq};

verus! {

/// The simple value `false`.
pub const FALSE_ITEM: u8 = 0xF4;

/// The simple value `true`.
pub const TRUE_ITEM: u8 = 0xF5;

/// The bits handed in for a float text: those of its first entry.
pub open spec fn float_bits_of(t: Seq<(Seq<char>, u32)>, x: Seq<char>) -> Option<u32>
    decreases t.len(),
{
    if t.len() == 0 {
        None
    } else if t[0].0 == x {
        Some(t[0].1)
    } else {
        float_bits_of(t.drop_first(), x)
    }
}

/// A table of float bits as plain data.
pub open spec fn floats_view(t: Seq<(String, u32)>) -> Seq<(Seq<char>, u32)> {
    t.map_values(|e: (String, u32)| (e.0@, e.1))
}

/// The item of an integer: unsigned for zero and above, negative below.
pub open spec fn int_item(i: i64) -> Seq<u8> {
    if i >= 0 {
        head_bytes(major::UINT, i as u64)
    } else {
        head_bytes(major::NEGINT, (-1 - i) as u64)
    }
}

/// The encoding of a value, or `None` where it holds a float the table gives no bits for.
pub open spec fn value_item(v: HView, fl: Seq<(Seq<char>, u32)>) -> Option<Seq<u8>>
    decreases v,
{
    match v {
        HView::Null => Some(seq![NULL]),
        HView::Bool(b) => Some(seq![if b { TRUE_ITEM } else { FALSE_ITEM }]),
        HView::Int(i) => Some(int_item(i)),
        HView::Float(t) => match float_bits_of(fl, t) {
            Some(b) => Some(f32_item(b)),
            None => None,
        },
        HView::Str(t) => Some(text_item(t)),
        HView::Array(items) => match items_item(items, fl) {
            Some(b) => Some(head_bytes(major::ARRAY, items.len() as u64) + b),
            None => None,
        },
        HView::Object(es) => match entry_pairs(es, fl) {
            Some(ps) => Some(pairs_map(sorted_pairs(ps))),
            None => None,
        },
    }
}

/// The items of an array's elements, one after another.
pub open spec fn items_item(s: Seq<(HView, crate::diag::Span)>, fl: Seq<(Seq<char>, u32)>) -> Option<Seq<u8>>
    decreases s,
{
    if s.len() == 0 {
        Some(Seq::empty())
    } else {
        match (items_item(s.drop_last(), fl), value_item(s.last().0, fl)) {
            (Some(a), Some(b)) => Some(a + b),
            _ => None,
        }
    }
}

/// Each entry of an object as its encoded key and encoded value, in authored order.
pub open spec fn entry_pairs(
    s: Seq<(Seq<char>, crate::diag::Span, HView, crate::diag::Span)>,
    fl: Seq<(Seq<char>, u32)>,
) -> Option<Seq<(Seq<u8>, Seq<u8>)>>
    decreases s,
{
    if s.len() == 0 {
        Some(Seq::empty())
    } else {
        match (entry_pairs(s.drop_last(), fl), value_item(s.last().2, fl)) {
            (Some(a), Some(b)) => Some(a.push((text_item(s.last().0), b))),
            _ => None,
        }
    }
}

/// Where an entry keyed `k` goes among entries in ascending key order: past every smaller key.
pub open spec fn ins_pos(d: Seq<(Seq<u8>, Seq<u8>)>, k: Seq<u8>, j: int) -> int
    decreases d.len() - j,
{
    if j < 0 || j >= d.len() {
        d.len() as int
    } else if bytes_lt(d[j].0, k) {
        ins_pos(d, k, j + 1)
    } else {
        j
    }
}

/// Adding an entry to entries in ascending key order: a key already there keeps its value.
pub open spec fn ins_pair(d: Seq<(Seq<u8>, Seq<u8>)>, p: (Seq<u8>, Seq<u8>)) -> Seq<(Seq<u8>, Seq<u8>)> {
    let j = ins_pos(d, p.0, 0);
    if j < d.len() && d[j].0 == p.0 {
        d
    } else {
        d.insert(j, p)
    }
}

/// Entries in ascending order of their encoded keys, one per key, the first authored winning.
pub open spec fn sorted_pairs(ps: Seq<(Seq<u8>, Seq<u8>)>) -> Seq<(Seq<u8>, Seq<u8>)>
    decreases ps.len(),
{
    if ps.len() == 0 {
        Seq::empty()
    } else {
        ins_pair(sorted_pairs(ps.drop_last()), ps.last())
    }
}

/// Each key followed by its value.
pub open spec fn pairs_bytes(d: Seq<(Seq<u8>, Seq<u8>)>) -> Seq<u8>
    decreases d.len(),
{
    if d.len() == 0 {
        Seq::empty()
    } else {
        pairs_bytes(d.drop_last()) + d.last().0 + d.last().1
    }
}

/// A map of the given entries, in the order given.
pub open spec fn pairs_map(d: Seq<(Seq<u8>, Seq<u8>)>) -> Seq<u8> {
    head_bytes(major::MAP, d.len() as u64) + pairs_bytes(d)
}

/// The payload of an object: none for an empty object, so that a unit with no unknown keys
/// carries no payload rather than an empty one; none where a float has no bits in the table;
/// otherwise the object's map.
pub open spec fn payload_of(es: Seq<(Seq<char>, crate::diag::Span, HView, crate::diag::Span)>, fl: Seq<(Seq<char>, u32)>) -> Option<Seq<u8>> {
    if es.len() == 0 {
        None
    } else {
        value_item(HView::Object(es), fl)
    }
}

// ---------------------------------------------------------------------------
// What the layout of a payload map keeps
// ---------------------------------------------------------------------------

/// Encoded keys strictly ascending.
pub open spec fn keys_ascend(d: Seq<(Seq<u8>, Seq<u8>)>) -> bool {
    forall|i: int, j: int| 0 <= i < j < d.len() ==> bytes_lt(#[trigger] d[i].0, #[trigger] d[j].0)
}

/// Some entry has key `k`.
pub open spec fn has_key(d: Seq<(Seq<u8>, Seq<u8>)>, k: Seq<u8>) -> bool {
    exists|i: int| 0 <= i < d.len() && #[trigger] d[i].0 == k
}

/// The value of the first entry under `k`.
pub open spec fn first_value(ps: Seq<(Seq<u8>, Seq<u8>)>, k: Seq<u8>) -> Seq<u8>
    decreases ps.len(),
{
    if ps.len() == 0 {
        Seq::empty()
    } else if has_key(ps.drop_last(), k) {
        first_value(ps.drop_last(), k)
    } else {
        ps.last().1
    }
}

/// Where `ins_pos` stops: past keys below `k`, at the first that is not.
proof fn lemma_ins_pos(d: Seq<(Seq<u8>, Seq<u8>)>, k: Seq<u8>, j: int)
    requires
        0 <= j <= d.len(),
    ensures
        j <= ins_pos(d, k, j) <= d.len(),
        forall|x: int| j <= x < ins_pos(d, k, j) ==> bytes_lt(#[trigger] d[x].0, k),
        ins_pos(d, k, j) < d.len() ==> !bytes_lt(d[ins_pos(d, k, j)].0, k),
    decreases d.len() - j,
{
    if j < d.len() && bytes_lt(d[j].0, k) {
        lemma_ins_pos(d, k, j + 1);
    }
}

/// Adding an entry keeps encoded keys strictly ascending.
proof fn lemma_ins_pair_ascends(d: Seq<(Seq<u8>, Seq<u8>)>, p: (Seq<u8>, Seq<u8>))
    requires
        keys_ascend(d),
    ensures
        keys_ascend(ins_pair(d, p)),
        forall|k: Seq<u8>| has_key(ins_pair(d, p), k) <==> (has_key(d, k) || k == p.0),
        forall|i: int| 0 <= i < ins_pair(d, p).len() && ins_pair(d, p)[i].0 != p.0 ==> has_key(d, #[trigger] ins_pair(d, p)[i].0)
            && exists|x: int| 0 <= x < d.len() && d[x] == ins_pair(d, p)[i],
        has_key(d, p.0) ==> ins_pair(d, p) == d,
        !has_key(d, p.0) ==> exists|i: int| 0 <= i < ins_pair(d, p).len() && #[trigger] ins_pair(d, p)[i] == p,
{
    let k = p.0;
    let j = ins_pos(d, k, 0);
    lemma_ins_pos(d, k, 0);
    if j < d.len() && d[j].0 == k {
        assert(has_key(d, k));
        assert forall|i: int| 0 <= i < d.len() && d[i].0 != k implies has_key(d, #[trigger] d[i].0)
            && exists|x: int| 0 <= x < d.len() && d[x] == d[i] by {
            assert(d[i] == d[i]);
        }
    } else {
        if j < d.len() {
            lemma_bytes_lt_total(d[j].0, k);
        }
        let r = d.insert(j, p);
        assert forall|x: int, y: int| 0 <= x < y < r.len() implies bytes_lt(#[trigger] r[x].0, #[trigger] r[y].0) by {
            if y < j {
                assert(r[x] == d[x] && r[y] == d[y]);
            } else if y == j {
                assert(r[x] == d[x]);
            } else if x == j {
                assert(r[y] == d[y - 1]);
                if y - 1 > j {
                    assert(bytes_lt(d[j].0, d[y - 1].0));
                    lemma_bytes_lt_transitive(k, d[j].0, d[y - 1].0);
                }
            } else if x < j {
                assert(r[x] == d[x] && r[y] == d[y - 1]);
                assert(bytes_lt(d[x].0, k));
                if y - 1 > j {
                    assert(bytes_lt(d[j].0, d[y - 1].0));
                    lemma_bytes_lt_transitive(k, d[j].0, d[y - 1].0);
                }
                lemma_bytes_lt_transitive(d[x].0, k, d[y - 1].0);
            } else {
                assert(r[x] == d[x - 1] && r[y] == d[y - 1]);
            }
        }
        assert(!has_key(d, k)) by {
            if has_key(d, k) {
                let i = choose|i: int| 0 <= i < d.len() && d[i].0 == k;
                if i < j {
                    lemma_bytes_lt_total(k, k);
                } else if i > j {
                    assert(bytes_lt(d[j].0, d[i].0));
                    lemma_bytes_lt_total(d[j].0, k);
                    lemma_bytes_lt_total(k, d[j].0);
                }
            }
        }
        assert(r[j] == p);
        assert forall|kk: Seq<u8>| has_key(r, kk) <==> (has_key(d, kk) || kk == k) by {
            if has_key(r, kk) {
                let i = choose|i: int| 0 <= i < r.len() && r[i].0 == kk;
                if i < j {
                    assert(r[i] == d[i]);
                } else if i > j {
                    assert(r[i] == d[i - 1]);
                }
            }
            if has_key(d, kk) {
                let i = choose|i: int| 0 <= i < d.len() && d[i].0 == kk;
                if i < j {
                    assert(r[i] == d[i]);
                } else {
                    assert(r[i + 1] == d[i]);
                }
            }
        }
        assert forall|i: int| 0 <= i < r.len() && r[i].0 != k implies has_key(d, #[trigger] r[i].0)
            && exists|x: int| 0 <= x < d.len() && d[x] == r[i] by {
            if i < j {
                assert(r[i] == d[i]);
            } else {
                assert(i != j);
                assert(r[i] == d[i - 1]);
            }
        }
    }
}

/// The layout of a payload map: encoded keys strictly ascending, each authored key present
/// once, under the value of its first authored entry.
pub proof fn lemma_sorted_pairs(ps: Seq<(Seq<u8>, Seq<u8>)>)
    ensures
        keys_ascend(sorted_pairs(ps)),
        forall|k: Seq<u8>| has_key(sorted_pairs(ps), k) <==> has_key(ps, k),
        forall|i: int| 0 <= i < sorted_pairs(ps).len() ==> (#[trigger] sorted_pairs(ps)[i]).1 == first_value(ps, sorted_pairs(ps)[i].0),
    decreases ps.len(),
{
    if ps.len() > 0 {
        let pre = ps.drop_last();
        let p = ps.last();
        let d = sorted_pairs(pre);
        lemma_sorted_pairs(pre);
        lemma_ins_pair_ascends(d, p);
        let r = sorted_pairs(ps);
        assert(r == ins_pair(d, p));
        assert forall|k: Seq<u8>| has_key(r, k) <==> has_key(ps, k) by {
            if has_key(pre, k) {
                let i = choose|i: int| 0 <= i < pre.len() && pre[i].0 == k;
                assert(ps[i] == pre[i]);
            }
            if k == p.0 {
                assert(ps[ps.len() - 1] == p);
            }
            if has_key(ps, k) {
                let i = choose|i: int| 0 <= i < ps.len() && ps[i].0 == k;
                if i < ps.len() - 1 {
                    assert(pre[i] == ps[i]);
                }
            }
        }
        assert forall|i: int| 0 <= i < r.len() implies (#[trigger] r[i]).1 == first_value(ps, r[i].0) by {
            if r[i].0 == p.0 {
                if has_key(d, p.0) {
                    assert(r == d);
                } else {
                    let x = choose|x: int| 0 <= x < r.len() && #[trigger] r[x] == p;
                    if x != i {
                        lemma_bytes_lt_total(r[x].0, r[x].0);
                        if x < i {
                            assert(bytes_lt(r[x].0, r[i].0));
                        } else {
                            assert(bytes_lt(r[i].0, r[x].0));
                        }
                    }
                }
            } else {
                let x = choose|x: int| 0 <= x < d.len() && d[x] == r[i];
                assert(has_key(pre, r[i].0));
            }
        }
    }
}

/// Viewing entry pairs: each is the encoded key and encoded value of its entry.
proof fn lemma_entry_pairs_index(
    s: Seq<(Seq<char>, crate::diag::Span, HView, crate::diag::Span)>,
    fl: Seq<(Seq<char>, u32)>,
)
    requires
        entry_pairs(s, fl) is Some,
    ensures
        entry_pairs(s, fl)->Some_0.len() == s.len(),
        forall|i: int| 0 <= i < s.len() ==> (#[trigger] entry_pairs(s, fl)->Some_0[i]) == (
            text_item(s[i].0),
            value_item(s[i].2, fl)->Some_0,
        ) && value_item(s[i].2, fl) is Some,
    decreases s.len(),
{
    if s.len() > 0 {
        let pre = s.drop_last();
        lemma_entry_pairs_index(pre, fl);
        assert forall|i: int| 0 <= i < pre.len() implies #[trigger] s[i] == pre[i] by {}
    }
}

/// Two texts with the same text item are the same text.
pub proof fn lemma_text_item_injective(a: Seq<char>, b: Seq<char>)
    requires
        text_item(a) == text_item(b),
    ensures
        a == b,
{
    let s = text_item(a);
    let ea = encode_utf8(a);
    let eb = encode_utf8(b);
    let ha = head_bytes(major::TEXT, ea.len() as u64);
    let hb = head_bytes(major::TEXT, eb.len() as u64);
    assert(s.subrange(0, ha.len() as int) =~= ha);
    assert(s.subrange(0, hb.len() as int) =~= hb);
    crate::cbor::reader::lemma_head_round_trip(major::TEXT, ea.len() as u64, s, 0);
    crate::cbor::reader::lemma_head_round_trip(major::TEXT, eb.len() as u64, s, 0);
    assert(ea.len() as u64 == eb.len() as u64);
    assert(ea =~= s.subrange(ha.len() as int, s.len() as int));
    assert(eb =~= s.subrange(hb.len() as int, s.len() as int));
    vstd::utf8::encode_utf8_decode_utf8(a);
    vstd::utf8::encode_utf8_decode_utf8(b);
}

/// No two entries share a key.
pub open spec fn keys_distinct(s: Seq<(Seq<char>, crate::diag::Span, HView, crate::diag::Span)>) -> bool {
    forall|i: int, j: int| 0 <= i < j < s.len() ==> (#[trigger] s[i]).0 != (#[trigger] s[j]).0
}

/// An entry without an earlier entry under its key gives that key its value.
proof fn lemma_first_value_at(ps: Seq<(Seq<u8>, Seq<u8>)>, i: int)
    requires
        0 <= i < ps.len(),
        forall|j: int| 0 <= j < i ==> (#[trigger] ps[j]).0 != ps[i].0,
    ensures
        first_value(ps, ps[i].0) == ps[i].1,
    decreases ps.len(),
{
    let pre = ps.drop_last();
    if i < ps.len() - 1 {
        assert(pre[i] == ps[i]);
        assert(has_key(pre, ps[i].0));
        lemma_first_value_at(pre, i);
    } else {
        assert(!has_key(pre, ps[i].0)) by {
            if has_key(pre, ps[i].0) {
                let j = choose|j: int| 0 <= j < pre.len() && pre[j].0 == ps[i].0;
                assert(ps[j] == pre[j]);
            }
        }
    }
}

/// Entries with distinct keys holding the same entries give the same keys the same values.
proof fn lemma_pairs_same(
    a: Seq<(Seq<char>, crate::diag::Span, HView, crate::diag::Span)>,
    b: Seq<(Seq<char>, crate::diag::Span, HView, crate::diag::Span)>,
    fl: Seq<(Seq<char>, u32)>,
)
    requires
        keys_distinct(a),
        keys_distinct(b),
        forall|x| a.contains(x) <==> b.contains(x),
        entry_pairs(a, fl) is Some,
        entry_pairs(b, fl) is Some,
    ensures
        forall|k: Seq<u8>| has_key(entry_pairs(a, fl)->Some_0, k) ==> has_key(entry_pairs(b, fl)->Some_0, k)
            && first_value(entry_pairs(a, fl)->Some_0, k) == first_value(entry_pairs(b, fl)->Some_0, k),
{
    let pa = entry_pairs(a, fl)->Some_0;
    let pb = entry_pairs(b, fl)->Some_0;
    lemma_entry_pairs_index(a, fl);
    lemma_entry_pairs_index(b, fl);
    assert forall|k: Seq<u8>| has_key(pa, k) implies has_key(pb, k) && first_value(pa, k) == first_value(pb, k) by {
        let i = choose|i: int| 0 <= i < pa.len() && pa[i].0 == k;
        assert(a.contains(a[i]));
        let j = choose|j: int| 0 <= j < b.len() && b[j] == a[i];
        assert(pb[j] == pa[i]);
        assert forall|x: int| 0 <= x < i implies (#[trigger] pa[x]).0 != pa[i].0 by {
            if pa[x].0 == pa[i].0 {
                lemma_text_item_injective(a[x].0, a[i].0);
            }
        }
        assert forall|x: int| 0 <= x < j implies (#[trigger] pb[x]).0 != pb[j].0 by {
            if pb[x].0 == pb[j].0 {
                lemma_text_item_injective(b[x].0, b[j].0);
            }
        }
        lemma_first_value_at(pa, i);
        lemma_first_value_at(pb, j);
    }
}

/// A value without an encoding anywhere among the entries leaves the object without one.
proof fn lemma_entry_pairs_none(
    s: Seq<(Seq<char>, crate::diag::Span, HView, crate::diag::Span)>,
    fl: Seq<(Seq<char>, u32)>,
)
    ensures
        entry_pairs(s, fl) is None <==> exists|i: int| 0 <= i < s.len() && value_item((#[trigger] s[i]).2, fl) is None,
    decreases s.len(),
{
    if s.len() > 0 {
        let pre = s.drop_last();
        lemma_entry_pairs_none(pre, fl);
        if exists|i: int| 0 <= i < pre.len() && value_item((#[trigger] pre[i]).2, fl) is None {
            let i = choose|i: int| 0 <= i < pre.len() && value_item((#[trigger] pre[i]).2, fl) is None;
            assert(s[i] == pre[i]);
        }
        if exists|i: int| 0 <= i < s.len() && value_item((#[trigger] s[i]).2, fl) is None {
            let i = choose|i: int| 0 <= i < s.len() && value_item((#[trigger] s[i]).2, fl) is None;
            if i < s.len() - 1 {
                assert(pre[i] == s[i]);
            }
        }
    }
}

proof fn lemma_none_alike(
    a: Seq<(Seq<char>, crate::diag::Span, HView, crate::diag::Span)>,
    b: Seq<(Seq<char>, crate::diag::Span, HView, crate::diag::Span)>,
    fl: Seq<(Seq<char>, u32)>,
)
    requires
        forall|x| a.contains(x) <==> b.contains(x),
        entry_pairs(a, fl) is None || entry_pairs(b, fl) is None,
    ensures
        entry_pairs(a, fl) is None,
        entry_pairs(b, fl) is None,
{
    lemma_entry_pairs_none(a, fl);
    lemma_entry_pairs_none(b, fl);
    if entry_pairs(a, fl) is None {
        let i = choose|i: int| 0 <= i < a.len() && value_item((#[trigger] a[i]).2, fl) is None;
        assert(a.contains(a[i]));
        let j = choose|j: int| 0 <= j < b.len() && b[j] == a[i];
        assert(value_item(b[j].2, fl) is None);
    } else {
        let i = choose|i: int| 0 <= i < b.len() && value_item((#[trigger] b[i]).2, fl) is None;
        assert(b.contains(b[i]));
        let j = choose|j: int| 0 <= j < a.len() && a[j] == b[i];
        assert(value_item(a[j].2, fl) is None);
    }
}

/// Two layouts with encoded keys strictly ascending, the same keys, and the same value under
/// each key, are one layout.
proof fn lemma_ascending_unique(x: Seq<(Seq<u8>, Seq<u8>)>, y: Seq<(Seq<u8>, Seq<u8>)>)
    requires
        keys_ascend(x),
        keys_ascend(y),
        forall|k: Seq<u8>| has_key(x, k) <==> has_key(y, k),
        forall|i: int, j: int| 0 <= i < x.len() && 0 <= j < y.len() && (#[trigger] x[i]).0 == (#[trigger] y[j]).0 ==> x[i].1 == y[j].1,
    ensures
        x == y,
    decreases x.len(),
{
    if x.len() == 0 {
        if y.len() > 0 {
            assert(has_key(y, y[0].0));
        }
        assert(x =~= y);
    } else {
        assert(has_key(x, x[0].0));
        let j = choose|j: int| 0 <= j < y.len() && y[j].0 == x[0].0;
        assert(has_key(y, y[0].0));
        let i = choose|i: int| 0 <= i < x.len() && x[i].0 == y[0].0;
        if j > 0 {
            assert(bytes_lt(y[0].0, y[j].0));
            if i > 0 {
                assert(bytes_lt(x[0].0, x[i].0));
                lemma_bytes_lt_total(x[0].0, y[0].0);
            } else {
                lemma_bytes_lt_total(x[0].0, x[0].0);
            }
        }
        assert(j == 0);
        assert(x[0] == y[0]);
        let xt = x.drop_first();
        let yt = y.drop_first();
        assert forall|k: Seq<u8>| has_key(xt, k) <==> has_key(yt, k) by {
            if has_key(xt, k) {
                let a = choose|a: int| 0 <= a < xt.len() && xt[a].0 == k;
                assert(x[a + 1].0 == k);
                assert(has_key(x, k));
                let b = choose|b: int| 0 <= b < y.len() && y[b].0 == k;
                assert(bytes_lt(x[0].0, x[a + 1].0));
                if b == 0 {
                    lemma_bytes_lt_total(x[0].0, x[0].0);
                }
                assert(yt[b - 1].0 == k);
            }
            if has_key(yt, k) {
                let a = choose|a: int| 0 <= a < yt.len() && yt[a].0 == k;
                assert(y[a + 1].0 == k);
                assert(has_key(y, k));
                let b = choose|b: int| 0 <= b < x.len() && x[b].0 == k;
                assert(bytes_lt(y[0].0, y[a + 1].0));
                if b == 0 {
                    lemma_bytes_lt_total(y[0].0, y[0].0);
                }
                assert(xt[b - 1].0 == k);
            }
        }
        assert forall|a: int, b: int| 0 <= a < xt.len() && 0 <= b < yt.len() && (#[trigger] xt[a]).0 == (#[trigger] yt[b]).0 implies xt[a].1 == yt[b].1 by {
            assert(x[a + 1] == xt[a] && y[b + 1] == yt[b]);
        }
        assert forall|a: int, b: int| 0 <= a < b < xt.len() implies bytes_lt(#[trigger] xt[a].0, #[trigger] xt[b].0) by {
            assert(x[a + 1] == xt[a] && x[b + 1] == xt[b]);
        }
        assert forall|a: int, b: int| 0 <= a < b < yt.len() implies bytes_lt(#[trigger] yt[a].0, #[trigger] yt[b].0) by {
            assert(y[a + 1] == yt[a] && y[b + 1] == yt[b]);
        }
        lemma_ascending_unique(xt, yt);
        assert(x =~= seq![x[0]] + xt);
        assert(y =~= seq![y[0]] + yt);
    }
}

/// Authored order does not reach the bytes: two objects holding the same entries, each key
/// once, in any order, have the same payload.
pub proof fn lemma_payload_order_free(
    a: Seq<(Seq<char>, crate::diag::Span, HView, crate::diag::Span)>,
    b: Seq<(Seq<char>, crate::diag::Span, HView, crate::diag::Span)>,
    fl: Seq<(Seq<char>, u32)>,
)
    requires
        keys_distinct(a),
        keys_distinct(b),
        a.to_set() == b.to_set(),
    ensures
        payload_of(a, fl) == payload_of(b, fl),
{
    assert forall|x: (Seq<char>, crate::diag::Span, HView, crate::diag::Span)| a.contains(x) <==> b.contains(x) by {
        assert(a.to_set().contains(x) <==> a.contains(x));
        assert(b.to_set().contains(x) <==> b.contains(x));
        assert(a.to_set().contains(x) == b.to_set().contains(x));
    }
    if entry_pairs(a, fl) is Some && entry_pairs(b, fl) is Some {
        let pa = entry_pairs(a, fl)->Some_0;
        let pb = entry_pairs(b, fl)->Some_0;
        lemma_entry_pairs_index(a, fl);
        lemma_entry_pairs_index(b, fl);
        lemma_pairs_same(a, b, fl);
        let sa = sorted_pairs(pa);
        let sb = sorted_pairs(pb);
        lemma_sorted_pairs(pa);
        lemma_sorted_pairs(pb);
        lemma_pairs_same(b, a, fl);
        assert forall|k: Seq<u8>| has_key(sa, k) <==> has_key(sb, k) by {}
        assert forall|i: int, j: int| 0 <= i < sa.len() && 0 <= j < sb.len() && (#[trigger] sa[i]).0 == (#[trigger] sb[j]).0 implies sa[i].1 == sb[j].1 by {
            assert(has_key(sa, sa[i].0));
        }
        lemma_ascending_unique(sa, sb);
        assert(a.len() == 0 <==> b.len() == 0) by {
            if a.len() > 0 {
                assert(a.contains(a[0]));
            }
            if b.len() > 0 {
                assert(b.contains(b[0]));
            }
        }
    } else {
        lemma_none_alike(a, b, fl);
        assert(a.len() == 0 <==> b.len() == 0) by {
            if a.len() > 0 {
                assert(a.contains(a[0]));
            }
            if b.len() > 0 {
                assert(b.contains(b[0]));
            }
        }
    }
}

// ---------------------------------------------------------------------------
// The text of a quantised float
// ---------------------------------------------------------------------------

/// `m` doubled `n` times.
pub open spec fn doubled(m: nat, n: nat) -> nat
    decreases n,
{
    if n == 0 {
        m
    } else {
        2 * doubled(m, (n - 1) as nat)
    }
}

/// `m` halved `n` times, rounding down.
pub open spec fn halved(m: nat, n: nat) -> nat
    decreases n,
{
    if n == 0 {
        m
    } else {
        halved(m, (n - 1) as nat) / 2
    }
}

/// 1024 times the magnitude of the `binary32` with bit pattern `b`, for a quantised one
/// exactly: its significand scaled by its exponent, `2^(e - 140)` once the 1/1024 is counted.
pub open spec fn scaled_1024(b: u32) -> nat {
    let e = (b / 0x80_0000) % 256;
    let f = b % 0x80_0000;
    if e == 0 {
        0
    } else if e >= 140 {
        doubled((f + 0x80_0000) as nat, (e - 140) as nat)
    } else {
        halved((f + 0x80_0000) as nat, (140 - e) as nat)
    }
}

/// Trailing zeros dropped, one character always kept.
pub open spec fn trim_zeros(s: Seq<char>) -> Seq<char>
    decreases s.len(),
{
    if s.len() > 1 && s.last() == '0' {
        trim_zeros(s.drop_last())
    } else {
        s
    }
}

/// The exact decimal text of a quantised float: a sign for a negative one, the whole part,
/// a point, and the fraction's digits without trailing zeros (at least one). A quantised
/// value is a multiple of 1/1024, so ten digits always hold its fraction exactly.
pub open spec fn float_text(b: u32) -> Seq<char> {
    let k = scaled_1024(b);
    (if b >= 0x8000_0000 { seq!['-'] } else { Seq::<char>::empty() }) + decimal(k / 1024) + seq!['.']
        + trim_zeros(decimal_padded((k % 1024) * 9765625, 10))
}

proof fn lemma_doubled_mono(a: nat, b: nat, n: nat)
    requires
        a < b,
    ensures
        doubled(a, n) < doubled(b, n),
    decreases n,
{
    if n > 0 {
        lemma_doubled_mono(a, b, (n - 1) as nat);
    }
}

proof fn lemma_doubled_grows(a: nat, n: nat, m: nat)
    requires
        n <= m,
    ensures
        doubled(a, n) <= doubled(a, m),
    decreases m,
{
    if n < m {
        lemma_doubled_grows(a, n, (m - 1) as nat);
    }
}

/// A significand doubled at most 104 times fits in 128 bits.
proof fn lemma_doubled_fits(m: nat, n: nat)
    requires
        m < 0x100_0000,
        n <= 104,
    ensures
        doubled(m, n) <= u128::MAX,
{
    lemma_doubled_mono(m, 0x100_0000, n);
    lemma_doubled_grows(0x100_0000, n, 104);
    lemma_doubled_eight(0x1000000nat, 96);
    lemma_doubled_eight(0x100000000nat, 88);
    lemma_doubled_eight(0x10000000000nat, 80);
    lemma_doubled_eight(0x1000000000000nat, 72);
    lemma_doubled_eight(0x100000000000000nat, 64);
    lemma_doubled_eight(0x10000000000000000nat, 56);
    lemma_doubled_eight(0x1000000000000000000nat, 48);
    lemma_doubled_eight(0x100000000000000000000nat, 40);
    lemma_doubled_eight(0x10000000000000000000000nat, 32);
    lemma_doubled_eight(0x1000000000000000000000000nat, 24);
    lemma_doubled_eight(0x100000000000000000000000000nat, 16);
    lemma_doubled_eight(0x10000000000000000000000000000nat, 8);
    lemma_doubled_eight(0x1000000000000000000000000000000nat, 0);
    assert(doubled(0x100000000000000000000000000000000nat, 0) == 0x100000000000000000000000000000000nat);
}

/// Eight doublings multiply by 256.
proof fn lemma_doubled_eight(a: nat, n: nat)
    ensures
        doubled(a, n + 8) == doubled(256 * a, n),
    decreases n,
{
    if n == 0 {
        reveal_with_fuel(doubled, 9);
    } else {
        lemma_doubled_eight(a, (n - 1) as nat);
    }
}



/// The digits of `v` without trailing zeros, at least one kept.
pub(crate) fn trimmed_len(v: &Vec<char>) -> (r: usize)
    requires
        v@.len() >= 1,
    ensures
        1 <= r <= v@.len(),
        trim_zeros(v@) == v@.take(r as int),
{
    let mut n: usize = v.len();
    assert(v@.take(n as int) =~= v@);
    while n > 1 && v[n - 1] == '0'
        invariant
            1 <= n <= v@.len(),
            trim_zeros(v@) == trim_zeros(v@.take(n as int)),
        decreases n,
    {
        assert(v@.take(n as int).drop_last() =~= v@.take(n - 1));
        n = n - 1;
    }
    n
}

/// 1024 times the magnitude of a quantised float.
pub(crate) fn scaled_of(b: u32) -> (k: u128)
    requires
        bits_quantised(b),
    ensures
        k == scaled_1024(b),
{
    let e = (b / 0x80_0000) % 256;
    let f = b % 0x80_0000;
    let m: u128 = (f + 0x80_0000) as u128;
    let mut k: u128 = 0;
    if e == 0 {
    } else if e >= 140 {
        k = m;
        let mut j: u32 = 0;
        while j < e - 140
            invariant
                e >= 140,
                e < 245,
                j <= e - 140,
                m < 0x100_0000,
                k == doubled(m as nat, j as nat),
            decreases e - 140 - j,
        {
            proof {
                lemma_doubled_fits(m as nat, (j + 1) as nat);
            }
            k = k * 2;
            j = j + 1;
        }
    } else {
        k = m;
        let mut j: u32 = 0;
        while j < 140 - e
            invariant
                e < 140,
                j <= 140 - e,
                k == halved(m as nat, j as nat),
            decreases 140 - e - j,
        {
            k = k / 2;
            j = j + 1;
        }
    }
    k
}

/// The exact decimal text of a quantised float.
fn float_text_of(b: u32) -> (r: String)
    requires
        bits_quantised(b),
    ensures
        r@ == float_text(b),
{
    let k = scaled_of(b);
    assert(k == scaled_1024(b));
    let mut r = String::new();
    if b >= 0x8000_0000 {
        push_char(&mut r, '-');
    }
    let ghost sign = r@;
    push_decimal_wide(&mut r, k / 1024);
    push_char(&mut r, '.');
    let frac: u64 = ((k % 1024) as u64) * 9765625;
    let mut padded = String::new();
    push_decimal_padded(&mut padded, frac, 10);
    let digits = chars_of(padded.as_str());
    proof {
        assert(digits@ =~= decimal_padded(frac as nat, 10));
        lemma_padded_nonempty(frac as nat);
    }
    let n = trimmed_len(&digits);
    let ghost before = r@;
    let mut i: usize = 0;
    while i < n
        invariant
            i <= n <= digits@.len(),
            r@ == before + digits@.take(i as int),
        decreases n - i,
    {
        push_char(&mut r, digits[i]);
        assert(digits@.take(i + 1) =~= digits@.take(i as int).push(digits@[i as int]));
        i = i + 1;
    }
    assert(r@ =~= float_text(b));
    r
}

proof fn lemma_padded_nonempty(n: nat)
    ensures
        decimal_padded(n, 10).len() >= 1,
{
    crate::text::lemma_decimal_len_pos(n);
}

// ---------------------------------------------------------------------------
// Reading a payload back
// ---------------------------------------------------------------------------

/// The span a value read from a payload carries: it has no place in any source text.
pub open spec fn no_span() -> Span {
    Span { start: 0, end: 0 }
}

/// The order of payload keys by their UTF-8 bytes: shorter first, then bytewise, which is
/// the order of their encodings.
pub open spec fn key_lt(a: Seq<u8>, b: Seq<u8>) -> bool {
    a.len() < b.len() || (a.len() == b.len() && bytes_lt(a, b))
}

/// Reading one value at `p`: `null`, `false`, `true`, a quantised `binary32`, an integer
/// that fits in `i64`, text, an array or a map with text keys. Anything else is malformed.
pub open spec fn value_at(s: Seq<u8>, p: int) -> (Result<HView, CodecError>, int)
    decreases s.len() - p, 2int,
{
    match peek_at(s, p) {
        Err(e) => (Err(e), p),
        Ok(b) => if b == NULL {
            (Ok(HView::Null), p + 1)
        } else if b == FALSE_ITEM {
            (Ok(HView::Bool(false)), p + 1)
        } else if b == TRUE_ITEM {
            (Ok(HView::Bool(true)), p + 1)
        } else if b == F32_HEAD {
            match f32q_at(s, p) {
                (Ok(x), q) => (Ok(HView::Float(float_text(x))), q),
                (Err(e), q) => (Err(e), q),
            }
        } else if b / 32 == major::UINT {
            match expect_at(s, p, major::UINT) {
                (Ok(a), q) => if a <= i64::MAX {
                    (Ok(HView::Int(a as i64)), q)
                } else {
                    (Err(CodecError::MalformedEnvelope { at: p as usize }), q)
                },
                (Err(e), q) => (Err(e), q),
            }
        } else if b / 32 == major::NEGINT {
            match head_at(s, p) {
                (Ok((_, a)), q) => if a <= i64::MAX {
                    (Ok(HView::Int((-1 - a) as i64)), q)
                } else {
                    (Err(CodecError::MalformedEnvelope { at: p as usize }), q)
                },
                (Err(e), q) => (Err(e), q),
            }
        } else if b / 32 == major::TEXT {
            match text_at(s, p) {
                (Ok(t), q) => (Ok(HView::Str(decode_utf8(t))), q),
                (Err(e), q) => (Err(e), q),
            }
        } else if b / 32 == major::ARRAY {
            match expect_at(s, p, major::ARRAY) {
                (Ok(n), q) => if p < q <= s.len() {
                    match items_at(s, q, (n as usize) as int) {
                        (Ok(xs), q2) => (Ok(HView::Array(xs)), q2),
                        (Err(e), q2) => (Err(e), q2),
                    }
                } else {
                    (Err(CodecError::MalformedEnvelope { at: p as usize }), q)
                },
                (Err(e), q) => (Err(e), q),
            }
        } else if b / 32 == major::MAP {
            match map_at(s, p) {
                (Ok(es), q) => (Ok(HView::Object(es)), q),
                (Err(e), q) => (Err(e), q),
            }
        } else {
            (Err(CodecError::MalformedEnvelope { at: p as usize }), p)
        },
    }
}

/// Reading `n` values in a row at `p`.
pub open spec fn items_at(s: Seq<u8>, p: int, n: int) -> (Result<Seq<(HView, Span)>, CodecError>, int)
    decreases s.len() - p, 3int,
{
    if n <= 0 {
        (Ok(Seq::empty()), p)
    } else {
        match value_at(s, p) {
            (Err(e), q) => (Err(e), q),
            (Ok(v), q) => if p < q <= s.len() {
                match items_at(s, q, n - 1) {
                    (Ok(xs), q2) => (Ok(seq![(v, no_span())] + xs), q2),
                    (Err(e), q2) => (Err(e), q2),
                }
            } else {
                (Err(CodecError::MalformedEnvelope { at: p as usize }), q)
            },
        }
    }
}

/// Reading a map at `p`: its text keys must ascend strictly in the order of their bytes, or
/// the map is refused at its head.
pub open spec fn map_at(s: Seq<u8>, p: int) -> (Result<Seq<(Seq<char>, Span, HView, Span)>, CodecError>, int)
    decreases s.len() - p, 1int,
{
    match expect_at(s, p, major::MAP) {
        (Ok(n), q) => if p < q <= s.len() {
            entries_at(s, q, (n as usize) as int, None, p)
        } else {
            (Err(CodecError::MalformedEnvelope { at: p as usize }), q)
        },
        (Err(e), q) => (Err(e), q),
    }
}

/// Reading `n` entries of a map whose head is at `at`, the last key read being `prev`.
pub open spec fn entries_at(s: Seq<u8>, p: int, n: int, prev: Option<Seq<u8>>, at: int) -> (Result<
    Seq<(Seq<char>, Span, HView, Span)>,
    CodecError,
>, int)
    decreases s.len() - p, 0int, if n > 0 { n } else { 0 },
{
    if n <= 0 {
        (Ok(Seq::empty()), p)
    } else {
        match text_at(s, p) {
            (Err(e), q) => (Err(e), q),
            (Ok(k), q) => if prev matches Some(pk) && !key_lt(pk, k) {
                (Err(CodecError::NonDeterministic { at: at as usize, reason: NonDetReason::UnsortedMapKeys }), q)
            } else if !(p < q <= s.len()) {
                (Err(CodecError::MalformedEnvelope { at: p as usize }), q)
            } else {
                match value_at(s, q) {
                    (Err(e), q2) => (Err(e), q2),
                    (Ok(v), q2) => if q < q2 <= s.len() {
                        match entries_at(s, q2, n - 1, Some(k), at) {
                            (Ok(es), q3) => (Ok(seq![(decode_utf8(k), no_span(), v, no_span())] + es), q3),
                            (Err(e), q3) => (Err(e), q3),
                        }
                    } else {
                        (Err(CodecError::MalformedEnvelope { at: q as usize }), q2)
                    },
                }
            },
        }
    }
}

/// What a payload reads back as: the entries of the map it starts with.
pub open spec fn object_at(s: Seq<u8>) -> Result<Seq<(Seq<char>, Span, HView, Span)>, CodecError> {
    map_at(s, 0).0
}

/// A decoder standing at `p`.
fn dec_at<'a>(buf: &'a [u8], p: usize) -> (d: Dec<'a>)
    ensures
        d.input() == buf@,
        d.offset() == p,
{
    let mut d = Dec::new(buf);
    d.set_position(p);
    d
}

/// Reads one value at `p`, and where reading stopped.
fn read_value(buf: &[u8], p: usize) -> (r: (Result<HValue, CodecError>, usize))
    ensures
        r.1 == value_at(buf@, p as int).1,
        match value_at(buf@, p as int).0 {
            Ok(v) => r.0 matches Ok(x) && hview(x) == v,
            Err(e) => r.0 == Err::<HValue, CodecError>(e),
        },
    decreases buf@.len() - p, 2int,
{
    let mut d = dec_at(buf, p);
    proof {
        d.lemma_input_fits();
    }
    let b = match d.peek_byte() {
        Ok(b) => b,
        Err(e) => return (Err(e), p),
    };
    if b == NULL {
        return (Ok(HValue::Null), p + 1);
    }
    if b == FALSE_ITEM {
        return (Ok(HValue::Bool(false)), p + 1);
    }
    if b == TRUE_ITEM {
        return (Ok(HValue::Bool(true)), p + 1);
    }
    if b == F32_HEAD {
        let r = dec_f32_bits(&mut d);
        let q = d.position();
        return match r {
            Ok(x) => (Ok(HValue::Float(float_text_of(x))), q),
            Err(e) => (Err(e), q),
        };
    }
    let m = b / 32;
    if m == major::UINT {
        let r = d.uint();
        let q = d.position();
        return match r {
            Ok(a) => if a <= 0x7fff_ffff_ffff_ffff {
                (Ok(HValue::Int(a as i64)), q)
            } else {
                (Err(CodecError::MalformedEnvelope { at: p }), q)
            },
            Err(e) => (Err(e), q),
        };
    }
    if m == major::NEGINT {
        let r = d.head();
        let q = d.position();
        return match r {
            Ok((_, a)) => if a <= 0x7fff_ffff_ffff_ffff {
                let n: i64 = a as i64;
                (Ok(HValue::Int(-1 - n)), q)
            } else {
                (Err(CodecError::MalformedEnvelope { at: p }), q)
            },
            Err(e) => (Err(e), q),
        };
    }
    if m == major::TEXT {
        let r = d.text();
        let q = d.position();
        return match r {
            Ok(t) => {
                proof {
                    vstd::utf8::encode_utf8_decode_utf8(t@);
                }
                (Ok(HValue::Str(owned(t))), q)
            },
            Err(e) => (Err(e), q),
        };
    }
    if m == major::ARRAY {
        let r = d.array_head();
        let q = d.position();
        return match r {
            Ok(n) => if p < q && q <= buf.len() {
                let (items, q2) = read_items(buf, q, n);
                match items {
                    Ok(v) => (Ok(HValue::Array(v)), q2),
                    Err(e) => (Err(e), q2),
                }
            } else {
                (Err(CodecError::MalformedEnvelope { at: p }), q)
            },
            Err(e) => (Err(e), q),
        };
    }
    if m == major::MAP {
        let (r, q) = read_map(buf, p);
        return match r {
            Ok(o) => (Ok(HValue::Object(o)), q),
            Err(e) => (Err(e), q),
        };
    }
    (Err(CodecError::MalformedEnvelope { at: p }), p)
}

/// Reads `n` values in a row at `p`.
fn read_items(buf: &[u8], p: usize, n: usize) -> (r: (Result<Vec<Spanned<HValue>>, CodecError>, usize))
    requires
        p <= buf@.len(),
    ensures
        r.1 == items_at(buf@, p as int, n as int).1,
        match items_at(buf@, p as int, n as int).0 {
            Ok(xs) => r.0 matches Ok(v) && items_hview(v@) == xs,
            Err(e) => r.0 == Err::<Vec<Spanned<HValue>>, CodecError>(e),
        },
    decreases buf@.len() - p, 3int,
{
    let ghost s = buf@;
    let mut out: Vec<Spanned<HValue>> = Vec::new();
    let mut at = p;
    let mut i: usize = 0;
    assert(items_hview(out@) =~= Seq::<(HView, Span)>::empty());
    while i < n
        invariant
            p <= at <= s.len(),
            i <= n,
            s == buf@,
            items_at(s, p as int, n as int) == (match items_at(s, at as int, (n - i) as int) {
                (Ok(xs), q) => (Ok(items_hview(out@) + xs), q),
                (Err(e), q) => (Err::<Seq<(HView, Span)>, CodecError>(e), q),
            }),
        decreases n - i,
    {
        let (v, q) = read_value(buf, at);
        match v {
            Ok(x) => {
                if at < q && q <= buf.len() {
                    let ghost before = out@;
                    out.push(Spanned::new(x, Span::new(0, 0)));
                    proof {
                        assert(out@.drop_last() =~= before);
                        assert(items_hview(out@) == items_hview(before).push((hview(x), no_span())));
                        assert forall|xs: Seq<(HView, Span)>| #[trigger] (items_hview(before) + (seq![(hview(x), no_span())] + xs)) == items_hview(out@) + xs by {
                            assert(items_hview(before) + (seq![(hview(x), no_span())] + xs) =~= items_hview(out@) + xs);
                        }
                    }
                    at = q;
                    i = i + 1;
                } else {
                    return (Err(CodecError::MalformedEnvelope { at }), q);
                }
            },
            Err(e) => return (Err(e), q),
        }
    }
    (Ok(out), at)
}

/// Reads a map at `p`, its keys in strictly ascending order.
fn read_map(buf: &[u8], p: usize) -> (r: (Result<HObject, CodecError>, usize))
    ensures
        r.1 == map_at(buf@, p as int).1,
        match map_at(buf@, p as int).0 {
            Ok(es) => r.0 matches Ok(o) && entries_hview(o.entries@) == es,
            Err(e) => r.0 == Err::<HObject, CodecError>(e),
        },
    decreases buf@.len() - p, 1int,
{
    let ghost s = buf@;
    let mut d = dec_at(buf, p);
    let n = match d.map_head() {
        Ok(n) => n,
        Err(e) => return (Err(e), d.position()),
    };
    let q0 = d.position();
    if !(p < q0 && q0 <= buf.len()) {
        return (Err(CodecError::MalformedEnvelope { at: p }), q0);
    }
    let mut o = HObject::new();
    let mut prev: Option<Vec<u8>> = None;
    let mut at = q0;
    let mut i: usize = 0;
    assert(entries_hview(o.entries@) =~= Seq::<(Seq<char>, Span, HView, Span)>::empty());
    while i < n
        invariant
            p < at <= s.len(),
            i <= n,
            s == buf@,
            map_at(s, p as int) == (match entries_at(s, at as int, (n - i) as int, opt_bytes(prev), p as int) {
                (Ok(es), q) => (Ok(entries_hview(o.entries@) + es), q),
                (Err(e), q) => (Err::<Seq<(Seq<char>, Span, HView, Span)>, CodecError>(e), q),
            }),
        decreases n - i,
    {
        let mut kd = dec_at(buf, at);
        let kr = kd.text();
        let q = kd.position();
        let key = match kr {
            Ok(t) => t,
            Err(e) => return (Err(e), q),
        };
        let kb = key.as_bytes();
        if let Some(pk) = &prev {
            let ordered = pk.len() < kb.len() || (pk.len() == kb.len() && bytes_less(pk.as_slice(), kb));
            if !ordered {
                return (Err(CodecError::NonDeterministic { at: p, reason: NonDetReason::UnsortedMapKeys }), q);
            }
        }
        if !(at < q && q <= buf.len()) {
            return (Err(CodecError::MalformedEnvelope { at }), q);
        }
        let (v, q2) = read_value(buf, q);
        let x = match v {
            Ok(x) => x,
            Err(e) => return (Err(e), q2),
        };
        if !(q < q2 && q2 <= buf.len()) {
            return (Err(CodecError::MalformedEnvelope { at: q }), q2);
        }
        proof {
            vstd::utf8::encode_utf8_decode_utf8(key@);
        }
        let ghost before = o.entries@;
        let ks = owned(key);
        let mut kv: Vec<u8> = Vec::new();
        let mut j: usize = 0;
        while j < kb.len()
            invariant
                j <= kb@.len(),
                kv@ == kb@.take(j as int),
            decreases kb@.len() - j,
        {
            kv.push(kb[j]);
            assert(kb@.take(j + 1) =~= kb@.take(j as int).push(kb@[j as int]));
            j = j + 1;
        }
        assert(kb@.take(kb@.len() as int) =~= kb@);
        o.insert(Spanned::new(ks, Span::new(0, 0)), Spanned::new(x, Span::new(0, 0)));
        proof {
            let ent = (decode_utf8(key.spec_bytes()), no_span(), hview(x), no_span());
            assert(o.entries@.drop_last() =~= before);
            assert(entries_hview(o.entries@) == entries_hview(before).push(ent));
            assert forall|es: Seq<(Seq<char>, Span, HView, Span)>| #[trigger] (entries_hview(before) + (seq![ent] + es)) == entries_hview(o.entries@) + es by {
                assert(entries_hview(before) + (seq![ent] + es) =~= entries_hview(o.entries@) + es);
            }
        }
        prev = Some(kv);
        at = q2;
        i = i + 1;
    }
    (Ok(o), at)
}

/// Decodes a payload back into header keys, for re-emission to surface syntax: the map it
/// starts with, keys strictly ascending by their bytes; values are `null`, booleans, quantised
/// floats (as the exact decimal text of their value), integers that fit in `i64`, text,
/// arrays and maps. Every value and key carries an empty span.
pub fn payload_to_object(bytes: &[u8]) -> (r: Result<HObject, CodecError>)
    ensures
        match object_at(bytes@) {
            Ok(es) => r matches Ok(o) && entries_hview(o.entries@) == es,
            Err(e) => r == Err::<HObject, CodecError>(e),
        },
{
    let (r, _q) = read_map(bytes, 0);
    r
}

/// Pairs of byte vectors as plain data.
pub open spec fn pairs_view(d: Seq<(Vec<u8>, Vec<u8>)>) -> Seq<(Seq<u8>, Seq<u8>)> {
    d.map_values(|p: (Vec<u8>, Vec<u8>)| (p.0@, p.1@))
}

/// Bytes that may be absent, as plain data.
pub open spec fn opt_bytes(r: Option<Vec<u8>>) -> Option<Seq<u8>> {
    match r {
        Some(v) => Some(v@),
        None => None,
    }
}

/// The bits the table gives a float text.
fn float_bits(fl: &Vec<(String, u32)>, x: &str) -> (r: Option<u32>)
    ensures
        r == float_bits_of(floats_view(fl@), x@),
{
    let ghost t = floats_view(fl@);
    let mut i: usize = 0;
    assert(t.skip(0) =~= t);
    while i < fl.len()
        invariant
            i <= fl.len(),
            t == floats_view(fl@),
            float_bits_of(t, x@) == float_bits_of(t.skip(i as int), x@),
        decreases fl.len() - i,
    {
        assert(t.skip(i as int)[0] == (fl@[i as int].0@, fl@[i as int].1));
        assert(t.skip(i as int).drop_first() =~= t.skip(i + 1));
        if str_eq(fl[i].0.as_str(), x) {
            return Some(fl[i].1);
        }
        i = i + 1;
    }
    None
}

/// The encoding of a value, given the bits of its floats.
fn write_value(v: &HValue, fl: &Vec<(String, u32)>) -> (r: Option<Vec<u8>>)
    ensures
        opt_bytes(r) == value_item(hview(*v), floats_view(fl@)),
    decreases *v,
{
    let mut e = Enc::new();
    match v {
        HValue::Null => {
            e.raw(&[NULL]);
        },
        HValue::Bool(b) => {
            if *b {
                e.raw(&[TRUE_ITEM]);
            } else {
                e.raw(&[FALSE_ITEM]);
            }
        },
        HValue::Int(i) => {
            if *i >= 0 {
                e.head(major::UINT, *i as u64);
            } else {
                let n: i64 = -1 - *i;
                e.head(major::NEGINT, n as u64);
            }
        },
        HValue::Float(t) => {
            match float_bits(fl, t.as_str()) {
                Some(b) => enc_f32_bits(&mut e, b),
                None => return None,
            }
        },
        HValue::Str(t) => {
            e.text(t.as_str());
        },
        HValue::Array(items) => {
            return write_items(items, fl);
        },
        HValue::Object(o) => {
            return write_object(o, fl);
        },
    }
    Some(e.into_bytes())
}

/// The encoding of an array, given the bits of its floats.
fn write_items(items: &Vec<Spanned<HValue>>, fl: &Vec<(String, u32)>) -> (r: Option<Vec<u8>>)
    ensures
        opt_bytes(r) == value_item(HView::Array(items_hview(items@)), floats_view(fl@)),
    decreases *items,
{
    let mut e = Enc::new();
    let ghost fv = floats_view(fl@);
    proof {
        lemma_items_hview_len(items@);
    }
    e.head(major::ARRAY, items.len() as u64);
    let ghost start = e@;
    let mut i: usize = 0;
    assert(items@.take(0) =~= Seq::<Spanned<HValue>>::empty());
    while i < items.len()
        invariant
            i <= items@.len(),
            fv == floats_view(fl@),
            items_item(items_hview(items@.take(i as int)), fv) matches Some(b) && e@ == start + b,
        decreases items@.len() - i,
    {
        assert(items@.take(i + 1).drop_last() =~= items@.take(i as int));
        proof {
            assert(decreases_to!(*items => items@));
            assert(decreases_to!(items@ => items@[i as int]));
            assert(decreases_to!(items@[i as int] => items@[i as int].value));
        }
        let ghost pre = items_hview(items@.take(i as int));
        let ghost cur = items_hview(items@.take(i + 1));
        assert(cur == pre.push((hview(items@[i as int].value), items@[i as int].span)));
        assert(cur.drop_last() =~= pre);
        match write_value(&items[i].value, fl) {
            Some(b) => {
                e.raw(b.as_slice());
                assert(e@ =~= start + (items_item(pre, fv)->Some_0 + b@));
            },
            None => {
                proof {
                    assert(items_item(cur, fv) is None);
                    lemma_items_hview_len(items@);
                    lemma_items_hview_take(items@, i + 1);
                    lemma_items_none_prefix(items_hview(items@), fv, i + 1);
                }
                return None;
            },
        }
        i = i + 1;
    }
    assert(items@.take(items@.len() as int) =~= items@);
    Some(e.into_bytes())
}

/// The encoding of an object, given the bits of its floats.
fn write_object(o: &HObject, fl: &Vec<(String, u32)>) -> (r: Option<Vec<u8>>)
    ensures
        opt_bytes(r) == value_item(HView::Object(entries_hview(o.entries@)), floats_view(fl@)),
    decreases *o,
{
    let ghost fv = floats_view(fl@);
    let ghost es = o.entries@;
    let mut d: Vec<(Vec<u8>, Vec<u8>)> = Vec::new();
    let mut i: usize = 0;
    assert(es.take(0) =~= Seq::<(Spanned<String>, Spanned<HValue>)>::empty());
    assert(pairs_view(d@) =~= Seq::<(Seq<u8>, Seq<u8>)>::empty());
    while i < o.entries.len()
        invariant
            i <= es.len(),
            es == o.entries@,
            fv == floats_view(fl@),
            entry_pairs(entries_hview(es.take(i as int)), fv) matches Some(ps) && pairs_view(d@) == sorted_pairs(ps),
        decreases es.len() - i,
    {
        assert(es.take(i + 1).drop_last() =~= es.take(i as int));
        let ghost ps = entry_pairs(entries_hview(es.take(i as int)), fv)->Some_0;
        proof {
            assert(decreases_to!(*o => (*o).entries));
            assert(decreases_to!(o.entries => o.entries@));
            assert(decreases_to!(o.entries@ => o.entries@[i as int]));
            assert(decreases_to!(o.entries@[i as int] => o.entries@[i as int].1));
            assert(decreases_to!(o.entries@[i as int].1 => o.entries@[i as int].1.value));
        }
        let b = match write_value(&o.entries[i].1.value, fl) {
            Some(b) => b,
            None => {
                proof {
                    let pre = entries_hview(es.take(i as int));
                    let cur = entries_hview(es.take(i + 1));
                    assert(cur.drop_last() =~= pre);
                    assert(entry_pairs(cur, fv) is None);
                    lemma_entries_hview_len(es);
                    lemma_entries_hview_take(es, i + 1);
                    lemma_entries_none_prefix(entries_hview(es), fv, i + 1);
                }
                return None;
            },
        };
        let mut ke = Enc::new();
        ke.text(o.entries[i].0.value.as_str());
        let k = ke.into_bytes();
        proof {
            assert(k@ =~= text_item(es[i as int].0.value@));
            let ps2 = ps.push((k@, b@));
            assert(ps2.drop_last() =~= ps);
            assert(entries_hview(es.take(i + 1)) == entries_hview(es.take(i as int)).push(
                (es[i as int].0.value@, es[i as int].0.span, hview(es[i as int].1.value), es[i as int].1.span),
            ));
            assert(entries_hview(es.take(i + 1)).drop_last() =~= entries_hview(es.take(i as int)));
            assert(entry_pairs(entries_hview(es.take(i + 1)), fv) == Some(ps2));
        }
        insert_pair(&mut d, k, b);
        i = i + 1;
    }
    assert(es.take(es.len() as int) =~= es);
    let ghost dv = pairs_view(d@);
    let mut e = Enc::new();
    e.head(major::MAP, d.len() as u64);
    let ghost start = e@;
    let mut j: usize = 0;
    assert(dv.take(0) =~= Seq::<(Seq<u8>, Seq<u8>)>::empty());
    while j < d.len()
        invariant
            j <= d@.len(),
            dv == pairs_view(d@),
            e@ == start + pairs_bytes(dv.take(j as int)),
        decreases d@.len() - j,
    {
        assert(dv.take(j + 1).drop_last() =~= dv.take(j as int));
        assert(dv[j as int] == (d@[j as int].0@, d@[j as int].1@));
        e.raw(d[j].0.as_slice());
        e.raw(d[j].1.as_slice());
        j = j + 1;
    }
    assert(dv.take(dv.len() as int) =~= dv);
    Some(e.into_bytes())
}

/// Encodes leftover header keys as a deterministic CBOR map, each float by the bits `floats`
/// gives its text: none for an empty object, so that one core has one encoding, and none
/// where a float's text has no bits in `floats`.
pub fn object_to_payload(o: &HObject, floats: &Vec<(String, u32)>) -> (r: Option<Vec<u8>>)
    ensures
        opt_bytes(r) == payload_of(entries_hview(o.entries@), floats_view(floats@)),
{
    proof {
        lemma_entries_hview_len(o.entries@);
    }
    if o.entries.len() == 0 {
        return None;
    }
    write_object(o, floats)
}

/// Viewing a prefix of entries is the prefix of their view.
pub proof fn lemma_entries_hview_take(s: Seq<(Spanned<String>, Spanned<HValue>)>, k: int)
    requires
        0 <= k <= s.len(),
    ensures
        entries_hview(s.take(k)) == entries_hview(s).take(k),
    decreases s.len(),
{
    lemma_entries_hview_len(s);
    lemma_entries_hview_len(s.take(k));
    if k < s.len() {
        lemma_entries_hview_take(s.drop_last(), k);
        assert(s.drop_last().take(k) =~= s.take(k));
        assert(entries_hview(s).take(k) =~= entries_hview(s.drop_last()).take(k));
    } else {
        assert(s.take(k) =~= s);
        assert(entries_hview(s).take(k) =~= entries_hview(s));
    }
}

/// Viewing a prefix of items is the prefix of their view.
pub proof fn lemma_items_hview_take(s: Seq<Spanned<HValue>>, k: int)
    requires
        0 <= k <= s.len(),
    ensures
        items_hview(s.take(k)) == items_hview(s).take(k),
    decreases s.len(),
{
    lemma_items_hview_len(s);
    lemma_items_hview_len(s.take(k));
    if k < s.len() {
        lemma_items_hview_take(s.drop_last(), k);
        assert(s.drop_last().take(k) =~= s.take(k));
        assert(items_hview(s).take(k) =~= items_hview(s.drop_last()).take(k));
    } else {
        assert(s.take(k) =~= s);
        assert(items_hview(s).take(k) =~= items_hview(s));
    }
}

/// An element without an encoding leaves the whole array without one.
pub proof fn lemma_items_none_prefix(s: Seq<(HView, crate::diag::Span)>, fl: Seq<(Seq<char>, u32)>, k: int)
    requires
        0 <= k <= s.len(),
        items_item(s.take(k), fl) is None,
    ensures
        items_item(s, fl) is None,
    decreases s.len(),
{
    if k < s.len() {
        assert(s.drop_last().take(k) =~= s.take(k));
        lemma_items_none_prefix(s.drop_last(), fl, k);
    } else {
        assert(s.take(k) =~= s);
    }
}

/// An entry without an encoding leaves the whole object without one.
pub proof fn lemma_entries_none_prefix(
    s: Seq<(Seq<char>, crate::diag::Span, HView, crate::diag::Span)>,
    fl: Seq<(Seq<char>, u32)>,
    k: int,
)
    requires
        0 <= k <= s.len(),
        entry_pairs(s.take(k), fl) is None,
    ensures
        entry_pairs(s, fl) is None,
    decreases s.len(),
{
    if k < s.len() {
        assert(s.drop_last().take(k) =~= s.take(k));
        lemma_entries_none_prefix(s.drop_last(), fl, k);
    } else {
        assert(s.take(k) =~= s);
    }
}

/// Viewing entries keeps their number.
pub proof fn lemma_entries_hview_len(s: Seq<(Spanned<String>, Spanned<HValue>)>)
    ensures
        entries_hview(s).len() == s.len(),
    decreases s.len(),
{
    if s.len() > 0 {
        lemma_entries_hview_len(s.drop_last());
    }
}

/// Viewing items keeps their number.
pub proof fn lemma_items_hview_len(s: Seq<Spanned<HValue>>)
    ensures
        items_hview(s).len() == s.len(),
    decreases s.len(),
{
    if s.len() > 0 {
        lemma_items_hview_len(s.drop_last());
    }
}

/// Adds an entry to entries kept in ascending key order, unless its key is there already.
fn insert_pair(d: &mut Vec<(Vec<u8>, Vec<u8>)>, k: Vec<u8>, v: Vec<u8>)
    ensures
        pairs_view(final(d)@) == ins_pair(pairs_view(old(d)@), (k@, v@)),
{
    let ghost dv = pairs_view(d@);
    let mut j: usize = 0;
    let mut go = true;
    while go && j < d.len()
        invariant
            j <= d@.len(),
            dv == pairs_view(d@),
            ins_pos(dv, k@, 0) == ins_pos(dv, k@, j as int),
            !go ==> j < d@.len() && !bytes_lt(dv[j as int].0, k@),
        decreases d@.len() - j, (if go { 1int } else { 0int }),
    {
        assert(dv[j as int] == (d@[j as int].0@, d@[j as int].1@));
        if bytes_less(d[j].0.as_slice(), k.as_slice()) {
            j = j + 1;
        } else {
            go = false;
        }
    }
    assert(ins_pos(dv, k@, j as int) == j);
    if j < d.len() {
        if bytes_eq(d[j].0.as_slice(), k.as_slice()) {
            return;
        }
    }
    d.insert(j, (k, v));
    assert(pairs_view(d@) =~= dv.insert(j as int, (k@, v@)));
}

/// Whether two byte strings are the same.
fn bytes_eq(a: &[u8], b: &[u8]) -> (r: bool)
    ensures
        r == (a@ == b@),
{
    if a.len() != b.len() {
        return false;
    }
    let mut i: usize = 0;
    while i < a.len()
        invariant
            i <= a.len(),
            a.len() == b.len(),
            forall|x: int| 0 <= x < i ==> a@[x] == b@[x],
        decreases a.len() - i,
    {
        if a[i] != b[i] {
            return false;
        }
        i = i + 1;
    }
    assert(a@ =~= b@);
    true
}

} // verus!
