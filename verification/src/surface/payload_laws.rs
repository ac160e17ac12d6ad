//! What reading a payload and writing it again keeps: every byte. Unknown header keys are
//! re-emitted verbatim, so a payload that reads back is exactly the payload its object
//! writes, given the bits of its floats.

use vstd::prelude::*;

use crate::cbor::envelope::text_item;
use crate::cbor::major;
use crate::cbor::order::{bytes_lt, lemma_bytes_lt_total, lemma_bytes_lt_transitive};
use crate::cbor::packinfo::{be32_bytes, be32_value, bits_quantised, f32_item};
use crate::cbor::reader::{expect_at, lemma_head_canonical, text_at};
use crate::cbor::writer::head_bytes;
use crate::cbor::{F32_HEAD, NULL};
use crate::diag::Span;
use crate::surface::hjson::HView;
use crate::surface::payload::{
    entries_at, entry_pairs, float_bits_of, float_text, ins_pos, items_at, items_item, key_lt, keys_ascend, map_at,
    no_span, object_at, pairs_bytes, payload_of, sorted_pairs, value_at, value_item, FALSE_ITEM, TRUE_ITEM,
};
use vstd::utf8::{decode_utf8, encode_utf8, valid_utf8};

verus! {

/// `x` orders before `y` at a byte both have, the bytes before it agreeing.
pub open spec fn splits_before(x: Seq<u8>, y: Seq<u8>) -> bool {
    exists|i: int|
        0 <= i < x.len() && i < y.len() && x[i] < y[i] && (forall|j: int| 0 <= j < i ==> #[trigger] x[j] == y[j])
}

/// A split before the end of both orders anything that follows them.
pub proof fn lemma_split_lt(x: Seq<u8>, y: Seq<u8>, a: Seq<u8>, b: Seq<u8>)
    requires
        splits_before(x, y),
    ensures
        bytes_lt(x + a, y + b),
    decreases x.len(),
{
    let i = choose|i: int|
        0 <= i < x.len() && i < y.len() && x[i] < y[i] && (forall|j: int| 0 <= j < i ==> #[trigger] x[j] == y[j]);
    assert((x + a)[0] == x[0] && (y + b)[0] == y[0]);
    if i > 0 {
        assert(x[0] == y[0]);
        let x1 = x.drop_first();
        let y1 = y.drop_first();
        assert(x1[i - 1] < y1[i - 1]);
        assert forall|j: int| 0 <= j < i - 1 implies #[trigger] x1[j] == y1[j] by {
            assert(x[j + 1] == y[j + 1]);
        }
        lemma_split_lt(x1, y1, a, b);
        assert((x + a).drop_first() =~= x1 + a);
        assert((y + b).drop_first() =~= y1 + b);
    }
}

/// A common prefix keeps the order of what follows it.
pub proof fn lemma_prefix_lt(h: Seq<u8>, a: Seq<u8>, b: Seq<u8>)
    requires
        bytes_lt(a, b),
    ensures
        bytes_lt(h + a, h + b),
    decreases h.len(),
{
    if h.len() == 0 {
        assert(h + a =~= a);
        assert(h + b =~= b);
    } else {
        lemma_prefix_lt(h.drop_first(), a, b);
        assert((h + a).drop_first() =~= h.drop_first() + a);
        assert((h + b).drop_first() =~= h.drop_first() + b);
    }
}

/// A shorter text string's head orders before a longer one's: heads grow with the length
/// they carry, first in their initial byte, then in their big-endian argument.
pub proof fn lemma_head_order(la: u64, lb: u64)
    requires
        la < lb,
    ensures
        splits_before(head_bytes(major::TEXT, la), head_bytes(major::TEXT, lb)),
{
    let ha = head_bytes(major::TEXT, la);
    let hb = head_bytes(major::TEXT, lb);
    if la < 24 || (la < 0x100 && lb >= 0x100) || (la < 0x1_0000 && lb >= 0x1_0000) || (la < 0x1_0000_0000 && lb
        >= 0x1_0000_0000) {
        assert(ha[0] < hb[0]);
        assert(forall|j: int| 0 <= j < 0 ==> #[trigger] ha[j] == hb[j]);
    } else if la < 0x100 {
        assert(ha[0] == hb[0] && ha[1] < hb[1]);
        assert(forall|j: int| 0 <= j < 1 ==> #[trigger] ha[j] == hb[j]);
    } else if la < 0x1_0000 {
        assert(((la >> 8u64) as u8) < ((lb >> 8u64) as u8) || (((la >> 8u64) as u8) == ((lb >> 8u64) as u8) && (la as u8)
            < (lb as u8))) by (bit_vector)
            requires
                la < lb,
                lb < 0x1_0000,
        ;
        if ha[1] < hb[1] {
            assert(forall|j: int| 0 <= j < 1 ==> #[trigger] ha[j] == hb[j]);
        } else {
            assert(forall|j: int| 0 <= j < 2 ==> #[trigger] ha[j] == hb[j]);
            assert(ha[2] < hb[2]);
        }
    } else if la < 0x1_0000_0000 {
        assert({
            let (a0, a1, a2, a3) = ((la >> 24u64) as u8, (la >> 16u64) as u8, (la >> 8u64) as u8, la as u8);
            let (b0, b1, b2, b3) = ((lb >> 24u64) as u8, (lb >> 16u64) as u8, (lb >> 8u64) as u8, lb as u8);
            a0 < b0 || (a0 == b0 && (a1 < b1 || (a1 == b1 && (a2 < b2 || (a2 == b2 && a3 < b3)))))
        }) by (bit_vector)
            requires
                la < lb,
                lb < 0x1_0000_0000,
        ;
        if ha[1] < hb[1] {
            assert(forall|j: int| 0 <= j < 1 ==> #[trigger] ha[j] == hb[j]);
        } else if ha[2] < hb[2] {
            assert(forall|j: int| 0 <= j < 2 ==> #[trigger] ha[j] == hb[j]);
        } else if ha[3] < hb[3] {
            assert(forall|j: int| 0 <= j < 3 ==> #[trigger] ha[j] == hb[j]);
        } else {
            assert(forall|j: int| 0 <= j < 4 ==> #[trigger] ha[j] == hb[j]);
            assert(ha[4] < hb[4]);
        }
    } else {
        assert({
            let (a0, a1, a2, a3) = ((la >> 56u64) as u8, (la >> 48u64) as u8, (la >> 40u64) as u8, (la >> 32u64) as u8);
            let (a4, a5, a6, a7) = ((la >> 24u64) as u8, (la >> 16u64) as u8, (la >> 8u64) as u8, la as u8);
            let (b0, b1, b2, b3) = ((lb >> 56u64) as u8, (lb >> 48u64) as u8, (lb >> 40u64) as u8, (lb >> 32u64) as u8);
            let (b4, b5, b6, b7) = ((lb >> 24u64) as u8, (lb >> 16u64) as u8, (lb >> 8u64) as u8, lb as u8);
            a0 < b0 || (a0 == b0 && (a1 < b1 || (a1 == b1 && (a2 < b2 || (a2 == b2 && (a3 < b3 || (a3 == b3 && (a4 < b4
                || (a4 == b4 && (a5 < b5 || (a5 == b5 && (a6 < b6 || (a6 == b6 && a7 < b7)))))))))))))
        }) by (bit_vector)
            requires
                la < lb,
        ;
        if ha[1] < hb[1] {
            assert(forall|j: int| 0 <= j < 1 ==> #[trigger] ha[j] == hb[j]);
        } else if ha[2] < hb[2] {
            assert(forall|j: int| 0 <= j < 2 ==> #[trigger] ha[j] == hb[j]);
        } else if ha[3] < hb[3] {
            assert(forall|j: int| 0 <= j < 3 ==> #[trigger] ha[j] == hb[j]);
        } else if ha[4] < hb[4] {
            assert(forall|j: int| 0 <= j < 4 ==> #[trigger] ha[j] == hb[j]);
        } else if ha[5] < hb[5] {
            assert(forall|j: int| 0 <= j < 5 ==> #[trigger] ha[j] == hb[j]);
        } else if ha[6] < hb[6] {
            assert(forall|j: int| 0 <= j < 6 ==> #[trigger] ha[j] == hb[j]);
        } else if ha[7] < hb[7] {
            assert(forall|j: int| 0 <= j < 7 ==> #[trigger] ha[j] == hb[j]);
        } else {
            assert(forall|j: int| 0 <= j < 8 ==> #[trigger] ha[j] == hb[j]);
            assert(ha[8] < hb[8]);
        }
    }
}


/// A raw key as the item that encodes it.
pub open spec fn raw_item(k: Seq<u8>) -> Seq<u8> {
    head_bytes(major::TEXT, k.len() as u64) + k
}

/// The order of payload keys by their bytes is the order of their encoded items.
pub proof fn lemma_key_order(a: Seq<u8>, b: Seq<u8>)
    requires
        key_lt(a, b),
        b.len() <= u64::MAX,
    ensures
        bytes_lt(raw_item(a), raw_item(b)),
{
    let ha = head_bytes(major::TEXT, a.len() as u64);
    let hb = head_bytes(major::TEXT, b.len() as u64);
    if a.len() < b.len() {
        lemma_head_order(a.len() as u64, b.len() as u64);
        lemma_split_lt(ha, hb, a, b);
    } else {
        lemma_prefix_lt(ha, a, b);
    }
}


/// Prepending an element to an array.
proof fn lemma_items_front(x: (HView, Span), xs: Seq<(HView, Span)>, fl: Seq<(Seq<char>, u32)>)
    ensures
        items_item(seq![x] + xs, fl) == match (value_item(x.0, fl), items_item(xs, fl)) {
            (Some(a), Some(b)) => Some(a + b),
            _ => None,
        },
    decreases xs.len(),
{
    let t = seq![x] + xs;
    if xs.len() == 0 {
        assert(t.drop_last() =~= Seq::<(HView, Span)>::empty());
        assert(t.last() == x);
        assert(items_item(t.drop_last(), fl) == Some(Seq::<u8>::empty()));
        if let Some(a) = value_item(x.0, fl) {
            assert(Seq::<u8>::empty() + a =~= a + Seq::<u8>::empty());
        }
    } else {
        lemma_items_front(x, xs.drop_last(), fl);
        assert((seq![x] + xs).drop_last() =~= seq![x] + xs.drop_last());
        assert((seq![x] + xs).last() == xs.last());
        if let (Some(a), Some(b)) = (value_item(x.0, fl), items_item(xs.drop_last(), fl)) {
            if let Some(c) = value_item(xs.last().0, fl) {
                assert(a + b + c =~= a + (b + c));
            }
        }
    }
}

/// Prepending an entry to an object.
proof fn lemma_entries_front(
    e: (Seq<char>, Span, HView, Span),
    es: Seq<(Seq<char>, Span, HView, Span)>,
    fl: Seq<(Seq<char>, u32)>,
)
    ensures
        entry_pairs(seq![e] + es, fl) == match (value_item(e.2, fl), entry_pairs(es, fl)) {
            (Some(b), Some(ps)) => Some(seq![(text_item(e.0), b)] + ps),
            _ => None,
        },
    decreases es.len(),
{
    let t = seq![e] + es;
    if es.len() == 0 {
        assert(t.drop_last() =~= Seq::<(Seq<char>, Span, HView, Span)>::empty());
        assert(t.last() == e);
        assert(entry_pairs(t.drop_last(), fl) == Some(Seq::<(Seq<u8>, Seq<u8>)>::empty()));
        if let Some(b) = value_item(e.2, fl) {
            assert(Seq::<(Seq<u8>, Seq<u8>)>::empty().push((text_item(e.0), b)) =~= seq![(text_item(e.0), b)]
                + Seq::<(Seq<u8>, Seq<u8>)>::empty());
        }
    } else {
        lemma_entries_front(e, es.drop_last(), fl);
        assert((seq![e] + es).drop_last() =~= seq![e] + es.drop_last());
        assert((seq![e] + es).last() == es.last());
        if let (Some(b), Some(ps)) = (value_item(e.2, fl), entry_pairs(es.drop_last(), fl)) {
            if let Some(c) = value_item(es.last().2, fl) {
                assert((seq![(text_item(e.0), b)] + ps).push((text_item(es.last().0), c)) =~= seq![(text_item(e.0), b)]
                    + ps.push((text_item(es.last().0), c)));
            }
        }
    }
}

/// Prepending a pair to a map's entries.
proof fn lemma_pairs_front(x: (Seq<u8>, Seq<u8>), d: Seq<(Seq<u8>, Seq<u8>)>)
    ensures
        pairs_bytes(seq![x] + d) == x.0 + x.1 + pairs_bytes(d),
    decreases d.len(),
{
    let t = seq![x] + d;
    if d.len() == 0 {
        assert(t.drop_last() =~= Seq::<(Seq<u8>, Seq<u8>)>::empty());
        assert(t.last() == x);
        assert(pairs_bytes(t.drop_last()) == Seq::<u8>::empty());
        assert(Seq::<u8>::empty() + x.0 + x.1 =~= x.0 + x.1 + Seq::<u8>::empty());
    } else {
        lemma_pairs_front(x, d.drop_last());
        assert((seq![x] + d).drop_last() =~= seq![x] + d.drop_last());
        assert((seq![x] + d).last() == d.last());
        assert(x.0 + x.1 + pairs_bytes(d.drop_last()) + d.last().0 + d.last().1 =~= x.0 + x.1 + (pairs_bytes(
            d.drop_last(),
        ) + d.last().0 + d.last().1));
    }
}

/// Entries already in ascending key order are laid out as they are.
proof fn lemma_sorted_identity(ps: Seq<(Seq<u8>, Seq<u8>)>)
    requires
        keys_ascend(ps),
    ensures
        sorted_pairs(ps) == ps,
    decreases ps.len(),
{
    if ps.len() > 0 {
        let pre = ps.drop_last();
        assert forall|i: int, j: int| 0 <= i < j < pre.len() implies bytes_lt(#[trigger] pre[i].0, #[trigger] pre[j].0) by {
            assert(pre[i] == ps[i] && pre[j] == ps[j]);
        }
        lemma_sorted_identity(pre);
        lemma_ins_pos_end(pre, ps.last().0, 0, ps);
        if pre.len() > 0 {
            assert(bytes_lt(ps[pre.len() - 1].0, ps.last().0));
            lemma_bytes_lt_total(ps.last().0, ps.last().0);
        }
        assert(pre.insert(pre.len() as int, ps.last()) =~= ps);
    }
}

proof fn lemma_ins_pos_end(d: Seq<(Seq<u8>, Seq<u8>)>, k: Seq<u8>, j: int, ps: Seq<(Seq<u8>, Seq<u8>)>)
    requires
        0 <= j <= d.len(),
        ps.len() == d.len() + 1,
        ps.last().0 == k,
        forall|i: int| 0 <= i < d.len() ==> d[i] == ps[i],
        keys_ascend(ps),
    ensures
        ins_pos(d, k, j) == d.len(),
    decreases d.len() - j,
{
    if j < d.len() {
        assert(bytes_lt(ps[j].0, ps[ps.len() - 1].0));
        lemma_ins_pos_end(d, k, j + 1, ps);
    }
}

/// The table gives each float text it lists the bits that text was read from.
pub open spec fn table_sound(fl: Seq<(Seq<char>, u32)>) -> bool {
    forall|b: u32| bits_quantised(b) && (#[trigger] float_bits_of(fl, float_text(b))) is Some ==> float_bits_of(fl, float_text(b)) == Some(b)
}

/// Four bytes spell the number whose big-endian bytes they are.
proof fn lemma_be32_round(x: Seq<u8>)
    requires
        x.len() == 4,
    ensures
        be32_bytes(be32_value(x)) == x,
{
    let (x0, x1, x2, x3) = (x[0], x[1], x[2], x[3]);
    let v = be32_value(x);
    assert(v == ((x0 as u32) * 0x100_0000 + (x1 as u32) * 0x1_0000 + (x2 as u32) * 0x100 + (x3 as u32)) as u32);
    assert(((v / 0x100_0000) as u8) == x0 && (((v / 0x1_0000) % 256) as u8) == x1 && (((v / 0x100) % 256) as u8) == x2 && ((v
        % 256) as u8) == x3) by (bit_vector)
        requires
            v == ((x0 as u32) * 0x100_0000 + (x1 as u32) * 0x1_0000 + (x2 as u32) * 0x100 + (x3 as u32)) as u32,
    ;
    assert(be32_bytes(v) =~= x);
}


/// A head read as major type `want` is the head written for what was read.
proof fn lemma_expect_span(s: Seq<u8>, p: int, want: u8)
    requires
        expect_at(s, p, want).0 is Ok,
    ensures
        p < expect_at(s, p, want).1 <= s.len(),
        want < 8,
        s.subrange(p, expect_at(s, p, want).1) == head_bytes(want, expect_at(s, p, want).0->Ok_0),
{
    lemma_head_canonical(s, p);
}

/// Text read at `p` is the item written for its bytes, and its bytes are UTF-8.
proof fn lemma_text_span(s: Seq<u8>, p: int)
    requires
        text_at(s, p).0 is Ok,
        u64::MAX <= usize::MAX,
    ensures
        p < text_at(s, p).1 <= s.len(),
        s.subrange(p, text_at(s, p).1) == raw_item(text_at(s, p).0->Ok_0),
        valid_utf8(text_at(s, p).0->Ok_0),
        encode_utf8(decode_utf8(text_at(s, p).0->Ok_0)) == text_at(s, p).0->Ok_0,
        text_item(decode_utf8(text_at(s, p).0->Ok_0)) == raw_item(text_at(s, p).0->Ok_0),
{
    lemma_expect_span(s, p, major::TEXT);
    let (a, q0) = (expect_at(s, p, major::TEXT).0->Ok_0, expect_at(s, p, major::TEXT).1);
    let end = text_at(s, p).1;
    let raw = text_at(s, p).0->Ok_0;
    assert(raw == s.subrange(q0, end));
    assert(raw.len() == a);
    vstd::utf8::decode_utf8_encode_utf8(raw);
    assert(s.subrange(p, end) =~= s.subrange(p, q0) + s.subrange(q0, end));
}

/// Reading a value at `p` and encoding what was read gives back the bytes read, when the
/// table gives each float the bits it was read from.
pub proof fn lemma_value_reemit(s: Seq<u8>, p: int, fl: Seq<(Seq<char>, u32)>)
    requires
        u64::MAX <= usize::MAX,
        table_sound(fl),
        value_at(s, p).0 is Ok,
        value_item(value_at(s, p).0->Ok_0, fl) is Some,
    ensures
        p < value_at(s, p).1 <= s.len(),
        value_item(value_at(s, p).0->Ok_0, fl) == Some(s.subrange(p, value_at(s, p).1)),
    decreases s.len() - p, 2int,
{
    let b = s[p];
    let (r, q) = value_at(s, p);
    let v = r->Ok_0;
    if b == NULL || b == FALSE_ITEM || b == TRUE_ITEM {
        assert(s.subrange(p, p + 1) =~= seq![b]);
    } else if b == F32_HEAD {
        let x = s.subrange(p + 1, p + 5);
        lemma_be32_round(x);
        let bits = be32_value(x);
        assert(s.subrange(p, p + 5) =~= f32_item(bits));
    } else if b / 32 == major::UINT {
        lemma_expect_span(s, p, major::UINT);
    } else if b / 32 == major::NEGINT {
        lemma_head_canonical(s, p);
    } else if b / 32 == major::TEXT {
        lemma_text_span(s, p);
    } else if b / 32 == major::ARRAY {
        lemma_expect_span(s, p, major::ARRAY);
        let (n, q0) = (expect_at(s, p, major::ARRAY).0->Ok_0, expect_at(s, p, major::ARRAY).1);
        lemma_items_reemit(s, q0, (n as usize) as int, fl);
        assert(s.subrange(p, q) =~= s.subrange(p, q0) + s.subrange(q0, q));
    } else {
        lemma_map_reemit(s, p, fl);
    }
}

/// Reading `n` values in a row and encoding them gives back the bytes read.
pub proof fn lemma_items_reemit(s: Seq<u8>, p: int, n: int, fl: Seq<(Seq<char>, u32)>)
    requires
        u64::MAX <= usize::MAX,
        table_sound(fl),
        0 <= p <= s.len(),
        0 <= n,
        items_at(s, p, n).0 is Ok,
        items_item(items_at(s, p, n).0->Ok_0, fl) is Some,
    ensures
        p <= items_at(s, p, n).1 <= s.len(),
        items_at(s, p, n).0->Ok_0.len() == n,
        items_item(items_at(s, p, n).0->Ok_0, fl) == Some(s.subrange(p, items_at(s, p, n).1)),
    decreases s.len() - p, 3int,
{
    if n == 0 {
        assert(s.subrange(p, p) =~= Seq::<u8>::empty());
    } else {
        let (v, q1) = (value_at(s, p).0->Ok_0, value_at(s, p).1);
        let (xs, q2) = (items_at(s, q1, n - 1).0->Ok_0, items_at(s, q1, n - 1).1);
        lemma_items_front((v, no_span()), xs, fl);
        lemma_value_reemit(s, p, fl);
        lemma_items_reemit(s, q1, n - 1, fl);
        assert(s.subrange(p, q2) =~= s.subrange(p, q1) + s.subrange(q1, q2));
    }
}

/// Reading a map and encoding it gives back the bytes read.
pub proof fn lemma_map_reemit(s: Seq<u8>, p: int, fl: Seq<(Seq<char>, u32)>)
    requires
        u64::MAX <= usize::MAX,
        table_sound(fl),
        map_at(s, p).0 is Ok,
        value_item(HView::Object(map_at(s, p).0->Ok_0), fl) is Some,
    ensures
        p < map_at(s, p).1 <= s.len(),
        value_item(HView::Object(map_at(s, p).0->Ok_0), fl) == Some(s.subrange(p, map_at(s, p).1)),
    decreases s.len() - p, 1int,
{
    lemma_expect_span(s, p, major::MAP);
    let (n, q0) = (expect_at(s, p, major::MAP).0->Ok_0, expect_at(s, p, major::MAP).1);
    let es = map_at(s, p).0->Ok_0;
    let q = map_at(s, p).1;
    lemma_entries_reemit(s, q0, (n as usize) as int, None, p, fl);
    let ps = entry_pairs(es, fl)->Some_0;
    lemma_sorted_identity(ps);
    assert(s.subrange(p, q) =~= s.subrange(p, q0) + s.subrange(q0, q));
}

/// Reading `n` map entries after a key `prev` and encoding them gives back the bytes read:
/// their encoded keys ascend, all above `prev`'s.
pub proof fn lemma_entries_reemit(s: Seq<u8>, p: int, n: int, prev: Option<Seq<u8>>, at: int, fl: Seq<(Seq<char>, u32)>)
    requires
        u64::MAX <= usize::MAX,
        table_sound(fl),
        0 <= p <= s.len(),
        0 <= n,
        prev matches Some(pk) ==> pk.len() <= u64::MAX,
        entries_at(s, p, n, prev, at).0 is Ok,
        entry_pairs(entries_at(s, p, n, prev, at).0->Ok_0, fl) is Some,
    ensures
        p <= entries_at(s, p, n, prev, at).1 <= s.len(),
        ({
            let ps = entry_pairs(entries_at(s, p, n, prev, at).0->Ok_0, fl)->Some_0;
            &&& ps.len() == n
            &&& keys_ascend(ps)
            &&& pairs_bytes(ps) == s.subrange(p, entries_at(s, p, n, prev, at).1)
            &&& prev matches Some(pk) ==> forall|i: int| 0 <= i < ps.len() ==> bytes_lt(raw_item(pk), #[trigger] ps[i].0)
        }),
    decreases s.len() - p, 0int,
{
    if n == 0 {
        assert(s.subrange(p, p) =~= Seq::<u8>::empty());
    } else {
        let (k, q1) = (text_at(s, p).0->Ok_0, text_at(s, p).1);
        lemma_text_span(s, p);
        let (v, q2) = (value_at(s, q1).0->Ok_0, value_at(s, q1).1);
        let (rest, q3) = (entries_at(s, q2, n - 1, Some(k), at).0->Ok_0, entries_at(s, q2, n - 1, Some(k), at).1);
        let e = (decode_utf8(k), no_span(), v, no_span());
        lemma_entries_front(e, rest, fl);
        lemma_value_reemit(s, q1, fl);
        lemma_entries_reemit(s, q2, n - 1, Some(k), at, fl);
        let vb = value_item(v, fl)->Some_0;
        let pr = entry_pairs(rest, fl)->Some_0;
        let p0 = (raw_item(k), vb);
        let ps = seq![p0] + pr;
        assert(entry_pairs(seq![e] + rest, fl) == Some(ps));
        lemma_pairs_front(p0, pr);
        assert(s.subrange(p, q3) =~= s.subrange(p, q1) + s.subrange(q1, q2) + s.subrange(q2, q3));
        assert forall|i: int, j: int| 0 <= i < j < ps.len() implies bytes_lt(#[trigger] ps[i].0, #[trigger] ps[j].0) by {
            if i == 0 {
                assert(ps[j] == pr[j - 1]);
            } else {
                assert(ps[i] == pr[i - 1] && ps[j] == pr[j - 1]);
            }
        }
        if let Some(pk) = prev {
            lemma_key_order(pk, k);
            assert forall|i: int| 0 <= i < ps.len() implies bytes_lt(raw_item(pk), #[trigger] ps[i].0) by {
                if i > 0 {
                    assert(ps[i] == pr[i - 1]);
                    lemma_bytes_lt_transitive(raw_item(pk), raw_item(k), pr[i - 1].0);
                }
            }
        }
    }
}

/// Rule X: a payload that reads back is re-emitted byte for byte. Reading an object from a
/// payload and encoding it again, each float by the bits it was read from, gives back the
/// bytes the map took; and a map with entries is all a payload is.
pub proof fn lemma_payload_reemitted(s: Seq<u8>, fl: Seq<(Seq<char>, u32)>)
    requires
        u64::MAX <= usize::MAX,
        table_sound(fl),
        object_at(s) is Ok,
        value_item(HView::Object(object_at(s)->Ok_0), fl) is Some,
    ensures
        value_item(HView::Object(object_at(s)->Ok_0), fl) == Some(s.subrange(0, map_at(s, 0).1)),
        object_at(s)->Ok_0.len() > 0 ==> payload_of(object_at(s)->Ok_0, fl) == Some(s.subrange(0, map_at(s, 0).1)),
{
    lemma_map_reemit(s, 0, fl);
}

} // verus!
