//! What a read gives back of a write, for a pack's self-description: read from the bytes its
//! writer made, it is that description again, its dropped and degraded units in order.

use vstd::prelude::*;
use crate::cbor::decode::null_check;
use crate::cbor::envelope::{extra_above, extra_entries, lemma_ascending_steps, opt_entry, text_item};
use crate::cbor::keys;
use crate::cbor::major;
use crate::cbor::packinfo::{
    be32_bytes, be32_value, bits_quantised, degraded_items, degraded_view, dropped_items, dropped_view,
    f32_item, f32q_at, no_packinfo_fields, optimality_at, optimality_item, opt_thread_view, pack_mode_of, packinfo_at,
    packinfo_encoding, packinfo_fields, packinfo_value, packinfo_view, packinfo_walk, pair_at, pair_code_ok, pair_item,
    pairs_walk, PackInfoView,
};
use crate::cbor::payloads::array_entry;
use crate::cbor::reader::skip_at;
use crate::cbor::round_trip::{
    entries_map, last_key, lemma_bytes_read, lemma_concat_front, lemma_entries_map_view, lemma_entry_items_concat,
    lemma_entry_items_len, lemma_expect_read, lemma_extra_list_exists, lemma_head_not_null, lemma_key_read,
    lemma_map_bytes_sorted, lemma_split, lemma_text_read, one_item, stands_at,
};
use crate::cbor::writer::{concat_items, entry_items, extra_in_order, head_bytes, keys_ascending, uid_item};
use crate::error::CodecError;
use crate::ids::{label_shaped, Uid};
use crate::nfc::nfc_of;
use crate::types::annex::{DropReason, Optimality, PackInfo, PackMode};
use crate::types::epistemics::Lod;

verus! {

/// Four bytes spell back the number they were written from.
proof fn lemma_be32(b: u32)
    ensures
        be32_value(be32_bytes(b)) == b,
{
    let x = be32_bytes(b);
    assert(x[0] == (b / 0x100_0000) as u8);
    assert(x[1] == ((b / 0x1_0000) % 256) as u8);
    assert(x[2] == ((b / 0x100) % 256) as u8);
    assert(x[3] == (b % 256) as u8);
    assert(((b / 0x100_0000) as u8) as int * 0x100_0000 + (((b / 0x1_0000) % 256) as u8) as int * 0x1_0000 + ((
    (b / 0x100) % 256) as u8) as int * 0x100 + ((b % 256) as u8) as int == b) by (nonlinear_arith);
}

/// A quantised `binary32` reads back as its bit pattern.
pub(crate) proof fn lemma_f32_read(b: u32, s: Seq<u8>, p: int)
    requires
        bits_quantised(b),
        stands_at(s, p, f32_item(b)),
    ensures
        f32q_at(s, p) == (Ok::<u32, CodecError>(b), p + 5),
        null_check(s, p) is None,
{
    let x = f32_item(b);
    assert(s[p] == x[0]);
    assert(s.subrange(p + 1, p + 5) =~= be32_bytes(b)) by {
        assert forall|i: int| 0 <= i < 4 implies s.subrange(p + 1, p + 5)[i] == be32_bytes(b)[i] by {
            assert(s[p + 1 + i] == x[1 + i]);
        }
    }
    lemma_be32(b);
}

/// Each wire code names at most one pack mode.
proof fn lemma_pack_mode_code(k: PackMode)
    ensures
        pack_mode_of(k.code_view()) == Some(k),
{
    let j = choose|j: PackMode| j.code_view() == k.code_view();
    assert(j == k) by {
        match (j, k) {
            (PackMode::Greedy, PackMode::Greedy) => {},
            (PackMode::Exact, PackMode::Exact) => {},
            _ => {},
        }
    }
}

/// How a pack was chosen reads back as itself.
proof fn lemma_optimality_read(o: Optimality, s: Seq<u8>, p: int)
    requires
        bits_quantised(o.gap),
        stands_at(s, p, optimality_item(o)),
    ensures
        optimality_at(s, p) == (Ok::<(PackMode, u32), CodecError>((o.mode, o.gap)), p + optimality_item(o).len()),
        null_check(s, p) is None,
{
    let h = head_bytes(major::ARRAY, 2);
    let c = head_bytes(major::UINT, o.mode.code_view() as u64);
    let f = f32_item(o.gap);
    assert(optimality_item(o) =~= h + (c + f));
    lemma_split(s, p, h, c + f);
    lemma_split(s, p + h.len(), c, f);
    lemma_expect_read(major::ARRAY, 2, s, p);
    lemma_head_not_null(major::ARRAY, 2, s, p);
    lemma_expect_read(major::UINT, o.mode.code_view() as u64, s, p + h.len());
    lemma_pack_mode_code(o.mode);
    lemma_f32_read(o.gap, s, p + h.len() + c.len());
}

/// A pair reads back as its uid and code.
proof fn lemma_pair_read(u: Uid, c: u8, lod: bool, s: Seq<u8>, p: int)
    requires
        pair_code_ok(lod, c),
        stands_at(s, p, pair_item(u, c)),
        s.len() <= usize::MAX,
    ensures
        pair_at(s, p, lod) == (Ok::<(Seq<u8>, u8), CodecError>((u.bytes(), c)), p + pair_item(u, c).len()),
{
    let h = head_bytes(major::ARRAY, 2);
    let ui = uid_item(u);
    let ci = head_bytes(major::UINT, c as u64);
    assert(pair_item(u, c) =~= h + (ui + ci));
    lemma_split(s, p, h, ui + ci);
    lemma_split(s, p + h.len(), ui, ci);
    lemma_expect_read(major::ARRAY, 2, s, p);
    crate::ids::lemma_uid_bytes_len(u);
    lemma_bytes_read(u.bytes(), s, p + h.len());
    lemma_expect_read(major::UINT, c as u64, s, p + h.len() + ui.len());
}

/// Pairs from `j` on read back in order.
proof fn lemma_pairs_walk(us: Seq<Uid>, cs: Seq<u8>, lod: bool, j: int, s: Seq<u8>, p: int)
    requires
        us.len() == cs.len(),
        0 <= j <= us.len(),
        forall|i: int| 0 <= i < cs.len() ==> pair_code_ok(lod, #[trigger] cs[i]),
        stands_at(s, p, concat_items(Seq::new(us.len(), |i: int| pair_item(us[i], cs[i])).skip(j))),
        s.len() <= usize::MAX,
    ensures
        pairs_walk(s, p, (us.len() - j) as nat, lod) == (
            Ok::<_, CodecError>(Seq::new((us.len() - j) as nat, |i: int| (us[j + i].bytes(), cs[j + i]))),
            p + concat_items(Seq::new(us.len(), |i: int| pair_item(us[i], cs[i])).skip(j)).len(),
        ),
    decreases us.len() - j,
{
    let items = Seq::new(us.len(), |i: int| pair_item(us[i], cs[i]));
    if j == us.len() {
        assert(items.skip(j) =~= Seq::<Seq<u8>>::empty());
        assert(Seq::new((us.len() - j) as nat, |i: int| (us[j + i].bytes(), cs[j + i])) =~= Seq::<(Seq<u8>, u8)>::empty());
    } else {
        let x = items[j];
        assert(items.skip(j) =~= seq![x] + items.skip(j + 1));
        lemma_concat_front(x, items.skip(j + 1));
        lemma_split(s, p, x, concat_items(items.skip(j + 1)));
        lemma_pair_read(us[j], cs[j], lod, s, p);
        lemma_pairs_walk(us, cs, lod, j + 1, s, p + x.len());
        assert(Seq::new((us.len() - j) as nat, |i: int| (us[j + i].bytes(), cs[j + i])) =~= seq![(us[j].bytes(), cs[j])]
            + Seq::new((us.len() - j - 1) as nat, |i: int| (us[j + 1 + i].bytes(), cs[j + 1 + i])));
    }
}

/// The dropped units of a pack read back as written.
proof fn lemma_dropped_read(v: Seq<(Uid, DropReason)>, s: Seq<u8>, p: int)
    requires
        v.len() > 0,
        stands_at(s, p, head_bytes(major::ARRAY, v.len() as u64) + concat_items(dropped_items(v))),
        s.len() <= usize::MAX,
    ensures
        crate::cbor::packinfo::pairs_at(s, p, false) == (
            Ok::<_, CodecError>(dropped_view(v)),
            p + head_bytes(major::ARRAY, v.len() as u64).len() + concat_items(dropped_items(v)).len(),
        ),
        null_check(s, p) is None,
{
    let us = Seq::new(v.len(), |i: int| v[i].0);
    let cs = Seq::new(v.len(), |i: int| v[i].1.code_view());
    assert(dropped_items(v) =~= Seq::new(us.len(), |i: int| pair_item(us[i], cs[i])));
    assert forall|i: int| 0 <= i < cs.len() implies pair_code_ok(false, #[trigger] cs[i]) by {
        assert(v[i].1.code_view() == cs[i]);
    }
    let h = head_bytes(major::ARRAY, v.len() as u64);
    lemma_split(s, p, h, concat_items(dropped_items(v)));
    lemma_expect_read(major::ARRAY, v.len() as u64, s, p);
    lemma_head_not_null(major::ARRAY, v.len() as u64, s, p);
    assert(dropped_items(v).skip(0) =~= dropped_items(v));
    assert(v.len() <= usize::MAX) by {
        assert forall|j: int| 0 <= j < dropped_items(v).len() implies (#[trigger] dropped_items(v)[j]).len() > 0 by {
            assert(head_bytes(major::ARRAY, 2).len() > 0);
        }
        lemma_items_len(dropped_items(v));
    }
    lemma_pairs_walk(us, cs, false, 0, s, p + h.len());
    assert(Seq::new(us.len(), |i: int| (us[0 + i].bytes(), cs[0 + i])) =~= dropped_view(v));
}

/// The degraded units of a pack read back as written.
proof fn lemma_degraded_read(v: Seq<(Uid, Lod)>, s: Seq<u8>, p: int)
    requires
        v.len() > 0,
        stands_at(s, p, head_bytes(major::ARRAY, v.len() as u64) + concat_items(degraded_items(v))),
        s.len() <= usize::MAX,
    ensures
        crate::cbor::packinfo::pairs_at(s, p, true) == (
            Ok::<_, CodecError>(degraded_view(v)),
            p + head_bytes(major::ARRAY, v.len() as u64).len() + concat_items(degraded_items(v)).len(),
        ),
        null_check(s, p) is None,
{
    let us = Seq::new(v.len(), |i: int| v[i].0);
    let cs = Seq::new(v.len(), |i: int| v[i].1.code_view());
    assert(degraded_items(v) =~= Seq::new(us.len(), |i: int| pair_item(us[i], cs[i])));
    assert forall|i: int| 0 <= i < cs.len() implies pair_code_ok(true, #[trigger] cs[i]) by {
        assert(v[i].1.code_view() == cs[i]);
    }
    let h = head_bytes(major::ARRAY, v.len() as u64);
    lemma_split(s, p, h, concat_items(degraded_items(v)));
    lemma_expect_read(major::ARRAY, v.len() as u64, s, p);
    lemma_head_not_null(major::ARRAY, v.len() as u64, s, p);
    assert(degraded_items(v).skip(0) =~= degraded_items(v));
    assert(v.len() <= usize::MAX) by {
        assert forall|j: int| 0 <= j < degraded_items(v).len() implies (#[trigger] degraded_items(v)[j]).len() > 0 by {
            assert(head_bytes(major::ARRAY, 2).len() > 0);
        }
        lemma_items_len(degraded_items(v));
    }
    lemma_pairs_walk(us, cs, true, 0, s, p + h.len());
    assert(Seq::new(us.len(), |i: int| (us[0 + i].bytes(), cs[0 + i])) =~= degraded_view(v));
}

/// A list of non-empty items is at least as long as the list.
proof fn lemma_items_len(o: Seq<Seq<u8>>)
    requires
        forall|j: int| 0 <= j < o.len() ==> (#[trigger] o[j]).len() > 0,
    ensures
        concat_items(o).len() >= o.len(),
    decreases o.len(),
{
    if o.len() > 0 {
        lemma_items_len(o.drop_last());
    }
}

/// The entry the writer makes for known key `k` of a pack's self-description: none, or one.
pub open spec fn pk_seg(p: PackInfo, k: int) -> Seq<(u16, Seq<u8>)> {
    if k == 0 {
        seq![(keys::packinfo::BUDGET, head_bytes(major::UINT, p.budget))]
    } else if k == 1 {
        seq![(keys::packinfo::USED, head_bytes(major::UINT, p.used))]
    } else if k == 2 {
        opt_entry(
            keys::packinfo::THREAD,
            match p.thread {
                Some(t) => Some(text_item(t@)),
                None => None,
            },
        )
    } else if k == 3 {
        array_entry(keys::packinfo::DROPPED, dropped_items(p.dropped@))
    } else if k == 4 {
        array_entry(keys::packinfo::DEGRADED, degraded_items(p.degraded@))
    } else if k == 5 {
        seq![(keys::packinfo::OPTIMALITY, optimality_item(p.optimality))]
    } else {
        seq![(keys::packinfo::ESTIMATOR, text_item(p.estimator@))]
    }
}

/// The entries for known keys below `k`.
pub open spec fn pk_segs(p: PackInfo, k: nat) -> Seq<(u16, Seq<u8>)>
    decreases k,
{
    if k == 0 {
        Seq::empty()
    } else {
        pk_segs(p, (k - 1) as nat) + pk_seg(p, k - 1)
    }
}

/// The fields of `p` whose keys lie below `b`, as the reader holds them once it has read that
/// far.
pub open spec fn pk_below(p: PackInfo, b: int) -> PackInfoView {
    let d = no_packinfo_fields();
    PackInfoView {
        budget: if b > 0 { p.budget } else { d.budget },
        used: if b > 1 { p.used } else { d.used },
        thread: if b > 2 { opt_thread_view(p.thread) } else { d.thread },
        dropped: if b > 3 { dropped_view(p.dropped@) } else { d.dropped },
        degraded: if b > 4 { degraded_view(p.degraded@) } else { d.degraded },
        mode: if b > 5 { p.optimality.mode } else { d.mode },
        gap: if b > 5 { p.optimality.gap } else { d.gap },
        estimator: if b > 6 { p.estimator@ } else { d.estimator },
        extra: Map::empty(),
    }
}

/// What the writer of a pack's self-description promises the reader: a well-formed thread id
/// and text in NFC, and a quantised gap.
pub open spec fn packinfo_writable(p: PackInfo) -> bool {
    &&& (p.thread matches Some(t) ==> label_shaped(t@) && nfc_of(t@) == t@)
    &&& nfc_of(p.estimator@) == p.estimator@
    &&& bits_quantised(p.optimality.gap)
}

/// Reading one entry of a pack's map.
proof fn lemma_pk_walk_one(
    s: Seq<u8>,
    at: int,
    p: int,
    n: nat,
    prev: Option<u16>,
    st: PackInfoView,
    k: u16,
    v: Seq<u8>,
    st2: PackInfoView,
)
    requires
        n > 0,
        stands_at(s, p, head_bytes(major::UINT, k as u64) + v),
        prev matches Some(pk) ==> pk < k,
        null_check(s, p + head_bytes(major::UINT, k as u64).len()) is None,
        packinfo_value(s, at, p + head_bytes(major::UINT, k as u64).len(), k, st) == (
            Ok::<PackInfoView, CodecError>(st2),
            p + head_bytes(major::UINT, k as u64).len() + v.len(),
        ),
    ensures
        packinfo_walk(s, at, p, n, prev, st) == packinfo_walk(
            s,
            at,
            p + head_bytes(major::UINT, k as u64).len() + v.len(),
            (n - 1) as nat,
            Some(k),
            st2,
        ),
{
    reveal(packinfo_walk);
    lemma_split(s, p, head_bytes(major::UINT, k as u64), v);
    lemma_key_read(k, prev, s, p);
}

/// Reading the entry for known key `k`, if the description has one, takes the reader from
/// the fields below `k` to the fields below `k + 1`.
#[verifier::rlimit(60)]
proof fn lemma_pk_seg(pk: PackInfo, s: Seq<u8>, at: int, p: int, n: nat, prev: Option<u16>, k: int)
    requires
        0 <= k <= 6,
        packinfo_writable(pk),
        n >= pk_seg(pk, k).len(),
        stands_at(s, p, entry_items(pk_seg(pk, k))),
        s.len() <= usize::MAX,
        prev matches Some(x) ==> x < k,
    ensures
        packinfo_walk(s, at, p, n, prev, pk_below(pk, k)) == packinfo_walk(
            s,
            at,
            p + entry_items(pk_seg(pk, k)).len(),
            (n - pk_seg(pk, k).len()) as nat,
            if pk_seg(pk, k).len() == 0 { prev } else { Some(k as u16) },
            pk_below(pk, k + 1),
        ),
{
    let e = pk_seg(pk, k);
    if e.len() == 0 {
        assert(entry_items(e) =~= Seq::<u8>::empty());
        if k == 3 {
            assert(dropped_view(pk.dropped@) =~= Seq::<(Seq<u8>, u8)>::empty());
        }
        if k == 4 {
            assert(degraded_view(pk.degraded@) =~= Seq::<(Seq<u8>, u8)>::empty());
        }
        assert(pk_below(pk, k) == pk_below(pk, k + 1));
    } else {
        let kk = k as u16;
        let x = e[0].1;
        assert(e.drop_last() =~= Seq::<(u16, Seq<u8>)>::empty());
        assert(entry_items(Seq::<(u16, Seq<u8>)>::empty()) =~= Seq::<u8>::empty());
        assert(entry_items(e) =~= head_bytes(major::UINT, kk as u64) + x);
        let hk = head_bytes(major::UINT, kk as u64);
        lemma_split(s, p, hk, x);
        let p1 = p + hk.len();
        if k == 0 || k == 1 {
            let v = if k == 0 { pk.budget } else { pk.used };
            lemma_expect_read(major::UINT, v, s, p1);
            lemma_head_not_null(major::UINT, v, s, p1);
        } else if k == 2 {
            lemma_text_read(pk.thread->Some_0@, s, p1);
        } else if k == 3 {
            assert(dropped_items(pk.dropped@).len() == pk.dropped@.len());
            lemma_dropped_read(pk.dropped@, s, p1);
        } else if k == 4 {
            assert(degraded_items(pk.degraded@).len() == pk.degraded@.len());
            lemma_degraded_read(pk.degraded@, s, p1);
        } else if k == 5 {
            lemma_optimality_read(pk.optimality, s, p1);
        } else {
            lemma_text_read(pk.estimator@, s, p1);
        }
        reveal(packinfo_value);
        assert(packinfo_value(s, at, p1, kk, pk_below(pk, k)) == (
            Ok::<PackInfoView, CodecError>(pk_below(pk, k + 1)),
            p1 + x.len(),
        ));
        lemma_pk_walk_one(s, at, p, n, prev, pk_below(pk, k), kk, x, pk_below(pk, k + 1));
    }
}

/// Reading the entries for the known keys below `k` takes the reader from no fields to the
/// fields below `k`.
proof fn lemma_pk_prefix(pk: PackInfo, s: Seq<u8>, at: int, q0: int, n: nat, k: nat)
    requires
        k <= 7,
        packinfo_writable(pk),
        n >= pk_segs(pk, k).len(),
        stands_at(s, q0, entry_items(pk_segs(pk, k))),
        s.len() <= usize::MAX,
    ensures
        packinfo_walk(s, at, q0, n, None, pk_below(pk, 0)) == packinfo_walk(
            s,
            at,
            q0 + entry_items(pk_segs(pk, k)).len(),
            (n - pk_segs(pk, k).len()) as nat,
            last_key(pk_segs(pk, k)),
            pk_below(pk, k as int),
        ),
        last_key(pk_segs(pk, k)) matches Some(x) ==> x < k,
    decreases k,
{
    if k > 0 {
        let j = (k - 1) as nat;
        let x = pk_segs(pk, j);
        let y = pk_seg(pk, j as int);
        assert(pk_segs(pk, k) == x + y);
        lemma_entry_items_concat(x, y);
        lemma_split(s, q0, entry_items(x), entry_items(y));
        lemma_pk_prefix(pk, s, at, q0, n, j);
        lemma_pk_seg(pk, s, at, q0 + entry_items(x).len(), (n - x.len()) as nat, last_key(x), j as int);
        if y.len() == 0 {
            assert(x + y =~= x);
        } else {
            assert((x + y).last() == y.last());
        }
    } else {
        assert(entry_items(pk_segs(pk, 0)) =~= Seq::<u8>::empty());
    }
}

/// Reading the unknown keys of a pack's description keeps each value verbatim.
#[verifier::rlimit(60)]
proof fn lemma_pk_extra_walk(
    s: Seq<u8>,
    at: int,
    p: int,
    x: Seq<(u16, Seq<u8>)>,
    j: int,
    base: PackInfoView,
    prev: Option<u16>,
)
    requires
        0 <= j <= x.len(),
        keys_ascending(x),
        forall|i: int| 0 <= i < x.len() ==> (#[trigger] x[i]).0 > keys::packinfo::HIGHEST && one_item(x[i].1),
        stands_at(s, p, entry_items(x.skip(j))),
        j > 0 ==> prev == Some(x[j - 1].0),
        j == 0 ==> (prev matches Some(pk) ==> pk <= keys::packinfo::HIGHEST),
    ensures
        packinfo_walk(s, at, p, (x.len() - j) as nat, prev, PackInfoView { extra: entries_map(x.take(j)), ..base }) == (
            Ok::<PackInfoView, CodecError>(PackInfoView { extra: entries_map(x), ..base }),
            p + entry_items(x.skip(j)).len(),
        ),
    decreases x.len() - j,
{
    if j == x.len() {
        reveal(packinfo_walk);
        assert(x.take(j) =~= x);
        assert(entry_items(x.skip(j)) =~= Seq::<u8>::empty()) by {
            assert(x.skip(j) =~= Seq::<(u16, Seq<u8>)>::empty());
        }
    } else {
        let (k, v) = x[j];
        assert(x.skip(j) =~= seq![x[j]] + x.skip(j + 1));
        lemma_entry_items_concat(seq![x[j]], x.skip(j + 1));
        assert(seq![x[j]].drop_last() =~= Seq::<(u16, Seq<u8>)>::empty());
        assert(entry_items(Seq::<(u16, Seq<u8>)>::empty()) =~= Seq::<u8>::empty());
        assert(entry_items(seq![x[j]]) =~= head_bytes(major::UINT, k as u64) + v);
        lemma_split(s, p, entry_items(seq![x[j]]), entry_items(x.skip(j + 1)));
        let hk = head_bytes(major::UINT, k as u64);
        lemma_split(s, p, hk, v);
        let p1 = p + hk.len();
        let pre = s.take(p1);
        let w = s.skip(p1 + v.len());
        assert(s =~= pre + v + w);
        assert(skip_at(pre + v + w, pre.len() as int, 0) == (Ok::<(), CodecError>(()), (pre.len() + v.len()) as int));
        assert(s.subrange(p1, p1 + v.len()) == v);
        let st = PackInfoView { extra: entries_map(x.take(j)), ..base };
        let st2 = PackInfoView { extra: entries_map(x.take(j + 1)), ..base };
        assert(x.take(j + 1).drop_last() =~= x.take(j));
        assert(entries_map(x.take(j + 1)) == entries_map(x.take(j)).insert(k, v));
        assert(packinfo_value(s, at, p1, k, st) == (Ok::<PackInfoView, CodecError>(st2), p1 + v.len())) by {
            reveal(packinfo_value);
        }
        if j > 0 {
            assert(x[j - 1].0 < x[j].0);
        }
        lemma_pk_walk_one(s, at, p, (x.len() - j) as nat, prev, st, k, v, st2);
        lemma_pk_extra_walk(s, at, p1 + v.len(), x, j + 1, base, Some(k));
    }
}

/// The known fields of a pack's description are the entries for its keys, in key order,
/// ascending and within its key table.
proof fn lemma_pk_fields_are_segs(pk: PackInfo)
    ensures
        packinfo_fields(pk) == pk_segs(pk, 7),
        keys_ascending(packinfo_fields(pk)),
        forall|i: int| 0 <= i < packinfo_fields(pk).len() ==> #[trigger] packinfo_fields(pk)[i].0 <= keys::packinfo::HIGHEST,
{
    reveal_with_fuel(pk_segs, 8);
    assert(packinfo_fields(pk) =~= pk_segs(pk, 7));
    let f = packinfo_fields(pk);
    assert forall|i: int| 0 <= i < f.len() implies #[trigger] f[i].0 <= keys::packinfo::HIGHEST && (i + 1 < f.len()
        ==> f[i].0 < f[i + 1].0) by {
    }
    assert forall|i: int, j: int| 0 <= i < j < f.len() implies #[trigger] f[i].0 < #[trigger] f[j].0 by {
        lemma_ascending_steps(f, i, j);
    }
}

/// What a read gives back of a write, for a pack's self-description: handed its canonical
/// bytes, the reader reads back its budget and use, its thread, its dropped and degraded units
/// in order, how it was chosen, its estimator and its unknown keys, and stops where the bytes
/// end. The thread id is well formed, the text in NFC, the gap quantised, and each unknown
/// key's value one complete item above the known keys.
pub proof fn lemma_packinfo_round_trip(pk: PackInfo, s: Seq<u8>, p: int)
    requires
        packinfo_writable(pk),
        extra_above(pk.extra@, keys::packinfo::HIGHEST),
        forall|k: u16| pk.extra@.contains_key(k) ==> one_item(#[trigger] pk.extra@[k]@),
        stands_at(s, p, packinfo_encoding(pk)),
        s.len() <= usize::MAX,
    ensures
        packinfo_at(s, p) == (Ok::<_, CodecError>(packinfo_view(pk)), p + packinfo_encoding(pk).len()),
{
    let m = pk.extra@;
    vstd::std_specs::btree::axiom_btree_map_view_finite_dom(pk.extra);
    lemma_extra_list_exists(m);
    let x = extra_entries(m);
    assert(extra_in_order(x, m));
    let f = packinfo_fields(pk);
    lemma_pk_fields_are_segs(pk);
    let e = f + x;
    assert forall|i: int, j: int| 0 <= i < j < e.len() implies #[trigger] e[i].0 < #[trigger] e[j].0 by {
        if j < f.len() {
        } else if i < f.len() {
            assert(m.contains_key(x[j - f.len()].0));
            assert(f[i].0 <= keys::packinfo::HIGHEST);
        } else {
            assert(x[i - f.len()].0 < x[j - f.len()].0);
        }
    }
    lemma_map_bytes_sorted(e);
    lemma_entry_items_concat(f, x);
    let h = head_bytes(major::MAP, e.len() as u64);
    assert(packinfo_encoding(pk) == h + (entry_items(f) + entry_items(x)));
    lemma_split(s, p, h, entry_items(f) + entry_items(x));
    let q0 = p + h.len();
    lemma_split(s, q0, entry_items(f), entry_items(x));
    lemma_entry_items_len(e);
    assert(e.len() <= usize::MAX);
    lemma_expect_read(major::MAP, e.len() as u64, s, p);
    let n = e.len() as nat;
    lemma_pk_prefix(pk, s, p, q0, n, 7);
    assert(pk_below(pk, 0) == no_packinfo_fields());
    let q1 = q0 + entry_items(f).len();
    let base = pk_below(pk, 7);
    assert forall|i: int| 0 <= i < x.len() implies (#[trigger] x[i]).0 > keys::packinfo::HIGHEST && one_item(x[i].1) by {
        assert(m.contains_key(x[i].0));
        assert(m[x[i].0]@ == x[i].1);
    }
    assert(x.skip(0) =~= x);
    assert(x.take(0) =~= Seq::<(u16, Seq<u8>)>::empty());
    assert(entries_map(Seq::<(u16, Seq<u8>)>::empty()) =~= Map::<u16, Seq<u8>>::empty());
    assert(PackInfoView { extra: entries_map(x.take(0)), ..base } == base);
    lemma_pk_extra_walk(s, p, q1, x, 0, base, last_key(f));
    lemma_entries_map_view(x, m);
}

} // verus!
