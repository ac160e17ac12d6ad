//! What a read gives back of a write, for views: a view read from the bytes its writer made
//! holds that view's id, roots, thread and schema sets, profile, intent and language again.

use vstd::prelude::*;

use crate::cbor::decode::null_check;
use crate::cbor::envelope::{extra_above, extra_entries, lemma_ascending_steps, text_item, uid_set_entry};
use crate::cbor::keys;
use crate::cbor::major;
use crate::cbor::order::{
    bytes_ascending, bytes_lt, in_bytes_order, items_distinct, lemma_bytes_lt_total, lemma_bytes_lt_transitive,
    sorted_items,
};
use crate::cbor::payloads::{
    granularity_fields, granularity_item, lemma_text_item_injective, schema_items, set_entry, thread_items,
    view_encoding, view_fields,
};
use crate::cbor::read_payloads::{
    admission_of, granularity_at, granularity_value, granularity_walk, id_set_at, id_set_walk, id_text_ok, no_view_fields,
    view_at, view_value, view_view, view_walk, GranularityView, ViewFields,
};
use crate::cbor::reader::skip_at;
use crate::cbor::round_trip::{
    lemma_concat_front,
    entries_map, lemma_entries_map_view, lemma_entry_items_concat, lemma_entry_items_len, lemma_expect_read,
    lemma_extra_list_exists, lemma_head_not_null, lemma_key_read, lemma_map_bytes_sorted, lemma_split, lemma_text_read,
    lemma_uid_set_read, last_key, one_item, stands_at,
};
use crate::cbor::writer::{concat_items, entry_items, extra_in_order, head_bytes, keys_ascending};
use crate::error::CodecError;
use crate::ids::{label_shaped, lang_ok, schema_shape, Uid};
use crate::nfc::nfc_of;
use crate::types::view::{
    preset_view, schema_texts, thread_texts, Admission, GranularityProfile,
};
use vstd::utf8::encode_utf8;

verus! {

/// Each wire code names at most one admission rule.
proof fn lemma_admission_code(k: Admission)
    ensures
        admission_of(k.code_view()) == Some(k),
{
    let j = choose|j: Admission| j.code_view() == k.code_view();
    assert(j == k) by {
        match (j, k) {
            (Admission::SingleAssertion, Admission::SingleAssertion) => {},
            (Admission::Topical, Admission::Topical) => {},
            _ => {},
        }
    }
}

/// The fields of a granularity profile ascend by key.
proof fn lemma_granularity_ascend(g: GranularityProfile)
    ensures
        keys_ascending(granularity_fields(g)),
{
    let e = granularity_fields(g);
    assert(e.len() == 5);
    assert(e[0].0 == 0 && e[1].0 == 1 && e[2].0 == 2 && e[3].0 == 3 && e[4].0 == 4);
}

/// The bytes of a list of entries: its first entry, then the rest.
proof fn lemma_entry_front(e: Seq<(u16, Seq<u8>)>)
    requires
        e.len() > 0,
    ensures
        entry_items(e) == head_bytes(major::UINT, e[0].0 as u64) + e[0].1 + entry_items(e.skip(1)),
{
    let x = seq![e[0]];
    assert(e =~= x + e.skip(1));
    lemma_entry_items_concat(x, e.skip(1));
    assert(x.drop_last() =~= Seq::<(u16, Seq<u8>)>::empty());
    assert(entry_items(Seq::<(u16, Seq<u8>)>::empty()) =~= Seq::<u8>::empty());
    assert(entry_items(x) =~= head_bytes(major::UINT, e[0].0 as u64) + e[0].1);
}

/// The bytes of a granularity profile: a map of its five fields in key order.
proof fn lemma_granularity_layout(g: GranularityProfile)
    ensures
        granularity_item(g) == head_bytes(major::MAP, 5) + entry_items(granularity_fields(g)),
{
    lemma_granularity_ascend(g);
    lemma_map_bytes_sorted(granularity_fields(g));
}

/// Reading one entry of a granularity map.
proof fn lemma_granularity_walk_one(
    s: Seq<u8>,
    at: int,
    p: int,
    n: nat,
    prev: Option<u16>,
    st: GranularityView,
    k: u16,
    v: Seq<u8>,
    st2: GranularityView,
)
    requires
        n > 0,
        stands_at(s, p, head_bytes(major::UINT, k as u64) + v),
        prev matches Some(pk) ==> pk < k,
        null_check(s, p + head_bytes(major::UINT, k as u64).len()) is None,
        granularity_value(s, at, p + head_bytes(major::UINT, k as u64).len(), k, st) == (
            Ok::<GranularityView, CodecError>(st2),
            p + head_bytes(major::UINT, k as u64).len() + v.len(),
        ),
    ensures
        granularity_walk(s, at, p, n, prev, st) == granularity_walk(
            s,
            at,
            p + head_bytes(major::UINT, k as u64).len() + v.len(),
            (n - 1) as nat,
            Some(k),
            st2,
        ),
{
    reveal(granularity_walk);
    lemma_split(s, p, head_bytes(major::UINT, k as u64), v);
    lemma_key_read(k, prev, s, p);
}

/// Reading a number entry of a granularity map: key `k` and the number `x`.
proof fn lemma_granularity_number(s: Seq<u8>, at: int, p: int, k: u16, x: u32, st: GranularityView, st2: GranularityView)
    requires
        1 <= k <= 3,
        stands_at(s, p, head_bytes(major::UINT, k as u64) + head_bytes(major::UINT, x as u64)),
        st2 == (if k == 1 {
            (st.0, x, st.2, st.3, st.4)
        } else if k == 2 {
            (st.0, st.1, x, st.3, st.4)
        } else {
            (st.0, st.1, st.2, x, st.4)
        }),
    ensures
        null_check(s, p + head_bytes(major::UINT, k as u64).len()) is None,
        granularity_value(s, at, p + head_bytes(major::UINT, k as u64).len(), k, st) == (
            Ok::<GranularityView, CodecError>(st2),
            p + head_bytes(major::UINT, k as u64).len() + head_bytes(major::UINT, x as u64).len(),
        ),
{
    let hk = head_bytes(major::UINT, k as u64);
    lemma_split(s, p, hk, head_bytes(major::UINT, x as u64));
    lemma_expect_read(major::UINT, x as u64, s, p + hk.len());
    lemma_head_not_null(major::UINT, x as u64, s, p + hk.len());
    reveal(granularity_value);
}

/// A granularity profile reads back as itself.
#[verifier::rlimit(40)]
proof fn lemma_granularity_read(g: GranularityProfile, s: Seq<u8>, p: int)
    requires
        nfc_of(g.profile@) == g.profile@,
        stands_at(s, p, granularity_item(g)),
        s.len() <= usize::MAX,
    ensures
        granularity_at(s, p) == (Ok::<_, CodecError>(g.fields()), p + granularity_item(g).len()),
        null_check(s, p) is None,
{
    let e = granularity_fields(g);
    let k0 = head_bytes(major::UINT, 0);
    let k4 = head_bytes(major::UINT, 4);
    let v0 = text_item(g.profile@);
    let v1 = head_bytes(major::UINT, g.l0_max as u64);
    let v2 = head_bytes(major::UINT, g.l1_min as u64);
    let v3 = head_bytes(major::UINT, g.l1_max as u64);
    let c = g.admission.code_view();
    let v4 = head_bytes(major::UINT, c as u64);
    lemma_granularity_layout(g);
    let h = head_bytes(major::MAP, 5);
    lemma_split(s, p, h, entry_items(e));
    lemma_expect_read(major::MAP, 5, s, p);
    lemma_head_not_null(major::MAP, 5, s, p);
    let r1 = e.skip(1);
    let r2 = e.skip(2);
    let r3 = e.skip(3);
    let r4 = e.skip(4);
    let r5 = e.skip(5);
    assert(r1.skip(1) =~= r2);
    assert(r2.skip(1) =~= r3);
    assert(r3.skip(1) =~= r4);
    assert(r4.skip(1) =~= r5);
    assert(r5 =~= Seq::<(u16, Seq<u8>)>::empty());
    assert(entry_items(r5) =~= Seq::<u8>::empty());
    lemma_entry_front(e);
    lemma_entry_front(r1);
    lemma_entry_front(r2);
    lemma_entry_front(r3);
    lemma_entry_front(r4);
    let p0 = p + h.len();
    lemma_split(s, p0, k0 + v0, entry_items(r1));
    let p1 = p0 + k0.len() + v0.len();
    lemma_split(s, p1, head_bytes(major::UINT, 1) + v1, entry_items(r2));
    let p2 = p1 + head_bytes(major::UINT, 1).len() + v1.len();
    lemma_split(s, p2, head_bytes(major::UINT, 2) + v2, entry_items(r3));
    let p3 = p2 + head_bytes(major::UINT, 2).len() + v2.len();
    lemma_split(s, p3, head_bytes(major::UINT, 3) + v3, entry_items(r4));
    let p4 = p3 + head_bytes(major::UINT, 3).len() + v3.len();
    lemma_split(s, p4, k4 + v4, entry_items(r5));
    let end = p4 + k4.len() + v4.len();
    assert(end == p + granularity_item(g).len());
    let d: GranularityView = preset_view("default"@)->Some_0;
    let g0: GranularityView = (g.profile@, d.1, d.2, d.3, d.4);
    let g1: GranularityView = (g.profile@, g.l0_max, d.2, d.3, d.4);
    let g2: GranularityView = (g.profile@, g.l0_max, g.l1_min, d.3, d.4);
    let g3: GranularityView = (g.profile@, g.l0_max, g.l1_min, g.l1_max, d.4);
    let g4: GranularityView = g.fields();
    assert(granularity_value(s, p, p0 + k0.len(), 0, d) == (Ok::<GranularityView, CodecError>(g0), p1)) by {
        lemma_split(s, p0, k0, v0);
        lemma_text_read(g.profile@, s, p0 + k0.len());
        reveal(granularity_value);
    }
    assert(null_check(s, p0 + k0.len()) is None) by {
        lemma_split(s, p0, k0, v0);
        lemma_text_read(g.profile@, s, p0 + k0.len());
    }
    lemma_granularity_walk_one(s, p, p0, 5, None, d, 0, v0, g0);
    lemma_granularity_number(s, p, p1, 1, g.l0_max, g0, g1);
    lemma_granularity_walk_one(s, p, p1, 4, Some(0u16), g0, 1, v1, g1);
    lemma_granularity_number(s, p, p2, 2, g.l1_min, g1, g2);
    lemma_granularity_walk_one(s, p, p2, 3, Some(1u16), g1, 2, v2, g2);
    lemma_granularity_number(s, p, p3, 3, g.l1_max, g2, g3);
    lemma_granularity_walk_one(s, p, p3, 2, Some(2u16), g2, 3, v3, g3);
    assert(granularity_value(s, p, p4 + k4.len(), 4, g3) == (Ok::<GranularityView, CodecError>(g4), end)) by {
        lemma_split(s, p4, k4, v4);
        lemma_expect_read(major::UINT, c as u64, s, p4 + k4.len());
        lemma_admission_code(g.admission);
        reveal(granularity_value);
    }
    assert(null_check(s, p4 + k4.len()) is None) by {
        lemma_split(s, p4, k4, v4);
        lemma_head_not_null(major::UINT, c as u64, s, p4 + k4.len());
    }
    lemma_granularity_walk_one(s, p, p4, 1, Some(3u16), g3, 4, v4, g4);
    assert(granularity_walk(s, p, end, 0, Some(4u16), g4) == (Ok::<GranularityView, CodecError>(g4), end)) by {
        reveal(granularity_walk);
    }
}

/// Where an item goes in an ascending list, searching from `i`.
pub open spec fn bytes_insert_pos(o: Seq<Seq<u8>>, x: Seq<u8>, i: int) -> int
    decreases o.len() - i,
{
    if i < 0 || i >= o.len() || bytes_lt(x, o[i]) {
        i
    } else {
        bytes_insert_pos(o, x, i + 1)
    }
}

proof fn lemma_bytes_insert_pos(o: Seq<Seq<u8>>, x: Seq<u8>, i: int)
    requires
        0 <= i <= o.len(),
    ensures
        i <= bytes_insert_pos(o, x, i) <= o.len(),
        forall|j: int| i <= j < bytes_insert_pos(o, x, i) ==> !bytes_lt(x, #[trigger] o[j]),
        bytes_insert_pos(o, x, i) < o.len() ==> bytes_lt(x, o[bytes_insert_pos(o, x, i)]),
    decreases o.len() - i,
{
    if i < o.len() && !bytes_lt(x, o[i]) {
        lemma_bytes_insert_pos(o, x, i + 1);
    }
}

/// Distinct items can be laid out in ascending byte order, and that layout has one place per
/// item.
pub proof fn lemma_sorted_items(s: Seq<Seq<u8>>)
    requires
        items_distinct(s),
    ensures
        in_bytes_order(sorted_items(s), s),
        sorted_items(s).len() == s.len(),
    decreases s.len(),
{
    if s.len() == 0 {
        let o = Seq::<Seq<u8>>::empty();
        assert(o.to_set() =~= s.to_set());
        assert(in_bytes_order(o, s));
        let so = sorted_items(s);
        if so.len() > 0 {
            assert(so.to_set().contains(so[0]));
            assert(s.to_set().contains(so[0]));
        }
    } else {
        let r = s.drop_last();
        let x = s.last();
        assert(items_distinct(r)) by {
            assert forall|i: int, j: int| 0 <= i < j < r.len() implies #[trigger] r[i] != #[trigger] r[j] by {
                assert(s[i] != s[j]);
            }
        }
        lemma_sorted_items(r);
        let o2 = sorted_items(r);
        lemma_bytes_insert_pos(o2, x, 0);
        let i = bytes_insert_pos(o2, x, 0);
        let o = o2.insert(i, x);
        assert(!o2.to_set().contains(x)) by {
            if o2.to_set().contains(x) {
                assert(r.to_set().contains(x));
                let k = choose|k: int| 0 <= k < r.len() && r[k] == x;
                assert(s[k] != s[s.len() - 1]);
            }
        }
        assert forall|a: int, b: int| 0 <= a < b < o.len() implies bytes_lt(#[trigger] o[a], #[trigger] o[b]) by {
            if a < i && b < i {
                assert(bytes_lt(o2[a], o2[b]));
            } else if a < i && b == i {
                assert(!bytes_lt(x, o2[a]));
                assert(o2.to_set().contains(o2[a]));
                lemma_bytes_lt_total(x, o2[a]);
            } else if a < i && b > i {
                assert(bytes_lt(o2[a], o2[b - 1]));
            } else if a == i {
                assert(bytes_lt(x, o2[i]));
                if b - 1 > i {
                    assert(bytes_lt(o2[i], o2[b - 1]));
                    lemma_bytes_lt_transitive(x, o2[i], o2[b - 1]);
                }
            } else {
                assert(bytes_lt(o2[a - 1], o2[b - 1]));
            }
        }
        assert(o.to_set() =~= s.to_set()) by {
            assert(s =~= r.push(x));
            assert forall|y| o.to_set().contains(y) <==> s.to_set().contains(y) by {
                if o.to_set().contains(y) {
                    let k = choose|k: int| 0 <= k < o.len() && o[k] == y;
                    if k < i {
                        assert(o2.to_set().contains(o2[k]));
                        assert(r.to_set().contains(y));
                    } else if k > i {
                        assert(o2.to_set().contains(o2[k - 1]));
                        assert(r.to_set().contains(y));
                    } else {
                        assert(s[s.len() - 1] == y);
                    }
                    if r.to_set().contains(y) {
                        let m = choose|m: int| 0 <= m < r.len() && r[m] == y;
                        assert(s[m] == y);
                    }
                }
                if s.to_set().contains(y) {
                    let m = choose|m: int| 0 <= m < s.len() && s[m] == y;
                    if m < r.len() {
                        assert(r[m] == y);
                        assert(r.to_set().contains(y));
                        assert(o2.to_set().contains(y));
                        let k = choose|k: int| 0 <= k < o2.len() && o2[k] == y;
                        if k < i {
                            assert(o[k] == y);
                        } else {
                            assert(o[k + 1] == y);
                        }
                    } else {
                        assert(o[i] == y);
                    }
                }
            }
        }
        assert(in_bytes_order(o, s));
        let so = sorted_items(s);
        assert(in_bytes_order(so, s));
        assert(so.no_duplicates()) by {
            assert forall|a: int, b: int| 0 <= a < so.len() && 0 <= b < so.len() && a != b implies so[a] != so[b] by {
                if a < b {
                    assert(bytes_lt(so[a], so[b]));
                } else {
                    assert(bytes_lt(so[b], so[a]));
                }
                lemma_bytes_lt_total(so[a], so[b]);
            }
        }
        assert(s.no_duplicates()) by {
            assert forall|a: int, b: int| 0 <= a < s.len() && 0 <= b < s.len() && a != b implies s[a] != s[b] by {
                if a < b {
                    assert(s[a] != s[b]);
                } else {
                    assert(s[b] != s[a]);
                }
            }
        }
        so.unique_seq_to_set();
        s.unique_seq_to_set();
    }
}

/// Every item of `o` is the text item of an id of the kind a set holds, in NFC.
pub open spec fn id_items_ok(o: Seq<Seq<u8>>, schemas: bool) -> bool {
    forall|j: int|
        0 <= j < o.len() ==> exists|t: Seq<char>|
            #[trigger] o[j] == text_item(t) && id_text_ok(t, schemas) && nfc_of(t) == t
}

/// The ids of an ascending set, from `j` on, read back as the texts whose items they are.
proof fn lemma_id_set_walk(o: Seq<Seq<u8>>, j: int, s: Seq<u8>, at: int, p: int, prev: Option<Seq<u8>>, set_at: int, schemas: bool)
    requires
        0 <= j <= o.len(),
        bytes_ascending(o),
        id_items_ok(o, schemas),
        stands_at(s, p, concat_items(o.skip(j))),
        s.len() <= usize::MAX,
        j > 0 ==> prev == Some(o[j - 1]),
        j == 0 ==> prev is None,
    ensures
        id_set_walk(s, at, p, (o.len() - j) as nat, prev, set_at, schemas).0 matches Ok(r) && r.len() == o.len() - j
            && (forall|i: int| 0 <= i < r.len() ==> text_item(#[trigger] r[i]) == o[j + i]),
        id_set_walk(s, at, p, (o.len() - j) as nat, prev, set_at, schemas).1 == p + concat_items(o.skip(j)).len(),
    decreases o.len() - j,
{
    if j == o.len() {
        assert(o.skip(j) =~= Seq::<Seq<u8>>::empty());
        assert(concat_items(o.skip(j)) =~= Seq::<u8>::empty());
    } else {
        let x = o[j];
        let t = choose|t: Seq<char>| x == text_item(t) && id_text_ok(t, schemas) && nfc_of(t) == t;
        assert(o.skip(j) =~= seq![x] + o.skip(j + 1));
        lemma_concat_front(x, o.skip(j + 1));
        lemma_split(s, p, x, concat_items(o.skip(j + 1)));
        lemma_text_read(t, s, p);
        let q = p + x.len();
        assert(s.subrange(p, q) == x);
        if j > 0 {
            assert(bytes_lt(o[j - 1], o[j]));
        }
        lemma_id_set_walk(o, j + 1, s, at, q, Some(x), set_at, schemas);
        let (rest, q2) = id_set_walk(s, at, q, (o.len() - j - 1) as nat, Some(x), set_at, schemas);
        let rr = rest->Ok_0;
        let r = seq![t] + rr;
        assert(id_set_walk(s, at, p, (o.len() - j) as nat, prev, set_at, schemas) == (Ok::<Seq<Seq<char>>, CodecError>(r), q2));
        assert forall|i: int| 0 <= i < r.len() implies text_item(#[trigger] r[i]) == o[j + i] by {
            if i > 0 {
                assert(r[i] == rr[i - 1]);
                assert(text_item(rr[i - 1]) == o[j + 1 + (i - 1)]);
            }
        }
    }
}

/// A set of ids whose texts are `texts` reads back as that set of texts: the writer lays the
/// items out in ascending byte order, and the reader accepts exactly that order.
proof fn lemma_id_set_read(texts: Seq<Seq<char>>, s: Seq<u8>, at: int, p: int, schemas: bool)
    requires
        texts.len() > 0,
        forall|i: int, j: int| 0 <= i < j < texts.len() ==> #[trigger] texts[i] != #[trigger] texts[j],
        forall|i: int|
            0 <= i < texts.len() ==> id_text_ok(#[trigger] texts[i], schemas) && nfc_of(texts[i]) == texts[i],
        stands_at(
            s,
            p,
            head_bytes(major::ARRAY, texts.len() as u64) + concat_items(
                sorted_items(Seq::new(texts.len(), |i: int| text_item(texts[i]))),
            ),
        ),
        s.len() <= usize::MAX,
    ensures
        id_set_at(s, at, p, schemas).0 matches Ok(r) && r.to_set() == texts.to_set(),
        id_set_at(s, at, p, schemas).1 == p + head_bytes(major::ARRAY, texts.len() as u64).len() + concat_items(
            sorted_items(Seq::new(texts.len(), |i: int| text_item(texts[i]))),
        ).len(),
        null_check(s, p) is None,
{
    let items = Seq::new(texts.len(), |i: int| text_item(texts[i]));
    assert(items_distinct(items)) by {
        assert forall|i: int, j: int| 0 <= i < j < items.len() implies #[trigger] items[i] != #[trigger] items[j] by {
            lemma_text_item_injective(texts[i], texts[j]);
        }
    }
    lemma_sorted_items(items);
    let o = sorted_items(items);
    let h = head_bytes(major::ARRAY, texts.len() as u64);
    lemma_split(s, p, h, concat_items(o));
    lemma_expect_read(major::ARRAY, texts.len() as u64, s, p);
    lemma_head_not_null(major::ARRAY, texts.len() as u64, s, p);
    assert(id_items_ok(o, schemas)) by {
        assert forall|j: int| 0 <= j < o.len() implies exists|t: Seq<char>|
            #[trigger] o[j] == text_item(t) && id_text_ok(t, schemas) && nfc_of(t) == t by {
            assert(o.to_set().contains(o[j]));
            assert(items.to_set().contains(o[j]));
            let i = choose|i: int| 0 <= i < items.len() && items[i] == o[j];
            assert(o[j] == text_item(texts[i]));
        }
    }
    assert forall|j: int| 0 <= j < o.len() implies (#[trigger] o[j]).len() > 0 by {
        let t = choose|t: Seq<char>| o[j] == text_item(t) && id_text_ok(t, schemas) && nfc_of(t) == t;
        assert(head_bytes(major::TEXT, encode_utf8(t).len() as u64).len() > 0);
    }
    lemma_concat_len(o);
    assert(o.skip(0) =~= o);
    lemma_id_set_walk(o, 0, s, at, p + h.len(), None, p, schemas);
    let r = id_set_walk(s, at, p + h.len(), o.len() as nat, None, p, schemas).0->Ok_0;
    assert(r.to_set() =~= texts.to_set()) by {
        assert forall|t: Seq<char>| r.to_set().contains(t) <==> texts.to_set().contains(t) by {
            if r.to_set().contains(t) {
                let i = choose|i: int| 0 <= i < r.len() && r[i] == t;
                assert(text_item(r[i]) == o[i]);
                assert(o.to_set().contains(o[i]));
                assert(items.to_set().contains(o[i]));
                let m = choose|m: int| 0 <= m < items.len() && items[m] == o[i];
                lemma_text_item_injective(t, texts[m]);
                assert(texts[m] == t);
            }
            if texts.to_set().contains(t) {
                let m = choose|m: int| 0 <= m < texts.len() && texts[m] == t;
                assert(items.to_set().contains(items[m]));
                assert(o.to_set().contains(items[m]));
                let i = choose|i: int| 0 <= i < o.len() && o[i] == items[m];
                assert(text_item(r[i]) == text_item(t));
                lemma_text_item_injective(r[i], t);
                assert(r[i] == t);
            }
        }
    }
}

/// Items are at least one byte each, or at least none: the concatenation is as long as the
/// list when every item is non-empty.
proof fn lemma_concat_len(o: Seq<Seq<u8>>)
    requires
        forall|j: int| 0 <= j < o.len() ==> (#[trigger] o[j]).len() > 0,
    ensures
        concat_items(o).len() >= o.len(),
    decreases o.len(),
{
    if o.len() > 0 {
        lemma_concat_len(o.drop_last());
    }
}

/// The thread ids of a view by their texts.
pub open spec fn thread_id_texts(v: crate::types::view::View) -> Seq<Seq<char>> {
    Seq::new(v.threads@.len(), |i: int| v.threads@[i]@)
}

/// The required schemas of a view by their texts.
pub open spec fn schema_id_texts(v: crate::types::view::View) -> Seq<Seq<char>> {
    Seq::new(v.requires@.len(), |i: int| v.requires@[i].text())
}

/// The entry the writer makes for known key `k` of a view: none, or one.
pub open spec fn view_seg(v: crate::types::view::View, k: int) -> Seq<(u16, Seq<u8>)> {
    if k == 0 {
        seq![(keys::view::ID, text_item(v.id@))]
    } else if k == 1 {
        uid_set_entry(keys::view::ROOTS, v.roots@)
    } else if k == 2 {
        set_entry(keys::view::THREADS, thread_items(v.threads@))
    } else if k == 3 {
        set_entry(keys::view::REQUIRES, schema_items(v.requires@))
    } else if k == 4 {
        seq![(keys::view::GRANULARITY, granularity_item(v.granularity))]
    } else if k == 5 {
        seq![(keys::view::INTENT, text_item(v.intent@))]
    } else {
        seq![(keys::view::LANG, text_item(v.lang@))]
    }
}

/// The entries for known keys below `k`.
pub open spec fn view_segs(v: crate::types::view::View, k: nat) -> Seq<(u16, Seq<u8>)>
    decreases k,
{
    if k == 0 {
        Seq::empty()
    } else {
        view_segs(v, (k - 1) as nat) + view_seg(v, k - 1)
    }
}

/// The fields of `v` whose keys lie below `b`, as the reader holds them once it has read that
/// far.
pub open spec fn view_below(v: crate::types::view::View, b: int) -> ViewFields {
    let d = no_view_fields();
    ViewFields {
        id: if b > 0 { Some(v.id@) } else { None },
        roots: if b > 1 { v.roots@.map_values(|u: Uid| u.bytes()) } else { d.roots },
        threads: if b > 2 { thread_texts(v.threads@) } else { d.threads },
        requires: if b > 3 { schema_texts(v.requires@) } else { d.requires },
        granularity: if b > 4 { v.granularity.fields() } else { d.granularity },
        intent: if b > 5 { v.intent@ } else { d.intent },
        lang: if b > 6 { v.lang@ } else { d.lang },
        extra: Map::empty(),
    }
}

/// What the view writer promises the reader: its sets in canonical form, a well-formed id and
/// language, required schemas the reader can parse, and text in NFC.
pub open spec fn view_writable(v: crate::types::view::View) -> bool {
    &&& v.well_formed()
    &&& label_shaped(v.id@)
    &&& nfc_of(v.id@) == v.id@
    &&& lang_ok(v.lang@)
    &&& nfc_of(v.lang@) == v.lang@
    &&& nfc_of(v.intent@) == v.intent@
    &&& nfc_of(v.granularity.profile@) == v.granularity.profile@
    &&& forall|i: int| 0 <= i < v.threads@.len() ==> label_shaped(#[trigger] v.threads@[i]@) && nfc_of(v.threads@[i]@) == v.threads@[i]@
    &&& forall|i: int| 0 <= i < v.requires@.len() ==> schema_shape(#[trigger] v.requires@[i].text()) != 3 && nfc_of(v.requires@[i].text()) == v.requires@[i].text()
}

/// Reading one entry of a view map.
proof fn lemma_view_walk_one(
    s: Seq<u8>,
    at: int,
    p: int,
    n: nat,
    prev: Option<u16>,
    st: ViewFields,
    k: u16,
    v: Seq<u8>,
    st2: ViewFields,
)
    requires
        n > 0,
        stands_at(s, p, head_bytes(major::UINT, k as u64) + v),
        prev matches Some(pk) ==> pk < k,
        null_check(s, p + head_bytes(major::UINT, k as u64).len()) is None,
        view_value(s, at, p + head_bytes(major::UINT, k as u64).len(), k, st) == (
            Ok::<ViewFields, CodecError>(st2),
            p + head_bytes(major::UINT, k as u64).len() + v.len(),
        ),
    ensures
        view_walk(s, at, p, n, prev, st) == view_walk(
            s,
            at,
            p + head_bytes(major::UINT, k as u64).len() + v.len(),
            (n - 1) as nat,
            Some(k),
            st2,
        ),
{
    reveal(view_walk);
    lemma_split(s, p, head_bytes(major::UINT, k as u64), v);
    lemma_key_read(k, prev, s, p);
}

/// The items of a view's thread ids are those of their texts, and the set of those texts is
/// the view's thread set; likewise for required schemas.
proof fn lemma_view_id_texts(v: crate::types::view::View)
    ensures
        thread_items(v.threads@) == Seq::new(thread_id_texts(v).len(), |i: int| text_item(thread_id_texts(v)[i])),
        schema_items(v.requires@) == Seq::new(schema_id_texts(v).len(), |i: int| text_item(schema_id_texts(v)[i])),
        thread_id_texts(v).to_set() == thread_texts(v.threads@),
        schema_id_texts(v).to_set() == schema_texts(v.requires@),
{
    let a = thread_id_texts(v);
    let b = schema_id_texts(v);
    assert(thread_items(v.threads@) =~= Seq::new(a.len(), |i: int| text_item(a[i])));
    assert(schema_items(v.requires@) =~= Seq::new(b.len(), |i: int| text_item(b[i])));
    assert(a.to_set() =~= thread_texts(v.threads@)) by {
        assert forall|t: Seq<char>| a.to_set().contains(t) <==> thread_texts(v.threads@).contains(t) by {
            if thread_texts(v.threads@).contains(t) {
                let i = choose|i: int| 0 <= i < v.threads@.len() && #[trigger] v.threads@[i]@ == t;
                assert(a[i] == t);
            }
        }
    }
    assert(b.to_set() =~= schema_texts(v.requires@)) by {
        assert forall|t: Seq<char>| b.to_set().contains(t) <==> schema_texts(v.requires@).contains(t) by {
            if schema_texts(v.requires@).contains(t) {
                let i = choose|i: int| 0 <= i < v.requires@.len() && #[trigger] v.requires@[i].text() == t;
                assert(b[i] == t);
            }
        }
    }
}

/// Reading the entry for known key `k`, if the view has one, takes the reader from the fields
/// below `k` to the fields below `k + 1`.
#[verifier::rlimit(80)]
proof fn lemma_view_seg(v: crate::types::view::View, s: Seq<u8>, at: int, p: int, n: nat, prev: Option<u16>, k: int)
    requires
        0 <= k <= 6,
        view_writable(v),
        n >= view_seg(v, k).len(),
        stands_at(s, p, entry_items(view_seg(v, k))),
        s.len() <= usize::MAX,
        prev matches Some(pk) ==> pk < k,
    ensures
        view_walk(s, at, p, n, prev, view_below(v, k)) == view_walk(
            s,
            at,
            p + entry_items(view_seg(v, k)).len(),
            (n - view_seg(v, k).len()) as nat,
            if view_seg(v, k).len() == 0 { prev } else { Some(k as u16) },
            view_below(v, k + 1),
        ),
{
    let e = view_seg(v, k);
    lemma_view_id_texts(v);
    if e.len() == 0 {
        assert(entry_items(e) =~= Seq::<u8>::empty());
        if k == 1 {
            assert(v.roots@.map_values(|u: Uid| u.bytes()) =~= Seq::<Seq<u8>>::empty());
        }
        if k == 2 {
            assert(thread_id_texts(v) =~= Seq::<Seq<char>>::empty());
            assert(thread_texts(v.threads@) =~= Set::<Seq<char>>::empty());
        }
        if k == 3 {
            assert(schema_id_texts(v) =~= Seq::<Seq<char>>::empty());
            assert(schema_texts(v.requires@) =~= Set::<Seq<char>>::empty());
        }
        assert(view_below(v, k) == view_below(v, k + 1));
    } else {
        let kk = k as u16;
        let x = e[0].1;
        assert(e.drop_last() =~= Seq::<(u16, Seq<u8>)>::empty());
        assert(entry_items(Seq::<(u16, Seq<u8>)>::empty()) =~= Seq::<u8>::empty());
        assert(entry_items(e) =~= head_bytes(major::UINT, kk as u64) + x);
        let hk = head_bytes(major::UINT, kk as u64);
        lemma_split(s, p, hk, x);
        let p1 = p + hk.len();
        if k == 0 || k == 5 || k == 6 {
            let t = if k == 0 {
                v.id@
            } else if k == 5 {
                v.intent@
            } else {
                v.lang@
            };
            lemma_text_read(t, s, p1);
        } else if k == 1 {
            lemma_uid_set_read(v.roots@, s, p1);
        } else if k == 2 {
            let a = thread_id_texts(v);
            assert forall|i: int, j: int| 0 <= i < j < a.len() implies #[trigger] a[i] != #[trigger] a[j] by {
                assert(v.threads@[i]@ != v.threads@[j]@);
            }
            assert forall|i: int| 0 <= i < a.len() implies id_text_ok(#[trigger] a[i], false) && nfc_of(a[i]) == a[i] by {
                assert(label_shaped(v.threads@[i]@));
            }
            lemma_id_set_read(a, s, at, p1, false);
        } else if k == 3 {
            let b = schema_id_texts(v);
            assert forall|i: int, j: int| 0 <= i < j < b.len() implies #[trigger] b[i] != #[trigger] b[j] by {
                assert(v.requires@[i].text() != v.requires@[j].text());
            }
            assert forall|i: int| 0 <= i < b.len() implies id_text_ok(#[trigger] b[i], true) && nfc_of(b[i]) == b[i] by {
                assert(schema_shape(v.requires@[i].text()) != 3);
            }
            lemma_id_set_read(b, s, at, p1, true);
        } else {
            lemma_granularity_read(v.granularity, s, p1);
        }
        reveal(view_value);
        assert(view_value(s, at, p1, kk, view_below(v, k)) == (
            Ok::<ViewFields, CodecError>(view_below(v, k + 1)),
            p1 + x.len(),
        ));
        lemma_view_walk_one(s, at, p, n, prev, view_below(v, k), kk, x, view_below(v, k + 1));
    }
}

/// Reading the entries for the known keys below `k` takes the reader from no fields to the
/// fields below `k`.
proof fn lemma_view_prefix(v: crate::types::view::View, s: Seq<u8>, at: int, q0: int, n: nat, k: nat)
    requires
        k <= 7,
        view_writable(v),
        n >= view_segs(v, k).len(),
        stands_at(s, q0, entry_items(view_segs(v, k))),
        s.len() <= usize::MAX,
    ensures
        view_walk(s, at, q0, n, None, view_below(v, 0)) == view_walk(
            s,
            at,
            q0 + entry_items(view_segs(v, k)).len(),
            (n - view_segs(v, k).len()) as nat,
            last_key(view_segs(v, k)),
            view_below(v, k as int),
        ),
        last_key(view_segs(v, k)) matches Some(x) ==> x < k,
    decreases k,
{
    if k > 0 {
        let j = (k - 1) as nat;
        let x = view_segs(v, j);
        let y = view_seg(v, j as int);
        assert(view_segs(v, k) == x + y);
        lemma_entry_items_concat(x, y);
        lemma_split(s, q0, entry_items(x), entry_items(y));
        lemma_view_prefix(v, s, at, q0, n, j);
        lemma_view_seg(v, s, at, q0 + entry_items(x).len(), (n - x.len()) as nat, last_key(x), j as int);
        if y.len() == 0 {
            assert(x + y =~= x);
        } else {
            assert((x + y).last() == y.last());
        }
    } else {
        assert(entry_items(view_segs(v, 0)) =~= Seq::<u8>::empty());
    }
}

/// Reading the unknown keys of a view keeps each value verbatim.
#[verifier::rlimit(60)]
proof fn lemma_view_extra_walk(
    s: Seq<u8>,
    at: int,
    p: int,
    x: Seq<(u16, Seq<u8>)>,
    j: int,
    base: ViewFields,
    prev: Option<u16>,
)
    requires
        0 <= j <= x.len(),
        keys_ascending(x),
        forall|i: int| 0 <= i < x.len() ==> (#[trigger] x[i]).0 > keys::view::HIGHEST && one_item(x[i].1),
        stands_at(s, p, entry_items(x.skip(j))),
        j > 0 ==> prev == Some(x[j - 1].0),
        j == 0 ==> (prev matches Some(pk) ==> pk <= keys::view::HIGHEST),
    ensures
        view_walk(s, at, p, (x.len() - j) as nat, prev, ViewFields { extra: entries_map(x.take(j)), ..base }) == (
            Ok::<ViewFields, CodecError>(ViewFields { extra: entries_map(x), ..base }),
            p + entry_items(x.skip(j)).len(),
        ),
    decreases x.len() - j,
{
    if j == x.len() {
        reveal(view_walk);
        assert(x.take(j) =~= x);
        assert(entry_items(x.skip(j)) =~= Seq::<u8>::empty()) by {
            assert(x.skip(j) =~= Seq::<(u16, Seq<u8>)>::empty());
        }
    } else {
        let (k, v) = x[j];
        assert(x.skip(j) =~= seq![x[j]] + x.skip(j + 1));
        lemma_entry_items_concat(seq![x[j]], x.skip(j + 1));
        assert(seq![x[j]].drop_last() =~= Seq::<(u16, Seq<u8>)>::empty());
        assert(entry_items(Seq::<(u16, Seq<u8>)>::empty()) =~= Seq::<u8>::empty());
        assert(entry_items(seq![x[j]]) =~= head_bytes(major::UINT, k as u64) + v);
        lemma_split(s, p, entry_items(seq![x[j]]), entry_items(x.skip(j + 1)));
        let hk = head_bytes(major::UINT, k as u64);
        lemma_split(s, p, hk, v);
        let p1 = p + hk.len();
        let pre = s.take(p1);
        let w = s.skip(p1 + v.len());
        assert(s =~= pre + v + w);
        assert(skip_at(pre + v + w, pre.len() as int, 0) == (Ok::<(), CodecError>(()), (pre.len() + v.len()) as int));
        assert(s.subrange(p1, p1 + v.len()) == v);
        let st = ViewFields { extra: entries_map(x.take(j)), ..base };
        let st2 = ViewFields { extra: entries_map(x.take(j + 1)), ..base };
        assert(x.take(j + 1).drop_last() =~= x.take(j));
        assert(entries_map(x.take(j + 1)) == entries_map(x.take(j)).insert(k, v));
        assert(view_value(s, at, p1, k, st) == (Ok::<ViewFields, CodecError>(st2), p1 + v.len())) by {
            reveal(view_value);
        }
        if j > 0 {
            assert(x[j - 1].0 < x[j].0);
        }
        lemma_view_walk_one(s, at, p, (x.len() - j) as nat, prev, st, k, v, st2);
        lemma_view_extra_walk(s, at, p1 + v.len(), x, j + 1, base, Some(k));
    }
}

/// The known fields of a view are the entries for its keys, in key order, ascending and
/// within its key table.
proof fn lemma_view_fields_are_segs(v: crate::types::view::View)
    ensures
        view_fields(v) == view_segs(v, 7),
        keys_ascending(view_fields(v)),
        forall|i: int| 0 <= i < view_fields(v).len() ==> #[trigger] view_fields(v)[i].0 <= keys::view::HIGHEST,
{
    reveal_with_fuel(view_segs, 8);
    assert(view_fields(v) =~= view_segs(v, 7));
    let f = view_fields(v);
    assert forall|i: int| 0 <= i < f.len() implies #[trigger] f[i].0 <= keys::view::HIGHEST && (i + 1 < f.len()
        ==> f[i].0 < f[i + 1].0) by {
    }
    assert forall|i: int, j: int| 0 <= i < j < f.len() implies #[trigger] f[i].0 < #[trigger] f[j].0 by {
        lemma_ascending_steps(f, i, j);
    }
}

/// What a read gives back of a write, for views: handed the canonical bytes of a view, the
/// reader reads back its id, its roots in order, its thread and schema sets, its profile,
/// intent and language, and its unknown keys, and stops where its bytes end. The view's sets
/// are canonical, its id and language well formed, its required schemas ones the reader can
/// parse, its text in NFC, and each unknown key's value one complete item above the known keys.
pub proof fn lemma_view_round_trip(v: crate::types::view::View, s: Seq<u8>, p: int)
    requires
        view_writable(v),
        extra_above(v.extra@, keys::view::HIGHEST),
        forall|k: u16| v.extra@.contains_key(k) ==> one_item(#[trigger] v.extra@[k]@),
        stands_at(s, p, view_encoding(v)),
        s.len() <= usize::MAX,
    ensures
        view_at(s, p) == (Ok::<_, CodecError>(view_view(v)), p + view_encoding(v).len()),
{
    let m = v.extra@;
    vstd::std_specs::btree::axiom_btree_map_view_finite_dom(v.extra);
    lemma_extra_list_exists(m);
    let x = extra_entries(m);
    assert(extra_in_order(x, m));
    let f = view_fields(v);
    lemma_view_fields_are_segs(v);
    let e = f + x;
    assert forall|i: int, j: int| 0 <= i < j < e.len() implies #[trigger] e[i].0 < #[trigger] e[j].0 by {
        if j < f.len() {
        } else if i < f.len() {
            assert(m.contains_key(x[j - f.len()].0));
            assert(f[i].0 <= keys::view::HIGHEST);
        } else {
            assert(x[i - f.len()].0 < x[j - f.len()].0);
        }
    }
    lemma_map_bytes_sorted(e);
    lemma_entry_items_concat(f, x);
    let h = head_bytes(major::MAP, e.len() as u64);
    assert(view_encoding(v) == h + (entry_items(f) + entry_items(x)));
    lemma_split(s, p, h, entry_items(f) + entry_items(x));
    let q0 = p + h.len();
    lemma_split(s, q0, entry_items(f), entry_items(x));
    lemma_entry_items_len(e);
    assert(e.len() <= usize::MAX);
    lemma_expect_read(major::MAP, e.len() as u64, s, p);
    let n = e.len() as nat;
    lemma_view_prefix(v, s, p, q0, n, 7);
    assert(view_below(v, 0) == no_view_fields());
    let q1 = q0 + entry_items(f).len();
    let base = view_below(v, 7);
    assert forall|i: int| 0 <= i < x.len() implies (#[trigger] x[i]).0 > keys::view::HIGHEST && one_item(x[i].1) by {
        assert(m.contains_key(x[i].0));
        assert(m[x[i].0]@ == x[i].1);
    }
    assert(x.skip(0) =~= x);
    assert(x.take(0) =~= Seq::<(u16, Seq<u8>)>::empty());
    assert(entries_map(Seq::<(u16, Seq<u8>)>::empty()) =~= Map::<u16, Seq<u8>>::empty());
    assert(ViewFields { extra: entries_map(x.take(0)), ..base } == base);
    lemma_view_extra_walk(s, p, q1, x, 0, base, last_key(f));
    lemma_entries_map_view(x, m);
}

} // verus!
