//! What a read gives back of a write, for label bindings and contentions: read from the bytes
//! its writer made, each is itself again.

use vstd::prelude::*;

use crate::cbor::decode::{hlc_view, null_check, HlcView};
use crate::cbor::record_round_trip::lemma_hlc_read;
use crate::cbor::envelope::{bytes_item, extra_above, extra_entries, hlc_item, text_item};
use crate::cbor::keys;
use crate::cbor::major;
use crate::cbor::payloads::{
    array_entry, contention_encoding, contention_fields, label_binding_encoding, label_binding_fields, position_items,
};
use crate::cbor::read_payloads::{
    contention_at, contention_status_of, contention_value, contention_view, contention_walk, detected_at,
    detection_kind_of, no_contention_fields, uid_list_walk, ContentionFields,
    label_binding_at, label_binding_value, label_binding_view, label_binding_walk, LabelBindingFields,
};
use crate::cbor::reader::skip_at;
use crate::cbor::round_trip::{
    entries_map, lemma_bytes_read, lemma_entries_map_view, lemma_entry_items_concat, lemma_entry_items_len,
    lemma_concat_front, lemma_expect_read, lemma_extra_list_exists, lemma_head_not_null, lemma_key_read, lemma_map_bytes_sorted, lemma_split, lemma_text_read,
    one_item, stands_at,
};
use crate::cbor::writer::{concat_items, entry_items, extra_in_order, head_bytes, keys_ascending, uid_item};
use crate::error::CodecError;
use crate::ids::{agent_ok, label_shaped, Uid};
use crate::nfc::nfc_of;
use crate::types::annex::{Contention, ContentionStatus, DetectionKind, LabelBinding};

verus! {

/// Reading the unknown keys of a label binding keeps each value verbatim.
#[verifier::rlimit(60)]
proof fn lemma_binding_extra_walk(
    s: Seq<u8>,
    at: int,
    p: int,
    x: Seq<(u16, Seq<u8>)>,
    j: int,
    base: LabelBindingFields,
    prev: Option<u16>,
)
    requires
        0 <= j <= x.len(),
        keys_ascending(x),
        forall|i: int| 0 <= i < x.len() ==> (#[trigger] x[i]).0 > keys::label_binding::HIGHEST && one_item(x[i].1),
        stands_at(s, p, entry_items(x.skip(j))),
        j > 0 ==> prev == Some(x[j - 1].0),
        j == 0 ==> (prev matches Some(pk) ==> pk <= keys::label_binding::HIGHEST),
    ensures
        label_binding_walk(s, at, p, (x.len() - j) as nat, prev, LabelBindingFields { extra: entries_map(x.take(j)), ..base })
            == (
            Ok::<LabelBindingFields, CodecError>(LabelBindingFields { extra: entries_map(x), ..base }),
            p + entry_items(x.skip(j)).len(),
        ),
    decreases x.len() - j,
{
    if j == x.len() {
        reveal(label_binding_walk);
        assert(x.take(j) =~= x);
        assert(entry_items(x.skip(j)) =~= Seq::<u8>::empty()) by {
            assert(x.skip(j) =~= Seq::<(u16, Seq<u8>)>::empty());
        }
    } else {
        let (k, v) = x[j];
        assert(x.skip(j) =~= seq![x[j]] + x.skip(j + 1));
        lemma_entry_items_concat(seq![x[j]], x.skip(j + 1));
        assert(seq![x[j]].drop_last() =~= Seq::<(u16, Seq<u8>)>::empty());
        assert(entry_items(Seq::<(u16, Seq<u8>)>::empty()) =~= Seq::<u8>::empty());
        assert(entry_items(seq![x[j]]) =~= head_bytes(major::UINT, k as u64) + v);
        lemma_split(s, p, entry_items(seq![x[j]]), entry_items(x.skip(j + 1)));
        let hk = head_bytes(major::UINT, k as u64);
        lemma_split(s, p, hk, v);
        let p1 = p + hk.len();
        let pre = s.take(p1);
        let w = s.skip(p1 + v.len());
        assert(s =~= pre + v + w);
        assert(skip_at(pre + v + w, pre.len() as int, 0) == (Ok::<(), CodecError>(()), (pre.len() + v.len()) as int));
        assert(s.subrange(p1, p1 + v.len()) == v);
        let st = LabelBindingFields { extra: entries_map(x.take(j)), ..base };
        let st2 = LabelBindingFields { extra: entries_map(x.take(j + 1)), ..base };
        assert(x.take(j + 1).drop_last() =~= x.take(j));
        assert(entries_map(x.take(j + 1)) == entries_map(x.take(j)).insert(k, v));
        assert(label_binding_value(s, at, p1, k, st) == (Ok::<LabelBindingFields, CodecError>(st2), p1 + v.len())) by {
            reveal(label_binding_value);
        }
        if j > 0 {
            assert(x[j - 1].0 < x[j].0);
        }
        lemma_key_read(k, prev, s, p);
        reveal(label_binding_walk);
        lemma_binding_extra_walk(s, at, p1 + v.len(), x, j + 1, base, Some(k));
    }
}

/// What a read gives back of a write, for label bindings: handed the canonical bytes of a
/// binding whose label is in NFC and whose unknown keys each hold one complete item above the
/// known keys, the reader reads back its label, its uid and its unknown keys, and stops where
/// the bytes end.
#[verifier::rlimit(60)]
pub proof fn lemma_label_binding_round_trip(b: LabelBinding, s: Seq<u8>, p: int)
    requires
        label_shaped(b.label@),
        nfc_of(b.label@) == b.label@,
        extra_above(b.extra@, keys::label_binding::HIGHEST),
        forall|k: u16| b.extra@.contains_key(k) ==> one_item(#[trigger] b.extra@[k]@),
        stands_at(s, p, label_binding_encoding(b)),
        s.len() <= usize::MAX,
    ensures
        label_binding_at(s, p) == (Ok::<_, CodecError>(label_binding_view(b)), p + label_binding_encoding(b).len()),
{
    let m = b.extra@;
    vstd::std_specs::btree::axiom_btree_map_view_finite_dom(b.extra);
    lemma_extra_list_exists(m);
    let x = extra_entries(m);
    assert(extra_in_order(x, m));
    let f = label_binding_fields(b);
    let e = f + x;
    assert forall|i: int, j: int| 0 <= i < j < e.len() implies #[trigger] e[i].0 < #[trigger] e[j].0 by {
        if j < f.len() {
        } else if i < f.len() {
            assert(m.contains_key(x[j - f.len()].0));
            assert(f[i].0 <= keys::label_binding::HIGHEST);
        } else {
            assert(x[i - f.len()].0 < x[j - f.len()].0);
        }
    }
    lemma_map_bytes_sorted(e);
    lemma_entry_items_concat(f, x);
    let h = head_bytes(major::MAP, e.len() as u64);
    assert(label_binding_encoding(b) == h + (entry_items(f) + entry_items(x)));
    lemma_split(s, p, h, entry_items(f) + entry_items(x));
    let q0 = p + h.len();
    lemma_split(s, q0, entry_items(f), entry_items(x));
    lemma_entry_items_len(e);
    assert(e.len() <= usize::MAX);
    lemma_expect_read(major::MAP, e.len() as u64, s, p);
    let k0 = head_bytes(major::UINT, 0);
    let k1 = head_bytes(major::UINT, 1);
    let v0 = text_item(b.label@);
    let v1 = uid_item(b.uid);
    let f1 = seq![f[0]];
    assert(f1.drop_last() =~= Seq::<(u16, Seq<u8>)>::empty());
    assert(entry_items(Seq::<(u16, Seq<u8>)>::empty()) =~= Seq::<u8>::empty());
    assert(f.drop_last() =~= f1);
    assert(f1[0] == (0u16, v0));
    assert(entry_items(f1) == entry_items(f1.drop_last()) + k0 + v0);
    assert(entry_items(f) == entry_items(f1) + k1 + v1);
    assert(entry_items(f) =~= k0 + (v0 + (k1 + v1)));
    lemma_split(s, q0, k0, v0 + (k1 + v1));
    lemma_split(s, q0 + k0.len(), v0, k1 + v1);
    let p1 = q0 + k0.len() + v0.len();
    lemma_split(s, p1, k1, v1);
    lemma_key_read(0, None, s, q0);
    lemma_text_read(b.label@, s, q0 + k0.len());
    lemma_key_read(1, Some(0u16), s, p1);
    crate::ids::lemma_uid_bytes_len(b.uid);
    lemma_bytes_read(b.uid.bytes(), s, p1 + k1.len());
    assert(bytes_item(b.uid.bytes()) == v1);
    let st0 = LabelBindingFields { label: None, uid: None, extra: Map::empty() };
    let st1 = LabelBindingFields { label: Some(b.label@), uid: None, extra: Map::empty() };
    let st2 = LabelBindingFields { label: Some(b.label@), uid: Some(b.uid.bytes()), extra: Map::empty() };
    let q1 = q0 + entry_items(f).len();
    assert(label_binding_value(s, p, q0 + k0.len(), 0, st0) == (Ok::<LabelBindingFields, CodecError>(st1), p1)) by {
        reveal(label_binding_value);
    }
    assert(label_binding_value(s, p, p1 + k1.len(), 1, st1) == (Ok::<LabelBindingFields, CodecError>(st2), q1)) by {
        reveal(label_binding_value);
    }
    assert forall|i: int| 0 <= i < x.len() implies (#[trigger] x[i]).0 > keys::label_binding::HIGHEST && one_item(x[i].1) by {
        assert(m.contains_key(x[i].0));
        assert(m[x[i].0]@ == x[i].1);
    }
    assert(x.skip(0) =~= x);
    assert(x.take(0) =~= Seq::<(u16, Seq<u8>)>::empty());
    assert(entries_map(Seq::<(u16, Seq<u8>)>::empty()) =~= Map::<u16, Seq<u8>>::empty());
    assert(LabelBindingFields { extra: entries_map(x.take(0)), ..st2 } == st2);
    lemma_binding_extra_walk(s, p, q1, x, 0, st2, Some(1u16));
    lemma_entries_map_view(x, m);
    let n = e.len() as nat;
    reveal(label_binding_walk);
    assert(label_binding_walk(s, p, p1, (n - 1) as nat, Some(0u16), st1) == label_binding_walk(
        s,
        p,
        q1,
        (n - 2) as nat,
        Some(1u16),
        st2,
    ));
    assert(label_binding_walk(s, p, q0, n, None, st0) == label_binding_walk(s, p, p1, (n - 1) as nat, Some(0u16), st1));
}

/// Each wire code names at most one detection kind.
proof fn lemma_detection_code(k: DetectionKind)
    ensures
        detection_kind_of(k.code_view()) == Some(k),
{
    let j = choose|j: DetectionKind| j.code_view() == k.code_view();
    assert(j == k) by {
        match (j, k) {
            (DetectionKind::SupersessionFork, DetectionKind::SupersessionFork) => {},
            (DetectionKind::LiveRebuttal, DetectionKind::LiveRebuttal) => {},
            (DetectionKind::LabelCollision, DetectionKind::LabelCollision) => {},
            _ => {},
        }
    }
}

/// Each wire code names at most one contention status.
proof fn lemma_contention_status_code(k: ContentionStatus)
    ensures
        contention_status_of(k.code_view()) == Some(k),
{
    let j = choose|j: ContentionStatus| j.code_view() == k.code_view();
    assert(j == k) by {
        match (j, k) {
            (ContentionStatus::Open, ContentionStatus::Open) => {},
            (ContentionStatus::Resolved, ContentionStatus::Resolved) => {},
            (ContentionStatus::Stale, ContentionStatus::Stale) => {},
            _ => {},
        }
    }
}

/// The positions of a contention from `j` on read back in order.
proof fn lemma_positions_walk(us: Seq<Uid>, j: int, s: Seq<u8>, p: int)
    requires
        0 <= j <= us.len(),
        stands_at(s, p, concat_items(position_items(us).skip(j))),
        s.len() <= usize::MAX,
    ensures
        uid_list_walk(s, p, (us.len() - j) as nat) == (
            Ok::<_, CodecError>(us.skip(j).map_values(|u: Uid| u.bytes())),
            p + concat_items(position_items(us).skip(j)).len(),
        ),
    decreases us.len() - j,
{
    let items = position_items(us);
    if j == us.len() {
        assert(items.skip(j) =~= Seq::<Seq<u8>>::empty());
        assert(us.skip(j).map_values(|u: Uid| u.bytes()) =~= Seq::<Seq<u8>>::empty());
    } else {
        let x = items[j];
        assert(items.skip(j) =~= seq![x] + items.skip(j + 1));
        lemma_concat_front(x, items.skip(j + 1));
        lemma_split(s, p, x, concat_items(items.skip(j + 1)));
        crate::ids::lemma_uid_bytes_len(us[j]);
        lemma_bytes_read(us[j].bytes(), s, p);
        assert(bytes_item(us[j].bytes()) == x);
        lemma_positions_walk(us, j + 1, s, p + x.len());
        assert(us.skip(j).map_values(|u: Uid| u.bytes()) =~= seq![us[j].bytes()] + us.skip(j + 1).map_values(
            |u: Uid| u.bytes(),
        ));
    }
}

/// How a contention was detected reads back as itself.
proof fn lemma_detected_read(kind: DetectionKind, ts: crate::types::provenance::Hlc, s: Seq<u8>, p: int)
    requires
        agent_ok(ts.agent@),
        nfc_of(ts.agent@) == ts.agent@,
        stands_at(s, p, head_bytes(major::ARRAY, 2) + head_bytes(major::UINT, kind.code_view() as u64) + hlc_item(ts)),
        s.len() <= usize::MAX,
    ensures
        detected_at(s, p) == (
            Ok::<(DetectionKind, HlcView), CodecError>((kind, hlc_view(ts))),
            p + (head_bytes(major::ARRAY, 2) + head_bytes(major::UINT, kind.code_view() as u64) + hlc_item(ts)).len(),
        ),
        null_check(s, p) is None,
{
    let da = head_bytes(major::ARRAY, 2);
    let dk = head_bytes(major::UINT, kind.code_view() as u64);
    assert(da + dk + hlc_item(ts) =~= da + (dk + hlc_item(ts)));
    lemma_split(s, p, da, dk + hlc_item(ts));
    lemma_split(s, p + da.len(), dk, hlc_item(ts));
    lemma_expect_read(major::ARRAY, 2, s, p);
    lemma_head_not_null(major::ARRAY, 2, s, p);
    lemma_expect_read(major::UINT, kind.code_view() as u64, s, p + da.len());
    lemma_detection_code(kind);
    lemma_hlc_read(ts, s, p + da.len() + dk.len());
}

/// What a read gives back of a write, for contentions: handed the canonical bytes of a
/// contention whose id is in NFC, whose clock's agent is valid and in NFC, and whose unknown
/// keys each hold one complete item above the known keys, the reader reads back its id, the
/// unit it is over, its positions in order, how it was detected, its status and its unknown
/// keys, and stops where the bytes end.
#[verifier::spinoff_prover]
#[verifier::rlimit(100)]
pub proof fn lemma_contention_round_trip(c: Contention, s: Seq<u8>, p: int)
    requires
        label_shaped(c.id@),
        nfc_of(c.id@) == c.id@,
        agent_ok(c.detected.ts.agent@),
        nfc_of(c.detected.ts.agent@) == c.detected.ts.agent@,
        extra_above(c.extra@, keys::contention::HIGHEST),
        forall|k: u16| c.extra@.contains_key(k) ==> one_item(#[trigger] c.extra@[k]@),
        stands_at(s, p, contention_encoding(c)),
        s.len() <= usize::MAX,
    ensures
        contention_at(s, p) == (Ok::<_, CodecError>(contention_view(c)), p + contention_encoding(c).len()),
{
    let m = c.extra@;
    vstd::std_specs::btree::axiom_btree_map_view_finite_dom(c.extra);
    lemma_extra_list_exists(m);
    let x = extra_entries(m);
    assert(extra_in_order(x, m));
    let f = contention_fields(c);
    let pos = position_items(c.positions@);
    let e = f + x;
    assert forall|i: int, j: int| 0 <= i < j < e.len() implies #[trigger] e[i].0 < #[trigger] e[j].0 by {
        if j < f.len() {
        } else if i < f.len() {
            assert(m.contains_key(x[j - f.len()].0));
            assert(f[i].0 <= keys::contention::HIGHEST);
        } else {
            assert(x[i - f.len()].0 < x[j - f.len()].0);
        }
    }
    lemma_map_bytes_sorted(e);
    lemma_entry_items_concat(f, x);
    let h = head_bytes(major::MAP, e.len() as u64);
    assert(contention_encoding(c) == h + (entry_items(f) + entry_items(x)));
    lemma_split(s, p, h, entry_items(f) + entry_items(x));
    let q0 = p + h.len();
    lemma_split(s, q0, entry_items(f), entry_items(x));
    lemma_entry_items_len(e);
    assert(e.len() <= usize::MAX);
    lemma_expect_read(major::MAP, e.len() as u64, s, p);
    let n = e.len() as nat;
    // The known entries, one after another.
    let a = seq![(keys::contention::ID, text_item(c.id@)), (keys::contention::OVER, uid_item(c.over))];
    let b = array_entry(keys::contention::POSITIONS, pos);
    let dv = head_bytes(major::ARRAY, 2) + head_bytes(major::UINT, c.detected.kind.code_view() as u64) + hlc_item(
        c.detected.ts,
    );
    let sv = head_bytes(major::UINT, c.status.code_view() as u64);
    let z = seq![(keys::contention::DETECTED, dv), (keys::contention::STATUS, sv)];
    assert(f =~= a + b + z);
    lemma_entry_items_concat(a + b, z);
    lemma_entry_items_concat(a, b);
    let k0 = head_bytes(major::UINT, 0);
    let k1 = head_bytes(major::UINT, 1);
    let k3 = head_bytes(major::UINT, 3);
    let k4 = head_bytes(major::UINT, 4);
    let v0 = text_item(c.id@);
    let v1 = uid_item(c.over);
    assert(entry_items(a) =~= k0 + (v0 + (k1 + v1))) by {
        let a1 = seq![a[0]];
        assert(a1.drop_last() =~= Seq::<(u16, Seq<u8>)>::empty());
        assert(entry_items(Seq::<(u16, Seq<u8>)>::empty()) =~= Seq::<u8>::empty());
        assert(a.drop_last() =~= a1);
        assert(entry_items(a1) == entry_items(a1.drop_last()) + k0 + v0);
        assert(entry_items(a) == entry_items(a1) + k1 + v1);
    }
    assert(entry_items(z) =~= k3 + (dv + (k4 + sv))) by {
        let z1 = seq![z[0]];
        assert(z1.drop_last() =~= Seq::<(u16, Seq<u8>)>::empty());
        assert(entry_items(Seq::<(u16, Seq<u8>)>::empty()) =~= Seq::<u8>::empty());
        assert(z.drop_last() =~= z1);
        assert(entry_items(z1) == entry_items(z1.drop_last()) + k3 + dv);
        assert(entry_items(z) == entry_items(z1) + k4 + sv);
    }
    // Where each entry stands.
    lemma_split(s, q0, entry_items(a + b), entry_items(z));
    lemma_split(s, q0, entry_items(a), entry_items(b));
    lemma_split(s, q0, k0, v0 + (k1 + v1));
    lemma_split(s, q0 + k0.len(), v0, k1 + v1);
    let p1 = q0 + k0.len() + v0.len();
    lemma_split(s, p1, k1, v1);
    let p2 = p1 + k1.len() + v1.len();
    let p3 = p2 + entry_items(b).len();
    lemma_split(s, p3, k3, dv + (k4 + sv));
    lemma_split(s, p3 + k3.len(), dv, k4 + sv);
    let p4 = p3 + k3.len() + dv.len();
    lemma_split(s, p4, k4, sv);
    let q1 = p4 + k4.len() + sv.len();
    assert(q1 == q0 + entry_items(f).len());
    // The fields as they are read.
    let st0 = no_contention_fields();
    let st1 = ContentionFields { id: Some(c.id@), ..st0 };
    let st2 = ContentionFields { over: Some(c.over.bytes()), ..st1 };
    let st3 = ContentionFields { positions: c.positions@.map_values(|u: Uid| u.bytes()), ..st2 };
    let st4 = ContentionFields { detected: Some((c.detected.kind, hlc_view(c.detected.ts))), ..st3 };
    let st5 = ContentionFields { status: Some(c.status), ..st4 };
    reveal(contention_walk);
    lemma_key_read(0, None, s, q0);
    lemma_text_read(c.id@, s, q0 + k0.len());
    assert(contention_value(s, p, q0 + k0.len(), 0, st0) == (Ok::<ContentionFields, CodecError>(st1), p1)) by {
        reveal(contention_value);
    }
    lemma_key_read(1, Some(0u16), s, p1);
    crate::ids::lemma_uid_bytes_len(c.over);
    lemma_bytes_read(c.over.bytes(), s, p1 + k1.len());
    assert(bytes_item(c.over.bytes()) == v1);
    assert(contention_value(s, p, p1 + k1.len(), 1, st1) == (Ok::<ContentionFields, CodecError>(st2), p2)) by {
        reveal(contention_value);
    }
    let after_pos: Option<u16> = if pos.len() == 0 { Some(1u16) } else { Some(2u16) };
    if pos.len() == 0 {
        assert(entry_items(b) =~= Seq::<u8>::empty());
        assert(c.positions@.map_values(|u: Uid| u.bytes()) =~= Seq::<Seq<u8>>::empty());
        assert(st3 == st2);
    } else {
        let k2 = head_bytes(major::UINT, 2);
        let hv = head_bytes(major::ARRAY, pos.len() as u64);
        let b1 = b[0].1;
        assert(b.drop_last() =~= Seq::<(u16, Seq<u8>)>::empty());
        assert(entry_items(Seq::<(u16, Seq<u8>)>::empty()) =~= Seq::<u8>::empty());
        assert(entry_items(b) =~= k2 + (hv + concat_items(pos)));
        lemma_split(s, p2, k2, hv + concat_items(pos));
        lemma_split(s, p2 + k2.len(), hv, concat_items(pos));
        lemma_key_read(2, Some(1u16), s, p2);
        lemma_expect_read(major::ARRAY, pos.len() as u64, s, p2 + k2.len());
        lemma_head_not_null(major::ARRAY, pos.len() as u64, s, p2 + k2.len());
        assert(pos.skip(0) =~= pos);
        assert(c.positions@.skip(0) =~= c.positions@);
        assert(c.positions@.len() <= usize::MAX) by {
            assert(c.positions.len() == c.positions@.len());
        }
        lemma_positions_walk(c.positions@, 0, s, p2 + k2.len() + hv.len());
        assert(contention_value(s, p, p2 + k2.len(), 2, st2) == (Ok::<ContentionFields, CodecError>(st3), p3)) by {
            reveal(contention_value);
        }
    }
    lemma_key_read(3, after_pos, s, p3);
    lemma_detected_read(c.detected.kind, c.detected.ts, s, p3 + k3.len());
    assert(contention_value(s, p, p3 + k3.len(), 3, st3) == (Ok::<ContentionFields, CodecError>(st4), p4)) by {
        reveal(contention_value);
    }
    lemma_key_read(4, Some(3u16), s, p4);
    lemma_expect_read(major::UINT, c.status.code_view() as u64, s, p4 + k4.len());
    lemma_head_not_null(major::UINT, c.status.code_view() as u64, s, p4 + k4.len());
    lemma_contention_status_code(c.status);
    assert(contention_value(s, p, p4 + k4.len(), 4, st4) == (Ok::<ContentionFields, CodecError>(st5), q1)) by {
        reveal(contention_value);
    }
    assert forall|i: int| 0 <= i < x.len() implies (#[trigger] x[i]).0 > keys::contention::HIGHEST && one_item(x[i].1) by {
        assert(m.contains_key(x[i].0));
        assert(m[x[i].0]@ == x[i].1);
    }
    assert(x.skip(0) =~= x);
    assert(x.take(0) =~= Seq::<(u16, Seq<u8>)>::empty());
    assert(entries_map(Seq::<(u16, Seq<u8>)>::empty()) =~= Map::<u16, Seq<u8>>::empty());
    assert(ContentionFields { extra: entries_map(x.take(0)), ..st5 } == st5);
    lemma_contention_extra_walk(s, p, q1, x, 0, st5, Some(4u16));
    lemma_entries_map_view(x, m);
    let nb = b.len() as nat;
    assert(f.len() == 4 + nb);
    assert(contention_walk(s, p, p4, (n - 3 - nb) as nat, Some(3u16), st4) == contention_walk(s, p, q1, (n - 4 - nb) as nat, Some(4u16), st5));
    assert(contention_walk(s, p, p3, (n - 2 - nb) as nat, after_pos, st3) == contention_walk(s, p, p4, (n - 3 - nb) as nat, Some(3u16), st4));
    assert(contention_walk(s, p, p2, (n - 2) as nat, Some(1u16), st2) == contention_walk(s, p, p3, (n - 2 - nb) as nat, after_pos, st3));
    assert(contention_walk(s, p, p1, (n - 1) as nat, Some(0u16), st1) == contention_walk(s, p, p2, (n - 2) as nat, Some(1u16), st2));
    assert(contention_walk(s, p, q0, n, None, st0) == contention_walk(s, p, p1, (n - 1) as nat, Some(0u16), st1));
}

/// Reading the unknown keys of a contention keeps each value verbatim.
#[verifier::rlimit(60)]
proof fn lemma_contention_extra_walk(
    s: Seq<u8>,
    at: int,
    p: int,
    x: Seq<(u16, Seq<u8>)>,
    j: int,
    base: ContentionFields,
    prev: Option<u16>,
)
    requires
        0 <= j <= x.len(),
        keys_ascending(x),
        forall|i: int| 0 <= i < x.len() ==> (#[trigger] x[i]).0 > keys::contention::HIGHEST && one_item(x[i].1),
        stands_at(s, p, entry_items(x.skip(j))),
        j > 0 ==> prev == Some(x[j - 1].0),
        j == 0 ==> (prev matches Some(pk) ==> pk <= keys::contention::HIGHEST),
    ensures
        contention_walk(s, at, p, (x.len() - j) as nat, prev, ContentionFields { extra: entries_map(x.take(j)), ..base })
            == (
            Ok::<ContentionFields, CodecError>(ContentionFields { extra: entries_map(x), ..base }),
            p + entry_items(x.skip(j)).len(),
        ),
    decreases x.len() - j,
{
    if j == x.len() {
        reveal(contention_walk);
        assert(x.take(j) =~= x);
        assert(entry_items(x.skip(j)) =~= Seq::<u8>::empty()) by {
            assert(x.skip(j) =~= Seq::<(u16, Seq<u8>)>::empty());
        }
    } else {
        let (k, v) = x[j];
        assert(x.skip(j) =~= seq![x[j]] + x.skip(j + 1));
        lemma_entry_items_concat(seq![x[j]], x.skip(j + 1));
        assert(seq![x[j]].drop_last() =~= Seq::<(u16, Seq<u8>)>::empty());
        assert(entry_items(Seq::<(u16, Seq<u8>)>::empty()) =~= Seq::<u8>::empty());
        assert(entry_items(seq![x[j]]) =~= head_bytes(major::UINT, k as u64) + v);
        lemma_split(s, p, entry_items(seq![x[j]]), entry_items(x.skip(j + 1)));
        let hk = head_bytes(major::UINT, k as u64);
        lemma_split(s, p, hk, v);
        let p1 = p + hk.len();
        let pre = s.take(p1);
        let w = s.skip(p1 + v.len());
        assert(s =~= pre + v + w);
        assert(skip_at(pre + v + w, pre.len() as int, 0) == (Ok::<(), CodecError>(()), (pre.len() + v.len()) as int));
        assert(s.subrange(p1, p1 + v.len()) == v);
        let st = ContentionFields { extra: entries_map(x.take(j)), ..base };
        let st2 = ContentionFields { extra: entries_map(x.take(j + 1)), ..base };
        assert(x.take(j + 1).drop_last() =~= x.take(j));
        assert(entries_map(x.take(j + 1)) == entries_map(x.take(j)).insert(k, v));
        assert(contention_value(s, at, p1, k, st) == (Ok::<ContentionFields, CodecError>(st2), p1 + v.len())) by {
            reveal(contention_value);
        }
        if j > 0 {
            assert(x[j - 1].0 < x[j].0);
        }
        lemma_key_read(k, prev, s, p);
        reveal(contention_walk);
        lemma_contention_extra_walk(s, at, p1 + v.len(), x, j + 1, base, Some(k));
    }
}

} // verus!
