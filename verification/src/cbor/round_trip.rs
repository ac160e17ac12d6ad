//! What a read gives back of a write: the reader, handed the bytes the writer made for a
//! value, reads back that value and stops where the bytes end.

use vstd::prelude::*;
use crate::cbor::decode::{
    extra_view, no_unit_fields, null_check, opt_bytes_view, opt_source_view, source_at, source_kind_of, source_value, source_view,
    source_walk, status_of, uid_bytes, unit_at, unit_from_fields, unit_value, unit_view, unit_walk, SourceFields,
    UnitFields,
};
use crate::cbor::envelope::{
    bytes_item, extra_above, extra_entries, lemma_extra_covers, lemma_unit_fields_ascend,
    opt_entry, opt_source_item,
    opt_text_item, source_entries, source_item, text_item, uid_set_entry, unit_core_encoding, unit_core_fields,
};
use crate::cbor::keys;
use crate::cbor::major;
use crate::cbor::reader::{
    bytes_at, expect_at, lemma_head_round_trip, map_key_at, skip_at, text_at, uid_at, uid_set_at,
    uids_at,
};
use crate::cbor::writer::{
    concat_items, entry_items, extra_in_order, head_bytes, in_key_order, keys_ascending, lemma_key_order_unique, map_bytes, uid_item,
    uid_items,
};
use crate::error::CodecError;
use crate::ids::{schema_forward_ok, uids_sorted, Uid};
use crate::nfc::nfc_of;
use crate::types::epistemics::{date_text, date_valid, lemma_date_text_parses, Date, SourceKind, SourceRef, Status};
use crate::types::unit::{opt_view, UnitCore};
use vstd::utf8::{decode_utf8, encode_utf8};

verus! {

/// `x` stands at `a` in `s`.
pub open spec fn stands_at(s: Seq<u8>, a: int, x: Seq<u8>) -> bool {
    0 <= a && a + x.len() <= s.len() && s.subrange(a, a + x.len()) == x
}

pub(crate) proof fn lemma_split(s: Seq<u8>, a: int, x: Seq<u8>, y: Seq<u8>)
    requires
        stands_at(s, a, x + y),
    ensures
        stands_at(s, a, x),
        stands_at(s, a + x.len(), y),
{
    let big = s.subrange(a, a + x.len() + y.len());
    assert forall|i: int| 0 <= i < x.len() implies s.subrange(a, a + x.len())[i] == x[i] by {
        assert(big[i] == (x + y)[i]);
    }
    assert(s.subrange(a, a + x.len()) =~= x);
    assert forall|i: int| 0 <= i < y.len() implies s.subrange(a + x.len(), a + x.len() + y.len())[i] == y[i] by {
        assert(big[x.len() + i] == (x + y)[x.len() + i]);
    }
    assert(s.subrange(a + x.len(), a + x.len() + y.len()) =~= y);
}

pub(crate) proof fn lemma_expect_read(m: u8, arg: u64, s: Seq<u8>, p: int)
    requires
        m < 8,
        stands_at(s, p, head_bytes(m, arg)),
    ensures
        expect_at(s, p, m) == (Ok::<u64, CodecError>(arg), p + head_bytes(m, arg).len()),
{
    lemma_head_round_trip(m, arg, s, p);
}

/// The first byte of a head names its major type, so only a simple value's head is `null`.
pub(crate) proof fn lemma_head_not_null(m: u8, arg: u64, s: Seq<u8>, p: int)
    requires
        m < 7,
        stands_at(s, p, head_bytes(m, arg)),
    ensures
        null_check(s, p) is None,
{
    lemma_head_round_trip(m, arg, s, p);
    assert(s[p] == head_bytes(m, arg)[0]);
}

pub(crate) proof fn lemma_text_read(t: Seq<char>, s: Seq<u8>, p: int)
    requires
        nfc_of(t) == t,
        stands_at(s, p, text_item(t)),
        s.len() <= usize::MAX,
    ensures
        text_at(s, p) == (Ok::<Seq<u8>, CodecError>(encode_utf8(t)), p + text_item(t).len()),
        decode_utf8(encode_utf8(t)) == t,
        null_check(s, p) is None,
{
    let b = encode_utf8(t);
    let h = head_bytes(major::TEXT, b.len() as u64);
    lemma_split(s, p, h, b);
    lemma_expect_read(major::TEXT, b.len() as u64, s, p);
    lemma_head_not_null(major::TEXT, b.len() as u64, s, p);
    vstd::utf8::encode_utf8_valid_utf8(t);
    vstd::utf8::encode_utf8_decode_utf8(t);
    assert(s.subrange(p + h.len(), p + h.len() + b.len()) == b);
}

pub(crate) proof fn lemma_bytes_read(b: Seq<u8>, s: Seq<u8>, p: int)
    requires
        stands_at(s, p, bytes_item(b)),
        s.len() <= usize::MAX,
    ensures
        bytes_at(s, p) == (Ok::<Seq<u8>, CodecError>(b), p + bytes_item(b).len()),
        null_check(s, p) is None,
{
    let h = head_bytes(major::BYTES, b.len() as u64);
    lemma_split(s, p, h, b);
    lemma_expect_read(major::BYTES, b.len() as u64, s, p);
    lemma_head_not_null(major::BYTES, b.len() as u64, s, p);
}

pub(crate) proof fn lemma_key_read(k: u16, prev: Option<u16>, s: Seq<u8>, p: int)
    requires
        stands_at(s, p, head_bytes(major::UINT, k as u64)),
        prev matches Some(pk) ==> pk < k,
    ensures
        map_key_at(s, p, prev) == (Ok::<u16, CodecError>(k), p + head_bytes(major::UINT, k as u64).len()),
{
    lemma_expect_read(major::UINT, k as u64, s, p);
}

/// Listing a uid set from the front.
proof fn lemma_uid_items_front(u: Uid, rest: Seq<Uid>)
    ensures
        uid_items(seq![u] + rest) == uid_item(u) + uid_items(rest),
    decreases rest.len(),
{
    if rest.len() == 0 {
        assert(seq![u] + rest =~= seq![u]);
        assert(seq![u].drop_last() =~= Seq::<Uid>::empty());
        assert(rest =~= Seq::<Uid>::empty());
        assert(uid_items(Seq::<Uid>::empty()) =~= Seq::<u8>::empty());
        assert(uid_items(seq![u]) == uid_items(seq![u].drop_last()) + uid_item(u));
        assert(uid_items(seq![u]) =~= uid_item(u) + uid_items(rest));
    } else {
        lemma_uid_items_front(u, rest.drop_last());
        assert((seq![u] + rest).drop_last() =~= seq![u] + rest.drop_last());
        assert(uid_items(seq![u] + rest) =~= uid_item(u) + uid_items(rest));
    }
}

/// Listing map entries from the front.
pub proof fn lemma_entry_items_concat(a: Seq<(u16, Seq<u8>)>, b: Seq<(u16, Seq<u8>)>)
    ensures
        entry_items(a + b) == entry_items(a) + entry_items(b),
    decreases b.len(),
{
    if b.len() == 0 {
        assert(a + b =~= a);
        assert(entry_items(a) + entry_items(b) =~= entry_items(a));
    } else {
        lemma_entry_items_concat(a, b.drop_last());
        assert((a + b).drop_last() =~= a + b.drop_last());
        assert(entry_items(a + b) =~= entry_items(a) + entry_items(b));
    }
}

proof fn lemma_uids_read(us: Seq<Uid>, j: int, prev: Option<Seq<u8>>, s: Seq<u8>, p: int, set_at: int)
    requires
        0 <= j <= us.len(),
        uids_sorted(us),
        stands_at(s, p, uid_items(us.skip(j))),
        s.len() <= usize::MAX,
        j > 0 ==> prev == Some(us[j - 1].bytes()),
        j == 0 ==> prev is None,
    ensures
        uids_at(s, p, (us.len() - j) as nat, prev, set_at) == (
            Ok::<Seq<Seq<u8>>, CodecError>(us.skip(j).map_values(|u: Uid| u.bytes())),
            p + uid_items(us.skip(j)).len(),
        ),
    decreases us.len() - j,
{
    if j == us.len() {
        assert(us.skip(j) =~= Seq::<Uid>::empty());
        assert(us.skip(j).map_values(|u: Uid| u.bytes()) =~= Seq::<Seq<u8>>::empty());
    } else {
        let u = us[j];
        assert(us.skip(j) =~= seq![u] + us.skip(j + 1));
        lemma_uid_items_front(u, us.skip(j + 1));
        let h = head_bytes(major::BYTES, 32);
        lemma_split(s, p, uid_item(u), uid_items(us.skip(j + 1)));
        lemma_split(s, p, h, u.bytes());
        crate::ids::lemma_uid_bytes_len(u);
        lemma_bytes_read(u.bytes(), s, p);
        assert(bytes_item(u.bytes()) == uid_item(u));
        assert(uid_at(s, p) == (Ok::<Seq<u8>, CodecError>(u.bytes()), p + uid_item(u).len()));
        lemma_uids_read(us, j + 1, Some(u.bytes()), s, p + uid_item(u).len(), set_at);
        assert(us.skip(j).map_values(|x: Uid| x.bytes()) =~= seq![u.bytes()] + us.skip(j + 1).map_values(
            |x: Uid| x.bytes(),
        ));
    }
}

/// A uid set reads back as itself: where the set writer's bytes for an ascending set of
/// uids stand, the set reader gives back those uids, in order, and stops where the bytes end.
pub proof fn lemma_uid_set_read(us: Seq<Uid>, s: Seq<u8>, p: int)
    requires
        uids_sorted(us),
        stands_at(s, p, head_bytes(major::ARRAY, us.len() as u64) + uid_items(us)),
        s.len() <= usize::MAX,
    ensures
        uid_set_at(s, p) == (
            Ok::<Seq<Seq<u8>>, CodecError>(us.map_values(|u: Uid| u.bytes())),
            p + head_bytes(major::ARRAY, us.len() as u64).len() + uid_items(us).len(),
        ),
        null_check(s, p) is None,
{
    let h = head_bytes(major::ARRAY, us.len() as u64);
    lemma_split(s, p, h, uid_items(us));
    lemma_expect_read(major::ARRAY, us.len() as u64, s, p);
    lemma_head_not_null(major::ARRAY, us.len() as u64, s, p);
    assert(us.skip(0) =~= us);
    lemma_uid_items_len(us);
    lemma_uids_read(us, 0, None, s, p + h.len(), p);
}

proof fn lemma_uid_items_len(us: Seq<Uid>)
    ensures
        uid_items(us).len() >= us.len(),
    decreases us.len(),
{
    if us.len() > 0 {
        lemma_uid_items_len(us.drop_last());
    }
}

/// Entries already in ascending key order are written as they stand.
pub proof fn lemma_map_bytes_sorted(e: Seq<(u16, Seq<u8>)>)
    requires
        keys_ascending(e),
    ensures
        map_bytes(e) == head_bytes(major::MAP, e.len() as u64) + entry_items(e),
{
    assert(in_key_order(e, e));
    let o = choose|o: Seq<(u16, Seq<u8>)>| in_key_order(o, e);
    lemma_key_order_unique(o, e, e);
}

/// Each wire code names at most one source kind.
proof fn lemma_source_kind_code(k: SourceKind)
    ensures
        source_kind_of(k.code_view()) == Some(k),
{
    let j = choose|j: SourceKind| j.code_view() == k.code_view();
    assert(j == k) by {
        match (j, k) {
            (SourceKind::Url, SourceKind::Url) => {},
            (SourceKind::File, SourceKind::File) => {},
            (SourceKind::Metric, SourceKind::Metric) => {},
            (SourceKind::Tool, SourceKind::Tool) => {},
            (SourceKind::Doc, SourceKind::Doc) => {},
            _ => {},
        }
    }
}

/// Each wire code names at most one status.
proof fn lemma_status_code(k: Status)
    ensures
        status_of(k.code_view()) == Some(k),
{
    let j = choose|j: Status| j.code_view() == k.code_view();
    assert(j == k) by {
        match (j, k) {
            (Status::Unfounded, Status::Unfounded) => {},
            (Status::Speculative, Status::Speculative) => {},
            (Status::Inferred, Status::Inferred) => {},
            (Status::Derived, Status::Derived) => {},
            (Status::Cited, Status::Cited) => {},
            (Status::Measured, Status::Measured) => {},
            _ => {},
        }
    }
}

/// The bytes of a source reference without a capture date: a map of two entries.
proof fn lemma_source_layout(sr: SourceRef)
    requires
        sr.captured is None,
    ensures
        source_item(sr) == head_bytes(major::MAP, 2) + (head_bytes(major::UINT, 0) + (head_bytes(
            major::UINT,
            sr.kind.code_view() as u64,
        ) + (head_bytes(major::UINT, 1) + text_item(sr.reference@)))),
{
    let kv = head_bytes(major::UINT, sr.kind.code_view() as u64);
    let rv = text_item(sr.reference@);
    let e = seq![(keys::source::KIND, kv), (keys::source::REFERENCE, rv)];
    assert(source_entries(sr) =~= e);
    lemma_map_bytes_sorted(e);
    let e1 = e.drop_last();
    assert(e1 =~= seq![(keys::source::KIND, kv)]);
    assert(e1.drop_last() =~= Seq::<(u16, Seq<u8>)>::empty());
    assert(entry_items(Seq::<(u16, Seq<u8>)>::empty()) =~= Seq::<u8>::empty());
    assert(entry_items(e1) == entry_items(e1.drop_last()) + head_bytes(major::UINT, 0) + kv);
    assert(entry_items(e) == entry_items(e1) + head_bytes(major::UINT, 1) + rv);
    assert(entry_items(e) =~= head_bytes(major::UINT, 0) + (kv + (head_bytes(major::UINT, 1) + rv)));
}

/// The text of a source reference's capture date.
pub open spec fn captured_text(d: Date) -> Seq<char> {
    date_text(d.year as int, d.month as int, d.day as int)
}

/// The bytes of a source reference with a capture date: a map of three entries.
proof fn lemma_dated_source_layout(sr: SourceRef, d: Date)
    requires
        sr.captured == Some(d),
    ensures
        source_item(sr) == head_bytes(major::MAP, 3) + (head_bytes(major::UINT, 0) + (head_bytes(
            major::UINT,
            sr.kind.code_view() as u64,
        ) + (head_bytes(major::UINT, 1) + (text_item(sr.reference@) + (head_bytes(major::UINT, 2)
            + text_item(captured_text(d))))))),
{
    let kv = head_bytes(major::UINT, sr.kind.code_view() as u64);
    let rv = text_item(sr.reference@);
    let dv = text_item(captured_text(d));
    let e = seq![(keys::source::KIND, kv), (keys::source::REFERENCE, rv), (keys::source::CAPTURED, dv)];
    assert(source_entries(sr) =~= e);
    lemma_map_bytes_sorted(e);
    let e2 = e.drop_last();
    let e1 = e2.drop_last();
    assert(e2 =~= seq![(keys::source::KIND, kv), (keys::source::REFERENCE, rv)]);
    assert(e1 =~= seq![(keys::source::KIND, kv)]);
    assert(e1.drop_last() =~= Seq::<(u16, Seq<u8>)>::empty());
    assert(entry_items(Seq::<(u16, Seq<u8>)>::empty()) =~= Seq::<u8>::empty());
    assert(entry_items(e1) == entry_items(e1.drop_last()) + head_bytes(major::UINT, 0) + kv);
    assert(entry_items(e2) == entry_items(e1) + head_bytes(major::UINT, 1) + rv);
    assert(entry_items(e) == entry_items(e2) + head_bytes(major::UINT, 2) + dv);
    assert(entry_items(e) =~= head_bytes(major::UINT, 0) + (kv + (head_bytes(major::UINT, 1) + (rv + (
    head_bytes(major::UINT, 2) + dv)))));
}

/// A source reference the writer can hand back: its reference in NFC and, where it carries a
/// capture date, a valid date of a year with at most four digits, whose text is in NFC.
pub open spec fn source_writable(sr: SourceRef) -> bool {
    &&& nfc_of(sr.reference@) == sr.reference@
    &&& (sr.captured matches Some(d) ==> date_valid(d.year as int, d.month as int, d.day as int) && d.year
        <= 9999 && nfc_of(captured_text(d)) == captured_text(d))
}

/// A source reference reads back as itself, with or without a capture date.
#[verifier::rlimit(40)]
pub proof fn lemma_source_read(sr: SourceRef, s: Seq<u8>, p: int)
    requires
        source_writable(sr),
        stands_at(s, p, source_item(sr)),
        s.len() <= usize::MAX,
    ensures
        source_at(s, p) == (Ok::<_, CodecError>(source_view(sr)), p + source_item(sr).len()),
        null_check(s, p) is None,
{
    let code = sr.kind.code_view();
    let kv = head_bytes(major::UINT, code as u64);
    let rv = text_item(sr.reference@);
    let k0 = head_bytes(major::UINT, 0);
    let k1 = head_bytes(major::UINT, 1);
    let cnt: u64 = if sr.captured is None { 2 } else { 3 };
    let h = head_bytes(major::MAP, cnt);
    let tail: Seq<u8> = match sr.captured {
        None => Seq::empty(),
        Some(d) => head_bytes(major::UINT, 2) + text_item(captured_text(d)),
    };
    match sr.captured {
        None => {
            lemma_source_layout(sr);
            assert(rv + tail =~= rv);
        },
        Some(d) => lemma_dated_source_layout(sr, d),
    }
    assert(source_item(sr) == h + (k0 + (kv + (k1 + (rv + tail)))));
    lemma_split(s, p, h, k0 + (kv + (k1 + (rv + tail))));
    let p1 = p + h.len();
    lemma_split(s, p1, k0, kv + (k1 + (rv + tail)));
    let p2 = p1 + k0.len();
    lemma_split(s, p2, kv, k1 + (rv + tail));
    let p3 = p2 + kv.len();
    lemma_split(s, p3, k1, rv + tail);
    let p4 = p3 + k1.len();
    lemma_split(s, p4, rv, tail);
    let p5 = p4 + rv.len();
    let end = p5 + tail.len();
    assert(end == p + source_item(sr).len());
    lemma_expect_read(major::MAP, cnt, s, p);
    lemma_head_not_null(major::MAP, cnt, s, p);
    lemma_key_read(keys::source::KIND, None, s, p1);
    lemma_head_not_null(major::UINT, code as u64, s, p2);
    lemma_expect_read(major::UINT, code as u64, s, p2);
    lemma_source_kind_code(sr.kind);
    lemma_key_read(keys::source::REFERENCE, Some(keys::source::KIND), s, p3);
    lemma_text_read(sr.reference@, s, p4);
    let st0 = SourceFields { kind: None, reference: None, captured: None };
    let st1 = SourceFields { kind: Some(sr.kind), reference: None, captured: None };
    let st2 = SourceFields { kind: Some(sr.kind), reference: Some(sr.reference@), captured: None };
    match sr.captured {
        None => {
            assert(source_walk(s, p, end, 0, Some(keys::source::REFERENCE), st2) == (Ok::<SourceFields, CodecError>(st2), end));
            assert(source_walk(s, p, p3, 1, Some(keys::source::KIND), st1) == (Ok::<SourceFields, CodecError>(st2), end));
            assert(source_walk(s, p, p1, 2, None, st0) == (Ok::<SourceFields, CodecError>(st2), end));
        },
        Some(d) => {
            let k2 = head_bytes(major::UINT, 2);
            let t = captured_text(d);
            lemma_split(s, p5, k2, text_item(t));
            let p6 = p5 + k2.len();
            lemma_key_read(keys::source::CAPTURED, Some(keys::source::REFERENCE), s, p5);
            lemma_text_read(t, s, p6);
            lemma_date_text_parses(d.year, d.month, d.day);
            let st3 = SourceFields { kind: Some(sr.kind), reference: Some(sr.reference@), captured: Some(d) };
            assert(source_value(s, p, p6, keys::source::CAPTURED, st2) == (Ok::<SourceFields, CodecError>(st3), end));
            assert(source_walk(s, p, end, 0, Some(keys::source::CAPTURED), st3) == (Ok::<SourceFields, CodecError>(st3), end));
            assert(source_walk(s, p, p5, 1, Some(keys::source::REFERENCE), st2) == (Ok::<SourceFields, CodecError>(st3), end));
            assert(source_walk(s, p, p3, 2, Some(keys::source::KIND), st1) == (Ok::<SourceFields, CodecError>(st3), end));
            assert(source_walk(s, p, p1, 3, None, st0) == (Ok::<SourceFields, CodecError>(st3), end));
        },
    }
}

/// Reading one entry: its key after `prev`, then its value, which the record reads from `st`
/// into `st2`.
proof fn lemma_walk_one(s: Seq<u8>, at: int, p: int, n: nat, prev: Option<u16>, st: UnitFields, k: u16, v: Seq<u8>, st2: UnitFields)
    requires
        n > 0,
        stands_at(s, p, head_bytes(major::UINT, k as u64) + v),
        prev matches Some(pk) ==> pk < k,
        null_check(s, p + head_bytes(major::UINT, k as u64).len()) is None,
        unit_value(s, at, p + head_bytes(major::UINT, k as u64).len(), k, st) == (
            Ok::<UnitFields, CodecError>(st2),
            p + head_bytes(major::UINT, k as u64).len() + v.len(),
        ),
    ensures
        unit_walk(s, at, p, n, prev, st) == unit_walk(
            s,
            at,
            p + head_bytes(major::UINT, k as u64).len() + v.len(),
            (n - 1) as nat,
            Some(k),
            st2,
        ),
{
    reveal(unit_walk);
    lemma_split(s, p, head_bytes(major::UINT, k as u64), v);
    lemma_key_read(k, prev, s, p);
}

/// The entry the writer makes for known key `k` of a unit core: none, or one.
pub open spec fn seg(c: UnitCore, k: int) -> Seq<(u16, Seq<u8>)> {
    if k == 0 {
        seq![(keys::unit::SCHEMA, text_item(c.schema.text()))]
    } else if k == 1 {
        seq![(keys::unit::GIST, text_item(c.gist@))]
    } else if k == 2 {
        opt_entry(keys::unit::BODY, opt_text_item(c.body))
    } else if k == 3 {
        opt_entry(keys::unit::DETAIL, opt_text_item(c.detail))
    } else if k == 4 {
        uid_set_entry(keys::unit::DEPS, c.deps@)
    } else if k == 5 {
        uid_set_entry(keys::unit::GROUNDS, c.grounds@)
    } else if k == 6 {
        seq![(keys::unit::STATUS, head_bytes(major::UINT, c.status.code_view() as u64))]
    } else if k == 7 {
        opt_entry(keys::unit::SOURCE, opt_source_item(c.source))
    } else {
        opt_entry(
            keys::unit::PAYLOAD,
            match c.payload {
                Some(p) => Some(bytes_item(p@)),
                None => None,
            },
        )
    }
}

/// The entries for known keys below `k`.
pub open spec fn segs_upto(c: UnitCore, k: nat) -> Seq<(u16, Seq<u8>)>
    decreases k,
{
    if k == 0 {
        Seq::empty()
    } else {
        segs_upto(c, (k - 1) as nat) + seg(c, k - 1)
    }
}

/// The fields of `c` whose keys lie below `b`, as the reader holds them once it has read
/// that far.
pub open spec fn fields_below(c: UnitCore, b: int) -> UnitFields {
    UnitFields {
        schema: if b > 0 { Some(c.schema.text()) } else { None },
        gist: if b > 1 { Some(c.gist@) } else { None },
        body: if b > 2 { opt_view(c.body) } else { None },
        detail: if b > 3 { opt_view(c.detail) } else { None },
        deps: if b > 4 { uid_bytes(c.deps@) } else { Seq::empty() },
        grounds: if b > 5 { uid_bytes(c.grounds@) } else { Seq::empty() },
        status: if b > 6 { Some(c.status) } else { None },
        source: if b > 7 { opt_source_view(c.source) } else { None },
        payload: if b > 8 { opt_bytes_view(c.payload) } else { None },
        extra: Map::empty(),
    }
}

/// The last key of a list of entries.
pub open spec fn last_key(e: Seq<(u16, Seq<u8>)>) -> Option<u16> {
    if e.len() == 0 {
        None
    } else {
        Some(e.last().0)
    }
}

/// What the writer promises of a core's text and names: text in NFC, a schema the reader
/// accepts, and a source reference the reader hands back.
pub open spec fn writable(c: UnitCore) -> bool {
    &&& c.well_formed()
    &&& nfc_of(c.schema.text()) == c.schema.text()
    &&& schema_forward_ok(c.schema.text())
    &&& (c.source matches Some(sr) ==> source_writable(sr))
}

pub(crate) proof fn lemma_uid_bytes_same(us: Seq<Uid>)
    ensures
        us.map_values(|u: Uid| u.bytes()) == uid_bytes(us),
{
    assert(us.map_values(|u: Uid| u.bytes()) =~= uid_bytes(us));
}

/// Reading the entry for known key `k`, if the core has one, takes the reader from the fields
/// below `k` to the fields below `k + 1`.
#[verifier::rlimit(40)]
proof fn lemma_unit_seg(c: UnitCore, s: Seq<u8>, at: int, p: int, n: nat, prev: Option<u16>, k: int)
    requires
        0 <= k <= 8,
        writable(c),
        n >= seg(c, k).len(),
        stands_at(s, p, entry_items(seg(c, k))),
        s.len() <= usize::MAX,
        prev matches Some(pk) ==> pk < k,
    ensures
        unit_walk(s, at, p, n, prev, fields_below(c, k)) == unit_walk(
            s,
            at,
            p + entry_items(seg(c, k)).len(),
            (n - seg(c, k).len()) as nat,
            if seg(c, k).len() == 0 { prev } else { Some(k as u16) },
            fields_below(c, k + 1),
        ),
{
    let e = seg(c, k);
    if e.len() == 0 {
        assert(entry_items(e) =~= Seq::<u8>::empty());
        if k == 4 {
            assert(uid_bytes(c.deps@) =~= Seq::<Seq<u8>>::empty());
        }
        if k == 5 {
            assert(uid_bytes(c.grounds@) =~= Seq::<Seq<u8>>::empty());
        }
        assert(fields_below(c, k) == fields_below(c, k + 1));
    } else {
        let kk = k as u16;
        let v = e[0].1;
        assert(e.drop_last() =~= Seq::<(u16, Seq<u8>)>::empty());
        assert(entry_items(Seq::<(u16, Seq<u8>)>::empty()) =~= Seq::<u8>::empty());
        assert(entry_items(e) =~= head_bytes(major::UINT, kk as u64) + v);
        let hk = head_bytes(major::UINT, kk as u64);
        lemma_split(s, p, hk, v);
        let p1 = p + hk.len();
        if k <= 3 {
            let t = if k == 0 {
                c.schema.text()
            } else if k == 1 {
                c.gist@
            } else if k == 2 {
                c.body->Some_0@
            } else {
                c.detail->Some_0@
            };
            assert(v == text_item(t));
            lemma_text_read(t, s, p1);
        } else if k <= 5 {
            let us = if k == 4 { c.deps@ } else { c.grounds@ };
            assert(v == head_bytes(major::ARRAY, us.len() as u64) + uid_items(us));
            lemma_uid_set_read(us, s, p1);
            lemma_uid_bytes_same(us);
        } else if k == 6 {
            lemma_expect_read(major::UINT, c.status.code_view() as u64, s, p1);
            lemma_head_not_null(major::UINT, c.status.code_view() as u64, s, p1);
            lemma_status_code(c.status);
        } else if k == 7 {
            lemma_source_read(c.source->Some_0, s, p1);
        } else {
            lemma_bytes_read(c.payload->Some_0@, s, p1);
        }
        reveal(unit_value);
        assert(unit_value(s, at, p1, kk, fields_below(c, k)) == (
            Ok::<UnitFields, CodecError>(fields_below(c, k + 1)),
            p1 + v.len(),
        ));
        lemma_walk_one(s, at, p, n, prev, fields_below(c, k), kk, v, fields_below(c, k + 1));
    }
}

/// Reading the entries for the known keys below `k` takes the reader from no fields to the
/// fields below `k`.
proof fn lemma_unit_prefix(c: UnitCore, s: Seq<u8>, at: int, q0: int, n: nat, k: nat)
    requires
        k <= 9,
        writable(c),
        n >= segs_upto(c, k).len(),
        stands_at(s, q0, entry_items(segs_upto(c, k))),
        s.len() <= usize::MAX,
    ensures
        unit_walk(s, at, q0, n, None, fields_below(c, 0)) == unit_walk(
            s,
            at,
            q0 + entry_items(segs_upto(c, k)).len(),
            (n - segs_upto(c, k).len()) as nat,
            last_key(segs_upto(c, k)),
            fields_below(c, k as int),
        ),
        last_key(segs_upto(c, k)) matches Some(x) ==> x < k,
    decreases k,
{
    if k > 0 {
        let j = (k - 1) as nat;
        let a = segs_upto(c, j);
        let b = seg(c, j as int);
        assert(segs_upto(c, k) == a + b);
        lemma_entry_items_concat(a, b);
        lemma_split(s, q0, entry_items(a), entry_items(b));
        lemma_unit_prefix(c, s, at, q0, n, j);
        lemma_unit_seg(c, s, at, q0 + entry_items(a).len(), (n - a.len()) as nat, last_key(a), j as int);
        if b.len() == 0 {
            assert(a + b =~= a);
        } else {
            assert((a + b).last() == b.last());
        }
    } else {
        assert(entry_items(segs_upto(c, 0)) =~= Seq::<u8>::empty());
    }
}

/// The map of a list of entries.
pub open spec fn entries_map(e: Seq<(u16, Seq<u8>)>) -> Map<u16, Seq<u8>>
    decreases e.len(),
{
    if e.len() == 0 {
        Map::empty()
    } else {
        entries_map(e.drop_last()).insert(e.last().0, e.last().1)
    }
}

/// A value that is one complete item, wherever it stands: the reader skips exactly it.
pub open spec fn one_item(v: Seq<u8>) -> bool {
    forall|a: Seq<u8>, w: Seq<u8>|
        #[trigger] skip_at(a + v + w, a.len() as int, 0) == (Ok::<(), CodecError>(()), (a.len() + v.len()) as int)
}

/// Reading the unknown keys keeps each value verbatim.
#[verifier::rlimit(60)]
proof fn lemma_extra_walk(s: Seq<u8>, at: int, p: int, x: Seq<(u16, Seq<u8>)>, j: int, base: UnitFields, prev: Option<u16>)
    requires
        0 <= j <= x.len(),
        keys_ascending(x),
        forall|i: int| 0 <= i < x.len() ==> (#[trigger] x[i]).0 > keys::unit::HIGHEST && one_item(x[i].1),
        stands_at(s, p, entry_items(x.skip(j))),
        j > 0 ==> prev == Some(x[j - 1].0),
        j == 0 ==> (prev matches Some(pk) ==> pk <= keys::unit::HIGHEST),
    ensures
        unit_walk(s, at, p, (x.len() - j) as nat, prev, UnitFields { extra: entries_map(x.take(j)), ..base }) == (
            Ok::<UnitFields, CodecError>(UnitFields { extra: entries_map(x), ..base }),
            p + entry_items(x.skip(j)).len(),
        ),
    decreases x.len() - j,
{
    if j == x.len() {
        reveal(unit_walk);
        assert(x.take(j) =~= x);
        assert(entry_items(x.skip(j)) =~= Seq::<u8>::empty()) by {
            assert(x.skip(j) =~= Seq::<(u16, Seq<u8>)>::empty());
        }
    } else {
        let (k, v) = x[j];
        assert(x.skip(j) =~= seq![x[j]] + x.skip(j + 1));
        lemma_entry_items_concat(seq![x[j]], x.skip(j + 1));
        assert(seq![x[j]].drop_last() =~= Seq::<(u16, Seq<u8>)>::empty());
        assert(entry_items(Seq::<(u16, Seq<u8>)>::empty()) =~= Seq::<u8>::empty());
        assert(entry_items(seq![x[j]]) =~= head_bytes(major::UINT, k as u64) + v);
        lemma_split(s, p, entry_items(seq![x[j]]), entry_items(x.skip(j + 1)));
        let hk = head_bytes(major::UINT, k as u64);
        lemma_split(s, p, hk, v);
        let p1 = p + hk.len();
        let a = s.take(p1);
        let w = s.skip(p1 + v.len());
        assert(s =~= a + v + w);
        assert(skip_at(a + v + w, a.len() as int, 0) == (Ok::<(), CodecError>(()), (a.len() + v.len()) as int));
        assert(s.subrange(p1, p1 + v.len()) == v);
        let st = UnitFields { extra: entries_map(x.take(j)), ..base };
        let st2 = UnitFields { extra: entries_map(x.take(j + 1)), ..base };
        assert(x.take(j + 1).drop_last() =~= x.take(j));
        assert(entries_map(x.take(j + 1)) == entries_map(x.take(j)).insert(k, v));
        assert(unit_value(s, at, p1, k, st) == (Ok::<UnitFields, CodecError>(st2), p1 + v.len())) by {
            reveal(unit_value);
        }
        if j > 0 {
            assert(x[j - 1].0 < x[j].0);
        }
        lemma_walk_one(s, at, p, (x.len() - j) as nat, prev, st, k, v, st2);
        lemma_extra_walk(s, at, p1 + v.len(), x, j + 1, base, Some(k));
    }
}

/// Where an entry with key `k` goes in an ascending list, searching from `i`.
pub open spec fn insert_pos(e: Seq<(u16, Seq<u8>)>, k: u16, i: int) -> int
    decreases e.len() - i,
{
    if i < 0 || i >= e.len() || e[i].0 > k {
        i
    } else {
        insert_pos(e, k, i + 1)
    }
}

proof fn lemma_insert_pos(e: Seq<(u16, Seq<u8>)>, k: u16, i: int)
    requires
        0 <= i <= e.len(),
    ensures
        i <= insert_pos(e, k, i) <= e.len(),
        forall|j: int| i <= j < insert_pos(e, k, i) ==> (#[trigger] e[j]).0 <= k,
        insert_pos(e, k, i) < e.len() ==> e[insert_pos(e, k, i)].0 > k,
    decreases e.len() - i,
{
    if i < e.len() && e[i].0 <= k {
        lemma_insert_pos(e, k, i + 1);
    }
}

/// Every finite map of unknown keys can be listed in ascending key order.
pub proof fn lemma_extra_list_exists(m: Map<u16, Vec<u8>>)
    requires
        m.dom().finite(),
    ensures
        exists|e: Seq<(u16, Seq<u8>)>| extra_in_order(e, m),
    decreases m.dom().len(),
{
    if m.dom().len() == 0 {
        let e = Seq::<(u16, Seq<u8>)>::empty();
        assert(extra_in_order(e, m));
    } else {
        let k = m.dom().choose();
        let m2 = m.remove(k);
        assert(m2.dom() =~= m.dom().remove(k));
        lemma_extra_list_exists(m2);
        let e2 = choose|e: Seq<(u16, Seq<u8>)>| extra_in_order(e, m2);
        lemma_insert_pos(e2, k, 0);
        let i = insert_pos(e2, k, 0);
        let e = e2.insert(i, (k, m[k]@));
        assert forall|a: int, b: int| 0 <= a < b < e.len() implies #[trigger] e[a].0 < #[trigger] e[b].0 by {
            if a < i && b < i {
                assert(e2[a].0 < e2[b].0);
            } else if a < i && b == i {
                assert(e2[a].0 <= k);
                assert(m2.contains_key(e2[a].0));
            } else if a < i && b > i {
                assert(e2[a].0 < e2[b - 1].0);
            } else if a == i {
                assert(e2[b - 1].0 >= e2[i].0) by {
                    if b - 1 > i {
                        assert(e2[i].0 < e2[b - 1].0);
                    }
                }
            } else {
                assert(e2[a - 1].0 < e2[b - 1].0);
            }
        }
        assert forall|j: int| 0 <= j < e.len() implies #[trigger] m.contains_key(e[j].0) && m[e[j].0]@ == e[j].1 by {
            if j < i {
                assert(m2.contains_key(e2[j].0));
            } else if j > i {
                assert(m2.contains_key(e2[j - 1].0));
            }
        }
        assert(extra_in_order(e, m));
    }
}

/// The map a list of entries with distinct keys makes holds exactly those entries.
proof fn lemma_entries_map(e: Seq<(u16, Seq<u8>)>)
    requires
        keys_ascending(e),
    ensures
        forall|k: u16| #[trigger] entries_map(e).contains_key(k) <==> exists|j: int| 0 <= j < e.len() && e[j].0 == k,
        forall|j: int| 0 <= j < e.len() ==> #[trigger] entries_map(e)[e[j].0] == e[j].1,
    decreases e.len(),
{
    if e.len() > 0 {
        let d = e.drop_last();
        assert forall|a: int, b: int| 0 <= a < b < d.len() implies #[trigger] d[a].0 < #[trigger] d[b].0 by {
            assert(e[a].0 < e[b].0);
        }
        lemma_entries_map(d);
        assert(entries_map(e) == entries_map(d).insert(e.last().0, e.last().1));
        assert forall|k: u16| #[trigger] entries_map(e).contains_key(k) <==> exists|j: int| 0 <= j < e.len() && e[j].0 == k by {
            if entries_map(e).contains_key(k) && k != e.last().0 {
                assert(entries_map(d).contains_key(k));
                let j = choose|j: int| 0 <= j < d.len() && d[j].0 == k;
                assert(e[j].0 == k);
            }
            if entries_map(e).contains_key(k) && k == e.last().0 {
                assert(e[e.len() - 1].0 == k);
            }
            if exists|j: int| 0 <= j < e.len() && e[j].0 == k {
                let j = choose|j: int| 0 <= j < e.len() && e[j].0 == k;
                if j < d.len() {
                    assert(d[j].0 == k);
                }
            }
        }
        assert forall|j: int| 0 <= j < e.len() implies #[trigger] entries_map(e)[e[j].0] == e[j].1 by {
            if j < d.len() {
                assert(e[j].0 < e.last().0);
                assert(d[j] == e[j]);
            }
        }
    }
}

/// The unknown keys a reader collects from an ordered listing of a map are that map.
pub(crate) proof fn lemma_entries_map_view(x: Seq<(u16, Seq<u8>)>, m: Map<u16, Vec<u8>>)
    requires
        m.dom().finite(),
        extra_in_order(x, m),
    ensures
        entries_map(x) == extra_view(m),
{
    lemma_entries_map(x);
    lemma_extra_covers(x, m);
    assert forall|k: u16| entries_map(x).contains_key(k) <==> extra_view(m).contains_key(k) by {
        if entries_map(x).contains_key(k) {
            let j = choose|j: int| 0 <= j < x.len() && x[j].0 == k;
            assert(m.contains_key(x[j].0));
        }
        if m.contains_key(k) {
            let j = choose|j: int| 0 <= j < x.len() && #[trigger] x[j].0 == k;
            assert(entries_map(x).contains_key(x[j].0));
        }
    }
    assert forall|k: u16| #[trigger] entries_map(x).contains_key(k) implies entries_map(x)[k] == extra_view(m)[k] by {
        let j = choose|j: int| 0 <= j < x.len() && x[j].0 == k;
        assert(entries_map(x)[x[j].0] == x[j].1);
        assert(m.contains_key(x[j].0));
    }
    assert(entries_map(x) =~= extra_view(m));
}

pub(crate) proof fn lemma_entry_items_len(e: Seq<(u16, Seq<u8>)>)
    ensures
        entry_items(e).len() >= e.len(),
    decreases e.len(),
{
    if e.len() > 0 {
        lemma_entry_items_len(e.drop_last());
    }
}

/// The known fields of a core are the entries for its keys, in key order.
proof fn lemma_fields_are_segs(c: UnitCore)
    ensures
        unit_core_fields(c) == segs_upto(c, 9),
{
    reveal_with_fuel(segs_upto, 10);
    assert(unit_core_fields(c) =~= segs_upto(c, 9));
}

/// What a read gives back of a write: handed the canonical bytes of a unit core, the reader
/// reads back that same core and stops where its bytes end. The core's text is in NFC, its
/// schema one the reader accepts, a capture date a valid date of at most four year digits,
/// and each unknown key's value is one complete item.
pub proof fn lemma_unit_core_round_trip(c: UnitCore, s: Seq<u8>, p: int)
    requires
        writable(c),
        extra_above(c.extra@, keys::unit::HIGHEST),
        forall|k: u16| c.extra@.contains_key(k) ==> one_item(#[trigger] c.extra@[k]@),
        stands_at(s, p, unit_core_encoding(c)),
        s.len() <= usize::MAX,
    ensures
        unit_at(s, p) == (Ok::<_, CodecError>(unit_view(c)), p + unit_core_encoding(c).len()),
{
    let m = c.extra@;
    vstd::std_specs::btree::axiom_btree_map_view_finite_dom(c.extra);
    lemma_extra_list_exists(m);
    let x = extra_entries(m);
    assert(extra_in_order(x, m));
    let f = unit_core_fields(c);
    lemma_fields_are_segs(c);
    lemma_unit_fields_ascend(c);
    let e = f + x;
    assert forall|i: int, j: int| 0 <= i < j < e.len() implies #[trigger] e[i].0 < #[trigger] e[j].0 by {
        if j < f.len() {
        } else if i < f.len() {
            assert(m.contains_key(x[j - f.len()].0));
            assert(f[i].0 <= keys::unit::HIGHEST);
        } else {
            assert(x[i - f.len()].0 < x[j - f.len()].0);
        }
    }
    lemma_map_bytes_sorted(e);
    lemma_entry_items_concat(f, x);
    let h = head_bytes(major::MAP, e.len() as u64);
    assert(unit_core_encoding(c) == h + (entry_items(f) + entry_items(x)));
    lemma_split(s, p, h, entry_items(f) + entry_items(x));
    let q0 = p + h.len();
    lemma_split(s, q0, entry_items(f), entry_items(x));
    lemma_entry_items_len(e);
    lemma_entry_items_concat(f, x);
    assert(e.len() <= usize::MAX);
    lemma_expect_read(major::MAP, e.len() as u64, s, p);
    let n = e.len() as nat;
    lemma_unit_prefix(c, s, p, q0, n, 9);
    assert(fields_below(c, 0) == no_unit_fields());
    let q1 = q0 + entry_items(f).len();
    let base = fields_below(c, 9);
    assert forall|i: int| 0 <= i < x.len() implies (#[trigger] x[i]).0 > keys::unit::HIGHEST && one_item(x[i].1) by {
        assert(m.contains_key(x[i].0));
        assert(m[x[i].0]@ == x[i].1);
    }
    assert(x.skip(0) =~= x);
    assert(x.take(0) =~= Seq::<(u16, Seq<u8>)>::empty());
    assert(entries_map(Seq::<(u16, Seq<u8>)>::empty()) =~= Map::<u16, Seq<u8>>::empty());
    assert(UnitFields { extra: entries_map(x.take(0)), ..base } == base);
    lemma_extra_walk(s, p, q1, x, 0, base, last_key(f));
    lemma_entries_map_view(x, m);
    let fin = UnitFields { extra: entries_map(x), ..base };
    assert(unit_from_fields(fin) == Some(unit_view(c)));
}

/// Items listed from the front.
pub(crate) proof fn lemma_concat_front(a: Seq<u8>, r: Seq<Seq<u8>>)
    ensures
        concat_items(seq![a] + r) == a + concat_items(r),
    decreases r.len(),
{
    if r.len() == 0 {
        assert(seq![a] + r =~= seq![a]);
        assert(seq![a].drop_last() =~= Seq::<Seq<u8>>::empty());
        assert(concat_items(Seq::<Seq<u8>>::empty()) =~= Seq::<u8>::empty());
        assert(concat_items(r) =~= Seq::<u8>::empty());
        assert(a + concat_items(r) =~= a);
    } else {
        lemma_concat_front(a, r.drop_last());
        assert((seq![a] + r).drop_last() =~= seq![a] + r.drop_last());
        assert((seq![a] + r).last() == r.last());
        assert(a + concat_items(r) =~= a + concat_items(r.drop_last()) + r.last());
    }
}

} // verus!
