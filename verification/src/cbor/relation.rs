//! A relation on the wire: its kind, its two ends, and an optional weight and note.

use vstd::prelude::*;

use crate::cbor::decode::{bad, extra_view, lemma_u16_keys_total, malformed, null_check};
use crate::cbor::envelope::{extra_above, extra_entries, opt_entry};
use crate::cbor::keys;
use crate::cbor::major;
use crate::cbor::packinfo::{bits_quantised, dec_f32_bits, enc_f32_bits, f32_item, f32q_at};
use crate::cbor::packinfo_round_trip::lemma_f32_read;
use crate::cbor::round_trip::{
    entries_map, last_key, lemma_bytes_read, lemma_entries_map_view, lemma_entry_items_concat, lemma_entry_items_len,
    lemma_expect_read, lemma_extra_list_exists, lemma_head_not_null, lemma_key_read, lemma_map_bytes_sorted,
    lemma_split, lemma_text_read, one_item, stands_at,
};
use crate::cbor::envelope::bytes_item;
use crate::cbor::writer::{entry_items, extra_in_order, keys_ascending};
use crate::cbor::read_payloads::rel_kind_of;
use crate::nfc::nfc_of;
use crate::types::relation::rel_extension;
use vstd::utf8::encode_utf8;
use crate::cbor::payloads::{close_map, lemma_fields_ascend, rel_kind_bytes, rel_kind_item};
use crate::cbor::read_payloads::{dec_rel_kind, rel_kind_at, rel_kind_read};
use crate::cbor::reader::{expect_at, map_key_at, skip_at, uid_at, Dec};
use crate::cbor::writer::{head_bytes, map_bytes, uid_item, Enc, MapBuilder};
use crate::error::CodecError;
use crate::ids::Uid;
use crate::types::relation::{RelKind, Relation};
use crate::types::Extra;

verus! {

/// A relation as the reader sees it: its kind by name.
pub struct RelationView {
    pub kind: Seq<char>,
    pub from: Seq<u8>,
    pub to: Seq<u8>,
    pub weight: Option<u32>,
    pub note: Option<Seq<u8>>,
    pub extra: Map<u16, Seq<u8>>,
}

/// The fields of a relation read so far.
pub struct RelationFields {
    pub kind: Option<Seq<char>>,
    pub from: Option<Seq<u8>>,
    pub to: Option<Seq<u8>>,
    pub weight: Option<u32>,
    pub note: Option<Seq<u8>>,
    pub extra: Map<u16, Seq<u8>>,
}

pub open spec fn no_relation_fields() -> RelationFields {
    RelationFields { kind: None, from: None, to: None, weight: None, note: None, extra: Map::empty() }
}

pub open spec fn opt_uid_view(o: Option<Uid>) -> Option<Seq<u8>> {
    match o {
        Some(u) => Some(u.bytes()),
        None => None,
    }
}

/// A relation read back as `v`: its kind read as `v`'s name, its ends, weight, note and
/// unknown keys those of `v`, and no attestations, which are not part of the payload.
pub open spec fn relation_read(r: Relation, v: RelationView) -> bool {
    &&& rel_kind_read(r.kind, v.kind)
    &&& r.from.bytes() == v.from
    &&& r.to.bytes() == v.to
    &&& r.weight == v.weight
    &&& opt_uid_view(r.note) == v.note
    &&& r.attestations@.len() == 0
    &&& extra_view(r.extra@) == v.extra
}

/// Reading the value under key `k` of a relation map that began at `at`.
#[verifier::opaque]
pub open spec fn relation_value(s: Seq<u8>, at: int, p: int, k: u16, st: RelationFields) -> (Result<RelationFields, CodecError>, int) {
    if k == keys::relation::KIND {
        let (r, q) = rel_kind_at(s, p);
        match r {
            Err(e) => (Err(e), q),
            Ok(t) => (Ok(RelationFields { kind: Some(t), ..st }), q),
        }
    } else if k == keys::relation::FROM || k == keys::relation::TO || k == keys::relation::NOTE {
        let (r, q) = uid_at(s, p);
        match r {
            Err(e) => (Err(e), q),
            Ok(u) => if k == keys::relation::FROM {
                (Ok(RelationFields { from: Some(u), ..st }), q)
            } else if k == keys::relation::TO {
                (Ok(RelationFields { to: Some(u), ..st }), q)
            } else {
                (Ok(RelationFields { note: Some(u), ..st }), q)
            },
        }
    } else if k == keys::relation::WEIGHT {
        let (r, q) = f32q_at(s, p);
        match r {
            Err(e) => (Err(e), q),
            Ok(w) => (Ok(RelationFields { weight: Some(w), ..st }), q),
        }
    } else {
        let (r, q) = skip_at(s, p, 0);
        match r {
            Err(e) => (Err(e), q),
            Ok(_) => (Ok(RelationFields { extra: st.extra.insert(k, s.subrange(p, q)), ..st }), q),
        }
    }
}

/// Reading the `n` remaining entries of a relation map from `p`, after key `prev`.
#[verifier::opaque]
pub open spec fn relation_walk(s: Seq<u8>, at: int, p: int, n: nat, prev: Option<u16>, st: RelationFields) -> (Result<RelationFields, CodecError>, int)
    decreases n,
{
    if n == 0 {
        (Ok(st), p)
    } else {
        let (rk, p1) = map_key_at(s, p, prev);
        match rk {
            Err(e) => (Err(e), p1),
            Ok(k) => match null_check(s, p1) {
                Some(e) => (Err(e), p1),
                None => {
                    let (r, p2) = relation_value(s, at, p1, k, st);
                    match r {
                        Err(e) => (Err(e), p2),
                        Ok(st2) => relation_walk(s, at, p2, (n - 1) as nat, Some(k), st2),
                    }
                },
            },
        }
    }
}

/// Reading a relation at `p`: its kind and both ends must be present.
pub open spec fn relation_at(s: Seq<u8>, p: int) -> (Result<RelationView, CodecError>, int) {
    let (r, q) = expect_at(s, p, major::MAP);
    match r {
        Err(e) => (Err(e), q),
        Ok(n) => {
            let (w, q2) = relation_walk(s, p, q, (n as usize) as nat, None, no_relation_fields());
            match w {
                Err(e) => (Err(e), q2),
                Ok(f) => match (f.kind, f.from, f.to) {
                    (Some(k), Some(a), Some(b)) => (
                        Ok(RelationView { kind: k, from: a, to: b, weight: f.weight, note: f.note, extra: f.extra }),
                        q2,
                    ),
                    _ => (Err(bad(p)), q2),
                },
            }
        },
    }
}

pub open spec fn opt_kind_text(k: Option<RelKind>) -> Option<Seq<char>> {
    match k {
        Some(x) => Some(x.text()),
        None => None,
    }
}

/// Reads a relation: each known key to its field, each unknown key kept verbatim. A missing
/// kind or end is a malformed payload.
pub fn dec_relation(d: &mut Dec) -> (r: Result<Relation, CodecError>)
    ensures
        final(d).input() == old(d).input(),
        match relation_at(old(d).input(), old(d).offset()).0 {
            Ok(v) => r matches Ok(x) && relation_read(x, v) && final(d).offset() == relation_at(
                old(d).input(),
                old(d).offset(),
            ).1,
            Err(e) => r == Err::<Relation, CodecError>(e),
        },
{
    reveal(relation_walk);
    let ghost s = d.input();
    let at = d.position();
    let n = match d.map_head() {
        Ok(n) => n,
        Err(e) => return Err(e),
    };
    let ghost q0 = d.offset();
    let mut kind: Option<RelKind> = None;
    let mut from: Option<Uid> = None;
    let mut to: Option<Uid> = None;
    let mut weight: Option<u32> = None;
    let mut note: Option<Uid> = None;
    let mut extra: Extra = Extra::new();
    let mut prev: Option<u16> = None;
    let mut i: usize = 0;
    assert(extra_view(extra@) =~= Map::<u16, Seq<u8>>::empty());
    while i < n
        invariant
            i <= n,
            d.input() == s,
            s == old(d).input(),
            at == old(d).offset(),
            expect_at(s, at as int, major::MAP).0 matches Ok(n0) && (n0 as usize) == n,
            expect_at(s, at as int, major::MAP).1 == q0,
            kind matches Some(x) ==> rel_kind_read(x, x.text()),
            relation_walk(s, at as int, q0, n as nat, None, no_relation_fields()) == relation_walk(
                s,
                at as int,
                d.offset(),
                (n - i) as nat,
                prev,
                RelationFields {
                    kind: opt_kind_text(kind),
                    from: opt_uid_view(from),
                    to: opt_uid_view(to),
                    weight,
                    note: opt_uid_view(note),
                    extra: extra_view(extra@),
                },
            ),
        decreases n - i,
    {
        proof {
            reveal(relation_walk);
            reveal(relation_value);
        }
        let k = match d.map_key(prev) {
            Ok(k) => k,
            Err(e) => return Err(e),
        };
        match d.reject_null() {
            Ok(()) => {},
            Err(e) => return Err(e),
        }
        let ghost p1 = d.offset();
        if k == keys::relation::KIND {
            kind = match dec_rel_kind(d) {
                Ok(x) => Some(x),
                Err(e) => return Err(e),
            };
        } else if k == keys::relation::FROM || k == keys::relation::TO || k == keys::relation::NOTE {
            let u = match d.uid() {
                Ok(u) => u,
                Err(e) => return Err(e),
            };
            if k == keys::relation::FROM {
                from = Some(u);
            } else if k == keys::relation::TO {
                to = Some(u);
            } else {
                note = Some(u);
            }
        } else if k == keys::relation::WEIGHT {
            weight = match dec_f32_bits(d) {
                Ok(w) => Some(w),
                Err(e) => return Err(e),
            };
        } else {
            let raw = match d.skip_item() {
                Ok(raw) => raw,
                Err(e) => return Err(e),
            };
            let ghost before = extra@;
            proof {
                lemma_u16_keys_total();
            }
            extra.insert(k, vstd::slice::slice_to_vec(raw));
            proof {
                assert(extra_view(extra@) =~= extra_view(before).insert(k, s.subrange(p1, d.offset())));
            }
        }
        prev = Some(k);
        i = i + 1;
    }
    match (kind, from, to) {
        (Some(k), Some(a), Some(b)) => Ok(
            Relation { kind: k, from: a, to: b, weight, note, attestations: Vec::new(), extra },
        ),
        _ => Err(malformed(at)),
    }
}

/// The known fields of a relation as map entries, ascending by key.
pub open spec fn relation_fields(r: Relation) -> Seq<(u16, Seq<u8>)> {
    seq![
        (keys::relation::KIND, rel_kind_item(r.kind)),
        (keys::relation::FROM, uid_item(r.from)),
        (keys::relation::TO, uid_item(r.to)),
    ] + opt_entry(
        keys::relation::WEIGHT,
        match r.weight {
            Some(w) => Some(f32_item(w)),
            None => None,
        },
    ) + opt_entry(
        keys::relation::NOTE,
        match r.note {
            Some(u) => Some(uid_item(u)),
            None => None,
        },
    )
}

/// The canonical bytes of a relation's payload.
pub open spec fn relation_encoding(r: Relation) -> Seq<u8> {
    map_bytes(relation_fields(r) + extra_entries(r.extra@))
}

/// The canonical bytes of a relation's payload. Unknown keys carried from a later minor
/// version lie above the known ones.
pub fn relation_bytes(r: &Relation) -> (b: Vec<u8>)
    requires
        extra_above(r.extra@, keys::relation::HIGHEST),
    ensures
        b@ == relation_encoding(*r),
{
    let mut m = MapBuilder::new();
    m.put(keys::relation::KIND, rel_kind_bytes(&r.kind));
    let mut e = Enc::new();
    e.uid(&r.from);
    m.put(keys::relation::FROM, e.into_bytes());
    let mut e = Enc::new();
    e.uid(&r.to);
    m.put(keys::relation::TO, e.into_bytes());
    match r.weight {
        Some(w) => {
            let mut e = Enc::new();
            enc_f32_bits(&mut e, w);
            m.put(keys::relation::WEIGHT, e.into_bytes());
        },
        None => {},
    }
    match &r.note {
        Some(u) => {
            let mut e = Enc::new();
            e.uid(u);
            m.put(keys::relation::NOTE, e.into_bytes());
        },
        None => {},
    }
    assert(m@ =~= relation_fields(*r));
    proof {
        lemma_fields_ascend(m@, keys::relation::HIGHEST);
    }
    close_map(m, &r.extra, keys::relation::HIGHEST)
}

/// Each wire code names at most one kernel relation kind.
proof fn lemma_rel_code(k: RelKind)
    requires
        k.code_view() is Some,
    ensures
        rel_kind_of(k.code_view()->Some_0) == Some(k),
{
    let c = k.code_view()->Some_0;
    let j = choose|j: RelKind| j.code_view() == Some(c);
    assert(j == k) by {
        match (j, k) {
            (RelKind::Elaborates, RelKind::Elaborates) => {},
            (RelKind::Contrasts, RelKind::Contrasts) => {},
            (RelKind::Concedes, RelKind::Concedes) => {},
            (RelKind::Causes, RelKind::Causes) => {},
            (RelKind::Enables, RelKind::Enables) => {},
            (RelKind::Exemplifies, RelKind::Exemplifies) => {},
            (RelKind::Conditions, RelKind::Conditions) => {},
            (RelKind::Sequences, RelKind::Sequences) => {},
            (RelKind::Answers, RelKind::Answers) => {},
            (RelKind::Rebuts, RelKind::Rebuts) => {},
            (RelKind::Warrant, RelKind::Warrant) => {},
            (RelKind::Backs, RelKind::Backs) => {},
            (RelKind::Supersedes, RelKind::Supersedes) => {},
            (RelKind::Retracts, RelKind::Retracts) => {},
            _ => {},
        }
    }
}

/// A relation kind the reader reads back: a kernel kind, or an extension kind whose name has
/// the extension form and is in NFC.
pub open spec fn rel_kind_writable(k: RelKind) -> bool {
    k.code_view() is None ==> rel_extension(k.text()) && nfc_of(k.text()) == k.text()
}

/// A relation kind reads back as its name.
pub(crate) proof fn lemma_rel_kind_read(k: RelKind, s: Seq<u8>, p: int)
    requires
        rel_kind_writable(k),
        stands_at(s, p, rel_kind_item(k)),
        s.len() <= usize::MAX,
    ensures
        rel_kind_at(s, p) == (Ok::<Seq<char>, CodecError>(k.text()), p + rel_kind_item(k).len()),
        rel_kind_read(k, k.text()),
        null_check(s, p) is None,
{
    RelKind::lemma_kernel_text();
    match k.code_view() {
        Some(c) => {
            assert(c < 14) by {
                match k {
                    RelKind::Extension(_) => {},
                    _ => {},
                }
            }
            let h = head_bytes(major::UINT, c as u64);
            assert(s[p] == h[0]);
            lemma_expect_read(major::UINT, c as u64, s, p);
            lemma_head_not_null(major::UINT, c as u64, s, p);
            lemma_rel_code(k);
        },
        None => {
            let t = k.text();
            let h = head_bytes(major::TEXT, encode_utf8(t).len() as u64);
            lemma_split(s, p, h, encode_utf8(t));
            assert(s[p] == h[0]);
            lemma_text_read(t, s, p);
        },
    }
}

/// The entry the writer makes for known key `k` of a relation: none, or one.
pub open spec fn rel_seg(r: Relation, k: int) -> Seq<(u16, Seq<u8>)> {
    if k == 0 {
        seq![(keys::relation::KIND, rel_kind_item(r.kind))]
    } else if k == 1 {
        seq![(keys::relation::FROM, uid_item(r.from))]
    } else if k == 2 {
        seq![(keys::relation::TO, uid_item(r.to))]
    } else if k == 3 {
        opt_entry(
            keys::relation::WEIGHT,
            match r.weight {
                Some(w) => Some(f32_item(w)),
                None => None,
            },
        )
    } else {
        opt_entry(
            keys::relation::NOTE,
            match r.note {
                Some(u) => Some(uid_item(u)),
                None => None,
            },
        )
    }
}

/// The entries for known keys below `k`.
pub open spec fn rel_segs(r: Relation, k: nat) -> Seq<(u16, Seq<u8>)>
    decreases k,
{
    if k == 0 {
        Seq::empty()
    } else {
        rel_segs(r, (k - 1) as nat) + rel_seg(r, k - 1)
    }
}

/// The fields of `r` whose keys lie below `b`, as the reader holds them once it has read that
/// far.
pub open spec fn rel_below(r: Relation, b: int) -> RelationFields {
    RelationFields {
        kind: if b > 0 { Some(r.kind.text()) } else { None },
        from: if b > 1 { Some(r.from.bytes()) } else { None },
        to: if b > 2 { Some(r.to.bytes()) } else { None },
        weight: if b > 3 { r.weight } else { None },
        note: if b > 4 { opt_uid_view(r.note) } else { None },
        extra: Map::empty(),
    }
}

/// What the relation writer promises the reader: a kind it reads back, and a quantised weight.
pub open spec fn relation_writable(r: Relation) -> bool {
    &&& rel_kind_writable(r.kind)
    &&& (r.weight matches Some(w) ==> bits_quantised(w))
}

/// A relation by its plain values, its kind by name.
pub open spec fn relation_view(r: Relation) -> RelationView {
    RelationView {
        kind: r.kind.text(),
        from: r.from.bytes(),
        to: r.to.bytes(),
        weight: r.weight,
        note: opt_uid_view(r.note),
        extra: extra_view(r.extra@),
    }
}

/// Reading one entry of a relation map.
proof fn lemma_rel_walk_one(
    s: Seq<u8>,
    at: int,
    p: int,
    n: nat,
    prev: Option<u16>,
    st: RelationFields,
    k: u16,
    v: Seq<u8>,
    st2: RelationFields,
)
    requires
        n > 0,
        stands_at(s, p, head_bytes(major::UINT, k as u64) + v),
        prev matches Some(pk) ==> pk < k,
        null_check(s, p + head_bytes(major::UINT, k as u64).len()) is None,
        relation_value(s, at, p + head_bytes(major::UINT, k as u64).len(), k, st) == (
            Ok::<RelationFields, CodecError>(st2),
            p + head_bytes(major::UINT, k as u64).len() + v.len(),
        ),
    ensures
        relation_walk(s, at, p, n, prev, st) == relation_walk(
            s,
            at,
            p + head_bytes(major::UINT, k as u64).len() + v.len(),
            (n - 1) as nat,
            Some(k),
            st2,
        ),
{
    reveal(relation_walk);
    lemma_split(s, p, head_bytes(major::UINT, k as u64), v);
    lemma_key_read(k, prev, s, p);
}

/// Reading the entry for known key `k`, if the relation has one, takes the reader from the
/// fields below `k` to the fields below `k + 1`.
#[verifier::rlimit(60)]
proof fn lemma_rel_seg(r: Relation, s: Seq<u8>, at: int, p: int, n: nat, prev: Option<u16>, k: int)
    requires
        0 <= k <= 4,
        relation_writable(r),
        n >= rel_seg(r, k).len(),
        stands_at(s, p, entry_items(rel_seg(r, k))),
        s.len() <= usize::MAX,
        prev matches Some(x) ==> x < k,
    ensures
        relation_walk(s, at, p, n, prev, rel_below(r, k)) == relation_walk(
            s,
            at,
            p + entry_items(rel_seg(r, k)).len(),
            (n - rel_seg(r, k).len()) as nat,
            if rel_seg(r, k).len() == 0 { prev } else { Some(k as u16) },
            rel_below(r, k + 1),
        ),
{
    let e = rel_seg(r, k);
    if e.len() == 0 {
        assert(entry_items(e) =~= Seq::<u8>::empty());
        assert(rel_below(r, k) == rel_below(r, k + 1));
    } else {
        let kk = k as u16;
        let x = e[0].1;
        assert(e.drop_last() =~= Seq::<(u16, Seq<u8>)>::empty());
        assert(entry_items(Seq::<(u16, Seq<u8>)>::empty()) =~= Seq::<u8>::empty());
        assert(entry_items(e) =~= head_bytes(major::UINT, kk as u64) + x);
        let hk = head_bytes(major::UINT, kk as u64);
        lemma_split(s, p, hk, x);
        let p1 = p + hk.len();
        if k == 0 {
            lemma_rel_kind_read(r.kind, s, p1);
        } else if k == 1 || k == 2 || k == 4 {
            let u = if k == 1 {
                r.from
            } else if k == 2 {
                r.to
            } else {
                r.note->Some_0
            };
            crate::ids::lemma_uid_bytes_len(u);
            lemma_bytes_read(u.bytes(), s, p1);
            assert(bytes_item(u.bytes()) == uid_item(u));
        } else {
            lemma_f32_read(r.weight->Some_0, s, p1);
        }
        reveal(relation_value);
        assert(relation_value(s, at, p1, kk, rel_below(r, k)) == (
            Ok::<RelationFields, CodecError>(rel_below(r, k + 1)),
            p1 + x.len(),
        ));
        lemma_rel_walk_one(s, at, p, n, prev, rel_below(r, k), kk, x, rel_below(r, k + 1));
    }
}

/// Reading the entries for the known keys below `k` takes the reader from no fields to the
/// fields below `k`.
proof fn lemma_rel_prefix(r: Relation, s: Seq<u8>, at: int, q0: int, n: nat, k: nat)
    requires
        k <= 5,
        relation_writable(r),
        n >= rel_segs(r, k).len(),
        stands_at(s, q0, entry_items(rel_segs(r, k))),
        s.len() <= usize::MAX,
    ensures
        relation_walk(s, at, q0, n, None, rel_below(r, 0)) == relation_walk(
            s,
            at,
            q0 + entry_items(rel_segs(r, k)).len(),
            (n - rel_segs(r, k).len()) as nat,
            last_key(rel_segs(r, k)),
            rel_below(r, k as int),
        ),
        last_key(rel_segs(r, k)) matches Some(x) ==> x < k,
    decreases k,
{
    if k > 0 {
        let j = (k - 1) as nat;
        let x = rel_segs(r, j);
        let y = rel_seg(r, j as int);
        assert(rel_segs(r, k) == x + y);
        lemma_entry_items_concat(x, y);
        lemma_split(s, q0, entry_items(x), entry_items(y));
        lemma_rel_prefix(r, s, at, q0, n, j);
        lemma_rel_seg(r, s, at, q0 + entry_items(x).len(), (n - x.len()) as nat, last_key(x), j as int);
        if y.len() == 0 {
            assert(x + y =~= x);
        } else {
            assert((x + y).last() == y.last());
        }
    } else {
        assert(entry_items(rel_segs(r, 0)) =~= Seq::<u8>::empty());
    }
}

/// Reading the unknown keys of a relation keeps each value verbatim.
#[verifier::rlimit(60)]
proof fn lemma_rel_extra_walk(
    s: Seq<u8>,
    at: int,
    p: int,
    x: Seq<(u16, Seq<u8>)>,
    j: int,
    base: RelationFields,
    prev: Option<u16>,
)
    requires
        0 <= j <= x.len(),
        keys_ascending(x),
        forall|i: int| 0 <= i < x.len() ==> (#[trigger] x[i]).0 > keys::relation::HIGHEST && one_item(x[i].1),
        stands_at(s, p, entry_items(x.skip(j))),
        j > 0 ==> prev == Some(x[j - 1].0),
        j == 0 ==> (prev matches Some(pk) ==> pk <= keys::relation::HIGHEST),
    ensures
        relation_walk(s, at, p, (x.len() - j) as nat, prev, RelationFields { extra: entries_map(x.take(j)), ..base }) == (
            Ok::<RelationFields, CodecError>(RelationFields { extra: entries_map(x), ..base }),
            p + entry_items(x.skip(j)).len(),
        ),
    decreases x.len() - j,
{
    if j == x.len() {
        reveal(relation_walk);
        assert(x.take(j) =~= x);
        assert(entry_items(x.skip(j)) =~= Seq::<u8>::empty()) by {
            assert(x.skip(j) =~= Seq::<(u16, Seq<u8>)>::empty());
        }
    } else {
        let (k, v) = x[j];
        assert(x.skip(j) =~= seq![x[j]] + x.skip(j + 1));
        lemma_entry_items_concat(seq![x[j]], x.skip(j + 1));
        assert(seq![x[j]].drop_last() =~= Seq::<(u16, Seq<u8>)>::empty());
        assert(entry_items(Seq::<(u16, Seq<u8>)>::empty()) =~= Seq::<u8>::empty());
        assert(entry_items(seq![x[j]]) =~= head_bytes(major::UINT, k as u64) + v);
        lemma_split(s, p, entry_items(seq![x[j]]), entry_items(x.skip(j + 1)));
        let hk = head_bytes(major::UINT, k as u64);
        lemma_split(s, p, hk, v);
        let p1 = p + hk.len();
        let pre = s.take(p1);
        let w = s.skip(p1 + v.len());
        assert(s =~= pre + v + w);
        assert(skip_at(pre + v + w, pre.len() as int, 0) == (Ok::<(), CodecError>(()), (pre.len() + v.len()) as int));
        assert(s.subrange(p1, p1 + v.len()) == v);
        let st = RelationFields { extra: entries_map(x.take(j)), ..base };
        let st2 = RelationFields { extra: entries_map(x.take(j + 1)), ..base };
        assert(x.take(j + 1).drop_last() =~= x.take(j));
        assert(entries_map(x.take(j + 1)) == entries_map(x.take(j)).insert(k, v));
        assert(relation_value(s, at, p1, k, st) == (Ok::<RelationFields, CodecError>(st2), p1 + v.len())) by {
            reveal(relation_value);
        }
        if j > 0 {
            assert(x[j - 1].0 < x[j].0);
        }
        lemma_rel_walk_one(s, at, p, (x.len() - j) as nat, prev, st, k, v, st2);
        lemma_rel_extra_walk(s, at, p1 + v.len(), x, j + 1, base, Some(k));
    }
}

/// The known fields of a relation are the entries for its keys, in key order, ascending and
/// within its key table.
proof fn lemma_rel_fields_are_segs(r: Relation)
    ensures
        relation_fields(r) == rel_segs(r, 5),
        keys_ascending(relation_fields(r)),
        forall|i: int| 0 <= i < relation_fields(r).len() ==> #[trigger] relation_fields(r)[i].0 <= keys::relation::HIGHEST,
{
    reveal_with_fuel(rel_segs, 6);
    assert(relation_fields(r) =~= rel_segs(r, 5));
    let f = relation_fields(r);
    assert forall|i: int| 0 <= i < f.len() implies #[trigger] f[i].0 <= keys::relation::HIGHEST && (i + 1 < f.len()
        ==> f[i].0 < f[i + 1].0) by {
    }
    assert forall|i: int, j: int| 0 <= i < j < f.len() implies #[trigger] f[i].0 < #[trigger] f[j].0 by {
        crate::cbor::envelope::lemma_ascending_steps(f, i, j);
    }
}

/// What a read gives back of a write, for relations: handed the canonical bytes of a
/// relation, the reader reads back its kind by name, its ends, weight, note and unknown keys,
/// and stops where the bytes end. Its kind is one the reader knows or an extension in NFC, its
/// weight quantised, and each unknown key's value one complete item above the known keys.
pub proof fn lemma_relation_round_trip(r: Relation, s: Seq<u8>, p: int)
    requires
        relation_writable(r),
        extra_above(r.extra@, keys::relation::HIGHEST),
        forall|k: u16| r.extra@.contains_key(k) ==> one_item(#[trigger] r.extra@[k]@),
        stands_at(s, p, relation_encoding(r)),
        s.len() <= usize::MAX,
    ensures
        relation_at(s, p) == (Ok::<_, CodecError>(relation_view(r)), p + relation_encoding(r).len()),
        rel_kind_read(r.kind, r.kind.text()),
{
    RelKind::lemma_kernel_text();
    let m = r.extra@;
    vstd::std_specs::btree::axiom_btree_map_view_finite_dom(r.extra);
    lemma_extra_list_exists(m);
    let x = extra_entries(m);
    assert(extra_in_order(x, m));
    let f = relation_fields(r);
    lemma_rel_fields_are_segs(r);
    let e = f + x;
    assert forall|i: int, j: int| 0 <= i < j < e.len() implies #[trigger] e[i].0 < #[trigger] e[j].0 by {
        if j < f.len() {
        } else if i < f.len() {
            assert(m.contains_key(x[j - f.len()].0));
            assert(f[i].0 <= keys::relation::HIGHEST);
        } else {
            assert(x[i - f.len()].0 < x[j - f.len()].0);
        }
    }
    lemma_map_bytes_sorted(e);
    lemma_entry_items_concat(f, x);
    let h = head_bytes(major::MAP, e.len() as u64);
    assert(relation_encoding(r) == h + (entry_items(f) + entry_items(x)));
    lemma_split(s, p, h, entry_items(f) + entry_items(x));
    let q0 = p + h.len();
    lemma_split(s, q0, entry_items(f), entry_items(x));
    lemma_entry_items_len(e);
    assert(e.len() <= usize::MAX);
    lemma_expect_read(major::MAP, e.len() as u64, s, p);
    let n = e.len() as nat;
    lemma_rel_prefix(r, s, p, q0, n, 5);
    assert(rel_below(r, 0) == no_relation_fields());
    let q1 = q0 + entry_items(f).len();
    let base = rel_below(r, 5);
    assert forall|i: int| 0 <= i < x.len() implies (#[trigger] x[i]).0 > keys::relation::HIGHEST && one_item(x[i].1) by {
        assert(m.contains_key(x[i].0));
        assert(m[x[i].0]@ == x[i].1);
    }
    assert(x.skip(0) =~= x);
    assert(x.take(0) =~= Seq::<(u16, Seq<u8>)>::empty());
    assert(entries_map(Seq::<(u16, Seq<u8>)>::empty()) =~= Map::<u16, Seq<u8>>::empty());
    assert(RelationFields { extra: entries_map(x.take(0)), ..base } == base);
    lemma_rel_extra_walk(s, p, q1, x, 0, base, last_key(f));
    lemma_entries_map_view(x, m);
}

} // verus!
