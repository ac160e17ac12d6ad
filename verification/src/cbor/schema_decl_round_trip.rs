//! What a read gives back of a write, for schema declarations: read from the bytes its writer
//! made, a declaration holds the same id, version, types, relation kinds and shape again.

use vstd::prelude::*;

use crate::cbor::decode::{extra_view, null_check};
use crate::cbor::envelope::{bytes_item, extra_above, extra_entries, lemma_ascending_steps, text_item};
use crate::cbor::keys;
use crate::cbor::major;
use crate::cbor::payloads::{
    array_entry, opt_shape_entry, rel_kind_item, rel_kind_items, schema_decl_encoding, schema_decl_fields, schema_items,
};
use crate::cbor::read_payloads::{
    no_schema_decl_fields, rel_list_walk, schema_decl_at, schema_decl_value, schema_decl_walk, schema_list_walk,
    SchemaDeclFields, SchemaDeclView,
};
use crate::cbor::reader::skip_at;
use crate::cbor::relation::{lemma_rel_kind_read, rel_kind_writable};
use crate::cbor::round_trip::{
    entries_map, last_key, lemma_bytes_read, lemma_concat_front, lemma_entries_map_view, lemma_entry_items_concat,
    lemma_entry_items_len, lemma_expect_read, lemma_extra_list_exists, lemma_head_not_null, lemma_key_read,
    lemma_map_bytes_sorted, lemma_split, lemma_text_read, one_item, stands_at,
};
use crate::cbor::writer::{concat_items, entry_items, extra_in_order, head_bytes, keys_ascending};
use crate::error::CodecError;
use crate::ids::{schema_shape, SchemaId};
use crate::nfc::nfc_of;
use crate::types::annex::SchemaDecl;
use crate::types::relation::RelKind;

verus! {

/// A schema declaration by its plain values, its relation kinds by name.
pub open spec fn schema_decl_view(d: SchemaDecl) -> SchemaDeclView {
    SchemaDeclView {
        id: d.id.text(),
        version: d.version,
        types: d.types@.map_values(|x: SchemaId| x.text()),
        relations: d.relations@.map_values(|k: RelKind| k.text()),
        payload_shape: match d.payload_shape {
            Some(b) => Some(b@),
            None => None,
        },
        extra: extra_view(d.extra@),
    }
}

/// What the writer of a schema declaration promises the reader: ids it can parse, in NFC,
/// and relation kinds it reads back.
pub open spec fn schema_decl_writable(d: SchemaDecl) -> bool {
    &&& schema_shape(d.id.text()) != 3
    &&& nfc_of(d.id.text()) == d.id.text()
    &&& forall|i: int| 0 <= i < d.types@.len() ==> schema_shape(#[trigger] d.types@[i].text()) != 3 && nfc_of(
        d.types@[i].text(),
    ) == d.types@[i].text()
    &&& forall|i: int| 0 <= i < d.relations@.len() ==> rel_kind_writable(#[trigger] d.relations@[i])
}

/// The types of a declaration from `j` on read back in order.
proof fn lemma_types_walk(ts: Seq<SchemaId>, j: int, s: Seq<u8>, at: int, p: int)
    requires
        0 <= j <= ts.len(),
        forall|i: int| 0 <= i < ts.len() ==> schema_shape(#[trigger] ts[i].text()) != 3 && nfc_of(ts[i].text()) == ts[i].text(),
        stands_at(s, p, concat_items(schema_items(ts).skip(j))),
        s.len() <= usize::MAX,
    ensures
        schema_list_walk(s, at, p, (ts.len() - j) as nat) == (
            Ok::<_, CodecError>(ts.skip(j).map_values(|x: SchemaId| x.text())),
            p + concat_items(schema_items(ts).skip(j)).len(),
        ),
    decreases ts.len() - j,
{
    let items = schema_items(ts);
    if j == ts.len() {
        assert(items.skip(j) =~= Seq::<Seq<u8>>::empty());
        assert(ts.skip(j).map_values(|x: SchemaId| x.text()) =~= Seq::<Seq<char>>::empty());
    } else {
        let x = items[j];
        assert(items.skip(j) =~= seq![x] + items.skip(j + 1));
        lemma_concat_front(x, items.skip(j + 1));
        lemma_split(s, p, x, concat_items(items.skip(j + 1)));
        lemma_text_read(ts[j].text(), s, p);
        lemma_types_walk(ts, j + 1, s, at, p + x.len());
        assert(ts.skip(j).map_values(|x: SchemaId| x.text()) =~= seq![ts[j].text()] + ts.skip(j + 1).map_values(
            |x: SchemaId| x.text(),
        ));
    }
}

/// The relation kinds of a declaration from `j` on read back in order.
proof fn lemma_kinds_walk(ks: Seq<RelKind>, j: int, s: Seq<u8>, p: int)
    requires
        0 <= j <= ks.len(),
        forall|i: int| 0 <= i < ks.len() ==> rel_kind_writable(#[trigger] ks[i]),
        stands_at(s, p, concat_items(rel_kind_items(ks).skip(j))),
        s.len() <= usize::MAX,
    ensures
        rel_list_walk(s, p, (ks.len() - j) as nat) == (
            Ok::<_, CodecError>(ks.skip(j).map_values(|k: RelKind| k.text())),
            p + concat_items(rel_kind_items(ks).skip(j)).len(),
        ),
    decreases ks.len() - j,
{
    let items = rel_kind_items(ks);
    if j == ks.len() {
        assert(items.skip(j) =~= Seq::<Seq<u8>>::empty());
        assert(ks.skip(j).map_values(|k: RelKind| k.text()) =~= Seq::<Seq<char>>::empty());
    } else {
        let x = items[j];
        assert(items.skip(j) =~= seq![x] + items.skip(j + 1));
        lemma_concat_front(x, items.skip(j + 1));
        lemma_split(s, p, x, concat_items(items.skip(j + 1)));
        lemma_rel_kind_read(ks[j], s, p);
        lemma_kinds_walk(ks, j + 1, s, p + x.len());
        assert(ks.skip(j).map_values(|k: RelKind| k.text()) =~= seq![ks[j].text()] + ks.skip(j + 1).map_values(
            |k: RelKind| k.text(),
        ));
    }
}

/// The entry the writer makes for known key `k` of a declaration: none, or one.
pub open spec fn decl_seg(d: SchemaDecl, k: int) -> Seq<(u16, Seq<u8>)> {
    if k == 0 {
        seq![(keys::schema_decl::ID, text_item(d.id.text()))]
    } else if k == 1 {
        seq![(keys::schema_decl::VERSION, head_bytes(major::UINT, d.version as u64))]
    } else if k == 2 {
        array_entry(keys::schema_decl::TYPES, schema_items(d.types@))
    } else if k == 3 {
        array_entry(keys::schema_decl::RELATIONS, rel_kind_items(d.relations@))
    } else {
        opt_shape_entry(d.payload_shape)
    }
}

/// The entries for known keys below `k`.
pub open spec fn decl_segs(d: SchemaDecl, k: nat) -> Seq<(u16, Seq<u8>)>
    decreases k,
{
    if k == 0 {
        Seq::empty()
    } else {
        decl_segs(d, (k - 1) as nat) + decl_seg(d, k - 1)
    }
}

/// The fields of `d` whose keys lie below `b`, as the reader holds them once it has read that
/// far.
pub open spec fn decl_below(d: SchemaDecl, b: int) -> SchemaDeclFields {
    let v = schema_decl_view(d);
    let z = no_schema_decl_fields();
    SchemaDeclFields {
        id: if b > 0 { Some(v.id) } else { z.id },
        version: if b > 1 { v.version } else { z.version },
        types: if b > 2 { v.types } else { z.types },
        relations: if b > 3 { v.relations } else { z.relations },
        payload_shape: if b > 4 { v.payload_shape } else { z.payload_shape },
        extra: Map::empty(),
    }
}

/// Reading one entry of a declaration's map.
proof fn lemma_decl_walk_one(
    s: Seq<u8>,
    at: int,
    p: int,
    n: nat,
    prev: Option<u16>,
    st: SchemaDeclFields,
    k: u16,
    v: Seq<u8>,
    st2: SchemaDeclFields,
)
    requires
        n > 0,
        stands_at(s, p, head_bytes(major::UINT, k as u64) + v),
        prev matches Some(pk) ==> pk < k,
        null_check(s, p + head_bytes(major::UINT, k as u64).len()) is None,
        schema_decl_value(s, at, p + head_bytes(major::UINT, k as u64).len(), k, st) == (
            Ok::<SchemaDeclFields, CodecError>(st2),
            p + head_bytes(major::UINT, k as u64).len() + v.len(),
        ),
    ensures
        schema_decl_walk(s, at, p, n, prev, st) == schema_decl_walk(
            s,
            at,
            p + head_bytes(major::UINT, k as u64).len() + v.len(),
            (n - 1) as nat,
            Some(k),
            st2,
        ),
{
    reveal(schema_decl_walk);
    lemma_split(s, p, head_bytes(major::UINT, k as u64), v);
    lemma_key_read(k, prev, s, p);
}

/// Reading the entry for known key `k`, if the declaration has one, takes the reader from the
/// fields below `k` to the fields below `k + 1`.
#[verifier::rlimit(60)]
proof fn lemma_decl_seg(d: SchemaDecl, s: Seq<u8>, at: int, p: int, n: nat, prev: Option<u16>, k: int)
    requires
        0 <= k <= 4,
        schema_decl_writable(d),
        n >= decl_seg(d, k).len(),
        stands_at(s, p, entry_items(decl_seg(d, k))),
        s.len() <= usize::MAX,
        prev matches Some(x) ==> x < k,
    ensures
        schema_decl_walk(s, at, p, n, prev, decl_below(d, k)) == schema_decl_walk(
            s,
            at,
            p + entry_items(decl_seg(d, k)).len(),
            (n - decl_seg(d, k).len()) as nat,
            if decl_seg(d, k).len() == 0 { prev } else { Some(k as u16) },
            decl_below(d, k + 1),
        ),
{
    let e = decl_seg(d, k);
    if e.len() == 0 {
        assert(entry_items(e) =~= Seq::<u8>::empty());
        if k == 2 {
            assert(d.types@.map_values(|x: SchemaId| x.text()) =~= Seq::<Seq<char>>::empty());
        }
        if k == 3 {
            assert(d.relations@.map_values(|x: RelKind| x.text()) =~= Seq::<Seq<char>>::empty());
        }
        assert(decl_below(d, k) == decl_below(d, k + 1));
    } else {
        let kk = k as u16;
        let x = e[0].1;
        assert(e.drop_last() =~= Seq::<(u16, Seq<u8>)>::empty());
        assert(entry_items(Seq::<(u16, Seq<u8>)>::empty()) =~= Seq::<u8>::empty());
        assert(entry_items(e) =~= head_bytes(major::UINT, kk as u64) + x);
        let hk = head_bytes(major::UINT, kk as u64);
        lemma_split(s, p, hk, x);
        let p1 = p + hk.len();
        if k == 0 {
            lemma_text_read(d.id.text(), s, p1);
        } else if k == 1 {
            lemma_expect_read(major::UINT, d.version as u64, s, p1);
            lemma_head_not_null(major::UINT, d.version as u64, s, p1);
        } else if k == 2 {
            let ts = d.types@;
            let h = head_bytes(major::ARRAY, ts.len() as u64);
            assert(ts.len() <= usize::MAX) by {
                assert(d.types.len() == ts.len());
            }
            lemma_split(s, p1, h, concat_items(schema_items(ts)));
            lemma_expect_read(major::ARRAY, ts.len() as u64, s, p1);
            lemma_head_not_null(major::ARRAY, ts.len() as u64, s, p1);
            assert(schema_items(ts).skip(0) =~= schema_items(ts));
            assert(ts.skip(0) =~= ts);
            lemma_types_walk(ts, 0, s, at, p1 + h.len());
        } else if k == 3 {
            let ks = d.relations@;
            let h = head_bytes(major::ARRAY, ks.len() as u64);
            assert(ks.len() <= usize::MAX) by {
                assert(d.relations.len() == ks.len());
            }
            lemma_split(s, p1, h, concat_items(rel_kind_items(ks)));
            lemma_expect_read(major::ARRAY, ks.len() as u64, s, p1);
            lemma_head_not_null(major::ARRAY, ks.len() as u64, s, p1);
            assert(rel_kind_items(ks).skip(0) =~= rel_kind_items(ks));
            assert(ks.skip(0) =~= ks);
            lemma_kinds_walk(ks, 0, s, p1 + h.len());
        } else {
            lemma_bytes_read(d.payload_shape->Some_0@, s, p1);
        }
        reveal(schema_decl_value);
        assert(schema_decl_value(s, at, p1, kk, decl_below(d, k)) == (
            Ok::<SchemaDeclFields, CodecError>(decl_below(d, k + 1)),
            p1 + x.len(),
        ));
        lemma_decl_walk_one(s, at, p, n, prev, decl_below(d, k), kk, x, decl_below(d, k + 1));
    }
}

/// Reading the entries for the known keys below `k` takes the reader from no fields to the
/// fields below `k`.
proof fn lemma_decl_prefix(d: SchemaDecl, s: Seq<u8>, at: int, q0: int, n: nat, k: nat)
    requires
        k <= 5,
        schema_decl_writable(d),
        n >= decl_segs(d, k).len(),
        stands_at(s, q0, entry_items(decl_segs(d, k))),
        s.len() <= usize::MAX,
    ensures
        schema_decl_walk(s, at, q0, n, None, decl_below(d, 0)) == schema_decl_walk(
            s,
            at,
            q0 + entry_items(decl_segs(d, k)).len(),
            (n - decl_segs(d, k).len()) as nat,
            last_key(decl_segs(d, k)),
            decl_below(d, k as int),
        ),
        last_key(decl_segs(d, k)) matches Some(x) ==> x < k,
    decreases k,
{
    if k > 0 {
        let j = (k - 1) as nat;
        let x = decl_segs(d, j);
        let y = decl_seg(d, j as int);
        assert(decl_segs(d, k) == x + y);
        lemma_entry_items_concat(x, y);
        lemma_split(s, q0, entry_items(x), entry_items(y));
        lemma_decl_prefix(d, s, at, q0, n, j);
        lemma_decl_seg(d, s, at, q0 + entry_items(x).len(), (n - x.len()) as nat, last_key(x), j as int);
        if y.len() == 0 {
            assert(x + y =~= x);
        } else {
            assert((x + y).last() == y.last());
        }
    } else {
        assert(entry_items(decl_segs(d, 0)) =~= Seq::<u8>::empty());
    }
}

/// Reading the unknown keys of a declaration keeps each value verbatim.
#[verifier::rlimit(60)]
proof fn lemma_decl_extra_walk(
    s: Seq<u8>,
    at: int,
    p: int,
    x: Seq<(u16, Seq<u8>)>,
    j: int,
    base: SchemaDeclFields,
    prev: Option<u16>,
)
    requires
        0 <= j <= x.len(),
        keys_ascending(x),
        forall|i: int| 0 <= i < x.len() ==> (#[trigger] x[i]).0 > keys::schema_decl::HIGHEST && one_item(x[i].1),
        stands_at(s, p, entry_items(x.skip(j))),
        j > 0 ==> prev == Some(x[j - 1].0),
        j == 0 ==> (prev matches Some(pk) ==> pk <= keys::schema_decl::HIGHEST),
    ensures
        schema_decl_walk(s, at, p, (x.len() - j) as nat, prev, SchemaDeclFields { extra: entries_map(x.take(j)), ..base })
            == (
            Ok::<SchemaDeclFields, CodecError>(SchemaDeclFields { extra: entries_map(x), ..base }),
            p + entry_items(x.skip(j)).len(),
        ),
    decreases x.len() - j,
{
    if j == x.len() {
        reveal(schema_decl_walk);
        assert(x.take(j) =~= x);
        assert(entry_items(x.skip(j)) =~= Seq::<u8>::empty()) by {
            assert(x.skip(j) =~= Seq::<(u16, Seq<u8>)>::empty());
        }
    } else {
        let (k, v) = x[j];
        assert(x.skip(j) =~= seq![x[j]] + x.skip(j + 1));
        lemma_entry_items_concat(seq![x[j]], x.skip(j + 1));
        assert(seq![x[j]].drop_last() =~= Seq::<(u16, Seq<u8>)>::empty());
        assert(entry_items(Seq::<(u16, Seq<u8>)>::empty()) =~= Seq::<u8>::empty());
        assert(entry_items(seq![x[j]]) =~= head_bytes(major::UINT, k as u64) + v);
        lemma_split(s, p, entry_items(seq![x[j]]), entry_items(x.skip(j + 1)));
        let hk = head_bytes(major::UINT, k as u64);
        lemma_split(s, p, hk, v);
        let p1 = p + hk.len();
        let pre = s.take(p1);
        let w = s.skip(p1 + v.len());
        assert(s =~= pre + v + w);
        assert(skip_at(pre + v + w, pre.len() as int, 0) == (Ok::<(), CodecError>(()), (pre.len() + v.len()) as int));
        assert(s.subrange(p1, p1 + v.len()) == v);
        let st = SchemaDeclFields { extra: entries_map(x.take(j)), ..base };
        let st2 = SchemaDeclFields { extra: entries_map(x.take(j + 1)), ..base };
        assert(x.take(j + 1).drop_last() =~= x.take(j));
        assert(entries_map(x.take(j + 1)) == entries_map(x.take(j)).insert(k, v));
        assert(schema_decl_value(s, at, p1, k, st) == (Ok::<SchemaDeclFields, CodecError>(st2), p1 + v.len())) by {
            reveal(schema_decl_value);
        }
        if j > 0 {
            assert(x[j - 1].0 < x[j].0);
        }
        lemma_decl_walk_one(s, at, p, (x.len() - j) as nat, prev, st, k, v, st2);
        lemma_decl_extra_walk(s, at, p1 + v.len(), x, j + 1, base, Some(k));
    }
}

/// The known fields of a declaration are the entries for its keys, in key order, ascending
/// and within its key table.
proof fn lemma_decl_fields_are_segs(d: SchemaDecl)
    ensures
        schema_decl_fields(d) == decl_segs(d, 5),
        keys_ascending(schema_decl_fields(d)),
        forall|i: int| 0 <= i < schema_decl_fields(d).len() ==> #[trigger] schema_decl_fields(d)[i].0
            <= keys::schema_decl::HIGHEST,
{
    reveal_with_fuel(decl_segs, 6);
    assert(schema_decl_fields(d) =~= decl_segs(d, 5));
    let f = schema_decl_fields(d);
    assert forall|i: int| 0 <= i < f.len() implies #[trigger] f[i].0 <= keys::schema_decl::HIGHEST && (i + 1 < f.len()
        ==> f[i].0 < f[i + 1].0) by {
    }
    assert forall|i: int, j: int| 0 <= i < j < f.len() implies #[trigger] f[i].0 < #[trigger] f[j].0 by {
        lemma_ascending_steps(f, i, j);
    }
}

/// What a read gives back of a write, for schema declarations: handed the canonical bytes of a
/// declaration, the reader reads back its id, version, types and relation kinds in order, its
/// payload shape and its unknown keys, and stops where the bytes end. Its ids are ones the
/// reader parses, in NFC, its relation kinds ones it reads back, and each unknown key's value
/// one complete item above the known keys.
pub proof fn lemma_schema_decl_round_trip(d: SchemaDecl, s: Seq<u8>, p: int)
    requires
        schema_decl_writable(d),
        extra_above(d.extra@, keys::schema_decl::HIGHEST),
        forall|k: u16| d.extra@.contains_key(k) ==> one_item(#[trigger] d.extra@[k]@),
        stands_at(s, p, schema_decl_encoding(d)),
        s.len() <= usize::MAX,
    ensures
        schema_decl_at(s, p) == (Ok::<_, CodecError>(schema_decl_view(d)), p + schema_decl_encoding(d).len()),
{
    let m = d.extra@;
    vstd::std_specs::btree::axiom_btree_map_view_finite_dom(d.extra);
    lemma_extra_list_exists(m);
    let x = extra_entries(m);
    assert(extra_in_order(x, m));
    let f = schema_decl_fields(d);
    lemma_decl_fields_are_segs(d);
    let e = f + x;
    assert forall|i: int, j: int| 0 <= i < j < e.len() implies #[trigger] e[i].0 < #[trigger] e[j].0 by {
        if j < f.len() {
        } else if i < f.len() {
            assert(m.contains_key(x[j - f.len()].0));
            assert(f[i].0 <= keys::schema_decl::HIGHEST);
        } else {
            assert(x[i - f.len()].0 < x[j - f.len()].0);
        }
    }
    lemma_map_bytes_sorted(e);
    lemma_entry_items_concat(f, x);
    let h = head_bytes(major::MAP, e.len() as u64);
    assert(schema_decl_encoding(d) == h + (entry_items(f) + entry_items(x)));
    lemma_split(s, p, h, entry_items(f) + entry_items(x));
    let q0 = p + h.len();
    lemma_split(s, q0, entry_items(f), entry_items(x));
    lemma_entry_items_len(e);
    assert(e.len() <= usize::MAX);
    lemma_expect_read(major::MAP, e.len() as u64, s, p);
    let n = e.len() as nat;
    lemma_decl_prefix(d, s, p, q0, n, 5);
    assert(decl_below(d, 0) == no_schema_decl_fields());
    let q1 = q0 + entry_items(f).len();
    let base = decl_below(d, 5);
    assert forall|i: int| 0 <= i < x.len() implies (#[trigger] x[i]).0 > keys::schema_decl::HIGHEST && one_item(x[i].1) by {
        assert(m.contains_key(x[i].0));
        assert(m[x[i].0]@ == x[i].1);
    }
    assert(x.skip(0) =~= x);
    assert(x.take(0) =~= Seq::<(u16, Seq<u8>)>::empty());
    assert(entries_map(Seq::<(u16, Seq<u8>)>::empty()) =~= Map::<u16, Seq<u8>>::empty());
    assert(SchemaDeclFields { extra: entries_map(x.take(0)), ..base } == base);
    lemma_decl_extra_walk(s, p, q1, x, 0, base, last_key(f));
    lemma_entries_map_view(x, m);
}

} // verus!
