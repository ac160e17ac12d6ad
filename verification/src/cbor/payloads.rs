//! The payloads of the records around the units: views, contentions, schema declarations and
//! label bindings, each a map of its fields with the unknown keys of a later minor version
//! kept above them.

use vstd::prelude::*;

use crate::cbor::envelope::{
    bytes_of, extra_above, extra_entries, hlc_bytes, hlc_item, lemma_ascending_steps, lemma_extra_order_unique,
    bytes_item, text_bytes, text_item, uid_set_entry, uint_bytes,
};
use crate::cbor::keys;
use crate::cbor::major;
use crate::cbor::order::{items_distinct, sorted_items};
use crate::cbor::writer::{
    concat_items, extra_in_order, head_bytes, items_view, keys_ascending, map_bytes, uid_item, Enc, MapBuilder,
};
use crate::ids::{SchemaId, ThreadId, Uid};
use crate::types::annex::{Contention, LabelBinding, SchemaDecl};
use crate::types::relation::RelKind;
use crate::types::view::{schemas_distinct, threads_distinct, GranularityProfile};
use crate::types::Extra;
use crate::cbor::reader::lemma_head_round_trip;
use vstd::utf8::encode_utf8;

verus! {

/// Closes a payload: the known fields gathered in `m`, then the unknown keys of `extra`, which
/// lie above them.
pub(crate) fn close_map(m: MapBuilder, extra: &Extra, highest: u16) -> (b: Vec<u8>)
    requires
        keys_ascending(m@),
        forall|i: int| 0 <= i < m@.len() ==> #[trigger] m@[i].0 <= highest,
        extra_above(extra@, highest),
    ensures
        b@ == map_bytes(m@ + extra_entries(extra@)),
{
    let mut m = m;
    let ghost fields = m@;
    m.put_extra(extra);
    proof {
        let e = choose|e: Seq<(u16, Seq<u8>)>| extra_in_order(e, extra@) && m@ == fields + e;
        lemma_extra_order_unique(e, extra_entries(extra@), extra@);
        assert(keys_ascending(m@)) by {
            assert forall|i: int, j: int| 0 <= i < j < m@.len() implies #[trigger] m@[i].0 < #[trigger] m@[j].0 by {
                if j < fields.len() {
                } else if i < fields.len() {
                    assert(fields[i].0 <= highest);
                    assert(extra@.contains_key(e[j - fields.len()].0));
                } else {
                    assert(e[i - fields.len()].0 < e[j - fields.len()].0);
                }
            }
        }
    }
    m.into_bytes()
}

/// Fields whose keys step up one entry to the next ascend, and stay at or below the last.
pub(crate) proof fn lemma_fields_ascend(f: Seq<(u16, Seq<u8>)>, highest: u16)
    requires
        forall|k: int| 0 <= k && k + 1 < f.len() ==> #[trigger] f[k].0 < f[k + 1].0,
        forall|k: int| 0 <= k < f.len() ==> #[trigger] f[k].0 <= highest,
    ensures
        keys_ascending(f),
{
    assert forall|i: int, j: int| 0 <= i < j < f.len() implies #[trigger] f[i].0 < #[trigger] f[j].0 by {
        lemma_ascending_steps(f, i, j);
    }
}

/// Different texts make different items.
pub proof fn lemma_text_item_injective(a: Seq<char>, b: Seq<char>)
    ensures
        text_item(a) == text_item(b) ==> a == b,
{
    if text_item(a) == text_item(b) {
        let s = text_item(a);
        let ea = encode_utf8(a);
        let eb = encode_utf8(b);
        let ha = head_bytes(major::TEXT, ea.len() as u64);
        let hb = head_bytes(major::TEXT, eb.len() as u64);
        assert(s.subrange(0, ha.len() as int) =~= ha);
        assert(s.subrange(0, hb.len() as int) =~= hb);
        lemma_head_round_trip(major::TEXT, ea.len() as u64, s, 0);
        lemma_head_round_trip(major::TEXT, eb.len() as u64, s, 0);
        assert(ea =~= s.skip(ha.len() as int));
        assert(eb =~= s.skip(hb.len() as int));
        vstd::utf8::encode_utf8_decode_utf8(a);
        vstd::utf8::encode_utf8_decode_utf8(b);
    }
}

/// A sequence field: one entry when there are items, none when there are not.
pub open spec fn array_entry(k: u16, items: Seq<Seq<u8>>) -> Seq<(u16, Seq<u8>)> {
    if items.len() == 0 {
        Seq::empty()
    } else {
        seq![(k, head_bytes(major::ARRAY, items.len() as u64) + concat_items(items))]
    }
}

/// A set field: one entry laid out in ascending byte order when there are items, none when
/// there are not.
pub open spec fn set_entry(k: u16, items: Seq<Seq<u8>>) -> Seq<(u16, Seq<u8>)> {
    if items.len() == 0 {
        Seq::empty()
    } else {
        seq![(k, head_bytes(major::ARRAY, items.len() as u64) + concat_items(sorted_items(items)))]
    }
}

// ---------------------------------------------------------------------------
// Relation kinds and granularity profiles
// ---------------------------------------------------------------------------

/// A relation kind as an item: a kernel kind by its code, an extension kind by its text.
pub open spec fn rel_kind_item(k: RelKind) -> Seq<u8> {
    match k.code_view() {
        Some(c) => head_bytes(major::UINT, c as u64),
        None => text_item(k.text()),
    }
}

/// A relation kind as an item.
pub fn rel_kind_bytes(k: &RelKind) -> (b: Vec<u8>)
    ensures
        b@ == rel_kind_item(*k),
{
    match k.code() {
        Some(c) => uint_bytes(c as u64),
        None => text_bytes(k.as_str()),
    }
}

/// The fields of a granularity profile as map entries, ascending by key.
pub open spec fn granularity_fields(g: GranularityProfile) -> Seq<(u16, Seq<u8>)> {
    seq![
        (keys::granularity::PROFILE, text_item(g.profile@)),
        (keys::granularity::L0_MAX, head_bytes(major::UINT, g.l0_max as u64)),
        (keys::granularity::L1_MIN, head_bytes(major::UINT, g.l1_min as u64)),
        (keys::granularity::L1_MAX, head_bytes(major::UINT, g.l1_max as u64)),
        (keys::granularity::ADMISSION, head_bytes(major::UINT, g.admission.code_view() as u64)),
    ]
}

/// The encoding of a granularity profile: a map of its five fields.
pub open spec fn granularity_item(g: GranularityProfile) -> Seq<u8> {
    map_bytes(granularity_fields(g))
}

/// Writes a granularity profile.
pub fn enc_granularity(e: &mut Enc, g: &GranularityProfile)
    ensures
        final(e)@ == old(e)@ + granularity_item(*g),
{
    let mut m = MapBuilder::new();
    m.put(keys::granularity::PROFILE, text_bytes(g.profile.as_str()));
    m.put(keys::granularity::L0_MAX, uint_bytes(g.l0_max as u64));
    m.put(keys::granularity::L1_MIN, uint_bytes(g.l1_min as u64));
    m.put(keys::granularity::L1_MAX, uint_bytes(g.l1_max as u64));
    m.put(keys::granularity::ADMISSION, uint_bytes(g.admission.as_u8() as u64));
    assert(m@ =~= granularity_fields(*g));
    m.finish(e);
}

/// A granularity profile as an item.
fn granularity_bytes(g: &GranularityProfile) -> (b: Vec<u8>)
    ensures
        b@ == granularity_item(*g),
{
    let mut e = Enc::new();
    enc_granularity(&mut e, g);
    assert(e@ =~= granularity_item(*g));
    e.into_bytes()
}

// ---------------------------------------------------------------------------
// Views
// ---------------------------------------------------------------------------

/// The thread ids of a view as text items.
pub open spec fn thread_items(v: Seq<ThreadId>) -> Seq<Seq<u8>> {
    Seq::new(v.len(), |i: int| text_item(v[i]@))
}

/// The schema ids of a view as text items.
pub open spec fn schema_items(v: Seq<SchemaId>) -> Seq<Seq<u8>> {
    Seq::new(v.len(), |i: int| text_item(v[i].text()))
}

/// The known fields of a view as map entries, ascending by key: the threads and required
/// schemas laid out as sets.
pub open spec fn view_fields(v: crate::types::view::View) -> Seq<(u16, Seq<u8>)> {
    seq![(keys::view::ID, text_item(v.id@))] + uid_set_entry(keys::view::ROOTS, v.roots@) + set_entry(
        keys::view::THREADS,
        thread_items(v.threads@),
    ) + set_entry(keys::view::REQUIRES, schema_items(v.requires@)) + seq![
        (keys::view::GRANULARITY, granularity_item(v.granularity)),
        (keys::view::INTENT, text_item(v.intent@)),
        (keys::view::LANG, text_item(v.lang@)),
    ]
}

/// The canonical bytes of a view's payload.
pub open spec fn view_encoding(v: crate::types::view::View) -> Seq<u8> {
    map_bytes(view_fields(v) + extra_entries(v.extra@))
}

/// The thread ids of a view as text items, one per id.
fn thread_id_items(v: &Vec<ThreadId>) -> (r: Vec<Vec<u8>>)
    requires
        threads_distinct(v@),
    ensures
        items_view(r@) == thread_items(v@),
        items_distinct(items_view(r@)),
{
    let mut r: Vec<Vec<u8>> = Vec::new();
    let mut i: usize = 0;
    while i < v.len()
        invariant
            i <= v.len(),
            items_view(r@) == thread_items(v@).take(i as int),
        decreases v.len() - i,
    {
        let x = text_bytes(v[i].as_str());
        let ghost before = r@;
        r.push(x);
        assert(r@ == before.push(x));
        assert(items_view(r@) =~= items_view(before).push(x@));
        assert(thread_items(v@).take(i + 1) =~= thread_items(v@).take(i as int).push(thread_items(v@)[i as int]));
        assert(items_view(r@) =~= thread_items(v@).take(i + 1));
        i = i + 1;
    }
    assert(thread_items(v@).take(v.len() as int) =~= thread_items(v@));
    assert forall|a: int, b: int| 0 <= a < b < r@.len() implies #[trigger] items_view(r@)[a] != #[trigger] items_view(
        r@,
    )[b] by {
        lemma_text_item_injective(v@[a]@, v@[b]@);
    }
    r
}

/// The schema ids of a view as text items, one per id.
fn schema_id_items(v: &Vec<SchemaId>) -> (r: Vec<Vec<u8>>)
    ensures
        items_view(r@) == schema_items(v@),
        schemas_distinct(v@) ==> items_distinct(items_view(r@)),
{
    let mut r: Vec<Vec<u8>> = Vec::new();
    let mut i: usize = 0;
    while i < v.len()
        invariant
            i <= v.len(),
            items_view(r@) == schema_items(v@).take(i as int),
        decreases v.len() - i,
    {
        let x = text_bytes(v[i].as_str());
        let ghost before = r@;
        r.push(x);
        assert(r@ == before.push(x));
        assert(items_view(r@) =~= items_view(before).push(x@));
        assert(schema_items(v@).take(i + 1) =~= schema_items(v@).take(i as int).push(schema_items(v@)[i as int]));
        assert(items_view(r@) =~= schema_items(v@).take(i + 1));
        i = i + 1;
    }
    assert(schema_items(v@).take(v.len() as int) =~= schema_items(v@));
    assert forall|a: int, b: int| 0 <= a < b < r@.len() && schemas_distinct(v@) implies #[trigger] items_view(r@)[a]
        != #[trigger] items_view(r@)[b] by {
        lemma_text_item_injective(v@[a].text(), v@[b].text());
    }
    r
}

/// The canonical bytes of a view's payload. The view's sets are in canonical form, and unknown
/// keys carried from a later minor version lie above the known ones.
#[verifier::rlimit(40)]
pub fn view_bytes(v: &crate::types::view::View) -> (b: Vec<u8>)
    requires
        v.well_formed(),
        extra_above(v.extra@, keys::view::HIGHEST),
    ensures
        b@ == view_encoding(*v),
{
    let threads = thread_id_items(&v.threads);
    let schemas = schema_id_items(&v.requires);
    let mut m = MapBuilder::new();
    m.put(keys::view::ID, text_bytes(v.id.as_str()));
    m.put_uid_set(keys::view::ROOTS, &v.roots);
    m.put_sorted_set(keys::view::THREADS, threads);
    m.put_sorted_set(keys::view::REQUIRES, schemas);
    m.put(keys::view::GRANULARITY, granularity_bytes(&v.granularity));
    m.put(keys::view::INTENT, text_bytes(v.intent.as_str()));
    m.put(keys::view::LANG, text_bytes(v.lang.as_str()));
    assert(m@ =~= view_fields(*v));
    proof {
        lemma_fields_ascend(m@, keys::view::HIGHEST);
    }
    close_map(m, &v.extra, keys::view::HIGHEST)
}

// ---------------------------------------------------------------------------
// Contentions
// ---------------------------------------------------------------------------

/// The positions of a contention as uid items, in authored order.
pub open spec fn position_items(v: Seq<Uid>) -> Seq<Seq<u8>> {
    Seq::new(v.len(), |i: int| uid_item(v[i]))
}

/// The known fields of a contention as map entries, ascending by key.
pub open spec fn contention_fields(c: Contention) -> Seq<(u16, Seq<u8>)> {
    seq![(keys::contention::ID, text_item(c.id@)), (keys::contention::OVER, uid_item(c.over))] + array_entry(
        keys::contention::POSITIONS,
        position_items(c.positions@),
    ) + seq![
        (
            keys::contention::DETECTED,
            head_bytes(major::ARRAY, 2) + head_bytes(major::UINT, c.detected.kind.code_view() as u64) + hlc_item(
                c.detected.ts,
            ),
        ),
        (keys::contention::STATUS, head_bytes(major::UINT, c.status.code_view() as u64)),
    ]
}

/// The canonical bytes of a contention's payload.
pub open spec fn contention_encoding(c: Contention) -> Seq<u8> {
    map_bytes(contention_fields(c) + extra_entries(c.extra@))
}

/// The canonical bytes of a contention's payload. Unknown keys carried from a later minor
/// version lie above the known ones.
#[verifier::rlimit(40)]
pub fn contention_bytes(c: &Contention) -> (b: Vec<u8>)
    requires
        extra_above(c.extra@, keys::contention::HIGHEST),
    ensures
        b@ == contention_encoding(*c),
{
    let mut positions: Vec<Vec<u8>> = Vec::new();
    let mut i: usize = 0;
    while i < c.positions.len()
        invariant
            i <= c.positions.len(),
            items_view(positions@) == position_items(c.positions@).take(i as int),
        decreases c.positions.len() - i,
    {
        let mut e = Enc::new();
        e.uid(&c.positions[i]);
        assert(e@ =~= uid_item(c.positions@[i as int]));
        let x = e.into_bytes();
        let ghost before = positions@;
        positions.push(x);
        assert(items_view(positions@) =~= items_view(before).push(x@));
        assert(position_items(c.positions@).take(i + 1) =~= position_items(c.positions@).take(i as int).push(position_items(c.positions@)[i as int]));
        assert(items_view(positions@) =~= position_items(c.positions@).take(i + 1));
        i = i + 1;
    }
    assert(position_items(c.positions@).take(c.positions.len() as int) =~= position_items(c.positions@));
    let mut m = MapBuilder::new();
    m.put(keys::contention::ID, text_bytes(c.id.as_str()));
    let mut e = Enc::new();
    e.uid(&c.over);
    assert(e@ =~= uid_item(c.over));
    m.put(keys::contention::OVER, e.into_bytes());
    let ghost before = m@;
    assert(Seq::new(positions@.len(), |j: int| positions@[j]@) =~= items_view(positions@));
    m.put_array(keys::contention::POSITIONS, positions);
    assert(m@ =~= before + array_entry(keys::contention::POSITIONS, position_items(c.positions@)));
    let mut d = Enc::new();
    d.array_head(2);
    d.uint(c.detected.kind.as_u8() as u64);
    let h = hlc_bytes(&c.detected.ts);
    d.raw(h.as_slice());
    m.put(keys::contention::DETECTED, d.into_bytes());
    m.put(keys::contention::STATUS, uint_bytes(c.status.as_u8() as u64));
    assert(m@ =~= contention_fields(*c));
    proof {
        lemma_fields_ascend(m@, keys::contention::HIGHEST);
    }
    close_map(m, &c.extra, keys::contention::HIGHEST)
}

// ---------------------------------------------------------------------------
// Schema declarations
// ---------------------------------------------------------------------------

/// The relation kinds of a declaration as items, in authored order.
pub open spec fn rel_kind_items(v: Seq<RelKind>) -> Seq<Seq<u8>> {
    Seq::new(v.len(), |i: int| rel_kind_item(v[i]))
}

/// The optional payload shape of a declaration, as a byte-string item.
pub open spec fn opt_shape_entry(o: Option<Vec<u8>>) -> Seq<(u16, Seq<u8>)> {
    match o {
        Some(p) => seq![(keys::schema_decl::PAYLOAD_SHAPE, bytes_item(p@))],
        None => Seq::empty(),
    }
}

/// The known fields of a schema declaration as map entries, ascending by key.
pub open spec fn schema_decl_fields(d: SchemaDecl) -> Seq<(u16, Seq<u8>)> {
    seq![
        (keys::schema_decl::ID, text_item(d.id.text())),
        (keys::schema_decl::VERSION, head_bytes(major::UINT, d.version as u64)),
    ] + array_entry(keys::schema_decl::TYPES, schema_items(d.types@)) + array_entry(
        keys::schema_decl::RELATIONS,
        rel_kind_items(d.relations@),
    ) + opt_shape_entry(d.payload_shape)
}

/// The canonical bytes of a schema declaration's payload.
pub open spec fn schema_decl_encoding(d: SchemaDecl) -> Seq<u8> {
    map_bytes(schema_decl_fields(d) + extra_entries(d.extra@))
}

/// The canonical bytes of a schema declaration's payload. Unknown keys carried from a later
/// minor version lie above the known ones.
#[verifier::rlimit(40)]
pub fn schema_decl_bytes(d: &SchemaDecl) -> (b: Vec<u8>)
    requires
        extra_above(d.extra@, keys::schema_decl::HIGHEST),
    ensures
        b@ == schema_decl_encoding(*d),
{
    let types = schema_id_items(&d.types);
    let mut relations: Vec<Vec<u8>> = Vec::new();
    let mut i: usize = 0;
    while i < d.relations.len()
        invariant
            i <= d.relations.len(),
            items_view(relations@) == rel_kind_items(d.relations@).take(i as int),
        decreases d.relations.len() - i,
    {
        let x = rel_kind_bytes(&d.relations[i]);
        let ghost before = relations@;
        relations.push(x);
        assert(relations@ == before.push(x));
        assert(items_view(relations@) =~= items_view(before).push(x@));
        assert(rel_kind_items(d.relations@).take(i + 1) =~= rel_kind_items(d.relations@).take(i as int).push(rel_kind_items(d.relations@)[i as int]));
        assert(items_view(relations@) =~= rel_kind_items(d.relations@).take(i + 1));
        i = i + 1;
    }
    assert(rel_kind_items(d.relations@).take(d.relations.len() as int) =~= rel_kind_items(d.relations@));
    let mut m = MapBuilder::new();
    m.put(keys::schema_decl::ID, text_bytes(d.id.as_str()));
    m.put(keys::schema_decl::VERSION, uint_bytes(d.version as u64));
    let ghost m1 = m@;
    assert(Seq::new(types@.len(), |j: int| types@[j]@) =~= items_view(types@));
    m.put_array(keys::schema_decl::TYPES, types);
    let ghost m2 = m@;
    assert(m2 =~= m1 + array_entry(keys::schema_decl::TYPES, schema_items(d.types@)));
    assert(Seq::new(relations@.len(), |j: int| relations@[j]@) =~= items_view(relations@));
    m.put_array(keys::schema_decl::RELATIONS, relations);
    let ghost m3 = m@;
    assert(m3 =~= m2 + array_entry(keys::schema_decl::RELATIONS, rel_kind_items(d.relations@)));
    match &d.payload_shape {
        Some(p) => m.put(keys::schema_decl::PAYLOAD_SHAPE, bytes_of(p.as_slice())),
        None => {},
    }
    assert(m@ =~= schema_decl_fields(*d));
    proof {
        lemma_fields_ascend(m@, keys::schema_decl::HIGHEST);
    }
    close_map(m, &d.extra, keys::schema_decl::HIGHEST)
}

// ---------------------------------------------------------------------------
// Label bindings
// ---------------------------------------------------------------------------

/// The known fields of a label binding: its label and its uid, neither optional.
pub open spec fn label_binding_fields(b: LabelBinding) -> Seq<(u16, Seq<u8>)> {
    seq![(keys::label_binding::LABEL, text_item(b.label@)), (keys::label_binding::UID, uid_item(b.uid))]
}

/// The canonical bytes of a label binding's payload.
pub open spec fn label_binding_encoding(b: LabelBinding) -> Seq<u8> {
    map_bytes(label_binding_fields(b) + extra_entries(b.extra@))
}

/// The canonical bytes of a label binding's payload. Unknown keys carried from a later minor
/// version lie above the known ones.
pub fn label_binding_bytes(b: &LabelBinding) -> (r: Vec<u8>)
    requires
        extra_above(b.extra@, keys::label_binding::HIGHEST),
    ensures
        r@ == label_binding_encoding(*b),
{
    let mut m = MapBuilder::new();
    m.put(keys::label_binding::LABEL, text_bytes(b.label.as_str()));
    let mut e = Enc::new();
    e.uid(&b.uid);
    assert(e@ =~= uid_item(b.uid));
    m.put(keys::label_binding::UID, e.into_bytes());
    assert(m@ =~= label_binding_fields(*b));
    proof {
        lemma_fields_ascend(m@, keys::label_binding::HIGHEST);
    }
    close_map(m, &b.extra, keys::label_binding::HIGHEST)
}

} // verus!
