//! Record payloads: the canonical encoding of each record's fields as a map.

use vstd::prelude::*;

use crate::cbor::keys;
use crate::cbor::major;
use crate::cbor::writer::{
    extra_in_order, head_bytes, in_key_order, keys_ascending, keys_distinct, lemma_key_order_unique,
    map_bytes, uid_item, uid_items, concat_items, Enc, MapBuilder,
};
use crate::ids::Uid;
use crate::types::provenance::{Attestation, Hlc};
use crate::types::thread::{Step, Thread};
use crate::types::epistemics::{date_text, SourceRef};
use crate::types::unit::UnitCore;
use crate::types::Extra;
use vstd::utf8::encode_utf8;

verus! {

/// A text item: a length head and the UTF-8 bytes.
pub open spec fn text_item(c: Seq<char>) -> Seq<u8> {
    head_bytes(major::TEXT, encode_utf8(c).len() as u64) + encode_utf8(c)
}

/// A byte-string item: a length head and the bytes.
pub open spec fn bytes_item(b: Seq<u8>) -> Seq<u8> {
    head_bytes(major::BYTES, b.len() as u64) + b
}

/// One entry for a present value, none for an absent one.
pub open spec fn opt_entry(k: u16, v: Option<Seq<u8>>) -> Seq<(u16, Seq<u8>)> {
    match v {
        Some(b) => seq![(k, b)],
        None => Seq::empty(),
    }
}

/// One entry for a uid set that is not empty, none for an empty one.
pub open spec fn uid_set_entry(k: u16, s: Seq<Uid>) -> Seq<(u16, Seq<u8>)> {
    if s.len() == 0 {
        Seq::empty()
    } else {
        seq![(k, head_bytes(major::ARRAY, s.len() as u64) + uid_items(s))]
    }
}

/// The optional text of a field, as a text item.
pub open spec fn opt_text_item(t: Option<String>) -> Option<Seq<u8>> {
    match t {
        Some(s) => Some(text_item(s@)),
        None => None,
    }
}

/// The entries of a source reference: its kind's code, its reference, and its capture date
/// when there is one.
pub open spec fn source_entries(s: SourceRef) -> Seq<(u16, Seq<u8>)> {
    seq![
        (keys::source::KIND, head_bytes(major::UINT, s.kind.code_view() as u64)),
        (keys::source::REFERENCE, text_item(s.reference@)),
    ] + opt_entry(
        keys::source::CAPTURED,
        match s.captured {
            Some(d) => Some(text_item(date_text(d.year as int, d.month as int, d.day as int))),
            None => None,
        },
    )
}

/// The encoding of a source reference.
pub open spec fn source_item(s: SourceRef) -> Seq<u8> {
    map_bytes(source_entries(s))
}

/// An optional source reference, as an item.
pub open spec fn opt_source_item(s: Option<SourceRef>) -> Option<Seq<u8>> {
    match s {
        Some(r) => Some(source_item(r)),
        None => None,
    }
}

/// The known fields of a unit core as map entries, ascending by key.
pub open spec fn unit_core_fields(u: UnitCore) -> Seq<(u16, Seq<u8>)> {
    seq![(keys::unit::SCHEMA, text_item(u.schema.text())), (keys::unit::GIST, text_item(u.gist@))]
        + opt_entry(keys::unit::BODY, opt_text_item(u.body)) + opt_entry(keys::unit::DETAIL, opt_text_item(u.detail))
        + uid_set_entry(keys::unit::DEPS, u.deps@) + uid_set_entry(keys::unit::GROUNDS, u.grounds@) + seq![
        (keys::unit::STATUS, head_bytes(major::UINT, u.status.code_view() as u64)),
    ] + opt_entry(keys::unit::SOURCE, opt_source_item(u.source)) + opt_entry(
        keys::unit::PAYLOAD,
        match u.payload {
            Some(p) => Some(bytes_item(p@)),
            None => None,
        },
    )
}

/// The unknown keys of a record as map entries, ascending by key.
pub open spec fn extra_entries(m: Map<u16, Vec<u8>>) -> Seq<(u16, Seq<u8>)> {
    choose|e: Seq<(u16, Seq<u8>)>| extra_in_order(e, m)
}

/// The canonical bytes of a unit core: its payload map, the input of its uid.
pub open spec fn unit_core_encoding(u: UnitCore) -> Seq<u8> {
    map_bytes(unit_core_fields(u) + extra_entries(u.extra@))
}

/// Every key of `m` lies above `highest`.
pub open spec fn extra_above(m: Map<u16, Vec<u8>>, highest: u16) -> bool {
    forall|k: u16| #[trigger] m.contains_key(k) ==> k > highest
}

/// There is one way to list a map's entries in ascending key order.
pub proof fn lemma_extra_order_unique(a: Seq<(u16, Seq<u8>)>, b: Seq<(u16, Seq<u8>)>, m: Map<u16, Vec<u8>>)
    requires
        m.dom().finite(),
        extra_in_order(a, m),
        extra_in_order(b, m),
    ensures
        a == b,
{
    lemma_extra_covers(a, m);
    lemma_extra_covers(b, m);
    assert(a.to_set() =~= b.to_set()) by {
        assert forall|x: (u16, Seq<u8>)| a.to_set().contains(x) implies b.to_set().contains(x) by {
            let i = choose|i: int| 0 <= i < a.len() && a[i] == x;
            assert(m.contains_key(a[i].0));
            let j = choose|j: int| 0 <= j < b.len() && b[j].0 == x.0;
            assert(m.contains_key(b[j].0));
            assert(b[j] == x);
        }
        assert forall|x: (u16, Seq<u8>)| b.to_set().contains(x) implies a.to_set().contains(x) by {
            let i = choose|i: int| 0 <= i < b.len() && b[i] == x;
            assert(m.contains_key(b[i].0));
            let j = choose|j: int| 0 <= j < a.len() && a[j].0 == x.0;
            assert(m.contains_key(a[j].0));
            assert(a[j] == x);
        }
    }
    lemma_key_order_unique(a, b, a);
}

/// A list of a map's entries in ascending key order names every key.
pub proof fn lemma_extra_covers(a: Seq<(u16, Seq<u8>)>, m: Map<u16, Vec<u8>>)
    requires
        m.dom().finite(),
        extra_in_order(a, m),
    ensures
        forall|k: u16| m.contains_key(k) ==> exists|j: int| 0 <= j < a.len() && #[trigger] a[j].0 == k,
{
    let ks = Seq::new(a.len(), |i: int| a[i].0);
    assert(ks.no_duplicates()) by {
        assert forall|i: int, j: int| 0 <= i < ks.len() && 0 <= j < ks.len() && i != j implies ks[i] != ks[j] by {
            if i < j {
                assert(a[i].0 < a[j].0);
            } else {
                assert(a[j].0 < a[i].0);
            }
        }
    }
    ks.unique_seq_to_set();
    assert(ks.to_set().subset_of(m.dom())) by {
        assert forall|k: u16| ks.to_set().contains(k) implies m.dom().contains(k) by {
            let i = choose|i: int| 0 <= i < ks.len() && ks[i] == k;
            assert(m.contains_key(a[i].0));
        }
    }
    vstd::set_lib::lemma_subset_equality(ks.to_set(), m.dom());
    assert forall|k: u16| m.contains_key(k) implies exists|j: int| 0 <= j < a.len() && #[trigger] a[j].0 == k by {
        assert(ks.to_set().contains(k));
        let i = choose|i: int| 0 <= i < ks.len() && ks[i] == k;
        assert(a[i].0 == k);
    }
}

/// Text as an item.
pub(crate) fn text_bytes(s: &str) -> (b: Vec<u8>)
    ensures
        b@ == text_item(s@),
{
    let mut e = Enc::new();
    e.text(s);
    e.into_bytes()
}

/// An unsigned integer as an item.
pub(crate) fn uint_bytes(v: u64) -> (b: Vec<u8>)
    ensures
        b@ == head_bytes(major::UINT, v),
{
    let mut e = Enc::new();
    e.uint(v);
    e.into_bytes()
}

/// A source reference as an item.
fn source_bytes(s: &SourceRef) -> (b: Vec<u8>)
    ensures
        b@ == source_item(*s),
{
    let mut m = MapBuilder::new();
    m.put(keys::source::KIND, uint_bytes(s.kind.as_u8() as u64));
    m.put(keys::source::REFERENCE, text_bytes(s.reference.as_str()));
    match &s.captured {
        Some(d) => {
            let t = d.render();
            m.put(keys::source::CAPTURED, text_bytes(t.as_str()));
        },
        None => {},
    }
    assert(m@ =~= source_entries(*s));
    m.into_bytes()
}

/// The known fields of a unit core, added to `m`.
#[verifier::rlimit(60)]
fn put_unit_fields(m: &mut MapBuilder, u: &UnitCore)
    ensures
        final(m)@ == old(m)@ + unit_core_fields(*u),
{
    let ghost m0 = old(m)@;
    let ghost f = unit_core_fields(*u);
    m.put(keys::unit::SCHEMA, text_bytes(u.schema.as_str()));
    m.put(keys::unit::GIST, text_bytes(u.gist.as_str()));
    let ghost p1 = seq![(keys::unit::SCHEMA, text_item(u.schema.text())), (keys::unit::GIST, text_item(u.gist@))];
    assert(m@ =~= m0 + p1);
    match &u.body {
        Some(t) => m.put(keys::unit::BODY, text_bytes(t.as_str())),
        None => {},
    }
    let ghost p2 = p1 + opt_entry(keys::unit::BODY, opt_text_item(u.body));
    assert(m@ =~= m0 + p2);
    match &u.detail {
        Some(t) => m.put(keys::unit::DETAIL, text_bytes(t.as_str())),
        None => {},
    }
    let ghost p3 = p2 + opt_entry(keys::unit::DETAIL, opt_text_item(u.detail));
    assert(m@ =~= m0 + p3);
    m.put_uid_set(keys::unit::DEPS, &u.deps);
    let ghost p4 = p3 + uid_set_entry(keys::unit::DEPS, u.deps@);
    assert(m@ =~= m0 + p4);
    m.put_uid_set(keys::unit::GROUNDS, &u.grounds);
    let ghost p5 = p4 + uid_set_entry(keys::unit::GROUNDS, u.grounds@);
    assert(m@ =~= m0 + p5);
    m.put(keys::unit::STATUS, uint_bytes(u.status.as_u8() as u64));
    let ghost p6 = p5 + seq![(keys::unit::STATUS, head_bytes(major::UINT, u.status.code_view() as u64))];
    assert(m@ =~= m0 + p6);
    match &u.source {
        Some(s) => m.put(keys::unit::SOURCE, source_bytes(s)),
        None => {},
    }
    let ghost p7 = p6 + opt_entry(keys::unit::SOURCE, opt_source_item(u.source));
    assert(m@ =~= m0 + p7);
    match &u.payload {
        Some(p) => {
            let mut e = Enc::new();
            e.bytes(p.as_slice());
            m.put(keys::unit::PAYLOAD, e.into_bytes());
        },
        None => {},
    }
    assert(m@ =~= m0 + f);
}

/// The known fields of a unit core ascend by key and stay within the unit's key table.
pub proof fn lemma_unit_fields_ascend(u: UnitCore)
    ensures
        keys_ascending(unit_core_fields(u)),
        forall|i: int| 0 <= i < unit_core_fields(u).len() ==> #[trigger] unit_core_fields(u)[i].0 <= keys::unit::HIGHEST,
{
    let f = unit_core_fields(u);
    assert forall|i: int| 0 <= i < f.len() implies #[trigger] f[i].0 <= keys::unit::HIGHEST && (i + 1 < f.len() ==> f[i].0 < f[i + 1].0) by {
    }
    assert forall|i: int, j: int| 0 <= i < j < f.len() implies #[trigger] f[i].0 < #[trigger] f[j].0 by {
        lemma_ascending_steps(f, i, j);
    }
}

pub(crate) proof fn lemma_ascending_steps(f: Seq<(u16, Seq<u8>)>, i: int, j: int)
    requires
        0 <= i < j < f.len(),
        forall|k: int| 0 <= k && k + 1 < f.len() ==> #[trigger] f[k].0 < f[k + 1].0,
    ensures
        f[i].0 < f[j].0,
    decreases j - i,
{
    assert(f[j - 1].0 < f[j].0);
    if i < j - 1 {
        lemma_ascending_steps(f, i, j - 1);
    }
}

/// The canonical bytes of a unit core: the payload map alone, which is what its uid hashes.
/// The record's type code is framing, not content. Unknown keys carried from a later minor
/// version lie above the known ones.
pub fn unit_core_bytes(u: &UnitCore) -> (b: Vec<u8>)
    requires
        extra_above(u.extra@, keys::unit::HIGHEST),
    ensures
        b@ == unit_core_encoding(*u),
{
    let mut m = MapBuilder::new();
    put_unit_fields(&mut m, u);
    let ghost fields = m@;
    assert(fields =~= unit_core_fields(*u));
    m.put_extra(&u.extra);
    proof {
        let e = choose|e: Seq<(u16, Seq<u8>)>| extra_in_order(e, u.extra@) && m@ == fields + e;
        lemma_extra_order_unique(e, extra_entries(u.extra@), u.extra@);
        lemma_unit_fields_ascend(*u);
        assert(keys_ascending(m@)) by {
            assert forall|i: int, j: int| 0 <= i < j < m@.len() implies #[trigger] m@[i].0 < #[trigger] m@[j].0 by {
                if j < fields.len() {
                } else if i < fields.len() {
                    assert(fields[i].0 <= keys::unit::HIGHEST);
                    assert(u.extra@.contains_key(e[j - fields.len()].0));
                } else {
                    assert(e[i - fields.len()].0 < e[j - fields.len()].0);
                }
            }
        }
    }
    m.into_bytes()
}

/// The encoding of a clock: an array of its wall time, counter and agent.
pub open spec fn hlc_item(h: Hlc) -> Seq<u8> {
    head_bytes(major::ARRAY, 3) + head_bytes(major::UINT, h.wall_ms) + head_bytes(major::UINT, h.counter as u64)
        + text_item(h.agent@)
}

/// A clock as an item.
pub fn hlc_bytes(h: &Hlc) -> (b: Vec<u8>)
    ensures
        b@ == hlc_item(*h),
{
    let mut e = Enc::new();
    e.array_head(3);
    e.uint(h.wall_ms);
    e.uint(h.counter as u64);
    e.text(h.agent.as_str());
    assert(e@ =~= hlc_item(*h));
    e.into_bytes()
}

/// An optional 32-byte string, as an item.
pub open spec fn opt_array_item(o: Option<[u8; 32]>) -> Option<Seq<u8>> {
    match o {
        Some(a) => Some(bytes_item(a@)),
        None => None,
    }
}

/// An optional byte string, as an item.
pub open spec fn opt_bytes_item(o: Option<Vec<u8>>) -> Option<Seq<u8>> {
    match o {
        Some(v) => Some(bytes_item(v@)),
        None => None,
    }
}

/// The known fields of an attestation as map entries, ascending by key. The rung and family
/// keys follow the signature's, as the key table numbers them.
pub open spec fn attestation_fields(a: Attestation) -> Seq<(u16, Seq<u8>)> {
    seq![
        (keys::attestation::UID, uid_item(a.uid)),
        (keys::attestation::AGENT, text_item(a.agent@)),
        (keys::attestation::HOP, head_bytes(major::UINT, a.hop as u64)),
    ] + uid_set_entry(keys::attestation::PARENTS, a.parents@) + seq![
        (keys::attestation::TS, hlc_item(a.ts)),
        (keys::attestation::OP, head_bytes(major::UINT, a.op.code_view() as u64)),
    ] + opt_entry(keys::attestation::RECIPE, opt_array_item(a.recipe)) + opt_entry(
        keys::attestation::SIG,
        opt_bytes_item(a.sig),
    ) + seq![(keys::attestation::RUNG, head_bytes(major::UINT, a.rung.code_view() as u64))] + opt_entry(
        keys::attestation::FAMILY,
        opt_array_item(a.family),
    )
}

/// The canonical bytes of an attestation's payload.
pub open spec fn attestation_encoding(a: Attestation) -> Seq<u8> {
    map_bytes(attestation_fields(a) + extra_entries(a.extra@))
}

pub(crate) fn bytes_of(b: &[u8]) -> (r: Vec<u8>)
    ensures
        r@ == bytes_item(b@),
{
    let mut e = Enc::new();
    e.bytes(b);
    e.into_bytes()
}

/// The known fields of an attestation, added to `m`.
#[verifier::rlimit(60)]
fn put_attestation_fields(m: &mut MapBuilder, a: &Attestation)
    ensures
        final(m)@ == old(m)@ + attestation_fields(*a),
{
    let ghost m0 = old(m)@;
    let mut e = Enc::new();
    e.uid(&a.uid);
    m.put(keys::attestation::UID, e.into_bytes());
    m.put(keys::attestation::AGENT, text_bytes(a.agent.as_str()));
    m.put(keys::attestation::HOP, uint_bytes(a.hop as u64));
    let ghost p1 = seq![
        (keys::attestation::UID, uid_item(a.uid)),
        (keys::attestation::AGENT, text_item(a.agent@)),
        (keys::attestation::HOP, head_bytes(major::UINT, a.hop as u64)),
    ];
    assert(m@ =~= m0 + p1);
    m.put_uid_set(keys::attestation::PARENTS, &a.parents);
    let ghost p2 = p1 + uid_set_entry(keys::attestation::PARENTS, a.parents@);
    assert(m@ =~= m0 + p2);
    m.put(keys::attestation::TS, hlc_bytes(&a.ts));
    m.put(keys::attestation::OP, uint_bytes(a.op.as_u8() as u64));
    let ghost p3 = p2 + seq![
        (keys::attestation::TS, hlc_item(a.ts)),
        (keys::attestation::OP, head_bytes(major::UINT, a.op.code_view() as u64)),
    ];
    assert(m@ =~= m0 + p3);
    match &a.recipe {
        Some(r) => m.put(keys::attestation::RECIPE, bytes_of(r)),
        None => {},
    }
    let ghost p4 = p3 + opt_entry(keys::attestation::RECIPE, opt_array_item(a.recipe));
    assert(m@ =~= m0 + p4);
    match &a.sig {
        Some(sg) => m.put(keys::attestation::SIG, bytes_of(sg.as_slice())),
        None => {},
    }
    let ghost p5 = p4 + opt_entry(keys::attestation::SIG, opt_bytes_item(a.sig));
    assert(m@ =~= m0 + p5);
    m.put(keys::attestation::RUNG, uint_bytes(a.rung.as_u8() as u64));
    let ghost p6 = p5 + seq![(keys::attestation::RUNG, head_bytes(major::UINT, a.rung.code_view() as u64))];
    assert(m@ =~= m0 + p6);
    match &a.family {
        Some(r) => m.put(keys::attestation::FAMILY, bytes_of(r)),
        None => {},
    }
    assert(m@ =~= m0 + attestation_fields(*a));
}

/// The known fields of an attestation ascend by key and stay within its key table.
pub proof fn lemma_attestation_fields_ascend(a: Attestation)
    ensures
        keys_ascending(attestation_fields(a)),
        forall|i: int| 0 <= i < attestation_fields(a).len() ==> #[trigger] attestation_fields(a)[i].0
            <= keys::attestation::HIGHEST,
{
    let f = attestation_fields(a);
    assert forall|i: int| 0 <= i < f.len() implies #[trigger] f[i].0 <= keys::attestation::HIGHEST && (i + 1
        < f.len() ==> f[i].0 < f[i + 1].0) by {
    }
    assert forall|i: int, j: int| 0 <= i < j < f.len() implies #[trigger] f[i].0 < #[trigger] f[j].0 by {
        lemma_ascending_steps(f, i, j);
    }
}

/// The canonical bytes of an attestation's payload. Unknown keys carried from a later minor
/// version lie above the known ones.
pub fn attestation_bytes(a: &Attestation) -> (b: Vec<u8>)
    requires
        extra_above(a.extra@, keys::attestation::HIGHEST),
    ensures
        b@ == attestation_encoding(*a),
{
    let mut m = MapBuilder::new();
    put_attestation_fields(&mut m, a);
    let ghost fields = m@;
    assert(fields =~= attestation_fields(*a));
    m.put_extra(&a.extra);
    proof {
        let e = choose|e: Seq<(u16, Seq<u8>)>| extra_in_order(e, a.extra@) && m@ == fields + e;
        lemma_extra_order_unique(e, extra_entries(a.extra@), a.extra@);
        lemma_attestation_fields_ascend(*a);
        assert(keys_ascending(m@)) by {
            assert forall|i: int, j: int| 0 <= i < j < m@.len() implies #[trigger] m@[i].0 < #[trigger] m@[j].0 by {
                if j < fields.len() {
                } else if i < fields.len() {
                    assert(fields[i].0 <= keys::attestation::HIGHEST);
                    assert(a.extra@.contains_key(e[j - fields.len()].0));
                } else {
                    assert(e[i - fields.len()].0 < e[j - fields.len()].0);
                }
            }
        }
    }
    m.into_bytes()
}

/// The encoding of a step: an array of its role's code, its unit, and its note when it has one.
pub open spec fn step_item(st: Step) -> Seq<u8> {
    match st.note {
        Some(n) => head_bytes(major::ARRAY, 3) + head_bytes(major::UINT, st.role.code_view() as u64) + uid_item(st.unit)
            + text_item(n@),
        None => head_bytes(major::ARRAY, 2) + head_bytes(major::UINT, st.role.code_view() as u64) + uid_item(st.unit),
    }
}

/// A step as an item.
pub fn step_bytes(st: &Step) -> (b: Vec<u8>)
    ensures
        b@ == step_item(*st),
{
    let mut e = Enc::new();
    match &st.note {
        Some(n) => {
            e.array_head(3);
            e.uint(st.role.as_u8() as u64);
            e.uid(&st.unit);
            e.text(n.as_str());
        },
        None => {
            e.array_head(2);
            e.uint(st.role.as_u8() as u64);
            e.uid(&st.unit);
        },
    }
    assert(e@ =~= step_item(*st));
    e.into_bytes()
}

/// The steps of a thread as an array entry, omitted when there are none.
pub open spec fn steps_entry(steps: Seq<Step>) -> Seq<(u16, Seq<u8>)> {
    if steps.len() == 0 {
        Seq::empty()
    } else {
        seq![(keys::thread::STEPS, head_bytes(major::ARRAY, steps.len() as u64) + concat_items(steps.map_values(|x: Step| step_item(x))))]
    }
}

/// The known fields of a thread as map entries, ascending by key.
pub open spec fn thread_fields(t: Thread) -> Seq<(u16, Seq<u8>)> {
    seq![
        (keys::thread::ID, text_item(t.id@)),
        (keys::thread::SCHEMA, head_bytes(major::UINT, t.schema.code_view() as u64)),
        (keys::thread::OWNER, text_item(t.owner@)),
        (keys::thread::GIST, text_item(t.gist@)),
    ] + steps_entry(t.steps@) + seq![(keys::thread::TS, hlc_item(t.ts))]
}

/// The canonical bytes of a thread's payload.
pub open spec fn thread_encoding(t: Thread) -> Seq<u8> {
    map_bytes(thread_fields(t) + extra_entries(t.extra@))
}

/// The canonical bytes of a thread's payload. Unknown keys carried from a later minor version
/// lie above the known ones.
#[verifier::rlimit(40)]
pub fn thread_bytes(t: &Thread) -> (b: Vec<u8>)
    requires
        extra_above(t.extra@, keys::thread::HIGHEST),
    ensures
        b@ == thread_encoding(*t),
{
    let mut items: Vec<Vec<u8>> = Vec::new();
    let mut i: usize = 0;
    while i < t.steps.len()
        invariant
            i <= t.steps.len(),
            items@.len() == i,
            forall|j: int| 0 <= j < i ==> (#[trigger] items@[j])@ == step_item(t.steps@[j]),
        decreases t.steps.len() - i,
    {
        items.push(step_bytes(&t.steps[i]));
        i = i + 1;
    }
    let mut m = MapBuilder::new();
    m.put(keys::thread::ID, text_bytes(t.id.as_str()));
    m.put(keys::thread::SCHEMA, uint_bytes(t.schema.as_u8() as u64));
    m.put(keys::thread::OWNER, text_bytes(t.owner.as_str()));
    m.put(keys::thread::GIST, text_bytes(t.gist.as_str()));
    let ghost before = m@;
    let ghost seen = Seq::new(items@.len(), |j: int| items@[j]@);
    assert(seen =~= t.steps@.map_values(|x: Step| step_item(x)));
    m.put_array(keys::thread::STEPS, items);
    assert(m@ =~= before + steps_entry(t.steps@));
    m.put(keys::thread::TS, hlc_bytes(&t.ts));
    let ghost fields = m@;
    assert(fields =~= thread_fields(*t));
    m.put_extra(&t.extra);
    proof {
        let e = choose|e: Seq<(u16, Seq<u8>)>| extra_in_order(e, t.extra@) && m@ == fields + e;
        lemma_extra_order_unique(e, extra_entries(t.extra@), t.extra@);
        assert(keys_ascending(m@)) by {
            assert forall|i: int, j: int| 0 <= i < j < m@.len() implies #[trigger] m@[i].0 < #[trigger] m@[j].0 by {
                if j < fields.len() {
                } else if i < fields.len() {
                    assert(fields[i].0 <= keys::thread::HIGHEST);
                    assert(t.extra@.contains_key(e[j - fields.len()].0));
                } else {
                    assert(e[i - fields.len()].0 < e[j - fields.len()].0);
                }
            }
        }
    }
    m.into_bytes()
}

} // verus!
