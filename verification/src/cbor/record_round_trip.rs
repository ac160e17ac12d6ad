//! What a read gives back of a write, for the records beside units: an attestation read from
//! the bytes its writer made is that attestation again, and a thread that thread again.

use vstd::prelude::*;

use crate::cbor::decode::{
    role_of, step_at, step_view, steps_walk, thread_at, thread_schema_of, thread_value, thread_view, thread_walk,
    no_thread_fields, StepView, ThreadFields,
    att_at, att_value, att_view, att_walk, bytes32_at, hlc_at, hlc_view, no_att_fields, null_check,
    op_of, opt_array_view, opt_bytes_view, rung_of, uid_bytes, AttFields,
};
use crate::cbor::envelope::{
    bytes_item, extra_above, extra_entries, hlc_item, lemma_attestation_fields_ascend, opt_array_item, opt_bytes_item, opt_entry, attestation_encoding, attestation_fields, text_item, uid_set_entry,
    lemma_ascending_steps, step_item, steps_entry, thread_encoding, thread_fields,
};
use crate::cbor::keys;
use crate::cbor::major;
use crate::cbor::reader::skip_at;
use crate::cbor::round_trip::{
    lemma_concat_front,
    entries_map, lemma_bytes_read, lemma_entries_map_view, lemma_entry_items_concat, lemma_entry_items_len,
    lemma_expect_read, lemma_extra_list_exists, lemma_head_not_null, lemma_key_read, lemma_map_bytes_sorted,
    lemma_split, lemma_text_read, lemma_uid_bytes_same, lemma_uid_set_read, last_key, one_item, stands_at,
};
use crate::cbor::writer::{concat_items, entry_items, extra_in_order, head_bytes, keys_ascending, uid_item};
use crate::error::CodecError;
use crate::ids::{agent_ok, label_shaped, uids_sorted};
use crate::nfc::nfc_of;
use crate::types::provenance::{Attestation, Hlc, Op, Rung};
use crate::types::thread::{Role, Step, Thread, ThreadSchema};

verus! {

/// Each wire code names at most one operation.
proof fn lemma_op_code(k: Op)
    ensures
        op_of(k.code_view()) == Some(k),
{
    let j = choose|j: Op| j.code_view() == k.code_view();
    assert(j == k) by {
        match (j, k) {
            (Op::Authored, Op::Authored) => {},
            (Op::Transformed, Op::Transformed) => {},
            (Op::Imported, Op::Imported) => {},
            (Op::Attested, Op::Attested) => {},
            _ => {},
        }
    }
}

/// Each wire code names at most one rung.
proof fn lemma_rung_code(k: Rung)
    ensures
        rung_of(k.code_view()) == Some(k),
{
    let j = choose|j: Rung| j.code_view() == k.code_view();
    assert(j == k) by {
        match (j, k) {
            (Rung::Computed, Rung::Computed) => {},
            (Rung::Document, Rung::Document) => {},
            (Rung::Web, Rung::Web) => {},
            (Rung::Model, Rung::Model) => {},
            _ => {},
        }
    }
}

/// A clock reads back as itself.
pub(crate) proof fn lemma_hlc_read(h: Hlc, s: Seq<u8>, p: int)
    requires
        agent_ok(h.agent@),
        nfc_of(h.agent@) == h.agent@,
        stands_at(s, p, hlc_item(h)),
        s.len() <= usize::MAX,
    ensures
        hlc_at(s, p) == (Ok::<_, CodecError>(hlc_view(h)), p + hlc_item(h).len()),
        null_check(s, p) is None,
{
    let a = head_bytes(major::ARRAY, 3);
    let w = head_bytes(major::UINT, h.wall_ms);
    let c = head_bytes(major::UINT, h.counter as u64);
    let t = text_item(h.agent@);
    assert(hlc_item(h) == a + (w + (c + t)));
    lemma_split(s, p, a, w + (c + t));
    lemma_split(s, p + a.len(), w, c + t);
    lemma_split(s, p + a.len() + w.len(), c, t);
    lemma_expect_read(major::ARRAY, 3, s, p);
    lemma_head_not_null(major::ARRAY, 3, s, p);
    lemma_expect_read(major::UINT, h.wall_ms, s, p + a.len());
    lemma_expect_read(major::UINT, h.counter as u64, s, p + a.len() + w.len());
    lemma_text_read(h.agent@, s, p + a.len() + w.len() + c.len());
}

/// A 32-byte string reads back as itself.
proof fn lemma_bytes32_read(b: [u8; 32], s: Seq<u8>, p: int)
    requires
        stands_at(s, p, bytes_item(b@)),
        s.len() <= usize::MAX,
    ensures
        bytes32_at(s, p) == (Ok::<_, CodecError>(b@), p + bytes_item(b@).len()),
        null_check(s, p) is None,
{
    assert(b@.len() == 32);
    lemma_bytes_read(b@, s, p);
}

/// The entry the writer makes for known key `k` of an attestation: none, or one.
pub open spec fn att_seg(a: Attestation, k: int) -> Seq<(u16, Seq<u8>)> {
    if k == 0 {
        seq![(keys::attestation::UID, uid_item(a.uid))]
    } else if k == 1 {
        seq![(keys::attestation::AGENT, text_item(a.agent@))]
    } else if k == 2 {
        seq![(keys::attestation::HOP, head_bytes(major::UINT, a.hop as u64))]
    } else if k == 3 {
        uid_set_entry(keys::attestation::PARENTS, a.parents@)
    } else if k == 4 {
        seq![(keys::attestation::TS, hlc_item(a.ts))]
    } else if k == 5 {
        seq![(keys::attestation::OP, head_bytes(major::UINT, a.op.code_view() as u64))]
    } else if k == 6 {
        opt_entry(keys::attestation::RECIPE, opt_array_item(a.recipe))
    } else if k == 7 {
        opt_entry(keys::attestation::SIG, opt_bytes_item(a.sig))
    } else if k == 8 {
        seq![(keys::attestation::RUNG, head_bytes(major::UINT, a.rung.code_view() as u64))]
    } else {
        opt_entry(keys::attestation::FAMILY, opt_array_item(a.family))
    }
}

/// The entries for known keys below `k`.
pub open spec fn att_segs(a: Attestation, k: nat) -> Seq<(u16, Seq<u8>)>
    decreases k,
{
    if k == 0 {
        Seq::empty()
    } else {
        att_segs(a, (k - 1) as nat) + att_seg(a, k - 1)
    }
}

/// The fields of `a` whose keys lie below `b`, as the reader holds them once it has read that
/// far.
pub open spec fn att_below(a: Attestation, b: int) -> AttFields {
    AttFields {
        uid: if b > 0 { Some(a.uid.bytes()) } else { None },
        agent: if b > 1 { Some(a.agent@) } else { None },
        hop: if b > 2 { a.hop } else { 0 },
        parents: if b > 3 { uid_bytes(a.parents@) } else { Seq::empty() },
        ts: if b > 4 { Some(hlc_view(a.ts)) } else { None },
        op: if b > 5 { Some(a.op) } else { None },
        recipe: if b > 6 { opt_array_view(a.recipe) } else { None },
        sig: if b > 7 { opt_bytes_view(a.sig) } else { None },
        rung: if b > 8 { Some(a.rung) } else { None },
        family: if b > 9 { opt_array_view(a.family) } else { None },
        extra: Map::empty(),
    }
}

/// What the attestation writer promises the reader: valid agents whose text is in NFC, and
/// parents that form an ascending set.
pub open spec fn att_writable(a: Attestation) -> bool {
    &&& agent_ok(a.agent@)
    &&& nfc_of(a.agent@) == a.agent@
    &&& agent_ok(a.ts.agent@)
    &&& nfc_of(a.ts.agent@) == a.ts.agent@
    &&& uids_sorted(a.parents@)
}

/// Reading one entry of an attestation map.
proof fn lemma_att_walk_one(
    s: Seq<u8>,
    at: int,
    p: int,
    n: nat,
    prev: Option<u16>,
    st: AttFields,
    k: u16,
    v: Seq<u8>,
    st2: AttFields,
)
    requires
        n > 0,
        stands_at(s, p, head_bytes(major::UINT, k as u64) + v),
        prev matches Some(pk) ==> pk < k,
        null_check(s, p + head_bytes(major::UINT, k as u64).len()) is None,
        att_value(s, at, p + head_bytes(major::UINT, k as u64).len(), k, st) == (
            Ok::<AttFields, CodecError>(st2),
            p + head_bytes(major::UINT, k as u64).len() + v.len(),
        ),
    ensures
        att_walk(s, at, p, n, prev, st) == att_walk(
            s,
            at,
            p + head_bytes(major::UINT, k as u64).len() + v.len(),
            (n - 1) as nat,
            Some(k),
            st2,
        ),
{
    reveal(att_walk);
    lemma_split(s, p, head_bytes(major::UINT, k as u64), v);
    lemma_key_read(k, prev, s, p);
}

/// Reading the entry for known key `k`, if the attestation has one, takes the reader from the
/// fields below `k` to the fields below `k + 1`.
#[verifier::rlimit(60)]
proof fn lemma_att_seg(a: Attestation, s: Seq<u8>, at: int, p: int, n: nat, prev: Option<u16>, k: int)
    requires
        0 <= k <= 9,
        att_writable(a),
        n >= att_seg(a, k).len(),
        stands_at(s, p, entry_items(att_seg(a, k))),
        s.len() <= usize::MAX,
        prev matches Some(pk) ==> pk < k,
    ensures
        att_walk(s, at, p, n, prev, att_below(a, k)) == att_walk(
            s,
            at,
            p + entry_items(att_seg(a, k)).len(),
            (n - att_seg(a, k).len()) as nat,
            if att_seg(a, k).len() == 0 { prev } else { Some(k as u16) },
            att_below(a, k + 1),
        ),
{
    let e = att_seg(a, k);
    if e.len() == 0 {
        assert(entry_items(e) =~= Seq::<u8>::empty());
        if k == 3 {
            assert(uid_bytes(a.parents@) =~= Seq::<Seq<u8>>::empty());
        }
        assert(att_below(a, k) == att_below(a, k + 1));
    } else {
        let kk = k as u16;
        let v = e[0].1;
        assert(e.drop_last() =~= Seq::<(u16, Seq<u8>)>::empty());
        assert(entry_items(Seq::<(u16, Seq<u8>)>::empty()) =~= Seq::<u8>::empty());
        assert(entry_items(e) =~= head_bytes(major::UINT, kk as u64) + v);
        let hk = head_bytes(major::UINT, kk as u64);
        lemma_split(s, p, hk, v);
        let p1 = p + hk.len();
        if k == 0 {
            crate::ids::lemma_uid_bytes_len(a.uid);
            lemma_bytes_read(a.uid.bytes(), s, p1);
            assert(bytes_item(a.uid.bytes()) == uid_item(a.uid));
        } else if k == 1 {
            lemma_text_read(a.agent@, s, p1);
        } else if k == 2 || k == 5 || k == 8 {
            let c: u64 = if k == 2 {
                a.hop as u64
            } else if k == 5 {
                a.op.code_view() as u64
            } else {
                a.rung.code_view() as u64
            };
            lemma_expect_read(major::UINT, c, s, p1);
            lemma_head_not_null(major::UINT, c, s, p1);
            lemma_op_code(a.op);
            lemma_rung_code(a.rung);
        } else if k == 3 {
            lemma_uid_set_read(a.parents@, s, p1);
            lemma_uid_bytes_same(a.parents@);
        } else if k == 4 {
            lemma_hlc_read(a.ts, s, p1);
        } else if k == 6 {
            lemma_bytes32_read(a.recipe->Some_0, s, p1);
        } else if k == 7 {
            lemma_bytes_read(a.sig->Some_0@, s, p1);
        } else {
            lemma_bytes32_read(a.family->Some_0, s, p1);
        }
        reveal(att_value);
        assert(att_value(s, at, p1, kk, att_below(a, k)) == (
            Ok::<AttFields, CodecError>(att_below(a, k + 1)),
            p1 + v.len(),
        ));
        lemma_att_walk_one(s, at, p, n, prev, att_below(a, k), kk, v, att_below(a, k + 1));
    }
}

/// Reading the entries for the known keys below `k` takes the reader from no fields to the
/// fields below `k`.
proof fn lemma_att_prefix(a: Attestation, s: Seq<u8>, at: int, q0: int, n: nat, k: nat)
    requires
        k <= 10,
        att_writable(a),
        n >= att_segs(a, k).len(),
        stands_at(s, q0, entry_items(att_segs(a, k))),
        s.len() <= usize::MAX,
    ensures
        att_walk(s, at, q0, n, None, att_below(a, 0)) == att_walk(
            s,
            at,
            q0 + entry_items(att_segs(a, k)).len(),
            (n - att_segs(a, k).len()) as nat,
            last_key(att_segs(a, k)),
            att_below(a, k as int),
        ),
        last_key(att_segs(a, k)) matches Some(x) ==> x < k,
    decreases k,
{
    if k > 0 {
        let j = (k - 1) as nat;
        let x = att_segs(a, j);
        let y = att_seg(a, j as int);
        assert(att_segs(a, k) == x + y);
        lemma_entry_items_concat(x, y);
        lemma_split(s, q0, entry_items(x), entry_items(y));
        lemma_att_prefix(a, s, at, q0, n, j);
        lemma_att_seg(a, s, at, q0 + entry_items(x).len(), (n - x.len()) as nat, last_key(x), j as int);
        if y.len() == 0 {
            assert(x + y =~= x);
        } else {
            assert((x + y).last() == y.last());
        }
    } else {
        assert(entry_items(att_segs(a, 0)) =~= Seq::<u8>::empty());
    }
}

/// Reading the unknown keys of an attestation keeps each value verbatim.
#[verifier::rlimit(60)]
proof fn lemma_att_extra_walk(
    s: Seq<u8>,
    at: int,
    p: int,
    x: Seq<(u16, Seq<u8>)>,
    j: int,
    base: AttFields,
    prev: Option<u16>,
)
    requires
        0 <= j <= x.len(),
        keys_ascending(x),
        forall|i: int| 0 <= i < x.len() ==> (#[trigger] x[i]).0 > keys::attestation::HIGHEST && one_item(x[i].1),
        stands_at(s, p, entry_items(x.skip(j))),
        j > 0 ==> prev == Some(x[j - 1].0),
        j == 0 ==> (prev matches Some(pk) ==> pk <= keys::attestation::HIGHEST),
    ensures
        att_walk(s, at, p, (x.len() - j) as nat, prev, AttFields { extra: entries_map(x.take(j)), ..base }) == (
            Ok::<AttFields, CodecError>(AttFields { extra: entries_map(x), ..base }),
            p + entry_items(x.skip(j)).len(),
        ),
    decreases x.len() - j,
{
    if j == x.len() {
        reveal(att_walk);
        assert(x.take(j) =~= x);
        assert(entry_items(x.skip(j)) =~= Seq::<u8>::empty()) by {
            assert(x.skip(j) =~= Seq::<(u16, Seq<u8>)>::empty());
        }
    } else {
        let (k, v) = x[j];
        assert(x.skip(j) =~= seq![x[j]] + x.skip(j + 1));
        lemma_entry_items_concat(seq![x[j]], x.skip(j + 1));
        assert(seq![x[j]].drop_last() =~= Seq::<(u16, Seq<u8>)>::empty());
        assert(entry_items(Seq::<(u16, Seq<u8>)>::empty()) =~= Seq::<u8>::empty());
        assert(entry_items(seq![x[j]]) =~= head_bytes(major::UINT, k as u64) + v);
        lemma_split(s, p, entry_items(seq![x[j]]), entry_items(x.skip(j + 1)));
        let hk = head_bytes(major::UINT, k as u64);
        lemma_split(s, p, hk, v);
        let p1 = p + hk.len();
        let pre = s.take(p1);
        let w = s.skip(p1 + v.len());
        assert(s =~= pre + v + w);
        assert(skip_at(pre + v + w, pre.len() as int, 0) == (Ok::<(), CodecError>(()), (pre.len() + v.len()) as int));
        assert(s.subrange(p1, p1 + v.len()) == v);
        let st = AttFields { extra: entries_map(x.take(j)), ..base };
        let st2 = AttFields { extra: entries_map(x.take(j + 1)), ..base };
        assert(x.take(j + 1).drop_last() =~= x.take(j));
        assert(entries_map(x.take(j + 1)) == entries_map(x.take(j)).insert(k, v));
        assert(att_value(s, at, p1, k, st) == (Ok::<AttFields, CodecError>(st2), p1 + v.len())) by {
            reveal(att_value);
        }
        if j > 0 {
            assert(x[j - 1].0 < x[j].0);
        }
        lemma_att_walk_one(s, at, p, (x.len() - j) as nat, prev, st, k, v, st2);
        lemma_att_extra_walk(s, at, p1 + v.len(), x, j + 1, base, Some(k));
    }
}

/// The known fields of an attestation are the entries for its keys, in key order.
proof fn lemma_att_fields_are_segs(a: Attestation)
    ensures
        attestation_fields(a) == att_segs(a, 10),
{
    reveal_with_fuel(att_segs, 11);
    assert(attestation_fields(a) =~= att_segs(a, 10));
}

/// What a read gives back of a write, for attestations: handed the canonical bytes of an
/// attestation, the reader reads back that same attestation and stops where its bytes end.
/// Its agents are valid and in NFC, its parents an ascending set, and each unknown key's value
/// one complete item above the known keys.
pub proof fn lemma_attestation_round_trip(a: Attestation, s: Seq<u8>, p: int)
    requires
        att_writable(a),
        extra_above(a.extra@, keys::attestation::HIGHEST),
        forall|k: u16| a.extra@.contains_key(k) ==> one_item(#[trigger] a.extra@[k]@),
        stands_at(s, p, attestation_encoding(a)),
        s.len() <= usize::MAX,
    ensures
        att_at(s, p) == (Ok::<_, CodecError>(att_view(a)), p + attestation_encoding(a).len()),
{
    let m = a.extra@;
    vstd::std_specs::btree::axiom_btree_map_view_finite_dom(a.extra);
    lemma_extra_list_exists(m);
    let x = extra_entries(m);
    assert(extra_in_order(x, m));
    let f = attestation_fields(a);
    lemma_att_fields_are_segs(a);
    lemma_attestation_fields_ascend(a);
    let e = f + x;
    assert forall|i: int, j: int| 0 <= i < j < e.len() implies #[trigger] e[i].0 < #[trigger] e[j].0 by {
        if j < f.len() {
        } else if i < f.len() {
            assert(m.contains_key(x[j - f.len()].0));
            assert(f[i].0 <= keys::attestation::HIGHEST);
        } else {
            assert(x[i - f.len()].0 < x[j - f.len()].0);
        }
    }
    lemma_map_bytes_sorted(e);
    lemma_entry_items_concat(f, x);
    let h = head_bytes(major::MAP, e.len() as u64);
    assert(attestation_encoding(a) == h + (entry_items(f) + entry_items(x)));
    lemma_split(s, p, h, entry_items(f) + entry_items(x));
    let q0 = p + h.len();
    lemma_split(s, q0, entry_items(f), entry_items(x));
    lemma_entry_items_len(e);
    assert(e.len() <= usize::MAX);
    lemma_expect_read(major::MAP, e.len() as u64, s, p);
    let n = e.len() as nat;
    lemma_att_prefix(a, s, p, q0, n, 10);
    assert(att_below(a, 0) == no_att_fields());
    let q1 = q0 + entry_items(f).len();
    let base = att_below(a, 10);
    assert forall|i: int| 0 <= i < x.len() implies (#[trigger] x[i]).0 > keys::attestation::HIGHEST && one_item(
        x[i].1,
    ) by {
        assert(m.contains_key(x[i].0));
        assert(m[x[i].0]@ == x[i].1);
    }
    assert(x.skip(0) =~= x);
    assert(x.take(0) =~= Seq::<(u16, Seq<u8>)>::empty());
    assert(entries_map(Seq::<(u16, Seq<u8>)>::empty()) =~= Map::<u16, Seq<u8>>::empty());
    assert(AttFields { extra: entries_map(x.take(0)), ..base } == base);
    lemma_att_extra_walk(s, p, q1, x, 0, base, last_key(f));
    lemma_entries_map_view(x, m);
}

/// Each wire code names at most one role.
proof fn lemma_role_code(k: Role)
    ensures
        role_of(k.code_view()) == Some(k),
{
    let j = choose|j: Role| j.code_view() == k.code_view();
    assert(j == k) by {
        match (j, k) {
            (Role::Context, Role::Context) => {},
            (Role::Tension, Role::Tension) => {},
            (Role::Approach, Role::Approach) => {},
            (Role::Finding, Role::Finding) => {},
            (Role::Rebuttal, Role::Rebuttal) => {},
            (Role::Implication, Role::Implication) => {},
            (Role::Next, Role::Next) => {},
            (Role::Setup, Role::Setup) => {},
            (Role::Complication, Role::Complication) => {},
            (Role::Turn, Role::Turn) => {},
            (Role::Resolution, Role::Resolution) => {},
            (Role::Coda, Role::Coda) => {},
            (Role::BottomLine, Role::BottomLine) => {},
            (Role::Support, Role::Support) => {},
            (Role::Risk, Role::Risk) => {},
            (Role::Ask, Role::Ask) => {},
            (Role::Question, Role::Question) => {},
            (Role::Evidence, Role::Evidence) => {},
            (Role::Answer, Role::Answer) => {},
            (Role::Caveat, Role::Caveat) => {},
            (Role::Goal, Role::Goal) => {},
            (Role::Constraint, Role::Constraint) => {},
            (Role::Step, Role::Step) => {},
            (Role::Decision, Role::Decision) => {},
            _ => {},
        }
    }
}

/// Each wire code names at most one thread schema.
proof fn lemma_thread_schema_code(k: ThreadSchema)
    ensures
        thread_schema_of(k.code_view()) == Some(k),
{
    let j = choose|j: ThreadSchema| j.code_view() == k.code_view();
    assert(j == k) by {
        match (j, k) {
            (ThreadSchema::Analysis, ThreadSchema::Analysis) => {},
            (ThreadSchema::Narrative, ThreadSchema::Narrative) => {},
            (ThreadSchema::Brief, ThreadSchema::Brief) => {},
            (ThreadSchema::Qa, ThreadSchema::Qa) => {},
            (ThreadSchema::Plan, ThreadSchema::Plan) => {},
            _ => {},
        }
    }
}

/// A step's note, where it has one, is in NFC.
pub open spec fn step_writable(st: Step) -> bool {
    st.note matches Some(n) ==> nfc_of(n@) == n@
}

/// A step reads back as itself.
proof fn lemma_step_read(st: Step, s: Seq<u8>, p: int)
    requires
        step_writable(st),
        stands_at(s, p, step_item(st)),
        s.len() <= usize::MAX,
    ensures
        step_at(s, p) == (Ok::<_, CodecError>(step_view(st)), p + step_item(st).len()),
{
    let c = st.role.code_view();
    let hr = head_bytes(major::UINT, c as u64);
    let ui = uid_item(st.unit);
    crate::ids::lemma_uid_bytes_len(st.unit);
    assert(bytes_item(st.unit.bytes()) == ui);
    lemma_role_code(st.role);
    match st.note {
        Some(n) => {
            let h = head_bytes(major::ARRAY, 3);
            assert(step_item(st) == h + (hr + (ui + text_item(n@))));
            lemma_split(s, p, h, hr + (ui + text_item(n@)));
            lemma_split(s, p + h.len(), hr, ui + text_item(n@));
            lemma_split(s, p + h.len() + hr.len(), ui, text_item(n@));
            lemma_expect_read(major::ARRAY, 3, s, p);
            lemma_expect_read(major::UINT, c as u64, s, p + h.len());
            lemma_bytes_read(st.unit.bytes(), s, p + h.len() + hr.len());
            lemma_text_read(n@, s, p + h.len() + hr.len() + ui.len());
        },
        None => {
            let h = head_bytes(major::ARRAY, 2);
            assert(step_item(st) == h + (hr + ui));
            lemma_split(s, p, h, hr + ui);
            lemma_split(s, p + h.len(), hr, ui);
            lemma_expect_read(major::ARRAY, 2, s, p);
            lemma_expect_read(major::UINT, c as u64, s, p + h.len());
            lemma_bytes_read(st.unit.bytes(), s, p + h.len() + hr.len());
        },
    }
}

/// The steps from `j` on read back as themselves, in order.
proof fn lemma_steps_walk(sts: Seq<Step>, j: int, s: Seq<u8>, p: int)
    requires
        0 <= j <= sts.len(),
        forall|i: int| 0 <= i < sts.len() ==> step_writable(#[trigger] sts[i]),
        stands_at(s, p, concat_items(sts.skip(j).map_values(|x: Step| step_item(x)))),
        s.len() <= usize::MAX,
    ensures
        steps_walk(s, p, (sts.len() - j) as nat) == (
            Ok::<_, CodecError>(sts.skip(j).map_values(|x: Step| step_view(x))),
            p + concat_items(sts.skip(j).map_values(|x: Step| step_item(x))).len(),
        ),
    decreases sts.len() - j,
{
    let items = sts.skip(j).map_values(|x: Step| step_item(x));
    if j == sts.len() {
        assert(items =~= Seq::<Seq<u8>>::empty());
        assert(sts.skip(j).map_values(|x: Step| step_view(x)) =~= Seq::<StepView>::empty());
    } else {
        let st = sts[j];
        let rest = sts.skip(j + 1).map_values(|x: Step| step_item(x));
        assert(items =~= seq![step_item(st)] + rest);
        lemma_concat_front(step_item(st), rest);
        lemma_split(s, p, step_item(st), concat_items(rest));
        lemma_step_read(st, s, p);
        lemma_steps_walk(sts, j + 1, s, p + step_item(st).len());
        assert(sts.skip(j).map_values(|x: Step| step_view(x)) =~= seq![step_view(st)] + sts.skip(j + 1).map_values(
            |x: Step| step_view(x),
        ));
    }
}

/// The entry the writer makes for known key `k` of a thread: none, or one.
pub open spec fn thread_seg(t: Thread, k: int) -> Seq<(u16, Seq<u8>)> {
    if k == 0 {
        seq![(keys::thread::ID, text_item(t.id@))]
    } else if k == 1 {
        seq![(keys::thread::SCHEMA, head_bytes(major::UINT, t.schema.code_view() as u64))]
    } else if k == 2 {
        seq![(keys::thread::OWNER, text_item(t.owner@))]
    } else if k == 3 {
        seq![(keys::thread::GIST, text_item(t.gist@))]
    } else if k == 4 {
        steps_entry(t.steps@)
    } else {
        seq![(keys::thread::TS, hlc_item(t.ts))]
    }
}

/// The entries for known keys below `k`.
pub open spec fn thread_segs(t: Thread, k: nat) -> Seq<(u16, Seq<u8>)>
    decreases k,
{
    if k == 0 {
        Seq::empty()
    } else {
        thread_segs(t, (k - 1) as nat) + thread_seg(t, k - 1)
    }
}

/// The fields of `t` whose keys lie below `b`, as the reader holds them once it has read that
/// far.
pub open spec fn thread_below(t: Thread, b: int) -> ThreadFields {
    ThreadFields {
        id: if b > 0 { Some(t.id@) } else { None },
        schema: if b > 1 { Some(t.schema) } else { None },
        owner: if b > 2 { Some(t.owner@) } else { None },
        gist: if b > 3 { Some(t.gist@) } else { None },
        steps: if b > 4 { t.steps@.map_values(|x: Step| step_view(x)) } else { Seq::empty() },
        ts: if b > 5 { Some(hlc_view(t.ts)) } else { None },
        extra: Map::empty(),
    }
}

/// What the thread writer promises the reader: a well-formed id, valid agents, and text in
/// NFC, step notes included.
pub open spec fn thread_writable(t: Thread) -> bool {
    &&& label_shaped(t.id@)
    &&& nfc_of(t.id@) == t.id@
    &&& agent_ok(t.owner@)
    &&& nfc_of(t.owner@) == t.owner@
    &&& nfc_of(t.gist@) == t.gist@
    &&& agent_ok(t.ts.agent@)
    &&& nfc_of(t.ts.agent@) == t.ts.agent@
    &&& forall|i: int| 0 <= i < t.steps@.len() ==> step_writable(#[trigger] t.steps@[i])
}

/// Reading one entry of a thread map.
proof fn lemma_thread_walk_one(
    s: Seq<u8>,
    at: int,
    p: int,
    n: nat,
    prev: Option<u16>,
    st: ThreadFields,
    k: u16,
    v: Seq<u8>,
    st2: ThreadFields,
)
    requires
        n > 0,
        stands_at(s, p, head_bytes(major::UINT, k as u64) + v),
        prev matches Some(pk) ==> pk < k,
        null_check(s, p + head_bytes(major::UINT, k as u64).len()) is None,
        thread_value(s, at, p + head_bytes(major::UINT, k as u64).len(), k, st) == (
            Ok::<ThreadFields, CodecError>(st2),
            p + head_bytes(major::UINT, k as u64).len() + v.len(),
        ),
    ensures
        thread_walk(s, at, p, n, prev, st) == thread_walk(
            s,
            at,
            p + head_bytes(major::UINT, k as u64).len() + v.len(),
            (n - 1) as nat,
            Some(k),
            st2,
        ),
{
    reveal(thread_walk);
    lemma_split(s, p, head_bytes(major::UINT, k as u64), v);
    lemma_key_read(k, prev, s, p);
}

/// Reading the entry for known key `k`, if the thread has one, takes the reader from the
/// fields below `k` to the fields below `k + 1`.
#[verifier::rlimit(60)]
proof fn lemma_thread_seg(t: Thread, s: Seq<u8>, at: int, p: int, n: nat, prev: Option<u16>, k: int)
    requires
        0 <= k <= 5,
        thread_writable(t),
        n >= thread_seg(t, k).len(),
        stands_at(s, p, entry_items(thread_seg(t, k))),
        s.len() <= usize::MAX,
        prev matches Some(pk) ==> pk < k,
    ensures
        thread_walk(s, at, p, n, prev, thread_below(t, k)) == thread_walk(
            s,
            at,
            p + entry_items(thread_seg(t, k)).len(),
            (n - thread_seg(t, k).len()) as nat,
            if thread_seg(t, k).len() == 0 { prev } else { Some(k as u16) },
            thread_below(t, k + 1),
        ),
{
    let e = thread_seg(t, k);
    if e.len() == 0 {
        assert(entry_items(e) =~= Seq::<u8>::empty());
        assert(t.steps@.map_values(|x: Step| step_view(x)) =~= Seq::<StepView>::empty());
        assert(thread_below(t, k) == thread_below(t, k + 1));
    } else {
        let kk = k as u16;
        let v = e[0].1;
        assert(e.drop_last() =~= Seq::<(u16, Seq<u8>)>::empty());
        assert(entry_items(Seq::<(u16, Seq<u8>)>::empty()) =~= Seq::<u8>::empty());
        assert(entry_items(e) =~= head_bytes(major::UINT, kk as u64) + v);
        let hk = head_bytes(major::UINT, kk as u64);
        lemma_split(s, p, hk, v);
        let p1 = p + hk.len();
        if k == 0 || k == 2 || k == 3 {
            let x = if k == 0 {
                t.id@
            } else if k == 2 {
                t.owner@
            } else {
                t.gist@
            };
            lemma_text_read(x, s, p1);
        } else if k == 1 {
            lemma_expect_read(major::UINT, t.schema.code_view() as u64, s, p1);
            lemma_head_not_null(major::UINT, t.schema.code_view() as u64, s, p1);
            lemma_thread_schema_code(t.schema);
        } else if k == 4 {
            let sts = t.steps@;
            assert(sts.len() <= usize::MAX) by {
                assert(t.steps.len() == sts.len());
            }
            let items = sts.map_values(|x: Step| step_item(x));
            let h = head_bytes(major::ARRAY, sts.len() as u64);
            assert(v == h + concat_items(items));
            lemma_split(s, p1, h, concat_items(items));
            lemma_expect_read(major::ARRAY, sts.len() as u64, s, p1);
            lemma_head_not_null(major::ARRAY, sts.len() as u64, s, p1);
            assert(sts.skip(0) =~= sts);
            lemma_steps_walk(sts, 0, s, p1 + h.len());
        } else {
            lemma_hlc_read(t.ts, s, p1);
        }
        reveal(thread_value);
        assert(thread_value(s, at, p1, kk, thread_below(t, k)) == (
            Ok::<ThreadFields, CodecError>(thread_below(t, k + 1)),
            p1 + v.len(),
        ));
        lemma_thread_walk_one(s, at, p, n, prev, thread_below(t, k), kk, v, thread_below(t, k + 1));
    }
}

/// Reading the entries for the known keys below `k` takes the reader from no fields to the
/// fields below `k`.
proof fn lemma_thread_prefix(t: Thread, s: Seq<u8>, at: int, q0: int, n: nat, k: nat)
    requires
        k <= 6,
        thread_writable(t),
        n >= thread_segs(t, k).len(),
        stands_at(s, q0, entry_items(thread_segs(t, k))),
        s.len() <= usize::MAX,
    ensures
        thread_walk(s, at, q0, n, None, thread_below(t, 0)) == thread_walk(
            s,
            at,
            q0 + entry_items(thread_segs(t, k)).len(),
            (n - thread_segs(t, k).len()) as nat,
            last_key(thread_segs(t, k)),
            thread_below(t, k as int),
        ),
        last_key(thread_segs(t, k)) matches Some(x) ==> x < k,
    decreases k,
{
    if k > 0 {
        let j = (k - 1) as nat;
        let x = thread_segs(t, j);
        let y = thread_seg(t, j as int);
        assert(thread_segs(t, k) == x + y);
        lemma_entry_items_concat(x, y);
        lemma_split(s, q0, entry_items(x), entry_items(y));
        lemma_thread_prefix(t, s, at, q0, n, j);
        lemma_thread_seg(t, s, at, q0 + entry_items(x).len(), (n - x.len()) as nat, last_key(x), j as int);
        if y.len() == 0 {
            assert(x + y =~= x);
        } else {
            assert((x + y).last() == y.last());
        }
    } else {
        assert(entry_items(thread_segs(t, 0)) =~= Seq::<u8>::empty());
    }
}

/// Reading the unknown keys of a thread keeps each value verbatim.
#[verifier::rlimit(60)]
proof fn lemma_thread_extra_walk(
    s: Seq<u8>,
    at: int,
    p: int,
    x: Seq<(u16, Seq<u8>)>,
    j: int,
    base: ThreadFields,
    prev: Option<u16>,
)
    requires
        0 <= j <= x.len(),
        keys_ascending(x),
        forall|i: int| 0 <= i < x.len() ==> (#[trigger] x[i]).0 > keys::thread::HIGHEST && one_item(x[i].1),
        stands_at(s, p, entry_items(x.skip(j))),
        j > 0 ==> prev == Some(x[j - 1].0),
        j == 0 ==> (prev matches Some(pk) ==> pk <= keys::thread::HIGHEST),
    ensures
        thread_walk(s, at, p, (x.len() - j) as nat, prev, ThreadFields { extra: entries_map(x.take(j)), ..base }) == (
            Ok::<ThreadFields, CodecError>(ThreadFields { extra: entries_map(x), ..base }),
            p + entry_items(x.skip(j)).len(),
        ),
    decreases x.len() - j,
{
    if j == x.len() {
        reveal(thread_walk);
        assert(x.take(j) =~= x);
        assert(entry_items(x.skip(j)) =~= Seq::<u8>::empty()) by {
            assert(x.skip(j) =~= Seq::<(u16, Seq<u8>)>::empty());
        }
    } else {
        let (k, v) = x[j];
        assert(x.skip(j) =~= seq![x[j]] + x.skip(j + 1));
        lemma_entry_items_concat(seq![x[j]], x.skip(j + 1));
        assert(seq![x[j]].drop_last() =~= Seq::<(u16, Seq<u8>)>::empty());
        assert(entry_items(Seq::<(u16, Seq<u8>)>::empty()) =~= Seq::<u8>::empty());
        assert(entry_items(seq![x[j]]) =~= head_bytes(major::UINT, k as u64) + v);
        lemma_split(s, p, entry_items(seq![x[j]]), entry_items(x.skip(j + 1)));
        let hk = head_bytes(major::UINT, k as u64);
        lemma_split(s, p, hk, v);
        let p1 = p + hk.len();
        let pre = s.take(p1);
        let w = s.skip(p1 + v.len());
        assert(s =~= pre + v + w);
        assert(skip_at(pre + v + w, pre.len() as int, 0) == (Ok::<(), CodecError>(()), (pre.len() + v.len()) as int));
        assert(s.subrange(p1, p1 + v.len()) == v);
        let st = ThreadFields { extra: entries_map(x.take(j)), ..base };
        let st2 = ThreadFields { extra: entries_map(x.take(j + 1)), ..base };
        assert(x.take(j + 1).drop_last() =~= x.take(j));
        assert(entries_map(x.take(j + 1)) == entries_map(x.take(j)).insert(k, v));
        assert(thread_value(s, at, p1, k, st) == (Ok::<ThreadFields, CodecError>(st2), p1 + v.len())) by {
            reveal(thread_value);
        }
        if j > 0 {
            assert(x[j - 1].0 < x[j].0);
        }
        lemma_thread_walk_one(s, at, p, (x.len() - j) as nat, prev, st, k, v, st2);
        lemma_thread_extra_walk(s, at, p1 + v.len(), x, j + 1, base, Some(k));
    }
}

/// The known fields of a thread are the entries for its keys, in key order, ascending and
/// within its key table.
proof fn lemma_thread_fields_are_segs(t: Thread)
    ensures
        thread_fields(t) == thread_segs(t, 6),
        keys_ascending(thread_fields(t)),
        forall|i: int| 0 <= i < thread_fields(t).len() ==> #[trigger] thread_fields(t)[i].0 <= keys::thread::HIGHEST,
{
    reveal_with_fuel(thread_segs, 7);
    assert(thread_fields(t) =~= thread_segs(t, 6));
    let f = thread_fields(t);
    assert forall|i: int| 0 <= i < f.len() implies #[trigger] f[i].0 <= keys::thread::HIGHEST && (i + 1 < f.len()
        ==> f[i].0 < f[i + 1].0) by {
    }
    assert forall|i: int, j: int| 0 <= i < j < f.len() implies #[trigger] f[i].0 < #[trigger] f[j].0 by {
        lemma_ascending_steps(f, i, j);
    }
}

/// What a read gives back of a write, for threads: handed the canonical bytes of a thread, the
/// reader reads back that same thread, its steps in their authored order with their notes, and
/// stops where its bytes end. Its id is well formed, its agents valid, its text in NFC, and
/// each unknown key's value one complete item above the known keys.
pub proof fn lemma_thread_round_trip(t: Thread, s: Seq<u8>, p: int)
    requires
        thread_writable(t),
        extra_above(t.extra@, keys::thread::HIGHEST),
        forall|k: u16| t.extra@.contains_key(k) ==> one_item(#[trigger] t.extra@[k]@),
        stands_at(s, p, thread_encoding(t)),
        s.len() <= usize::MAX,
    ensures
        thread_at(s, p) == (Ok::<_, CodecError>(thread_view(t)), p + thread_encoding(t).len()),
{
    let m = t.extra@;
    vstd::std_specs::btree::axiom_btree_map_view_finite_dom(t.extra);
    lemma_extra_list_exists(m);
    let x = extra_entries(m);
    assert(extra_in_order(x, m));
    let f = thread_fields(t);
    lemma_thread_fields_are_segs(t);
    let e = f + x;
    assert forall|i: int, j: int| 0 <= i < j < e.len() implies #[trigger] e[i].0 < #[trigger] e[j].0 by {
        if j < f.len() {
        } else if i < f.len() {
            assert(m.contains_key(x[j - f.len()].0));
            assert(f[i].0 <= keys::thread::HIGHEST);
        } else {
            assert(x[i - f.len()].0 < x[j - f.len()].0);
        }
    }
    lemma_map_bytes_sorted(e);
    lemma_entry_items_concat(f, x);
    let h = head_bytes(major::MAP, e.len() as u64);
    assert(thread_encoding(t) == h + (entry_items(f) + entry_items(x)));
    lemma_split(s, p, h, entry_items(f) + entry_items(x));
    let q0 = p + h.len();
    lemma_split(s, q0, entry_items(f), entry_items(x));
    lemma_entry_items_len(e);
    assert(e.len() <= usize::MAX);
    lemma_expect_read(major::MAP, e.len() as u64, s, p);
    let n = e.len() as nat;
    lemma_thread_prefix(t, s, p, q0, n, 6);
    assert(thread_below(t, 0) == no_thread_fields());
    let q1 = q0 + entry_items(f).len();
    let base = thread_below(t, 6);
    assert forall|i: int| 0 <= i < x.len() implies (#[trigger] x[i]).0 > keys::thread::HIGHEST && one_item(x[i].1) by {
        assert(m.contains_key(x[i].0));
        assert(m[x[i].0]@ == x[i].1);
    }
    assert(x.skip(0) =~= x);
    assert(x.take(0) =~= Seq::<(u16, Seq<u8>)>::empty());
    assert(entries_map(Seq::<(u16, Seq<u8>)>::empty()) =~= Map::<u16, Seq<u8>>::empty());
    assert(ThreadFields { extra: entries_map(x.take(0)), ..base } == base);
    lemma_thread_extra_walk(s, p, q1, x, 0, base, last_key(f));
    lemma_entries_map_view(x, m);
}

} // verus!
