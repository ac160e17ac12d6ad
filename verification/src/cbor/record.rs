//! Records on the wire: `[ type_code, payload ]`, one after another in a store. A record type
//! this build does not know is kept with its payload bytes exactly as they came.

use vstd::prelude::*;

use crate::cbor::decode::{att_at, att_view, bad, dec_attestation, dec_thread, dec_unit, malformed, thread_at, thread_view, unit_at, unit_view};
use crate::cbor::envelope::{
    attestation_bytes, attestation_encoding, extra_above, thread_bytes, thread_encoding, unit_core_bytes, unit_core_encoding,
};
use crate::cbor::keys;
use crate::cbor::major;
use crate::cbor::packinfo::{dec_packinfo, packinfo_at, packinfo_bytes, packinfo_encoding, packinfo_view};
use crate::cbor::payloads::{
    contention_bytes, contention_encoding, label_binding_bytes, label_binding_encoding, schema_decl_bytes,
    schema_decl_encoding, view_bytes, view_encoding,
};
use crate::cbor::read_payloads::{
    contention_at, contention_view, dec_contention, dec_label_binding, dec_schema_decl, dec_view, label_binding_at,
    label_binding_view, schema_decl_at, schema_decl_read, view_at, view_view,
};
use crate::cbor::reader::{expect_at, skip_at, Dec};
use crate::cbor::relation::{
    dec_relation, lemma_relation_round_trip, relation_at, relation_bytes, relation_encoding, relation_read, relation_view,
    relation_writable,
};
use crate::cbor::writer::{head_bytes, Enc};
use crate::cbor::record_round_trip::{att_writable, lemma_attestation_round_trip, lemma_thread_round_trip, thread_writable};
use crate::cbor::round_trip::{lemma_expect_read, lemma_split, lemma_unit_core_round_trip, one_item, stands_at, writable};
use crate::cbor::view_round_trip::{lemma_view_round_trip, view_writable};
use crate::cbor::annex_round_trip::{lemma_contention_round_trip, lemma_label_binding_round_trip};
use crate::cbor::schema_decl_round_trip::{lemma_schema_decl_round_trip, schema_decl_view, schema_decl_writable};
use crate::ids::{agent_ok, label_shaped};
use crate::nfc::nfc_of;
use crate::cbor::packinfo_round_trip::{lemma_packinfo_round_trip, packinfo_writable};
use crate::error::CodecError;
use crate::types::record::code;
use crate::types::record::Record;

verus! {

/// The canonical bytes of a record's payload.
pub open spec fn payload_encoding(r: Record) -> Seq<u8> {
    match r {
        Record::Unit(u) => unit_core_encoding(u),
        Record::Attestation(a) => attestation_encoding(a),
        Record::Relation(x) => relation_encoding(x),
        Record::Thread(t) => thread_encoding(t),
        Record::View(v) => view_encoding(v),
        Record::Contention(c) => contention_encoding(c),
        Record::PackInfo(p) => packinfo_encoding(p),
        Record::SchemaDecl(d) => schema_decl_encoding(d),
        Record::LabelBinding(b) => label_binding_encoding(b),
        Record::Unknown { payload, .. } => payload@,
    }
}

/// What the payload writers ask of a record: its unknown keys lie above its known ones, and a
/// view's sets are in canonical form.
pub open spec fn record_writable(r: Record) -> bool {
    match r {
        Record::Unit(u) => extra_above(u.extra@, keys::unit::HIGHEST),
        Record::Attestation(a) => extra_above(a.extra@, keys::attestation::HIGHEST),
        Record::Relation(x) => extra_above(x.extra@, keys::relation::HIGHEST),
        Record::Thread(t) => extra_above(t.extra@, keys::thread::HIGHEST),
        Record::View(v) => v.well_formed() && extra_above(v.extra@, keys::view::HIGHEST),
        Record::Contention(c) => extra_above(c.extra@, keys::contention::HIGHEST),
        Record::PackInfo(p) => extra_above(p.extra@, keys::packinfo::HIGHEST),
        Record::SchemaDecl(d) => extra_above(d.extra@, keys::schema_decl::HIGHEST),
        Record::LabelBinding(b) => extra_above(b.extra@, keys::label_binding::HIGHEST),
        Record::Unknown { .. } => true,
    }
}

/// The envelope of a record: an array of its type code and its payload.
pub open spec fn record_encoding(r: Record) -> Seq<u8> {
    head_bytes(major::ARRAY, 2) + head_bytes(major::UINT, r.code_view()) + payload_encoding(r)
}

/// Encodes one record as a complete envelope.
pub fn to_cbor(r: &Record) -> (b: Vec<u8>)
    requires
        record_writable(*r),
    ensures
        b@ == record_encoding(*r),
{
    let payload = match r {
        Record::Unit(u) => unit_core_bytes(u),
        Record::Attestation(a) => attestation_bytes(a),
        Record::Relation(x) => relation_bytes(x),
        Record::Thread(t) => thread_bytes(t),
        Record::View(v) => view_bytes(v),
        Record::Contention(c) => contention_bytes(c),
        Record::PackInfo(p) => packinfo_bytes(p),
        Record::SchemaDecl(d) => schema_decl_bytes(d),
        Record::LabelBinding(x) => label_binding_bytes(x),
        Record::Unknown { payload, .. } => payload.clone(),
    };
    let mut e = Enc::new();
    e.array_head(2);
    e.uint(r.type_code());
    e.raw(payload.as_slice());
    e.into_bytes()
}

/// The envelopes of records, one after another.
pub open spec fn records_encoding(rs: Seq<Record>) -> Seq<u8>
    decreases rs.len(),
{
    if rs.len() == 0 {
        Seq::empty()
    } else {
        records_encoding(rs.drop_last()) + record_encoding(rs.last())
    }
}

/// Encodes a whole store as a bare CBOR sequence.
pub fn to_cbor_seq(records: &[Record]) -> (b: Vec<u8>)
    requires
        forall|i: int| 0 <= i < records@.len() ==> record_writable(#[trigger] records@[i]),
    ensures
        b@ == records_encoding(records@),
{
    let mut e = Enc::new();
    let mut i: usize = 0;
    while i < records.len()
        invariant
            i <= records@.len(),
            forall|j: int| 0 <= j < records@.len() ==> record_writable(#[trigger] records@[j]),
            e@ == records_encoding(records@.take(i as int)),
        decreases records.len() - i,
    {
        let b = to_cbor(&records[i]);
        e.raw(b.as_slice());
        assert(records@.take(i + 1).drop_last() =~= records@.take(i as int));
        i = i + 1;
    }
    assert(records@.take(records@.len() as int) =~= records@);
    e.into_bytes()
}

/// A payload of type `c` at `p` read as the decoder does, and `r` what it returns: the record
/// the payload reader gives back and where it stopped, or the reader's error. A type this
/// build does not know keeps the payload's bytes, which must still be one well-formed item.
pub open spec fn payload_read(s: Seq<u8>, p: int, c: u64, r: Result<(Record, usize), CodecError>) -> bool {
    if c == code::UNIT_CORE {
        match unit_at(s, p).0 {
            Ok(v) => r matches Ok((Record::Unit(x), n)) && unit_view(x) == v && n == unit_at(s, p).1,
            Err(e) => r == Err::<(Record, usize), CodecError>(e),
        }
    } else if c == code::ATTESTATION {
        match att_at(s, p).0 {
            Ok(v) => r matches Ok((Record::Attestation(x), n)) && att_view(x) == v && n == att_at(s, p).1,
            Err(e) => r == Err::<(Record, usize), CodecError>(e),
        }
    } else if c == code::RELATION {
        match relation_at(s, p).0 {
            Ok(v) => r matches Ok((Record::Relation(x), n)) && relation_read(x, v) && n == relation_at(s, p).1,
            Err(e) => r == Err::<(Record, usize), CodecError>(e),
        }
    } else if c == code::THREAD {
        match thread_at(s, p).0 {
            Ok(v) => r matches Ok((Record::Thread(x), n)) && thread_view(x) == v && n == thread_at(s, p).1,
            Err(e) => r == Err::<(Record, usize), CodecError>(e),
        }
    } else if c == code::VIEW {
        match view_at(s, p).0 {
            Ok(v) => r matches Ok((Record::View(x), n)) && view_view(x) == v && n == view_at(s, p).1,
            Err(e) => r == Err::<(Record, usize), CodecError>(e),
        }
    } else if c == code::CONTENTION {
        match contention_at(s, p).0 {
            Ok(v) => r matches Ok((Record::Contention(x), n)) && contention_view(x) == v && n == contention_at(s, p).1,
            Err(e) => r == Err::<(Record, usize), CodecError>(e),
        }
    } else if c == code::PACK_INFO {
        match packinfo_at(s, p).0 {
            Ok(v) => r matches Ok((Record::PackInfo(x), n)) && packinfo_view(x) == v && n == packinfo_at(s, p).1,
            Err(e) => r == Err::<(Record, usize), CodecError>(e),
        }
    } else if c == code::SCHEMA_DECL {
        match schema_decl_at(s, p).0 {
            Ok(v) => r matches Ok((Record::SchemaDecl(x), n)) && schema_decl_read(x, v) && n == schema_decl_at(s, p).1,
            Err(e) => r == Err::<(Record, usize), CodecError>(e),
        }
    } else if c == code::LABEL_BINDING {
        match label_binding_at(s, p).0 {
            Ok(v) => r matches Ok((Record::LabelBinding(x), n)) && label_binding_view(x) == v && n == label_binding_at(
                s,
                p,
            ).1,
            Err(e) => r == Err::<(Record, usize), CodecError>(e),
        }
    } else {
        match skip_at(s, p, 0).0 {
            Ok(_) => r matches Ok((Record::Unknown { code, payload }, n)) && code == c && payload@ == s.subrange(
                p,
                skip_at(s, p, 0).1,
            ) && n == skip_at(s, p, 0).1,
            Err(e) => r == Err::<(Record, usize), CodecError>(e),
        }
    }
}

/// The bytes `s` read as one record envelope from their start, and `r` what the decoder
/// returns: an array of two items, a type code, and that type's payload.
#[verifier::opaque]
pub open spec fn record_read(s: Seq<u8>, r: Result<(Record, usize), CodecError>) -> bool {
    let (rh, q) = expect_at(s, 0, major::ARRAY);
    match rh {
        Err(e) => r == Err::<(Record, usize), CodecError>(e),
        Ok(m) => if (m as usize) != 2 {
            r == Err::<(Record, usize), CodecError>(bad(0))
        } else {
            let (rc, q1) = expect_at(s, q, major::UINT);
            match rc {
                Err(e) => r == Err::<(Record, usize), CodecError>(e),
                Ok(c) => payload_read(s, q1, c, r),
            }
        },
    }
}

/// Decodes one record envelope, returning it and the number of bytes it took.
pub fn from_cbor(bytes: &[u8]) -> (r: Result<(Record, usize), CodecError>)
    ensures
        record_read(bytes@, r),
{
    reveal(record_read);
    let mut d = Dec::new(bytes);
    let m = match d.array_head() {
        Ok(m) => m,
        Err(e) => return Err(e),
    };
    if m != 2 {
        return Err(malformed(0));
    }
    let c = match d.uint() {
        Ok(c) => c,
        Err(e) => return Err(e),
    };
    let record = if c == code::UNIT_CORE {
        match dec_unit(&mut d) {
            Ok(x) => Record::Unit(x),
            Err(e) => return Err(e),
        }
    } else if c == code::ATTESTATION {
        match dec_attestation(&mut d) {
            Ok(x) => Record::Attestation(x),
            Err(e) => return Err(e),
        }
    } else if c == code::RELATION {
        match dec_relation(&mut d) {
            Ok(x) => Record::Relation(x),
            Err(e) => return Err(e),
        }
    } else if c == code::THREAD {
        match dec_thread(&mut d) {
            Ok(x) => Record::Thread(x),
            Err(e) => return Err(e),
        }
    } else if c == code::VIEW {
        match dec_view(&mut d) {
            Ok(x) => Record::View(x),
            Err(e) => return Err(e),
        }
    } else if c == code::CONTENTION {
        match dec_contention(&mut d) {
            Ok(x) => Record::Contention(x),
            Err(e) => return Err(e),
        }
    } else if c == code::PACK_INFO {
        match dec_packinfo(&mut d) {
            Ok(x) => Record::PackInfo(x),
            Err(e) => return Err(e),
        }
    } else if c == code::SCHEMA_DECL {
        match dec_schema_decl(&mut d) {
            Ok(x) => Record::SchemaDecl(x),
            Err(e) => return Err(e),
        }
    } else if c == code::LABEL_BINDING {
        match dec_label_binding(&mut d) {
            Ok(x) => Record::LabelBinding(x),
            Err(e) => return Err(e),
        }
    } else {
        match d.skip_item() {
            Ok(raw) => Record::Unknown { code: c, payload: vstd::slice::slice_to_vec(raw) },
            Err(e) => return Err(e),
        }
    };
    Ok((record, d.position()))
}

/// `rs` are records read one after another from the start of `s`, each where the one before
/// stopped: `offs` holds where each begins, and where the last stops.
pub open spec fn reads_records(s: Seq<u8>, offs: Seq<int>, rs: Seq<Record>) -> bool {
    &&& offs.len() == rs.len() + 1
    &&& offs[0] == 0
    &&& forall|i: int|
        0 <= i < rs.len() ==> 0 <= #[trigger] offs[i] < offs[i + 1] <= s.len() && record_read(
            s.subrange(offs[i], s.len() as int),
            Ok((rs[i], (offs[i + 1] - offs[i]) as usize)),
        )
}

/// Decodes a bare CBOR sequence of records: everything up to the last complete record, and
/// the offset where reading stopped. A truncated tail is not an error here: a store is
/// appended to, and may be read while a writer is mid-append.
pub fn from_cbor_seq(bytes: &[u8]) -> (r: Result<(Vec<Record>, usize), CodecError>)
    ensures
        match r {
            Ok((rs, off)) => exists|offs: Seq<int>|
                reads_records(bytes@, offs, rs@) && offs.last() == off && (off == bytes@.len() || exists|e: CodecError|
                    e is Truncated && record_read(bytes@.subrange(off as int, bytes@.len() as int), Err(e))),
            Err(e) => exists|offs: Seq<int>, rs: Seq<Record>|
                reads_records(bytes@, offs, rs) && offs.last() < bytes@.len() && ((!(e is Truncated) && record_read(
                    bytes@.subrange(offs.last(), bytes@.len() as int),
                    Err(e),
                )) || (e == bad(offs.last()) && exists|x: Record, n: usize|
                    (n == 0 || n > bytes@.len() - offs.last()) && record_read(
                        bytes@.subrange(offs.last(), bytes@.len() as int),
                        Ok((x, n)),
                    ))),
        },
{
    let mut out: Vec<Record> = Vec::new();
    let mut off: usize = 0;
    let ghost mut offs: Seq<int> = seq![0int];
    while off < bytes.len()
        invariant
            off <= bytes@.len(),
            reads_records(bytes@, offs, out@),
            offs.last() == off,
        decreases bytes@.len() - off,
    {
        let rest = vstd::slice::slice_subrange(bytes, off, bytes.len());
        match from_cbor(rest) {
            Ok((x, n)) => {
                if n == 0 || n > bytes.len() - off {
                    proof {
                        assert(record_read(bytes@.subrange(offs.last(), bytes@.len() as int), Ok((x, n))));
                    }
                    return Err(malformed(off));
                }
                let ghost old_out = out@;
                let ghost old_offs = offs;
                out.push(x);
                proof {
                    offs = offs.push(off + n);
                    assert forall|i: int| 0 <= i < out@.len() implies 0 <= #[trigger] offs[i] < offs[i + 1] <= bytes@.len()
                        && record_read(
                        bytes@.subrange(offs[i], bytes@.len() as int),
                        Ok((out@[i], (offs[i + 1] - offs[i]) as usize)),
                    ) by {
                        if i < old_out.len() {
                            assert(old_offs[i] == offs[i] && old_offs[i + 1] == offs[i + 1]);
                            assert(old_out[i] == out@[i]);
                        }
                    }
                }
                off = off + n;
            },
            Err(e) => {
                match e {
                    CodecError::Truncated { .. } => {
                        return Ok((out, off));
                    },
                    _ => {
                        return Err(e);
                    },
                }
            },
        }
    }
    Ok((out, off))
}

/// A type code this build reads as a known record type.
pub open spec fn known_code(c: u64) -> bool {
    c == code::UNIT_CORE || c == code::ATTESTATION || c == code::RELATION || c == code::THREAD || c == code::VIEW
        || c == code::CONTENTION || c == code::PACK_INFO || c == code::SCHEMA_DECL || c == code::LABEL_BINDING
}

/// What the round-trip laws ask of a record: for a known record, what its payload's round trip
/// asks; for an unknown one, a code no known type has and a payload that is one complete item.
pub open spec fn record_round_trips(rec: Record) -> bool {
    match rec {
        Record::Unit(c) => writable(c) && extra_above(c.extra@, keys::unit::HIGHEST) && forall|k: u16|
            c.extra@.contains_key(k) ==> one_item(#[trigger] c.extra@[k]@),
        Record::Attestation(a) => att_writable(a) && extra_above(a.extra@, keys::attestation::HIGHEST) && forall|k: u16|
            a.extra@.contains_key(k) ==> one_item(#[trigger] a.extra@[k]@),
        Record::Thread(t) => thread_writable(t) && extra_above(t.extra@, keys::thread::HIGHEST) && forall|k: u16|
            t.extra@.contains_key(k) ==> one_item(#[trigger] t.extra@[k]@),
        Record::View(v) => view_writable(v) && extra_above(v.extra@, keys::view::HIGHEST) && forall|k: u16|
            v.extra@.contains_key(k) ==> one_item(#[trigger] v.extra@[k]@),
        Record::Relation(x) => relation_writable(x) && extra_above(x.extra@, keys::relation::HIGHEST) && forall|k: u16|
            x.extra@.contains_key(k) ==> one_item(#[trigger] x.extra@[k]@),
        Record::Contention(c) => label_shaped(c.id@) && nfc_of(c.id@) == c.id@ && agent_ok(c.detected.ts.agent@) && nfc_of(
            c.detected.ts.agent@,
        ) == c.detected.ts.agent@ && extra_above(c.extra@, keys::contention::HIGHEST) && forall|k: u16|
            c.extra@.contains_key(k) ==> one_item(#[trigger] c.extra@[k]@),
        Record::SchemaDecl(d) => schema_decl_writable(d) && extra_above(d.extra@, keys::schema_decl::HIGHEST) && forall|k: u16|
            d.extra@.contains_key(k) ==> one_item(#[trigger] d.extra@[k]@),
        Record::LabelBinding(b) => label_shaped(b.label@) && nfc_of(b.label@) == b.label@ && extra_above(
            b.extra@,
            keys::label_binding::HIGHEST,
        ) && forall|k: u16| b.extra@.contains_key(k) ==> one_item(#[trigger] b.extra@[k]@),
        Record::PackInfo(p) => packinfo_writable(p) && extra_above(p.extra@, keys::packinfo::HIGHEST) && forall|k: u16|
            p.extra@.contains_key(k) ==> one_item(#[trigger] p.extra@[k]@),
        Record::Unknown { code: c, payload } => !known_code(c) && one_item(payload@),
    }
}

/// `x` holds what `rec` holds, as the reader sees it.
pub open spec fn same_record(rec: Record, x: Record) -> bool {
    match (rec, x) {
        (Record::Unit(a), Record::Unit(b)) => unit_view(a) == unit_view(b),
        (Record::Attestation(a), Record::Attestation(b)) => att_view(a) == att_view(b),
        (Record::Thread(a), Record::Thread(b)) => thread_view(a) == thread_view(b),
        (Record::View(a), Record::View(b)) => view_view(a) == view_view(b),
        (Record::PackInfo(a), Record::PackInfo(b)) => packinfo_view(a) == packinfo_view(b),
        (Record::Relation(a), Record::Relation(b)) => relation_read(b, relation_view(a)),
        (Record::LabelBinding(a), Record::LabelBinding(b)) => label_binding_view(a) == label_binding_view(b),
        (Record::Contention(a), Record::Contention(b)) => contention_view(a) == contention_view(b),
        (Record::SchemaDecl(a), Record::SchemaDecl(b)) => schema_decl_read(b, schema_decl_view(a)),
        (Record::Unknown { code: c1, payload: p1 }, Record::Unknown { code: c2, payload: p2 }) => c1 == c2 && p1@ == p2@,
        _ => false,
    }
}

/// What a read gives back of a write, for whole records: the envelope the writer makes for a
/// record reads back as a record holding the same, and reading takes all of its bytes.
pub proof fn lemma_record_round_trip(rec: Record, r: Result<(Record, usize), CodecError>)
    requires
        record_round_trips(rec),
        record_encoding(rec).len() <= usize::MAX,
        record_read(record_encoding(rec), r),
    ensures
        r matches Ok((x, n)) && same_record(rec, x) && n == record_encoding(rec).len(),
{
    reveal(record_read);
    let s = record_encoding(rec);
    let h = head_bytes(major::ARRAY, 2);
    let c = head_bytes(major::UINT, rec.code_view());
    let pl = payload_encoding(rec);
    assert(s =~= h + (c + pl));
    assert(s.subrange(0, s.len() as int) =~= s);
    lemma_split(s, 0, h, c + pl);
    lemma_split(s, h.len() as int, c, pl);
    lemma_expect_read(major::ARRAY, 2, s, 0);
    lemma_expect_read(major::UINT, rec.code_view(), s, h.len() as int);
    let p = (h.len() + c.len()) as int;
    assert(stands_at(s, p, pl));
    match rec {
        Record::Unit(u) => lemma_unit_core_round_trip(u, s, p),
        Record::Attestation(a) => lemma_attestation_round_trip(a, s, p),
        Record::Thread(t) => lemma_thread_round_trip(t, s, p),
        Record::View(v) => lemma_view_round_trip(v, s, p),
        Record::PackInfo(x) => lemma_packinfo_round_trip(x, s, p),
        Record::Relation(x) => lemma_relation_round_trip(x, s, p),
        Record::LabelBinding(x) => lemma_label_binding_round_trip(x, s, p),
        Record::Contention(x) => lemma_contention_round_trip(x, s, p),
        Record::SchemaDecl(x) => lemma_schema_decl_round_trip(x, s, p),
        Record::Unknown { code: k, payload } => {
            let a = s.take(p);
            assert(s =~= a + pl + Seq::<u8>::empty());
            assert(skip_at(a + pl + Seq::<u8>::empty(), a.len() as int, 0) == (Ok::<(), CodecError>(()), (a.len() + pl.len()) as int));
            assert(s.subrange(p, p + pl.len()) =~= pl);
        },
        _ => {},
    }
}

} // verus!
