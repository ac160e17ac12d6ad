//! Reading record payloads back: each known key handed to its field, unknown keys kept
//! verbatim so a later minor version's fields survive a round trip. The reader rejects
//! rather than normalises.

use vstd::prelude::*;

use crate::cbor::keys;
use crate::cbor::major;
use crate::cbor::reader::{bytes_at, expect_at, map_key_at, peek_at, skip_at, text_at, uid_at, uid_set_at, Dec};
use crate::cbor::NULL;
use crate::error::{CodecError, NonDetReason};
use crate::ids::{agent_ok, label_shaped, schema_forward_ok, uids_sorted, AgentId, SchemaId, ThreadId, Uid};
use crate::nfc::nfc_of;
use crate::text::blank;
use crate::types::epistemics::Status;
use crate::types::unit::{UnitCore, UnitCoreBuilder};
use crate::types::provenance::{Attestation, Hlc, Op, Rung};
use crate::types::thread::{Role, Step, Thread, ThreadSchema};
use crate::types::Extra;
use crate::text::owned;
use crate::types::epistemics::{date_parse_view, Date, SourceKind, SourceRef};
use crate::types::unit::opt_view;
use vstd::utf8::decode_utf8;

verus! {

/// The error a malformed record payload starting at `at` is reported as.
pub open spec fn bad(at: int) -> CodecError {
    CodecError::MalformedEnvelope { at: at as usize }
}

/// What the reader finds at the start of a value, before it reads the value: truncation, or
/// a `null` where an absent optional would have been omitted.
pub open spec fn null_check(s: Seq<u8>, p: int) -> Option<CodecError> {
    match peek_at(s, p) {
        Err(e) => Some(e),
        Ok(b) => if b == NULL {
            Some(CodecError::NonDeterministic { at: p as usize, reason: NonDetReason::NullOptional })
        } else {
            None
        },
    }
}

/// The source kind with wire code `v`, if there is one.
pub open spec fn source_kind_of(v: u8) -> Option<SourceKind> {
    if exists|k: SourceKind| k.code_view() == v {
        Some(choose|k: SourceKind| k.code_view() == v)
    } else {
        None
    }
}

/// A source reference as the reader sees it.
pub struct SourceView {
    pub kind: SourceKind,
    pub reference: Seq<char>,
    pub captured: Option<Date>,
}

/// The fields of a source reference read so far.
pub struct SourceFields {
    pub kind: Option<SourceKind>,
    pub reference: Option<Seq<char>>,
    pub captured: Option<Date>,
}

/// A source reference by its plain values.
pub open spec fn source_view(s: SourceRef) -> SourceView {
    SourceView { kind: s.kind, reference: s.reference@, captured: s.captured }
}

/// Reading the value under key `k` of a source map that began at `at`: the kind's code, the
/// reference, or the capture date; any other key's value is skipped.
pub open spec fn source_value(s: Seq<u8>, at: int, p: int, k: u16, st: SourceFields) -> (Result<SourceFields, CodecError>, int) {
    if k == keys::source::KIND {
        let (r, q) = expect_at(s, p, major::UINT);
        match r {
            Err(e) => (Err(e), q),
            Ok(v) => if v > 255 {
                (Err(bad(at)), q)
            } else {
                (Ok(SourceFields { kind: source_kind_of(v as u8), ..st }), q)
            },
        }
    } else if k == keys::source::REFERENCE {
        let (r, q) = text_at(s, p);
        match r {
            Err(e) => (Err(e), q),
            Ok(b) => (Ok(SourceFields { reference: Some(decode_utf8(b)), ..st }), q),
        }
    } else if k == keys::source::CAPTURED {
        let (r, q) = text_at(s, p);
        match r {
            Err(e) => (Err(e), q),
            Ok(b) => match date_parse_view(b) {
                None => (Err(bad(at)), q),
                Some((y, m, d)) => (Ok(SourceFields { captured: Some(Date { year: y, month: m, day: d }), ..st }), q),
            },
        }
    } else {
        let (r, q) = skip_at(s, p, 0);
        match r {
            Err(e) => (Err(e), q),
            Ok(_) => (Ok(st), q),
        }
    }
}

/// Reading the `n` remaining entries of a source map from `p`, after key `prev`.
pub open spec fn source_walk(s: Seq<u8>, at: int, p: int, n: nat, prev: Option<u16>, st: SourceFields) -> (Result<SourceFields, CodecError>, int)
    decreases n,
{
    if n == 0 {
        (Ok(st), p)
    } else {
        let (rk, p1) = map_key_at(s, p, prev);
        match rk {
            Err(e) => (Err(e), p1),
            Ok(k) => match null_check(s, p1) {
                Some(e) => (Err(e), p1),
                None => {
                    let (r, p2) = source_value(s, at, p1, k, st);
                    match r {
                        Err(e) => (Err(e), p2),
                        Ok(st2) => source_walk(s, at, p2, (n - 1) as nat, Some(k), st2),
                    }
                },
            },
        }
    }
}

/// Reading a source reference at `p`: a map whose kind and reference are present.
pub open spec fn source_at(s: Seq<u8>, p: int) -> (Result<SourceView, CodecError>, int) {
    let (r, q) = expect_at(s, p, major::MAP);
    match r {
        Err(e) => (Err(e), q),
        Ok(n) => {
            let (w, q2) = source_walk(
                s,
                p,
                q,
                (n as usize) as nat,
                None,
                SourceFields { kind: None, reference: None, captured: None },
            );
            match w {
                Err(e) => (Err(e), q2),
                Ok(f) => match (f.kind, f.reference) {
                    (Some(kd), Some(rf)) => (Ok(SourceView { kind: kd, reference: rf, captured: f.captured }), q2),
                    _ => (Err(bad(p)), q2),
                },
            }
        },
    }
}

pub(crate) fn malformed(at: usize) -> (e: CodecError)
    ensures
        e == bad(at as int),
{
    CodecError::MalformedEnvelope { at }
}

/// Reads a source reference.
pub fn dec_source(d: &mut Dec) -> (r: Result<SourceRef, CodecError>)
    ensures
        final(d).input() == old(d).input(),
        match source_at(old(d).input(), old(d).offset()).0 {
            Ok(v) => r matches Ok(x) && source_view(x) == v && final(d).offset() == source_at(
                old(d).input(),
                old(d).offset(),
            ).1,
            Err(e) => r == Err::<SourceRef, CodecError>(e),
        },
{
    let ghost s = d.input();
    let at = d.position();
    let n = match d.map_head() {
        Ok(n) => n,
        Err(e) => return Err(e),
    };
    let ghost q0 = d.offset();
    let mut kind: Option<SourceKind> = None;
    let mut reference: Option<String> = None;
    let mut captured: Option<Date> = None;
    let mut prev: Option<u16> = None;
    let mut i: usize = 0;
    while i < n
        invariant
            i <= n,
            d.input() == s,
            s == old(d).input(),
            at == old(d).offset(),
            expect_at(s, at as int, major::MAP).0 matches Ok(n0) && (n0 as usize) == n,
            expect_at(s, at as int, major::MAP).1 == q0,
            source_walk(s, at as int, q0, n as nat, None, SourceFields { kind: None, reference: None, captured: None })
                == source_walk(
                s,
                at as int,
                d.offset(),
                (n - i) as nat,
                prev,
                SourceFields {
                    kind,
                    reference: opt_view(reference),
                    captured,
                },
            ),
        decreases n - i,
    {
        let ghost st = SourceFields {
            kind,
            reference: opt_view(reference),
            captured,
        };
        let k = match d.map_key(prev) {
            Ok(k) => k,
            Err(e) => return Err(e),
        };
        match d.reject_null() {
            Ok(()) => {},
            Err(e) => return Err(e),
        }
        if k == keys::source::KIND {
            let v = match d.uint() {
                Ok(v) => v,
                Err(e) => return Err(e),
            };
            if v > 255 {
                return Err(malformed(at));
            }
            kind = SourceKind::from_u8(v as u8);
            proof {
                match kind {
                    Some(kd) => {
                        assert(kd.code_view() == v as u8);
                    },
                    None => {},
                }
            }
        } else if k == keys::source::REFERENCE {
            let t = match d.text() {
                Ok(t) => t,
                Err(e) => return Err(e),
            };
            proof {
                vstd::utf8::encode_utf8_decode_utf8(t@);
            }
            reference = Some(owned(t));
        } else if k == keys::source::CAPTURED {
            let t = match d.text() {
                Ok(t) => t,
                Err(e) => return Err(e),
            };
            match Date::parse(t) {
                Ok(dt) => {
                    captured = Some(dt);
                },
                Err(_) => return Err(malformed(at)),
            }
        } else {
            match d.skip_item() {
                Ok(_) => {},
                Err(e) => return Err(e),
            }
        }
        prev = Some(k);
        i = i + 1;
    }
    match (kind, reference) {
        (Some(kd), Some(rf)) => Ok(SourceRef { kind: kd, reference: rf, captured }),
        _ => Err(malformed(at)),
    }
}

/// The status with wire code `v`, if there is one.
pub open spec fn status_of(v: u8) -> Option<Status> {
    if exists|k: Status| k.code_view() == v {
        Some(choose|k: Status| k.code_view() == v)
    } else {
        None
    }
}

/// A unit core as the reader sees it: texts, uid bytes, and the unknown keys' raw values.
pub struct UnitView {
    pub schema: Seq<char>,
    pub gist: Seq<char>,
    pub body: Option<Seq<char>>,
    pub detail: Option<Seq<char>>,
    pub deps: Seq<Seq<u8>>,
    pub grounds: Seq<Seq<u8>>,
    pub status: Status,
    pub source: Option<SourceView>,
    pub payload: Option<Seq<u8>>,
    pub extra: Map<u16, Seq<u8>>,
}

/// The fields of a unit core read so far.
pub struct UnitFields {
    pub schema: Option<Seq<char>>,
    pub gist: Option<Seq<char>>,
    pub body: Option<Seq<char>>,
    pub detail: Option<Seq<char>>,
    pub deps: Seq<Seq<u8>>,
    pub grounds: Seq<Seq<u8>>,
    pub status: Option<Status>,
    pub source: Option<SourceView>,
    pub payload: Option<Seq<u8>>,
    pub extra: Map<u16, Seq<u8>>,
}

pub open spec fn no_unit_fields() -> UnitFields {
    UnitFields {
        schema: None,
        gist: None,
        body: None,
        detail: None,
        deps: Seq::empty(),
        grounds: Seq::empty(),
        status: None,
        source: None,
        payload: None,
        extra: Map::empty(),
    }
}

/// The bytes of each uid, in order.
pub open spec fn uid_bytes(v: Seq<Uid>) -> Seq<Seq<u8>> {
    v.map_values(|u: Uid| u.bytes())
}

/// Each unknown key's value, by its bytes.
pub open spec fn extra_view(m: Map<u16, Vec<u8>>) -> Map<u16, Seq<u8>> {
    m.map_values(|v: Vec<u8>| v@)
}

pub open spec fn opt_schema_text(o: Option<SchemaId>) -> Option<Seq<char>> {
    match o {
        Some(sc) => Some(sc.text()),
        None => None,
    }
}

pub open spec fn opt_source_view(o: Option<SourceRef>) -> Option<SourceView> {
    match o {
        Some(x) => Some(source_view(x)),
        None => None,
    }
}

pub open spec fn opt_bytes_view(o: Option<Vec<u8>>) -> Option<Seq<u8>> {
    match o {
        Some(v) => Some(v@),
        None => None,
    }
}

/// A unit core by its plain values.
pub open spec fn unit_view(c: UnitCore) -> UnitView {
    UnitView {
        schema: c.schema.text(),
        gist: c.gist@,
        body: opt_view(c.body),
        detail: opt_view(c.detail),
        deps: uid_bytes(c.deps@),
        grounds: uid_bytes(c.grounds@),
        status: c.status,
        source: opt_source_view(c.source),
        payload: opt_bytes_view(c.payload),
        extra: extra_view(c.extra@),
    }
}

/// An optional text, absent when it is empty: a core keeps no empty optional text.
pub open spec fn nonempty(t: Option<Seq<char>>) -> Option<Seq<char>> {
    match t {
        Some(x) => if x.len() == 0 {
            None
        } else {
            Some(x)
        },
        None => None,
    }
}

/// Reading the value under key `k` of a unit map that began at `at`.
#[verifier::opaque]
pub open spec fn unit_value(s: Seq<u8>, at: int, p: int, k: u16, st: UnitFields) -> (Result<UnitFields, CodecError>, int) {
    if k == keys::unit::SCHEMA || k == keys::unit::GIST || k == keys::unit::BODY || k == keys::unit::DETAIL {
        let (r, q) = text_at(s, p);
        match r {
            Err(e) => (Err(e), q),
            Ok(b) => {
                let t = decode_utf8(b);
                if k == keys::unit::SCHEMA {
                    if schema_forward_ok(t) {
                        (Ok(UnitFields { schema: Some(t), ..st }), q)
                    } else {
                        (Err(bad(at)), q)
                    }
                } else if k == keys::unit::GIST {
                    (Ok(UnitFields { gist: Some(t), ..st }), q)
                } else if k == keys::unit::BODY {
                    (Ok(UnitFields { body: Some(t), ..st }), q)
                } else {
                    (Ok(UnitFields { detail: Some(t), ..st }), q)
                }
            },
        }
    } else if k == keys::unit::DEPS || k == keys::unit::GROUNDS {
        let (r, q) = uid_set_at(s, p);
        match r {
            Err(e) => (Err(e), q),
            Ok(us) => if k == keys::unit::DEPS {
                (Ok(UnitFields { deps: us, ..st }), q)
            } else {
                (Ok(UnitFields { grounds: us, ..st }), q)
            },
        }
    } else if k == keys::unit::STATUS {
        let (r, q) = expect_at(s, p, major::UINT);
        match r {
            Err(e) => (Err(e), q),
            Ok(v) => if v > 255 {
                (Err(bad(at)), q)
            } else {
                (Ok(UnitFields { status: status_of(v as u8), ..st }), q)
            },
        }
    } else if k == keys::unit::SOURCE {
        let (r, q) = source_at(s, p);
        match r {
            Err(e) => (Err(e), q),
            Ok(sv) => (Ok(UnitFields { source: Some(sv), ..st }), q),
        }
    } else if k == keys::unit::PAYLOAD {
        let (r, q) = bytes_at(s, p);
        match r {
            Err(e) => (Err(e), q),
            Ok(b) => (Ok(UnitFields { payload: Some(b), ..st }), q),
        }
    } else {
        let (r, q) = skip_at(s, p, 0);
        match r {
            Err(e) => (Err(e), q),
            Ok(_) => (Ok(UnitFields { extra: st.extra.insert(k, s.subrange(p, q)), ..st }), q),
        }
    }
}

/// Reading the `n` remaining entries of a unit map from `p`, after key `prev`.
#[verifier::opaque]
pub open spec fn unit_walk(s: Seq<u8>, at: int, p: int, n: nat, prev: Option<u16>, st: UnitFields) -> (Result<UnitFields, CodecError>, int)
    decreases n,
{
    if n == 0 {
        (Ok(st), p)
    } else {
        let (rk, p1) = map_key_at(s, p, prev);
        match rk {
            Err(e) => (Err(e), p1),
            Ok(k) => match null_check(s, p1) {
                Some(e) => (Err(e), p1),
                None => {
                    let (r, p2) = unit_value(s, at, p1, k, st);
                    match r {
                        Err(e) => (Err(e), p2),
                        Ok(st2) => unit_walk(s, at, p2, (n - 1) as nat, Some(k), st2),
                    }
                },
            },
        }
    }
}

/// The core that the fields read make, or why they make none: a schema, a gist and a status
/// must be present, and the fields must keep the rules a core is built under.
pub open spec fn unit_from_fields(f: UnitFields) -> Option<UnitView> {
    match (f.schema, f.gist, f.status) {
        (Some(sc), Some(g), Some(st)) => {
            let body = nonempty(f.body);
            let detail = nonempty(f.detail);
            if blank(g) || (detail is Some && body is None) || st == Status::Unfounded || ((st == Status::Measured
                || st == Status::Cited) && f.source is None) || ((st == Status::Derived || st == Status::Inferred)
                && f.grounds.len() == 0) {
                None
            } else {
                Some(
                    UnitView {
                        schema: sc,
                        gist: g,
                        body,
                        detail,
                        deps: f.deps,
                        grounds: f.grounds,
                        status: st,
                        source: f.source,
                        payload: f.payload,
                        extra: f.extra,
                    },
                )
            }
        },
        _ => None,
    }
}

/// Reading a unit core at `p`: its payload map, whose fields must make a core.
pub open spec fn unit_at(s: Seq<u8>, p: int) -> (Result<UnitView, CodecError>, int) {
    let (r, q) = expect_at(s, p, major::MAP);
    match r {
        Err(e) => (Err(e), q),
        Ok(n) => {
            let (w, q2) = unit_walk(s, p, q, (n as usize) as nat, None, no_unit_fields());
            match w {
                Err(e) => (Err(e), q2),
                Ok(f) => match unit_from_fields(f) {
                    Some(v) => (Ok(v), q2),
                    None => (Err(bad(p)), q2),
                },
            }
        },
    }
}

/// The fields held so far, by their plain values.
pub open spec fn unit_fields_view(
    schema: Option<SchemaId>,
    gist: Option<String>,
    body: Option<String>,
    detail: Option<String>,
    deps: Seq<Uid>,
    grounds: Seq<Uid>,
    status: Option<Status>,
    source: Option<SourceRef>,
    payload: Option<Vec<u8>>,
    extra: Map<u16, Vec<u8>>,
) -> UnitFields {
    UnitFields {
        schema: opt_schema_text(schema),
        gist: opt_view(gist),
        body: opt_view(body),
        detail: opt_view(detail),
        deps: uid_bytes(deps),
        grounds: uid_bytes(grounds),
        status,
        source: opt_source_view(source),
        payload: opt_bytes_view(payload),
        extra: extra_view(extra),
    }
}

/// Text read from a payload is in NFC.
pub open spec fn opt_nfc(t: Option<String>) -> bool {
    t matches Some(x) ==> nfc_of(x@) == x@
}

/// `u16` keys are totally ordered, as a `BTreeMap` needs.
pub(crate) proof fn lemma_u16_keys_total()
    ensures
        vstd::laws_cmp::obeys_cmp::<u16>(),
{
    broadcast use vstd::laws_cmp::group_laws_cmp;

}

/// Reads a unit core: its payload map, each known key to its field and each unknown key kept
/// verbatim, then builds the core. Fields that make no core are a malformed payload.
pub fn dec_unit(d: &mut Dec) -> (r: Result<UnitCore, CodecError>)
    ensures
        final(d).input() == old(d).input(),
        match unit_at(old(d).input(), old(d).offset()).0 {
            Ok(v) => r matches Ok(c) && unit_view(c) == v && c.well_formed() && final(d).offset() == unit_at(
                old(d).input(),
                old(d).offset(),
            ).1,
            Err(e) => r == Err::<UnitCore, CodecError>(e),
        },
{
    reveal(unit_walk);
    reveal(unit_value);
    let ghost s = d.input();
    let at = d.position();
    let n = match d.map_head() {
        Ok(n) => n,
        Err(e) => return Err(e),
    };
    let ghost q0 = d.offset();
    let mut schema: Option<SchemaId> = None;
    let mut gist: Option<String> = None;
    let mut body: Option<String> = None;
    let mut detail: Option<String> = None;
    let mut deps: Vec<Uid> = Vec::new();
    let mut grounds: Vec<Uid> = Vec::new();
    let mut status: Option<Status> = None;
    let mut source: Option<SourceRef> = None;
    let mut payload: Option<Vec<u8>> = None;
    let mut extra: Extra = Extra::new();
    let mut prev: Option<u16> = None;
    let mut i: usize = 0;
    assert(uid_bytes(deps@) =~= Seq::<Seq<u8>>::empty());
    assert(uid_bytes(grounds@) =~= Seq::<Seq<u8>>::empty());
    assert(extra_view(extra@) =~= Map::<u16, Seq<u8>>::empty());
    while i < n
        invariant
            i <= n,
            d.input() == s,
            s == old(d).input(),
            at == old(d).offset(),
            expect_at(s, at as int, major::MAP).0 matches Ok(n0) && (n0 as usize) == n,
            expect_at(s, at as int, major::MAP).1 == q0,
            uids_sorted(deps@),
            uids_sorted(grounds@),
            opt_nfc(gist),
            opt_nfc(body),
            opt_nfc(detail),
            unit_walk(s, at as int, q0, n as nat, None, no_unit_fields()) == unit_walk(
                s,
                at as int,
                d.offset(),
                (n - i) as nat,
                prev,
                unit_fields_view(schema, gist, body, detail, deps@, grounds@, status, source, payload, extra@),
            ),
        decreases n - i,
    {
        proof {
            reveal(unit_walk);
            reveal(unit_value);
        }
        let k = match d.map_key(prev) {
            Ok(k) => k,
            Err(e) => return Err(e),
        };
        match d.reject_null() {
            Ok(()) => {},
            Err(e) => return Err(e),
        }
        let ghost p1 = d.offset();
        if k == keys::unit::SCHEMA || k == keys::unit::GIST || k == keys::unit::BODY || k == keys::unit::DETAIL {
            let t = match d.text() {
                Ok(t) => t,
                Err(e) => return Err(e),
            };
            proof {
                vstd::utf8::encode_utf8_decode_utf8(t@);
            }
            if k == keys::unit::SCHEMA {
                match SchemaId::parse_forward(t) {
                    Ok(sc) => {
                        schema = Some(sc);
                    },
                    Err(_) => return Err(malformed(at)),
                }
            } else if k == keys::unit::GIST {
                gist = Some(owned(t));
            } else if k == keys::unit::BODY {
                body = Some(owned(t));
            } else {
                detail = Some(owned(t));
            }
        } else if k == keys::unit::DEPS || k == keys::unit::GROUNDS {
            let v = match d.uid_set() {
                Ok(v) => v,
                Err(e) => return Err(e),
            };
            proof {
                let (r0, q) = uid_set_at(s, p1);
                assert(uid_bytes(v@) =~= r0->Ok_0);
            }
            if k == keys::unit::DEPS {
                deps = v;
            } else {
                grounds = v;
            }
        } else if k == keys::unit::STATUS {
            let v = match d.uint() {
                Ok(v) => v,
                Err(e) => return Err(e),
            };
            if v > 255 {
                return Err(malformed(at));
            }
            status = Status::from_u8(v as u8);
            proof {
                match status {
                    Some(kd) => {
                        assert(kd.code_view() == v as u8);
                    },
                    None => {},
                }
            }
        } else if k == keys::unit::SOURCE {
            let sr = match dec_source(d) {
                Ok(sr) => sr,
                Err(e) => return Err(e),
            };
            source = Some(sr);
        } else if k == keys::unit::PAYLOAD {
            let b = match d.bytes() {
                Ok(b) => b,
                Err(e) => return Err(e),
            };
            payload = Some(vstd::slice::slice_to_vec(b));
        } else {
            let raw = match d.skip_item() {
                Ok(raw) => raw,
                Err(e) => return Err(e),
            };
            let ghost before = extra@;
            proof {
                lemma_u16_keys_total();
            }
            extra.insert(k, vstd::slice::slice_to_vec(raw));
            proof {
                assert(extra_view(extra@) =~= extra_view(before).insert(k, s.subrange(p1, d.offset())));
            }
        }
        prev = Some(k);
        i = i + 1;
    }
    match (schema, gist, status) {
        (Some(sc), Some(g), Some(stt)) => {
            let b = UnitCoreBuilder {
                schema: sc,
                gist: g,
                body,
                detail,
                deps,
                grounds,
                status: stt,
                source,
                payload,
                extra,
            };
            match UnitCore::new(b) {
                Ok(c) => {
                    proof {
                        assert(uid_bytes(c.deps@) == uid_bytes(b.deps@));
                        assert(unit_view(c) == unit_from_fields(
                            unit_fields_view(Some(sc), Some(g), b.body, b.detail, b.deps@, b.grounds@, Some(stt), b.source, b.payload, b.extra@),
                        )->Some_0);
                    }
                    Ok(c)
                },
                Err(_) => Err(malformed(at)),
            }
        },
        _ => Err(malformed(at)),
    }
}

/// A clock as the reader sees it.
pub struct HlcView {
    pub wall_ms: u64,
    pub counter: u32,
    pub agent: Seq<char>,
}

pub open spec fn hlc_view(h: Hlc) -> HlcView {
    HlcView { wall_ms: h.wall_ms, counter: h.counter, agent: h.agent@ }
}

/// Reading a clock at `p`: an array of the wall time, the counter and the agent.
pub open spec fn hlc_at(s: Seq<u8>, p: int) -> (Result<HlcView, CodecError>, int) {
    let (r, q) = expect_at(s, p, major::ARRAY);
    match r {
        Err(e) => (Err(e), q),
        Ok(n) => if (n as usize) != 3 {
            (Err(bad(p)), q)
        } else {
            let (rw, q1) = expect_at(s, q, major::UINT);
            match rw {
                Err(e) => (Err(e), q1),
                Ok(w) => {
                    let (rc, q2) = expect_at(s, q1, major::UINT);
                    match rc {
                        Err(e) => (Err(e), q2),
                        Ok(c) => if c > u32::MAX {
                            (Err(bad(p)), q2)
                        } else {
                            let (rt, q3) = text_at(s, q2);
                            match rt {
                                Err(e) => (Err(e), q3),
                                Ok(b) => if !agent_ok(decode_utf8(b)) {
                                    (Err(bad(p)), q3)
                                } else {
                                    (Ok(HlcView { wall_ms: w, counter: c as u32, agent: decode_utf8(b) }), q3)
                                },
                            }
                        },
                    }
                },
            }
        },
    }
}

/// Reads a clock.
pub fn dec_hlc(d: &mut Dec) -> (r: Result<Hlc, CodecError>)
    ensures
        final(d).input() == old(d).input(),
        match hlc_at(old(d).input(), old(d).offset()).0 {
            Ok(v) => r matches Ok(h) && hlc_view(h) == v && final(d).offset() == hlc_at(old(d).input(), old(d).offset()).1,
            Err(e) => r == Err::<Hlc, CodecError>(e),
        },
{
    let at = d.position();
    let n = match d.array_head() {
        Ok(n) => n,
        Err(e) => return Err(e),
    };
    if n != 3 {
        return Err(malformed(at));
    }
    let wall_ms = match d.uint() {
        Ok(v) => v,
        Err(e) => return Err(e),
    };
    let c = match d.uint() {
        Ok(v) => v,
        Err(e) => return Err(e),
    };
    if c > 0xFFFF_FFFF {
        return Err(malformed(at));
    }
    let t = match d.text() {
        Ok(t) => t,
        Err(e) => return Err(e),
    };
    proof {
        vstd::utf8::encode_utf8_decode_utf8(t@);
    }
    match AgentId::new(t) {
        Ok(agent) => Ok(Hlc { wall_ms, counter: c as u32, agent }),
        Err(_) => Err(malformed(at)),
    }
}

/// The byte string at `p`, which must be exactly 32 bytes wide.
pub open spec fn bytes32_at(s: Seq<u8>, p: int) -> (Result<Seq<u8>, CodecError>, int) {
    let (r, q) = bytes_at(s, p);
    match r {
        Err(e) => (Err(e), q),
        Ok(b) => if b.len() != 32 {
            (Err(bad(p)), q)
        } else {
            (Ok(b), q)
        },
    }
}

/// Reads a 32-byte string.
pub fn dec_bytes32(d: &mut Dec) -> (r: Result<[u8; 32], CodecError>)
    ensures
        final(d).input() == old(d).input(),
        match bytes32_at(old(d).input(), old(d).offset()).0 {
            Ok(v) => r matches Ok(b) && b@ == v && final(d).offset() == bytes32_at(old(d).input(), old(d).offset()).1,
            Err(e) => r == Err::<[u8; 32], CodecError>(e),
        },
{
    let at = d.position();
    let b = match d.bytes() {
        Ok(b) => b,
        Err(e) => return Err(e),
    };
    if b.len() != 32 {
        return Err(malformed(at));
    }
    let mut a = [0u8; 32];
    let mut i: usize = 0;
    while i < 32
        invariant
            i <= 32,
            b@.len() == 32,
            forall|j: int| 0 <= j < i ==> a@[j] == b@[j],
        decreases 32 - i,
    {
        a[i] = b[i];
        i = i + 1;
    }
    assert(a@ =~= b@);
    Ok(a)
}

/// The operation with wire code `v`, if there is one.
pub open spec fn op_of(v: u8) -> Option<Op> {
    if exists|k: Op| k.code_view() == v {
        Some(choose|k: Op| k.code_view() == v)
    } else {
        None
    }
}

/// The rung with wire code `v`, if there is one.
pub open spec fn rung_of(v: u8) -> Option<Rung> {
    if exists|k: Rung| k.code_view() == v {
        Some(choose|k: Rung| k.code_view() == v)
    } else {
        None
    }
}

/// An attestation as the reader sees it.
pub struct AttView {
    pub uid: Seq<u8>,
    pub agent: Seq<char>,
    pub hop: u32,
    pub parents: Seq<Seq<u8>>,
    pub ts: HlcView,
    pub op: Op,
    pub rung: Rung,
    pub recipe: Option<Seq<u8>>,
    pub family: Option<Seq<u8>>,
    pub sig: Option<Seq<u8>>,
    pub extra: Map<u16, Seq<u8>>,
}

/// The fields of an attestation read so far.
pub struct AttFields {
    pub uid: Option<Seq<u8>>,
    pub agent: Option<Seq<char>>,
    pub hop: u32,
    pub parents: Seq<Seq<u8>>,
    pub ts: Option<HlcView>,
    pub op: Option<Op>,
    pub rung: Option<Rung>,
    pub recipe: Option<Seq<u8>>,
    pub family: Option<Seq<u8>>,
    pub sig: Option<Seq<u8>>,
    pub extra: Map<u16, Seq<u8>>,
}

pub open spec fn no_att_fields() -> AttFields {
    AttFields {
        uid: None,
        agent: None,
        hop: 0,
        parents: Seq::empty(),
        ts: None,
        op: None,
        rung: None,
        recipe: None,
        family: None,
        sig: None,
        extra: Map::empty(),
    }
}

pub open spec fn opt_array_view(o: Option<[u8; 32]>) -> Option<Seq<u8>> {
    match o {
        Some(a) => Some(a@),
        None => None,
    }
}

/// An attestation by its plain values.
pub open spec fn att_view(a: Attestation) -> AttView {
    AttView {
        uid: a.uid.bytes(),
        agent: a.agent@,
        hop: a.hop,
        parents: uid_bytes(a.parents@),
        ts: hlc_view(a.ts),
        op: a.op,
        rung: a.rung,
        recipe: opt_array_view(a.recipe),
        family: opt_array_view(a.family),
        sig: opt_bytes_view(a.sig),
        extra: extra_view(a.extra@),
    }
}

/// Reading the value under key `k` of an attestation map that began at `at`.
#[verifier::opaque]
pub open spec fn att_value(s: Seq<u8>, at: int, p: int, k: u16, st: AttFields) -> (Result<AttFields, CodecError>, int) {
    if k == keys::attestation::UID {
        let (r, q) = uid_at(s, p);
        match r {
            Err(e) => (Err(e), q),
            Ok(b) => (Ok(AttFields { uid: Some(b), ..st }), q),
        }
    } else if k == keys::attestation::AGENT {
        let (r, q) = text_at(s, p);
        match r {
            Err(e) => (Err(e), q),
            Ok(b) => if !agent_ok(decode_utf8(b)) {
                (Err(bad(at)), q)
            } else {
                (Ok(AttFields { agent: Some(decode_utf8(b)), ..st }), q)
            },
        }
    } else if k == keys::attestation::HOP || k == keys::attestation::OP || k == keys::attestation::RUNG {
        let (r, q) = expect_at(s, p, major::UINT);
        match r {
            Err(e) => (Err(e), q),
            Ok(v) => if k == keys::attestation::HOP {
                if v > u32::MAX {
                    (Err(bad(at)), q)
                } else {
                    (Ok(AttFields { hop: v as u32, ..st }), q)
                }
            } else if v > 255 {
                (Err(bad(at)), q)
            } else if k == keys::attestation::OP {
                (Ok(AttFields { op: op_of(v as u8), ..st }), q)
            } else {
                (Ok(AttFields { rung: rung_of(v as u8), ..st }), q)
            },
        }
    } else if k == keys::attestation::PARENTS {
        let (r, q) = uid_set_at(s, p);
        match r {
            Err(e) => (Err(e), q),
            Ok(us) => (Ok(AttFields { parents: us, ..st }), q),
        }
    } else if k == keys::attestation::TS {
        let (r, q) = hlc_at(s, p);
        match r {
            Err(e) => (Err(e), q),
            Ok(h) => (Ok(AttFields { ts: Some(h), ..st }), q),
        }
    } else if k == keys::attestation::RECIPE || k == keys::attestation::FAMILY {
        let (r, q) = bytes32_at(s, p);
        match r {
            Err(e) => (Err(e), q),
            Ok(b) => if k == keys::attestation::RECIPE {
                (Ok(AttFields { recipe: Some(b), ..st }), q)
            } else {
                (Ok(AttFields { family: Some(b), ..st }), q)
            },
        }
    } else if k == keys::attestation::SIG {
        let (r, q) = bytes_at(s, p);
        match r {
            Err(e) => (Err(e), q),
            Ok(b) => (Ok(AttFields { sig: Some(b), ..st }), q),
        }
    } else {
        let (r, q) = skip_at(s, p, 0);
        match r {
            Err(e) => (Err(e), q),
            Ok(_) => (Ok(AttFields { extra: st.extra.insert(k, s.subrange(p, q)), ..st }), q),
        }
    }
}

/// Reading the `n` remaining entries of an attestation map from `p`, after key `prev`.
#[verifier::opaque]
pub open spec fn att_walk(s: Seq<u8>, at: int, p: int, n: nat, prev: Option<u16>, st: AttFields) -> (Result<AttFields, CodecError>, int)
    decreases n,
{
    if n == 0 {
        (Ok(st), p)
    } else {
        let (rk, p1) = map_key_at(s, p, prev);
        match rk {
            Err(e) => (Err(e), p1),
            Ok(k) => match null_check(s, p1) {
                Some(e) => (Err(e), p1),
                None => {
                    let (r, p2) = att_value(s, at, p1, k, st);
                    match r {
                        Err(e) => (Err(e), p2),
                        Ok(st2) => att_walk(s, at, p2, (n - 1) as nat, Some(k), st2),
                    }
                },
            },
        }
    }
}

/// Reading an attestation at `p`: its uid, agent, clock, operation and rung must be present.
pub open spec fn att_at(s: Seq<u8>, p: int) -> (Result<AttView, CodecError>, int) {
    let (r, q) = expect_at(s, p, major::MAP);
    match r {
        Err(e) => (Err(e), q),
        Ok(n) => {
            let (w, q2) = att_walk(s, p, q, (n as usize) as nat, None, no_att_fields());
            match w {
                Err(e) => (Err(e), q2),
                Ok(f) => match (f.uid, f.agent, f.ts, f.op, f.rung) {
                    (Some(u), Some(ag), Some(ts), Some(op), Some(rung)) => (
                        Ok(
                            AttView {
                                uid: u,
                                agent: ag,
                                hop: f.hop,
                                parents: f.parents,
                                ts,
                                op,
                                rung,
                                recipe: f.recipe,
                                family: f.family,
                                sig: f.sig,
                                extra: f.extra,
                            },
                        ),
                        q2,
                    ),
                    _ => (Err(bad(p)), q2),
                },
            }
        },
    }
}

pub open spec fn opt_uid_bytes(o: Option<Uid>) -> Option<Seq<u8>> {
    match o {
        Some(u) => Some(u.bytes()),
        None => None,
    }
}

pub open spec fn opt_agent_view(o: Option<AgentId>) -> Option<Seq<char>> {
    match o {
        Some(a) => Some(a@),
        None => None,
    }
}

pub open spec fn opt_hlc_view(o: Option<Hlc>) -> Option<HlcView> {
    match o {
        Some(h) => Some(hlc_view(h)),
        None => None,
    }
}

/// The attestation fields held so far, by their plain values.
pub open spec fn att_fields_view(
    uid: Option<Uid>,
    agent: Option<AgentId>,
    hop: u32,
    parents: Seq<Uid>,
    ts: Option<Hlc>,
    op: Option<Op>,
    rung: Option<Rung>,
    recipe: Option<[u8; 32]>,
    family: Option<[u8; 32]>,
    sig: Option<Vec<u8>>,
    extra: Map<u16, Vec<u8>>,
) -> AttFields {
    AttFields {
        uid: opt_uid_bytes(uid),
        agent: opt_agent_view(agent),
        hop,
        parents: uid_bytes(parents),
        ts: opt_hlc_view(ts),
        op,
        rung,
        recipe: opt_array_view(recipe),
        family: opt_array_view(family),
        sig: opt_bytes_view(sig),
        extra: extra_view(extra),
    }
}

/// Reads an attestation: its payload map, each known key to its field and each unknown key
/// kept verbatim. A missing uid, agent, clock, operation or rung is a malformed payload.
pub fn dec_attestation(d: &mut Dec) -> (r: Result<Attestation, CodecError>)
    ensures
        final(d).input() == old(d).input(),
        match att_at(old(d).input(), old(d).offset()).0 {
            Ok(v) => r matches Ok(a) && att_view(a) == v && uids_sorted(a.parents@) && final(d).offset()
                == att_at(old(d).input(), old(d).offset()).1,
            Err(e) => r == Err::<Attestation, CodecError>(e),
        },
{
    reveal(att_walk);
    let ghost s = d.input();
    let at = d.position();
    let n = match d.map_head() {
        Ok(n) => n,
        Err(e) => return Err(e),
    };
    let ghost q0 = d.offset();
    let mut uid: Option<Uid> = None;
    let mut agent: Option<AgentId> = None;
    let mut hop: u32 = 0;
    let mut parents: Vec<Uid> = Vec::new();
    let mut ts: Option<Hlc> = None;
    let mut op: Option<Op> = None;
    let mut rung: Option<Rung> = None;
    let mut recipe: Option<[u8; 32]> = None;
    let mut family: Option<[u8; 32]> = None;
    let mut sig: Option<Vec<u8>> = None;
    let mut extra: Extra = Extra::new();
    let mut prev: Option<u16> = None;
    let mut i: usize = 0;
    assert(uid_bytes(parents@) =~= Seq::<Seq<u8>>::empty());
    assert(extra_view(extra@) =~= Map::<u16, Seq<u8>>::empty());
    while i < n
        invariant
            i <= n,
            d.input() == s,
            s == old(d).input(),
            at == old(d).offset(),
            expect_at(s, at as int, major::MAP).0 matches Ok(n0) && (n0 as usize) == n,
            expect_at(s, at as int, major::MAP).1 == q0,
            uids_sorted(parents@),
            att_walk(s, at as int, q0, n as nat, None, no_att_fields()) == att_walk(
                s,
                at as int,
                d.offset(),
                (n - i) as nat,
                prev,
                att_fields_view(uid, agent, hop, parents@, ts, op, rung, recipe, family, sig, extra@),
            ),
        decreases n - i,
    {
        proof {
            reveal(att_walk);
            reveal(att_value);
        }
        let k = match d.map_key(prev) {
            Ok(k) => k,
            Err(e) => return Err(e),
        };
        match d.reject_null() {
            Ok(()) => {},
            Err(e) => return Err(e),
        }
        let ghost p1 = d.offset();
        if k == keys::attestation::UID {
            match d.uid() {
                Ok(u) => {
                    uid = Some(u);
                },
                Err(e) => return Err(e),
            }
        } else if k == keys::attestation::AGENT {
            let t = match d.text() {
                Ok(t) => t,
                Err(e) => return Err(e),
            };
            proof {
                vstd::utf8::encode_utf8_decode_utf8(t@);
            }
            match AgentId::new(t) {
                Ok(a) => {
                    agent = Some(a);
                },
                Err(_) => return Err(malformed(at)),
            }
        } else if k == keys::attestation::HOP || k == keys::attestation::OP || k == keys::attestation::RUNG {
            let v = match d.uint() {
                Ok(v) => v,
                Err(e) => return Err(e),
            };
            if k == keys::attestation::HOP {
                if v > 0xFFFF_FFFF {
                    return Err(malformed(at));
                }
                hop = v as u32;
            } else {
                if v > 255 {
                    return Err(malformed(at));
                }
                if k == keys::attestation::OP {
                    op = Op::from_u8(v as u8);
                    proof {
                        if let Some(o) = op {
                            assert(o.code_view() == v as u8);
                        }
                    }
                } else {
                    rung = Rung::from_u8(v as u8);
                    proof {
                        if let Some(o) = rung {
                            assert(o.code_view() == v as u8);
                        }
                    }
                }
            }
        } else if k == keys::attestation::PARENTS {
            let v = match d.uid_set() {
                Ok(v) => v,
                Err(e) => return Err(e),
            };
            proof {
                let (r0, q) = uid_set_at(s, p1);
                assert(uid_bytes(v@) =~= r0->Ok_0);
            }
            parents = v;
        } else if k == keys::attestation::TS {
            match dec_hlc(d) {
                Ok(h) => {
                    ts = Some(h);
                },
                Err(e) => return Err(e),
            }
        } else if k == keys::attestation::RECIPE || k == keys::attestation::FAMILY {
            let b = match dec_bytes32(d) {
                Ok(b) => b,
                Err(e) => return Err(e),
            };
            if k == keys::attestation::RECIPE {
                recipe = Some(b);
            } else {
                family = Some(b);
            }
        } else if k == keys::attestation::SIG {
            let b = match d.bytes() {
                Ok(b) => b,
                Err(e) => return Err(e),
            };
            sig = Some(vstd::slice::slice_to_vec(b));
        } else {
            let raw = match d.skip_item() {
                Ok(raw) => raw,
                Err(e) => return Err(e),
            };
            let ghost before = extra@;
            proof {
                lemma_u16_keys_total();
            }
            extra.insert(k, vstd::slice::slice_to_vec(raw));
            proof {
                assert(extra_view(extra@) =~= extra_view(before).insert(k, s.subrange(p1, d.offset())));
            }
        }
        prev = Some(k);
        i = i + 1;
    }
    match (uid, agent, ts, op, rung) {
        (Some(u), Some(ag), Some(t), Some(o), Some(rg)) => Ok(
            Attestation {
                uid: u,
                agent: ag,
                hop,
                parents,
                ts: t,
                op: o,
                rung: rg,
                recipe,
                family,
                sig,
                extra,
            },
        ),
        _ => Err(malformed(at)),
    }
}

/// The role with wire code `v`, if there is one.
pub open spec fn role_of(v: u8) -> Option<Role> {
    if exists|k: Role| k.code_view() == v {
        Some(choose|k: Role| k.code_view() == v)
    } else {
        None
    }
}

/// The thread schema with wire code `v`, if there is one.
pub open spec fn thread_schema_of(v: u8) -> Option<ThreadSchema> {
    if exists|k: ThreadSchema| k.code_view() == v {
        Some(choose|k: ThreadSchema| k.code_view() == v)
    } else {
        None
    }
}

/// A thread step as the reader sees it.
pub struct StepView {
    pub role: Role,
    pub unit: Seq<u8>,
    pub note: Option<Seq<char>>,
}

pub open spec fn step_view(st: Step) -> StepView {
    StepView { role: st.role, unit: st.unit.bytes(), note: opt_view(st.note) }
}

/// Reading a step at `p`: an array of two or three items, the role's code, the unit, and an
/// optional note.
pub open spec fn step_at(s: Seq<u8>, p: int) -> (Result<StepView, CodecError>, int) {
    let (r, q) = expect_at(s, p, major::ARRAY);
    match r {
        Err(e) => (Err(e), q),
        Ok(m) => if !((m as usize) == 2 || (m as usize) == 3) {
            (Err(bad(p)), q)
        } else {
            let (rv, q1) = expect_at(s, q, major::UINT);
            match rv {
                Err(e) => (Err(e), q1),
                Ok(v) => if v > 255 || role_of(v as u8) is None {
                    (Err(bad(p)), q1)
                } else {
                    let (ru, q2) = uid_at(s, q1);
                    match ru {
                        Err(e) => (Err(e), q2),
                        Ok(u) => if (m as usize) == 3 {
                            let (rt, q3) = text_at(s, q2);
                            match rt {
                                Err(e) => (Err(e), q3),
                                Ok(b) => (Ok(StepView { role: role_of(v as u8)->Some_0, unit: u, note: Some(decode_utf8(b)) }), q3),
                            }
                        } else {
                            (Ok(StepView { role: role_of(v as u8)->Some_0, unit: u, note: None }), q2)
                        },
                    }
                },
            }
        },
    }
}

/// Reading `n` more steps from `p`.
pub open spec fn steps_walk(s: Seq<u8>, p: int, n: nat) -> (Result<Seq<StepView>, CodecError>, int)
    decreases n,
{
    if n == 0 {
        (Ok(Seq::empty()), p)
    } else {
        let (r, q) = step_at(s, p);
        match r {
            Err(e) => (Err(e), q),
            Ok(st) => {
                let (rest, q2) = steps_walk(s, q, (n - 1) as nat);
                match rest {
                    Err(e) => (Err(e), q2),
                    Ok(sts) => (Ok(seq![st] + sts), q2),
                }
            },
        }
    }
}

/// Reading the steps of a thread at `p`: an array of steps.
pub open spec fn steps_at(s: Seq<u8>, p: int) -> (Result<Seq<StepView>, CodecError>, int) {
    let (r, q) = expect_at(s, p, major::ARRAY);
    match r {
        Err(e) => (Err(e), q),
        Ok(n) => steps_walk(s, q, (n as usize) as nat),
    }
}

/// Reads one step.
pub fn dec_step(d: &mut Dec) -> (r: Result<Step, CodecError>)
    ensures
        final(d).input() == old(d).input(),
        match step_at(old(d).input(), old(d).offset()).0 {
            Ok(v) => r matches Ok(st) && step_view(st) == v && final(d).offset() == step_at(old(d).input(), old(d).offset()).1,
            Err(e) => r == Err::<Step, CodecError>(e),
        },
{
    let at = d.position();
    let m = match d.array_head() {
        Ok(m) => m,
        Err(e) => return Err(e),
    };
    if !(m == 2 || m == 3) {
        return Err(malformed(at));
    }
    let v = match d.uint() {
        Ok(v) => v,
        Err(e) => return Err(e),
    };
    if v > 255 {
        return Err(malformed(at));
    }
    let role = match Role::from_u8(v as u8) {
        Some(r) => r,
        None => return Err(malformed(at)),
    };
    assert(role.code_view() == v as u8);
    let unit = match d.uid() {
        Ok(u) => u,
        Err(e) => return Err(e),
    };
    if m == 3 {
        let t = match d.text() {
            Ok(t) => t,
            Err(e) => return Err(e),
        };
        proof {
            vstd::utf8::encode_utf8_decode_utf8(t@);
        }
        Ok(Step { role, unit, note: Some(owned(t)) })
    } else {
        Ok(Step { role, unit, note: None })
    }
}

/// Reads the steps of a thread.
pub fn dec_steps(d: &mut Dec) -> (r: Result<Vec<Step>, CodecError>)
    ensures
        final(d).input() == old(d).input(),
        match steps_at(old(d).input(), old(d).offset()).0 {
            Ok(v) => r matches Ok(sts) && sts@.map_values(|x: Step| step_view(x)) == v && final(d).offset()
                == steps_at(old(d).input(), old(d).offset()).1,
            Err(e) => r == Err::<Vec<Step>, CodecError>(e),
        },
{
    let ghost s = d.input();
    let n = match d.array_head() {
        Ok(n) => n,
        Err(e) => return Err(e),
    };
    let ghost q0 = d.offset();
    let mut out: Vec<Step> = Vec::new();
    let mut i: usize = 0;
    while i < n
        invariant
            i <= n,
            d.input() == s,
            s == old(d).input(),
            expect_at(s, old(d).offset(), major::ARRAY).0 matches Ok(n0) && (n0 as usize) == n,
            expect_at(s, old(d).offset(), major::ARRAY).1 == q0,
            out@.len() == i,
            ({
                let (total, qt) = steps_walk(s, q0, n as nat);
                let (rest, qr) = steps_walk(s, d.offset(), (n - i) as nat);
                qt == qr && match rest {
                    Err(e) => total == Err::<Seq<StepView>, CodecError>(e),
                    Ok(sts) => total == Ok::<Seq<StepView>, CodecError>(out@.map_values(|x: Step| step_view(x)) + sts),
                }
            }),
        decreases n - i,
    {
        let st = match dec_step(d) {
            Ok(st) => st,
            Err(e) => return Err(e),
        };
        let ghost before = out@.map_values(|x: Step| step_view(x));
        out.push(st);
        proof {
            let after = out@.map_values(|x: Step| step_view(x));
            assert(after =~= before.push(step_view(st)));
            let (rest, qr) = steps_walk(s, d.offset(), (n - i - 1) as nat);
            match rest {
                Ok(sts) => {
                    assert(before + (seq![step_view(st)] + sts) =~= after + sts);
                },
                Err(_) => {},
            }
        }
        i = i + 1;
    }
    proof {
        let v = out@.map_values(|x: Step| step_view(x));
        assert(v + Seq::<StepView>::empty() =~= v);
    }
    Ok(out)
}

/// A thread as the reader sees it.
pub struct ThreadView {
    pub id: Seq<char>,
    pub schema: ThreadSchema,
    pub owner: Seq<char>,
    pub gist: Seq<char>,
    pub steps: Seq<StepView>,
    pub ts: HlcView,
    pub extra: Map<u16, Seq<u8>>,
}

/// The fields of a thread read so far.
pub struct ThreadFields {
    pub id: Option<Seq<char>>,
    pub schema: Option<ThreadSchema>,
    pub owner: Option<Seq<char>>,
    pub gist: Option<Seq<char>>,
    pub steps: Seq<StepView>,
    pub ts: Option<HlcView>,
    pub extra: Map<u16, Seq<u8>>,
}

pub open spec fn no_thread_fields() -> ThreadFields {
    ThreadFields { id: None, schema: None, owner: None, gist: None, steps: Seq::empty(), ts: None, extra: Map::empty() }
}

/// A thread by its plain values.
pub open spec fn thread_view(t: Thread) -> ThreadView {
    ThreadView {
        id: t.id@,
        schema: t.schema,
        owner: t.owner@,
        gist: t.gist@,
        steps: t.steps@.map_values(|x: Step| step_view(x)),
        ts: hlc_view(t.ts),
        extra: extra_view(t.extra@),
    }
}

/// Reading the value under key `k` of a thread map that began at `at`.
#[verifier::opaque]
pub open spec fn thread_value(s: Seq<u8>, at: int, p: int, k: u16, st: ThreadFields) -> (Result<ThreadFields, CodecError>, int) {
    if k == keys::thread::ID || k == keys::thread::OWNER || k == keys::thread::GIST {
        let (r, q) = text_at(s, p);
        match r {
            Err(e) => (Err(e), q),
            Ok(b) => {
                let t = decode_utf8(b);
                if k == keys::thread::ID {
                    if !label_shaped(t) {
                        (Err(bad(at)), q)
                    } else {
                        (Ok(ThreadFields { id: Some(t), ..st }), q)
                    }
                } else if k == keys::thread::OWNER {
                    if !agent_ok(t) {
                        (Err(bad(at)), q)
                    } else {
                        (Ok(ThreadFields { owner: Some(t), ..st }), q)
                    }
                } else {
                    (Ok(ThreadFields { gist: Some(t), ..st }), q)
                }
            },
        }
    } else if k == keys::thread::SCHEMA {
        let (r, q) = expect_at(s, p, major::UINT);
        match r {
            Err(e) => (Err(e), q),
            Ok(v) => if v > 255 {
                (Err(bad(at)), q)
            } else {
                (Ok(ThreadFields { schema: thread_schema_of(v as u8), ..st }), q)
            },
        }
    } else if k == keys::thread::STEPS {
        let (r, q) = steps_at(s, p);
        match r {
            Err(e) => (Err(e), q),
            Ok(sts) => (Ok(ThreadFields { steps: sts, ..st }), q),
        }
    } else if k == keys::thread::TS {
        let (r, q) = hlc_at(s, p);
        match r {
            Err(e) => (Err(e), q),
            Ok(h) => (Ok(ThreadFields { ts: Some(h), ..st }), q),
        }
    } else {
        let (r, q) = skip_at(s, p, 0);
        match r {
            Err(e) => (Err(e), q),
            Ok(_) => (Ok(ThreadFields { extra: st.extra.insert(k, s.subrange(p, q)), ..st }), q),
        }
    }
}

/// Reading the `n` remaining entries of a thread map from `p`, after key `prev`.
#[verifier::opaque]
pub open spec fn thread_walk(s: Seq<u8>, at: int, p: int, n: nat, prev: Option<u16>, st: ThreadFields) -> (Result<ThreadFields, CodecError>, int)
    decreases n,
{
    if n == 0 {
        (Ok(st), p)
    } else {
        let (rk, p1) = map_key_at(s, p, prev);
        match rk {
            Err(e) => (Err(e), p1),
            Ok(k) => match null_check(s, p1) {
                Some(e) => (Err(e), p1),
                None => {
                    let (r, p2) = thread_value(s, at, p1, k, st);
                    match r {
                        Err(e) => (Err(e), p2),
                        Ok(st2) => thread_walk(s, at, p2, (n - 1) as nat, Some(k), st2),
                    }
                },
            },
        }
    }
}

/// Reading a thread at `p`: its id, schema, owner, gist and clock must be present.
pub open spec fn thread_at(s: Seq<u8>, p: int) -> (Result<ThreadView, CodecError>, int) {
    let (r, q) = expect_at(s, p, major::MAP);
    match r {
        Err(e) => (Err(e), q),
        Ok(n) => {
            let (w, q2) = thread_walk(s, p, q, (n as usize) as nat, None, no_thread_fields());
            match w {
                Err(e) => (Err(e), q2),
                Ok(f) => match (f.id, f.schema, f.owner, f.gist, f.ts) {
                    (Some(id), Some(sc), Some(ow), Some(g), Some(ts)) => (
                        Ok(ThreadView { id, schema: sc, owner: ow, gist: g, steps: f.steps, ts, extra: f.extra }),
                        q2,
                    ),
                    _ => (Err(bad(p)), q2),
                },
            }
        },
    }
}

pub open spec fn opt_thread_id_view(o: Option<ThreadId>) -> Option<Seq<char>> {
    match o {
        Some(t) => Some(t@),
        None => None,
    }
}

/// The thread fields held so far, by their plain values.
pub open spec fn thread_fields_view(
    id: Option<ThreadId>,
    schema: Option<ThreadSchema>,
    owner: Option<AgentId>,
    gist: Option<String>,
    steps: Seq<Step>,
    ts: Option<Hlc>,
    extra: Map<u16, Vec<u8>>,
) -> ThreadFields {
    ThreadFields {
        id: opt_thread_id_view(id),
        schema,
        owner: opt_agent_view(owner),
        gist: opt_view(gist),
        steps: steps.map_values(|x: Step| step_view(x)),
        ts: opt_hlc_view(ts),
        extra: extra_view(extra),
    }
}

/// Reads a thread: its payload map, each known key to its field and each unknown key kept
/// verbatim. A missing id, schema, owner, gist or clock is a malformed payload.
pub fn dec_thread(d: &mut Dec) -> (r: Result<Thread, CodecError>)
    ensures
        final(d).input() == old(d).input(),
        match thread_at(old(d).input(), old(d).offset()).0 {
            Ok(v) => r matches Ok(t) && thread_view(t) == v && final(d).offset() == thread_at(
                old(d).input(),
                old(d).offset(),
            ).1,
            Err(e) => r == Err::<Thread, CodecError>(e),
        },
{
    reveal(thread_walk);
    let ghost s = d.input();
    let at = d.position();
    let n = match d.map_head() {
        Ok(n) => n,
        Err(e) => return Err(e),
    };
    let ghost q0 = d.offset();
    let mut id: Option<ThreadId> = None;
    let mut schema: Option<ThreadSchema> = None;
    let mut owner: Option<AgentId> = None;
    let mut gist: Option<String> = None;
    let mut steps: Vec<Step> = Vec::new();
    let mut ts: Option<Hlc> = None;
    let mut extra: Extra = Extra::new();
    let mut prev: Option<u16> = None;
    let mut i: usize = 0;
    assert(steps@.map_values(|x: Step| step_view(x)) =~= Seq::<StepView>::empty());
    assert(extra_view(extra@) =~= Map::<u16, Seq<u8>>::empty());
    while i < n
        invariant
            i <= n,
            d.input() == s,
            s == old(d).input(),
            at == old(d).offset(),
            expect_at(s, at as int, major::MAP).0 matches Ok(n0) && (n0 as usize) == n,
            expect_at(s, at as int, major::MAP).1 == q0,
            thread_walk(s, at as int, q0, n as nat, None, no_thread_fields()) == thread_walk(
                s,
                at as int,
                d.offset(),
                (n - i) as nat,
                prev,
                thread_fields_view(id, schema, owner, gist, steps@, ts, extra@),
            ),
        decreases n - i,
    {
        proof {
            reveal(thread_walk);
            reveal(thread_value);
        }
        let k = match d.map_key(prev) {
            Ok(k) => k,
            Err(e) => return Err(e),
        };
        match d.reject_null() {
            Ok(()) => {},
            Err(e) => return Err(e),
        }
        let ghost p1 = d.offset();
        if k == keys::thread::ID || k == keys::thread::OWNER || k == keys::thread::GIST {
            let t = match d.text() {
                Ok(t) => t,
                Err(e) => return Err(e),
            };
            proof {
                vstd::utf8::encode_utf8_decode_utf8(t@);
            }
            if k == keys::thread::ID {
                match ThreadId::new(t) {
                    Ok(x) => {
                        id = Some(x);
                    },
                    Err(_) => return Err(malformed(at)),
                }
            } else if k == keys::thread::OWNER {
                match AgentId::new(t) {
                    Ok(x) => {
                        owner = Some(x);
                    },
                    Err(_) => return Err(malformed(at)),
                }
            } else {
                gist = Some(owned(t));
            }
        } else if k == keys::thread::SCHEMA {
            let v = match d.uint() {
                Ok(v) => v,
                Err(e) => return Err(e),
            };
            if v > 255 {
                return Err(malformed(at));
            }
            schema = ThreadSchema::from_u8(v as u8);
            proof {
                if let Some(o) = schema {
                    assert(o.code_view() == v as u8);
                }
            }
        } else if k == keys::thread::STEPS {
            match dec_steps(d) {
                Ok(v) => {
                    steps = v;
                },
                Err(e) => return Err(e),
            }
        } else if k == keys::thread::TS {
            match dec_hlc(d) {
                Ok(h) => {
                    ts = Some(h);
                },
                Err(e) => return Err(e),
            }
        } else {
            let raw = match d.skip_item() {
                Ok(raw) => raw,
                Err(e) => return Err(e),
            };
            let ghost before = extra@;
            proof {
                lemma_u16_keys_total();
            }
            extra.insert(k, vstd::slice::slice_to_vec(raw));
            proof {
                assert(extra_view(extra@) =~= extra_view(before).insert(k, s.subrange(p1, d.offset())));
            }
        }
        prev = Some(k);
        i = i + 1;
    }
    match (id, schema, owner, gist, ts) {
        (Some(x), Some(sc), Some(ow), Some(g), Some(t)) => Ok(
            Thread { id: x, schema: sc, owner: ow, gist: g, steps, ts: t, extra },
        ),
        _ => Err(malformed(at)),
    }
}

} // verus!
