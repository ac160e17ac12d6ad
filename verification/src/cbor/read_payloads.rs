//! Reading back the payloads of views, contentions, schema declarations and label bindings:
//! each known key to its field, each unknown key kept verbatim where the record keeps them.

use vstd::prelude::*;

use crate::cbor::decode::{bad, extra_view, hlc_at, hlc_view, dec_hlc, lemma_u16_keys_total, malformed, null_check, HlcView};
use crate::cbor::keys;
use crate::cbor::major;
use crate::cbor::reader::{bytes_at, expect_at, map_key_at, peek_at, skip_at, text_at, uid_at, uid_set_at, Dec};
use crate::error::{CodecError, NonDetReason};
use crate::ids::{bytes_lt, label_shaped, lang_ok, schema_shape, uids_sorted, ContentionId, Label, LangTag, SchemaId, ThreadId, Uid, ViewId};
use crate::text::owned;
use crate::types::annex::{Contention, ContentionStatus, Detected, DetectionKind, LabelBinding, SchemaDecl};
use crate::types::relation::{rel_extension, RelKind};
use crate::types::view::{
    preset_view, schema_set_add, schema_texts, schemas_distinct, thread_set_add, thread_texts, threads_distinct,
    Admission, GranularityProfile,
};
use crate::types::Extra;
use vstd::utf8::decode_utf8;

verus! {

// ---------------------------------------------------------------------------
// Relation kinds
// ---------------------------------------------------------------------------

/// The kernel relation kind with wire code `c`, if there is one.
pub open spec fn rel_kind_of(c: u8) -> Option<RelKind> {
    if exists|k: RelKind| k.code_view() == Some(c) {
        Some(choose|k: RelKind| k.code_view() == Some(c))
    } else {
        None
    }
}

/// Whether `t` names a relation kind: a kernel name, or an extension of the form
/// `x.<domain>/<kind>`.
pub open spec fn rel_text_ok(t: Seq<char>) -> bool {
    rel_extension(t) || exists|k: RelKind| k.code_view() is Some && #[trigger] k.text() == t
}

/// Reading a relation kind at `p`: a kernel kind by its code, or any kind by its name. The
/// result is the kind's name, which determines it.
pub open spec fn rel_kind_at(s: Seq<u8>, p: int) -> (Result<Seq<char>, CodecError>, int) {
    match peek_at(s, p) {
        Err(e) => (Err(e), p),
        Ok(b) => if b / 32 == major::UINT {
            let (r, q) = expect_at(s, p, major::UINT);
            match r {
                Err(e) => (Err(e), q),
                Ok(v) => if v > 255 || rel_kind_of(v as u8) is None {
                    (Err(bad(p)), q)
                } else {
                    (Ok(rel_kind_of(v as u8)->Some_0.text()), q)
                },
            }
        } else if b / 32 == major::TEXT {
            let (r, q) = text_at(s, p);
            match r {
                Err(e) => (Err(e), q),
                Ok(t) => if rel_text_ok(decode_utf8(t)) {
                    (Ok(decode_utf8(t)), q)
                } else {
                    (Err(bad(p)), q)
                },
            }
        } else {
            (Err(bad(p)), p)
        },
    }
}

/// A kind read back: its name, and a code exactly when the name is not an extension's.
pub open spec fn rel_kind_read(k: RelKind, t: Seq<char>) -> bool {
    k.text() == t && (k.code_view() is Some <==> !rel_extension(t))
}

/// Reads a relation kind.
pub fn dec_rel_kind(d: &mut Dec) -> (r: Result<RelKind, CodecError>)
    ensures
        final(d).input() == old(d).input(),
        match rel_kind_at(old(d).input(), old(d).offset()).0 {
            Ok(t) => r matches Ok(k) && rel_kind_read(k, t) && final(d).offset() == rel_kind_at(
                old(d).input(),
                old(d).offset(),
            ).1,
            Err(e) => r == Err::<RelKind, CodecError>(e),
        },
{
    proof {
        RelKind::lemma_kernel_text();
    }
    let at = d.position();
    let m = match d.peek_major() {
        Ok(m) => m,
        Err(e) => return Err(e),
    };
    if m == major::UINT {
        let v = match d.uint() {
            Ok(v) => v,
            Err(e) => return Err(e),
        };
        if v > 255 {
            return Err(malformed(at));
        }
        match RelKind::from_code(v as u8) {
            Some(k) => {
                proof {
                    let c = choose|c: RelKind| c.code_view() == Some(v as u8);
                    assert(c.text() == k.text());
                }
                Ok(k)
            },
            None => {
                proof {
                    assert forall|k: RelKind| k.code_view() != Some(v as u8) by {
                        match k {
                            RelKind::Extension(_) => {},
                            _ => {},
                        }
                    }
                }
                Err(malformed(at))
            },
        }
    } else if m == major::TEXT {
        let t = match d.text() {
            Ok(t) => t,
            Err(e) => return Err(e),
        };
        proof {
            vstd::utf8::encode_utf8_decode_utf8(t@);
        }
        match RelKind::parse(t) {
            Ok(k) => Ok(k),
            Err(_) => Err(malformed(at)),
        }
    } else {
        Err(malformed(at))
    }
}

// ---------------------------------------------------------------------------
// Granularity profiles
// ---------------------------------------------------------------------------

/// The admission rule with wire code `v`, if there is one.
pub open spec fn admission_of(v: u8) -> Option<Admission> {
    if exists|k: Admission| k.code_view() == v {
        Some(choose|k: Admission| k.code_view() == v)
    } else {
        None
    }
}

/// A granularity profile by its name, `l0_max`, `l1_min`, `l1_max` and admission.
pub type GranularityView = (Seq<char>, u32, u32, u32, Admission);

/// Reading the value under key `k` of a granularity map that began at `at`. A profile keeps
/// no unknown keys: they are read and passed over.
#[verifier::opaque]
pub open spec fn granularity_value(s: Seq<u8>, at: int, p: int, k: u16, st: GranularityView) -> (Result<GranularityView, CodecError>, int) {
    if k == keys::granularity::PROFILE {
        let (r, q) = text_at(s, p);
        match r {
            Err(e) => (Err(e), q),
            Ok(b) => (Ok((decode_utf8(b), st.1, st.2, st.3, st.4)), q),
        }
    } else if k == keys::granularity::L0_MAX || k == keys::granularity::L1_MIN || k == keys::granularity::L1_MAX {
        let (r, q) = expect_at(s, p, major::UINT);
        match r {
            Err(e) => (Err(e), q),
            Ok(v) => if v > u32::MAX {
                (Err(bad(at)), q)
            } else if k == keys::granularity::L0_MAX {
                (Ok((st.0, v as u32, st.2, st.3, st.4)), q)
            } else if k == keys::granularity::L1_MIN {
                (Ok((st.0, st.1, v as u32, st.3, st.4)), q)
            } else {
                (Ok((st.0, st.1, st.2, v as u32, st.4)), q)
            },
        }
    } else if k == keys::granularity::ADMISSION {
        let (r, q) = expect_at(s, p, major::UINT);
        match r {
            Err(e) => (Err(e), q),
            Ok(v) => if v > 255 || admission_of(v as u8) is None {
                (Err(bad(at)), q)
            } else {
                (Ok((st.0, st.1, st.2, st.3, admission_of(v as u8)->Some_0)), q)
            },
        }
    } else {
        let (r, q) = skip_at(s, p, 0);
        match r {
            Err(e) => (Err(e), q),
            Ok(_) => (Ok(st), q),
        }
    }
}

/// Reading the `n` remaining entries of a granularity map from `p`, after key `prev`.
#[verifier::opaque]
pub open spec fn granularity_walk(s: Seq<u8>, at: int, p: int, n: nat, prev: Option<u16>, st: GranularityView) -> (Result<GranularityView, CodecError>, int)
    decreases n,
{
    if n == 0 {
        (Ok(st), p)
    } else {
        let (rk, p1) = map_key_at(s, p, prev);
        match rk {
            Err(e) => (Err(e), p1),
            Ok(k) => match null_check(s, p1) {
                Some(e) => (Err(e), p1),
                None => {
                    let (r, p2) = granularity_value(s, at, p1, k, st);
                    match r {
                        Err(e) => (Err(e), p2),
                        Ok(st2) => granularity_walk(s, at, p2, (n - 1) as nat, Some(k), st2),
                    }
                },
            },
        }
    }
}

/// Reading a granularity profile at `p`: the default profile, with each field the map holds
/// read over it.
pub open spec fn granularity_at(s: Seq<u8>, p: int) -> (Result<GranularityView, CodecError>, int) {
    let (r, q) = expect_at(s, p, major::MAP);
    match r {
        Err(e) => (Err(e), q),
        Ok(n) => granularity_walk(s, p, q, (n as usize) as nat, None, preset_view("default"@)->Some_0),
    }
}

/// Reads a granularity profile.
pub fn dec_granularity(d: &mut Dec) -> (r: Result<GranularityProfile, CodecError>)
    ensures
        final(d).input() == old(d).input(),
        match granularity_at(old(d).input(), old(d).offset()).0 {
            Ok(v) => r matches Ok(g) && g.fields() == v && final(d).offset() == granularity_at(
                old(d).input(),
                old(d).offset(),
            ).1,
            Err(e) => r == Err::<GranularityProfile, CodecError>(e),
        },
{
    reveal(granularity_walk);
    let ghost s = d.input();
    let at = d.position();
    let n = match d.map_head() {
        Ok(n) => n,
        Err(e) => return Err(e),
    };
    let ghost q0 = d.offset();
    let mut g = GranularityProfile::standard();
    let mut prev: Option<u16> = None;
    let mut i: usize = 0;
    while i < n
        invariant
            i <= n,
            d.input() == s,
            s == old(d).input(),
            at == old(d).offset(),
            expect_at(s, at as int, major::MAP).0 matches Ok(n0) && (n0 as usize) == n,
            expect_at(s, at as int, major::MAP).1 == q0,
            granularity_walk(s, at as int, q0, n as nat, None, preset_view("default"@)->Some_0) == granularity_walk(
                s,
                at as int,
                d.offset(),
                (n - i) as nat,
                prev,
                g.fields(),
            ),
        decreases n - i,
    {
        proof {
            reveal(granularity_walk);
            reveal(granularity_value);
        }
        let k = match d.map_key(prev) {
            Ok(k) => k,
            Err(e) => return Err(e),
        };
        match d.reject_null() {
            Ok(()) => {},
            Err(e) => return Err(e),
        }
        if k == keys::granularity::PROFILE {
            let t = match d.text() {
                Ok(t) => t,
                Err(e) => return Err(e),
            };
            proof {
                vstd::utf8::encode_utf8_decode_utf8(t@);
            }
            g.profile = owned(t);
        } else if k == keys::granularity::L0_MAX || k == keys::granularity::L1_MIN || k == keys::granularity::L1_MAX {
            let v = match d.uint() {
                Ok(v) => v,
                Err(e) => return Err(e),
            };
            if v > u32::MAX as u64 {
                return Err(malformed(at));
            }
            if k == keys::granularity::L0_MAX {
                g.l0_max = v as u32;
            } else if k == keys::granularity::L1_MIN {
                g.l1_min = v as u32;
            } else {
                g.l1_max = v as u32;
            }
        } else if k == keys::granularity::ADMISSION {
            let v = match d.uint() {
                Ok(v) => v,
                Err(e) => return Err(e),
            };
            if v > 255 {
                return Err(malformed(at));
            }
            match Admission::from_u8(v as u8) {
                Some(a) => {
                    g.admission = a;
                },
                None => return Err(malformed(at)),
            }
        } else {
            match d.skip_item() {
                Ok(_) => {},
                Err(e) => return Err(e),
            }
        }
        prev = Some(k);
        i = i + 1;
    }
    Ok(g)
}

// ---------------------------------------------------------------------------
// Label bindings
// ---------------------------------------------------------------------------

/// A label binding as the reader sees it.
pub struct LabelBindingView {
    pub label: Seq<char>,
    pub uid: Seq<u8>,
    pub extra: Map<u16, Seq<u8>>,
}

/// The fields of a label binding read so far.
pub struct LabelBindingFields {
    pub label: Option<Seq<char>>,
    pub uid: Option<Seq<u8>>,
    pub extra: Map<u16, Seq<u8>>,
}

/// A label binding by its plain values.
pub open spec fn label_binding_view(b: LabelBinding) -> LabelBindingView {
    LabelBindingView { label: b.label@, uid: b.uid.bytes(), extra: extra_view(b.extra@) }
}

/// Reading the value under key `k` of a label binding map that began at `at`.
#[verifier::opaque]
pub open spec fn label_binding_value(s: Seq<u8>, at: int, p: int, k: u16, st: LabelBindingFields) -> (Result<LabelBindingFields, CodecError>, int) {
    if k == keys::label_binding::LABEL {
        let (r, q) = text_at(s, p);
        match r {
            Err(e) => (Err(e), q),
            Ok(b) => if !label_shaped(decode_utf8(b)) {
                (Err(bad(at)), q)
            } else {
                (Ok(LabelBindingFields { label: Some(decode_utf8(b)), ..st }), q)
            },
        }
    } else if k == keys::label_binding::UID {
        let (r, q) = uid_at(s, p);
        match r {
            Err(e) => (Err(e), q),
            Ok(u) => (Ok(LabelBindingFields { uid: Some(u), ..st }), q),
        }
    } else {
        let (r, q) = skip_at(s, p, 0);
        match r {
            Err(e) => (Err(e), q),
            Ok(_) => (Ok(LabelBindingFields { extra: st.extra.insert(k, s.subrange(p, q)), ..st }), q),
        }
    }
}

/// Reading the `n` remaining entries of a label binding map from `p`, after key `prev`.
#[verifier::opaque]
pub open spec fn label_binding_walk(s: Seq<u8>, at: int, p: int, n: nat, prev: Option<u16>, st: LabelBindingFields) -> (Result<LabelBindingFields, CodecError>, int)
    decreases n,
{
    if n == 0 {
        (Ok(st), p)
    } else {
        let (rk, p1) = map_key_at(s, p, prev);
        match rk {
            Err(e) => (Err(e), p1),
            Ok(k) => match null_check(s, p1) {
                Some(e) => (Err(e), p1),
                None => {
                    let (r, p2) = label_binding_value(s, at, p1, k, st);
                    match r {
                        Err(e) => (Err(e), p2),
                        Ok(st2) => label_binding_walk(s, at, p2, (n - 1) as nat, Some(k), st2),
                    }
                },
            },
        }
    }
}

/// Reading a label binding at `p`: both its label and its uid must be present.
pub open spec fn label_binding_at(s: Seq<u8>, p: int) -> (Result<LabelBindingView, CodecError>, int) {
    let (r, q) = expect_at(s, p, major::MAP);
    match r {
        Err(e) => (Err(e), q),
        Ok(n) => {
            let (w, q2) = label_binding_walk(
                s,
                p,
                q,
                (n as usize) as nat,
                None,
                LabelBindingFields { label: None, uid: None, extra: Map::empty() },
            );
            match w {
                Err(e) => (Err(e), q2),
                Ok(f) => match (f.label, f.uid) {
                    (Some(l), Some(u)) => (Ok(LabelBindingView { label: l, uid: u, extra: f.extra }), q2),
                    _ => (Err(bad(p)), q2),
                },
            }
        },
    }
}

/// Reads a label binding. Both keys are required: a binding missing either half binds nothing.
pub fn dec_label_binding(d: &mut Dec) -> (r: Result<LabelBinding, CodecError>)
    ensures
        final(d).input() == old(d).input(),
        match label_binding_at(old(d).input(), old(d).offset()).0 {
            Ok(v) => r matches Ok(b) && label_binding_view(b) == v && final(d).offset() == label_binding_at(
                old(d).input(),
                old(d).offset(),
            ).1,
            Err(e) => r == Err::<LabelBinding, CodecError>(e),
        },
{
    reveal(label_binding_walk);
    let ghost s = d.input();
    let at = d.position();
    let n = match d.map_head() {
        Ok(n) => n,
        Err(e) => return Err(e),
    };
    let ghost q0 = d.offset();
    let mut label: Option<Label> = None;
    let mut uid: Option<Uid> = None;
    let mut extra: Extra = Extra::new();
    let mut prev: Option<u16> = None;
    let mut i: usize = 0;
    assert(extra_view(extra@) =~= Map::<u16, Seq<u8>>::empty());
    while i < n
        invariant
            i <= n,
            d.input() == s,
            s == old(d).input(),
            at == old(d).offset(),
            expect_at(s, at as int, major::MAP).0 matches Ok(n0) && (n0 as usize) == n,
            expect_at(s, at as int, major::MAP).1 == q0,
            label_binding_walk(
                s,
                at as int,
                q0,
                n as nat,
                None,
                LabelBindingFields { label: None, uid: None, extra: Map::empty() },
            ) == label_binding_walk(
                s,
                at as int,
                d.offset(),
                (n - i) as nat,
                prev,
                LabelBindingFields {
                    label: match label {
                        Some(l) => Some(l@),
                        None => None,
                    },
                    uid: match uid {
                        Some(u) => Some(u.bytes()),
                        None => None,
                    },
                    extra: extra_view(extra@),
                },
            ),
        decreases n - i,
    {
        proof {
            reveal(label_binding_walk);
            reveal(label_binding_value);
        }
        let k = match d.map_key(prev) {
            Ok(k) => k,
            Err(e) => return Err(e),
        };
        match d.reject_null() {
            Ok(()) => {},
            Err(e) => return Err(e),
        }
        let ghost p1 = d.offset();
        if k == keys::label_binding::LABEL {
            let t = match d.text() {
                Ok(t) => t,
                Err(e) => return Err(e),
            };
            proof {
                vstd::utf8::encode_utf8_decode_utf8(t@);
            }
            match Label::new(t) {
                Ok(x) => {
                    label = Some(x);
                },
                Err(_) => return Err(malformed(at)),
            }
        } else if k == keys::label_binding::UID {
            match d.uid() {
                Ok(u) => {
                    uid = Some(u);
                },
                Err(e) => return Err(e),
            }
        } else {
            let raw = match d.skip_item() {
                Ok(raw) => raw,
                Err(e) => return Err(e),
            };
            let ghost before = extra@;
            proof {
                lemma_u16_keys_total();
            }
            extra.insert(k, vstd::slice::slice_to_vec(raw));
            proof {
                assert(extra_view(extra@) =~= extra_view(before).insert(k, s.subrange(p1, d.offset())));
            }
        }
        prev = Some(k);
        i = i + 1;
    }
    match (label, uid) {
        (Some(l), Some(u)) => Ok(LabelBinding { label: l, uid: u, extra }),
        _ => Err(malformed(at)),
    }
}

// ---------------------------------------------------------------------------
// Contentions
// ---------------------------------------------------------------------------

/// The detection kind with wire code `v`, if there is one.
pub open spec fn detection_kind_of(v: u8) -> Option<DetectionKind> {
    if exists|k: DetectionKind| k.code_view() == v {
        Some(choose|k: DetectionKind| k.code_view() == v)
    } else {
        None
    }
}

/// The contention status with wire code `v`, if there is one.
pub open spec fn contention_status_of(v: u8) -> Option<ContentionStatus> {
    if exists|k: ContentionStatus| k.code_view() == v {
        Some(choose|k: ContentionStatus| k.code_view() == v)
    } else {
        None
    }
}

/// Reading `n` more uids from `p`, in the order they come.
pub open spec fn uid_list_walk(s: Seq<u8>, p: int, n: nat) -> (Result<Seq<Seq<u8>>, CodecError>, int)
    decreases n,
{
    if n == 0 {
        (Ok(Seq::empty()), p)
    } else {
        let (r, q) = uid_at(s, p);
        match r {
            Err(e) => (Err(e), q),
            Ok(u) => {
                let (rest, q2) = uid_list_walk(s, q, (n - 1) as nat);
                match rest {
                    Err(e) => (Err(e), q2),
                    Ok(us) => (Ok(seq![u] + us), q2),
                }
            },
        }
    }
}

/// Reading an array of uids at `p`, in authored order.
pub open spec fn uid_list_at(s: Seq<u8>, p: int) -> (Result<Seq<Seq<u8>>, CodecError>, int) {
    let (r, q) = expect_at(s, p, major::ARRAY);
    match r {
        Err(e) => (Err(e), q),
        Ok(n) => uid_list_walk(s, q, (n as usize) as nat),
    }
}

/// Reads an array of uids, in authored order.
pub fn dec_uid_list(d: &mut Dec) -> (r: Result<Vec<Uid>, CodecError>)
    ensures
        final(d).input() == old(d).input(),
        match uid_list_at(old(d).input(), old(d).offset()).0 {
            Ok(v) => r matches Ok(us) && us@.map_values(|u: Uid| u.bytes()) == v && final(d).offset() == uid_list_at(
                old(d).input(),
                old(d).offset(),
            ).1,
            Err(e) => r == Err::<Vec<Uid>, CodecError>(e),
        },
{
    let ghost s = d.input();
    let n = match d.array_head() {
        Ok(n) => n,
        Err(e) => return Err(e),
    };
    let ghost q0 = d.offset();
    let mut out: Vec<Uid> = Vec::new();
    let mut i: usize = 0;
    while i < n
        invariant
            i <= n,
            d.input() == s,
            s == old(d).input(),
            expect_at(s, old(d).offset(), major::ARRAY).0 matches Ok(n0) && (n0 as usize) == n,
            expect_at(s, old(d).offset(), major::ARRAY).1 == q0,
            out@.len() == i,
            ({
                let (total, qt) = uid_list_walk(s, q0, n as nat);
                let (rest, qr) = uid_list_walk(s, d.offset(), (n - i) as nat);
                qt == qr && match rest {
                    Err(e) => total == Err::<Seq<Seq<u8>>, CodecError>(e),
                    Ok(us) => total == Ok::<Seq<Seq<u8>>, CodecError>(out@.map_values(|u: Uid| u.bytes()) + us),
                }
            }),
        decreases n - i,
    {
        let u = match d.uid() {
            Ok(u) => u,
            Err(e) => return Err(e),
        };
        let ghost before = out@.map_values(|x: Uid| x.bytes());
        out.push(u);
        proof {
            let after = out@.map_values(|x: Uid| x.bytes());
            assert(after =~= before.push(u.bytes()));
            let (rest, qr) = uid_list_walk(s, d.offset(), (n - i - 1) as nat);
            match rest {
                Ok(us) => {
                    assert(before + (seq![u.bytes()] + us) =~= after + us);
                },
                Err(_) => {},
            }
        }
        i = i + 1;
    }
    proof {
        let v = out@.map_values(|x: Uid| x.bytes());
        assert(v + Seq::<Seq<u8>>::empty() =~= v);
    }
    Ok(out)
}

/// Reading how a contention was detected, at `p`: an array of a detection kind's code and a
/// clock.
pub open spec fn detected_at(s: Seq<u8>, p: int) -> (Result<(DetectionKind, HlcView), CodecError>, int) {
    let (r, q) = expect_at(s, p, major::ARRAY);
    match r {
        Err(e) => (Err(e), q),
        Ok(m) => if (m as usize) != 2 {
            (Err(bad(p)), q)
        } else {
            let (rv, q1) = expect_at(s, q, major::UINT);
            match rv {
                Err(e) => (Err(e), q1),
                Ok(v) => if v > 255 || detection_kind_of(v as u8) is None {
                    (Err(bad(p)), q1)
                } else {
                    let (rh, q2) = hlc_at(s, q1);
                    match rh {
                        Err(e) => (Err(e), q2),
                        Ok(h) => (Ok((detection_kind_of(v as u8)->Some_0, h)), q2),
                    }
                },
            }
        },
    }
}

/// Reads how a contention was detected.
pub fn dec_detected(d: &mut Dec) -> (r: Result<Detected, CodecError>)
    ensures
        final(d).input() == old(d).input(),
        match detected_at(old(d).input(), old(d).offset()).0 {
            Ok(v) => r matches Ok(x) && (x.kind, hlc_view(x.ts)) == v && final(d).offset() == detected_at(
                old(d).input(),
                old(d).offset(),
            ).1,
            Err(e) => r == Err::<Detected, CodecError>(e),
        },
{
    let a = d.position();
    let m = match d.array_head() {
        Ok(m) => m,
        Err(e) => return Err(e),
    };
    if m != 2 {
        return Err(malformed(a));
    }
    let v = match d.uint() {
        Ok(v) => v,
        Err(e) => return Err(e),
    };
    if v > 255 {
        return Err(malformed(a));
    }
    let kind = match DetectionKind::from_u8(v as u8) {
        Some(k) => k,
        None => return Err(malformed(a)),
    };
    let ts = match dec_hlc(d) {
        Ok(h) => h,
        Err(e) => return Err(e),
    };
    Ok(Detected { kind, ts })
}

/// A contention as the reader sees it.
pub struct ContentionView {
    pub id: Seq<char>,
    pub over: Seq<u8>,
    pub positions: Seq<Seq<u8>>,
    pub detected: (DetectionKind, HlcView),
    pub status: ContentionStatus,
    pub extra: Map<u16, Seq<u8>>,
}

/// The fields of a contention read so far.
pub struct ContentionFields {
    pub id: Option<Seq<char>>,
    pub over: Option<Seq<u8>>,
    pub positions: Seq<Seq<u8>>,
    pub detected: Option<(DetectionKind, HlcView)>,
    pub status: Option<ContentionStatus>,
    pub extra: Map<u16, Seq<u8>>,
}

pub open spec fn no_contention_fields() -> ContentionFields {
    ContentionFields { id: None, over: None, positions: Seq::empty(), detected: None, status: None, extra: Map::empty() }
}

/// A contention by its plain values.
pub open spec fn contention_view(c: Contention) -> ContentionView {
    ContentionView {
        id: c.id@,
        over: c.over.bytes(),
        positions: c.positions@.map_values(|u: Uid| u.bytes()),
        detected: (c.detected.kind, hlc_view(c.detected.ts)),
        status: c.status,
        extra: extra_view(c.extra@),
    }
}

/// Reading the value under key `k` of a contention map that began at `at`. A status code
/// with no status leaves the status unread, which the record then lacks.
#[verifier::opaque]
pub open spec fn contention_value(s: Seq<u8>, at: int, p: int, k: u16, st: ContentionFields) -> (Result<ContentionFields, CodecError>, int) {
    if k == keys::contention::ID {
        let (r, q) = text_at(s, p);
        match r {
            Err(e) => (Err(e), q),
            Ok(b) => if !label_shaped(decode_utf8(b)) {
                (Err(bad(at)), q)
            } else {
                (Ok(ContentionFields { id: Some(decode_utf8(b)), ..st }), q)
            },
        }
    } else if k == keys::contention::OVER {
        let (r, q) = uid_at(s, p);
        match r {
            Err(e) => (Err(e), q),
            Ok(u) => (Ok(ContentionFields { over: Some(u), ..st }), q),
        }
    } else if k == keys::contention::POSITIONS {
        let (r, q) = uid_list_at(s, p);
        match r {
            Err(e) => (Err(e), q),
            Ok(us) => (Ok(ContentionFields { positions: us, ..st }), q),
        }
    } else if k == keys::contention::DETECTED {
        let (r, q) = detected_at(s, p);
        match r {
            Err(e) => (Err(e), q),
            Ok(x) => (Ok(ContentionFields { detected: Some(x), ..st }), q),
        }
    } else if k == keys::contention::STATUS {
        let (r, q) = expect_at(s, p, major::UINT);
        match r {
            Err(e) => (Err(e), q),
            Ok(v) => if v > 255 {
                (Err(bad(at)), q)
            } else {
                (Ok(ContentionFields { status: contention_status_of(v as u8), ..st }), q)
            },
        }
    } else {
        let (r, q) = skip_at(s, p, 0);
        match r {
            Err(e) => (Err(e), q),
            Ok(_) => (Ok(ContentionFields { extra: st.extra.insert(k, s.subrange(p, q)), ..st }), q),
        }
    }
}

/// Reading the `n` remaining entries of a contention map from `p`, after key `prev`.
#[verifier::opaque]
pub open spec fn contention_walk(s: Seq<u8>, at: int, p: int, n: nat, prev: Option<u16>, st: ContentionFields) -> (Result<ContentionFields, CodecError>, int)
    decreases n,
{
    if n == 0 {
        (Ok(st), p)
    } else {
        let (rk, p1) = map_key_at(s, p, prev);
        match rk {
            Err(e) => (Err(e), p1),
            Ok(k) => match null_check(s, p1) {
                Some(e) => (Err(e), p1),
                None => {
                    let (r, p2) = contention_value(s, at, p1, k, st);
                    match r {
                        Err(e) => (Err(e), p2),
                        Ok(st2) => contention_walk(s, at, p2, (n - 1) as nat, Some(k), st2),
                    }
                },
            },
        }
    }
}

/// Reading a contention at `p`: its id, the unit it is over, how it was detected and its
/// status must be present.
pub open spec fn contention_at(s: Seq<u8>, p: int) -> (Result<ContentionView, CodecError>, int) {
    let (r, q) = expect_at(s, p, major::MAP);
    match r {
        Err(e) => (Err(e), q),
        Ok(n) => {
            let (w, q2) = contention_walk(s, p, q, (n as usize) as nat, None, no_contention_fields());
            match w {
                Err(e) => (Err(e), q2),
                Ok(f) => match (f.id, f.over, f.detected, f.status) {
                    (Some(id), Some(over), Some(det), Some(st)) => (
                        Ok(ContentionView { id, over, positions: f.positions, detected: det, status: st, extra: f.extra }),
                        q2,
                    ),
                    _ => (Err(bad(p)), q2),
                },
            }
        },
    }
}

/// Reads a contention.
pub fn dec_contention(d: &mut Dec) -> (r: Result<Contention, CodecError>)
    ensures
        final(d).input() == old(d).input(),
        match contention_at(old(d).input(), old(d).offset()).0 {
            Ok(v) => r matches Ok(c) && contention_view(c) == v && final(d).offset() == contention_at(
                old(d).input(),
                old(d).offset(),
            ).1,
            Err(e) => r == Err::<Contention, CodecError>(e),
        },
{
    reveal(contention_walk);
    let ghost s = d.input();
    let at = d.position();
    let n = match d.map_head() {
        Ok(n) => n,
        Err(e) => return Err(e),
    };
    let ghost q0 = d.offset();
    let mut id: Option<ContentionId> = None;
    let mut over: Option<Uid> = None;
    let mut positions: Vec<Uid> = Vec::new();
    let mut detected: Option<Detected> = None;
    let mut status: Option<ContentionStatus> = None;
    let mut extra: Extra = Extra::new();
    let mut prev: Option<u16> = None;
    let mut i: usize = 0;
    assert(positions@.map_values(|u: Uid| u.bytes()) =~= Seq::<Seq<u8>>::empty());
    assert(extra_view(extra@) =~= Map::<u16, Seq<u8>>::empty());
    while i < n
        invariant
            i <= n,
            d.input() == s,
            s == old(d).input(),
            at == old(d).offset(),
            expect_at(s, at as int, major::MAP).0 matches Ok(n0) && (n0 as usize) == n,
            expect_at(s, at as int, major::MAP).1 == q0,
            contention_walk(s, at as int, q0, n as nat, None, no_contention_fields()) == contention_walk(
                s,
                at as int,
                d.offset(),
                (n - i) as nat,
                prev,
                ContentionFields {
                    id: match id {
                        Some(x) => Some(x@),
                        None => None,
                    },
                    over: match over {
                        Some(u) => Some(u.bytes()),
                        None => None,
                    },
                    positions: positions@.map_values(|u: Uid| u.bytes()),
                    detected: match detected {
                        Some(x) => Some((x.kind, hlc_view(x.ts))),
                        None => None,
                    },
                    status,
                    extra: extra_view(extra@),
                },
            ),
        decreases n - i,
    {
        proof {
            reveal(contention_walk);
            reveal(contention_value);
        }
        let k = match d.map_key(prev) {
            Ok(k) => k,
            Err(e) => return Err(e),
        };
        match d.reject_null() {
            Ok(()) => {},
            Err(e) => return Err(e),
        }
        let ghost p1 = d.offset();
        if k == keys::contention::ID {
            let t = match d.text() {
                Ok(t) => t,
                Err(e) => return Err(e),
            };
            proof {
                vstd::utf8::encode_utf8_decode_utf8(t@);
            }
            match ContentionId::new(t) {
                Ok(x) => {
                    id = Some(x);
                },
                Err(_) => return Err(malformed(at)),
            }
        } else if k == keys::contention::OVER {
            match d.uid() {
                Ok(u) => {
                    over = Some(u);
                },
                Err(e) => return Err(e),
            }
        } else if k == keys::contention::POSITIONS {
            match dec_uid_list(d) {
                Ok(v) => {
                    positions = v;
                },
                Err(e) => return Err(e),
            }
        } else if k == keys::contention::DETECTED {
            match dec_detected(d) {
                Ok(x) => {
                    detected = Some(x);
                },
                Err(e) => return Err(e),
            }
        } else if k == keys::contention::STATUS {
            let v = match d.uint() {
                Ok(v) => v,
                Err(e) => return Err(e),
            };
            if v > 255 {
                return Err(malformed(at));
            }
            status = ContentionStatus::from_u8(v as u8);
            proof {
                if let Some(o) = status {
                    assert(o.code_view() == v as u8);
                }
            }
        } else {
            let raw = match d.skip_item() {
                Ok(raw) => raw,
                Err(e) => return Err(e),
            };
            let ghost before = extra@;
            proof {
                lemma_u16_keys_total();
            }
            extra.insert(k, vstd::slice::slice_to_vec(raw));
            proof {
                assert(extra_view(extra@) =~= extra_view(before).insert(k, s.subrange(p1, d.offset())));
            }
        }
        prev = Some(k);
        i = i + 1;
    }
    match (id, over, detected, status) {
        (Some(x), Some(o), Some(det), Some(st)) => Ok(
            Contention { id: x, over: o, positions, detected: det, status: st, extra },
        ),
        _ => Err(malformed(at)),
    }
}

// ---------------------------------------------------------------------------
// Schema declarations
// ---------------------------------------------------------------------------

/// Reading `n` more schema ids from `p`, in the order they come; a malformed id is reported
/// at `at`, where the record began.
pub open spec fn schema_list_walk(s: Seq<u8>, at: int, p: int, n: nat) -> (Result<Seq<Seq<char>>, CodecError>, int)
    decreases n,
{
    if n == 0 {
        (Ok(Seq::empty()), p)
    } else {
        let (r, q) = text_at(s, p);
        match r {
            Err(e) => (Err(e), q),
            Ok(b) => if schema_shape(decode_utf8(b)) == 3 {
                (Err(bad(at)), q)
            } else {
                let (rest, q2) = schema_list_walk(s, at, q, (n - 1) as nat);
                match rest {
                    Err(e) => (Err(e), q2),
                    Ok(ts) => (Ok(seq![decode_utf8(b)] + ts), q2),
                }
            },
        }
    }
}

/// Reading an array of schema ids at `p`, in authored order.
pub open spec fn schema_list_at(s: Seq<u8>, at: int, p: int) -> (Result<Seq<Seq<char>>, CodecError>, int) {
    let (r, q) = expect_at(s, p, major::ARRAY);
    match r {
        Err(e) => (Err(e), q),
        Ok(n) => schema_list_walk(s, at, q, (n as usize) as nat),
    }
}

/// Reads an array of schema ids, in authored order; a malformed id is reported at `at`.
pub fn dec_schema_list(d: &mut Dec, at: usize) -> (r: Result<Vec<SchemaId>, CodecError>)
    ensures
        final(d).input() == old(d).input(),
        match schema_list_at(old(d).input(), at as int, old(d).offset()).0 {
            Ok(v) => r matches Ok(ids) && ids@.map_values(|x: SchemaId| x.text()) == v && final(d).offset()
                == schema_list_at(old(d).input(), at as int, old(d).offset()).1,
            Err(e) => r == Err::<Vec<SchemaId>, CodecError>(e),
        },
{
    let ghost s = d.input();
    let n = match d.array_head() {
        Ok(n) => n,
        Err(e) => return Err(e),
    };
    let ghost q0 = d.offset();
    let mut out: Vec<SchemaId> = Vec::new();
    let mut i: usize = 0;
    while i < n
        invariant
            i <= n,
            d.input() == s,
            s == old(d).input(),
            expect_at(s, old(d).offset(), major::ARRAY).0 matches Ok(n0) && (n0 as usize) == n,
            expect_at(s, old(d).offset(), major::ARRAY).1 == q0,
            out@.len() == i,
            ({
                let (total, qt) = schema_list_walk(s, at as int, q0, n as nat);
                let (rest, qr) = schema_list_walk(s, at as int, d.offset(), (n - i) as nat);
                qt == qr && match rest {
                    Err(e) => total == Err::<Seq<Seq<char>>, CodecError>(e),
                    Ok(ts) => total == Ok::<Seq<Seq<char>>, CodecError>(out@.map_values(|x: SchemaId| x.text()) + ts),
                }
            }),
        decreases n - i,
    {
        let t = match d.text() {
            Ok(t) => t,
            Err(e) => return Err(e),
        };
        proof {
            vstd::utf8::encode_utf8_decode_utf8(t@);
        }
        let x = match SchemaId::parse(t) {
            Ok(x) => x,
            Err(_) => return Err(malformed(at)),
        };
        let ghost before = out@.map_values(|y: SchemaId| y.text());
        out.push(x);
        proof {
            let after = out@.map_values(|y: SchemaId| y.text());
            assert(after =~= before.push(x.text()));
            let (rest, qr) = schema_list_walk(s, at as int, d.offset(), (n - i - 1) as nat);
            match rest {
                Ok(ts) => {
                    assert(before + (seq![x.text()] + ts) =~= after + ts);
                },
                Err(_) => {},
            }
        }
        i = i + 1;
    }
    proof {
        let v = out@.map_values(|y: SchemaId| y.text());
        assert(v + Seq::<Seq<char>>::empty() =~= v);
    }
    Ok(out)
}

/// Reading `n` more relation kinds from `p`, in the order they come.
pub open spec fn rel_list_walk(s: Seq<u8>, p: int, n: nat) -> (Result<Seq<Seq<char>>, CodecError>, int)
    decreases n,
{
    if n == 0 {
        (Ok(Seq::empty()), p)
    } else {
        let (r, q) = rel_kind_at(s, p);
        match r {
            Err(e) => (Err(e), q),
            Ok(t) => {
                let (rest, q2) = rel_list_walk(s, q, (n - 1) as nat);
                match rest {
                    Err(e) => (Err(e), q2),
                    Ok(ts) => (Ok(seq![t] + ts), q2),
                }
            },
        }
    }
}

/// Reading an array of relation kinds at `p`, in authored order.
pub open spec fn rel_list_at(s: Seq<u8>, p: int) -> (Result<Seq<Seq<char>>, CodecError>, int) {
    let (r, q) = expect_at(s, p, major::ARRAY);
    match r {
        Err(e) => (Err(e), q),
        Ok(n) => rel_list_walk(s, q, (n as usize) as nat),
    }
}

/// Reads an array of relation kinds, in authored order.
pub fn dec_rel_list(d: &mut Dec) -> (r: Result<Vec<RelKind>, CodecError>)
    ensures
        final(d).input() == old(d).input(),
        match rel_list_at(old(d).input(), old(d).offset()).0 {
            Ok(v) => r matches Ok(ks) && ks@.len() == v.len() && (forall|i: int| 0 <= i < v.len() ==> rel_kind_read(
                #[trigger] ks@[i],
                v[i],
            )) && final(d).offset() == rel_list_at(old(d).input(), old(d).offset()).1,
            Err(e) => r == Err::<Vec<RelKind>, CodecError>(e),
        },
{
    let ghost s = d.input();
    let n = match d.array_head() {
        Ok(n) => n,
        Err(e) => return Err(e),
    };
    let ghost q0 = d.offset();
    let mut out: Vec<RelKind> = Vec::new();
    let ghost mut names: Seq<Seq<char>> = Seq::empty();
    let mut i: usize = 0;
    while i < n
        invariant
            i <= n,
            d.input() == s,
            s == old(d).input(),
            expect_at(s, old(d).offset(), major::ARRAY).0 matches Ok(n0) && (n0 as usize) == n,
            expect_at(s, old(d).offset(), major::ARRAY).1 == q0,
            out@.len() == i,
            names.len() == i,
            forall|j: int| 0 <= j < i ==> rel_kind_read(#[trigger] out@[j], names[j]),
            ({
                let (total, qt) = rel_list_walk(s, q0, n as nat);
                let (rest, qr) = rel_list_walk(s, d.offset(), (n - i) as nat);
                qt == qr && match rest {
                    Err(e) => total == Err::<Seq<Seq<char>>, CodecError>(e),
                    Ok(ts) => total == Ok::<Seq<Seq<char>>, CodecError>(names + ts),
                }
            }),
        decreases n - i,
    {
        let ghost p0 = d.offset();
        let k = match dec_rel_kind(d) {
            Ok(k) => k,
            Err(e) => return Err(e),
        };
        let ghost t = rel_kind_at(s, p0).0->Ok_0;
        let ghost before = names;
        out.push(k);
        proof {
            names = names.push(t);
            let (rest, qr) = rel_list_walk(s, d.offset(), (n - i - 1) as nat);
            match rest {
                Ok(ts) => {
                    assert(before + (seq![t] + ts) =~= names + ts);
                },
                Err(_) => {},
            }
        }
        i = i + 1;
    }
    proof {
        assert(names + Seq::<Seq<char>>::empty() =~= names);
    }
    Ok(out)
}

/// A schema declaration as the reader sees it.
pub struct SchemaDeclView {
    pub id: Seq<char>,
    pub version: u32,
    pub types: Seq<Seq<char>>,
    pub relations: Seq<Seq<char>>,
    pub payload_shape: Option<Seq<u8>>,
    pub extra: Map<u16, Seq<u8>>,
}

/// The fields of a schema declaration read so far.
pub struct SchemaDeclFields {
    pub id: Option<Seq<char>>,
    pub version: u32,
    pub types: Seq<Seq<char>>,
    pub relations: Seq<Seq<char>>,
    pub payload_shape: Option<Seq<u8>>,
    pub extra: Map<u16, Seq<u8>>,
}

pub open spec fn no_schema_decl_fields() -> SchemaDeclFields {
    SchemaDeclFields {
        id: None,
        version: 0,
        types: Seq::empty(),
        relations: Seq::empty(),
        payload_shape: None,
        extra: Map::empty(),
    }
}

/// A schema declaration read back: each field as read, each relation kind by its name.
pub open spec fn schema_decl_read(d: SchemaDecl, v: SchemaDeclView) -> bool {
    &&& d.id.text() == v.id
    &&& d.version == v.version
    &&& d.types@.map_values(|x: SchemaId| x.text()) == v.types
    &&& d.relations@.len() == v.relations.len()
    &&& forall|i: int| 0 <= i < v.relations.len() ==> rel_kind_read(#[trigger] d.relations@[i], v.relations[i])
    &&& (match d.payload_shape {
        Some(b) => v.payload_shape == Some(b@),
        None => v.payload_shape is None,
    })
    &&& extra_view(d.extra@) == v.extra
}

/// Reading the value under key `k` of a schema declaration map that began at `at`.
#[verifier::opaque]
pub open spec fn schema_decl_value(s: Seq<u8>, at: int, p: int, k: u16, st: SchemaDeclFields) -> (Result<SchemaDeclFields, CodecError>, int) {
    if k == keys::schema_decl::ID {
        let (r, q) = text_at(s, p);
        match r {
            Err(e) => (Err(e), q),
            Ok(b) => if schema_shape(decode_utf8(b)) == 3 {
                (Err(bad(at)), q)
            } else {
                (Ok(SchemaDeclFields { id: Some(decode_utf8(b)), ..st }), q)
            },
        }
    } else if k == keys::schema_decl::VERSION {
        let (r, q) = expect_at(s, p, major::UINT);
        match r {
            Err(e) => (Err(e), q),
            Ok(v) => if v > u32::MAX {
                (Err(bad(at)), q)
            } else {
                (Ok(SchemaDeclFields { version: v as u32, ..st }), q)
            },
        }
    } else if k == keys::schema_decl::TYPES {
        let (r, q) = schema_list_at(s, at, p);
        match r {
            Err(e) => (Err(e), q),
            Ok(ts) => (Ok(SchemaDeclFields { types: ts, ..st }), q),
        }
    } else if k == keys::schema_decl::RELATIONS {
        let (r, q) = rel_list_at(s, p);
        match r {
            Err(e) => (Err(e), q),
            Ok(ks) => (Ok(SchemaDeclFields { relations: ks, ..st }), q),
        }
    } else if k == keys::schema_decl::PAYLOAD_SHAPE {
        let (r, q) = bytes_at(s, p);
        match r {
            Err(e) => (Err(e), q),
            Ok(b) => (Ok(SchemaDeclFields { payload_shape: Some(b), ..st }), q),
        }
    } else {
        let (r, q) = skip_at(s, p, 0);
        match r {
            Err(e) => (Err(e), q),
            Ok(_) => (Ok(SchemaDeclFields { extra: st.extra.insert(k, s.subrange(p, q)), ..st }), q),
        }
    }
}

/// Reading the `n` remaining entries of a schema declaration map from `p`, after key `prev`.
#[verifier::opaque]
pub open spec fn schema_decl_walk(s: Seq<u8>, at: int, p: int, n: nat, prev: Option<u16>, st: SchemaDeclFields) -> (Result<SchemaDeclFields, CodecError>, int)
    decreases n,
{
    if n == 0 {
        (Ok(st), p)
    } else {
        let (rk, p1) = map_key_at(s, p, prev);
        match rk {
            Err(e) => (Err(e), p1),
            Ok(k) => match null_check(s, p1) {
                Some(e) => (Err(e), p1),
                None => {
                    let (r, p2) = schema_decl_value(s, at, p1, k, st);
                    match r {
                        Err(e) => (Err(e), p2),
                        Ok(st2) => schema_decl_walk(s, at, p2, (n - 1) as nat, Some(k), st2),
                    }
                },
            },
        }
    }
}

/// Reading a schema declaration at `p`: its id must be present; its version is zero and its
/// lists are empty unless the map says otherwise.
pub open spec fn schema_decl_at(s: Seq<u8>, p: int) -> (Result<SchemaDeclView, CodecError>, int) {
    let (r, q) = expect_at(s, p, major::MAP);
    match r {
        Err(e) => (Err(e), q),
        Ok(n) => {
            let (w, q2) = schema_decl_walk(s, p, q, (n as usize) as nat, None, no_schema_decl_fields());
            match w {
                Err(e) => (Err(e), q2),
                Ok(f) => match f.id {
                    Some(id) => (
                        Ok(
                            SchemaDeclView {
                                id,
                                version: f.version,
                                types: f.types,
                                relations: f.relations,
                                payload_shape: f.payload_shape,
                                extra: f.extra,
                            },
                        ),
                        q2,
                    ),
                    None => (Err(bad(p)), q2),
                },
            }
        },
    }
}

/// The fields of a schema declaration held so far, with the names of its relation kinds.
pub open spec fn schema_decl_fields_view(
    id: Option<SchemaId>,
    version: u32,
    types: Seq<SchemaId>,
    names: Seq<Seq<char>>,
    payload_shape: Option<Vec<u8>>,
    extra: Map<u16, Vec<u8>>,
) -> SchemaDeclFields {
    SchemaDeclFields {
        id: match id {
            Some(x) => Some(x.text()),
            None => None,
        },
        version,
        types: types.map_values(|x: SchemaId| x.text()),
        relations: names,
        payload_shape: match payload_shape {
            Some(b) => Some(b@),
            None => None,
        },
        extra: extra_view(extra),
    }
}

/// Reads a schema declaration.
pub fn dec_schema_decl(d: &mut Dec) -> (r: Result<SchemaDecl, CodecError>)
    ensures
        final(d).input() == old(d).input(),
        match schema_decl_at(old(d).input(), old(d).offset()).0 {
            Ok(v) => r matches Ok(x) && schema_decl_read(x, v) && final(d).offset() == schema_decl_at(
                old(d).input(),
                old(d).offset(),
            ).1,
            Err(e) => r == Err::<SchemaDecl, CodecError>(e),
        },
{
    reveal(schema_decl_walk);
    let ghost s = d.input();
    let at = d.position();
    let n = match d.map_head() {
        Ok(n) => n,
        Err(e) => return Err(e),
    };
    let ghost q0 = d.offset();
    let mut id: Option<SchemaId> = None;
    let mut version: u32 = 0;
    let mut types: Vec<SchemaId> = Vec::new();
    let mut relations: Vec<RelKind> = Vec::new();
    let ghost mut names: Seq<Seq<char>> = Seq::empty();
    let mut payload_shape: Option<Vec<u8>> = None;
    let mut extra: Extra = Extra::new();
    let mut prev: Option<u16> = None;
    let mut i: usize = 0;
    assert(types@.map_values(|x: SchemaId| x.text()) =~= Seq::<Seq<char>>::empty());
    assert(extra_view(extra@) =~= Map::<u16, Seq<u8>>::empty());
    while i < n
        invariant
            i <= n,
            d.input() == s,
            s == old(d).input(),
            at == old(d).offset(),
            expect_at(s, at as int, major::MAP).0 matches Ok(n0) && (n0 as usize) == n,
            expect_at(s, at as int, major::MAP).1 == q0,
            relations@.len() == names.len(),
            forall|j: int| 0 <= j < names.len() ==> rel_kind_read(#[trigger] relations@[j], names[j]),
            schema_decl_walk(s, at as int, q0, n as nat, None, no_schema_decl_fields()) == schema_decl_walk(
                s,
                at as int,
                d.offset(),
                (n - i) as nat,
                prev,
                schema_decl_fields_view(id, version, types@, names, payload_shape, extra@),
            ),
        decreases n - i,
    {
        proof {
            reveal(schema_decl_walk);
            reveal(schema_decl_value);
        }
        let k = match d.map_key(prev) {
            Ok(k) => k,
            Err(e) => return Err(e),
        };
        match d.reject_null() {
            Ok(()) => {},
            Err(e) => return Err(e),
        }
        let ghost p1 = d.offset();
        if k == keys::schema_decl::ID {
            let t = match d.text() {
                Ok(t) => t,
                Err(e) => return Err(e),
            };
            proof {
                vstd::utf8::encode_utf8_decode_utf8(t@);
            }
            match SchemaId::parse(t) {
                Ok(x) => {
                    id = Some(x);
                },
                Err(_) => return Err(malformed(at)),
            }
        } else if k == keys::schema_decl::VERSION {
            let v = match d.uint() {
                Ok(v) => v,
                Err(e) => return Err(e),
            };
            if v > u32::MAX as u64 {
                return Err(malformed(at));
            }
            version = v as u32;
        } else if k == keys::schema_decl::TYPES {
            match dec_schema_list(d, at) {
                Ok(v) => {
                    types = v;
                },
                Err(e) => return Err(e),
            }
        } else if k == keys::schema_decl::RELATIONS {
            match dec_rel_list(d) {
                Ok(v) => {
                    relations = v;
                    proof {
                        names = rel_list_at(s, p1).0->Ok_0;
                    }
                },
                Err(e) => return Err(e),
            }
        } else if k == keys::schema_decl::PAYLOAD_SHAPE {
            match d.bytes() {
                Ok(b) => {
                    payload_shape = Some(vstd::slice::slice_to_vec(b));
                },
                Err(e) => return Err(e),
            }
        } else {
            let raw = match d.skip_item() {
                Ok(raw) => raw,
                Err(e) => return Err(e),
            };
            let ghost before = extra@;
            proof {
                lemma_u16_keys_total();
            }
            extra.insert(k, vstd::slice::slice_to_vec(raw));
            proof {
                assert(extra_view(extra@) =~= extra_view(before).insert(k, s.subrange(p1, d.offset())));
            }
        }
        prev = Some(k);
        i = i + 1;
    }
    match id {
        Some(x) => Ok(SchemaDecl { id: x, version, types, relations, payload_shape, extra }),
        None => Err(malformed(at)),
    }
}

// ---------------------------------------------------------------------------
// Views
// ---------------------------------------------------------------------------

/// Whether `t` names an id of the kind a set holds: a schema id where `schemas`, a thread id
/// otherwise.
pub open spec fn id_text_ok(t: Seq<char>, schemas: bool) -> bool {
    if schemas {
        schema_shape(t) != 3
    } else {
        label_shaped(t)
    }
}

/// Reading `n` more ids of a set from `p`: each must be well-formed, else the record that
/// began at `at` is malformed, and their encodings must ascend strictly after `prev`, else
/// the set that began at `set_at` is not canonical.
pub open spec fn id_set_walk(s: Seq<u8>, at: int, p: int, n: nat, prev: Option<Seq<u8>>, set_at: int, schemas: bool) -> (Result<Seq<Seq<char>>, CodecError>, int)
    decreases n,
{
    if n == 0 {
        (Ok(Seq::empty()), p)
    } else {
        let (r, q) = text_at(s, p);
        match r {
            Err(e) => (Err(e), q),
            Ok(b) => if !id_text_ok(decode_utf8(b), schemas) {
                (Err(bad(at)), q)
            } else if prev matches Some(pv) && !bytes_lt(pv, s.subrange(p, q)) {
                (Err(CodecError::NonDeterministic { at: set_at as usize, reason: NonDetReason::UnsortedSet }), q)
            } else {
                let (rest, q2) = id_set_walk(s, at, q, (n - 1) as nat, Some(s.subrange(p, q)), set_at, schemas);
                match rest {
                    Err(e) => (Err(e), q2),
                    Ok(ts) => (Ok(seq![decode_utf8(b)] + ts), q2),
                }
            },
        }
    }
}

/// Reading a set of ids at `p`: an array of texts ascending strictly by their encodings.
pub open spec fn id_set_at(s: Seq<u8>, at: int, p: int, schemas: bool) -> (Result<Seq<Seq<char>>, CodecError>, int) {
    let (r, q) = expect_at(s, p, major::ARRAY);
    match r {
        Err(e) => (Err(e), q),
        Ok(n) => id_set_walk(s, at, q, (n as usize) as nat, None, p, schemas),
    }
}

/// Reads a set of thread ids; a malformed id is reported at `at`.
pub fn dec_thread_set(d: &mut Dec, at: usize) -> (r: Result<Vec<ThreadId>, CodecError>)
    ensures
        final(d).input() == old(d).input(),
        match id_set_at(old(d).input(), at as int, old(d).offset(), false).0 {
            Ok(ts) => r matches Ok(v) && threads_distinct(v@) && thread_texts(v@) == ts.to_set() && final(d).offset()
                == id_set_at(old(d).input(), at as int, old(d).offset(), false).1,
            Err(e) => r == Err::<Vec<ThreadId>, CodecError>(e),
        },
{
    let ghost s = d.input();
    let set_at = d.position();
    let n = match d.array_head() {
        Ok(n) => n,
        Err(e) => return Err(e),
    };
    let ghost q0 = d.offset();
    let mut out: Vec<ThreadId> = Vec::new();
    let ghost mut seen: Seq<Seq<char>> = Seq::empty();
    let mut prev: Option<&[u8]> = None;
    let mut i: usize = 0;
    assert(thread_texts(out@) =~= seen.to_set());
    while i < n
        invariant
            i <= n,
            d.input() == s,
            s == old(d).input(),
            set_at == old(d).offset(),
            expect_at(s, set_at as int, major::ARRAY).0 matches Ok(n0) && (n0 as usize) == n,
            expect_at(s, set_at as int, major::ARRAY).1 == q0,
            threads_distinct(out@),
            thread_texts(out@) == seen.to_set(),
            ({
                let (total, qt) = id_set_walk(s, at as int, q0, n as nat, None, set_at as int, false);
                let (rest, qr) = id_set_walk(s, at as int, d.offset(), (n - i) as nat, match prev {
                    Some(pv) => Some(pv@),
                    None => None,
                }, set_at as int, false);
                qt == qr && match rest {
                    Err(e) => total == Err::<Seq<Seq<char>>, CodecError>(e),
                    Ok(ts) => total == Ok::<Seq<Seq<char>>, CodecError>(seen + ts),
                }
            }),
        decreases n - i,
    {
        let start = d.position();
        let t = match d.text() {
            Ok(t) => t,
            Err(e) => return Err(e),
        };
        proof {
            vstd::utf8::encode_utf8_decode_utf8(t@);
        }
        let x = match ThreadId::new(t) {
            Ok(x) => x,
            Err(_) => return Err(malformed(at)),
        };
        let raw = d.read_since(start);
        if let Some(pv) = prev {
            if !crate::cbor::order::bytes_less(pv, raw) {
                return Err(CodecError::NonDeterministic { at: set_at, reason: NonDetReason::UnsortedSet });
            }
        }
        let ghost before = seen;
        thread_set_add(&mut out, x);
        prev = Some(raw);
        proof {
            seen = seen.push(x@);
            assert(seen.to_set() =~= before.to_set().insert(x@)) by {
                assert forall|y| seen.to_set().contains(y) <==> before.to_set().insert(x@).contains(y) by {
                    if seen.contains(y) {
                        let k = choose|k: int| 0 <= k < seen.len() && seen[k] == y;
                        if k < before.len() {
                            assert(before[k] == y);
                        }
                    }
                    if before.contains(y) {
                        let k = choose|k: int| 0 <= k < before.len() && before[k] == y;
                        assert(seen[k] == y);
                    }
                    if y == x@ {
                        assert(seen[before.len() as int] == y);
                    }
                }
            }
            let (rest, qr) = id_set_walk(s, at as int, d.offset(), (n - i - 1) as nat, Some(raw@), set_at as int, false);
            match rest {
                Ok(ts) => {
                    assert(before + (seq![x@] + ts) =~= seen + ts);
                },
                Err(_) => {},
            }
        }
        i = i + 1;
    }
    proof {
        assert(seen + Seq::<Seq<char>>::empty() =~= seen);
    }
    Ok(out)
}

/// Reads a set of schema ids; a malformed id is reported at `at`.
pub fn dec_schema_set(d: &mut Dec, at: usize) -> (r: Result<Vec<SchemaId>, CodecError>)
    ensures
        final(d).input() == old(d).input(),
        match id_set_at(old(d).input(), at as int, old(d).offset(), true).0 {
            Ok(ts) => r matches Ok(v) && schemas_distinct(v@) && schema_texts(v@) == ts.to_set() && final(d).offset()
                == id_set_at(old(d).input(), at as int, old(d).offset(), true).1,
            Err(e) => r == Err::<Vec<SchemaId>, CodecError>(e),
        },
{
    let ghost s = d.input();
    let set_at = d.position();
    let n = match d.array_head() {
        Ok(n) => n,
        Err(e) => return Err(e),
    };
    let ghost q0 = d.offset();
    let mut out: Vec<SchemaId> = Vec::new();
    let ghost mut seen: Seq<Seq<char>> = Seq::empty();
    let mut prev: Option<&[u8]> = None;
    let mut i: usize = 0;
    assert(schema_texts(out@) =~= seen.to_set());
    while i < n
        invariant
            i <= n,
            d.input() == s,
            s == old(d).input(),
            set_at == old(d).offset(),
            expect_at(s, set_at as int, major::ARRAY).0 matches Ok(n0) && (n0 as usize) == n,
            expect_at(s, set_at as int, major::ARRAY).1 == q0,
            schemas_distinct(out@),
            schema_texts(out@) == seen.to_set(),
            ({
                let (total, qt) = id_set_walk(s, at as int, q0, n as nat, None, set_at as int, true);
                let (rest, qr) = id_set_walk(s, at as int, d.offset(), (n - i) as nat, match prev {
                    Some(pv) => Some(pv@),
                    None => None,
                }, set_at as int, true);
                qt == qr && match rest {
                    Err(e) => total == Err::<Seq<Seq<char>>, CodecError>(e),
                    Ok(ts) => total == Ok::<Seq<Seq<char>>, CodecError>(seen + ts),
                }
            }),
        decreases n - i,
    {
        let start = d.position();
        let t = match d.text() {
            Ok(t) => t,
            Err(e) => return Err(e),
        };
        proof {
            vstd::utf8::encode_utf8_decode_utf8(t@);
        }
        let x = match SchemaId::parse(t) {
            Ok(x) => x,
            Err(_) => return Err(malformed(at)),
        };
        let raw = d.read_since(start);
        if let Some(pv) = prev {
            if !crate::cbor::order::bytes_less(pv, raw) {
                return Err(CodecError::NonDeterministic { at: set_at, reason: NonDetReason::UnsortedSet });
            }
        }
        let ghost before = seen;
        schema_set_add(&mut out, x);
        prev = Some(raw);
        proof {
            seen = seen.push(x.text());
            assert(seen.to_set() =~= before.to_set().insert(x.text())) by {
                assert forall|y| seen.to_set().contains(y) <==> before.to_set().insert(x.text()).contains(y) by {
                    if seen.contains(y) {
                        let k = choose|k: int| 0 <= k < seen.len() && seen[k] == y;
                        if k < before.len() {
                            assert(before[k] == y);
                        }
                    }
                    if before.contains(y) {
                        let k = choose|k: int| 0 <= k < before.len() && before[k] == y;
                        assert(seen[k] == y);
                    }
                    if y == x.text() {
                        assert(seen[before.len() as int] == y);
                    }
                }
            }
            let (rest, qr) = id_set_walk(s, at as int, d.offset(), (n - i - 1) as nat, Some(raw@), set_at as int, true);
            match rest {
                Ok(ts) => {
                    assert(before + (seq![x.text()] + ts) =~= seen + ts);
                },
                Err(_) => {},
            }
        }
        i = i + 1;
    }
    proof {
        assert(seen + Seq::<Seq<char>>::empty() =~= seen);
    }
    Ok(out)
}

/// A view as the reader sees it: its thread ids and required schemas as sets of texts.
pub struct ViewView {
    pub id: Seq<char>,
    pub roots: Seq<Seq<u8>>,
    pub threads: Set<Seq<char>>,
    pub requires: Set<Seq<char>>,
    pub granularity: GranularityView,
    pub intent: Seq<char>,
    pub lang: Seq<char>,
    pub extra: Map<u16, Seq<u8>>,
}

/// The fields of a view read so far.
pub struct ViewFields {
    pub id: Option<Seq<char>>,
    pub roots: Seq<Seq<u8>>,
    pub threads: Set<Seq<char>>,
    pub requires: Set<Seq<char>>,
    pub granularity: GranularityView,
    pub intent: Seq<char>,
    pub lang: Seq<char>,
    pub extra: Map<u16, Seq<u8>>,
}

/// What a view holds before its map is read: no roots, threads or requirements, the default
/// profile, no intent, and English.
pub open spec fn no_view_fields() -> ViewFields {
    ViewFields {
        id: None,
        roots: Seq::empty(),
        threads: Set::empty(),
        requires: Set::empty(),
        granularity: preset_view("default"@)->Some_0,
        intent: Seq::empty(),
        lang: "en"@,
        extra: Map::empty(),
    }
}

/// A view by its plain values.
pub open spec fn view_view(v: crate::types::view::View) -> ViewView {
    ViewView {
        id: v.id@,
        roots: v.roots@.map_values(|u: Uid| u.bytes()),
        threads: thread_texts(v.threads@),
        requires: schema_texts(v.requires@),
        granularity: v.granularity.fields(),
        intent: v.intent@,
        lang: v.lang@,
        extra: extra_view(v.extra@),
    }
}

/// Reading the value under key `k` of a view map that began at `at`.
#[verifier::opaque]
pub open spec fn view_value(s: Seq<u8>, at: int, p: int, k: u16, st: ViewFields) -> (Result<ViewFields, CodecError>, int) {
    if k == keys::view::ID || k == keys::view::INTENT || k == keys::view::LANG {
        let (r, q) = text_at(s, p);
        match r {
            Err(e) => (Err(e), q),
            Ok(b) => {
                let t = decode_utf8(b);
                if k == keys::view::ID {
                    if !label_shaped(t) {
                        (Err(bad(at)), q)
                    } else {
                        (Ok(ViewFields { id: Some(t), ..st }), q)
                    }
                } else if k == keys::view::LANG {
                    if !lang_ok(t) {
                        (Err(bad(at)), q)
                    } else {
                        (Ok(ViewFields { lang: t, ..st }), q)
                    }
                } else {
                    (Ok(ViewFields { intent: t, ..st }), q)
                }
            },
        }
    } else if k == keys::view::ROOTS {
        let (r, q) = uid_set_at(s, p);
        match r {
            Err(e) => (Err(e), q),
            Ok(us) => (Ok(ViewFields { roots: us, ..st }), q),
        }
    } else if k == keys::view::THREADS || k == keys::view::REQUIRES {
        let (r, q) = id_set_at(s, at, p, k == keys::view::REQUIRES);
        match r {
            Err(e) => (Err(e), q),
            Ok(ts) => if k == keys::view::THREADS {
                (Ok(ViewFields { threads: ts.to_set(), ..st }), q)
            } else {
                (Ok(ViewFields { requires: ts.to_set(), ..st }), q)
            },
        }
    } else if k == keys::view::GRANULARITY {
        let (r, q) = granularity_at(s, p);
        match r {
            Err(e) => (Err(e), q),
            Ok(g) => (Ok(ViewFields { granularity: g, ..st }), q),
        }
    } else {
        let (r, q) = skip_at(s, p, 0);
        match r {
            Err(e) => (Err(e), q),
            Ok(_) => (Ok(ViewFields { extra: st.extra.insert(k, s.subrange(p, q)), ..st }), q),
        }
    }
}

/// Reading the `n` remaining entries of a view map from `p`, after key `prev`.
#[verifier::opaque]
pub open spec fn view_walk(s: Seq<u8>, at: int, p: int, n: nat, prev: Option<u16>, st: ViewFields) -> (Result<ViewFields, CodecError>, int)
    decreases n,
{
    if n == 0 {
        (Ok(st), p)
    } else {
        let (rk, p1) = map_key_at(s, p, prev);
        match rk {
            Err(e) => (Err(e), p1),
            Ok(k) => match null_check(s, p1) {
                Some(e) => (Err(e), p1),
                None => {
                    let (r, p2) = view_value(s, at, p1, k, st);
                    match r {
                        Err(e) => (Err(e), p2),
                        Ok(st2) => view_walk(s, at, p2, (n - 1) as nat, Some(k), st2),
                    }
                },
            },
        }
    }
}

/// Reading a view at `p`: its id must be present; every other field has a default.
pub open spec fn view_at(s: Seq<u8>, p: int) -> (Result<ViewView, CodecError>, int) {
    let (r, q) = expect_at(s, p, major::MAP);
    match r {
        Err(e) => (Err(e), q),
        Ok(n) => {
            let (w, q2) = view_walk(s, p, q, (n as usize) as nat, None, no_view_fields());
            match w {
                Err(e) => (Err(e), q2),
                Ok(f) => match f.id {
                    Some(id) => (
                        Ok(
                            ViewView {
                                id,
                                roots: f.roots,
                                threads: f.threads,
                                requires: f.requires,
                                granularity: f.granularity,
                                intent: f.intent,
                                lang: f.lang,
                                extra: f.extra,
                            },
                        ),
                        q2,
                    ),
                    None => (Err(bad(p)), q2),
                },
            }
        },
    }
}

/// The fields of a view held so far, by their plain values.
pub open spec fn view_fields_view(
    id: Option<ViewId>,
    roots: Seq<Uid>,
    threads: Seq<ThreadId>,
    reqs: Seq<SchemaId>,
    g: GranularityProfile,
    intent: String,
    lang: LangTag,
    extra: Map<u16, Vec<u8>>,
) -> ViewFields {
    ViewFields {
        id: match id {
            Some(x) => Some(x@),
            None => None,
        },
        roots: roots.map_values(|u: Uid| u.bytes()),
        threads: thread_texts(threads),
        requires: schema_texts(reqs),
        granularity: g.fields(),
        intent: intent@,
        lang: lang@,
        extra: extra_view(extra),
    }
}

/// Reads a view. Its sets come back in canonical form.
#[verifier::rlimit(40)]
pub fn dec_view(d: &mut Dec) -> (r: Result<crate::types::view::View, CodecError>)
    ensures
        final(d).input() == old(d).input(),
        match view_at(old(d).input(), old(d).offset()).0 {
            Ok(v) => r matches Ok(x) && view_view(x) == v && x.well_formed() && final(d).offset() == view_at(
                old(d).input(),
                old(d).offset(),
            ).1,
            Err(e) => r == Err::<crate::types::view::View, CodecError>(e),
        },
{
    reveal(view_walk);
    let ghost s = d.input();
    let at = d.position();
    let n = match d.map_head() {
        Ok(n) => n,
        Err(e) => return Err(e),
    };
    let ghost q0 = d.offset();
    let mut id: Option<ViewId> = None;
    let mut roots: Vec<Uid> = Vec::new();
    let mut threads: Vec<ThreadId> = Vec::new();
    let mut schemas: Vec<SchemaId> = Vec::new();
    let mut granularity = GranularityProfile::standard();
    let mut intent = owned("");
    let mut lang = LangTag::default();
    let mut extra: Extra = Extra::new();
    let mut prev: Option<u16> = None;
    let mut i: usize = 0;
    proof {
        reveal_strlit("");
    }
    assert(intent@ =~= Seq::<char>::empty());
    assert(roots@.map_values(|u: Uid| u.bytes()) =~= Seq::<Seq<u8>>::empty());
    assert(thread_texts(threads@) =~= Set::<Seq<char>>::empty());
    assert(schema_texts(schemas@) =~= Set::<Seq<char>>::empty());
    assert(extra_view(extra@) =~= Map::<u16, Seq<u8>>::empty());
    assert(view_fields_view(id, roots@, threads@, schemas@, granularity, intent, lang, extra@) == no_view_fields());
    while i < n
        invariant
            i <= n,
            d.input() == s,
            s == old(d).input(),
            at == old(d).offset(),
            expect_at(s, at as int, major::MAP).0 matches Ok(n0) && (n0 as usize) == n,
            expect_at(s, at as int, major::MAP).1 == q0,
            uids_sorted(roots@),
            threads_distinct(threads@),
            schemas_distinct(schemas@),
            view_walk(s, at as int, q0, n as nat, None, no_view_fields()) == view_walk(
                s,
                at as int,
                d.offset(),
                (n - i) as nat,
                prev,
                view_fields_view(id, roots@, threads@, schemas@, granularity, intent, lang, extra@),
            ),
        decreases n - i,
    {
        proof {
            reveal(view_walk);
            reveal(view_value);
        }
        let k = match d.map_key(prev) {
            Ok(k) => k,
            Err(e) => return Err(e),
        };
        match d.reject_null() {
            Ok(()) => {},
            Err(e) => return Err(e),
        }
        let ghost p1 = d.offset();
        if k == keys::view::ID || k == keys::view::INTENT || k == keys::view::LANG {
            let t = match d.text() {
                Ok(t) => t,
                Err(e) => return Err(e),
            };
            proof {
                vstd::utf8::encode_utf8_decode_utf8(t@);
            }
            if k == keys::view::ID {
                match ViewId::new(t) {
                    Ok(x) => {
                        id = Some(x);
                    },
                    Err(_) => return Err(malformed(at)),
                }
            } else if k == keys::view::LANG {
                match LangTag::new(t) {
                    Ok(x) => {
                        lang = x;
                    },
                    Err(_) => return Err(malformed(at)),
                }
            } else {
                intent = owned(t);
            }
        } else if k == keys::view::ROOTS {
            match d.uid_set() {
                Ok(v) => {
                    proof {
                        let us = uid_set_at(s, p1).0->Ok_0;
                        assert(v@.map_values(|u: Uid| u.bytes()) =~= us);
                    }
                    roots = v;
                },
                Err(e) => return Err(e),
            }
        } else if k == keys::view::THREADS {
            match dec_thread_set(d, at) {
                Ok(v) => {
                    threads = v;
                },
                Err(e) => return Err(e),
            }
        } else if k == keys::view::REQUIRES {
            match dec_schema_set(d, at) {
                Ok(v) => {
                    schemas = v;
                },
                Err(e) => return Err(e),
            }
        } else if k == keys::view::GRANULARITY {
            match dec_granularity(d) {
                Ok(g) => {
                    granularity = g;
                },
                Err(e) => return Err(e),
            }
        } else {
            let raw = match d.skip_item() {
                Ok(raw) => raw,
                Err(e) => return Err(e),
            };
            let ghost before = extra@;
            proof {
                lemma_u16_keys_total();
            }
            extra.insert(k, vstd::slice::slice_to_vec(raw));
            proof {
                assert(extra_view(extra@) =~= extra_view(before).insert(k, s.subrange(p1, d.offset())));
            }
        }
        prev = Some(k);
        i = i + 1;
    }
    match id {
        Some(x) => Ok(
            crate::types::view::View {
                id: x,
                roots,
                threads,
                requires: schemas,
                granularity,
                intent,
                lang,
                extra,
            },
        ),
        None => Err(malformed(at)),
    }
}

} // verus!
