//! The record envelope: an array of a type code and a payload map. Integer codes rather than
//! CBOR tags: nothing to register, more compact, and determinism is easier to keep.

pub mod code;

use vstd::prelude::*;

use crate::types::annex::{Contention, LabelBinding, PackInfo, SchemaDecl};
use crate::types::provenance::Attestation;
use crate::types::relation::Relation;
use crate::types::thread::Thread;
use crate::types::unit::UnitCore;

verus! {

/// One record in a store.
#[derive(Debug, PartialEq)]
pub enum Record {
    Unit(UnitCore),
    Attestation(Attestation),
    Relation(Relation),
    Thread(Thread),
    View(crate::types::view::View),
    Contention(Contention),
    PackInfo(PackInfo),
    SchemaDecl(SchemaDecl),
    /// A label bound to the uid it names. Not identity: never hashed.
    LabelBinding(LabelBinding),
    /// A record type this build does not know, kept with its payload bytes exactly as they
    /// arrived, so that a store written by a later minor version survives a read and a write.
    Unknown { code: u64, payload: Vec<u8> },
}

impl Record {
    /// The envelope type code of a record.
    pub open spec fn code_view(&self) -> u64 {
        match self {
            Record::Unit(_) => code::UNIT_CORE,
            Record::Attestation(_) => code::ATTESTATION,
            Record::Relation(_) => code::RELATION,
            Record::Thread(_) => code::THREAD,
            Record::View(_) => code::VIEW,
            Record::Contention(_) => code::CONTENTION,
            Record::PackInfo(_) => code::PACK_INFO,
            Record::SchemaDecl(_) => code::SCHEMA_DECL,
            Record::LabelBinding(_) => code::LABEL_BINDING,
            Record::Unknown { code, .. } => *code,
        }
    }

    pub fn type_code(&self) -> (c: u64)
        ensures
            c == self.code_view(),
    {
        match self {
            Record::Unit(_) => code::UNIT_CORE,
            Record::Attestation(_) => code::ATTESTATION,
            Record::Relation(_) => code::RELATION,
            Record::Thread(_) => code::THREAD,
            Record::View(_) => code::VIEW,
            Record::Contention(_) => code::CONTENTION,
            Record::PackInfo(_) => code::PACK_INFO,
            Record::SchemaDecl(_) => code::SCHEMA_DECL,
            Record::LabelBinding(_) => code::LABEL_BINDING,
            Record::Unknown { code, .. } => *code,
        }
    }

    /// The record's name in reports.
    pub fn name(&self) -> (s: &'static str)
        ensures
            s@ == (match self {
                Record::Unit(_) => "unit"@,
                Record::Attestation(_) => "attestation"@,
                Record::Relation(_) => "relation"@,
                Record::Thread(_) => "thread"@,
                Record::View(_) => "view"@,
                Record::Contention(_) => "contention"@,
                Record::PackInfo(_) => "packinfo"@,
                Record::SchemaDecl(_) => "schemadecl"@,
                Record::LabelBinding(_) => "labelbinding"@,
                Record::Unknown { .. } => "unknown"@,
            }),
    {
        match self {
            Record::Unit(_) => "unit",
            Record::Attestation(_) => "attestation",
            Record::Relation(_) => "relation",
            Record::Thread(_) => "thread",
            Record::View(_) => "view",
            Record::Contention(_) => "contention",
            Record::PackInfo(_) => "packinfo",
            Record::SchemaDecl(_) => "schemadecl",
            Record::LabelBinding(_) => "labelbinding",
            Record::Unknown { .. } => "unknown",
        }
    }

    pub fn is_unknown(&self) -> (r: bool)
        ensures
            r == (self is Unknown),
    {
        match self {
            Record::Unknown { .. } => true,
            _ => false,
        }
    }

    /// The only record type whose bytes determine an identity.
    pub fn is_hashed(&self) -> (r: bool)
        ensures
            r == (self is Unit),
    {
        match self {
            Record::Unit(_) => true,
            _ => false,
        }
    }

    pub fn as_unit(&self) -> (r: Option<&UnitCore>)
        ensures
            r == (match self {
                Record::Unit(u) => Some(u),
                _ => None,
            }),
    {
        match self {
            Record::Unit(u) => Some(u),
            _ => None,
        }
    }
}

} // verus!
