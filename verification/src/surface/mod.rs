//! The surface syntax: the human-writable text form of a store.

pub mod lex;
pub mod hjson;
pub mod write;
pub mod payload;
pub mod payload_laws;
