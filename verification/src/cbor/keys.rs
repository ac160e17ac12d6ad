//! Map keys, one table per record type. Integer keys rather than CBOR tags: compact, and
//! determinism is easier to guarantee. Each table is contiguous from zero.

pub mod unit;
pub mod attestation;
pub mod relation;
pub mod thread;
pub mod view;
pub mod contention;
pub mod packinfo;
pub mod schema_decl;
pub mod source;
pub mod granularity;
pub mod label_binding;
