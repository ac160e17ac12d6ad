//! What a consumer implements, and what that means for a store it reads: full fidelity when
//! every required schema is implemented, degraded when one is not, refused when the kernel
//! major is missing.

use vstd::prelude::*;

use crate::ids::{SchemaId, Uid};
use crate::text::owned;
use crate::types::view::{schema_set_add, schema_texts, schemas_distinct, Fidelity};

verus! {

/// What a consumer implements.
#[derive(Debug, Clone, PartialEq, Eq)]
pub struct ConsumerProfile {
    pub name: String,
    /// Extension schemas this consumer understands, one per text. The kernel is implied.
    pub implemented: Vec<SchemaId>,
    /// The kernel major this consumer implements.
    pub kernel_major: u32,
}

impl Default for ConsumerProfile {
    fn default() -> (p: ConsumerProfile)
        ensures
            p.name@ == "kernel-only"@,
            p.implemented@.len() == 0,
            p.kernel_major == crate::KERNEL_MAJOR,
    {
        ConsumerProfile { name: owned("kernel-only"), implemented: Vec::new(), kernel_major: crate::KERNEL_MAJOR }
    }
}

impl ConsumerProfile {
    pub fn new(name: &str) -> (p: ConsumerProfile)
        ensures
            p.name@ == name@,
            p.implemented@.len() == 0,
            p.kernel_major == crate::KERNEL_MAJOR,
    {
        ConsumerProfile { name: owned(name), implemented: Vec::new(), kernel_major: crate::KERNEL_MAJOR }
    }

    /// Sets the implemented schemas, keeping one id per text.
    pub fn implementing(self, s: Vec<SchemaId>) -> (p: ConsumerProfile)
        ensures
            schemas_distinct(p.implemented@),
            schema_texts(p.implemented@) == schema_texts(s@),
            p.name == self.name,
            p.kernel_major == self.kernel_major,
    {
        let mut out: Vec<SchemaId> = Vec::new();
        let mut i: usize = 0;
        assert(schema_texts(out@) =~= schema_texts(s@.take(0)));
        while i < s.len()
            invariant
                i <= s.len(),
                schemas_distinct(out@),
                schema_texts(out@) == schema_texts(s@.take(i as int)),
            decreases s.len() - i,
        {
            schema_set_add(&mut out, s[i].duplicate());
            assert(schema_texts(s@.take(i + 1)) =~= schema_texts(s@.take(i as int)).insert(s@[i as int].text())) by {
                let a = s@.take(i + 1);
                let b = s@.take(i as int);
                assert forall|y: Seq<char>| schema_texts(a).contains(y) implies schema_texts(b).insert(s@[i as int].text()).contains(y) by {
                    let k = choose|k: int| 0 <= k < a.len() && #[trigger] a[k].text() == y;
                    if k < i {
                        assert(b[k].text() == y);
                    }
                }
                assert forall|y: Seq<char>| schema_texts(b).insert(s@[i as int].text()).contains(y) implies schema_texts(a).contains(y) by {
                    if y == s@[i as int].text() {
                        assert(a[i as int].text() == y);
                    } else {
                        let k = choose|k: int| 0 <= k < b.len() && #[trigger] b[k].text() == y;
                        assert(a[k].text() == y);
                    }
                }
            }
            i = i + 1;
        }
        assert(s@.take(s.len() as int) =~= s@);
        ConsumerProfile { name: self.name, implemented: out, kernel_major: self.kernel_major }
    }

    /// Whether this consumer reads a unit of `schema` at full fidelity: a kernel type always,
    /// anything else when implemented.
    pub fn understands(&self, schema: &SchemaId) -> (r: bool)
        ensures
            r == (schema is Kernel || schema_texts(self.implemented@).contains(schema.text())),
    {
        if schema.is_kernel() {
            return true;
        }
        let mut i: usize = 0;
        while i < self.implemented.len()
            invariant
                i <= self.implemented.len(),
                forall|j: int| 0 <= j < i ==> #[trigger] self.implemented@[j].text() != schema.text(),
            decreases self.implemented.len() - i,
        {
            if crate::text::str_eq(self.implemented[i].as_str(), schema.as_str()) {
                assert(self.implemented@[i as int].text() == schema.text());
                return true;
            }
            i = i + 1;
        }
        false
    }
}

/// What a consumer gets from a store, overall and unit by unit.
#[derive(Debug, Clone, PartialEq, Eq)]
pub struct FidelityReport {
    pub overall: Fidelity,
    /// Units the consumer would read at reduced fidelity, with the schema responsible.
    pub degraded: Vec<(Uid, SchemaId)>,
    /// Schemas the store requires that the consumer does not implement.
    pub missing: Vec<SchemaId>,
}

} // verus!
