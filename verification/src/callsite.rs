//! Callsites: the static instrumentation sites of an application.
//!
//! A callsite describes one place in the application code that emits
//! instrumentation. Callsite information is static for a process and is
//! stored once for each callsite.

use vstd::prelude::*;

use crate::common::{Field, FieldName, Kind, Level};

verus! {

/// The callsite id defines a unique callsite.
#[derive(Debug, Clone, Copy, Hash, PartialEq, Eq, Structural)]
pub struct CallsiteId(pub u64);

impl CallsiteId {
    /// The `u64` representation of the callsite id.
    pub fn as_u64(&self) -> (r: u64)
        ensures
            r == self.0,
    {
        self.0
    }
}

impl From<u64> for CallsiteId {
    /// Create a callsite id from a `u64` value.
    fn from(value: u64) -> (r: CallsiteId) {
        CallsiteId(value)
    }
}

impl vstd::std_specs::convert::FromSpecImpl<u64> for CallsiteId {
    open spec fn obeys_from_spec() -> bool {
        true
    }

    open spec fn from_spec(value: u64) -> CallsiteId {
        CallsiteId(value)
    }
}

/// An instrumented location in an application.
///
/// A callsite contains all the constant data for a specific location in the
/// application code where instrumentation is emitted from.
#[derive(Debug, Clone, PartialEq)]
pub struct Callsite {
    /// The unique identifier of this callsite.
    pub callsite_id: CallsiteId,
    /// The level of the instrumentation emitted here.
    pub level: Level,
    /// The kind of instrumentation emitted here.
    pub kind: Kind,
    /// Fields whose values are fixed at the callsite.
    pub const_fields: Vec<Field>,
    /// Names of the fields whose values are supplied per emission.
    pub split_field_names: Vec<FieldName>,
}

/// The mathematical value of a callsite.
pub struct CallsiteView {
    /// The unique identifier of this callsite.
    pub callsite_id: CallsiteId,
    /// The level of the instrumentation emitted here.
    pub level: Level,
    /// The kind of instrumentation emitted here.
    pub kind: Kind,
    /// Fields whose values are fixed at the callsite.
    pub const_fields: Seq<crate::common::FieldView>,
    /// Names of the fields whose values are supplied per emission.
    pub split_field_names: Seq<Seq<char>>,
}

impl View for Callsite {
    type V = CallsiteView;

    open spec fn view(&self) -> CallsiteView {
        CallsiteView {
            callsite_id: self.callsite_id,
            level: self.level,
            kind: self.kind,
            const_fields: self.const_fields@.map_values(|f: Field| f@),
            split_field_names: self.split_field_names@.map_values(|n: FieldName| n@),
        }
    }
}

} // verus!
