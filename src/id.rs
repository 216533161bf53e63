//! Resource identifiers: a number or a name.

use vstd::prelude::*;

verus! {

/// A resource type, name or language identifier: an integer below `0xFFFF`,
/// or a name.
#[derive(Debug, Clone, PartialEq, Eq, Hash)]
pub enum Id {
    Integer(u16),
    Text(String),
}

impl From<u16> for Id {
    fn from(v: u16) -> (r: Id) {
        Id::Integer(v)
    }
}

impl vstd::std_specs::convert::FromSpecImpl<u16> for Id {
    open spec fn obeys_from_spec() -> bool {
        true
    }

    open spec fn from_spec(v: u16) -> Id {
        Id::Integer(v)
    }
}

impl Id {
    /// Whether this is the integer identifier `v`.
    pub fn is_integer(&self, v: u16) -> (r: bool)
        ensures
            r == (*self == Id::Integer(v)),
    {
        match self {
            Id::Integer(n) => *n == v,
            Id::Text(_) => false,
        }
    }
}

} // verus!
