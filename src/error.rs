use vstd::prelude::*;

use crate::kinds::ObjSymbolKind;

verus! {

/// Failures reported by the object model.
#[derive(Debug, Clone, PartialEq, Eq)]
pub enum ObjError {
    /// Two relocations of one section apply at the same address.
    DuplicateRelocation { address: u32 },
    /// More than one symbol carries a name that was expected to be unique.
    AmbiguousName { name: String, first: usize, second: usize },
    /// More than one symbol of one kind sits at an address.
    MultipleOfKind { kind: ObjSymbolKind, address: u32 },
    /// A replacement tried to move a symbol to another address.
    AddressChanged { index: usize },
    /// No section contains the address.
    NoSectionAt { address: u32 },
    /// No section contains the range.
    NoSectionFor { start: u32, end: u32 },
    /// A section name outside the known set.
    UnknownSection { name: String },
}

} // verus!
