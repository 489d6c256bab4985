use vstd::prelude::*;

verus! {

/// Classification of a section's contents.
#[derive(Debug, Copy, Clone, PartialEq, Eq, Structural, Hash)]
pub enum ObjSectionKind {
    Code,
    Data,
    ReadOnlyData,
    Bss,
}

/// What a symbol names.
#[derive(Debug, Copy, Clone, Default, PartialEq, Eq, Structural, Hash)]
pub enum ObjSymbolKind {
    #[default]
    Unknown,
    Function,
    Object,
    Section,
}

/// Shape of the data an object symbol holds.
#[derive(Debug, Copy, Clone, Default, PartialEq, Eq, Structural)]
pub enum ObjDataKind {
    #[default]
    Unknown,
    Byte,
    Byte2,
    Byte4,
    Byte8,
    Float,
    Double,
    String,
    String16,
    StringTable,
    String16Table,
}

/// Whether an object is fully linked or still expects fixups.
#[derive(Debug, Copy, Clone, PartialEq, Eq, Structural, Hash)]
pub enum ObjKind {
    /// Fully linked object
    Executable,
    /// Relocatable object
    Relocatable,
}

/// Target architecture of an object.
#[derive(Debug, Copy, Clone, PartialEq, Eq, Structural, Hash)]
pub enum ObjArchitecture {
    PowerPc,
}

/// Addressing mode of a relocation.
#[derive(Debug, Copy, Clone, PartialEq, Eq, Structural, Hash)]
pub enum ObjRelocKind {
    Absolute,
    PpcAddr16Hi,
    PpcAddr16Ha,
    PpcAddr16Lo,
    PpcRel24,
    PpcRel14,
    PpcEmbSda21,
}

impl ObjRelocKind {
    /// Modes that compute half of an address (high, high adjusted, low).
    pub open spec fn is_half_spec(self) -> bool {
        self is PpcAddr16Hi || self is PpcAddr16Ha || self is PpcAddr16Lo
    }

    /// Whether this mode computes half of an address rather than taking one whole.
    pub fn is_half(&self) -> (r: bool)
        ensures
            r == self.is_half_spec(),
    {
        match self {
            ObjRelocKind::PpcAddr16Hi | ObjRelocKind::PpcAddr16Ha | ObjRelocKind::PpcAddr16Lo => true,
            _ => false,
        }
    }
}

} // verus!
