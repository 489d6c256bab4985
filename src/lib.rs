//! Object model for decompiling linked executables and relocatable modules: sections,
//! a symbol table indexed by address and name, relocation target resolution, and the
//! split map of decompilation units.


pub mod error;
pub mod flags;
pub mod info;
pub mod kinds;
pub mod section;
pub mod symbols;

pub use error::ObjError;
pub use flags::{ObjSymbolFlagSet, ObjSymbolFlags};
pub use info::{ObjInfo, ObjSplit, RelReloc};
pub use kinds::{ObjArchitecture, ObjDataKind, ObjKind, ObjRelocKind, ObjSectionKind, ObjSymbolKind};
pub use section::{section_kind_for_section, ObjReloc, ObjSection};
pub use symbols::{ObjSymbol, ObjSymbols, SizeConflict};
