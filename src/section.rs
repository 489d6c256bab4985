use vstd::prelude::*;

use std::collections::BTreeMap;

use crate::error::ObjError;
use crate::kinds::{ObjRelocKind, ObjSectionKind};

verus! {

broadcast use vstd::std_specs::btree::group_btree_axioms, vstd::laws_cmp::group_laws_cmp;

/// A 64-bit address as the 32-bit word the architecture uses.
pub open spec fn addr_key(a: u64) -> u32 {
    (a % 0x1_0000_0000) as u32
}

pub fn to_key(a: u64) -> (r: u32)
    ensures
        r == addr_key(a),
{
    (a % 0x1_0000_0000) as u32
}

/// A relocation applied within a section.
#[derive(Debug, Copy, Clone)]
pub struct ObjReloc {
    pub kind: ObjRelocKind,
    pub address: u64,
    pub target_symbol: usize,
    pub addend: i64,
}

/// An addressed, named byte range of an object.
#[derive(Debug, Clone)]
pub struct ObjSection {
    pub name: String,
    pub kind: ObjSectionKind,
    pub address: u64,
    pub size: u64,
    pub data: Vec<u8>,
    pub align: u64,
    pub index: usize,
    /// Index of the section in the ELF file, which REL files refer to
    pub elf_index: usize,
    pub relocations: Vec<ObjReloc>,
    pub original_address: u64,
    pub file_offset: u64,
    pub section_known: bool,
}

/// Whether relocations `i` and `j` of the list apply at the same 32-bit address.
pub open spec fn same_site(relocs: Seq<ObjReloc>, i: int, j: int) -> bool {
    addr_key(relocs[i].address) == addr_key(relocs[j].address)
}

/// No two relocations among the first `n` share an address.
pub open spec fn sites_distinct(relocs: Seq<ObjReloc>, n: int) -> bool {
    forall|i: int, j: int| 0 <= i < j < n ==> !same_site(relocs, i, j)
}

/// Relocation `j` is the first one whose address an earlier relocation already used.
pub open spec fn first_duplicate(relocs: Seq<ObjReloc>, j: int) -> bool {
    &&& 0 <= j < relocs.len()
    &&& sites_distinct(relocs, j)
    &&& exists|i: int| 0 <= i < j && same_site(relocs, i, j)
}

/// What building a relocation map reports for a list with a repeated address.
pub open spec fn duplicate_error(relocs: Seq<ObjReloc>, e: ObjError) -> bool {
    exists|j: int|
        #![trigger relocs[j]]
        first_duplicate(relocs, j) && e == (ObjError::DuplicateRelocation {
            address: addr_key(relocs[j].address),
        })
}

impl ObjSection {
    /// The section's range `[address, address + size)` holds `addr`.
    pub open spec fn contains_spec(&self, addr: u32) -> bool {
        self.address <= addr && addr < self.address + self.size
    }

    /// The section's range holds all of `[start, end)`.
    pub open spec fn contains_range_spec(&self, start: u32, end: u32) -> bool {
        self.address <= start && end <= self.address + self.size
    }

    /// Maps the address of each relocation to its position in the list; fails on a
    /// repeated address.
    pub fn build_relocation_map(&self) -> (r: Result<BTreeMap<u32, usize>, ObjError>)
        ensures
            r is Ok <==> sites_distinct(self.relocations@, self.relocations@.len() as int),
            r matches Ok(m) ==> {
                &&& forall|k: u32|
                    m@.contains_key(k) <==> exists|i: int|
                        0 <= i < self.relocations@.len() && addr_key(
                            #[trigger] self.relocations@[i].address,
                        ) == k
                &&& forall|i: int|
                    0 <= i < self.relocations@.len() ==> m@[addr_key(
                        #[trigger] self.relocations@[i].address,
                    )] == i
            },
            r matches Err(e) ==> duplicate_error(self.relocations@, e),
    {
        let mut relocations: BTreeMap<u32, usize> = BTreeMap::new();
        let mut idx: usize = 0;
        while idx < self.relocations.len()
            invariant
                0 <= idx <= self.relocations@.len(),
                sites_distinct(self.relocations@, idx as int),
                forall|k: u32|
                    relocations@.contains_key(k) <==> exists|i: int|
                        0 <= i < idx && addr_key(#[trigger] self.relocations@[i].address) == k,
                forall|i: int|
                    0 <= i < idx ==> relocations@[addr_key(#[trigger] self.relocations@[i].address)] == i,
            decreases self.relocations@.len() - idx,
        {
            let address = to_key(self.relocations[idx].address);
            if relocations.contains_key(&address) {
                proof {
                    let i = choose|i: int| 0 <= i < idx && addr_key(self.relocations@[i].address) == address;
                    assert(same_site(self.relocations@, i, idx as int));
                    assert(first_duplicate(self.relocations@, idx as int));
                    assert(duplicate_error(
                        self.relocations@,
                        ObjError::DuplicateRelocation { address },
                    ));
                    assert(!sites_distinct(self.relocations@, self.relocations@.len() as int));
                }
                return Err(ObjError::DuplicateRelocation { address });
            }
            relocations.insert(address, idx);
            proof {
                assert forall|i: int, j: int| 0 <= i < j < idx + 1 implies !same_site(
                    self.relocations@,
                    i,
                    j,
                ) by {
                    if j == idx {
                        if same_site(self.relocations@, i, j) {
                            assert(addr_key(self.relocations@[i].address) == address);
                        }
                    }
                }
                assert forall|k: u32|
                    relocations@.contains_key(k) implies exists|i: int|
                        0 <= i < idx + 1 && addr_key(#[trigger] self.relocations@[i].address) == k by {
                    if k == address {
                        assert(addr_key(self.relocations@[idx as int].address) == k);
                    }
                }
            }
            idx = idx + 1;
        }
        Ok(relocations)
    }

    /// Maps the address of each relocation to a copy of it; fails on a repeated address.
    pub fn build_relocation_map_cloned(&self) -> (r: Result<BTreeMap<u32, ObjReloc>, ObjError>)
        ensures
            r is Ok <==> sites_distinct(self.relocations@, self.relocations@.len() as int),
            r matches Ok(m) ==> {
                &&& forall|k: u32|
                    m@.contains_key(k) <==> exists|i: int|
                        0 <= i < self.relocations@.len() && addr_key(
                            #[trigger] self.relocations@[i].address,
                        ) == k
                &&& forall|i: int|
                    0 <= i < self.relocations@.len() ==> m@[addr_key(
                        #[trigger] self.relocations@[i].address,
                    )] == self.relocations@[i]
            },
            r matches Err(e) ==> duplicate_error(self.relocations@, e),
    {
        let mut relocations: BTreeMap<u32, ObjReloc> = BTreeMap::new();
        let mut idx: usize = 0;
        while idx < self.relocations.len()
            invariant
                0 <= idx <= self.relocations@.len(),
                sites_distinct(self.relocations@, idx as int),
                forall|k: u32|
                    relocations@.contains_key(k) <==> exists|i: int|
                        0 <= i < idx && addr_key(#[trigger] self.relocations@[i].address) == k,
                forall|i: int|
                    0 <= i < idx ==> relocations@[addr_key(#[trigger] self.relocations@[i].address)]
                        == self.relocations@[i],
            decreases self.relocations@.len() - idx,
        {
            let reloc = self.relocations[idx];
            let address = to_key(reloc.address);
            if relocations.contains_key(&address) {
                proof {
                    let i = choose|i: int| 0 <= i < idx && addr_key(self.relocations@[i].address) == address;
                    assert(same_site(self.relocations@, i, idx as int));
                    assert(first_duplicate(self.relocations@, idx as int));
                    assert(duplicate_error(
                        self.relocations@,
                        ObjError::DuplicateRelocation { address },
                    ));
                    assert(!sites_distinct(self.relocations@, self.relocations@.len() as int));
                }
                return Err(ObjError::DuplicateRelocation { address });
            }
            relocations.insert(address, reloc);
            proof {
                assert forall|i: int, j: int| 0 <= i < j < idx + 1 implies !same_site(
                    self.relocations@,
                    i,
                    j,
                ) by {
                    if j == idx {
                        if same_site(self.relocations@, i, j) {
                            assert(addr_key(self.relocations@[i].address) == address);
                        }
                    }
                }
                assert forall|k: u32|
                    relocations@.contains_key(k) implies exists|i: int|
                        0 <= i < idx + 1 && addr_key(#[trigger] self.relocations@[i].address) == k by {
                    if k == address {
                        assert(addr_key(self.relocations@[idx as int].address) == k);
                    }
                }
            }
            idx = idx + 1;
        }
        Ok(relocations)
    }

    /// Half-open containment: the upper bound `address + size` is outside.
    #[inline]
    pub fn contains(&self, addr: u32) -> (r: bool)
        ensures
            r == self.contains_spec(addr),
    {
        let a = addr as u64;
        a >= self.address && a - self.address < self.size
    }

    /// Whether `[range.start, range.end)` lies within the section.
    #[inline]
    pub fn contains_range(&self, range: std::ops::Range<u32>) -> (r: bool)
        ensures
            r == self.contains_range_spec(range.start, range.end),
    {
        let start = range.start as u64;
        let end = range.end as u64;
        start >= self.address && (end <= self.address || end - self.address <= self.size)
    }
}

/// The kind that a section of the given name has, if the name is a known one.
pub open spec fn section_kind_spec(name: Seq<char>) -> Option<ObjSectionKind> {
    if name == ".init"@ || name == ".text"@ || name == ".dbgtext"@ || name == ".vmtext"@ {
        Some(ObjSectionKind::Code)
    } else if name == ".ctors"@ || name == ".dtors"@ || name == ".rodata"@ || name == ".sdata2"@
        || name == "extab"@ || name == "extabindex"@ {
        Some(ObjSectionKind::ReadOnlyData)
    } else if name == ".bss"@ || name == ".sbss"@ || name == ".sbss2"@ {
        Some(ObjSectionKind::Bss)
    } else if name == ".data"@ || name == ".sdata"@ {
        Some(ObjSectionKind::Data)
    } else {
        None
    }
}

/// Two relocations applying at the same address make the relocation map fail.
pub proof fn lemma_shared_address_fails(relocs: Seq<ObjReloc>, i: int, j: int)
    requires
        0 <= i < j < relocs.len(),
        addr_key(relocs[i].address) == addr_key(relocs[j].address),
    ensures
        !sites_distinct(relocs, relocs.len() as int),
{
    assert(same_site(relocs, i, j));
}


/// Character-wise equality of two strings.
pub fn str_equals(a: &str, b: &str) -> (r: bool)
    ensures
        r == (a@ == b@),
{
    let n = a.unicode_len();
    if n != b.unicode_len() {
        return false;
    }
    let mut i: usize = 0;
    while i < n
        invariant
            n == a@.len() == b@.len(),
            0 <= i <= n,
            a@.subrange(0, i as int) == b@.subrange(0, i as int),
        decreases n - i,
    {
        if a.get_char(i) != b.get_char(i) {
            assert(a@[i as int] != b@[i as int]);
            return false;
        }
        assert(a@.subrange(0, i + 1) == a@.subrange(0, i as int).push(a@[i as int]));
        assert(b@.subrange(0, i + 1) == b@.subrange(0, i as int).push(b@[i as int]));
        i = i + 1;
    }
    assert(a@ == a@.subrange(0, n as int));
    assert(b@ == b@.subrange(0, n as int));
    true
}

/// Classifies a section by its name; an unknown name is an error.
pub fn section_kind_for_section(section_name: &str) -> (r: Result<ObjSectionKind, ObjError>)
    ensures
        section_kind_spec(section_name@) matches Some(k) ==> r == Ok::<ObjSectionKind, ObjError>(
            k,
        ),
        section_kind_spec(section_name@) is None ==> (r matches Err(ObjError::UnknownSection {
            name,
        }) && name@ == section_name@),
{
    proof {
        reveal_strlit(".init");
        reveal_strlit(".text");
        reveal_strlit(".dbgtext");
        reveal_strlit(".vmtext");
        reveal_strlit(".ctors");
        reveal_strlit(".dtors");
        reveal_strlit(".rodata");
        reveal_strlit(".sdata2");
        reveal_strlit("extab");
        reveal_strlit("extabindex");
        reveal_strlit(".bss");
        reveal_strlit(".sbss");
        reveal_strlit(".sbss2");
        reveal_strlit(".data");
        reveal_strlit(".sdata");
    }
    let s = section_name;
    if str_equals(s, ".init") || str_equals(s, ".text") || str_equals(s, ".dbgtext") || str_equals(
        s,
        ".vmtext",
    ) {
        Ok(ObjSectionKind::Code)
    } else if str_equals(s, ".ctors") || str_equals(s, ".dtors") || str_equals(s, ".rodata")
        || str_equals(s, ".sdata2") || str_equals(s, "extab") || str_equals(s, "extabindex") {
        Ok(ObjSectionKind::ReadOnlyData)
    } else if str_equals(s, ".bss") || str_equals(s, ".sbss") || str_equals(s, ".sbss2") {
        Ok(ObjSectionKind::Bss)
    } else if str_equals(s, ".data") || str_equals(s, ".sdata") {
        Ok(ObjSectionKind::Data)
    } else {
        Err(ObjError::UnknownSection { name: String::from_str(s) })
    }
}

} // verus!
