use vstd::prelude::*;

use std::collections::BTreeMap;

use crate::error::ObjError;
use crate::kinds::{ObjArchitecture, ObjKind, ObjRelocKind};
use crate::section::{str_equals, ObjSection};
use crate::symbols::{add_conflicts, add_outcome, ObjSymbol, ObjSymbols};

verus! {

/// A decompilation-unit boundary starting at the address it is stored under.
#[derive(Debug, Clone, PartialEq, Eq)]
pub struct ObjSplit {
    pub unit: String,
    /// End address; 0 leaves the split open up to whatever follows.
    pub end: u32,
    pub align: Option<u32>,
    pub common: bool,
}

/// A relocation of a relocatable module that refers to another module.
#[derive(Debug, Copy, Clone, PartialEq, Eq, Structural)]
pub struct RelReloc {
    pub kind: ObjRelocKind,
    pub section: u8,
    pub address: u32,
    pub module_id: u32,
    pub target_section: u8,
    pub addend: u32,
}

/// An object: its sections, symbols and what analysis has learned about it.
#[derive(Debug, Clone)]
pub struct ObjInfo {
    pub kind: ObjKind,
    pub architecture: ObjArchitecture,
    pub name: String,
    pub symbols: ObjSymbols,
    pub sections: Vec<ObjSection>,
    pub entry: u64,
    /// Compiler metadata, kept as read.
    pub mw_comment: Vec<u8>,
    // Linker generated
    pub sda2_base: Option<u32>,
    pub sda_base: Option<u32>,
    pub stack_address: Option<u32>,
    pub stack_end: Option<u32>,
    pub db_stack_addr: Option<u32>,
    pub arena_lo: Option<u32>,
    pub arena_hi: Option<u32>,
    // Extracted
    /// Splits by start address, ascending; splits sharing a start keep insertion order.
    pub splits: Vec<(u32, ObjSplit)>,
    pub named_sections: BTreeMap<u32, String>,
    pub link_order: Vec<String>,
    /// start -> end
    pub blocked_ranges: BTreeMap<u32, u32>,
    // From extab
    pub known_functions: BTreeMap<u32, u32>,
    // REL
    /// Module ID (0 for main)
    pub module_id: u32,
    pub unresolved_relocations: Vec<RelReloc>,
}

/// Split starts never decrease along the list.
pub open spec fn splits_ordered(s: Seq<(u32, ObjSplit)>) -> bool {
    forall|k: int, l: int| 0 <= k < l < s.len() ==> #[trigger] s[k].0 <= #[trigger] s[l].0
}

/// The position of the last split among the first `k` that starts at or below `address`.
pub open spec fn last_split_at_or_below(s: Seq<(u32, ObjSplit)>, address: u32, k: int) -> Option<
    int,
>
    decreases k,
{
    if k <= 0 || k > s.len() {
        None
    } else if s[k - 1].0 <= address {
        Some(k - 1)
    } else {
        last_split_at_or_below(s, address, k - 1)
    }
}

/// Whether an open split starting at `start` reaches `address`: it runs to the end of
/// the section holding its start, or without bound when no section holds it.
pub open spec fn open_split_reaches(secs: Seq<ObjSection>, start: u32, address: u32) -> bool {
    match first_section_at(secs, start, 0) {
        Some(j) => secs[j].contains_spec(address),
        None => true,
    }
}

/// The split covering `address`: the last one starting at or below it, provided it
/// ends above the address or, when open (end 0), its section still holds the address.
pub open spec fn split_covering(secs: Seq<ObjSection>, s: Seq<(u32, ObjSplit)>, address: u32) -> Option<int> {
    match last_split_at_or_below(s, address, s.len() as int) {
        Some(p) => if (s[p].1.end == 0 && open_split_reaches(secs, s[p].0, address)) || s[p].1.end
            > address {
            Some(p)
        } else {
            None
        },
        None => None,
    }
}

/// The splits among the first `k` whose start lies in `[start, end)`, in list order.
pub open spec fn split_window(s: Seq<(u32, ObjSplit)>, start: u32, end: u32, k: int) -> Seq<
    (u32, ObjSplit),
>
    decreases k,
{
    if k <= 0 || k > s.len() {
        Seq::empty()
    } else if start <= s[k - 1].0 < end {
        split_window(s, start, end, k - 1).push(s[k - 1])
    } else {
        split_window(s, start, end, k - 1)
    }
}

/// The first section from position `k` on that contains `addr`.
pub open spec fn first_section_at(secs: Seq<ObjSection>, addr: u32, k: int) -> Option<int>
    decreases secs.len() - k,
{
    if k < 0 || k >= secs.len() {
        None
    } else if secs[k].contains_spec(addr) {
        Some(k)
    } else {
        first_section_at(secs, addr, k + 1)
    }
}

/// The first section from position `k` on that contains `[start, end)`.
pub open spec fn first_section_for(secs: Seq<ObjSection>, start: u32, end: u32, k: int) -> Option<
    int,
>
    decreases secs.len() - k,
{
    if k < 0 || k >= secs.len() {
        None
    } else if secs[k].contains_range_spec(start, end) {
        Some(k)
    } else {
        first_section_for(secs, start, end, k + 1)
    }
}

/// A section found from position `k` on lies at or after `k` and contains the address.
proof fn lemma_first_section_at_bounds(secs: Seq<ObjSection>, addr: u32, k: int)
    requires
        0 <= k,
    ensures
        first_section_at(secs, addr, k) matches Some(i) ==> k <= i < secs.len() && secs[i].contains_spec(addr),
    decreases secs.len() - k,
{
    if k < secs.len() && !secs[k].contains_spec(addr) {
        lemma_first_section_at_bounds(secs, addr, k + 1);
    }
}

/// Which linker-generated address a symbol name announces, if any.
pub open spec fn linker_name(name: Seq<char>) -> int {
    if name == "_SDA_BASE_"@ {
        0
    } else if name == "_SDA2_BASE_"@ {
        1
    } else if name == "_stack_addr"@ {
        2
    } else if name == "_stack_end"@ {
        3
    } else if name == "_db_stack_addr"@ {
        4
    } else if name == "__ArenaLo"@ {
        5
    } else if name == "__ArenaHi"@ {
        6
    } else {
        -1
    }
}

/// The linker-generated address a field holds after a symbol with this name and
/// address was added: updated for the field the name announces, kept for the others.
pub open spec fn linker_field(old: Option<u32>, field: int, name: Seq<char>, address: u64) -> Option<
    u32,
> {
    if linker_name(name) == field {
        Some((address % 0x1_0000_0000) as u32)
    } else {
        old
    }
}

/// The byte range `[lo, hi)` of a section's data that `section_data(start, end)`
/// yields: offsets from the section's address, clamped to the data, with `end == 0`
/// meaning the end of the data and an end before the start giving nothing.
pub open spec fn data_window(sec: ObjSection, start: u32, end: u32) -> (int, int) {
    let len = sec.data@.len() as int;
    let off = start - sec.address;
    let lo = if off < len {
        off
    } else {
        len
    };
    let want = if end == 0 {
        len
    } else if end - sec.address < 0 {
        0
    } else if end - sec.address < len {
        end - sec.address
    } else {
        len
    };
    let hi = if want < lo {
        lo
    } else {
        want
    };
    (lo, hi)
}

impl ObjInfo {
    /// The symbol table is well formed and the splits are ordered by start.
    pub open spec fn wf(&self) -> bool {
        &&& self.symbols.wf()
        &&& splits_ordered(self.splits@)
    }

    /// An object with the given sections and symbols and nothing learned yet.
    pub fn new(
        kind: ObjKind,
        architecture: ObjArchitecture,
        name: String,
        symbols: Vec<ObjSymbol>,
        sections: Vec<ObjSection>,
    ) -> (r: Self)
        ensures
            r.wf(),
            r.kind == kind,
            r.architecture == architecture,
            r.name == name,
            r.symbols@ == symbols@,
            r.symbols.conflicts_view().len() == 0,
            r.sections == sections,
            r.entry == 0,
            r.mw_comment@.len() == 0,
            r.sda2_base is None && r.sda_base is None && r.stack_address is None
                && r.stack_end is None && r.db_stack_addr is None && r.arena_lo is None
                && r.arena_hi is None,
            r.splits@.len() == 0,
            r.named_sections@ == Map::<u32, String>::empty(),
            r.link_order@.len() == 0,
            r.blocked_ranges@ == Map::<u32, u32>::empty(),
            r.known_functions@ == Map::<u32, u32>::empty(),
            r.module_id == 0,
            r.unresolved_relocations@.len() == 0,
    {
        ObjInfo {
            kind,
            architecture,
            name,
            symbols: ObjSymbols::new(symbols),
            sections,
            entry: 0,
            mw_comment: Vec::new(),
            sda2_base: None,
            sda_base: None,
            stack_address: None,
            stack_end: None,
            db_stack_addr: None,
            arena_lo: None,
            arena_hi: None,
            splits: Vec::new(),
            named_sections: BTreeMap::new(),
            link_order: Vec::new(),
            blocked_ranges: BTreeMap::new(),
            known_functions: BTreeMap::new(),
            module_id: 0,
            unresolved_relocations: Vec::new(),
        }
    }

    /// Adds a symbol to the table as [`ObjSymbols::add`] does, and records its address
    /// when its name is one of the linker-generated ones.
    pub fn add_symbol(&mut self, in_symbol: ObjSymbol, replace: bool) -> (r: Result<usize, ObjError>)
        requires
            old(self).wf(),
        ensures
            final(self).wf(),
            (r, final(self).symbols@) == add_outcome(old(self).symbols@, in_symbol, replace),
            final(self).symbols.conflicts_view() == old(self).symbols.conflicts_view()
                + add_conflicts(old(self).symbols@, in_symbol),
            final(self).sda_base == linker_field(old(self).sda_base, 0, in_symbol.name@, in_symbol.address),
            final(self).sda2_base == linker_field(old(self).sda2_base, 1, in_symbol.name@, in_symbol.address),
            final(self).stack_address == linker_field(old(self).stack_address, 2, in_symbol.name@, in_symbol.address),
            final(self).stack_end == linker_field(old(self).stack_end, 3, in_symbol.name@, in_symbol.address),
            final(self).db_stack_addr == linker_field(old(self).db_stack_addr, 4, in_symbol.name@, in_symbol.address),
            final(self).arena_lo == linker_field(old(self).arena_lo, 5, in_symbol.name@, in_symbol.address),
            final(self).arena_hi == linker_field(old(self).arena_hi, 6, in_symbol.name@, in_symbol.address),
            *final(self) == (ObjInfo {
                symbols: final(self).symbols,
                sda_base: final(self).sda_base,
                sda2_base: final(self).sda2_base,
                stack_address: final(self).stack_address,
                stack_end: final(self).stack_end,
                db_stack_addr: final(self).db_stack_addr,
                arena_lo: final(self).arena_lo,
                arena_hi: final(self).arena_hi,
                ..*old(self)
            }),
    {
        proof {
            reveal_strlit("_SDA_BASE_");
            reveal_strlit("_SDA2_BASE_");
            reveal_strlit("_stack_addr");
            reveal_strlit("_stack_end");
            reveal_strlit("_db_stack_addr");
            reveal_strlit("__ArenaLo");
            reveal_strlit("__ArenaHi");
        }
        let name = in_symbol.name.as_str();
        let address = (in_symbol.address % 0x1_0000_0000) as u32;
        if str_equals(name, "_SDA_BASE_") {
            self.sda_base = Some(address);
        } else if str_equals(name, "_SDA2_BASE_") {
            self.sda2_base = Some(address);
        } else if str_equals(name, "_stack_addr") {
            self.stack_address = Some(address);
        } else if str_equals(name, "_stack_end") {
            self.stack_end = Some(address);
        } else if str_equals(name, "_db_stack_addr") {
            self.db_stack_addr = Some(address);
        } else if str_equals(name, "__ArenaLo") {
            self.arena_lo = Some(address);
        } else if str_equals(name, "__ArenaHi") {
            self.arena_hi = Some(address);
        }
        self.symbols.add(in_symbol, replace)
    }

    /// The first section that contains `addr`.
    pub fn section_at(&self, addr: u32) -> (r: Result<&ObjSection, ObjError>)
        ensures
            first_section_at(self.sections@, addr, 0) matches Some(i) ==> r matches Ok(s) && *s
                == self.sections@[i],
            first_section_at(self.sections@, addr, 0) is None ==> r == Err::<&ObjSection, ObjError>(
                ObjError::NoSectionAt { address: addr },
            ),
    {
        let mut k: usize = 0;
        while k < self.sections.len()
            invariant
                0 <= k <= self.sections@.len(),
                first_section_at(self.sections@, addr, 0) == first_section_at(self.sections@, addr, k as int),
            decreases self.sections@.len() - k,
        {
            if self.sections[k].contains(addr) {
                return Ok(&self.sections[k]);
            }
            k = k + 1;
        }
        Err(ObjError::NoSectionAt { address: addr })
    }

    /// The first section that contains all of `range`.
    pub fn section_for(&self, range: std::ops::Range<u32>) -> (r: Result<&ObjSection, ObjError>)
        ensures
            first_section_for(self.sections@, range.start, range.end, 0) matches Some(i) ==> r matches Ok(s) && *s
                == self.sections@[i],
            first_section_for(self.sections@, range.start, range.end, 0) is None ==> r == Err::<&ObjSection, ObjError>(
                ObjError::NoSectionFor { start: range.start, end: range.end },
            ),
    {
        let start = range.start;
        let end = range.end;
        let mut k: usize = 0;
        while k < self.sections.len()
            invariant
                0 <= k <= self.sections@.len(),
                start == range.start && end == range.end,
                first_section_for(self.sections@, start, end, 0) == first_section_for(self.sections@, start, end, k as int),
            decreases self.sections@.len() - k,
        {
            if self.sections[k].contains_range(std::ops::Range { start, end }) {
                return Ok(&self.sections[k]);
            }
            k = k + 1;
        }
        Err(ObjError::NoSectionFor { start, end })
    }

    /// The bytes of `[start, end)` in the section that contains `start`, clamped to the
    /// section's data; `end == 0` reads to the end of the data.
    pub fn section_data(&self, start: u32, end: u32) -> (r: Result<(&ObjSection, &[u8]), ObjError>)
        ensures
            first_section_at(self.sections@, start, 0) matches Some(i) ==> r matches Ok((s, d))
                && *s == self.sections@[i] && d@ == s.data@.subrange(
                data_window(*s, start, end).0,
                data_window(*s, start, end).1,
            ),
            first_section_at(self.sections@, start, 0) is None ==> (r matches Err(e) && e == (
            ObjError::NoSectionAt { address: start })),
    {
        proof {
            lemma_first_section_at_bounds(self.sections@, start, 0);
        }
        let section = match self.section_at(start) {
            Ok(s) => s,
            Err(e) => return Err(e),
        };
        let len = section.data.len();
        let off = start as u64 - section.address;
        let lo: usize = if off < len as u64 {
            off as usize
        } else {
            len
        };
        let want: usize = if end == 0 {
            len
        } else if (end as u64) < section.address {
            0
        } else if (end as u64) - section.address < len as u64 {
            ((end as u64) - section.address) as usize
        } else {
            len
        };
        let hi = if want < lo {
            lo
        } else {
            want
        };
        let data = vstd::slice::slice_subrange(section.data.as_slice(), lo, hi);
        Ok((section, data))
    }

    /// The split that covers `address`: the last one starting at or below it, provided
    /// it ends above the address or, when open-ended, its section still holds the address.
    pub fn split_for(&self, address: u32) -> (r: Option<(u32, &ObjSplit)>)
        ensures
            split_covering(self.sections@, self.splits@, address) matches Some(p) ==> r matches Some((a, sp)) && a
                == self.splits@[p].0 && *sp == self.splits@[p].1,
            split_covering(self.sections@, self.splits@, address) is None ==> r is None,
    {
        let mut k: usize = self.splits.len();
        while k > 0
            invariant
                0 <= k <= self.splits@.len(),
                last_split_at_or_below(self.splits@, address, self.splits@.len() as int)
                    == last_split_at_or_below(self.splits@, address, k as int),
            decreases k,
        {
            let entry = &self.splits[k - 1];
            if entry.0 <= address {
                if entry.1.end > address {
                    return Some((entry.0, &entry.1));
                }
                if entry.1.end == 0 {
                    proof {
                        lemma_first_section_at_bounds(self.sections@, entry.0, 0);
                    }
                    let reaches = match self.section_at(entry.0) {
                        Ok(section) => section.contains(address),
                        Err(_) => true,
                    };
                    if reaches {
                        return Some((entry.0, &entry.1));
                    }
                }
                return None;
            }
            k = k - 1;
        }
        None
    }

    /// The splits whose start lies in `range`, ordered by start.
    pub fn splits_for_range(&self, range: std::ops::Range<u32>) -> (r: Vec<(u32, &ObjSplit)>)
        ensures
            r@.len() == split_window(self.splits@, range.start, range.end, self.splits@.len() as int).len(),
            forall|k: int|
                0 <= k < r@.len() ==> (#[trigger] r@[k]).0 == split_window(
                    self.splits@,
                    range.start,
                    range.end,
                    self.splits@.len() as int,
                )[k].0 && *r@[k].1 == split_window(
                    self.splits@,
                    range.start,
                    range.end,
                    self.splits@.len() as int,
                )[k].1,
    {
        let start = range.start;
        let end = range.end;
        let mut r: Vec<(u32, &ObjSplit)> = Vec::new();
        let mut k: usize = 0;
        while k < self.splits.len()
            invariant
                0 <= k <= self.splits@.len(),
                start == range.start && end == range.end,
                r@.len() == split_window(self.splits@, start, end, k as int).len(),
                forall|m: int|
                    0 <= m < r@.len() ==> (#[trigger] r@[m]).0 == split_window(self.splits@, start, end, k as int)[m].0
                        && *r@[m].1 == split_window(self.splits@, start, end, k as int)[m].1,
            decreases self.splits@.len() - k,
        {
            let entry = &self.splits[k];
            if start <= entry.0 && entry.0 < end {
                r.push((entry.0, &entry.1));
            }
            k = k + 1;
        }
        r
    }

    /// Records a split starting at `address`, after any already stored there.
    pub fn add_split(&mut self, address: u32, split: ObjSplit)
        requires
            old(self).wf(),
        ensures
            final(self).wf(),
            exists|p: int|
                0 <= p <= old(self).splits@.len() && final(self).splits@ == old(self).splits@.insert(
                    p,
                    (address, split),
                ) && (forall|k: int| 0 <= k < p ==> (#[trigger] old(self).splits@[k]).0 <= address)
                    && (forall|k: int|
                    p <= k < old(self).splits@.len() ==> (#[trigger] old(self).splits@[k]).0 > address),
            *final(self) == (ObjInfo { splits: final(self).splits, ..*old(self) }),
    {
        let ghost prev = self.splits@;
        let mut p: usize = 0;
        while p < self.splits.len() && self.splits[p].0 <= address
            invariant
                prev == self.splits@,
                splits_ordered(prev),
                0 <= p <= prev.len(),
                forall|k: int| 0 <= k < p ==> (#[trigger] prev[k]).0 <= address,
            decreases prev.len() - p,
        {
            p = p + 1;
        }
        proof {
            assert forall|k: int| p <= k < prev.len() implies (#[trigger] prev[k]).0 > address by {
                assert(prev[p as int].0 <= prev[k].0);
            }
        }
        self.splits.insert(p, (address, split));
        proof {
            let s = self.splits@;
            assert(s == prev.insert(p as int, (address, split)));
            assert forall|k: int, l: int| 0 <= k < l < s.len() implies #[trigger] s[k].0 <= #[trigger] s[l].0 by {
                if k < p && l < p {
                    assert(s[k] == prev[k] && s[l] == prev[l]);
                } else if k < p && l == p {
                    assert(s[k] == prev[k]);
                } else if k < p {
                    assert(s[k] == prev[k] && s[l] == prev[l - 1]);
                } else if k == p {
                    assert(s[l] == prev[l - 1]);
                } else {
                    assert(s[k] == prev[k - 1] && s[l] == prev[l - 1]);
                }
            }
        }
    }
}

} // verus!
