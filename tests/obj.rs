use obj_model::{
    section_kind_for_section, ObjArchitecture, ObjDataKind, ObjError, ObjInfo, ObjKind, ObjReloc,
    ObjRelocKind, ObjSection, ObjSectionKind, ObjSplit, ObjSymbol, ObjSymbolFlagSet,
    ObjSymbolFlags, ObjSymbolKind, ObjSymbols, SizeConflict,
};

fn sym(name: &str, address: u64, size: u64, kind: ObjSymbolKind, section: Option<usize>) -> ObjSymbol {
    ObjSymbol {
        name: name.to_string(),
        demangled_name: None,
        address,
        section,
        size,
        size_known: size != 0,
        flags: ObjSymbolFlagSet::empty(),
        kind,
        align: None,
        data_kind: ObjDataKind::Unknown,
    }
}

fn section(name: &str, address: u64, size: u64, data: Vec<u8>) -> ObjSection {
    ObjSection {
        name: name.to_string(),
        kind: ObjSectionKind::Data,
        address,
        size,
        data,
        align: 4,
        index: 0,
        elf_index: 0,
        relocations: vec![],
        original_address: 0,
        file_offset: 0,
        section_known: true,
    }
}

fn reloc(address: u64) -> ObjReloc {
    ObjReloc { kind: ObjRelocKind::Absolute, address, target_symbol: 0, addend: 0 }
}

fn split(unit: &str, end: u32) -> ObjSplit {
    ObjSplit { unit: unit.to_string(), end, align: None, common: false }
}

#[test]
fn add_same_symbol_twice_keeps_index() {
    let mut table = ObjSymbols::new(vec![]);
    let s = sym("foo", 0x8000_0000, 4, ObjSymbolKind::Function, Some(0));
    let a = table.add(s.clone(), false).unwrap();
    let b = table.add(s, false).unwrap();
    assert_eq!(a, b);
    assert_eq!(table.count(), 1);
}

#[test]
fn add_without_merge_learns_missing_size() {
    let mut table = ObjSymbols::new(vec![]);
    let a = table.add(sym("foo", 0x100, 0, ObjSymbolKind::Object, Some(0)), false).unwrap();
    assert!(!table.at(a).size_known);
    let b = table.add(sym("bar", 0x100, 8, ObjSymbolKind::Object, Some(0)), false).unwrap();
    assert_eq!(a, b);
    assert_eq!(table.at(a).name, "foo");
    assert_eq!(table.at(a).size, 8);
    assert!(table.at(a).size_known);
    assert!(table.size_conflicts().is_empty());
}

#[test]
fn merge_conflicting_sizes_takes_incoming() {
    let mut table = ObjSymbols::new(vec![]);
    let a = table.add(sym("foo", 0x100, 4, ObjSymbolKind::Object, Some(0)), false).unwrap();
    let b = table.add(sym("foo", 0x100, 8, ObjSymbolKind::Object, Some(0)), true).unwrap();
    assert_eq!(a, b);
    assert_eq!(table.at(a).size, 8);
    assert_eq!(table.size_conflicts(), &[SizeConflict { index: a, previous: 4, incoming: 8 }]);
    let taken = table.take_size_conflicts();
    assert_eq!(taken.len(), 1);
    assert!(table.size_conflicts().is_empty());
}

#[test]
fn conflicting_sizes_without_merge_keep_existing() {
    let mut table = ObjSymbols::new(vec![]);
    let a = table.add(sym("foo", 0x100, 4, ObjSymbolKind::Object, Some(0)), false).unwrap();
    table.add(sym("foo", 0x100, 8, ObjSymbolKind::Object, Some(0)), false).unwrap();
    assert_eq!(table.at(a).size, 4);
    assert_eq!(table.size_conflicts().len(), 1);
}

#[test]
fn merge_overwrites_fields_but_keeps_alignment_and_data_kind() {
    let mut table = ObjSymbols::new(vec![]);
    let mut first = sym("lbl_80000100", 0x100, 0, ObjSymbolKind::Unknown, Some(0));
    first.align = Some(8);
    first.data_kind = ObjDataKind::Byte4;
    let a = table.add(first, false).unwrap();
    let b = table.add(sym("real_name", 0x100, 0x10, ObjSymbolKind::Object, Some(1)), true).unwrap();
    assert_eq!(a, b);
    let s = table.at(a);
    assert_eq!(s.name, "real_name");
    assert_eq!(s.kind, ObjSymbolKind::Object);
    assert_eq!(s.section, Some(1));
    assert_eq!(s.size, 0x10);
    assert!(s.size_known);
    assert_eq!(s.align, Some(8));
    assert_eq!(s.data_kind, ObjDataKind::Byte4);
    assert_eq!(table.by_name("lbl_80000100").unwrap(), None);
    assert_eq!(table.by_name("real_name").unwrap(), Some(a));
}

#[test]
fn sectionless_symbols_with_other_names_are_not_merged() {
    let mut table = ObjSymbols::new(vec![]);
    let a = table.add(sym("abs_a", 0x100, 0, ObjSymbolKind::Object, None), true).unwrap();
    let b = table.add(sym("abs_b", 0x100, 0, ObjSymbolKind::Object, None), true).unwrap();
    assert_ne!(a, b);
    assert_eq!(table.count(), 2);
    assert_eq!(table.at_address(0x100), vec![a, b]);
}

#[test]
fn new_symbol_size_known_only_when_nonzero() {
    let mut table = ObjSymbols::new(vec![]);
    let mut s = sym("zero", 0x10, 0, ObjSymbolKind::Function, Some(0));
    s.size_known = true;
    let a = table.add(s, false).unwrap();
    assert!(!table.at(a).size_known);
}

#[test]
fn merge_that_moves_address_fails() {
    let mut table = ObjSymbols::new(vec![]);
    let a = table.add(sym("foo", 0x1_0000_0100, 0, ObjSymbolKind::Object, Some(0)), false).unwrap();
    let r = table.add(sym("foo", 0x100, 0, ObjSymbolKind::Object, Some(0)), true);
    assert_eq!(r, Err(ObjError::AddressChanged { index: a }));
    assert_eq!(table.address_of(a), 0x1_0000_0100);
}

#[test]
fn add_direct_appends_unconditionally() {
    let mut table = ObjSymbols::new(vec![]);
    let s = sym("foo", 0x100, 4, ObjSymbolKind::Object, Some(0));
    assert_eq!(table.add_direct(s.clone()), Ok(0));
    assert_eq!(table.add_direct(s), Ok(1));
    assert_eq!(table.count(), 2);
}

#[test]
fn replace_keeps_address() {
    let mut table = ObjSymbols::new(vec![sym("foo", 0x100, 4, ObjSymbolKind::Object, Some(0))]);
    assert_eq!(
        table.replace(0, sym("foo", 0x104, 4, ObjSymbolKind::Object, Some(0))),
        Err(ObjError::AddressChanged { index: 0 })
    );
    assert_eq!(table.replace(0, sym("bar", 0x100, 4, ObjSymbolKind::Object, Some(0))), Ok(()));
    assert_eq!(table.at(0).name, "bar");
    assert!(table.for_name("foo").is_empty());
    assert_eq!(table.for_name("bar"), vec![0]);
}

#[test]
fn by_name_unique_and_ambiguous() {
    let mut table = ObjSymbols::new(vec![]);
    assert_eq!(table.by_name("foo"), Ok(None));
    let a = table.add(sym("foo", 0x100, 4, ObjSymbolKind::Object, Some(0)), false).unwrap();
    assert_eq!(table.by_name("foo"), Ok(Some(a)));
    let b = table.add(sym("foo", 0x200, 4, ObjSymbolKind::Object, Some(0)), false).unwrap();
    assert_eq!(
        table.by_name("foo"),
        Err(ObjError::AmbiguousName { name: "foo".to_string(), first: a, second: b })
    );
    assert_eq!(table.by_name(""), Ok(None));
}

#[test]
fn kind_at_address_detects_duplicates() {
    let mut table = ObjSymbols::new(vec![]);
    table.add_direct(sym("a", 0x100, 4, ObjSymbolKind::Object, Some(0))).unwrap();
    table.add_direct(sym("b", 0x100, 4, ObjSymbolKind::Function, Some(0))).unwrap();
    assert_eq!(table.kind_at_address(0x100, ObjSymbolKind::Function), Ok(Some(1)));
    assert_eq!(table.kind_at_address(0x100, ObjSymbolKind::Section), Ok(None));
    table.add_direct(sym("c", 0x100, 4, ObjSymbolKind::Object, Some(0))).unwrap();
    assert_eq!(
        table.kind_at_address(0x100, ObjSymbolKind::Object),
        Err(ObjError::MultipleOfKind { kind: ObjSymbolKind::Object, address: 0x100 })
    );
}

#[test]
fn relocation_resolves_by_size_and_exact_address() {
    let mut table = ObjSymbols::new(vec![]);
    let a = table.add(sym("A", 0x100, 4, ObjSymbolKind::Object, Some(0)), false).unwrap();
    let b = table.add(sym("B", 0x104, 0, ObjSymbolKind::Unknown, Some(0)), false).unwrap();
    assert_eq!(table.for_relocation(0x102, ObjRelocKind::Absolute), Ok(Some(a)));
    assert_eq!(table.for_relocation(0x104, ObjRelocKind::Absolute), Ok(Some(b)));
    assert_eq!(table.for_relocation(0x108, ObjRelocKind::Absolute), Ok(None));
    assert_eq!(table.for_relocation(0xFF, ObjRelocKind::Absolute), Ok(None));
}

#[test]
fn relocation_passes_over_sizeless_symbols() {
    let mut table = ObjSymbols::new(vec![]);
    let a = table.add(sym("A", 0x100, 0x10, ObjSymbolKind::Object, Some(0)), false).unwrap();
    table.add(sym("L", 0x104, 0, ObjSymbolKind::Unknown, Some(0)), false).unwrap();
    assert_eq!(table.for_relocation(0x108, ObjRelocKind::Absolute), Ok(Some(a)));
    assert_eq!(table.for_relocation(0x110, ObjRelocKind::Absolute), Ok(None));
}

#[test]
fn relocation_ranks_symbols_sharing_an_address() {
    let mut table = ObjSymbols::new(vec![]);
    let obj = table.add_direct(sym("obj", 0x100, 4, ObjSymbolKind::Object, Some(0))).unwrap();
    let label = table.add_direct(sym("lbl", 0x100, 0, ObjSymbolKind::Unknown, Some(0))).unwrap();
    let sect = table.add_direct(sym(".data", 0x100, 0x100, ObjSymbolKind::Section, Some(0))).unwrap();
    // address-taking modes prefer the object (2 + 1) over the label (1) and section (0)
    assert_eq!(table.for_relocation(0x100, ObjRelocKind::Absolute), Ok(Some(obj)));
    assert_eq!(table.for_relocation(0x100, ObjRelocKind::PpcRel24), Ok(Some(obj)));
    // half-address modes prefer the label (3) over the object (1 + 1)
    assert_eq!(table.for_relocation(0x100, ObjRelocKind::PpcAddr16Ha), Ok(Some(label)));
    assert_eq!(table.for_relocation(0x100, ObjRelocKind::PpcAddr16Lo), Ok(Some(label)));
    let _ = sect;
}

#[test]
fn relocation_demotes_jump_table_labels() {
    let mut table = ObjSymbols::new(vec![]);
    let obj = table.add_direct(sym("obj", 0x100, 4, ObjSymbolKind::Object, Some(0))).unwrap();
    table.add_direct(sym("..jumptable", 0x100, 0, ObjSymbolKind::Unknown, Some(0))).unwrap();
    assert_eq!(table.for_relocation(0x100, ObjRelocKind::PpcAddr16Hi), Ok(Some(obj)));
}

#[test]
fn relocation_ties_go_to_first_inserted() {
    let mut table = ObjSymbols::new(vec![]);
    let first = table.add_direct(sym("f1", 0x200, 0, ObjSymbolKind::Function, Some(0))).unwrap();
    table.add_direct(sym("f2", 0x200, 0, ObjSymbolKind::Function, Some(0))).unwrap();
    assert_eq!(table.for_relocation(0x200, ObjRelocKind::PpcRel24), Ok(Some(first)));
}

#[test]
fn section_contains_is_half_open() {
    let s = section(".data", 0x1000, 0x20, vec![]);
    assert!(s.contains(0x1000));
    assert!(s.contains(0x101F));
    assert!(!s.contains(0x1020));
    assert!(!s.contains(0xFFF));
    assert!(s.contains_range(0x1000..0x1020));
    assert!(!s.contains_range(0x1000..0x1021));
    assert!(!s.contains_range(0xFFF..0x1010));
}

#[test]
fn relocation_map_rejects_duplicate_address() {
    let mut s = section(".text", 0, 0x10, vec![0; 0x10]);
    s.relocations = vec![reloc(0x4), reloc(0x8), reloc(0x4)];
    assert_eq!(s.build_relocation_map(), Err(ObjError::DuplicateRelocation { address: 0x4 }));
    assert_eq!(s.build_relocation_map_cloned().err(), Some(ObjError::DuplicateRelocation { address: 0x4 }));
}

#[test]
fn relocation_map_indexes_by_address() {
    let mut s = section(".text", 0, 0x10, vec![0; 0x10]);
    s.relocations = vec![reloc(0x8), reloc(0x4)];
    let m = s.build_relocation_map().unwrap();
    assert_eq!(m.len(), 2);
    assert_eq!(m.get(&0x8), Some(&0));
    assert_eq!(m.get(&0x4), Some(&1));
    let c = s.build_relocation_map_cloned().unwrap();
    assert_eq!(c.get(&0x4).map(|r| r.address), Some(0x4));
}

#[test]
fn iter_ordered_sorts_by_address_then_insertion() {
    let mut table = ObjSymbols::new(vec![sym("c", 0x300, 0, ObjSymbolKind::Object, None)]);
    table.add(sym("a", 0x100, 0, ObjSymbolKind::Object, Some(0)), false).unwrap();
    table.add(sym("b1", 0x200, 0, ObjSymbolKind::Function, Some(0)), false).unwrap();
    table.add(sym("b2", 0x200, 0, ObjSymbolKind::Object, Some(0)), false).unwrap();
    table.add(sym("z", 0x0, 0, ObjSymbolKind::Object, Some(0)), false).unwrap();
    let order = table.iter_ordered();
    let names: Vec<&str> = order.iter().map(|&i| table.at(i).name.as_str()).collect();
    assert_eq!(names, vec!["z", "a", "b1", "b2", "c"]);
    let addrs: Vec<u64> = order.iter().map(|&i| table.address_of(i)).collect();
    assert!(addrs.windows(2).all(|w| w[0] <= w[1]));
}

#[test]
fn range_and_section_queries() {
    let mut table = ObjSymbols::new(vec![]);
    table.add_direct(sym("a", 0x1000, 4, ObjSymbolKind::Object, Some(0))).unwrap();
    table.add_direct(sym("abs", 0x1004, 0, ObjSymbolKind::Object, None)).unwrap();
    table.add_direct(sym("b", 0x1008, 4, ObjSymbolKind::Function, Some(1))).unwrap();
    table.add_direct(sym("c", 0x1020, 4, ObjSymbolKind::Object, Some(0))).unwrap();
    assert_eq!(table.for_range(0x1000..0x1020), vec![0, 2]);
    let mut s = section(".data", 0x1000, 0x20, vec![]);
    s.index = 0;
    assert_eq!(table.for_section(&s), vec![0]);
    assert_eq!(table.by_kind(ObjSymbolKind::Object), vec![0, 1, 3]);
    assert_eq!(table.at_address(0x1008), vec![2]);
    assert_eq!(table.iter().len(), 4);
}

#[test]
fn section_kinds_by_name() {
    assert_eq!(section_kind_for_section(".text"), Ok(ObjSectionKind::Code));
    assert_eq!(section_kind_for_section(".init"), Ok(ObjSectionKind::Code));
    assert_eq!(section_kind_for_section("extab"), Ok(ObjSectionKind::ReadOnlyData));
    assert_eq!(section_kind_for_section(".sdata2"), Ok(ObjSectionKind::ReadOnlyData));
    assert_eq!(section_kind_for_section(".sbss2"), Ok(ObjSectionKind::Bss));
    assert_eq!(section_kind_for_section(".sdata"), Ok(ObjSectionKind::Data));
    assert_eq!(
        section_kind_for_section(".comment"),
        Err(ObjError::UnknownSection { name: ".comment".to_string() })
    );
}

#[test]
fn flags_set_global_clears_local_and_weak() {
    let mut f = ObjSymbolFlagSet::empty();
    f.insert(ObjSymbolFlags::Local);
    f.insert(ObjSymbolFlags::Weak);
    f.insert(ObjSymbolFlags::Hidden);
    assert!(f.is_local() && !f.is_global() && f.is_weak());
    f.set_global();
    assert!(f.is_global() && !f.is_local() && !f.is_weak());
    assert!(f.is_hidden());
    assert!(f.contains(ObjSymbolFlags::Global));
    assert!(!f.is_common() && !f.is_force_active());
}

fn info() -> ObjInfo {
    let mut text = section(".text", 0x8000_0000, 0x10, (0u8..0x10).collect());
    text.kind = ObjSectionKind::Code;
    let mut bss = section(".bss", 0x8000_0100, 0x100, vec![]);
    bss.kind = ObjSectionKind::Bss;
    bss.index = 1;
    ObjInfo::new(ObjKind::Executable, ObjArchitecture::PowerPc, "main".to_string(), vec![], vec![text, bss])
}

#[test]
fn add_symbol_records_linker_addresses() {
    let mut obj = info();
    obj.add_symbol(sym("_SDA_BASE_", 0x8040_0000, 0, ObjSymbolKind::Unknown, None), false).unwrap();
    obj.add_symbol(sym("__ArenaHi", 0x8170_0000, 0, ObjSymbolKind::Unknown, None), false).unwrap();
    obj.add_symbol(sym("other", 0x8000_0000, 4, ObjSymbolKind::Function, Some(0)), false).unwrap();
    assert_eq!(obj.sda_base, Some(0x8040_0000));
    assert_eq!(obj.arena_hi, Some(0x8170_0000));
    assert_eq!(obj.sda2_base, None);
    assert_eq!(obj.symbols.count(), 3);
}

#[test]
fn section_lookup_and_data() {
    let obj = info();
    assert_eq!(obj.section_at(0x8000_0004).unwrap().name, ".text");
    assert_eq!(obj.section_at(0x8000_0010).err(), Some(ObjError::NoSectionAt { address: 0x8000_0010 }));
    assert_eq!(obj.section_for(0x8000_0100..0x8000_0200).unwrap().name, ".bss");
    assert!(obj.section_for(0x8000_0008..0x8000_0011).is_err());
    let (s, d) = obj.section_data(0x8000_0004, 0x8000_0008).unwrap();
    assert_eq!(s.name, ".text");
    assert_eq!(d, &[4, 5, 6, 7]);
    let (_, d) = obj.section_data(0x8000_000C, 0).unwrap();
    assert_eq!(d, &[12, 13, 14, 15]);
    let (_, d) = obj.section_data(0x8000_000C, 0x8000_0100).unwrap();
    assert_eq!(d, &[12, 13, 14, 15]);
    let (s, d) = obj.section_data(0x8000_0104, 0).unwrap();
    assert_eq!(s.name, ".bss");
    assert!(d.is_empty());
}

#[test]
fn splits_are_stored_and_found() {
    let mut obj = info();
    obj.add_split(0x8000_0008, split("b.c", 0));
    obj.add_split(0x8000_0000, split("a.c", 0x8000_0008));
    obj.add_split(0x8000_0000, split("a2.c", 0x8000_0004));
    let starts: Vec<u32> = obj.splits.iter().map(|e| e.0).collect();
    assert_eq!(starts, vec![0x8000_0000, 0x8000_0000, 0x8000_0008]);
    let (addr, s) = obj.split_for(0x8000_0002).unwrap();
    assert_eq!(addr, 0x8000_0000);
    assert_eq!(s.unit, "a2.c");
    assert!(obj.split_for(0x8000_0006).is_none());
    let (addr, s) = obj.split_for(0x8000_000F).unwrap();
    assert_eq!(addr, 0x8000_0008);
    assert_eq!(s.unit, "b.c");
    // an open split stops at the end of its section
    assert!(obj.split_for(0x8000_0010).is_none());
    assert!(obj.split_for(0x8000_0FFF).is_none());
    assert!(obj.split_for(0x7FFF_FFFF).is_none());
    let units: Vec<&str> = obj.splits_for_range(0x8000_0000..0x8000_0008).iter().map(|e| e.1.unit.as_str()).collect();
    assert_eq!(units, vec!["a.c", "a2.c"]);
}

#[test]
fn indexes_for_range_groups_by_address() {
    let mut table = ObjSymbols::new(vec![]);
    table.add_direct(sym("a", 0x100, 0, ObjSymbolKind::Object, Some(0))).unwrap();
    table.add_direct(sym("b", 0x200, 0, ObjSymbolKind::Object, Some(0))).unwrap();
    table.add_direct(sym("c", 0x100, 0, ObjSymbolKind::Function, None)).unwrap();
    table.add_direct(sym("d", 0x300, 0, ObjSymbolKind::Object, Some(0))).unwrap();
    assert_eq!(table.indexes_for_range(0x100..0x300), vec![(0x100, vec![0, 2]), (0x200, vec![1])]);
    assert!(table.indexes_for_range(0x101..0x200).is_empty());
}

#[test]
fn relocation_near_top_of_address_space() {
    let mut table = ObjSymbols::new(vec![]);
    let a = table.add(sym("top", 0xFFFF_FFF0, 0x20, ObjSymbolKind::Object, Some(0)), false).unwrap();
    assert_eq!(table.for_relocation(0xFFFF_FFFF, ObjRelocKind::Absolute), Ok(Some(a)));
    assert_eq!(table.for_relocation(0xFFFF_FFEF, ObjRelocKind::Absolute), Ok(None));
}

#[test]
fn relocation_compares_full_address_for_exact_match() {
    let mut table = ObjSymbols::new(vec![]);
    table.add_direct(sym("high", 0x1_0000_0100, 0, ObjSymbolKind::Object, Some(0))).unwrap();
    assert_eq!(table.at_address(0x100), vec![0]);
    assert_eq!(table.for_relocation(0x100, ObjRelocKind::Absolute), Ok(None));
}

#[test]
fn new_table_indexes_given_symbols() {
    let table = ObjSymbols::new(vec![
        sym("b", 0x200, 0, ObjSymbolKind::Object, Some(0)),
        sym("", 0x100, 0, ObjSymbolKind::Unknown, Some(0)),
        sym("b", 0x300, 0, ObjSymbolKind::Object, Some(0)),
    ]);
    assert_eq!(table.count(), 3);
    assert_eq!(table.iter_ordered(), vec![1, 0, 2]);
    assert_eq!(table.for_name("b"), vec![0, 2]);
    assert!(table.for_name("").is_empty());
    assert!(table.by_name("b").is_err());
}

#[test]
fn rename_moves_symbol_between_names() {
    let mut table = ObjSymbols::new(vec![
        sym("a", 0x100, 0, ObjSymbolKind::Object, Some(0)),
        sym("b", 0x200, 0, ObjSymbolKind::Object, Some(0)),
    ]);
    table.replace(0, sym("b", 0x100, 0, ObjSymbolKind::Object, Some(0))).unwrap();
    assert!(table.for_name("a").is_empty());
    assert_eq!(table.for_name("b"), vec![1, 0]);
    table.replace(0, sym("", 0x100, 0, ObjSymbolKind::Object, Some(0))).unwrap();
    assert_eq!(table.by_name("b"), Ok(Some(1)));
}

#[test]
fn relocation_ignores_size_that_is_not_known() {
    let mut table = ObjSymbols::new(vec![]);
    let mut s = sym("unsized", 0x100, 4, ObjSymbolKind::Object, Some(0));
    s.size_known = false;
    table.add_direct(s).unwrap();
    assert_eq!(table.for_relocation(0x102, ObjRelocKind::Absolute), Ok(None));
    assert_eq!(table.for_relocation(0x100, ObjRelocKind::Absolute), Ok(Some(0)));
}

#[test]
fn relocation_rank_bonus_needs_known_size() {
    let mut table = ObjSymbols::new(vec![]);
    let mut first = sym("first", 0x100, 4, ObjSymbolKind::Object, Some(0));
    first.size_known = false;
    table.add_direct(first).unwrap();
    let second = table.add_direct(sym("second", 0x100, 4, ObjSymbolKind::Object, Some(0))).unwrap();
    assert_eq!(table.for_relocation(0x100, ObjRelocKind::Absolute), Ok(Some(second)));
}

#[test]
fn for_section_at_top_of_address_space() {
    let mut table = ObjSymbols::new(vec![]);
    table.add_direct(sym("top", 0xFFFF_FF10, 4, ObjSymbolKind::Object, Some(3))).unwrap();
    let mut s = section(".data", 0xFFFF_FF00, 0x100, vec![]);
    s.index = 3;
    assert_eq!(table.for_section(&s), vec![0]);
}

#[test]
fn for_section_compares_full_addresses() {
    let mut table = ObjSymbols::new(vec![]);
    table.add_direct(sym("low", 0x0, 4, ObjSymbolKind::Object, Some(2))).unwrap();
    table.add_direct(sym("inside", 0x1_0000_0004, 4, ObjSymbolKind::Object, Some(2))).unwrap();
    let mut empty = section(".bss", 0x1_0000_0000, 0, vec![]);
    empty.index = 2;
    assert!(table.for_section(&empty).is_empty());
    let mut s = section(".bss", 0x1_0000_0000, 0x10, vec![]);
    s.index = 2;
    assert_eq!(table.for_section(&s), vec![1]);
}
