use vstd::prelude::*;

use crate::error::ObjError;
use crate::flags::ObjSymbolFlagSet;
use crate::kinds::{ObjDataKind, ObjRelocKind, ObjSymbolKind};
use crate::section::{addr_key, str_equals, to_key, ObjSection};

verus! {

/// A symbol recovered from an object.
#[derive(Debug, Clone, Default, PartialEq, Eq)]
pub struct ObjSymbol {
    pub name: String,
    pub demangled_name: Option<String>,
    pub address: u64,
    pub section: Option<usize>,
    pub size: u64,
    pub size_known: bool,
    pub flags: ObjSymbolFlagSet,
    pub kind: ObjSymbolKind,
    pub align: Option<u32>,
    pub data_kind: ObjDataKind,
}

/// Two sizes observed for one symbol that do not agree.
#[derive(Debug, Copy, Clone, PartialEq, Eq, Structural)]
pub struct SizeConflict {
    pub index: usize,
    pub previous: u64,
    pub incoming: u64,
}

pub open spec fn starts_with(s: Seq<char>, p: Seq<char>) -> bool {
    p.len() <= s.len() && s.subrange(0, p.len() as int) == p
}

/// Whether `s` begins with `p`.
pub fn has_prefix(s: &str, p: &str) -> (r: bool)
    ensures
        r == starts_with(s@, p@),
{
    let n = p.unicode_len();
    if n > s.unicode_len() {
        return false;
    }
    let mut i: usize = 0;
    while i < n
        invariant
            n == p@.len() <= s@.len(),
            0 <= i <= n,
            s@.subrange(0, i as int) == p@.subrange(0, i as int),
        decreases n - i,
    {
        if s.get_char(i) != p.get_char(i) {
            assert(s@.subrange(0, n as int)[i as int] != p@[i as int]);
            return false;
        }
        assert(s@.subrange(0, i + 1) == s@.subrange(0, i as int).push(s@[i as int]));
        assert(p@.subrange(0, i + 1) == p@.subrange(0, i as int).push(p@[i as int]));
        i = i + 1;
    }
    assert(p@ == p@.subrange(0, n as int));
    true
}

/// The address-index bucket a symbol falls in.
pub open spec fn sym_key(s: ObjSymbol) -> u32 {
    addr_key(s.address)
}

/// Symbol `i` comes before symbol `j` in address order, insertion order breaking ties.
pub open spec fn precedes(syms: Seq<ObjSymbol>, i: int, j: int) -> bool {
    sym_key(syms[i]) < sym_key(syms[j]) || (sym_key(syms[i]) == sym_key(syms[j]) && i < j)
}

/// Index `i` occurs in `r`.
pub open spec fn listed(r: Seq<usize>, i: int) -> bool {
    exists|k: int| 0 <= k < r.len() && r[k] == i
}

/// `r` lists, in address order, exactly the indices below `m`.
pub open spec fn ordered_below(syms: Seq<ObjSymbol>, r: Seq<usize>, m: int) -> bool {
    &&& m <= syms.len()
    &&& forall|k: int| 0 <= k < r.len() ==> #[trigger] r[k] < m
    &&& forall|k: int, l: int|
        0 <= k < l < r.len() ==> precedes(syms, #[trigger] r[k] as int, #[trigger] r[l] as int)
    &&& forall|i: int| 0 <= i < m ==> #[trigger] listed(r, i)
}

/// `r` lists, in address order, exactly the indices of `syms` that satisfy `pred`.
pub open spec fn ordered_selection(
    syms: Seq<ObjSymbol>,
    r: Seq<usize>,
    pred: spec_fn(int) -> bool,
) -> bool {
    &&& forall|k: int| 0 <= k < r.len() ==> #[trigger] r[k] < syms.len() && pred(r[k] as int)
    &&& forall|k: int, l: int|
        0 <= k < l < r.len() ==> precedes(syms, #[trigger] r[k] as int, #[trigger] r[l] as int)
    &&& forall|i: int| 0 <= i < syms.len() && pred(i) ==> #[trigger] listed(r, i)
}

/// `r` lists, in ascending order, exactly the indices below `n` that satisfy `pred`.
pub open spec fn index_selection(n: int, r: Seq<usize>, pred: spec_fn(int) -> bool) -> bool {
    &&& forall|k: int| 0 <= k < r.len() ==> #[trigger] r[k] < n && pred(r[k] as int)
    &&& forall|k: int, l: int| 0 <= k < l < r.len() ==> #[trigger] r[k] < #[trigger] r[l]
    &&& forall|i: int| 0 <= i < n && pred(i) ==> #[trigger] listed(r, i)
}

/// `r` lists, each once and in no particular order, exactly the indices below `n`
/// that satisfy `pred`.
pub open spec fn name_selection(n: int, r: Seq<usize>, pred: spec_fn(int) -> bool) -> bool {
    &&& forall|k: int| 0 <= k < r.len() ==> #[trigger] r[k] < n && pred(r[k] as int)
    &&& forall|k: int, l: int| 0 <= k < l < r.len() ==> #[trigger] r[k] != #[trigger] r[l]
    &&& forall|i: int| 0 <= i < n && pred(i) ==> #[trigger] listed(r, i)
}

/// An existing symbol that an incoming one at the same address is merged into.
pub open spec fn merge_candidate(existing: ObjSymbol, incoming: ObjSymbol) -> bool {
    &&& sym_key(existing) == sym_key(incoming)
    &&& (existing.kind == incoming.kind || (existing.kind == ObjSymbolKind::Unknown && starts_with(
        existing.name@,
        "lbl_"@,
    )))
    &&& (existing.section is Some || existing.name@ == incoming.name@)
}

/// The first index from `i` on whose symbol an incoming symbol merges into.
pub open spec fn first_candidate(syms: Seq<ObjSymbol>, incoming: ObjSymbol, i: int) -> Option<
    int,
>
    decreases syms.len() - i,
{
    if i < 0 || i >= syms.len() {
        None
    } else if merge_candidate(syms[i], incoming) {
        Some(i)
    } else {
        first_candidate(syms, incoming, i + 1)
    }
}

/// Both symbols have a known size and the sizes differ.
pub open spec fn size_conflict(existing: ObjSymbol, incoming: ObjSymbol) -> bool {
    existing.size_known && incoming.size_known && existing.size != incoming.size
}

/// A symbol as stored on first insertion: its size counts as known when nonzero.
pub open spec fn fresh_symbol(s: ObjSymbol) -> ObjSymbol {
    ObjSymbol { size_known: s.size != 0, ..s }
}

/// The existing symbol, kept, with its size filled in if only the incoming one knows it.
pub open spec fn kept_symbol(existing: ObjSymbol, incoming: ObjSymbol) -> ObjSymbol {
    if incoming.size_known && !existing.size_known {
        ObjSymbol { size: incoming.size, size_known: true, ..existing }
    } else {
        existing
    }
}

/// The incoming symbol merged over the existing one.
pub open spec fn merged_symbol(existing: ObjSymbol, incoming: ObjSymbol) -> ObjSymbol {
    ObjSymbol {
        size: if incoming.size_known {
            incoming.size
        } else {
            existing.size
        },
        size_known: existing.size_known || incoming.size != 0,
        align: if incoming.align is Some {
            incoming.align
        } else {
            existing.align
        },
        data_kind: if incoming.data_kind == ObjDataKind::Unknown {
            existing.data_kind
        } else {
            incoming.data_kind
        },
        ..incoming
    }
}

/// Result and resulting table of adding `incoming` to `syms`.
pub open spec fn add_outcome(syms: Seq<ObjSymbol>, incoming: ObjSymbol, replace: bool) -> (
    Result<usize, ObjError>,
    Seq<ObjSymbol>,
) {
    match first_candidate(syms, incoming, 0) {
        None => (Ok(syms.len() as usize), syms.push(fresh_symbol(incoming))),
        Some(i) => if !replace {
            (Ok(i as usize), syms.update(i, kept_symbol(syms[i], incoming)))
        } else if syms[i].address != incoming.address {
            (Err(ObjError::AddressChanged { index: i as usize }), syms)
        } else {
            (Ok(i as usize), syms.update(i, merged_symbol(syms[i], incoming)))
        },
    }
}

/// The size conflicts that adding `incoming` to `syms` reports.
pub open spec fn add_conflicts(syms: Seq<ObjSymbol>, incoming: ObjSymbol) -> Seq<SizeConflict> {
    match first_candidate(syms, incoming, 0) {
        Some(i) => if size_conflict(syms[i], incoming) {
            seq![SizeConflict { index: i as usize, previous: syms[i].size, incoming: incoming.size }]
        } else {
            seq![]
        },
        None => seq![],
    }
}

fn clone_name(s: &Option<String>) -> (r: Option<String>)
    ensures
        r == *s,
{
    match s {
        Some(n) => Some(n.clone()),
        None => None,
    }
}

fn clone_symbol(s: &ObjSymbol) -> (r: ObjSymbol)
    ensures
        r == *s,
{
    ObjSymbol {
        name: s.name.clone(),
        demangled_name: clone_name(&s.demangled_name),
        address: s.address,
        section: s.section,
        size: s.size,
        size_known: s.size_known,
        flags: s.flags,
        kind: s.kind,
        align: s.align,
        data_kind: s.data_kind,
    }
}

/// The symbols sharing one nonempty name.
#[derive(Debug, Clone)]
struct NameEntry {
    name: String,
    indices: Vec<usize>,
}

/// Symbol `i` is listed under `name` in the name index.
spec fn named(idx: Seq<NameEntry>, name: Seq<char>, i: int) -> bool {
    exists|e: int, k: int|
        0 <= e < idx.len() && 0 <= k < idx[e].indices@.len() && idx[e].name@ == name
            && idx[e].indices@[k] == i
}

/// Symbol `i` is listed somewhere in the name index.
spec fn in_name_index(idx: Seq<NameEntry>, i: int) -> bool {
    exists|e: int, k: int| 0 <= e < idx.len() && 0 <= k < idx[e].indices@.len() && idx[e].indices@[k] == i
}

/// The name index is consistent with `syms`, except that symbol `skip` need not be listed.
spec fn names_wf_but(syms: Seq<ObjSymbol>, idx: Seq<NameEntry>, skip: int) -> bool {
    &&& forall|e: int| 0 <= e < idx.len() ==> (#[trigger] idx[e]).name@.len() > 0
    &&& forall|e1: int, e2: int|
        0 <= e1 < e2 < idx.len() ==> (#[trigger] idx[e1]).name@ != (#[trigger] idx[e2]).name@
    &&& forall|e: int, k: int|
        0 <= e < idx.len() && 0 <= k < idx[e].indices@.len() ==> (#[trigger] idx[e].indices@[k])
            < syms.len() && syms[idx[e].indices@[k] as int].name@ == idx[e].name@
    &&& forall|e: int, k1: int, k2: int|
        0 <= e < idx.len() && 0 <= k1 < k2 < idx[e].indices@.len() ==> (
        #[trigger] idx[e].indices@[k1]) != (#[trigger] idx[e].indices@[k2])
    &&& forall|i: int|
        0 <= i < syms.len() && i != skip && syms[i].name@.len() > 0 ==> #[trigger] named(
            idx,
            syms[i].name@,
            i,
        )
}

/// The name index lists every named symbol exactly once, under its name.
spec fn names_wf(syms: Seq<ObjSymbol>, idx: Seq<NameEntry>) -> bool {
    names_wf_but(syms, idx, -1)
}

/// The list of `s` with every occurrence of `x` taken out, order kept.
pub open spec fn drop_index(s: Seq<usize>, x: usize) -> Seq<usize>
    decreases s.len(),
{
    if s.len() == 0 {
        s
    } else if s.last() == x {
        drop_index(s.drop_last(), x)
    } else {
        drop_index(s.drop_last(), x).push(s.last())
    }
}

/// The indices the name index lists under `name`, in listing order.
spec fn list_of(idx: Seq<NameEntry>, name: Seq<char>) -> Seq<usize> {
    if exists|e: int| 0 <= e < idx.len() && idx[e].name@ == name {
        let e = choose|e: int| 0 <= e < idx.len() && idx[e].name@ == name;
        idx[e].indices@
    } else {
        Seq::empty()
    }
}

/// With distinct names, the list under an entry's name is that entry's list.
proof fn lemma_list_of(idx: Seq<NameEntry>, e: int)
    requires
        0 <= e < idx.len(),
        forall|e1: int, e2: int|
            0 <= e1 < e2 < idx.len() ==> (#[trigger] idx[e1]).name@ != (#[trigger] idx[e2]).name@,
    ensures
        list_of(idx, idx[e].name@) == idx[e].indices@,
{
    let f = choose|f: int| 0 <= f < idx.len() && idx[f].name@ == idx[e].name@;
    if f < e {
        assert(idx[f].name@ != idx[e].name@);
    } else if f > e {
        assert(idx[e].name@ != idx[f].name@);
    }
}

/// Lists under names that two indexes hold in the same entries agree.
proof fn lemma_list_of_frame(a: Seq<NameEntry>, b: Seq<NameEntry>, n: Seq<char>, skip: int)
    requires
        a.len() <= b.len(),
        0 <= skip < a.len(),
        forall|f: int| 0 <= f < a.len() && f != skip ==> a[f] == b[f],
        forall|f: int| a.len() <= f < b.len() ==> b[f].name@ != n,
        a[skip].name@ != n,
        b[skip].name@ != n,
        forall|e1: int, e2: int|
            0 <= e1 < e2 < a.len() ==> (#[trigger] a[e1]).name@ != (#[trigger] a[e2]).name@,
        forall|e1: int, e2: int|
            0 <= e1 < e2 < b.len() ==> (#[trigger] b[e1]).name@ != (#[trigger] b[e2]).name@,
    ensures
        list_of(b, n) == list_of(a, n),
{
    if exists|e: int| 0 <= e < a.len() && a[e].name@ == n {
        let e = choose|e: int| 0 <= e < a.len() && a[e].name@ == n;
        lemma_list_of(a, e);
        assert(b[e] == a[e]);
        lemma_list_of(b, e);
    } else {
        assert forall|e: int| 0 <= e < b.len() implies b[e].name@ != n by {
            if e < a.len() && e != skip {
                assert(a[e] == b[e]);
            }
        }
    }
}

/// The entry of the name index holding `name`.
fn find_name(idx: &Vec<NameEntry>, name: &str) -> (r: Option<usize>)
    ensures
        r matches Some(e) ==> e < idx@.len() && idx@[e as int].name@ == name@,
        r is None ==> forall|e: int| 0 <= e < idx@.len() ==> (#[trigger] idx@[e]).name@ != name@,
{
    let mut e: usize = 0;
    while e < idx.len()
        invariant
            0 <= e <= idx@.len(),
            forall|f: int| 0 <= f < e ==> (#[trigger] idx@[f]).name@ != name@,
        decreases idx@.len() - e,
    {
        if str_equals(idx[e].name.as_str(), name) {
            return Some(e);
        }
        e = e + 1;
    }
    None
}

/// A copy of a list of indices.
fn copy_indices(v: &Vec<usize>) -> (r: Vec<usize>)
    ensures
        r@ == v@,
{
    let mut r: Vec<usize> = Vec::new();
    let mut k: usize = 0;
    while k < v.len()
        invariant
            0 <= k <= v@.len(),
            r@ == v@.subrange(0, k as int),
        decreases v@.len() - k,
    {
        r.push(v[k]);
        k = k + 1;
    }
    assert(r@ == v@);
    r
}

/// The indices of a list without `x`, in their order.
fn without(v: &Vec<usize>, x: usize) -> (r: Vec<usize>)
    requires
        forall|k1: int, k2: int| 0 <= k1 < k2 < v@.len() ==> (#[trigger] v@[k1]) != (#[trigger] v@[k2]),
    ensures
        forall|k: int| 0 <= k < r@.len() ==> (#[trigger] r@[k]) != x && listed(v@, r@[k] as int),
        forall|k: int| 0 <= k < v@.len() && (#[trigger] v@[k]) != x ==> listed(r@, v@[k] as int),
        forall|k1: int, k2: int| 0 <= k1 < k2 < r@.len() ==> (#[trigger] r@[k1]) != (#[trigger] r@[k2]),
        r@ == drop_index(v@, x),
{
    let mut r: Vec<usize> = Vec::new();
    let mut k: usize = 0;
    while k < v.len()
        invariant
            0 <= k <= v@.len(),
            forall|k1: int, k2: int| 0 <= k1 < k2 < v@.len() ==> (#[trigger] v@[k1]) != (#[trigger] v@[k2]),
            forall|m: int| 0 <= m < r@.len() ==> (#[trigger] r@[m]) != x && exists|j: int| 0 <= j < k && v@[j] == r@[m],
            forall|j: int| 0 <= j < k && (#[trigger] v@[j]) != x ==> listed(r@, v@[j] as int),
            forall|k1: int, k2: int| 0 <= k1 < k2 < r@.len() ==> (#[trigger] r@[k1]) != (#[trigger] r@[k2]),
            r@ == drop_index(v@.subrange(0, k as int), x),
        decreases v@.len() - k,
    {
        let y = v[k];
        assert(v@.subrange(0, k + 1).drop_last() == v@.subrange(0, k as int));
        if y != x {
            let ghost prev = r@;
            proof {
                assert forall|m: int| 0 <= m < prev.len() implies prev[m] != y by {
                    let j = choose|j: int| 0 <= j < k && v@[j] == prev[m];
                }
            }
            r.push(y);
            proof {
                assert(r@[prev.len() as int] == y);
                assert forall|m: int| 0 <= m < r@.len() implies (#[trigger] r@[m]) != x && exists|j: int|
                    0 <= j < k + 1 && v@[j] == r@[m] by {
                    if m < prev.len() {
                        let j = choose|j: int| 0 <= j < k && v@[j] == prev[m];
                        assert(v@[j] == r@[m]);
                    } else {
                        assert(v@[k as int] == r@[m]);
                    }
                }
                assert forall|j: int| 0 <= j < k + 1 && (#[trigger] v@[j]) != x implies listed(r@, v@[j] as int) by {
                    if j < k {
                        let m = choose|m: int| 0 <= m < prev.len() && prev[m] == v@[j];
                        assert(r@[m] == v@[j]);
                    }
                }
            }
        }
        k = k + 1;
    }
    proof {
        assert forall|m: int| 0 <= m < r@.len() implies (#[trigger] r@[m]) != x && listed(v@, r@[m] as int) by {
            let j = choose|j: int| 0 <= j < k && v@[j] == r@[m];
        }
        assert(v@.subrange(0, k as int) == v@);
    }
    r
}

/// Lists symbol `i` under its name.
fn name_insert(idx: &mut Vec<NameEntry>, syms: &Vec<ObjSymbol>, i: usize)
    requires
        i < syms@.len(),
        names_wf_but(syms@, old(idx)@, i as int),
        !in_name_index(old(idx)@, i as int),
    ensures
        names_wf(syms@, final(idx)@),
        forall|n: Seq<char>|
            #[trigger] list_of(final(idx)@, n) == if n == syms@[i as int].name@ && n.len() > 0 {
                list_of(old(idx)@, n).push(i)
            } else {
                list_of(old(idx)@, n)
            },
{
    let ghost prev = idx@;
    let name = &syms[i].name;
    if name.as_str().unicode_len() == 0 {
        return;
    }
    match find_name(idx, name.as_str()) {
        Some(e) => {
            let mut indices = copy_indices(&idx[e].indices);
            indices.push(i);
            let entry = NameEntry { name: idx[e].name.clone(), indices };
            idx.set(e, entry);
            proof {
                let cur = idx@;
                assert forall|f: int| 0 <= f < cur.len() && f != e implies cur[f] == prev[f] by {}
                assert forall|f: int, k1: int, k2: int|
                    0 <= f < cur.len() && 0 <= k1 < k2 < cur[f].indices@.len() implies (
                    #[trigger] cur[f].indices@[k1]) != (#[trigger] cur[f].indices@[k2]) by {
                    if f == e && k2 == cur[f].indices@.len() - 1 {
                        if cur[f].indices@[k1] == i {
                            assert(prev[e as int].indices@[k1] == i);
                            assert(in_name_index(prev, i as int));
                        }
                    } else if f == e {
                        assert(prev[f].indices@[k1] != prev[f].indices@[k2]);
                    }
                }
                assert forall|j: int|
                    0 <= j < syms@.len() && j != -1 && syms@[j].name@.len() > 0 implies #[trigger] named(
                        cur,
                        syms@[j].name@,
                        j,
                    ) by {
                    if j == i {
                        assert(cur[e as int].indices@[cur[e as int].indices@.len() - 1] == i);
                    } else {
                        assert(named(prev, syms@[j].name@, j));
                        let (f, k) = choose|f: int, k: int|
                            0 <= f < prev.len() && 0 <= k < prev[f].indices@.len() && prev[f].name@
                                == syms@[j].name@ && prev[f].indices@[k] == j;
                        if f == e {
                            assert(cur[f].indices@[k] == j);
                        } else {
                            assert(cur[f] == prev[f]);
                        }
                    }
                }
                assert forall|n: Seq<char>|
                    #[trigger] list_of(cur, n) == if n == syms@[i as int].name@ && n.len() > 0 {
                        list_of(prev, n).push(i)
                    } else {
                        list_of(prev, n)
                    } by {
                    if n == syms@[i as int].name@ {
                        lemma_list_of(prev, e as int);
                        lemma_list_of(cur, e as int);
                        assert(cur[e as int].indices@ == prev[e as int].indices@.push(i));
                    } else {
                        lemma_list_of_frame(prev, cur, n, e as int);
                    }
                }
            }
        },
        None => {
            let mut indices: Vec<usize> = Vec::new();
            indices.push(i);
            idx.push(NameEntry { name: name.clone(), indices });
            proof {
                let cur = idx@;
                let e = prev.len() as int;
                assert forall|f: int| 0 <= f < prev.len() implies cur[f] == prev[f] by {}
                assert forall|j: int|
                    0 <= j < syms@.len() && j != -1 && syms@[j].name@.len() > 0 implies #[trigger] named(
                        cur,
                        syms@[j].name@,
                        j,
                    ) by {
                    if j == i {
                        assert(cur[e].indices@[0] == i);
                    } else {
                        assert(named(prev, syms@[j].name@, j));
                        let (f, k) = choose|f: int, k: int|
                            0 <= f < prev.len() && 0 <= k < prev[f].indices@.len() && prev[f].name@
                                == syms@[j].name@ && prev[f].indices@[k] == j;
                        assert(cur[f] == prev[f]);
                    }
                }
                assert forall|n: Seq<char>|
                    #[trigger] list_of(cur, n) == if n == syms@[i as int].name@ && n.len() > 0 {
                        list_of(prev, n).push(i)
                    } else {
                        list_of(prev, n)
                    } by {
                    if n == syms@[i as int].name@ {
                        lemma_list_of(cur, e);
                        assert(cur[e].indices@ == seq![i]);
                        assert(seq![i] == Seq::<usize>::empty().push(i));
                    } else if exists|f: int| 0 <= f < prev.len() && prev[f].name@ == n {
                        let f = choose|f: int| 0 <= f < prev.len() && prev[f].name@ == n;
                        lemma_list_of(prev, f);
                        lemma_list_of(cur, f);
                    } else {
                        assert forall|f: int| 0 <= f < cur.len() implies cur[f].name@ != n by {
                            if f < prev.len() {
                                assert(cur[f] == prev[f]);
                            }
                        }
                    }
                }
            }
        },
    }
}

/// Takes symbol `i` out of the name index.
fn name_remove(idx: &mut Vec<NameEntry>, syms: &Vec<ObjSymbol>, i: usize)
    requires
        i < syms@.len(),
        names_wf(syms@, old(idx)@),
    ensures
        names_wf_but(syms@, final(idx)@, i as int),
        !in_name_index(final(idx)@, i as int),
        forall|n: Seq<char>|
            #[trigger] list_of(final(idx)@, n) == if n == syms@[i as int].name@ {
                drop_index(list_of(old(idx)@, n), i)
            } else {
                list_of(old(idx)@, n)
            },
{
    let ghost prev = idx@;
    let name = &syms[i].name;
    match find_name(idx, name.as_str()) {
        Some(e) => {
            let indices = without(&idx[e].indices, i);
            let entry = NameEntry { name: idx[e].name.clone(), indices };
            idx.set(e, entry);
            proof {
                let cur = idx@;
                assert forall|f: int| 0 <= f < cur.len() && f != e implies cur[f] == prev[f] by {}
                assert forall|f: int, k: int|
                    0 <= f < cur.len() && 0 <= k < cur[f].indices@.len() implies (
                    #[trigger] cur[f].indices@[k]) < syms@.len() && syms@[cur[f].indices@[k] as int].name@
                        == cur[f].name@ by {
                    if f == e {
                        let x = cur[f].indices@[k];
                        assert(listed(prev[f].indices@, x as int));
                        let kk = choose|kk: int| 0 <= kk < prev[f].indices@.len() && prev[f].indices@[kk] == x;
                        assert(prev[f].indices@[kk] == x);
                    }
                }
                assert forall|j: int|
                    0 <= j < syms@.len() && j != i && syms@[j].name@.len() > 0 implies #[trigger] named(
                        cur,
                        syms@[j].name@,
                        j,
                    ) by {
                    assert(named(prev, syms@[j].name@, j));
                    let (f, k) = choose|f: int, k: int|
                        0 <= f < prev.len() && 0 <= k < prev[f].indices@.len() && prev[f].name@
                            == syms@[j].name@ && prev[f].indices@[k] == j;
                    if f == e {
                        assert(prev[f].indices@[k] != i);
                        assert(listed(cur[f].indices@, j));
                        let m = choose|m: int| 0 <= m < cur[f].indices@.len() && cur[f].indices@[m] == j;
                        assert(cur[f].indices@[m] == j);
                    } else {
                        assert(cur[f] == prev[f]);
                    }
                }
                if in_name_index(cur, i as int) {
                    let (f, k) = choose|f: int, k: int|
                        0 <= f < cur.len() && 0 <= k < cur[f].indices@.len() && cur[f].indices@[k] == i;
                    if f != e {
                        assert(prev[f].indices@[k] == i);
                        assert(prev[f].name@ == syms@[i as int].name@);
                        if f < e {
                            assert(prev[f].name@ != prev[e as int].name@);
                        } else {
                            assert(prev[e as int].name@ != prev[f].name@);
                        }
                    }
                }
                assert forall|n: Seq<char>|
                    #[trigger] list_of(cur, n) == if n == syms@[i as int].name@ {
                        drop_index(list_of(prev, n), i)
                    } else {
                        list_of(prev, n)
                    } by {
                    if n == syms@[i as int].name@ {
                        lemma_list_of(prev, e as int);
                        lemma_list_of(cur, e as int);
                    } else {
                        lemma_list_of_frame(prev, cur, n, e as int);
                    }
                }
            }
        },
        None => {
            proof {
                assert(list_of(prev, syms@[i as int].name@) == Seq::<usize>::empty());
                assert(drop_index(Seq::<usize>::empty(), i) == Seq::<usize>::empty());
                if in_name_index(prev, i as int) {
                    let (f, k) = choose|f: int, k: int|
                        0 <= f < prev.len() && 0 <= k < prev[f].indices@.len() && prev[f].indices@[k] == i;
                    assert(prev[f].indices@[k] == i);
                    assert(prev[f].name@ == syms@[i as int].name@);
                }
            }
        },
    }
}

/// Symbols in an append-only arena, indexed by address and by name.
#[derive(Debug, Clone)]
pub struct ObjSymbols {
    symbols: Vec<ObjSymbol>,
    /// Every index of `symbols`, in address order, insertion order breaking ties.
    by_address: Vec<usize>,
    /// The indices of the symbols of each nonempty name.
    by_name: Vec<NameEntry>,
    /// Size conflicts observed while adding symbols, oldest first.
    conflicts: Vec<SizeConflict>,
}

/// Inserts index `m` into an address-ordered list of the indices below it.
fn insert_ordered(order: &mut Vec<usize>, syms: &Vec<ObjSymbol>, m: usize)
    requires
        m < syms@.len(),
        old(order)@.len() == m,
        ordered_below(syms@, old(order)@, m as int),
    ensures
        final(order)@.len() == m + 1,
        ordered_below(syms@, final(order)@, m + 1),
{
    let key = to_key(syms[m].address);
    let mut p: usize = 0;
    while p < order.len() && to_key(syms[order[p]].address) <= key
        invariant
            m < syms@.len(),
            order@.len() == m,
            ordered_below(syms@, order@, m as int),
            0 <= p <= order@.len(),
            forall|k: int| 0 <= k < p ==> sym_key(syms@[#[trigger] order@[k] as int]) <= key,
        decreases order@.len() - p,
    {
        p = p + 1;
    }
    proof {
        assert forall|l: int| p <= l < order@.len() implies sym_key(
            syms@[#[trigger] order@[l] as int],
        ) > key by {
            if l > p {
                assert(precedes(syms@, order@[p as int] as int, order@[l] as int));
            }
        }
    }
    let ghost prev = order@;
    order.insert(p, m);
    proof {
        let o = order@;
        assert(o == prev.insert(p as int, m));
        assert forall|k: int| 0 <= k < o.len() implies #[trigger] o[k] < m + 1 by {
            if k < p {
                assert(o[k] == prev[k]);
            } else if k > p {
                assert(o[k] == prev[k - 1]);
            }
        }
        assert forall|k: int, l: int| 0 <= k < l < o.len() implies precedes(
            syms@,
            #[trigger] o[k] as int,
            #[trigger] o[l] as int,
        ) by {
            if k < p && l < p {
                assert(o[k] == prev[k] && o[l] == prev[l]);
            } else if k < p && l == p {
                assert(o[k] == prev[k]);
            } else if k < p {
                assert(o[k] == prev[k] && o[l] == prev[l - 1]);
                assert(precedes(syms@, prev[k] as int, prev[l - 1] as int));
            } else if k == p {
                assert(o[l] == prev[l - 1]);
            } else {
                assert(o[k] == prev[k - 1] && o[l] == prev[l - 1]);
                assert(precedes(syms@, prev[k - 1] as int, prev[l - 1] as int));
            }
        }
        assert forall|i: int| 0 <= i < m + 1 implies #[trigger] listed(o, i) by {
            if i == m {
                assert(o[p as int] == i);
            } else {
                assert(listed(prev, i));
                let k = choose|k: int| 0 <= k < prev.len() && prev[k] == i;
                if k < p {
                    assert(o[k] == i);
                } else {
                    assert(o[k + 1] == i);
                }
            }
        }
    }
}

/// A candidate found from `i` on lies in the table, at or after `i`.
proof fn lemma_first_candidate_bounds(syms: Seq<ObjSymbol>, incoming: ObjSymbol, i: int)
    requires
        0 <= i,
    ensures
        first_candidate(syms, incoming, i) matches Some(j) ==> i <= j < syms.len() && merge_candidate(syms[j], incoming),
    decreases syms.len() - i,
{
    if i < syms.len() && !merge_candidate(syms[i], incoming) {
        lemma_first_candidate_bounds(syms, incoming, i + 1);
    }
}

/// How strongly a symbol is preferred as the target of a relocation of kind `rk`
/// among symbols sharing its address.
pub open spec fn reloc_score(s: ObjSymbol, rk: ObjRelocKind) -> int {
    let base: int = match s.kind {
        ObjSymbolKind::Function | ObjSymbolKind::Object => if rk.is_half_spec() {
            1
        } else {
            2
        },
        ObjSymbolKind::Unknown => if rk.is_half_spec() && !starts_with(s.name@, ".."@) {
            3
        } else {
            1
        },
        ObjSymbolKind::Section => -1,
    };
    if s.size_known && s.size > 0 {
        base + 1
    } else {
        base
    }
}

/// Some symbol sits at the 32-bit address `a`.
pub open spec fn occupied(syms: Seq<ObjSymbol>, a: int) -> bool {
    exists|i: int| 0 <= i < syms.len() && sym_key(syms[i]) == a
}

/// Symbol `b` is the one picked among those at address `a`: the highest score,
/// the earliest inserted among equals.
pub open spec fn best_at(syms: Seq<ObjSymbol>, a: int, rk: ObjRelocKind, b: int) -> bool {
    &&& 0 <= b < syms.len()
    &&& sym_key(syms[b]) == a
    &&& forall|j: int|
        0 <= j < syms.len() && sym_key(#[trigger] syms[j]) == a ==> reloc_score(syms[j], rk)
            < reloc_score(syms[b], rk) || (reloc_score(syms[j], rk) == reloc_score(syms[b], rk)
            && b <= j)
}

/// The symbol a relocation of kind `rk` to `target` resolves to, scanning the
/// addresses from `a` downwards.
pub open spec fn resolve_from(syms: Seq<ObjSymbol>, target: u32, rk: ObjRelocKind, a: int) -> Option<
    int,
>
    decreases a + 1,
{
    if a < 0 {
        None
    } else if !occupied(syms, a) {
        resolve_from(syms, target, rk, a - 1)
    } else {
        let b = choose|b: int| best_at(syms, a, rk, b);
        if syms[b].address == target {
            Some(b)
        } else if syms[b].size_known && syms[b].size > 0 {
            if syms[b].address + syms[b].size > target {
                Some(b)
            } else {
                None
            }
        } else {
            resolve_from(syms, target, rk, a - 1)
        }
    }
}

/// The symbol a relocation of kind `rk` to `target` resolves to.
pub open spec fn resolve(syms: Seq<ObjSymbol>, target: u32, rk: ObjRelocKind) -> Option<int> {
    resolve_from(syms, target, rk, target as int)
}

/// At most one symbol is picked at an address.
proof fn lemma_best_unique(syms: Seq<ObjSymbol>, a: int, rk: ObjRelocKind, b: int, c: int)
    requires
        best_at(syms, a, rk, b),
        best_at(syms, a, rk, c),
    ensures
        b == c,
{
    assert(sym_key(syms[c]) == a);
    assert(sym_key(syms[b]) == a);
}

/// Addresses holding no symbol are passed over.
proof fn lemma_resolve_skip(syms: Seq<ObjSymbol>, target: u32, rk: ObjRelocKind, lo: int, hi: int)
    requires
        -1 <= lo <= hi,
        forall|i: int| 0 <= i < syms.len() ==> !(lo < #[trigger] sym_key(syms[i]) <= hi),
    ensures
        resolve_from(syms, target, rk, hi) == resolve_from(syms, target, rk, lo),
    decreases hi - lo,
{
    if lo < hi {
        assert(!occupied(syms, hi));
        lemma_resolve_skip(syms, target, rk, lo, hi - 1);
    }
}

/// The score of a symbol as a relocation target.
fn score(s: &ObjSymbol, rk: ObjRelocKind) -> (r: i8)
    ensures
        r == reloc_score(*s, rk),
{
    proof {
        reveal_strlit("..");
    }
    let half = rk.is_half();
    let base: i8 = match s.kind {
        ObjSymbolKind::Function | ObjSymbolKind::Object => if half {
            1
        } else {
            2
        },
        ObjSymbolKind::Unknown => if half && !has_prefix(s.name.as_str(), "..") {
            3
        } else {
            1
        },
        ObjSymbolKind::Section => -1,
    };
    if s.size_known && s.size > 0 {
        base + 1
    } else {
        base
    }
}

/// Symbol `s` has a section, its address lies in `[start, end)`, and it belongs to
/// section `only` when one is given. The address compared is the full one when `full`
/// holds, the 32-bit one otherwise.
pub open spec fn in_window(s: ObjSymbol, start: u64, end: u64, full: bool, only: Option<usize>) -> bool {
    &&& start <= (if full {
        s.address as int
    } else {
        sym_key(s) as int
    }) < end
    &&& s.section is Some
    &&& (only matches Some(x) ==> s.section == Some(x))
}

/// Symbol `s` carries the nonempty name `name`.
pub open spec fn named_as(s: ObjSymbol, name: Seq<char>) -> bool {
    name.len() > 0 && s.name@ == name
}

/// Symbol `s` sits at the 32-bit address `addr` and has kind `kind`.
pub open spec fn kind_at(s: ObjSymbol, addr: u32, kind: ObjSymbolKind) -> bool {
    sym_key(s) == addr && s.kind == kind
}

/// Whether `incoming` merges into `existing`.
fn is_candidate(existing: &ObjSymbol, incoming: &ObjSymbol) -> (r: bool)
    ensures
        r == merge_candidate(*existing, *incoming),
{
    proof {
        reveal_strlit("lbl_");
    }
    to_key(existing.address) == to_key(incoming.address) && (existing.kind == incoming.kind || (
    existing.kind == ObjSymbolKind::Unknown && has_prefix(existing.name.as_str(), "lbl_"))) && (
    existing.section.is_some() || existing.name == incoming.name)
}

impl ObjSymbols {
    /// The symbols, by index.
    pub closed spec fn view(&self) -> Seq<ObjSymbol> {
        self.symbols@
    }

    /// The size conflicts recorded so far.
    pub closed spec fn conflicts_view(&self) -> Seq<SizeConflict> {
        self.conflicts@
    }

    /// The indices listed under `name`, in the order they were listed: insertion order,
    /// with a renamed symbol listed last under its new name.
    pub closed spec fn name_list(&self, name: Seq<char>) -> Seq<usize> {
        list_of(self.by_name@, name)
    }

    /// The address index lists every symbol exactly once, in address order, and the
    /// name index lists every named symbol exactly once, under its name.
    pub closed spec fn wf(&self) -> bool {
        &&& self.by_address@.len() == self.symbols@.len()
        &&& ordered_below(self.symbols@, self.by_address@, self.symbols@.len() as int)
        &&& names_wf(self.symbols@, self.by_name@)
        &&& forall|k: int|
            0 <= k < self.conflicts@.len() ==> (#[trigger] self.conflicts@[k]).index < self.symbols@.len()
    }

    /// Builds a table holding `symbols` at their positions.
    pub fn new(symbols: Vec<ObjSymbol>) -> (r: Self)
        ensures
            r.wf(),
            r@ == symbols@,
            r.conflicts_view() == Seq::<SizeConflict>::empty(),
            forall|n: Seq<char>, k: int, l: int|
                0 <= k < l < r.name_list(n).len() ==> #[trigger] r.name_list(n)[k] < #[trigger] r.name_list(n)[l],
    {
        let mut table = ObjSymbols {
            symbols: Vec::new(),
            by_address: Vec::new(),
            by_name: Vec::new(),
            conflicts: Vec::new(),
        };
        let mut m: usize = 0;
        while m < symbols.len()
            invariant
                0 <= m <= symbols@.len(),
                table.wf(),
                table@ == symbols@.subrange(0, m as int),
                table.conflicts_view() == Seq::<SizeConflict>::empty(),
                forall|n: Seq<char>, k: int, l: int|
                    0 <= k < l < table.name_list(n).len() ==> #[trigger] table.name_list(n)[k]
                        < #[trigger] table.name_list(n)[l],
            decreases symbols@.len() - m,
        {
            let ghost before = table;
            proof {
                assert forall|n: Seq<char>, k: int| 0 <= k < before.name_list(n).len() implies #[trigger] before.name_list(n)[k] < m by {
                    let idx = before.by_name@;
                    let e = choose|e: int| 0 <= e < idx.len() && idx[e].name@ == n;
                    assert(idx[e].indices@[k] < before.symbols@.len());
                }
            }
            let _ = table.add_direct(clone_symbol(&symbols[m]));
            proof {
                assert forall|n: Seq<char>, k: int, l: int|
                    0 <= k < l < table.name_list(n).len() implies #[trigger] table.name_list(n)[k]
                        < #[trigger] table.name_list(n)[l] by {
                    if l == before.name_list(n).len() {
                        assert(before.name_list(n)[k] < m);
                    }
                }
            }
            assert(symbols@.subrange(0, m + 1) == symbols@.subrange(0, m as int).push(symbols@[m as int]));
            m = m + 1;
        }
        assert(symbols@.subrange(0, m as int) == symbols@);
        table
    }

    /// Appends a symbol without looking for one to merge with.
    pub fn add_direct(&mut self, in_symbol: ObjSymbol) -> (r: Result<usize, ObjError>)
        requires
            old(self).wf(),
        ensures
            final(self).wf(),
            r == Ok::<usize, ObjError>(old(self)@.len() as usize),
            final(self)@ == old(self)@.push(in_symbol),
            final(self).conflicts_view() == old(self).conflicts_view(),
            forall|n: Seq<char>|
                #[trigger] final(self).name_list(n) == if n == in_symbol.name@ && n.len() > 0 {
                    old(self).name_list(n).push(old(self)@.len() as usize)
                } else {
                    old(self).name_list(n)
                },
    {
        let symbol_idx = self.symbols.len();
        let ghost prev = self.symbols@;
        self.symbols.push(in_symbol);
        proof {
            let s = self.symbols@;
            let o = self.by_address@;
            assert forall|k: int, l: int| 0 <= k < l < o.len() implies precedes(
                s,
                #[trigger] o[k] as int,
                #[trigger] o[l] as int,
            ) by {
                assert(precedes(prev, o[k] as int, o[l] as int));
            }
            let idx = self.by_name@;
            assert forall|e: int, k: int|
                0 <= e < idx.len() && 0 <= k < idx[e].indices@.len() implies (#[trigger] idx[e].indices@[k])
                    < s.len() && s[idx[e].indices@[k] as int].name@ == idx[e].name@ by {
                assert(idx[e].indices@[k] < prev.len());
            }
            assert forall|i: int|
                0 <= i < s.len() && i != symbol_idx && s[i].name@.len() > 0 implies #[trigger] named(
                    idx,
                    s[i].name@,
                    i,
                ) by {
                assert(s[i] == prev[i]);
            }
            if in_name_index(idx, symbol_idx as int) {
                let (e, k) = choose|e: int, k: int|
                    0 <= e < idx.len() && 0 <= k < idx[e].indices@.len() && idx[e].indices@[k] == symbol_idx;
                assert(idx[e].indices@[k] < prev.len());
            }
        }
        insert_ordered(&mut self.by_address, &self.symbols, symbol_idx);
        name_insert(&mut self.by_name, &self.symbols, symbol_idx);
        Ok(symbol_idx)
    }

    /// Overwrites symbol `index`; fails if that would change its address.
    pub fn replace(&mut self, index: usize, symbol: ObjSymbol) -> (r: Result<(), ObjError>)
        requires
            old(self).wf(),
            index < old(self)@.len(),
        ensures
            final(self).wf(),
            final(self).conflicts_view() == old(self).conflicts_view(),
            old(self)@[index as int].address == symbol.address ==> r is Ok && final(self)@ == old(
                self,
            )@.update(index as int, symbol),
            old(self)@[index as int].address != symbol.address ==> r == Err::<(), ObjError>(
                ObjError::AddressChanged { index },
            ) && final(self)@ == old(self)@,
            r is Err || old(self)@[index as int].name@ == symbol.name@ ==> forall|n: Seq<char>|
                #[trigger] final(self).name_list(n) == old(self).name_list(n),
            r is Ok && old(self)@[index as int].name@ != symbol.name@ ==> forall|n: Seq<char>|
                #[trigger] final(self).name_list(n) == {
                    let kept = if n == old(self)@[index as int].name@ {
                        drop_index(old(self).name_list(n), index)
                    } else {
                        old(self).name_list(n)
                    };
                    if n == symbol.name@ && n.len() > 0 {
                        kept.push(index)
                    } else {
                        kept
                    }
                },
    {
        if self.symbols[index].address != symbol.address {
            return Err(ObjError::AddressChanged { index });
        }
        let same_name = self.symbols[index].name == symbol.name;
        if !same_name {
            name_remove(&mut self.by_name, &self.symbols, index);
        }
        let ghost prev = self.symbols@;
        self.symbols.set(index, symbol);
        proof {
            let s = self.symbols@;
            let o = self.by_address@;
            let idx = self.by_name@;
            assert forall|i: int| 0 <= i < s.len() implies sym_key(s[i]) == sym_key(prev[i]) by {}
            assert forall|k: int, l: int| 0 <= k < l < o.len() implies precedes(
                s,
                #[trigger] o[k] as int,
                #[trigger] o[l] as int,
            ) by {
                assert(precedes(prev, o[k] as int, o[l] as int));
            }
            if same_name {
                assert forall|e: int, k: int|
                    0 <= e < idx.len() && 0 <= k < idx[e].indices@.len() implies (#[trigger] idx[e].indices@[k])
                        < s.len() && s[idx[e].indices@[k] as int].name@ == idx[e].name@ by {
                    assert(prev[idx[e].indices@[k] as int].name@ == idx[e].name@);
                }
                assert forall|i: int|
                    0 <= i < s.len() && i != -1 && s[i].name@.len() > 0 implies #[trigger] named(
                        idx,
                        s[i].name@,
                        i,
                    ) by {
                    assert(named(idx, prev[i].name@, i));
                }
            } else {
                assert forall|e: int, k: int|
                    0 <= e < idx.len() && 0 <= k < idx[e].indices@.len() implies (#[trigger] idx[e].indices@[k])
                        < s.len() && s[idx[e].indices@[k] as int].name@ == idx[e].name@ by {
                    if idx[e].indices@[k] == index {
                        assert(in_name_index(idx, index as int));
                    }
                }
                assert forall|i: int|
                    0 <= i < s.len() && i != index && s[i].name@.len() > 0 implies #[trigger] named(
                        idx,
                        s[i].name@,
                        i,
                    ) by {
                    assert(named(idx, prev[i].name@, i));
                }
            }
        }
        if !same_name {
            name_insert(&mut self.by_name, &self.symbols, index);
        }
        Ok(())
    }

    /// The first symbol that `incoming` merges into, looked up among the symbols at
    /// its address.
    fn find_candidate(&self, incoming: &ObjSymbol) -> (r: Option<usize>)
        requires
            self.wf(),
        ensures
            r matches Some(i) ==> first_candidate(self@, *incoming, 0) == Some(i as int),
            r is None ==> first_candidate(self@, *incoming, 0) is None,
    {
        let ghost syms = self@;
        let addr = to_key(incoming.address);
        let bucket = self.at_address(addr);
        let mut m: usize = 0;
        while m < bucket.len()
            invariant
                syms == self@,
                addr == sym_key(*incoming),
                index_selection(syms.len() as int, bucket@, |i: int| sym_key(syms[i]) == addr),
                0 <= m <= bucket@.len(),
                forall|k: int| 0 <= k < m ==> !merge_candidate(syms[#[trigger] bucket@[k] as int], *incoming),
            decreases bucket@.len() - m,
        {
            let j = bucket[m];
            if is_candidate(&self.symbols[j], incoming) {
                proof {
                    assert forall|x: int| 0 <= x < j implies !merge_candidate(#[trigger] syms[x], *incoming) by {
                        if merge_candidate(syms[x], *incoming) {
                            assert(listed(bucket@, x));
                            let k = choose|k: int| 0 <= k < bucket@.len() && bucket@[k] == x;
                            if k >= m {
                                if k > m {
                                    assert(bucket@[m as int] < bucket@[k]);
                                }
                            }
                        }
                    }
                    lemma_first_candidate_is(syms, *incoming, 0, j as int);
                }
                return Some(j);
            }
            m = m + 1;
        }
        proof {
            assert forall|x: int| 0 <= x < syms.len() implies !merge_candidate(#[trigger] syms[x], *incoming) by {
                if merge_candidate(syms[x], *incoming) {
                    assert(listed(bucket@, x));
                    let k = choose|k: int| 0 <= k < bucket@.len() && bucket@[k] == x;
                }
            }
            lemma_first_candidate_absent(syms, *incoming, 0);
        }
        None
    }

    /// Adds a symbol, merging it into an existing one at the same address where one
    /// qualifies; returns the symbol's index.
    ///
    /// Without `replace` the existing symbol is kept, and only learns the incoming size
    /// if it had none. With `replace` the incoming fields win, except that alignment and
    /// data kind are kept where the incoming symbol leaves them open. Differing known
    /// sizes are recorded as a size conflict either way.
    pub fn add(&mut self, in_symbol: ObjSymbol, replace: bool) -> (r: Result<usize, ObjError>)
        requires
            old(self).wf(),
        ensures
            final(self).wf(),
            (r, final(self)@) == add_outcome(old(self)@, in_symbol, replace),
            final(self).conflicts_view() == old(self).conflicts_view() + add_conflicts(
                old(self)@,
                in_symbol,
            ),
    {
        match self.find_candidate(&in_symbol) {
            Some(idx) => {
                proof {
                    lemma_first_candidate_bounds(self@, in_symbol, 0);
                }
                let existing = clone_symbol(&self.symbols[idx]);
                if existing.size_known && in_symbol.size_known && existing.size != in_symbol.size {
                    self.conflicts.push(
                        SizeConflict { index: idx, previous: existing.size, incoming: in_symbol.size },
                    );
                }
                if !replace {
                    if in_symbol.size_known && !existing.size_known {
                        let updated = ObjSymbol { size: in_symbol.size, size_known: true, ..existing };
                        let _ = self.replace(idx, updated);
                    }
                    return Ok(idx);
                }
                let size = if in_symbol.size_known {
                    in_symbol.size
                } else {
                    existing.size
                };
                let align = match in_symbol.align {
                    Some(a) => Some(a),
                    None => existing.align,
                };
                let data_kind = match in_symbol.data_kind {
                    ObjDataKind::Unknown => existing.data_kind,
                    kind => kind,
                };
                let new_symbol = ObjSymbol {
                    size,
                    size_known: existing.size_known || in_symbol.size != 0,
                    align,
                    data_kind,
                    ..in_symbol
                };
                match self.replace(idx, new_symbol) {
                    Ok(()) => Ok(idx),
                    Err(e) => Err(e),
                }
            },
            None => {
                let size_known = in_symbol.size != 0;
                self.add_direct(ObjSymbol { size_known, ..in_symbol })
            },
        }
    }

    /// The symbol at `symbol_idx`.
    pub fn at(&self, symbol_idx: usize) -> (r: &ObjSymbol)
        requires
            symbol_idx < self@.len(),
        ensures
            *r == self@[symbol_idx as int],
    {
        &self.symbols[symbol_idx]
    }

    /// The address of the symbol at `symbol_idx`.
    pub fn address_of(&self, symbol_idx: usize) -> (r: u64)
        requires
            symbol_idx < self@.len(),
        ensures
            r == self@[symbol_idx as int].address,
    {
        self.symbols[symbol_idx].address
    }

    /// All symbols, by index.
    pub fn iter(&self) -> (r: &[ObjSymbol])
        ensures
            r@ == self@,
    {
        self.symbols.as_slice()
    }

    /// The number of symbols.
    pub fn count(&self) -> (r: usize)
        ensures
            r == self@.len(),
    {
        self.symbols.len()
    }

    /// The size conflicts recorded so far, oldest first.
    pub fn size_conflicts(&self) -> (r: &[SizeConflict])
        requires
            self.wf(),
        ensures
            r@ == self.conflicts_view(),
            forall|k: int| 0 <= k < r@.len() ==> (#[trigger] r@[k]).index < self@.len(),
    {
        self.conflicts.as_slice()
    }

    /// Hands out the recorded size conflicts and forgets them.
    pub fn take_size_conflicts(&mut self) -> (r: Vec<SizeConflict>)
        requires
            old(self).wf(),
        ensures
            final(self).wf(),
            r@ == old(self).conflicts_view(),
            forall|k: int| 0 <= k < r@.len() ==> (#[trigger] r@[k]).index < old(self)@.len(),
            final(self).conflicts_view() == Seq::<SizeConflict>::empty(),
            final(self)@ == old(self)@,
    {
        let mut taken: Vec<SizeConflict> = Vec::new();
        std::mem::swap(&mut self.conflicts, &mut taken);
        taken
    }

    /// The first position of the address index whose symbol sits at or above `addr`.
    fn lower_bound(&self, addr: u32) -> (p: usize)
        requires
            self.wf(),
        ensures
            p <= self.by_address@.len(),
            forall|q: int| 0 <= q < p ==> sym_key(self@[#[trigger] self.by_address@[q] as int]) < addr,
            forall|q: int|
                p <= q < self.by_address@.len() ==> sym_key(self@[#[trigger] self.by_address@[q] as int]) >= addr,
    {
        let ghost syms = self@;
        let ghost order = self.by_address@;
        let mut lo: usize = 0;
        let mut hi: usize = self.by_address.len();
        while lo < hi
            invariant
                self.wf(),
                syms == self@,
                order == self.by_address@,
                0 <= lo <= hi <= order.len(),
                forall|q: int| 0 <= q < lo ==> sym_key(syms[#[trigger] order[q] as int]) < addr,
                forall|q: int| hi <= q < order.len() ==> sym_key(syms[#[trigger] order[q] as int]) >= addr,
            decreases hi - lo,
        {
            let mid = lo + (hi - lo) / 2;
            if self.key_at(mid) < addr {
                proof {
                    assert forall|q: int| 0 <= q < mid + 1 implies sym_key(syms[#[trigger] order[q] as int]) < addr by {
                        if q < mid {
                            assert(precedes(syms, order[q] as int, order[mid as int] as int));
                        }
                    }
                }
                lo = mid + 1;
            } else {
                proof {
                    assert forall|q: int| mid <= q < order.len() implies sym_key(syms[#[trigger] order[q] as int]) >= addr by {
                        if q > mid {
                            assert(precedes(syms, order[mid as int] as int, order[q] as int));
                        }
                    }
                }
                hi = mid;
            }
        }
        lo
    }

    /// The indices of the symbols at `addr`, in insertion order.
    pub fn at_address(&self, addr: u32) -> (r: Vec<usize>)
        requires
            self.wf(),
        ensures
            index_selection(self@.len() as int, r@, |i: int| sym_key(self@[i]) == addr),
    {
        let ghost syms = self@;
        let ghost order = self.by_address@;
        let p = self.lower_bound(addr);
        let mut r: Vec<usize> = Vec::new();
        let mut q: usize = p;
        while q < self.by_address.len() && self.key_at(q) == addr
            invariant
                self.wf(),
                syms == self@,
                order == self.by_address@,
                0 <= p <= q <= order.len(),
                forall|m: int| 0 <= m < p ==> sym_key(syms[#[trigger] order[m] as int]) < addr,
                forall|m: int| p <= m < q ==> sym_key(syms[#[trigger] order[m] as int]) == addr,
                r@ == order.subrange(p as int, q as int),
            decreases order.len() - q,
        {
            r.push(self.by_address[q]);
            q = q + 1;
        }
        proof {
            assert forall|m: int| q <= m < order.len() implies sym_key(syms[#[trigger] order[m] as int]) > addr by {
                if m > q {
                    assert(precedes(syms, order[q as int] as int, order[m] as int));
                }
            }
            assert forall|k: int| 0 <= k < r@.len() implies #[trigger] r@[k] < syms.len() && sym_key(syms[r@[k] as int]) == addr by {
                assert(r@[k] == order[p + k]);
            }
            assert forall|k: int, l: int| 0 <= k < l < r@.len() implies #[trigger] r@[k] < #[trigger] r@[l] by {
                assert(r@[k] == order[p + k] && r@[l] == order[p + l]);
                assert(precedes(syms, order[p + k] as int, order[p + l] as int));
            }
            assert forall|i: int| 0 <= i < syms.len() && sym_key(syms[i]) == addr implies #[trigger] listed(r@, i) by {
                assert(listed(order, i));
                let m = choose|m: int| 0 <= m < order.len() && order[m] == i;
                assert(p <= m < q);
                assert(r@[m - p] == i);
            }
        }
        r
    }

    /// The 32-bit address of the symbol at position `q` of the address index.
    fn key_at(&self, q: usize) -> (r: u32)
        requires
            self.wf(),
            q < self.by_address@.len(),
        ensures
            self.by_address@[q as int] < self@.len(),
            r == sym_key(self@[self.by_address@[q as int] as int]),
    {
        to_key(self.symbols[self.by_address[q]].address)
    }

    /// Resolves a relocation target address to the symbol it refers to.
    ///
    /// Addresses are scanned from `target_addr` downwards. At each occupied address
    /// the best-scoring symbol is picked; it is the answer if it sits exactly at the
    /// target, or if its size is known, nonzero and covers the target. A picked symbol
    /// with such a size that does not cover the target ends the search with no answer;
    /// one with a zero or unknown size lets the search go on.
    pub fn for_relocation(&self, target_addr: u32, reloc_kind: ObjRelocKind) -> (r: Result<
        Option<usize>,
        ObjError,
    >)
        requires
            self.wf(),
        ensures
            r matches Ok(o) && match o {
                Some(i) => resolve(self@, target_addr, reloc_kind) == Some(i as int),
                None => resolve(self@, target_addr, reloc_kind) is None,
            },
    {
        let ghost syms = self@;
        let ghost order = self.by_address@;
        let n = self.by_address.len();
        let mut p: usize = 0;
        while p < n && self.key_at(p) <= target_addr
            invariant
                self.wf(),
                syms == self@,
                order == self.by_address@,
                n == order.len(),
                0 <= p <= n,
                forall|k: int| 0 <= k < p ==> sym_key(syms[#[trigger] order[k] as int]) <= target_addr,
            decreases n - p,
        {
            p = p + 1;
        }
        proof {
            assert forall|l: int| p <= l < n implies sym_key(syms[#[trigger] order[l] as int])
                > target_addr by {
                if l > p {
                    assert(precedes(syms, order[p as int] as int, order[l] as int));
                }
            }
        }
        let mut hi: usize = p;
        let ghost mut cur: int = target_addr as int;
        while hi > 0
            invariant
                self.wf(),
                syms == self@,
                order == self.by_address@,
                n == order.len(),
                0 <= hi <= n,
                -1 <= cur <= target_addr,
                forall|q: int| 0 <= q < hi ==> sym_key(syms[#[trigger] order[q] as int]) <= cur,
                forall|q: int| hi <= q < n ==> sym_key(syms[#[trigger] order[q] as int]) > cur,
                resolve(syms, target_addr, reloc_kind) == resolve_from(
                    syms,
                    target_addr,
                    reloc_kind,
                    cur,
                ),
            decreases hi,
        {
            let a = self.key_at(hi - 1);
            proof {
                assert forall|i: int| 0 <= i < syms.len() implies !(a < #[trigger] sym_key(syms[i])
                    <= cur) by {
                    assert(listed(order, i));
                    let q = choose|q: int| 0 <= q < order.len() && order[q] == i;
                    if q < hi - 1 {
                        assert(precedes(syms, order[q] as int, order[hi - 1] as int));
                    } else if q >= hi {
                    }
                }
                lemma_resolve_skip(syms, target_addr, reloc_kind, a as int, cur);
            }
            let mut lo: usize = hi - 1;
            while lo > 0 && self.key_at(lo - 1) == a
                invariant
                    self.wf(),
                    syms == self@,
                    order == self.by_address@,
                    n == order.len(),
                    0 <= lo < hi <= n,
                    forall|q: int| lo <= q < hi ==> sym_key(syms[#[trigger] order[q] as int]) == a,
                decreases lo,
            {
                lo = lo - 1;
            }
            proof {
                if lo > 0 {
                    assert(precedes(syms, order[lo - 1] as int, order[lo as int] as int));
                }
                assert forall|q: int| 0 <= q < lo implies sym_key(syms[#[trigger] order[q] as int]) < a by {
                    if q < lo - 1 {
                        assert(precedes(syms, order[q] as int, order[lo - 1] as int));
                    }
                }
            }
            let mut best: usize = lo;
            let mut best_score: i8 = score(&self.symbols[self.by_address[lo]], reloc_kind);
            let mut q: usize = lo + 1;
            while q < hi
                invariant
                    self.wf(),
                    syms == self@,
                    order == self.by_address@,
                    n == order.len(),
                    0 <= lo <= best < q <= hi <= n,
                    forall|q2: int| lo <= q2 < hi ==> sym_key(syms[#[trigger] order[q2] as int]) == a,
                    best_score == reloc_score(syms[order[best as int] as int], reloc_kind),
                    forall|q2: int|
                        lo <= q2 < q ==> reloc_score(syms[#[trigger] order[q2] as int], reloc_kind)
                            < best_score || (reloc_score(syms[order[q2] as int], reloc_kind)
                            == best_score && best <= q2),
                decreases hi - q,
            {
                let sc = score(&self.symbols[self.by_address[q]], reloc_kind);
                if sc > best_score {
                    best = q;
                    best_score = sc;
                }
                q = q + 1;
            }
            let b = self.by_address[best];
            proof {
                assert forall|j: int| 0 <= j < syms.len() && sym_key(#[trigger] syms[j]) == a implies reloc_score(syms[j], reloc_kind)
                    < reloc_score(syms[b as int], reloc_kind) || (reloc_score(syms[j], reloc_kind)
                    == reloc_score(syms[b as int], reloc_kind) && b <= j) by {
                    assert(listed(order, j));
                    let q2 = choose|q2: int| 0 <= q2 < order.len() && order[q2] == j;
                    assert(sym_key(syms[order[q2] as int]) == a);
                    assert(lo <= q2 < hi);
                    if best < q2 {
                        assert(precedes(syms, order[best as int] as int, order[q2] as int));
                    }
                }
                assert(best_at(syms, a as int, reloc_kind, b as int));
                assert(occupied(syms, a as int));
                let c = choose|c: int| best_at(syms, a as int, reloc_kind, c);
                lemma_best_unique(syms, a as int, reloc_kind, b as int, c);
            }
            let symbol = &self.symbols[b];
            let target = target_addr as u64;
            if symbol.address == target {
                return Ok(Some(b));
            }
            if symbol.size_known && symbol.size > 0 {
                if symbol.address > target || symbol.size > target - symbol.address {
                    return Ok(Some(b));
                }
                return Ok(None);
            }
            hi = lo;
            proof {
                cur = a - 1;
            }
        }
        proof {
            assert forall|i: int| 0 <= i < syms.len() implies !(-1 < #[trigger] sym_key(syms[i]) <= cur) by {
                assert(listed(order, i));
            }
            lemma_resolve_skip(syms, target_addr, reloc_kind, -1, cur);
        }
        Ok(None)
    }

    /// The symbols at `addr` of the given kind: none, the one, or an error if several.
    pub fn kind_at_address(&self, addr: u32, kind: ObjSymbolKind) -> (r: Result<Option<usize>, ObjError>)
        requires
            self.wf(),
        ensures
            (r == Ok::<Option<usize>, ObjError>(None)) <==> (forall|i: int|
                0 <= i < self@.len() ==> !#[trigger] kind_at(self@[i], addr, kind)),
            r matches Ok(Some(i)) ==> i < self@.len() && kind_at(self@[i as int], addr, kind)
                && forall|j: int|
                0 <= j < self@.len() && #[trigger] kind_at(self@[j], addr, kind) ==> j == i,
            r is Err <==> exists|i: int, j: int|
                0 <= i < j < self@.len() && #[trigger] kind_at(self@[i], addr, kind)
                    && #[trigger] kind_at(self@[j], addr, kind),
            r is Err ==> r == Err::<Option<usize>, ObjError>(
                ObjError::MultipleOfKind { kind, address: addr },
            ),
    {
        let ghost pred = |i: int| sym_key(self@[i]) == addr && self@[i].kind == kind;
        let bucket = self.at_address(addr);
        let mut r: Vec<usize> = Vec::new();
        let mut m: usize = 0;
        while m < bucket.len()
            invariant
                pred == (|i: int| sym_key(self@[i]) == addr && self@[i].kind == kind),
                index_selection(self@.len() as int, bucket@, |i: int| sym_key(self@[i]) == addr),
                0 <= m <= bucket@.len(),
                forall|k: int| 0 <= k < r@.len() ==> #[trigger] r@[k] < self@.len() && pred(r@[k] as int),
                forall|k: int, l: int| 0 <= k < l < r@.len() ==> #[trigger] r@[k] < #[trigger] r@[l],
                r@.len() > 0 ==> exists|k: int| 0 <= k < m && bucket@[k] == r@.last(),
                forall|k: int| 0 <= k < m && pred(#[trigger] bucket@[k] as int) ==> listed(r@, bucket@[k] as int),
            decreases bucket@.len() - m,
        {
            let j = bucket[m];
            if self.symbols[j].kind == kind {
                let ghost prev = r@;
                proof {
                    if prev.len() > 0 {
                        let k = choose|k: int| 0 <= k < m && bucket@[k] == prev.last();
                        assert(bucket@[k] < bucket@[m as int]);
                    }
                }
                r.push(j);
                proof {
                    assert forall|k: int, l: int| 0 <= k < l < r@.len() implies #[trigger] r@[k] < #[trigger] r@[l] by {
                        if l == prev.len() && k < prev.len() - 1 {
                            assert(prev[k] < prev.last());
                        }
                    }
                    assert(r@[prev.len() as int] == j);
                    assert forall|k: int| 0 <= k < m + 1 && pred(#[trigger] bucket@[k] as int) implies listed(r@, bucket@[k] as int) by {
                        if k < m {
                            assert(listed(prev, bucket@[k] as int));
                            let x = choose|x: int| 0 <= x < prev.len() && prev[x] == bucket@[k];
                            assert(r@[x] == bucket@[k]);
                        }
                    }
                }
            }
            m = m + 1;
        }
        proof {
            assert forall|i: int| 0 <= i < self@.len() && pred(i) implies #[trigger] listed(r@, i) by {
                assert(listed(bucket@, i));
                let k = choose|k: int| 0 <= k < bucket@.len() && bucket@[k] == i;
                assert(pred(bucket@[k] as int));
            }
        }
        proof {
            assert forall|k: int, l: int| 0 <= k < l < r@.len() implies #[trigger] r@[k] != #[trigger] r@[l] by {
                assert(r@[k] < r@[l]);
            }
            assert forall|i: int| 0 <= i < self@.len() implies (#[trigger] kind_at(self@[i], addr, kind))
                == pred(i) by {}
            if r@.len() > 0 {
                assert(pred(r@[0] as int));
                assert(kind_at(self@[r@[0] as int], addr, kind));
            }
            if r@.len() == 0 {
                assert forall|i: int| 0 <= i < self@.len() implies !#[trigger] kind_at(self@[i], addr, kind) by {
                    if kind_at(self@[i], addr, kind) {
                        assert(pred(i));
                        assert(listed(r@, i));
                    }
                }
            }
            if r@.len() >= 2 {
                assert(pred(r@[1] as int));
                assert(r@[0] != r@[1]);
                let a = r@[0] as int;
                let b = r@[1] as int;
                if a < b {
                    assert(kind_at(self@[a], addr, kind) && kind_at(self@[b], addr, kind));
                } else {
                    assert(kind_at(self@[b], addr, kind) && kind_at(self@[a], addr, kind));
                }
            }
            assert forall|j: int| 0 <= j < self@.len() && #[trigger] kind_at(self@[j], addr, kind) implies listed(r@, j) by {
                assert(pred(j));
            }
            if exists|i: int, j: int| 0 <= i < j < self@.len() && #[trigger] kind_at(self@[i], addr, kind) && #[trigger] kind_at(self@[j], addr, kind) {
                let (i, j) = choose|i: int, j: int| 0 <= i < j < self@.len() && #[trigger] kind_at(self@[i], addr, kind) && #[trigger] kind_at(self@[j], addr, kind);
                assert(listed(r@, i) && listed(r@, j));
                let ki = choose|k: int| 0 <= k < r@.len() && r@[k] == i;
                let kj = choose|k: int| 0 <= k < r@.len() && r@[k] == j;
                assert(ki != kj);
            }
        }
        if r.len() == 0 {
            Ok(None)
        } else if r.len() == 1 {
            Ok(Some(r[0]))
        } else {
            Err(ObjError::MultipleOfKind { kind, address: addr })
        }
    }

    /// The occupied addresses in `range`, ascending, each with the indices of the
    /// symbols there in insertion order.
    pub fn indexes_for_range(&self, range: std::ops::Range<u32>) -> (r: Vec<(u32, Vec<usize>)>)
        requires
            self.wf(),
        ensures
            forall|m: int|
                0 <= m < r@.len() ==> range.start <= (#[trigger] r@[m]).0 < range.end
                    && index_selection(self@.len() as int, r@[m].1@, |i: int| sym_key(self@[i]) == r@[m].0),
            forall|m: int, l: int| 0 <= m < l < r@.len() ==> (#[trigger] r@[m]).0 < (#[trigger] r@[l]).0,
            forall|i: int|
                0 <= i < self@.len() && range.start <= #[trigger] sym_key(self@[i]) < range.end ==> exists|m: int|
                    0 <= m < r@.len() && r@[m].0 == sym_key(self@[i]),
    {
        let ghost syms = self@;
        let ghost order = self.by_address@;
        let start = range.start;
        let end = range.end;
        let mut r: Vec<(u32, Vec<usize>)> = Vec::new();
        let mut k: usize = 0;
        while k < self.by_address.len()
            invariant
                self.wf(),
                syms == self@,
                order == self.by_address@,
                start == range.start && end == range.end,
                0 <= k <= order.len(),
                forall|m: int|
                    0 <= m < r@.len() ==> start <= (#[trigger] r@[m]).0 < end && index_selection(
                        syms.len() as int,
                        r@[m].1@,
                        |i: int| sym_key(syms[i]) == r@[m].0,
                    ),
                forall|m: int, l: int| 0 <= m < l < r@.len() ==> (#[trigger] r@[m]).0 < (#[trigger] r@[l]).0,
                r@.len() > 0 ==> k > 0 && r@.last().0 <= sym_key(syms[order[k - 1] as int]),
                forall|kk: int|
                    0 <= kk < k && start <= sym_key(syms[#[trigger] order[kk] as int]) < end ==> exists|m: int|
                        0 <= m < r@.len() && r@[m].0 == sym_key(syms[order[kk] as int]),
            decreases order.len() - k,
        {
            let a = self.key_at(k);
            proof {
                if k > 0 {
                    assert(precedes(syms, order[k - 1] as int, order[k as int] as int));
                }
            }
            if start <= a && a < end {
                let fresh = r.len() == 0 || r[r.len() - 1].0 != a;
                if fresh {
                    let bucket = self.at_address(a);
                    let ghost prev = r@;
                    r.push((a, bucket));
                    proof {
                        assert(r@[prev.len() as int].0 == a);
                        assert forall|kk: int|
                            0 <= kk < k + 1 && start <= sym_key(syms[#[trigger] order[kk] as int]) < end implies exists|m: int|
                                0 <= m < r@.len() && r@[m].0 == sym_key(syms[order[kk] as int]) by {
                            if kk < k {
                                let m = choose|m: int| 0 <= m < prev.len() && prev[m].0 == sym_key(syms[order[kk] as int]);
                                assert(r@[m] == prev[m]);
                            }
                        }
                    }
                } else {
                    proof {
                        assert forall|kk: int|
                            0 <= kk < k + 1 && start <= sym_key(syms[#[trigger] order[kk] as int]) < end implies exists|m: int|
                                0 <= m < r@.len() && r@[m].0 == sym_key(syms[order[kk] as int]) by {
                            if kk == k {
                                assert(r@[r@.len() - 1].0 == a);
                            }
                        }
                    }
                }
            }
            k = k + 1;
        }
        proof {
            assert forall|i: int|
                0 <= i < syms.len() && start <= #[trigger] sym_key(syms[i]) < end implies exists|m: int|
                    0 <= m < r@.len() && r@[m].0 == sym_key(syms[i]) by {
                assert(listed(order, i));
                let kk = choose|kk: int| 0 <= kk < order.len() && order[kk] == i;
                assert(start <= sym_key(syms[order[kk] as int]) < end);
            }
        }
        r
    }

    /// Every symbol, sectionless ones included, in address order; symbols sharing an
    /// address come in insertion order.
    pub fn iter_ordered(&self) -> (r: Vec<usize>)
        requires
            self.wf(),
        ensures
            r@.len() == self@.len(),
            ordered_below(self@, r@, self@.len() as int),
    {
        let mut r: Vec<usize> = Vec::new();
        let mut k: usize = 0;
        while k < self.by_address.len()
            invariant
                self.wf(),
                0 <= k <= self.by_address@.len(),
                r@ == self.by_address@.subrange(0, k as int),
            decreases self.by_address@.len() - k,
        {
            r.push(self.by_address[k]);
            k = k + 1;
        }
        assert(r@ == self.by_address@);
        r
    }

    /// The symbols with a section whose address falls in `[start, end)`, in address
    /// order, keeping only those of section `only` when it is given.
    fn ordered_where(&self, start: u64, end: u64, full: bool, only: Option<usize>) -> (r: Vec<usize>)
        requires
            self.wf(),
        ensures
            ordered_selection(self@, r@, |i: int| in_window(self@[i], start, end, full, only)),
    {
        let ghost syms = self@;
        let ghost order = self.by_address@;
        let mut r: Vec<usize> = Vec::new();
        let mut k: usize = 0;
        while k < self.by_address.len()
            invariant
                self.wf(),
                syms == self@,
                order == self.by_address@,
                0 <= k <= order.len(),
                forall|m: int|
                    0 <= m < r@.len() ==> #[trigger] r@[m] < syms.len() && in_window(
                        syms[r@[m] as int],
                        start,
                        end,
                        full,
                        only,
                    ),
                forall|m: int, l: int|
                    0 <= m < l < r@.len() ==> precedes(syms, #[trigger] r@[m] as int, #[trigger] r@[l] as int),
                r@.len() > 0 ==> exists|kk: int| 0 <= kk < k && order[kk] == r@.last(),
                forall|kk: int|
                    0 <= kk < k && in_window(syms[order[kk] as int], start, end, full, only) ==> listed(
                        r@,
                        #[trigger] order[kk] as int,
                    ),
            decreases order.len() - k,
        {
            let idx = self.by_address[k];
            let s = &self.symbols[idx];
            let a: u64 = if full {
                s.address
            } else {
                to_key(s.address) as u64
            };
            let keep = start <= a && a < end && match s.section {
                Some(sec) => match only {
                    Some(x) => sec == x,
                    None => true,
                },
                None => false,
            };
            if keep {
                let ghost prev = r@;
                r.push(idx);
                proof {
                    if prev.len() > 0 {
                        let kk = choose|kk: int| 0 <= kk < k && order[kk] == prev.last();
                        assert(precedes(syms, order[kk] as int, order[k as int] as int));
                    }
                    assert forall|m: int, l: int|
                        0 <= m < l < r@.len() implies precedes(syms, #[trigger] r@[m] as int, #[trigger] r@[l] as int) by {
                        if l == prev.len() && m < prev.len() - 1 {
                            assert(precedes(syms, prev[m] as int, prev.last() as int));
                        }
                    }
                    assert(r@[prev.len() as int] == order[k as int]);
                    assert forall|kk: int|
                        0 <= kk < k + 1 && in_window(syms[order[kk] as int], start, end, full, only) implies listed(
                            r@,
                            #[trigger] order[kk] as int,
                        ) by {
                        if kk < k {
                            assert(listed(prev, order[kk] as int));
                            let m = choose|m: int| 0 <= m < prev.len() && prev[m] == order[kk];
                            assert(r@[m] == order[kk]);
                        }
                    }
                }
            }
            k = k + 1;
        }
        proof {
            assert forall|i: int| 0 <= i < syms.len() && (|i: int| in_window(syms[i], start, end, full, only))(i)
                implies #[trigger] listed(r@, i) by {
                assert(listed(order, i));
                let kk = choose|kk: int| 0 <= kk < order.len() && order[kk] == i;
                assert(listed(r@, order[kk] as int));
            }
        }
        r
    }

    /// The symbols with a section whose address falls in `range`, in address order.
    pub fn for_range(&self, range: std::ops::Range<u32>) -> (r: Vec<usize>)
        requires
            self.wf(),
        ensures
            ordered_selection(self@, r@, |i: int| in_window(self@[i], range.start as u64, range.end as u64, false, None)),
    {
        self.ordered_where(range.start as u64, range.end as u64, false, None)
    }

    /// The symbols of `section` whose address lies in `[address, address + size)`, in
    /// address order.
    pub fn for_section(&self, section: &ObjSection) -> (r: Vec<usize>)
        requires
            self.wf(),
            section.address + section.size <= u64::MAX,
        ensures
            ordered_selection(
                self@,
                r@,
                |i: int|
                    in_window(
                        self@[i],
                        section.address,
                        (section.address + section.size) as u64,
                        true,
                        Some(section.index),
                    ),
            ),
    {
        self.ordered_where(section.address, section.address + section.size, true, Some(section.index))
    }

    /// The symbols named `name`; an empty name names none.
    pub fn for_name(&self, name: &str) -> (r: Vec<usize>)
        requires
            self.wf(),
        ensures
            name_selection(self@.len() as int, r@, |i: int| name@.len() > 0 && self@[i].name@ == name@),
            r@ == self.name_list(name@),
    {
        let ghost pred = |i: int| name@.len() > 0 && self@[i].name@ == name@;
        let ghost idx = self.by_name@;
        match find_name(&self.by_name, name) {
            Some(e) => {
                let r = copy_indices(&self.by_name[e].indices);
                proof {
                    lemma_list_of(idx, e as int);
                    assert forall|i: int| 0 <= i < self@.len() && pred(i) implies #[trigger] listed(r@, i) by {
                        assert(named(idx, self@[i].name@, i));
                        let (f, k) = choose|f: int, k: int|
                            0 <= f < idx.len() && 0 <= k < idx[f].indices@.len() && idx[f].name@
                                == self@[i].name@ && idx[f].indices@[k] == i;
                        if f != e {
                            if f < e {
                                assert(idx[f].name@ != idx[e as int].name@);
                            } else {
                                assert(idx[e as int].name@ != idx[f].name@);
                            }
                        }
                        assert(r@[k] == i);
                    }
                }
                r
            },
            None => {
                proof {
                    assert forall|i: int| 0 <= i < self@.len() && pred(i) implies #[trigger] listed(Seq::<usize>::empty(), i) by {
                        assert(named(idx, self@[i].name@, i));
                        let (f, k) = choose|f: int, k: int|
                            0 <= f < idx.len() && 0 <= k < idx[f].indices@.len() && idx[f].name@
                                == self@[i].name@ && idx[f].indices@[k] == i;
                    }
                }
                Vec::new()
            },
        }
    }

    /// The one symbol named `name`: none if there is none, an error if several share it.
    pub fn by_name(&self, name: &str) -> (r: Result<Option<usize>, ObjError>)
        requires
            self.wf(),
        ensures
            (r == Ok::<Option<usize>, ObjError>(None)) <==> (forall|i: int|
                0 <= i < self@.len() ==> !#[trigger] named_as(self@[i], name@)),
            r matches Ok(Some(i)) ==> i < self@.len() && named_as(self@[i as int], name@)
                && forall|j: int| 0 <= j < self@.len() && #[trigger] named_as(self@[j], name@) ==> j == i,
            r is Err <==> exists|i: int, j: int|
                0 <= i < j < self@.len() && #[trigger] named_as(self@[i], name@)
                    && #[trigger] named_as(self@[j], name@),
            r matches Err(ObjError::AmbiguousName { name: n, first, second }) ==> n@ == name@
                && first != second && first < self@.len() && second < self@.len()
                && self@[first as int].name@ == name@
                && self@[second as int].name@ == name@,
            r is Err ==> r matches Err(ObjError::AmbiguousName { .. }),
    {
        let found = self.for_name(name);
        proof {
            let pred = |i: int| name@.len() > 0 && self@[i].name@ == name@;
            assert forall|i: int| 0 <= i < self@.len() implies (#[trigger] named_as(self@[i], name@))
                == pred(i) by {}
            if found@.len() > 0 {
                assert(pred(found@[0] as int));
                assert(named_as(self@[found@[0] as int], name@));
            }
            if found@.len() == 0 {
                assert forall|i: int| 0 <= i < self@.len() implies !#[trigger] named_as(self@[i], name@) by {
                    if named_as(self@[i], name@) {
                        assert(pred(i));
                        assert(listed(found@, i));
                    }
                }
            }
            if found@.len() >= 2 {
                assert(pred(found@[1] as int));
                assert(found@[0] != found@[1]);
                let a = found@[0] as int;
                let b = found@[1] as int;
                if a < b {
                    assert(named_as(self@[a], name@) && named_as(self@[b], name@));
                } else {
                    assert(named_as(self@[b], name@) && named_as(self@[a], name@));
                }
            }
            assert forall|j: int| 0 <= j < self@.len() && #[trigger] named_as(self@[j], name@) implies listed(found@, j) by {
                assert(pred(j));
            }
            if exists|i: int, j: int| 0 <= i < j < self@.len() && #[trigger] named_as(self@[i], name@) && #[trigger] named_as(self@[j], name@) {
                let (i, j) = choose|i: int, j: int| 0 <= i < j < self@.len() && #[trigger] named_as(self@[i], name@) && #[trigger] named_as(self@[j], name@);
                assert(listed(found@, i) && listed(found@, j));
                let ki = choose|k: int| 0 <= k < found@.len() && found@[k] == i;
                let kj = choose|k: int| 0 <= k < found@.len() && found@[k] == j;
                assert(ki != kj);
            }
        }
        if found.len() == 0 {
            Ok(None)
        } else if found.len() == 1 {
            Ok(Some(found[0]))
        } else {
            Err(ObjError::AmbiguousName { name: String::from_str(name), first: found[0], second: found[1] })
        }
    }

    /// The symbols of the given kind, in index order.
    pub fn by_kind(&self, kind: ObjSymbolKind) -> (r: Vec<usize>)
        ensures
            index_selection(self@.len() as int, r@, |i: int| self@[i].kind == kind),
    {
        let ghost pred = |i: int| self@[i].kind == kind;
        let mut r: Vec<usize> = Vec::new();
        let mut i: usize = 0;
        while i < self.symbols.len()
            invariant
                0 <= i <= self@.len(),
                pred == (|i: int| self@[i].kind == kind),
                forall|k: int| 0 <= k < r@.len() ==> #[trigger] r@[k] < i && pred(r@[k] as int),
                forall|k: int, l: int| 0 <= k < l < r@.len() ==> #[trigger] r@[k] < #[trigger] r@[l],
                forall|j: int| 0 <= j < i && pred(j) ==> #[trigger] listed(r@, j),
            decreases self@.len() - i,
        {
            if self.symbols[i].kind == kind {
                let ghost prev = r@;
                r.push(i);
                proof {
                    assert forall|j: int| 0 <= j < i + 1 && pred(j) implies #[trigger] listed(r@, j) by {
                        if j == i {
                            assert(r@[prev.len() as int] == j);
                        } else {
                            assert(listed(prev, j));
                            let k = choose|k: int| 0 <= k < prev.len() && prev[k] == j;
                            assert(r@[k] == j);
                        }
                    }
                }
            }
            i = i + 1;
        }
        r
    }
}

/// No symbol from `k` on qualifies when the search from `k` finds none.
proof fn lemma_first_candidate_none(syms: Seq<ObjSymbol>, incoming: ObjSymbol, k: int)
    requires
        0 <= k,
        first_candidate(syms, incoming, k) is None,
    ensures
        forall|j: int| k <= j < syms.len() ==> !merge_candidate(#[trigger] syms[j], incoming),
    decreases syms.len() - k,
{
    if k < syms.len() {
        lemma_first_candidate_none(syms, incoming, k + 1);
    }
}

/// Nothing between `k` and the candidate found from `k` qualifies.
proof fn lemma_first_candidate_skipped(syms: Seq<ObjSymbol>, incoming: ObjSymbol, k: int, i: int)
    requires
        0 <= k,
        first_candidate(syms, incoming, k) == Some(i),
    ensures
        forall|j: int| k <= j < i ==> !merge_candidate(#[trigger] syms[j], incoming),
    decreases syms.len() - k,
{
    if k < syms.len() && !merge_candidate(syms[k], incoming) {
        lemma_first_candidate_skipped(syms, incoming, k + 1, i);
    }
}

/// When no symbol from `k` on qualifies, the search from `k` finds none.
proof fn lemma_first_candidate_absent(syms: Seq<ObjSymbol>, incoming: ObjSymbol, k: int)
    requires
        0 <= k,
        forall|j: int| k <= j < syms.len() ==> !merge_candidate(#[trigger] syms[j], incoming),
    ensures
        first_candidate(syms, incoming, k) is None,
    decreases syms.len() - k,
{
    if k < syms.len() {
        lemma_first_candidate_absent(syms, incoming, k + 1);
    }
}

/// The first qualifying symbol from `k` on is the one found.
proof fn lemma_first_candidate_is(syms: Seq<ObjSymbol>, incoming: ObjSymbol, k: int, i: int)
    requires
        0 <= k <= i < syms.len(),
        forall|j: int| k <= j < i ==> !merge_candidate(#[trigger] syms[j], incoming),
        merge_candidate(syms[i], incoming),
    ensures
        first_candidate(syms, incoming, k) == Some(i),
    decreases i - k,
{
    if k < i {
        lemma_first_candidate_is(syms, incoming, k + 1, i);
    }
}

/// Adding the same symbol twice without merging returns the same index both times,
/// and the second addition leaves the number of symbols unchanged.
pub proof fn lemma_add_twice_same_index(syms: Seq<ObjSymbol>, s: ObjSymbol)
    ensures
        ({
            let (r1, t1) = add_outcome(syms, s, false);
            let (r2, t2) = add_outcome(t1, s, false);
            r1 is Ok && r2 == r1 && t2.len() == t1.len()
        }),
{
    let t1 = add_outcome(syms, s, false).1;
    match first_candidate(syms, s, 0) {
        None => {
            lemma_first_candidate_none(syms, s, 0);
            let n = syms.len() as int;
            assert forall|j: int| 0 <= j < n implies !merge_candidate(#[trigger] t1[j], s) by {
                assert(t1[j] == syms[j]);
            }
            lemma_first_candidate_is(t1, s, 0, n);
        },
        Some(i) => {
            lemma_first_candidate_bounds(syms, s, 0);
            lemma_first_candidate_skipped(syms, s, 0, i);
            assert forall|j: int| 0 <= j < i implies !merge_candidate(#[trigger] t1[j], s) by {
                assert(t1[j] == syms[j]);
            }
            lemma_first_candidate_is(t1, s, 0, i);
        },
    }
}

/// Adding a symbol that meets an existing one with a differing known size reports the
/// conflict once and still succeeds without merging; with merging, the incoming size is
/// stored, provided the full addresses agree (otherwise the merge would move the symbol
/// and fails).
pub proof fn lemma_merge_takes_incoming_size(syms: Seq<ObjSymbol>, s: ObjSymbol, i: int)
    requires
        first_candidate(syms, s, 0) == Some(i),
        syms[i].size_known,
        s.size_known,
        syms[i].size != s.size,
    ensures
        add_conflicts(syms, s) == seq![
            SizeConflict { index: i as usize, previous: syms[i].size, incoming: s.size },
        ],
        add_outcome(syms, s, false).0 == Ok::<usize, ObjError>(i as usize),
        syms[i].address == s.address ==> add_outcome(syms, s, true).0 == Ok::<usize, ObjError>(
            i as usize,
        ) && add_outcome(syms, s, true).1[i].size == s.size,
{
    lemma_first_candidate_bounds(syms, s, 0);
}

/// Listing symbols in address order yields non-decreasing addresses, symbols that
/// share an address in the order they were inserted, and every symbol once.
pub proof fn lemma_ordered_listing(syms: Seq<ObjSymbol>, r: Seq<usize>)
    requires
        ordered_below(syms, r, syms.len() as int),
    ensures
        forall|k: int, l: int|
            0 <= k < l < r.len() ==> sym_key(syms[#[trigger] r[k] as int]) <= sym_key(
                syms[#[trigger] r[l] as int],
            ),
        forall|k: int, l: int|
            0 <= k < l < r.len() && sym_key(syms[r[k] as int]) == sym_key(syms[r[l] as int]) ==> #[trigger] r[k]
                < #[trigger] r[l],
        forall|i: int| 0 <= i < syms.len() ==> #[trigger] listed(r, i),
{
    assert forall|k: int, l: int| 0 <= k < l < r.len() implies sym_key(syms[#[trigger] r[k] as int]) <= sym_key(
        syms[#[trigger] r[l] as int],
    ) by {
        assert(precedes(syms, r[k] as int, r[l] as int));
    }
    assert forall|k: int, l: int|
        0 <= k < l < r.len() && sym_key(syms[r[k] as int]) == sym_key(syms[r[l] as int]) implies #[trigger] r[k]
            < #[trigger] r[l] by {
        assert(precedes(syms, r[k] as int, r[l] as int));
    }
}

} // verus!
