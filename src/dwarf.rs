//! Turns the rows of DWARF line-number programs into an address-ordered table
//! of source locations, dropping the rows of functions the linker discarded.

use std::collections::HashMap;
use vstd::prelude::*;
use crate::prefix::{chars_of, string_of};

verus! {

broadcast use vstd::std_specs::hash::group_hash_axioms;

/// A source position of a code address.
#[derive(Clone, Copy, Debug, PartialEq, Eq, Structural)]
pub struct DebugLoc {
    pub address: u64,
    pub source_id: u32,
    pub line: u32,
    pub column: u32,
}

/// The source files and the locations of a module.
pub struct DebugLocInfo {
    /// Source paths; a location names one by its position here.
    pub sources: Vec<String>,
    /// Locations, ordered by address.
    pub locations: Vec<DebugLoc>,
    /// The text of each source file, when embedded.
    pub sources_content: Option<Vec<String>>,
}

/// A row of a line-number program, as a DWARF reader produces it.
pub struct LineRow {
    /// The row's address, relative to the start of the code.
    pub address: u64,
    /// The row's file, numbered as its compilation unit numbers them.
    pub file_index: u64,
    /// The line; 0 when the row has none.
    pub line: u64,
    /// The column; 0 at the left edge.
    pub column: u64,
    /// Whether the row ends a sequence of rows (the end of a function).
    pub end_sequence: bool,
    /// The path of the row's file: its directory, `/` and its name; or
    /// `<unknown>` when the unit does not list the file.
    pub path: String,
}

/// `<unknown>`, the path of a file that its unit does not list.
pub open spec fn unknown_path() -> Seq<char> {
    seq!['<', 'u', 'n', 'k', 'n', 'o', 'w', 'n', '>']
}

/// The path of a file entry of a line-number program, given as its
/// directory, if any, and its name: the directory, `/` and the name; the
/// name alone without a directory; `<unknown>` for a missing entry.
pub open spec fn file_path_of(entry: Option<(Option<Seq<char>>, Seq<char>)>) -> Seq<char> {
    match entry {
        None => unknown_path(),
        Some((None, name)) => name,
        Some((Some(dir), name)) => dir + seq!['/'] + name,
    }
}

/// The path of a file entry: its directory, `/` and its name; its name
/// alone when it has no directory; `<unknown>` when the entry is missing.
pub fn file_path(entry: &Option<(Option<String>, String)>) -> (r: String)
    ensures
        r@ == file_path_of(match entry {
            None => None,
            Some((d, n)) => Some((match d {
                None => None,
                Some(d) => Some(d@),
            }, n@)),
        }),
{
    match entry {
        None => {
            let v: Vec<char> = vec!['<', 'u', 'n', 'k', 'n', 'o', 'w', 'n', '>'];
            assert(v@ =~= unknown_path());
            string_of(&v)
        },
        Some((None, name)) => name.clone(),
        Some((Some(dir), name)) => {
            let mut v = chars_of(dir.as_str());
            v.push('/');
            let n = chars_of(name.as_str());
            let mut i: usize = 0;
            let ghost head = v@;
            while i < n.len()
                invariant
                    i <= n@.len(),
                    v@ == head + n@.take(i as int),
                decreases n.len() - i,
            {
                v.push(n[i]);
                assert(v@ =~= head + n@.take(i + 1));
                i = i + 1;
            }
            assert(n@.take(i as int) =~= n@);
            assert(v@ =~= dir@ + seq!['/'] + name@);
            string_of(&v)
        },
    }
}

/// The smallest `k` with `2` to the power `k` at least `x`.
pub open spec fn ceil_log2(x: int) -> nat
    decreases x,
{
    if x <= 1 {
        0
    } else {
        1 + ceil_log2((x + 1) / 2)
    }
}

/// The number of bytes in the LEB128 encoding of a function's size field,
/// as estimated from the size `fn_size`.
pub open spec fn size_field_len(fn_size: int) -> int {
    (ceil_log2(fn_size + 1) + 6) as int / 7
}

/// Whether a run of rows from `first` to `last` belongs to a function the
/// linker discarded: it starts no further into the code than a size field.
pub open spec fn is_dead_block(first: u64, last: u64, code_content: usize) -> bool {
    first as int <= code_content as int + size_field_len(last as int - first as int + 1)
}

/// The low 32 bits of `x`.
pub open spec fn low32(x: int) -> u32 {
    (x % 0x1_0000_0000) as u32
}

/// The state of the walk over line-number rows.
pub struct Walk {
    pub sources: Seq<Seq<char>>,
    pub locations: Seq<DebugLoc>,
    /// The source of each file index of the current compilation unit.
    pub ids: Map<u64, usize>,
    /// Where the current sequence of rows begins in `locations`.
    pub block_start: int,
}

/// The position of the first source equal to `p`, or -1.
pub open spec fn path_index(sources: Seq<Seq<char>>, p: Seq<char>) -> int
    decreases sources.len(),
{
    if sources.len() == 0 {
        -1
    } else {
        let i = path_index(sources.drop_last(), p);
        if i >= 0 {
            i
        } else if sources.last() == p {
            sources.len() - 1
        } else {
            -1
        }
    }
}

/// The source that a row names: the one its file index already names in the
/// current unit, else the listed source with its path, else a new source.
pub open spec fn row_source(w: Walk, row: LineRow) -> int {
    if w.ids.contains_key(row.file_index) {
        w.ids[row.file_index] as int
    } else if path_index(w.sources, row.path@) >= 0 {
        path_index(w.sources, row.path@)
    } else {
        w.sources.len() as int
    }
}

/// The effect of one row.
pub open spec fn walk_row(w: Walk, row: LineRow, code_content: usize) -> Walk {
    let known = w.ids.contains_key(row.file_index);
    let id = row_source(w, row);
    let sources = if known || path_index(w.sources, row.path@) >= 0 {
        w.sources
    } else {
        w.sources.push(row.path@)
    };
    let ids = if known {
        w.ids
    } else {
        w.ids.insert(row.file_index, id as usize)
    };
    let loc = DebugLoc {
        address: (code_content as u64).wrapping_add(row.address),
        source_id: low32(id),
        line: low32(row.line as int),
        column: low32(row.column as int),
    };
    let locs = w.locations.push(loc);
    if row.end_sequence {
        let kept = if is_dead_block(locs[w.block_start].address, loc.address, code_content) {
            locs.take(w.block_start)
        } else {
            locs
        };
        Walk { sources, locations: kept, ids, block_start: kept.len() as int }
    } else {
        Walk { sources, locations: locs, ids, block_start: w.block_start }
    }
}

/// The effect of a run of rows.
pub open spec fn walk_rows(w: Walk, rows: Seq<LineRow>, code_content: usize) -> Walk
    decreases rows.len(),
{
    if rows.len() == 0 {
        w
    } else {
        walk_row(walk_rows(w, rows.drop_last(), code_content), rows.last(), code_content)
    }
}

/// The walk over the rows of all compilation units, in order; each unit
/// numbers its files afresh.
pub open spec fn walk_units(units: Seq<Seq<LineRow>>, code_content: usize) -> Walk
    decreases units.len(),
{
    if units.len() == 0 {
        Walk { sources: seq![], locations: seq![], ids: Map::empty(), block_start: 0 }
    } else {
        let w = walk_units(units.drop_last(), code_content);
        walk_rows(
            Walk { ids: Map::empty(), block_start: w.locations.len() as int, ..w },
            units.last(),
            code_content,
        )
    }
}

/// Whether the locations are ordered by address.
pub open spec fn sorted_by_address(s: Seq<DebugLoc>) -> bool {
    forall|i: int, j: int| 0 <= i < j < s.len() ==> s[i].address <= s[j].address
}

/// The position after the last element of `s` whose address is at most `a`
/// and before which no element is greater, searching from the end.
pub open spec fn upper_bound(s: Seq<DebugLoc>, a: u64) -> int
    decreases s.len(),
{
    if s.len() == 0 {
        0
    } else if s.last().address <= a {
        s.len() as int
    } else {
        upper_bound(s.drop_last(), a)
    }
}

/// `s` ordered by address; locations with equal addresses keep their order.
pub open spec fn sort_by_address(s: Seq<DebugLoc>) -> Seq<DebugLoc>
    decreases s.len(),
{
    if s.len() == 0 {
        s
    } else {
        let t = sort_by_address(s.drop_last());
        t.insert(upper_bound(t, s.last().address), s.last())
    }
}

proof fn lemma_upper_bound(s: Seq<DebugLoc>, a: u64)
    requires
        sorted_by_address(s),
    ensures
        0 <= upper_bound(s, a) <= s.len(),
        forall|i: int| 0 <= i < upper_bound(s, a) ==> s[i].address <= a,
        forall|i: int| upper_bound(s, a) <= i < s.len() ==> s[i].address > a,
    decreases s.len(),
{
    if s.len() > 0 {
        let d = s.drop_last();
        assert(sorted_by_address(d)) by {
            assert forall|i: int, j: int| 0 <= i < j < d.len() implies d[i].address <= d[j].address by {
                assert(d[i] == s[i] && d[j] == s[j]);
            }
        }
        lemma_upper_bound(d, a);
        if s.last().address <= a {
            assert forall|i: int| 0 <= i < s.len() implies s[i].address <= a by {
                if i < s.len() - 1 {
                    assert(s[i].address <= s[s.len() - 1].address);
                }
            }
        } else {
            assert forall|i: int| 0 <= i < upper_bound(s, a) implies s[i].address <= a by {
                assert(s[i] == d[i]);
            }
            assert forall|i: int| upper_bound(s, a) <= i < s.len() implies s[i].address > a by {
                if i < s.len() - 1 {
                    assert(s[i] == d[i]);
                }
            }
        }
    }
}

proof fn lemma_sort_by_address(s: Seq<DebugLoc>)
    ensures
        sorted_by_address(sort_by_address(s)),
        sort_by_address(s).len() == s.len(),
        forall|i: int| 0 <= i < s.len() ==> exists|j: int| 0 <= j < s.len() && #[trigger] sort_by_address(s)[i] == s[j],
    decreases s.len(),
{
    if s.len() > 0 {
        let t = sort_by_address(s.drop_last());
        lemma_sort_by_address(s.drop_last());
        lemma_upper_bound(t, s.last().address);
        let u = t.insert(upper_bound(t, s.last().address), s.last());
        let k = upper_bound(t, s.last().address);
        assert forall|i: int| 0 <= i < s.len() implies exists|j: int| 0 <= j < s.len() && #[trigger] u[i] == s[j] by {
            if i == k {
                assert(u[i] == s[s.len() - 1]);
            } else if i < k {
                assert(u[i] == t[i]);
                let j = choose|j: int| 0 <= j < s.len() - 1 && t[i] == s.drop_last()[j];
                assert(u[i] == s[j]);
            } else {
                assert(u[i] == t[i - 1]);
                let j = choose|j: int| 0 <= j < s.len() - 1 && t[i - 1] == s.drop_last()[j];
                assert(u[i] == s[j]);
            }
        }
        assert forall|i: int, j: int| 0 <= i < j < u.len() implies u[i].address <= u[j].address by {
            if j < k {
                assert(u[i] == t[i] && u[j] == t[j]);
            } else if j == k {
                assert(u[i] == t[i]);
            } else if i < k {
                assert(u[i] == t[i] && u[j] == t[j - 1]);
            } else if i == k {
                assert(u[j] == t[j - 1]);
            } else {
                assert(u[i] == t[i - 1] && u[j] == t[j - 1]);
            }
        }
    }
}

/// Orders locations by address, keeping the order of equal addresses.
fn sort_locations(locs: &Vec<DebugLoc>) -> (r: Vec<DebugLoc>)
    ensures
        r@ == sort_by_address(locs@),
{
    let mut r: Vec<DebugLoc> = Vec::new();
    let mut i: usize = 0;
    while i < locs.len()
        invariant
            i <= locs@.len(),
            r@ == sort_by_address(locs@.take(i as int)),
        decreases locs.len() - i,
    {
        let x = locs[i];
        assert(locs@.take(i + 1).drop_last() =~= locs@.take(i as int));
        let mut j: usize = r.len();
        assert(r@.take(j as int) =~= r@);
        while j > 0 && r[j - 1].address > x.address
            invariant
                j <= r@.len(),
                upper_bound(r@, x.address) == upper_bound(r@.take(j as int), x.address),
            decreases j,
        {
            assert(r@.take(j as int).drop_last() =~= r@.take(j - 1));
            j = j - 1;
        }
        proof {
            if j > 0 {
                assert(r@.take(j as int).last() == r@[j - 1]);
            }
        }
        r.insert(j, x);
        i = i + 1;
    }
    assert(locs@.take(i as int) =~= locs@);
    r
}

/// The rows of each compilation unit, as sequences.
pub open spec fn units_view(units: Seq<Vec<LineRow>>) -> Seq<Seq<LineRow>> {
    units.map_values(|u: Vec<LineRow>| u@)
}

/// The paths of `sources`.
pub open spec fn paths_view(sources: Seq<String>) -> Seq<Seq<char>> {
    sources.map_values(|s: String| s@)
}

/// Every location and every file of the current unit names a listed source,
/// and the current sequence starts within the locations.
pub open spec fn walk_consistent(w: Walk) -> bool {
    &&& forall|i: int| 0 <= i < w.locations.len() ==> (#[trigger] w.locations[i].source_id as int) < w.sources.len()
    &&& forall|k: u64| #[trigger] w.ids.contains_key(k) ==> (w.ids[k] as int) < w.sources.len()
    &&& 0 <= w.block_start <= w.locations.len()
    &&& sources_unique(w.sources)
}

/// No two sources have the same path.
pub open spec fn sources_unique(s: Seq<Seq<char>>) -> bool {
    forall|i: int, j: int| 0 <= i < j < s.len() ==> s[i] != s[j]
}

proof fn lemma_path_index_range(s: Seq<Seq<char>>, p: Seq<char>)
    ensures
        -1 <= path_index(s, p) < s.len(),
        path_index(s, p) >= 0 ==> s[path_index(s, p)] == p,
        path_index(s, p) < 0 ==> forall|i: int| 0 <= i < s.len() ==> s[i] != p,
    decreases s.len(),
{
    if s.len() > 0 {
        lemma_path_index_range(s.drop_last(), p);
        if path_index(s, p) < 0 {
            assert forall|i: int| 0 <= i < s.len() implies s[i] != p by {
                if i < s.len() - 1 {
                    assert(s.drop_last()[i] == s[i]);
                }
            }
        }
    }
}

proof fn lemma_path_index_prefix(s: Seq<Seq<char>>, p: Seq<char>, m: int)
    requires
        0 <= m <= s.len(),
        path_index(s.take(m), p) >= 0,
    ensures
        path_index(s, p) == path_index(s.take(m), p),
    decreases s.len(),
{
    if m < s.len() {
        assert(s.drop_last().take(m) =~= s.take(m));
        lemma_path_index_prefix(s.drop_last(), p, m);
    } else {
        assert(s.take(m) =~= s);
    }
}

/// The position of the source with path `p`.
fn find_path(sources: &Vec<String>, p: &String) -> (r: Option<usize>)
    ensures
        match r {
            Some(i) => path_index(paths_view(sources@), p@) == i as int,
            None => path_index(paths_view(sources@), p@) == -1,
        },
{
    let ghost s = paths_view(sources@);
    let mut k: usize = 0;
    while k < sources.len()
        invariant
            s == paths_view(sources@),
            k <= sources@.len(),
            path_index(s.take(k as int), p@) == -1,
        decreases sources.len() - k,
    {
        assert(s.take(k + 1).drop_last() =~= s.take(k as int));
        if sources[k] == *p {
            assert(path_index(s.take(k + 1), p@) == k);
            proof {
                lemma_path_index_prefix(s, p@, k + 1);
            }
            return Some(k);
        }
        k = k + 1;
    }
    assert(s.take(k as int) =~= s);
    None
}

proof fn lemma_walk_row_consistent(w: Walk, row: LineRow, code_content: usize)
    requires
        walk_consistent(w),
    ensures
        walk_consistent(walk_row(w, row, code_content)),
{
    let w2 = walk_row(w, row, code_content);
    let id = row_source(w, row);
    lemma_path_index_range(w.sources, row.path@);
    assert(low32(id) as int <= id);
    assert(sources_unique(w2.sources)) by {
        if w2.sources.len() > w.sources.len() {
            assert forall|i: int, j: int| 0 <= i < j < w2.sources.len() implies w2.sources[i] != w2.sources[j] by {
                if j < w.sources.len() {
                    assert(w2.sources[i] == w.sources[i] && w2.sources[j] == w.sources[j]);
                } else {
                    assert(w2.sources[i] == w.sources[i]);
                }
            }
        }
    }
    assert forall|i: int| 0 <= i < w2.locations.len() implies (#[trigger] w2.locations[i].source_id as int) < w2.sources.len() by {
        if i < w.locations.len() {
            assert(w2.locations[i] == w.locations[i]);
        }
    }
}

proof fn lemma_walk_rows_consistent(w: Walk, rows: Seq<LineRow>, code_content: usize)
    requires
        walk_consistent(w),
    ensures
        walk_consistent(walk_rows(w, rows, code_content)),
    decreases rows.len(),
{
    if rows.len() > 0 {
        lemma_walk_rows_consistent(w, rows.drop_last(), code_content);
        lemma_walk_row_consistent(walk_rows(w, rows.drop_last(), code_content), rows.last(), code_content);
    }
}

proof fn lemma_walk_units_consistent(units: Seq<Seq<LineRow>>, code_content: usize)
    ensures
        walk_consistent(walk_units(units, code_content)),
    decreases units.len(),
{
    if units.len() > 0 {
        lemma_walk_units_consistent(units.drop_last(), code_content);
        let w = walk_units(units.drop_last(), code_content);
        lemma_walk_rows_consistent(
            Walk { ids: Map::empty(), block_start: w.locations.len() as int, ..w },
            units.last(),
            code_content,
        );
    }
}

/// The LEB128 length of a function's size field, estimated from its size.
fn fn_size_field_len(fn_size: i128) -> (r: i128)
    requires
        -0x1_0000_0000_0000_0000 <= fn_size <= 0x1_0000_0000_0000_0000,
    ensures
        r == size_field_len(fn_size as int),
        0 <= r <= 0x1_0000_0000_0000_0000,
{
    let mut v: i128 = fn_size + 1;
    let mut k: i128 = 0;
    while v > 1
        invariant
            -0x1_0000_0000_0000_0000 <= fn_size <= 0x1_0000_0000_0000_0000,
            0 <= k,
            k + v <= fn_size + 2,
            k == 0 || v >= 1,
            v <= fn_size + 1,
            ceil_log2(fn_size + 1) == k + ceil_log2(v as int),
        decreases v,
    {
        v = (v + 1) / 2;
        k = k + 1;
    }
    (k + 6) / 7
}

/// Reads the line-number rows of each compilation unit, in order, and gives
/// the source files they name and their locations ordered by address.
/// Addresses are offset by `code_content`, the start of the code in the file.
/// Each unit numbers its own files: a file index names, in each unit, the
/// source of that unit's first row with it. Sources are listed once each: a
/// path already listed keeps its position. A sequence of rows that starts
/// no further into the code than the length of a size field for its span
/// belongs to a function the linker discarded, and is dropped.
pub fn get_debug_loc(code_content: usize, units: &Vec<Vec<LineRow>>) -> (info: DebugLocInfo)
    ensures
        paths_view(info.sources@) == walk_units(units_view(units@), code_content).sources,
        info.locations@ == sort_by_address(walk_units(units_view(units@), code_content).locations),
        info.sources_content is None,
        sorted_by_address(info.locations@),
        forall|i: int| 0 <= i < info.locations@.len() ==> (#[trigger] info.locations@[i].source_id as int) < info.sources@.len(),
        forall|i: int, j: int| 0 <= i < j < info.sources@.len() ==> info.sources@[i]@ != info.sources@[j]@,
{
    let ghost us = units_view(units@);
    let mut sources: Vec<String> = Vec::new();
    let mut locations: Vec<DebugLoc> = Vec::new();
    let mut u: usize = 0;
    assert(paths_view(sources@) =~= seq![]);
    while u < units.len()
        invariant
            u <= units@.len(),
            us == units_view(units@),
            paths_view(sources@) == walk_units(us.take(u as int), code_content).sources,
            locations@ == walk_units(us.take(u as int), code_content).locations,
        decreases units.len() - u,
    {
        assert(us.take(u + 1).drop_last() =~= us.take(u as int));
        let ghost w0 = walk_units(us.take(u as int), code_content);
        let ghost start = Walk { ids: Map::empty(), block_start: w0.locations.len() as int, ..w0 };
        let rows = &units[u];
        assert(us.take(u + 1).last() == rows@);
        let mut ids: HashMap<u64, usize> = HashMap::new();
        let mut block_start: usize = locations.len();
        let mut j: usize = 0;
        assert(rows@.take(0) =~= Seq::<LineRow>::empty());
        while j < rows.len()
            invariant
                j <= rows@.len(),
                walk_rows(start, rows@.take(j as int), code_content) == (Walk {
                    sources: paths_view(sources@),
                    locations: locations@,
                    ids: ids@,
                    block_start: block_start as int,
                }),
                block_start <= locations@.len(),
            decreases rows.len() - j,
        {
            assert(rows@.take(j + 1).drop_last() =~= rows@.take(j as int));
            let row = &rows[j];
            let id: usize = match ids.get(&row.file_index) {
                Some(id) => *id,
                None => {
                    let id = match find_path(&sources, &row.path) {
                        Some(listed) => listed,
                        None => {
                            let id = sources.len();
                            sources.push(row.path.clone());
                            id
                        },
                    };
                    ids.insert(row.file_index, id);
                    id
                },
            };
            let loc = DebugLoc {
                address: (code_content as u64).wrapping_add(row.address),
                source_id: (id as u64 % 0x1_0000_0000) as u32,
                line: (row.line % 0x1_0000_0000) as u32,
                column: (row.column % 0x1_0000_0000) as u32,
            };
            locations.push(loc);
            if row.end_sequence {
                let first = locations[block_start].address;
                let fn_size: i128 = loc.address as i128 - first as i128 + 1;
                let field_len = fn_size_field_len(fn_size);
                if first as i128 <= code_content as i128 + field_len {
                    locations.truncate(block_start);
                }
                block_start = locations.len();
            }
            proof {
                assert(paths_view(sources@) =~= walk_rows(start, rows@.take(j + 1), code_content).sources);
                assert(locations@ =~= walk_rows(start, rows@.take(j + 1), code_content).locations);
            }
            j = j + 1;
        }
        assert(rows@.take(j as int) =~= rows@);
        u = u + 1;
    }
    assert(us.take(u as int) =~= us);
    let sorted = sort_locations(&locations);
    proof {
        lemma_sort_by_address(locations@);
        lemma_walk_units_consistent(us, code_content);
        let w = walk_units(us, code_content);
        assert forall|i: int, j: int| 0 <= i < j < sources@.len() implies sources@[i]@ != sources@[j]@ by {
            assert(w.sources[i] == sources@[i]@ && w.sources[j] == sources@[j]@);
        }
        assert forall|i: int| 0 <= i < sorted@.len() implies (#[trigger] sorted@[i].source_id as int) < sources@.len() by {
            let k = choose|k: int| 0 <= k < locations@.len() && sorted@[i] == locations@[k];
            assert((w.locations[k].source_id as int) < w.sources.len());
        }
    }
    DebugLocInfo { sources, locations: sorted, sources_content: None }
}

} // verus!
