//! Applies the relocation tables of DWARF sections: reads the symbol table of
//! the `linking` section and patches 32-bit little-endian fixups in place.

use std::collections::HashMap;
use vstd::prelude::*;
use crate::error::Error;
use crate::leb::{leb_u32_at, read_var_u32};
use crate::sections::DebugSections;
use crate::tables::{entries_view, find_entry, key_index, lemma_key_index_range};

verus! {

broadcast use vstd::std_specs::hash::group_hash_axioms;

/// What a symbol of the symbol table refers to, where relocations need it.
#[derive(Clone, Copy, Debug, PartialEq, Eq, Structural)]
pub enum SymbolKind {
    /// A section, by its index.
    Section(u32),
    /// A place in a data segment: the segment's index and an offset in it.
    Data(u32, u32),
}

/// The symbol table of a `linking` section, by symbol index.
pub struct SymbolTable {
    /// The element index of each function symbol.
    pub func_indices: HashMap<u32, u32>,
    /// Each defined data symbol and each section symbol.
    pub symbols: HashMap<u32, SymbolKind>,
}

/// The contents of a symbol table.
pub struct Symbols {
    pub func_indices: Map<u32, u32>,
    pub symbols: Map<u32, SymbolKind>,
}

impl SymbolTable {
    pub open spec fn view(&self) -> Symbols {
        Symbols { func_indices: self.func_indices@, symbols: self.symbols@ }
    }
}

pub open spec fn no_symbols() -> Symbols {
    Symbols { func_indices: Map::empty(), symbols: Map::empty() }
}

/// The bounds of the length-prefixed byte string at `pos`.
pub open spec fn bytes_at(s: Seq<u8>, pos: int) -> Option<(int, int)> {
    match leb_u32_at(s, pos) {
        Some((n, p)) => if p + n <= s.len() {
            Some((p, p + n))
        } else {
            None
        },
        None => None,
    }
}

/// The position after a name that is present when `present` holds.
pub open spec fn skip_name(s: Seq<u8>, pos: int, present: bool) -> Option<int> {
    if present {
        match bytes_at(s, pos) {
            Some((_, e)) => Some(e),
            None => None,
        }
    } else {
        Some(pos)
    }
}

/// Whether symbol flags mark the symbol as defined in this module.
pub open spec fn is_defined(flags: u32) -> bool {
    flags & 0x10 == 0
}

/// Reads the body of a data symbol that starts at `pos`, after its kind and flags.
pub open spec fn read_data_symbol(s: Seq<u8>, pos: int, flags: u32, index: u32, acc: Symbols) -> Result<(Symbols, int), Error> {
    match bytes_at(s, pos) {
        None => Err(Error::ParseError),
        Some((_, p)) => if !is_defined(flags) {
            Ok((acc, p))
        } else {
            match leb_u32_at(s, p) {
                None => Err(Error::ParseError),
                Some((segment, n1)) => match leb_u32_at(s, n1) {
                    None => Err(Error::ParseError),
                    Some((offset, n2)) => match leb_u32_at(s, n2) {
                        None => Err(Error::ParseError),
                        Some((_, n3)) => Ok((
                            Symbols {
                                symbols: acc.symbols.insert(index, SymbolKind::Data(segment, offset)),
                                ..acc
                            },
                            n3,
                        )),
                    },
                },
            }
        },
    }
}

/// Reads the symbol numbered `index` at `pos` and records it in `acc`.
pub open spec fn read_symbol(s: Seq<u8>, pos: int, index: u32, acc: Symbols) -> Result<(Symbols, int), Error> {
    match leb_u32_at(s, pos) {
        None => Err(Error::ParseError),
        Some((kind, n1)) => match leb_u32_at(s, n1) {
            None => Err(Error::ParseError),
            Some((flags, n2)) => if kind == 0 {
                match leb_u32_at(s, n2) {
                    None => Err(Error::ParseError),
                    Some((elem, n3)) => match skip_name(s, n3, is_defined(flags)) {
                        None => Err(Error::ParseError),
                        Some(n4) => Ok((
                            Symbols { func_indices: acc.func_indices.insert(index, elem), ..acc },
                            n4,
                        )),
                    },
                }
            } else if kind == 1 {
                read_data_symbol(s, n2, flags, index, acc)
            } else if kind == 2 {
                match leb_u32_at(s, n2) {
                    None => Err(Error::ParseError),
                    Some((_, n3)) => match skip_name(s, n3, is_defined(flags)) {
                        None => Err(Error::ParseError),
                        Some(n4) => Ok((acc, n4)),
                    },
                }
            } else if kind == 3 {
                match leb_u32_at(s, n2) {
                    None => Err(Error::ParseError),
                    Some((section, n3)) => Ok((
                        Symbols {
                            symbols: acc.symbols.insert(index, SymbolKind::Section(section)),
                            ..acc
                        },
                        n3,
                    )),
                }
            } else {
                Err(Error::UnknownSymbolKind)
            },
        },
    }
}

/// Reads the symbols numbered `index` up to `count`, starting at `pos`.
pub open spec fn read_symbols(s: Seq<u8>, pos: int, index: nat, count: nat, acc: Symbols) -> Result<Symbols, Error>
    decreases count - index,
{
    if index >= count {
        Ok(acc)
    } else {
        match read_symbol(s, pos, index as u32, acc) {
            Err(e) => Err(e),
            Ok((acc2, p)) => read_symbols(s, p, index + 1, count, acc2),
        }
    }
}

/// Reads a symbol table subsection: a count and that many symbols.
pub open spec fn read_symbol_table(s: Seq<u8>, acc: Symbols) -> Result<Symbols, Error> {
    match leb_u32_at(s, 0) {
        None => Err(Error::ParseError),
        Some((count, p)) => read_symbols(s, p, 0, count as nat, acc),
    }
}

/// Reads the subsections of a `linking` section from `pos` to its end;
/// only symbol tables (code 8) are interpreted.
pub open spec fn read_subsections(s: Seq<u8>, pos: int, acc: Symbols) -> Result<Symbols, Error>
    decreases s.len() - pos,
{
    if pos >= s.len() || pos < 0 {
        Ok(acc)
    } else {
        match leb_u32_at(s, pos) {
            None => Err(Error::ParseError),
            Some((code, p)) => match bytes_at(s, p) {
                None => Err(Error::ParseError),
                Some((start, end)) => if end <= pos {
                    Err(Error::ParseError)
                } else if code == 8 {
                    match read_symbol_table(s.subrange(start, end), acc) {
                        Err(e) => Err(e),
                        Ok(acc2) => read_subsections(s, end, acc2),
                    }
                } else {
                    read_subsections(s, end, acc)
                },
            },
        }
    }
}

/// The symbol table of a `linking` section, which must have version 1.
pub open spec fn linking_symbols(s: Seq<u8>) -> Result<Symbols, Error> {
    match leb_u32_at(s, 0) {
        None => Err(Error::ParseError),
        Some((version, p)) => if version != 1 {
            Err(Error::UnsupportedLinkingVersion)
        } else {
            read_subsections(s, p, no_symbols())
        },
    }
}

fn read_u32(s: &[u8], pos: usize) -> (r: Result<(u32, usize), Error>)
    ensures
        match r {
            Ok((v, next)) => leb_u32_at(s@, pos as int) == Some((v, next as int)) && pos < next <= s@.len(),
            Err(e) => leb_u32_at(s@, pos as int) is None && e == Error::ParseError,
        },
{
    match read_var_u32(s, pos) {
        Some(r) => Ok(r),
        None => Err(Error::ParseError),
    }
}

fn read_bytes(s: &[u8], pos: usize) -> (r: Result<(usize, usize), Error>)
    ensures
        match r {
            Ok((a, b)) => bytes_at(s@, pos as int) == Some((a as int, b as int)) && pos < a <= b <= s@.len(),
            Err(e) => bytes_at(s@, pos as int) is None && e == Error::ParseError,
        },
{
    let (n, p) = read_u32(s, pos)?;
    if n as usize > s.len() - p {
        return Err(Error::ParseError);
    }
    Ok((p, p + n as usize))
}

fn skip_name_exec(s: &[u8], pos: usize, present: bool) -> (r: Result<usize, Error>)
    requires
        pos <= s@.len(),
    ensures
        match r {
            Ok(p) => skip_name(s@, pos as int, present) == Some(p as int) && pos <= p <= s@.len(),
            Err(e) => skip_name(s@, pos as int, present) is None && e == Error::ParseError,
        },
{
    if present {
        let (_, e) = read_bytes(s, pos)?;
        Ok(e)
    } else {
        Ok(pos)
    }
}

fn read_symbol_exec(s: &[u8], pos: usize, index: u32, table: &mut SymbolTable) -> (r: Result<usize, Error>)
    ensures
        match r {
            Ok(p) => read_symbol(s@, pos as int, index, old(table)@) == Ok::<(Symbols, int), Error>((final(table)@, p as int))
                && pos < p <= s@.len(),
            Err(e) => read_symbol(s@, pos as int, index, old(table)@) == Err::<(Symbols, int), Error>(e),
        },
{
    let (kind, n1) = read_u32(s, pos)?;
    let (flags, n2) = read_u32(s, n1)?;
    let defined = flags & 0x10 == 0;
    if kind == 0 {
        let (elem, n3) = read_u32(s, n2)?;
        let n4 = skip_name_exec(s, n3, defined)?;
        table.func_indices.insert(index, elem);
        Ok(n4)
    } else if kind == 1 {
        let (_, p) = read_bytes(s, n2)?;
        if !defined {
            return Ok(p);
        }
        let (segment, q1) = read_u32(s, p)?;
        let (offset, q2) = read_u32(s, q1)?;
        let (_, q3) = read_u32(s, q2)?;
        table.symbols.insert(index, SymbolKind::Data(segment, offset));
        Ok(q3)
    } else if kind == 2 {
        let (_, n3) = read_u32(s, n2)?;
        let n4 = skip_name_exec(s, n3, defined)?;
        Ok(n4)
    } else if kind == 3 {
        let (section, n3) = read_u32(s, n2)?;
        table.symbols.insert(index, SymbolKind::Section(section));
        Ok(n3)
    } else {
        Err(Error::UnknownSymbolKind)
    }
}

fn read_symbol_table_exec(s: &[u8], table: &mut SymbolTable) -> (r: Result<(), Error>)
    ensures
        match r {
            Ok(_) => read_symbol_table(s@, old(table)@) == Ok::<Symbols, Error>(final(table)@),
            Err(e) => read_symbol_table(s@, old(table)@) == Err::<Symbols, Error>(e),
        },
{
    let (count, mut pos) = read_u32(s, 0)?;
    let mut index: u32 = 0;
    while index < count
        invariant
            index <= count,
            pos <= s@.len(),
            read_symbol_table(s@, old(table)@) == read_symbols(s@, pos as int, index as nat, count as nat, table@),
        decreases count - index,
    {
        pos = read_symbol_exec(s, pos, index, table)?;
        index = index + 1;
    }
    Ok(())
}

/// Reads the symbol table of a `linking` section.
pub fn read_linking(s: &[u8]) -> (r: Result<SymbolTable, Error>)
    ensures
        match r {
            Ok(t) => linking_symbols(s@) == Ok::<Symbols, Error>(t@),
            Err(e) => linking_symbols(s@) == Err::<Symbols, Error>(e),
        },
{
    let (version, mut pos) = read_u32(s, 0)?;
    if version != 1 {
        return Err(Error::UnsupportedLinkingVersion);
    }
    let mut table = SymbolTable { func_indices: HashMap::new(), symbols: HashMap::new() };
    assert(table@ == no_symbols());
    while pos < s.len()
        invariant
            pos <= s@.len(),
            linking_symbols(s@) == read_subsections(s@, pos as int, table@),
        decreases s.len() - pos,
    {
        let (code, p) = read_u32(s, pos)?;
        let (start, end) = read_bytes(s, p)?;
        if code == 8 {
            let sub = slice_range(s, start, end);
            read_symbol_table_exec(sub.as_slice(), &mut table)?;
        }
        pos = end;
    }
    Ok(table)
}

/// The four fields of the relocation entry at `pos` (type, fixup offset,
/// symbol index, addend) and the position after it.
pub open spec fn read_entry(r: Seq<u8>, pos: int) -> Option<(u32, u32, u32, u32, int)> {
    match leb_u32_at(r, pos) {
        None => None,
        Some((ty, n1)) => match leb_u32_at(r, n1) {
            None => None,
            Some((fixup, n2)) => match leb_u32_at(r, n2) {
                None => None,
                Some((index, n3)) => match leb_u32_at(r, n3) {
                    None => None,
                    Some((addend, n4)) => Some((ty, fixup, index, addend, n4)),
                },
            },
        },
    }
}

/// Where a relocation of type `ty` against symbol `index` points, before its addend:
/// a place in a data segment (5), the start of a function's body (8) or a section (9).
pub open spec fn target_offset(ty: u32, index: u32, syms: Symbols, func_offsets: Seq<usize>, data_offsets: Seq<u32>) -> Result<u32, Error> {
    if ty == 5 {
        if syms.symbols.contains_key(index) {
            match syms.symbols[index] {
                SymbolKind::Data(segment, offset) => if segment < data_offsets.len() {
                    Ok(data_offsets[segment as int].wrapping_add(offset))
                } else {
                    Err(Error::BadRelocation)
                },
                SymbolKind::Section(_) => Err(Error::SymbolKindMismatch),
            }
        } else {
            Err(Error::SymbolKindMismatch)
        }
    } else if ty == 8 {
        if syms.func_indices.contains_key(index) && syms.func_indices[index] < func_offsets.len() {
            Ok(func_offsets[syms.func_indices[index] as int] as u32)
        } else {
            Err(Error::BadRelocation)
        }
    } else if ty == 9 {
        Ok(0)
    } else {
        Err(Error::UnknownRelocType)
    }
}

/// `t` with `v` written little-endian into the four bytes at `off`.
pub open spec fn write_u32_le(t: Seq<u8>, off: int, v: u32) -> Seq<u8> {
    t.update(off, (v % 256) as u8)
        .update(off + 1, (v / 256 % 256) as u8)
        .update(off + 2, (v / 65536 % 256) as u8)
        .update(off + 3, (v / 16777216) as u8)
}

/// Applies the entries numbered `index` up to `count` of a relocation table,
/// starting at `pos`, to the section bytes `t`.
pub open spec fn apply_entries(r: Seq<u8>, pos: int, index: nat, count: nat, t: Seq<u8>, syms: Symbols, func_offsets: Seq<usize>, data_offsets: Seq<u32>) -> Result<Seq<u8>, Error>
    decreases count - index,
{
    if index >= count {
        Ok(t)
    } else {
        match read_entry(r, pos) {
            None => Err(Error::ParseError),
            Some((ty, fixup, sym, addend, p)) => match target_offset(ty, sym, syms, func_offsets, data_offsets) {
                Err(e) => Err(e),
                Ok(target) => if fixup as int + 4 > t.len() {
                    Err(Error::BadRelocation)
                } else {
                    apply_entries(
                        r,
                        p,
                        index + 1,
                        count,
                        write_u32_le(t, fixup as int, target.wrapping_add(addend)),
                        syms,
                        func_offsets,
                        data_offsets,
                    )
                },
            },
        }
    }
}

/// The header of a relocation table: the entry count and where the entries start.
pub open spec fn reloc_header(r: Seq<u8>) -> Option<(u32, int)> {
    match leb_u32_at(r, 0) {
        None => None,
        Some((_, p)) => leb_u32_at(r, p),
    }
}

/// The number of entries a relocation table declares.
pub open spec fn entry_count(r: Seq<u8>) -> u32 {
    match reloc_header(r) {
        Some((count, _)) => count,
        None => 0,
    }
}

/// The section a relocation table patches: its name without `reloc.`.
pub open spec fn fixup_target(name: Seq<u8>) -> Seq<u8> {
    if name.len() >= 6 {
        name.subrange(6, name.len() as int)
    } else {
        seq![]
    }
}

/// The DWARF sections after applying the relocation table `r` named `name`.
pub open spec fn apply_reloc_table(name: Seq<u8>, r: Seq<u8>, tables: Seq<(Seq<u8>, Seq<u8>)>, syms: Symbols, func_offsets: Seq<usize>, data_offsets: Seq<u32>) -> Result<Seq<(Seq<u8>, Seq<u8>)>, Error> {
    match reloc_header(r) {
        None => Err(Error::ParseError),
        Some((count, p)) => if count == 0 {
            Ok(tables)
        } else {
            let i = key_index(tables, fixup_target(name));
            if i < 0 {
                Err(Error::BadRelocation)
            } else {
                match apply_entries(r, p, 0, count as nat, tables[i].1, syms, func_offsets, data_offsets) {
                    Err(e) => Err(e),
                    Ok(t) => Ok(tables.update(i, (tables[i].0, t))),
                }
            }
        },
    }
}

/// The DWARF sections after applying the relocation tables `rts` in order.
pub open spec fn apply_reloc_tables(rts: Seq<(Seq<u8>, Seq<u8>)>, tables: Seq<(Seq<u8>, Seq<u8>)>, syms: Symbols, func_offsets: Seq<usize>, data_offsets: Seq<u32>) -> Result<Seq<(Seq<u8>, Seq<u8>)>, Error>
    decreases rts.len(),
{
    if rts.len() == 0 {
        Ok(tables)
    } else {
        match apply_reloc_tables(rts.drop_last(), tables, syms, func_offsets, data_offsets) {
            Err(e) => Err(e),
            Ok(t) => apply_reloc_table(rts.last().0, rts.last().1, t, syms, func_offsets, data_offsets),
        }
    }
}

/// The DWARF sections of `ds` with all its relocations applied.
pub open spec fn relocated(ds: DebugSections) -> Result<Seq<(Seq<u8>, Seq<u8>)>, Error> {
    match ds.linking {
        None => Err(Error::MissingLinking),
        Some(l) => match linking_symbols(l@) {
            Err(e) => Err(e),
            Ok(syms) => apply_reloc_tables(
                entries_view(ds.reloc_tables@),
                entries_view(ds.tables@),
                syms,
                ds.func_offsets@,
                ds.data_segment_offsets@,
            ),
        },
    }
}

/// The same names, in the same order, with sections of the same lengths.
pub open spec fn same_shape(a: Seq<(Seq<u8>, Seq<u8>)>, b: Seq<(Seq<u8>, Seq<u8>)>) -> bool {
    &&& a.len() == b.len()
    &&& forall|i: int| #![trigger a[i]] 0 <= i < a.len() ==> a[i].0 == b[i].0 && a[i].1.len() == b[i].1.len()
}

proof fn lemma_apply_entries_len(r: Seq<u8>, pos: int, index: nat, count: nat, t: Seq<u8>, syms: Symbols, func_offsets: Seq<usize>, data_offsets: Seq<u32>)
    ensures
        match apply_entries(r, pos, index, count, t, syms, func_offsets, data_offsets) {
            Ok(t2) => t2.len() == t.len(),
            Err(_) => true,
        },
    decreases count - index,
{
    if index < count {
        match read_entry(r, pos) {
            None => {},
            Some((ty, fixup, sym, addend, p)) => match target_offset(ty, sym, syms, func_offsets, data_offsets) {
                Err(e) => {},
                Ok(target) => if fixup as int + 4 <= t.len() {
                    lemma_apply_entries_len(
                        r,
                        p,
                        index + 1,
                        count,
                        write_u32_le(t, fixup as int, target.wrapping_add(addend)),
                        syms,
                        func_offsets,
                        data_offsets,
                    );
                },
            },
        }
    }
}

/// The fixup offsets of the relocation entries numbered `index` up to `count`,
/// starting at `pos`, as far as they can be read.
pub open spec fn fixup_offsets(r: Seq<u8>, pos: int, index: nat, count: nat) -> Seq<u32>
    decreases count - index,
{
    if index >= count {
        seq![]
    } else {
        match read_entry(r, pos) {
            None => seq![],
            Some((_, fixup, _, _, p)) => seq![fixup] + fixup_offsets(r, p, index + 1, count),
        }
    }
}

/// Whether byte `k` lies in one of the four-byte slots at `offsets`.
pub open spec fn in_slots(offsets: Seq<u32>, k: int) -> bool {
    exists|j: int| 0 <= j < offsets.len() && #[trigger] offsets[j] <= k < offsets[j] + 4
}

/// Applying relocation entries that are all accepted writes one four-byte
/// fixup per entry, `count - index` of them, and keeps the section's length
/// and every byte outside those fixups.
pub proof fn lemma_relocation_fixups(r: Seq<u8>, pos: int, index: nat, count: nat, t: Seq<u8>, syms: Symbols, func_offsets: Seq<usize>, data_offsets: Seq<u32>)
    requires
        apply_entries(r, pos, index, count, t, syms, func_offsets, data_offsets) is Ok,
    ensures
        ({
            let t2 = apply_entries(r, pos, index, count, t, syms, func_offsets, data_offsets)->Ok_0;
            let offsets = fixup_offsets(r, pos, index, count);
            &&& t2.len() == t.len()
            &&& index <= count ==> offsets.len() == count - index
            &&& forall|j: int| 0 <= j < offsets.len() ==> #[trigger] offsets[j] + 4 <= t.len()
            &&& forall|k: int| 0 <= k < t.len() && !in_slots(offsets, k) ==> #[trigger] t2[k] == t[k]
        }),
    decreases count - index,
{
    lemma_apply_entries_len(r, pos, index, count, t, syms, func_offsets, data_offsets);
    if index < count {
        let (ty, fixup, sym, addend, p) = read_entry(r, pos)->Some_0;
        let target = target_offset(ty, sym, syms, func_offsets, data_offsets)->Ok_0;
        let t1 = write_u32_le(t, fixup as int, target.wrapping_add(addend));
        lemma_relocation_fixups(r, p, index + 1, count, t1, syms, func_offsets, data_offsets);
        let t2 = apply_entries(r, pos, index, count, t, syms, func_offsets, data_offsets)->Ok_0;
        let offsets = fixup_offsets(r, pos, index, count);
        let rest = fixup_offsets(r, p, index + 1, count);
        assert(offsets == seq![fixup] + rest);
        assert forall|j: int| 0 <= j < offsets.len() implies #[trigger] offsets[j] + 4 <= t.len() by {
            if j > 0 {
                assert(offsets[j] == rest[j - 1]);
            }
        }
        assert forall|k: int| 0 <= k < t.len() && !in_slots(offsets, k) implies #[trigger] t2[k] == t[k] by {
            assert(!(offsets[0] <= k < offsets[0] + 4));
            if in_slots(rest, k) {
                let j = choose|j: int| 0 <= j < rest.len() && #[trigger] rest[j] <= k < rest[j] + 4;
                assert(offsets[j + 1] == rest[j]);
            }
            assert(t1[k] == t[k]);
        }
    }
}

fn target_offset_exec(ty: u32, index: u32, syms: &SymbolTable, func_offsets: &Vec<usize>, data_offsets: &Vec<u32>) -> (r: Result<u32, Error>)
    ensures
        r == target_offset(ty, index, syms@, func_offsets@, data_offsets@),
{
    if ty == 5 {
        match syms.symbols.get(&index) {
            Some(kind) => match *kind {
                SymbolKind::Data(segment, offset) => {
                    if (segment as usize) < data_offsets.len() {
                        Ok(data_offsets[segment as usize].wrapping_add(offset))
                    } else {
                        Err(Error::BadRelocation)
                    }
                },
                SymbolKind::Section(_) => Err(Error::SymbolKindMismatch),
            },
            None => Err(Error::SymbolKindMismatch),
        }
    } else if ty == 8 {
        match syms.func_indices.get(&index) {
            Some(f) => {
                if (*f as usize) < func_offsets.len() {
                    Ok(func_offsets[*f as usize] as u32)
                } else {
                    Err(Error::BadRelocation)
                }
            },
            None => Err(Error::BadRelocation),
        }
    } else if ty == 9 {
        Ok(0)
    } else {
        Err(Error::UnknownRelocType)
    }
}

fn read_entry_exec(r: &[u8], pos: usize) -> (res: Result<(u32, u32, u32, u32, usize), Error>)
    ensures
        match res {
            Ok((a, b, c, d, p)) => read_entry(r@, pos as int) == Some((a, b, c, d, p as int)) && pos < p <= r@.len(),
            Err(e) => read_entry(r@, pos as int) is None && e == Error::ParseError,
        },
{
    let (ty, q1) = read_u32(r, pos)?;
    let (fixup, q2) = read_u32(r, q1)?;
    let (sym, q3) = read_u32(r, q2)?;
    let (addend, q4) = read_u32(r, q3)?;
    Ok((ty, fixup, sym, addend, q4))
}

fn write_u32_le_exec(t: &mut Vec<u8>, off: usize, v: u32)
    requires
        off + 4 <= old(t)@.len(),
    ensures
        final(t)@ == write_u32_le(old(t)@, off as int, v),
{
    let n = t.len();
    assert(off + 4 <= n);
    let (o1, o2, o3) = (off + 1, off + 2, off + 3);
    t[off] = (v % 256) as u8;
    t[o1] = (v / 256 % 256) as u8;
    t[o2] = (v / 65536 % 256) as u8;
    t[o3] = (v / 16777216) as u8;
}

/// Applies one relocation table to the section it names; gives the number of
/// fixups it declares. On failure the sections are left as they were.
fn apply_reloc_table_exec(name: &[u8], r: &[u8], tables: &mut Vec<(Vec<u8>, Vec<u8>)>, syms: &SymbolTable, func_offsets: &Vec<usize>, data_offsets: &Vec<u32>) -> (res: Result<u32, Error>)
    ensures
        match res {
            Ok(c) => apply_reloc_table(name@, r@, entries_view(old(tables)@), syms@, func_offsets@, data_offsets@)
                == Ok::<Seq<(Seq<u8>, Seq<u8>)>, Error>(entries_view(final(tables)@)) && c == entry_count(r@),
            Err(e) => apply_reloc_table(name@, r@, entries_view(old(tables)@), syms@, func_offsets@, data_offsets@)
                == Err::<Seq<(Seq<u8>, Seq<u8>)>, Error>(e) && final(tables)@ == old(tables)@,
        },
{
    let (_, p) = read_u32(r, 0)?;
    let (count, mut pos) = read_u32(r, p)?;
    if count == 0 {
        return Ok(0);
    }
    let target = if name.len() >= 6 {
        slice_range(name, 6, name.len())
    } else {
        Vec::new()
    };
    assert(target@ =~= fixup_target(name@));
    let ti = match find_entry(tables, target.as_slice()) {
        Some(ti) => ti,
        None => {
            return Err(Error::BadRelocation);
        },
    };
    proof {
        lemma_key_index_range(entries_view(tables@), target@);
    }
    let mut bytes = slice_range(tables[ti].1.as_slice(), 0, tables[ti].1.len());
    let ghost t0 = bytes@;
    let ghost start = pos;
    assert(t0 =~= entries_view(tables@)[ti as int].1);
    let ghost whole = apply_reloc_table(name@, r@, entries_view(old(tables)@), syms@, func_offsets@, data_offsets@);
    assert(whole == match apply_entries(r@, start as int, 0, count as nat, t0, syms@, func_offsets@, data_offsets@) {
        Err(e) => Err(e),
        Ok(t) => Ok(entries_view(old(tables)@).update(ti as int, (entries_view(old(tables)@)[ti as int].0, t))),
    });
    let mut k: u32 = 0;
    while k < count
        invariant
            k <= count,
            pos <= r@.len(),
            reloc_header(r@) == Some((count, start as int)),
            tables@ == old(tables)@,
            ti < old(tables)@.len(),
            whole == apply_reloc_table(name@, r@, entries_view(old(tables)@), syms@, func_offsets@, data_offsets@),
            whole == match apply_entries(r@, start as int, 0, count as nat, t0, syms@, func_offsets@, data_offsets@) {
                Err(e) => Err(e),
                Ok(t) => Ok(entries_view(old(tables)@).update(ti as int, (entries_view(old(tables)@)[ti as int].0, t))),
            },
            apply_entries(r@, start as int, 0, count as nat, t0, syms@, func_offsets@, data_offsets@)
                == apply_entries(r@, pos as int, k as nat, count as nat, bytes@, syms@, func_offsets@, data_offsets@),
        decreases count - k,
    {
        let (ty, fixup, sym, addend, q4) = read_entry_exec(r, pos)?;
        let target_offset = target_offset_exec(ty, sym, syms, func_offsets, data_offsets)?;
        if bytes.len() < 4 || fixup as usize > bytes.len() - 4 {
            return Err(Error::BadRelocation);
        }
        write_u32_le_exec(&mut bytes, fixup as usize, target_offset.wrapping_add(addend));
        pos = q4;
        k = k + 1;
    }
    let ghost before = entries_view(tables@);
    let (key, _) = tables.remove(ti);
    tables.insert(ti, (key, bytes));
    assert(entries_view(tables@) =~= before.update(ti as int, (before[ti as int].0, bytes@)));
    Ok(count)
}

/// Applies the relocation tables of `debug_sections` to its DWARF sections,
/// resolving symbols through the symbol table of its `linking` section.
/// Gives, for each relocation table in order, the number of fixups it declares.
/// Only the DWARF sections change, and none changes its name or its length.
pub fn reloc(debug_sections: &mut DebugSections) -> (r: Result<Vec<u32>, Error>)
    ensures
        final(debug_sections).reloc_tables == old(debug_sections).reloc_tables,
        final(debug_sections).tables_index == old(debug_sections).tables_index,
        final(debug_sections).linking == old(debug_sections).linking,
        final(debug_sections).code_content == old(debug_sections).code_content,
        final(debug_sections).func_offsets == old(debug_sections).func_offsets,
        final(debug_sections).data_segment_offsets == old(debug_sections).data_segment_offsets,
        same_shape(entries_view(final(debug_sections).tables@), entries_view(old(debug_sections).tables@)),
        match old(debug_sections).linking {
            None => final(debug_sections).tables == old(debug_sections).tables,
            Some(l) => linking_symbols(l@) is Err ==> final(debug_sections).tables == old(debug_sections).tables,
        },
        match r {
            Ok(counts) => relocated(*old(debug_sections)) == Ok::<Seq<(Seq<u8>, Seq<u8>)>, Error>(
                entries_view(final(debug_sections).tables@),
            ) && counts@ == entries_view(old(debug_sections).reloc_tables@).map_values(
                |e: (Seq<u8>, Seq<u8>)| entry_count(e.1),
            ),
            Err(e) => relocated(*old(debug_sections)) == Err::<Seq<(Seq<u8>, Seq<u8>)>, Error>(e),
        },
{
    let syms = match &debug_sections.linking {
        None => {
            return Err(Error::MissingLinking);
        },
        Some(l) => read_linking(l.as_slice())?,
    };
    let ghost rts = entries_view(debug_sections.reloc_tables@);
    let ghost t0 = entries_view(debug_sections.tables@);
    let mut counts: Vec<u32> = Vec::new();
    let mut i: usize = 0;
    while i < debug_sections.reloc_tables.len()
        invariant
            i <= rts.len(),
            rts == entries_view(debug_sections.reloc_tables@),
            debug_sections.reloc_tables == old(debug_sections).reloc_tables,
            debug_sections.tables_index == old(debug_sections).tables_index,
            debug_sections.linking == old(debug_sections).linking,
            debug_sections.code_content == old(debug_sections).code_content,
            debug_sections.func_offsets == old(debug_sections).func_offsets,
            debug_sections.data_segment_offsets == old(debug_sections).data_segment_offsets,
            t0 == entries_view(old(debug_sections).tables@),
            linking_symbols(old(debug_sections).linking.unwrap()@) == Ok::<Symbols, Error>(syms@),
            old(debug_sections).linking is Some,
            apply_reloc_tables(rts.take(i as int), t0, syms@, debug_sections.func_offsets@, debug_sections.data_segment_offsets@)
                == Ok::<Seq<(Seq<u8>, Seq<u8>)>, Error>(entries_view(debug_sections.tables@)),
            same_shape(entries_view(debug_sections.tables@), t0),
            counts@ == rts.take(i as int).map_values(|e: (Seq<u8>, Seq<u8>)| entry_count(e.1)),
        decreases rts.len() - i,
    {
        assert(rts.take(i + 1).drop_last() =~= rts.take(i as int));
        let ghost before = entries_view(debug_sections.tables@);
        let c = apply_reloc_table_exec(
            debug_sections.reloc_tables[i].0.as_slice(),
            debug_sections.reloc_tables[i].1.as_slice(),
            &mut debug_sections.tables,
            &syms,
            &debug_sections.func_offsets,
            &debug_sections.data_segment_offsets,
        );
        match c {
            Ok(c) => {
                proof {
                    lemma_reloc_table_shape(rts[i as int].0, rts[i as int].1, before, syms@, debug_sections.func_offsets@, debug_sections.data_segment_offsets@);
                    let now = entries_view(debug_sections.tables@);
                    assert forall|j: int| #![trigger now[j]] 0 <= j < now.len() implies now[j].0 == t0[j].0 && now[j].1.len() == t0[j].1.len() by {
                        assert(now[j].1.len() == before[j].1.len());
                        assert(before[j].1.len() == t0[j].1.len());
                    }
                }
                counts.push(c);
                assert(counts@ =~= rts.take(i + 1).map_values(|e: (Seq<u8>, Seq<u8>)| entry_count(e.1)));
            },
            Err(e) => {
                proof {
                    lemma_reloc_error_stays(rts, i as int + 1, t0, syms@, debug_sections.func_offsets@, debug_sections.data_segment_offsets@);
                    assert(rts.take(rts.len() as int) =~= rts);
                }
                return Err(e);
            },
        }
        i = i + 1;
    }
    assert(rts.take(i as int) =~= rts);
    Ok(counts)
}

proof fn lemma_reloc_table_shape(name: Seq<u8>, r: Seq<u8>, tables: Seq<(Seq<u8>, Seq<u8>)>, syms: Symbols, func_offsets: Seq<usize>, data_offsets: Seq<u32>)
    ensures
        match apply_reloc_table(name, r, tables, syms, func_offsets, data_offsets) {
            Ok(t) => same_shape(t, tables),
            Err(_) => true,
        },
{
    match reloc_header(r) {
        None => {},
        Some((count, p)) => if count != 0 {
            let i = key_index(tables, fixup_target(name));
            lemma_key_index_range(tables, fixup_target(name));
            if i >= 0 {
                lemma_apply_entries_len(r, p, 0, count as nat, tables[i].1, syms, func_offsets, data_offsets);
            }
        },
    }
}

proof fn lemma_reloc_error_stays(rts: Seq<(Seq<u8>, Seq<u8>)>, m: int, tables: Seq<(Seq<u8>, Seq<u8>)>, syms: Symbols, func_offsets: Seq<usize>, data_offsets: Seq<u32>)
    requires
        0 <= m <= rts.len(),
        apply_reloc_tables(rts.take(m), tables, syms, func_offsets, data_offsets) is Err,
    ensures
        apply_reloc_tables(rts, tables, syms, func_offsets, data_offsets)
            == apply_reloc_tables(rts.take(m), tables, syms, func_offsets, data_offsets),
    decreases rts.len(),
{
    if m < rts.len() {
        assert(rts.drop_last().take(m) =~= rts.take(m));
        lemma_reloc_error_stays(rts.drop_last(), m, tables, syms, func_offsets, data_offsets);
    } else {
        assert(rts.take(m) =~= rts);
    }
}

/// The bytes of `s` from `start` to `end`.
fn slice_range(s: &[u8], start: usize, end: usize) -> (r: Vec<u8>)
    requires
        start <= end <= s@.len(),
    ensures
        r@ == s@.subrange(start as int, end as int),
{
    let mut r: Vec<u8> = Vec::new();
    let mut i: usize = start;
    while i < end
        invariant
            start <= i <= end <= s@.len(),
            r@ == s@.subrange(start as int, i as int),
        decreases end - i,
    {
        r.push(s[i]);
        assert(r@ =~= s@.subrange(start as int, i + 1));
        i = i + 1;
    }
    r
}

} // verus!
