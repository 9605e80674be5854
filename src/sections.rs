//! Custom sections of a wasm module: which names carry debug data, and the
//! `sourceMappingURL` section that points a debugger at a source map.

use vstd::prelude::*;
use crate::leb::{convert_to_leb, leb128};
use vstd::string::StringSliceAdditionalSpecFns;
use crate::error::Error;
use crate::tables::{
    bytes_eq, entries_view, keys_unique, lemma_upsert_unique, starts_with_bytes, upsert,
    upsert_entry,
};

verus! {

/// `.debug_`, the prefix of the names of DWARF sections.
pub open spec fn debug_prefix() -> Seq<u8> {
    seq![46u8, 100, 101, 98, 117, 103, 95]
}

/// `reloc..debug_`, the prefix of the names of relocation tables for DWARF sections.
pub open spec fn reloc_debug_prefix() -> Seq<u8> {
    seq![114u8, 101, 108, 111, 99, 46, 46, 100, 101, 98, 117, 103, 95]
}

/// `linking`, the name of the linker's metadata section.
pub open spec fn linking_name() -> Seq<u8> {
    seq![108u8, 105, 110, 107, 105, 110, 103]
}

pub open spec fn is_debug_name(n: Seq<u8>) -> bool {
    n.len() >= 7 && n.take(7) == debug_prefix()
}

pub open spec fn is_reloc_debug_name(n: Seq<u8>) -> bool {
    n.len() >= 13 && n.take(13) == reloc_debug_prefix()
}

pub open spec fn is_linking_name(n: Seq<u8>) -> bool {
    n == linking_name()
}

pub open spec fn is_source_mapping_name(n: Seq<u8>) -> bool {
    n == source_mapping_name()
}

/// A custom section that a debug-stripped module leaves out.
pub open spec fn is_stripped_name(n: Seq<u8>) -> bool {
    is_debug_name(n) || is_reloc_debug_name(n) || is_linking_name(n)
}

/// Whether `name` names a relocation table for a DWARF section.
pub fn is_reloc_debug_section_name(name: &[u8]) -> (r: bool)
    ensures
        r == is_reloc_debug_name(name@),
{
    let p: Vec<u8> = vec![114u8, 101, 108, 111, 99, 46, 46, 100, 101, 98, 117, 103, 95];
    assert(p@ =~= reloc_debug_prefix());
    starts_with_bytes(name, p.as_slice())
}

/// Whether `name` names a DWARF section.
pub fn is_debug_section_name(name: &[u8]) -> (r: bool)
    ensures
        r == is_debug_name(name@),
{
    let p: Vec<u8> = vec![46u8, 100, 101, 98, 117, 103, 95];
    assert(p@ =~= debug_prefix());
    starts_with_bytes(name, p.as_slice())
}

/// Whether `name` is `linking`.
pub fn is_linking_section_name(name: &[u8]) -> (r: bool)
    ensures
        r == is_linking_name(name@),
{
    let p: Vec<u8> = vec![108u8, 105, 110, 107, 105, 110, 103];
    assert(p@ =~= linking_name());
    bytes_eq(name, p.as_slice())
}

/// Whether `name` is `sourceMappingURL`.
pub fn is_source_mapping_section_name(name: &[u8]) -> (r: bool)
    ensures
        r == is_source_mapping_name(name@),
{
    let p = source_mapping_name_bytes();
    bytes_eq(name, p.as_slice())
}

/// The bytes of the name `sourceMappingURL`.
pub open spec fn source_mapping_name() -> Seq<u8> {
    seq![115u8, 111, 117, 114, 99, 101, 77, 97, 112, 112, 105, 110, 103, 85, 82, 76]
}

fn source_mapping_name_bytes() -> (r: Vec<u8>)
    ensures
        r@ == source_mapping_name(),
{
    let r: Vec<u8> = vec![115u8, 111, 117, 114, 99, 101, 77, 97, 112, 112, 105, 110, 103, 85, 82, 76];
    assert(r@ =~= source_mapping_name());
    r
}

/// The payload of a `sourceMappingURL` custom section for `url`:
/// the section name and the url, each preceded by its length.
pub open spec fn source_mapping_payload(url: Seq<u8>) -> Seq<u8> {
    leb128(16) + source_mapping_name() + leb128(url.len()) + url
}

/// A whole custom section (id 0, payload length, payload) naming `url`.
pub open spec fn source_mapping_section(url: Seq<u8>) -> Seq<u8> {
    leb128(0) + leb128(source_mapping_payload(url).len()) + source_mapping_payload(url)
}

/// Appends a `sourceMappingURL` custom section holding `url` to `write`.
pub fn add_source_mapping_url_section(url: &str, write: &mut Vec<u8>)
    ensures
        final(write)@ == old(write)@ + source_mapping_section(url.spec_bytes()),
{
    let url_bytes = url.as_bytes();
    let name = source_mapping_name_bytes();
    let mut payload: Vec<u8> = convert_to_leb(name.len());
    payload.extend_from_slice(name.as_slice());
    let url_size = convert_to_leb(url_bytes.len());
    payload.extend_from_slice(url_size.as_slice());
    payload.extend_from_slice(url_bytes);
    assert(payload@ =~= source_mapping_payload(url.spec_bytes()));
    let id = convert_to_leb(0);
    let size = convert_to_leb(payload.len());
    write.extend_from_slice(id.as_slice());
    write.extend_from_slice(size.as_slice());
    write.extend_from_slice(payload.as_slice());
    assert(final(write)@ =~= old(write)@ + source_mapping_section(url.spec_bytes()));
}

/// What a decoder reports while it walks a wasm module, in file order.
pub enum WasmEvent {
    /// A custom section, whole.
    CustomSection { name: Vec<u8>, data: Vec<u8> },
    /// The end of a section that is not a custom section.
    SectionEnd,
    /// An entry of the import section that imports a function.
    FunctionImport,
    /// A function body: the file offset of its size field, and of its
    /// contents just after that field.
    FunctionBody { start: usize, body: usize },
    /// A data segment; its offset if the offset expression is an `i32.const`.
    DataSegment { base: Option<u32> },
}

/// The sections and offsets that debug information needs, read out of a module.
pub struct DebugSections {
    /// DWARF sections (`.debug_*`) by name; names unique.
    pub tables: Vec<(Vec<u8>, Vec<u8>)>,
    /// The ordinal of each retained custom section, counting sections from 1.
    pub tables_index: Vec<(usize, Vec<u8>)>,
    /// Relocation tables for DWARF sections (`reloc..debug_*`) by name; names unique.
    pub reloc_tables: Vec<(Vec<u8>, Vec<u8>)>,
    /// The `linking` section, if any.
    pub linking: Option<Vec<u8>>,
    /// The file offset of the first function body's size field; 0 when there
    /// is no function body.
    pub code_content: usize,
    /// Per function, the offset of its body's contents from `code_content`;
    /// 0 for imported functions.
    pub func_offsets: Vec<usize>,
    /// The base address of each data segment.
    pub data_segment_offsets: Vec<u32>,
}

/// What the events seen so far amount to.
pub struct Collected {
    pub tables: Seq<(Seq<u8>, Seq<u8>)>,
    pub tables_index: Seq<(int, Seq<u8>)>,
    pub reloc_tables: Seq<(Seq<u8>, Seq<u8>)>,
    pub linking: Option<Seq<u8>>,
    pub code_content: Option<int>,
    pub func_offsets: Seq<int>,
    pub data_segment_offsets: Seq<u32>,
    pub section_count: int,
    pub error: Option<Error>,
}

pub open spec fn collected_start() -> Collected {
    Collected {
        tables: seq![],
        tables_index: seq![],
        reloc_tables: seq![],
        linking: None,
        code_content: None,
        func_offsets: seq![],
        data_segment_offsets: seq![],
        section_count: 0,
        error: None,
    }
}

/// A custom section that the extractor keeps (or, for `sourceMappingURL`, accepts).
pub open spec fn is_collected_name(n: Seq<u8>) -> bool {
    is_stripped_name(n) || is_source_mapping_name(n)
}

/// The effect of one event.
pub open spec fn collect_step(c: Collected, e: WasmEvent) -> Collected {
    if c.error is Some {
        c
    } else {
        match e {
            WasmEvent::CustomSection { name, data } => {
                let n = c.section_count + 1;
                if !is_collected_name(name@) {
                    Collected { section_count: n, ..c }
                } else {
                    let index = c.tables_index.push((n, name@));
                    if is_debug_name(name@) {
                        Collected {
                            section_count: n,
                            tables_index: index,
                            tables: upsert(c.tables, name@, data@),
                            ..c
                        }
                    } else if is_reloc_debug_name(name@) {
                        Collected {
                            section_count: n,
                            tables_index: index,
                            reloc_tables: upsert(c.reloc_tables, name@, data@),
                            ..c
                        }
                    } else if is_linking_name(name@) {
                        Collected { section_count: n, tables_index: index, linking: Some(data@), ..c }
                    } else {
                        Collected { section_count: n, tables_index: index, ..c }
                    }
                }
            },
            WasmEvent::SectionEnd => Collected { section_count: c.section_count + 1, ..c },
            WasmEvent::FunctionImport => if c.code_content is Some {
                Collected { error: Some(Error::ParseError), ..c }
            } else {
                Collected { func_offsets: c.func_offsets.push(0), ..c }
            },
            WasmEvent::FunctionBody { start, body } => {
                let base = match c.code_content {
                    Some(b) => b,
                    None => start as int,
                };
                if body < base || (c.func_offsets.len() > 0 && body - base < c.func_offsets.last()) {
                    Collected { error: Some(Error::ParseError), ..c }
                } else {
                    Collected {
                        code_content: Some(base),
                        func_offsets: c.func_offsets.push(body - base),
                        ..c
                    }
                }
            },
            WasmEvent::DataSegment { base } => match base {
                Some(v) => Collected { data_segment_offsets: c.data_segment_offsets.push(v), ..c },
                None => Collected { error: Some(Error::MalformedDataSegment), ..c },
            },
        }
    }
}

/// What a sequence of events amounts to.
pub open spec fn collect(evs: Seq<WasmEvent>) -> Collected
    decreases evs.len(),
{
    if evs.len() == 0 {
        collected_start()
    } else {
        collect_step(collect(evs.drop_last()), evs.last())
    }
}

/// The error that reading the module stops on, if any.
pub open spec fn read_error(evs: Seq<WasmEvent>) -> Option<Error> {
    let c = collect(evs);
    if c.error is Some {
        c.error
    } else if c.code_content is None && c.tables.len() > 0 {
        Some(Error::NoCodeSection)
    } else {
        None
    }
}

impl DebugSections {
    /// Whether these sections are what the events `evs` describe.
    pub open spec fn collected_from(&self, evs: Seq<WasmEvent>) -> bool {
        let c = collect(evs);
        &&& entries_view(self.tables@) == c.tables
        &&& entries_view(self.reloc_tables@) == c.reloc_tables
        &&& self.tables_index@.map_values(|e: (usize, Vec<u8>)| (e.0 as int, e.1@)) == c.tables_index
        &&& match self.linking {
            Some(l) => c.linking == Some(l@),
            None => c.linking is None,
        }
        &&& self.code_content as int == match c.code_content {
            Some(b) => b,
            None => 0,
        }
        &&& self.func_offsets@.map_values(|x: usize| x as int) == c.func_offsets
        &&& self.data_segment_offsets@ == c.data_segment_offsets
    }

    /// Whether the tables hold each name once, DWARF sections under
    /// `.debug_*` names and relocation tables under `reloc..debug_*` names,
    /// and the function offsets never decrease.
    pub open spec fn wf(&self) -> bool {
        &&& keys_unique(entries_view(self.tables@))
        &&& keys_unique(entries_view(self.reloc_tables@))
        &&& forall|i: int| 0 <= i < self.tables@.len() ==> is_debug_name(#[trigger] self.tables@[i].0@)
        &&& forall|i: int| 0 <= i < self.reloc_tables@.len() ==> is_reloc_debug_name(#[trigger] self.reloc_tables@[i].0@)
        &&& forall|i: int, j: int| 0 <= i < j < self.func_offsets@.len() ==> self.func_offsets@[i] <= self.func_offsets@[j]
    }

    /// Collects the DWARF sections, their relocation tables, the `linking`
    /// section and the offsets of function bodies and data segments from the
    /// events of a wasm decoder.
    pub fn read_sections(events: &Vec<WasmEvent>) -> (r: Result<DebugSections, Error>)
        ensures
            match r {
                Ok(ds) => read_error(events@) is None && ds.collected_from(events@) && ds.wf(),
                Err(e) => read_error(events@) == Some(e),
            },
    {
        let mut tables: Vec<(Vec<u8>, Vec<u8>)> = Vec::new();
        let mut tables_index: Vec<(usize, Vec<u8>)> = Vec::new();
        let mut reloc_tables: Vec<(Vec<u8>, Vec<u8>)> = Vec::new();
        let mut linking: Option<Vec<u8>> = None;
        let mut code_content: Option<usize> = None;
        let mut func_offsets: Vec<usize> = Vec::new();
        let mut data_segment_offsets: Vec<u32> = Vec::new();
        let mut section_count: usize = 0;
        let mut i: usize = 0;
        proof {
            assert(events@.take(0) =~= Seq::<WasmEvent>::empty());
            assert(tables_index@.map_values(|e: (usize, Vec<u8>)| (e.0 as int, e.1@)) =~= seq![]);
            assert(func_offsets@.map_values(|x: usize| x as int) =~= seq![]);
            assert(entries_view(tables@) =~= seq![]);
            assert(entries_view(reloc_tables@) =~= seq![]);
            assert(data_segment_offsets@ =~= seq![]);
        }
        while i < events.len()
            invariant
                i <= events@.len(),
                section_count <= i,
                collect(events@.take(i as int)).error is None,
                ({
                    let ds = DebugSections {
                        tables,
                        tables_index,
                        reloc_tables,
                        linking,
                        code_content: match code_content {
                            Some(b) => b,
                            None => 0,
                        },
                        func_offsets,
                        data_segment_offsets,
                    };
                    ds.collected_from(events@.take(i as int)) && ds.wf()
                }),
                match code_content {
                    Some(b) => collect(events@.take(i as int)).code_content == Some(b as int),
                    None => collect(events@.take(i as int)).code_content is None,
                },
                section_count as int == collect(events@.take(i as int)).section_count,
                code_content is None ==> forall|k: int| 0 <= k < func_offsets@.len() ==> func_offsets@[k] == 0,
            decreases events.len() - i,
        {
            let ghost c = collect(events@.take(i as int));
            assert(events@.take(i + 1).drop_last() =~= events@.take(i as int));
            assert(events@.take(i + 1).last() == events@[i as int]);
            let ghost offsets_before = func_offsets@;
            match &events[i] {
                WasmEvent::CustomSection { name, data } => {
                    section_count = section_count + 1;
                    let debug = is_debug_section_name(name.as_slice());
                    let reloc = is_reloc_debug_section_name(name.as_slice());
                    let link = is_linking_section_name(name.as_slice());
                    let url = is_source_mapping_section_name(name.as_slice());
                    if debug || reloc || link || url {
                        tables_index.push((section_count, name.clone()));
                        if debug {
                            proof {
                                lemma_upsert_unique(c.tables, name@, data@);
                            }
                            let ghost before = tables@;
                            upsert_entry(&mut tables, name.clone(), data.clone());
                            assert forall|j: int| 0 <= j < tables@.len() implies is_debug_name(#[trigger] tables@[j].0@) by {
                                assert(entries_view(tables@)[j].0 == tables@[j].0@);
                                if j < before.len() {
                                    assert(entries_view(before)[j].0 == before[j].0@);
                                }
                            }
                        } else if reloc {
                            proof {
                                lemma_upsert_unique(c.reloc_tables, name@, data@);
                            }
                            let ghost before = reloc_tables@;
                            upsert_entry(&mut reloc_tables, name.clone(), data.clone());
                            assert forall|j: int| 0 <= j < reloc_tables@.len() implies is_reloc_debug_name(#[trigger] reloc_tables@[j].0@) by {
                                assert(entries_view(reloc_tables@)[j].0 == reloc_tables@[j].0@);
                                if j < before.len() {
                                    assert(entries_view(before)[j].0 == before[j].0@);
                                }
                            }
                        } else if link {
                            linking = Some(data.clone());
                        }
                    }
                },
                WasmEvent::SectionEnd => {
                    section_count = section_count + 1;
                },
                WasmEvent::FunctionImport => {
                    if code_content.is_some() {
                        proof {
                            lemma_collect_error_stays(events@, i as int + 1);
                        }
                        return Err(Error::ParseError);
                    }
                    func_offsets.push(0);
                },
                WasmEvent::FunctionBody { start, body } => {
                    let base = match code_content {
                        Some(b) => b,
                        None => *start,
                    };
                    if *body < base || (func_offsets.len() > 0 && *body - base < func_offsets[func_offsets.len() - 1]) {
                        proof {
                            lemma_collect_error_stays(events@, i as int + 1);
                        }
                        return Err(Error::ParseError);
                    }
                    code_content = Some(base);
                    func_offsets.push(*body - base);
                },
                WasmEvent::DataSegment { base } => match base {
                    Some(v) => {
                        data_segment_offsets.push(*v);
                    },
                    None => {
                        proof {
                            lemma_collect_error_stays(events@, i as int + 1);
                        }
                        return Err(Error::MalformedDataSegment);
                    },
                },
            }
            i = i + 1;
            proof {
                let ds = DebugSections {
                    tables,
                    tables_index,
                    reloc_tables,
                    linking,
                    code_content: match code_content {
                        Some(b) => b,
                        None => 0,
                    },
                    func_offsets,
                    data_segment_offsets,
                };
                let c2 = collect(events@.take(i as int));
                assert(ds.tables_index@.map_values(|e: (usize, Vec<u8>)| (e.0 as int, e.1@)) =~= c2.tables_index);
                assert(ds.func_offsets@.map_values(|x: usize| x as int) =~= c2.func_offsets);
                if func_offsets@.len() > offsets_before.len() {
                    assert forall|a: int, b: int| 0 <= a < b < func_offsets@.len() implies func_offsets@[a] <= func_offsets@[b] by {
                        if b < offsets_before.len() {
                            assert(func_offsets@[a] == offsets_before[a] && func_offsets@[b] == offsets_before[b]);
                        } else {
                            assert(func_offsets@[a] == offsets_before[a]);
                            if a < offsets_before.len() - 1 {
                                assert(offsets_before[a] <= offsets_before[offsets_before.len() - 1]);
                            }
                        }
                    }
                }
                assert(ds.data_segment_offsets@ =~= c2.data_segment_offsets);
            }
        }
        assert(events@.take(i as int) =~= events@);
        let has_tables = tables.len() > 0;
        let base = match code_content {
            Some(b) => b,
            None => {
                if has_tables {
                    return Err(Error::NoCodeSection);
                }
                0
            },
        };
        Ok(DebugSections {
            tables,
            tables_index,
            reloc_tables,
            linking,
            code_content: base,
            func_offsets,
            data_segment_offsets,
        })
    }
}

/// Once an event fails, the events after it change nothing.
proof fn lemma_collect_error_stays(evs: Seq<WasmEvent>, m: int)
    requires
        0 <= m <= evs.len(),
        collect(evs.take(m)).error is Some,
    ensures
        collect(evs).error == collect(evs.take(m)).error,
    decreases evs.len(),
{
    if m < evs.len() {
        assert(evs.drop_last().take(m) =~= evs.take(m));
        lemma_collect_error_stays(evs.drop_last(), m);
    } else {
        assert(evs.take(m) =~= evs);
    }
}

} // verus!
