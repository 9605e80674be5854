use wasm_dwarf::dwarf::{file_path, get_debug_loc, DebugLoc, LineRow};
use wasm_dwarf::error::Error;
use wasm_dwarf::leb::convert_to_leb;
use wasm_dwarf::prefix::PrefixReplacements;
use wasm_dwarf::reloc::reloc;
use wasm_dwarf::sections::{add_source_mapping_url_section, DebugSections, WasmEvent};
use wasm_dwarf::source_map::{addresses_in_range, encode_mappings};
use wasm_dwarf::strip::{remove_debug_sections, sections_in_order, SectionSpan};

fn row(address: u64, file_index: u64, line: u64, column: u64, end_sequence: bool, path: &str) -> LineRow {
    LineRow { address, file_index, line, column, end_sequence, path: path.to_string() }
}

fn loc(address: u64, source_id: u32, line: u32, column: u32) -> DebugLoc {
    DebugLoc { address, source_id, line, column }
}

fn sections_with(tables: Vec<(Vec<u8>, Vec<u8>)>, reloc_tables: Vec<(Vec<u8>, Vec<u8>)>, linking: Option<Vec<u8>>) -> DebugSections {
    DebugSections {
        tables,
        tables_index: Vec::new(),
        reloc_tables,
        linking,
        code_content: 0,
        func_offsets: vec![0, 0, 0, 0, 0x1234],
        data_segment_offsets: vec![0x100, 0x400],
    }
}

/// A `linking` section whose symbol table holds three undefined function
/// symbols (element indices 0, 1, 4), a defined data symbol in segment 1 at
/// offset 8, and a section symbol.
fn linking_section() -> Vec<u8> {
    let mut symbols = vec![5u8];
    symbols.extend_from_slice(&[0, 0x10, 0]);
    symbols.extend_from_slice(&[0, 0x10, 1]);
    symbols.extend_from_slice(&[0, 0x10, 4]);
    symbols.extend_from_slice(&[1, 0, 1, b'd', 1, 8, 4]);
    symbols.extend_from_slice(&[3, 0, 2]);
    let mut linking = vec![1u8, 8, symbols.len() as u8];
    linking.extend_from_slice(&symbols);
    linking
}

fn debug_info_with_fixup() -> Vec<u8> {
    let mut info = vec![0xAAu8; 0x20];
    info[0x10..0x14].copy_from_slice(&[0xFF, 0xFF, 0xFF, 0xFF]);
    info
}

#[test]
fn live_function_rows_are_kept() {
    let units = vec![vec![
        row(3, 1, 1, 1, false, "src/a.c"),
        row(8, 1, 2, 3, false, "src/a.c"),
        row(13, 1, 2, 3, true, "src/a.c"),
    ]];
    let info = get_debug_loc(0x20, &units);
    assert_eq!(info.sources, vec!["src/a.c".to_string()]);
    assert_eq!(info.locations, vec![loc(0x23, 0, 1, 1), loc(0x28, 0, 2, 3), loc(0x2d, 0, 2, 3)]);
    assert!(info.sources_content.is_none());
}

#[test]
fn dead_function_rows_are_dropped() {
    let units = vec![vec![
        row(1, 1, 1, 1, false, "src/a.c"),
        row(6, 1, 2, 3, false, "src/a.c"),
        row(11, 1, 2, 3, true, "src/a.c"),
    ]];
    let info = get_debug_loc(0x23, &units);
    assert_eq!(info.sources, vec!["src/a.c".to_string()]);
    assert!(info.locations.is_empty());
}

#[test]
fn dead_function_at_code_start_is_dropped_but_next_is_kept() {
    let units = vec![vec![
        row(0, 1, 1, 1, false, "a.c"),
        row(10, 1, 2, 1, true, "a.c"),
        row(40, 1, 5, 1, false, "a.c"),
        row(50, 1, 6, 1, true, "a.c"),
    ]];
    let info = get_debug_loc(0x23, &units);
    assert_eq!(info.locations, vec![loc(0x23 + 40, 0, 5, 1), loc(0x23 + 50, 0, 6, 1)]);
}

#[test]
fn size_field_length_grows_with_function_size() {
    let kept = vec![vec![row(2, 1, 1, 1, false, "a.c"), row(2 + 126, 1, 2, 1, true, "a.c")]];
    assert_eq!(get_debug_loc(0x100, &kept).locations.len(), 2);
    let dropped = vec![vec![row(2, 1, 1, 1, false, "a.c"), row(2 + 127, 1, 2, 1, true, "a.c")]];
    assert!(get_debug_loc(0x100, &dropped).locations.is_empty());
}

#[test]
fn file_indices_are_numbered_per_unit() {
    let units = vec![
        vec![row(5, 1, 1, 1, false, "a/x.c")],
        vec![row(9, 1, 4, 2, false, "b/y.c")],
    ];
    let info = get_debug_loc(0x10, &units);
    assert_eq!(info.sources, vec!["a/x.c".to_string(), "b/y.c".to_string()]);
    assert_eq!(info.locations, vec![loc(0x15, 0, 1, 1), loc(0x19, 1, 4, 2)]);
}

#[test]
fn a_path_named_by_several_units_is_listed_once() {
    let units = vec![
        vec![row(5, 1, 1, 1, false, "a/x.c"), row(6, 2, 2, 1, false, "h.h")],
        vec![row(9, 3, 4, 2, false, "h.h"), row(10, 1, 5, 2, false, "b/y.c")],
        vec![row(12, 7, 6, 1, false, "a/x.c")],
    ];
    let info = get_debug_loc(0x10, &units);
    assert_eq!(info.sources, vec!["a/x.c".to_string(), "h.h".to_string(), "b/y.c".to_string()]);
    let ids: Vec<u32> = info.locations.iter().map(|l| l.source_id).collect();
    assert_eq!(ids, vec![0, 1, 1, 2, 0]);
}

#[test]
fn file_paths_join_directory_and_name() {
    assert_eq!(file_path(&Some((Some("src/lib".to_string()), "a.c".to_string()))), "src/lib/a.c");
    assert_eq!(file_path(&Some((None, "a.c".to_string()))), "a.c");
    assert_eq!(file_path(&None), "<unknown>");
}

#[test]
fn locations_are_sorted_by_address_keeping_ties_in_order() {
    let units = vec![
        vec![row(30, 1, 1, 1, false, "a.c"), row(20, 1, 2, 1, false, "a.c")],
        vec![row(20, 2, 3, 1, false, "b.c"), row(10, 2, 4, 1, false, "b.c")],
    ];
    let info = get_debug_loc(0x100, &units);
    let addresses: Vec<u64> = info.locations.iter().map(|l| l.address).collect();
    assert_eq!(addresses, vec![0x10a, 0x114, 0x114, 0x11e]);
    assert_eq!(info.locations[1], loc(0x114, 0, 2, 1));
    assert_eq!(info.locations[2], loc(0x114, 1, 3, 1));
    for l in info.locations.iter() {
        assert!((l.source_id as usize) < info.sources.len());
    }
}

#[test]
fn function_relocation_writes_body_offset() {
    let mut ds = sections_with(
        vec![(b".debug_info".to_vec(), debug_info_with_fixup())],
        vec![(b"reloc..debug_info".to_vec(), vec![0, 1, 8, 0x10, 2, 0])],
        Some(linking_section()),
    );
    let counts = reloc(&mut ds).unwrap();
    assert_eq!(counts, vec![1]);
    let info = &ds.tables[0].1;
    assert_eq!(info.len(), 0x20);
    assert_eq!(&info[0x10..0x14], &[0x34, 0x12, 0x00, 0x00]);
    assert_eq!(info[0x0f], 0xAA);
    assert_eq!(info[0x14], 0xAA);
}

#[test]
fn relocation_keeps_lengths_and_counts_entries() {
    let mut ds = sections_with(
        vec![
            (b".debug_info".to_vec(), debug_info_with_fixup()),
            (b".debug_line".to_vec(), vec![0u8; 12]),
        ],
        vec![
            (b"reloc..debug_info".to_vec(), vec![0, 2, 8, 0x10, 2, 3, 5, 0, 3, 2]),
            (b"reloc..debug_line".to_vec(), vec![1, 1, 9, 4, 4, 7]),
        ],
        Some(linking_section()),
    );
    let counts = reloc(&mut ds).unwrap();
    assert_eq!(counts, vec![2, 1]);
    assert_eq!(ds.tables[0].1.len(), 0x20);
    assert_eq!(ds.tables[1].1.len(), 12);
    assert_eq!(&ds.tables[0].1[0x10..0x14], &[0x37, 0x12, 0x00, 0x00]);
    assert_eq!(&ds.tables[0].1[0..4], &[0x0A, 0x04, 0x00, 0x00]);
    assert_eq!(&ds.tables[1].1[4..8], &[0x07, 0x00, 0x00, 0x00]);
}

#[test]
fn relocation_errors() {
    let tables = || vec![(b".debug_info".to_vec(), debug_info_with_fixup())];
    let table = |entry: Vec<u8>| vec![(b"reloc..debug_info".to_vec(), entry)];
    let run = |reloc_tables: Vec<(Vec<u8>, Vec<u8>)>, linking: Option<Vec<u8>>| {
        let mut ds = sections_with(tables(), reloc_tables, linking);
        reloc(&mut ds)
    };
    assert_eq!(run(table(vec![0, 1, 8, 0, 2, 0]), None), Err(Error::MissingLinking));
    assert_eq!(run(table(vec![0, 1, 8, 0, 2, 0]), Some(vec![2])), Err(Error::UnsupportedLinkingVersion));
    let mut ds = sections_with(tables(), table(vec![0, 1, 8, 0x10, 2, 0]), Some(vec![1, 8, 3, 1, 7, 0]));
    assert_eq!(reloc(&mut ds), Err(Error::UnknownSymbolKind));
    assert_eq!(ds.tables, tables());
    assert_eq!(run(table(vec![0, 1, 8, 0, 2, 0]), Some(vec![1, 8, 3, 1, 7, 0])), Err(Error::UnknownSymbolKind));
    assert_eq!(run(table(vec![0, 1, 6, 0, 2, 0]), Some(linking_section())), Err(Error::UnknownRelocType));
    assert_eq!(run(table(vec![0, 1, 5, 0, 2, 0]), Some(linking_section())), Err(Error::SymbolKindMismatch));
    assert_eq!(run(table(vec![0, 1, 8, 0x1e, 2, 0]), Some(linking_section())), Err(Error::BadRelocation));
    assert_eq!(run(table(vec![0, 1, 8, 0, 1]), Some(linking_section())), Err(Error::ParseError));
    assert_eq!(
        run(vec![(b"reloc..debug_str".to_vec(), vec![0, 1, 9, 0, 0, 0])], Some(linking_section())),
        Err(Error::BadRelocation)
    );
}

#[test]
fn vlq_groups_of_deltas() {
    assert_eq!(encode_mappings(&vec![loc(0, 0, 1, 1)]), b"AAAA".to_vec());
    assert_eq!(
        encode_mappings(&vec![loc(1, 0, 1, 1), loc(2, 0, 1, 1), loc(3, 0, 1, 1)]),
        b"CAAA,CAAA,CAAA".to_vec()
    );
}

#[test]
fn mappings_skip_rows_without_line_or_column() {
    let locs = vec![loc(0x23, 0, 1, 1), loc(0x24, 0, 0, 4), loc(0x28, 1, 2, 0), loc(0x30, 1, 3, 5)];
    assert_eq!(encode_mappings(&locs), b"mCAAA,aCEI".to_vec());
    assert_eq!(encode_mappings(&vec![loc(4, 0, 0, 0)]), Vec::<u8>::new());
    assert_eq!(encode_mappings(&Vec::new()), Vec::<u8>::new());
}

#[test]
fn mappings_decode_to_emitted_rows() {
    let locs = vec![
        loc(0x23, 0, 10, 4),
        loc(0x20, 2, 3, 1),
        loc(0x20, 2, 0, 1),
        loc(0x4000, 1, 700, 33),
    ];
    let text = encode_mappings(&locs);
    let mut rows = Vec::new();
    let mut cursor = [0i64, 0, 1, 1];
    for group in text.split(|b| *b == b',') {
        let mut bytes = group.iter().cloned();
        for field in cursor.iter_mut() {
            *field += vlq::decode(&mut bytes).unwrap();
        }
        assert!(bytes.next().is_none());
        rows.push(cursor);
    }
    assert_eq!(rows, vec![[0x23, 0, 10, 4], [0x20, 2, 3, 1], [0x4000, 1, 700, 33]]);
}

#[test]
fn addresses_past_signed_range_are_reported() {
    assert!(addresses_in_range(&vec![loc(0x7FFF_FFFF_FFFF_FFFF, 0, 1, 1)]));
    assert!(!addresses_in_range(&vec![loc(1, 0, 1, 1), loc(0x8000_0000_0000_0000, 0, 1, 1)]));
}

#[test]
fn source_mapping_url_section_bytes() {
    let mut out = vec![0xEEu8];
    add_source_mapping_url_section("x.map", &mut out);
    let mut expected = vec![0xEEu8, 0, 23, 16];
    expected.extend_from_slice(b"sourceMappingURL");
    expected.push(5);
    expected.extend_from_slice(b"x.map");
    assert_eq!(out, expected);
}

#[test]
fn long_url_takes_two_length_bytes() {
    let url = "u".repeat(200);
    let mut out = Vec::new();
    add_source_mapping_url_section(&url, &mut out);
    assert_eq!(&out[0..4], &[0, 219, 1, 16]);
    assert_eq!(&out[20..22], &[200, 1]);
    assert_eq!(out.len(), 4 + 16 + 2 + 200);
}

#[test]
fn leb_encoding() {
    assert_eq!(convert_to_leb(0), vec![0]);
    assert_eq!(convert_to_leb(127), vec![127]);
    assert_eq!(convert_to_leb(128), vec![0x80, 1]);
    assert_eq!(convert_to_leb(624485), vec![0xE5, 0x8E, 0x26]);
}

#[test]
fn prefix_replacement_first_match_wins() {
    let specs = vec!["/build/src=src".to_string(), "/build=b".to_string(), "/tmp".to_string()];
    let reps = PrefixReplacements::parse(&specs);
    assert_eq!(
        reps.replacements,
        vec![
            ("/build/src".to_string(), "src".to_string()),
            ("/build".to_string(), "b".to_string()),
            ("/tmp".to_string(), String::new()),
        ]
    );
    assert_eq!(reps.replace(&"/build/src/a.c".to_string()), "src/a.c");
    assert_eq!(reps.replace(&"/build/lib/b.c".to_string()), "b/lib/b.c");
    assert_eq!(reps.replace(&"/tmp/c.c".to_string()), "/c.c");
    assert_eq!(reps.replace(&"other/d.c".to_string()), "other/d.c");
}

#[test]
fn prefix_spec_splits_at_first_equals() {
    let reps = PrefixReplacements::parse(&vec!["a=b=c".to_string(), "=x".to_string()]);
    assert_eq!(
        reps.replacements,
        vec![("a".to_string(), "b=c".to_string()), (String::new(), "x".to_string())]
    );
}

#[test]
fn prefix_replacement_twice_changes_nothing() {
    let reps = PrefixReplacements::parse(&vec!["/build/src=src".to_string(), "/home/me=~".to_string()]);
    let mut paths = vec!["/build/src/a.c".to_string(), "/home/me/b.c".to_string(), "c.c".to_string()];
    reps.replace_all(&mut paths);
    assert_eq!(paths, vec!["src/a.c".to_string(), "~/b.c".to_string(), "c.c".to_string()]);
    let once = paths.clone();
    reps.replace_all(&mut paths);
    assert_eq!(paths, once);
}

fn custom(name: &[u8], start: usize, end: usize) -> SectionSpan {
    SectionSpan { name: Some(name.to_vec()), start, end }
}

fn standard(start: usize, end: usize) -> SectionSpan {
    SectionSpan { name: None, start, end }
}

#[test]
fn stripping_without_debug_sections_keeps_every_byte() {
    let wasm: Vec<u8> = (0u8..40).collect();
    let spans = vec![standard(8, 15), custom(b"name", 15, 30), standard(30, 40)];
    assert!(sections_in_order(&spans, wasm.len()));
    let mut out = Vec::new();
    remove_debug_sections(&wasm, &spans, &mut out);
    assert_eq!(out, wasm);
}

#[test]
fn stripping_removes_debug_reloc_and_linking_sections() {
    let wasm: Vec<u8> = (0u8..50).collect();
    let spans = vec![
        standard(8, 12),
        custom(b".debug_info", 12, 20),
        custom(b"reloc..debug_info", 20, 25),
        standard(25, 30),
        custom(b"linking", 30, 35),
        custom(b"sourceMappingURL", 35, 45),
        custom(b".debug_line", 45, 50),
    ];
    let mut out = Vec::new();
    remove_debug_sections(&wasm, &spans, &mut out);
    let mut expected: Vec<u8> = (0u8..12).collect();
    expected.extend(25u8..30);
    expected.extend(35u8..45);
    assert_eq!(out, expected);
}

#[test]
fn sections_out_of_order_are_detected() {
    assert!(!sections_in_order(&vec![standard(8, 20), standard(15, 30)], 40));
    assert!(!sections_in_order(&vec![standard(8, 50)], 40));
    assert!(!sections_in_order(&vec![standard(9, 8)], 40));
}

fn events() -> Vec<WasmEvent> {
    vec![
        WasmEvent::FunctionImport,
        WasmEvent::SectionEnd,
        WasmEvent::FunctionBody { start: 0x40, body: 0x41 },
        WasmEvent::FunctionBody { start: 0x50, body: 0x52 },
        WasmEvent::SectionEnd,
        WasmEvent::DataSegment { base: Some(1024) },
        WasmEvent::DataSegment { base: Some(2048) },
        WasmEvent::SectionEnd,
        WasmEvent::CustomSection { name: b".debug_info".to_vec(), data: vec![1, 2] },
        WasmEvent::CustomSection { name: b"reloc..debug_info".to_vec(), data: vec![3] },
        WasmEvent::CustomSection { name: b"linking".to_vec(), data: vec![1] },
        WasmEvent::CustomSection { name: b"producers".to_vec(), data: vec![9] },
        WasmEvent::CustomSection { name: b"sourceMappingURL".to_vec(), data: vec![7] },
        WasmEvent::CustomSection { name: b".debug_info".to_vec(), data: vec![4] },
    ]
}

#[test]
fn read_sections_collects_debug_data_and_offsets() {
    let ds = DebugSections::read_sections(&events()).unwrap();
    assert_eq!(ds.tables, vec![(b".debug_info".to_vec(), vec![4])]);
    assert_eq!(ds.reloc_tables, vec![(b"reloc..debug_info".to_vec(), vec![3])]);
    assert_eq!(ds.linking, Some(vec![1]));
    assert_eq!(ds.code_content, 0x40);
    assert_eq!(ds.func_offsets, vec![0, 1, 0x12]);
    assert_eq!(ds.data_segment_offsets, vec![1024, 2048]);
    assert_eq!(
        ds.tables_index,
        vec![
            (4, b".debug_info".to_vec()),
            (5, b"reloc..debug_info".to_vec()),
            (6, b"linking".to_vec()),
            (8, b"sourceMappingURL".to_vec()),
            (9, b".debug_info".to_vec()),
        ]
    );
}

#[test]
fn read_sections_errors() {
    let mut evs = events();
    evs.insert(6, WasmEvent::DataSegment { base: None });
    assert_eq!(DebugSections::read_sections(&evs).err(), Some(Error::MalformedDataSegment));
    let evs = vec![
        WasmEvent::FunctionBody { start: 0x40, body: 0x41 },
        WasmEvent::FunctionBody { start: 0x30, body: 0x31 },
    ];
    assert_eq!(DebugSections::read_sections(&evs).err(), Some(Error::ParseError));
    let evs = vec![WasmEvent::CustomSection { name: b".debug_line".to_vec(), data: vec![] }];
    assert_eq!(DebugSections::read_sections(&evs).err(), Some(Error::NoCodeSection));
    let evs = vec![WasmEvent::FunctionBody { start: 0x40, body: 0x41 }, WasmEvent::FunctionImport];
    assert_eq!(DebugSections::read_sections(&evs).err(), Some(Error::ParseError));
    let evs = vec![
        WasmEvent::FunctionBody { start: 0x40, body: 0x48 },
        WasmEvent::FunctionBody { start: 0x44, body: 0x45 },
    ];
    assert_eq!(DebugSections::read_sections(&evs).err(), Some(Error::ParseError));
    let ds = DebugSections::read_sections(&vec![WasmEvent::SectionEnd]).unwrap();
    assert_eq!(ds.code_content, 0);
}
