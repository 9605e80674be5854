//! Reads DWARF line information out of WebAssembly object files and turns it
//! into source maps, with helpers that rewrite the wasm binary.
//!
//! The pipeline: `sections` collects the custom sections and code offsets of
//! a module, `reloc` applies the DWARF relocation tables, `dwarf` turns
//! line-number rows into an address-ordered location table, and `source_map`
//! codes that table as a source map's `mappings`. `strip` and
//! `sections::add_source_mapping_url_section` rewrite the module itself.

pub mod dwarf;
pub mod error;
pub mod leb;
pub mod prefix;
pub mod reloc;
pub mod sections;
pub mod source_map;
pub mod strip;
pub mod tables;
