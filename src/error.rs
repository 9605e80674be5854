//! The errors of the conversion. All of them are fatal.

use vstd::prelude::*;

verus! {

/// What went wrong while reading, relocating or converting a module.
#[derive(Clone, Copy, Debug, PartialEq, Eq, Structural)]
pub enum Error {
    /// Reading a file failed.
    Io,
    /// The wasm module is truncated or malformed.
    ParseError,
    /// Debug sections are present but the module has no function body.
    NoCodeSection,
    /// The `linking` section is missing.
    MissingLinking,
    /// The `linking` section has a version other than 1.
    UnsupportedLinkingVersion,
    /// A symbol of the symbol table has a kind this reader does not know.
    UnknownSymbolKind,
    /// A relocation entry has a type this reader does not know.
    UnknownRelocType,
    /// A data relocation names a symbol that is not a defined data symbol.
    SymbolKindMismatch,
    /// A relocation names a symbol, function, segment or section that does not exist,
    /// or a fixup that lies outside its section.
    BadRelocation,
    /// A data segment's offset is not an `i32.const` expression.
    MalformedDataSegment,
    /// The DWARF data of the unit at this offset cannot be parsed.
    DwarfParseError(u64),
    /// A compilation unit has no root entry.
    MissingCompileUnit,
    /// A source file is not valid UTF-8.
    InvalidUtf8Source,
}

} // verus!
