//! Rewrites a wasm module without its DWARF, relocation and linking sections.

use vstd::prelude::*;
use crate::sections::{is_debug_section_name, is_linking_section_name, is_reloc_debug_section_name, is_stripped_name};

verus! {

/// Where a section lies in a module, and its name if it is a custom section.
pub struct SectionSpan {
    pub name: Option<Vec<u8>>,
    /// The offset of its id byte.
    pub start: usize,
    /// The offset just after its payload.
    pub end: usize,
}

/// Whether a stripped module leaves this section out.
pub open spec fn is_stripped(s: SectionSpan) -> bool {
    match s.name {
        Some(n) => is_stripped_name(n@),
        None => false,
    }
}

/// The sections lie in order, without overlap, within a module of `len` bytes.
pub open spec fn spans_ordered(spans: Seq<SectionSpan>, len: int) -> bool {
    &&& forall|i: int| 0 <= i < spans.len() ==> #[trigger] spans[i].start <= spans[i].end <= len
    &&& forall|i: int| 0 <= i < spans.len() - 1 ==> #[trigger] spans[i].end <= spans[i + 1].start
}

/// The bytes of `wasm` from `from` on, leaving out the sections among `spans`
/// that are stripped.
pub open spec fn kept_bytes(wasm: Seq<u8>, spans: Seq<SectionSpan>, from: int) -> Seq<u8>
    decreases spans.len(),
{
    if spans.len() == 0 {
        wasm.subrange(from, wasm.len() as int)
    } else if is_stripped(spans[0]) {
        wasm.subrange(from, spans[0].start as int) + kept_bytes(wasm, spans.drop_first(), spans[0].end as int)
    } else {
        kept_bytes(wasm, spans.drop_first(), from)
    }
}

/// Whether the sections lie in order, without overlap, within `len` bytes.
pub fn sections_in_order(spans: &Vec<SectionSpan>, len: usize) -> (r: bool)
    ensures
        r == spans_ordered(spans@, len as int),
{
    let mut i: usize = 0;
    while i < spans.len()
        invariant
            i <= spans@.len(),
            forall|k: int| 0 <= k < i ==> #[trigger] spans@[k].start <= spans@[k].end <= len,
            forall|k: int| 0 <= k < i - 1 ==> #[trigger] spans@[k].end <= spans@[k + 1].start,
            i > 0 ==> spans@[i - 1].end <= len,
        decreases spans.len() - i,
    {
        if spans[i].start > spans[i].end || spans[i].end > len {
            return false;
        }
        if i > 0 && spans[i - 1].end > spans[i].start {
            assert(!(spans@[i - 1].end <= spans@[(i - 1) + 1].start));
            return false;
        }
        i = i + 1;
    }
    true
}

fn copy_range(wasm: &[u8], a: usize, b: usize, out: &mut Vec<u8>)
    requires
        a <= b <= wasm@.len(),
    ensures
        final(out)@ == old(out)@ + wasm@.subrange(a as int, b as int),
{
    let mut i: usize = a;
    while i < b
        invariant
            a <= i <= b <= wasm@.len(),
            out@ == old(out)@ + wasm@.subrange(a as int, i as int),
        decreases b - i,
    {
        out.push(wasm[i]);
        assert(out@ =~= old(out)@ + wasm@.subrange(a as int, i + 1));
        i = i + 1;
    }
}

fn is_stripped_span(s: &SectionSpan) -> (r: bool)
    ensures
        r == is_stripped(*s),
{
    match &s.name {
        Some(n) => is_debug_section_name(n.as_slice()) || is_reloc_debug_section_name(n.as_slice())
            || is_linking_section_name(n.as_slice()),
        None => false,
    }
}

/// Appends to `write` the module `wasm` without its DWARF sections, their
/// relocation tables and its `linking` section; `sections` are its sections.
pub fn remove_debug_sections(wasm: &[u8], sections: &Vec<SectionSpan>, write: &mut Vec<u8>)
    requires
        spans_ordered(sections@, wasm@.len() as int),
    ensures
        final(write)@ == old(write)@ + kept_bytes(wasm@, sections@, 0),
{
    let mut last_written: usize = 0;
    let mut i: usize = 0;
    assert(sections@.skip(0) =~= sections@);
    while i < sections.len()
        invariant
            i <= sections@.len(),
            spans_ordered(sections@, wasm@.len() as int),
            last_written <= wasm@.len(),
            i < sections@.len() ==> last_written <= sections@[i as int].start,
            old(write)@ + kept_bytes(wasm@, sections@, 0) == write@ + kept_bytes(wasm@, sections@.skip(i as int), last_written as int),
        decreases sections.len() - i,
    {
        let s = &sections[i];
        let ghost rest = sections@.skip(i as int);
        assert(rest[0] == sections@[i as int]);
        assert(rest.drop_first() =~= sections@.skip(i + 1));
        if is_stripped_span(s) {
            copy_range(wasm, last_written, s.start, write);
            last_written = s.end;
            assert(write@ + kept_bytes(wasm@, sections@.skip(i + 1), last_written as int)
                =~= old(write)@ + kept_bytes(wasm@, sections@, 0));
        }
        if i + 1 < sections.len() {
            assert(sections@[i as int].end <= sections@[i + 1].start);
        }
        i = i + 1;
    }
    copy_range(wasm, last_written, wasm.len(), write);
    assert(write@ =~= old(write)@ + kept_bytes(wasm@, sections@, 0));
}

proof fn lemma_nothing_stripped(wasm: Seq<u8>, spans: Seq<SectionSpan>, from: int)
    requires
        forall|i: int| 0 <= i < spans.len() ==> !is_stripped(#[trigger] spans[i]),
    ensures
        kept_bytes(wasm, spans, from) == wasm.subrange(from, wasm.len() as int),
    decreases spans.len(),
{
    if spans.len() > 0 {
        assert(!is_stripped(spans[0]));
        assert forall|i: int| 0 <= i < spans.drop_first().len() implies !is_stripped(#[trigger] spans.drop_first()[i]) by {
            assert(spans.drop_first()[i] == spans[i + 1]);
        }
        lemma_nothing_stripped(wasm, spans.drop_first(), from);
    }
}

/// Stripping a module that has no DWARF, relocation or linking section gives
/// the module back byte for byte.
pub proof fn lemma_strip_without_debug_sections(wasm: Seq<u8>, spans: Seq<SectionSpan>)
    requires
        spans_ordered(spans, wasm.len() as int),
        forall|i: int| 0 <= i < spans.len() ==> !is_stripped(#[trigger] spans[i]),
    ensures
        kept_bytes(wasm, spans, 0) == wasm,
{
    lemma_nothing_stripped(wasm, spans, 0);
    assert(wasm.subrange(0, wasm.len() as int) =~= wasm);
}

} // verus!
