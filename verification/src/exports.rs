//! The systems of a guest: its exports whose names end in `-tick`, in the order
//! in which the module's export section lists them.

use vstd::prelude::*;
use vstd::utf8::{decode_utf8, valid_utf8};

use crate::leb::{
    encodes, law_uleb_round_trip, lemma_uleb_end_range, read_uleb, uleb, uleb_end, word,
};
use crate::text::{ends_with, has_suffix, utf8_text};

verus! {

/// The id of the export section.
pub const EXPORT_SECTION: u8 = 7;

/// The id of the section that names a function to be run at the start.
pub const START_SECTION: u8 = 8;

/// The length of the magic number and the version that open a module.
pub const HEADER: usize = 8;

pub open spec fn min(a: int, b: int) -> int {
    if a <= b {
        a
    } else {
        b
    }
}

/// Where the contents of the first section with an id at or after `i` begin. Each
/// section is its id, the length of its contents and the contents.
pub open spec fn section_from(wasm: Seq<u8>, id: u8, i: int) -> Option<int>
    decreases wasm.len() - i,
{
    if i >= wasm.len() {
        None
    } else {
        let contents = uleb_end(wasm, i + 1);
        if wasm[i] == id {
            Some(contents)
        } else {
            proof {
                lemma_uleb_end_range(wasm, i + 1);
            }
            section_from(wasm, id, min(contents + uleb(wasm, i + 1), wasm.len() as int))
        }
    }
}

/// Where the contents of the first export section at or after `i` begin.
pub open spec fn export_section(wasm: Seq<u8>, i: int) -> Option<int> {
    section_from(wasm, EXPORT_SECTION, i)
}

/// Whether bytes are a module in the binary format, by their magic number, without a
/// section that names a function to be run at the start.
pub open spec fn lacks_start(wasm: Seq<u8>) -> bool {
    &&& wasm.len() >= HEADER
    &&& wasm[0] == 0 && wasm[1] == 0x61 && wasm[2] == 0x73 && wasm[3] == 0x6d
    &&& section_from(wasm, START_SECTION, HEADER as int) is None
}

/// The bytes of the name of the export listed at `j`, as far as the module goes.
pub open spec fn entry_name(wasm: Seq<u8>, j: int) -> Seq<u8> {
    let start = uleb_end(wasm, j);
    wasm.subrange(min(start, wasm.len() as int), entry_name_end(wasm, j))
}

/// Where that name ends.
pub open spec fn entry_name_end(wasm: Seq<u8>, j: int) -> int {
    min(uleb_end(wasm, j) + uleb(wasm, j), wasm.len() as int)
}

/// Where the export after the one listed at `j` is listed: past the name, a
/// byte for the kind and an index.
pub open spec fn entry_next(wasm: Seq<u8>, j: int) -> int {
    uleb_end(wasm, entry_name_end(wasm, j) + 1)
}

/// The names of `count` exports listed from `j` on.
pub open spec fn entry_names(wasm: Seq<u8>, j: int, count: nat) -> Seq<Seq<u8>>
    decreases count,
{
    if count == 0 {
        seq![]
    } else {
        seq![entry_name(wasm, j)] + entry_names(wasm, entry_next(wasm, j), (count - 1) as nat)
    }
}

/// The names of all exports of a module, in the order of its export section.
pub open spec fn export_names(wasm: Seq<u8>) -> Seq<Seq<u8>> {
    if wasm.len() < HEADER {
        seq![]
    } else {
        match export_section(wasm, HEADER as int) {
            None => seq![],
            Some(at) => entry_names(wasm, uleb_end(wasm, at), uleb(wasm, at)),
        }
    }
}

/// Whether a name is that of a system.
pub open spec fn is_tick_name(name: Seq<u8>) -> bool {
    valid_utf8(name) && has_suffix(decode_utf8(name), "-tick"@)
}

/// The system names among `names`, in their order.
pub open spec fn tick_names(names: Seq<Seq<u8>>) -> Seq<Seq<char>>
    decreases names.len(),
{
    if names.len() == 0 {
        seq![]
    } else if is_tick_name(names[0]) {
        seq![decode_utf8(names[0])] + tick_names(names.drop_first())
    } else {
        tick_names(names.drop_first())
    }
}

/// The texts of a list of strings.
pub open spec fn texts(v: Seq<String>) -> Seq<Seq<char>> {
    v.map_values(|s: String| s@)
}

/// A position past the end of the module stays past it, and no export listed
/// there has a name.
proof fn lemma_past_end(wasm: Seq<u8>, j: int, count: nat)
    requires
        j >= wasm.len(),
    ensures
        tick_names(entry_names(wasm, j, count)) == Seq::<Seq<char>>::empty(),
    decreases count,
{
    lemma_uleb_end_range(wasm, j);
    if count > 0 {
        let name = entry_name(wasm, j);
        assert(name =~= seq![]);
        assert(decode_utf8(name) =~= seq![]);
        reveal_strlit("-tick");
        assert(!is_tick_name(name));
        let e = entry_name_end(wasm, j);
        assert(e == wasm.len());
        lemma_uleb_end_range(wasm, e + 1);
        lemma_past_end(wasm, entry_next(wasm, j), (count - 1) as nat);
        let names = entry_names(wasm, j, count);
        assert(names.drop_first() =~= entry_names(wasm, entry_next(wasm, j), (count - 1) as nat));
    }
}

/// Reads `n` bytes on from `at`, stopping at `len`.
fn advance(at: usize, n: u64, len: usize) -> (r: usize)
    ensures
        r == min(at + n, len as int),
{
    if at >= len || n >= (len - at) as u64 {
        len
    } else {
        at + n as usize
    }
}

/// The systems among `count` exports listed from `j` on.
fn read_entries(wasm: &[u8], j: usize, count: u64) -> (names: Vec<String>)
    ensures
        texts(names@) == tick_names(entry_names(wasm@, j as int, count as nat)),
{
    let mut names: Vec<String> = Vec::new();
    let mut at: usize = j;
    let mut left: u64 = count;
    let ghost all = tick_names(entry_names(wasm@, j as int, count as nat));
    assert(texts(names@) =~= seq![]);
    while left > 0 && at < wasm.len()
        invariant
            all == tick_names(entry_names(wasm@, j as int, count as nat)),
            all == texts(names@) + tick_names(entry_names(wasm@, at as int, left as nat)),
        decreases left,
    {
        proof {
            lemma_uleb_end_range(wasm@, at as int);
        }
        let (len, start) = read_uleb(wasm, at);
        let end: usize = advance(start, len, wasm.len());
        let name: &[u8] = vstd::slice::slice_subrange(wasm, start, end);
        assert(name@ == entry_name(wasm@, at as int));
        let ghost next = entry_next(wasm@, at as int);
        let ghost listed = entry_names(wasm@, at as int, left as nat);
        let ghost before = texts(names@);
        assert(listed.drop_first() =~= entry_names(wasm@, next, (left - 1) as nat));
        match utf8_text(name) {
            Some(text) => {
                if ends_with(text, "-tick") {
                    names.push(text.to_owned());
                    assert(texts(names@) =~= before.push(decode_utf8(name@)));
                    assert(before.push(decode_utf8(name@)) + tick_names(listed.drop_first())
                        =~= before + tick_names(listed));
                }
            },
            None => {},
        }
        if end >= wasm.len() - 1 {
            proof {
                lemma_uleb_end_range(wasm@, end + 1);
                lemma_past_end(wasm@, next, (left - 1) as nat);
                assert(texts(names@) =~= all);
            }
            return names;
        }
        at = read_uleb(wasm, end + 1).1;
        left = left - 1;
    }
    proof {
        if left > 0 {
            lemma_past_end(wasm@, at as int, left as nat);
        }
        assert(texts(names@) =~= all);
    }
    names
}

/// Names of exports ending in `-tick`, in the order of the export section, so
/// that the systems run in the order in which the guest defines them.
pub fn ordered_tick_exports(wasm: &[u8]) -> (names: Vec<String>)
    ensures
        texts(names@) == tick_names(export_names(wasm@)),
{
    let none: Vec<String> = Vec::new();
    assert(texts(none@) =~= seq![]);
    if wasm.len() < HEADER {
        return none;
    }
    let mut i: usize = HEADER;
    while i < wasm.len()
        invariant
            wasm@.len() >= HEADER,
            export_section(wasm@, HEADER as int) == export_section(wasm@, i as int),
            texts(none@) == Seq::<Seq<char>>::empty(),
        decreases wasm.len() - i,
    {
        let id: u8 = wasm[i];
        proof {
            lemma_uleb_end_range(wasm@, i + 1);
        }
        let (size, contents) = read_uleb(wasm, i + 1);
        if id == EXPORT_SECTION {
            let (count, first) = read_uleb(wasm, contents);
            return read_entries(wasm, first, count);
        }
        i = advance(contents, size, wasm.len());
    }
    none
}

/// An export as a module lists it: the encoding of the length of its name, its name,
/// its kind and the encoding of its index.
pub struct Export {
    pub size: Seq<u8>,
    pub name: Seq<u8>,
    pub kind: u8,
    pub index: Seq<u8>,
}

/// A section: its id, the encoding of the length of its contents, and its contents.
pub struct Section {
    pub id: u8,
    pub size: Seq<u8>,
    pub contents: Seq<u8>,
}

/// Whether an export is listed as the format has it. Encodings may be padded.
pub open spec fn is_export(e: Export) -> bool {
    &&& encodes(e.size, e.name.len())
    &&& e.name.len() < word()
    &&& exists|n: nat| encodes(e.index, n)
}

/// Whether a section other than that of the exports is laid out as the format has it.
pub open spec fn is_other_section(s: Section) -> bool {
    &&& s.id != EXPORT_SECTION
    &&& encodes(s.size, s.contents.len())
    &&& s.contents.len() < word()
}

pub open spec fn entry_bytes(e: Export) -> Seq<u8> {
    e.size + e.name + seq![e.kind] + e.index
}

pub open spec fn entries_bytes(exports: Seq<Export>) -> Seq<u8>
    decreases exports.len(),
{
    if exports.len() == 0 {
        seq![]
    } else {
        entry_bytes(exports[0]) + entries_bytes(exports.drop_first())
    }
}

pub open spec fn section_bytes(s: Section) -> Seq<u8> {
    seq![s.id] + s.size + s.contents
}

pub open spec fn sections_bytes(sections: Seq<Section>) -> Seq<u8>
    decreases sections.len(),
{
    if sections.len() == 0 {
        seq![]
    } else {
        section_bytes(sections[0]) + sections_bytes(sections.drop_first())
    }
}

/// A module up to its first export section: a header and other sections.
pub struct Front {
    pub header: Seq<u8>,
    pub sections: Seq<Section>,
}

/// An export section: the encoding of its length, the encoding of the number of
/// exports, and the exports.
pub struct ExportSection {
    pub size: Seq<u8>,
    pub count: Seq<u8>,
    pub exports: Seq<Export>,
}

/// Whether the header is as long as one and the other sections are laid out as the
/// format has it.
pub open spec fn is_front(front: Front) -> bool {
    &&& front.header.len() == HEADER
    &&& forall|i: int|
        0 <= i < front.sections.len() ==> is_other_section(#[trigger] front.sections[i])
}

/// Whether an export section is laid out as the format has it.
pub open spec fn is_export_section(s: ExportSection) -> bool {
    &&& encodes(s.size, s.count.len() + entries_bytes(s.exports).len())
    &&& encodes(s.count, s.exports.len())
    &&& s.exports.len() < word()
    &&& forall|i: int| 0 <= i < s.exports.len() ==> is_export(#[trigger] s.exports[i])
}

/// A module: what comes first, the first export section, and whatever follows.
pub open spec fn module_bytes(front: Front, s: ExportSection, after: Seq<u8>) -> Seq<u8> {
    front.header + sections_bytes(front.sections) + section_bytes(
        Section { id: EXPORT_SECTION, size: s.size, contents: s.count + entries_bytes(s.exports) },
    ) + after
}

pub open spec fn names_of(exports: Seq<Export>) -> Seq<Seq<u8>> {
    exports.map_values(|e: Export| e.name)
}

/// Listed exports are read back one by one.
proof fn lemma_entries(before: Seq<u8>, exports: Seq<Export>, after: Seq<u8>)
    requires
        forall|i: int| 0 <= i < exports.len() ==> is_export(#[trigger] exports[i]),
    ensures
        entry_names(
            before + entries_bytes(exports) + after,
            before.len() as int,
            exports.len(),
        ) == names_of(exports),
    decreases exports.len(),
{
    let w = before + entries_bytes(exports) + after;
    if exports.len() == 0 {
        assert(names_of(exports) =~= seq![]);
    } else {
        let e = exports[0];
        assert(is_export(e));
        let rest = exports.drop_first();
        let tail = entries_bytes(rest) + after;
        let j = before.len() as int;
        let behind = e.name + seq![e.kind] + e.index + tail;
        law_uleb_round_trip(before, e.size, e.name.len(), behind);
        assert(before + e.size + behind =~= w);
        assert(entry_name(w, j) =~= e.name);
        let upto = before + e.size + e.name + seq![e.kind];
        let n = choose|n: nat| encodes(e.index, n);
        law_uleb_round_trip(upto, e.index, n, tail);
        assert(upto + e.index + tail =~= w);
        let longer = before + entry_bytes(e);
        assert(entry_next(w, j) == longer.len());
        assert forall|i: int| 0 <= i < rest.len() implies is_export(#[trigger] rest[i]) by {
            assert(is_export(exports[i + 1]));
        }
        lemma_entries(longer, rest, after);
        assert(longer + entries_bytes(rest) + after =~= w);
        assert(names_of(exports) =~= seq![e.name] + names_of(rest));
    }
}

/// Other sections are passed over.
proof fn lemma_sections(before: Seq<u8>, sections: Seq<Section>, after: Seq<u8>)
    requires
        forall|i: int| 0 <= i < sections.len() ==> is_other_section(#[trigger] sections[i]),
    ensures
        export_section(before + sections_bytes(sections) + after, before.len() as int)
            == export_section(
            before + sections_bytes(sections) + after,
            (before + sections_bytes(sections)).len() as int,
        ),
    decreases sections.len(),
{
    let w = before + sections_bytes(sections) + after;
    if sections.len() > 0 {
        let s = sections[0];
        assert(is_other_section(s));
        let rest = sections.drop_first();
        let i = before.len() as int;
        let tail = sections_bytes(rest) + after;
        assert(w[i] == s.id);
        law_uleb_round_trip(before.push(s.id), s.size, s.contents.len(), s.contents + tail);
        assert(before.push(s.id) + s.size + (s.contents + tail) =~= w);
        let longer = before + section_bytes(s);
        assert forall|k: int| 0 <= k < rest.len() implies is_other_section(#[trigger] rest[k]) by {
            assert(is_other_section(sections[k + 1]));
        }
        lemma_sections(longer, rest, after);
        assert(longer + sections_bytes(rest) + after =~= w);
        assert((longer + sections_bytes(rest)).len() == (before + sections_bytes(sections)).len());
    }
}

/// Reading the exports of a module gives back the names it was written with,
/// in the order in which they were written, whatever the header is, whatever sections
/// stand before and whatever follows, and however its numbers are padded.
pub proof fn law_exports_round_trip(front: Front, s: ExportSection, after: Seq<u8>)
    requires
        is_front(front),
        is_export_section(s),
    ensures
        export_names(module_bytes(front, s, after)) == names_of(s.exports),
{
    let w = module_bytes(front, s, after);
    let contents = s.count + entries_bytes(s.exports);
    let head = front.header + sections_bytes(front.sections);
    let rest = section_bytes(Section { id: EXPORT_SECTION, size: s.size, contents }) + after;
    lemma_sections(front.header, front.sections, rest);
    assert(front.header + sections_bytes(front.sections) + rest =~= w);
    let id_end = head.push(EXPORT_SECTION);
    assert(w[head.len() as int] == EXPORT_SECTION);
    law_uleb_round_trip(id_end, s.size, contents.len(), contents + after);
    assert(id_end + s.size + (contents + after) =~= w);
    let at = id_end + s.size;
    law_uleb_round_trip(at, s.count, s.exports.len(), entries_bytes(s.exports) + after);
    assert(at + s.count + (entries_bytes(s.exports) + after) =~= w);
    lemma_entries(at + s.count, s.exports, after);
    assert(at + s.count + entries_bytes(s.exports) + after =~= w);
}

/// The systems of a module are those of its first export section alone: another
/// header, other sections before it and other bytes behind it, a second export
/// section among them, change nothing.
pub proof fn law_only_the_export_section_counts(
    front: Front,
    other_front: Front,
    s: ExportSection,
    after: Seq<u8>,
    other_after: Seq<u8>,
)
    requires
        is_front(front),
        is_front(other_front),
        is_export_section(s),
    ensures
        tick_names(export_names(module_bytes(front, s, after))) == tick_names(
            export_names(module_bytes(other_front, s, other_after)),
        ),
{
    law_exports_round_trip(front, s, after);
    law_exports_round_trip(other_front, s, other_after);
}

/// The systems of a module keep the order of its exports: what is listed first
/// comes first, and leaving a name out moves no other.
pub proof fn law_tick_order(names: Seq<Seq<u8>>, more: Seq<Seq<u8>>)
    ensures
        tick_names(names + more) == tick_names(names) + tick_names(more),
    decreases names.len(),
{
    if names.len() == 0 {
        assert(names + more =~= more);
        assert(tick_names(names) + tick_names(more) =~= tick_names(more));
    } else {
        law_tick_order(names.drop_first(), more);
        assert((names + more).drop_first() =~= names.drop_first() + more);
        if is_tick_name(names[0]) {
            let head = seq![decode_utf8(names[0])];
            assert(head + (tick_names(names.drop_first()) + tick_names(more)) =~= head + tick_names(
                names.drop_first(),
            ) + tick_names(more));
        }
    }
}

} // verus!
