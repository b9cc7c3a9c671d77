//! An executable loaded from bytes: its file-space and memory-space region
//! trees.

use crate::elf::{
    header_of, known_byte_order, known_flags, parse_header, parse_section_records, records_of,
    regular_flags, section_flag_name, section_type_name, shf_text, sht_text, ElfHeader,
    SectionRecord, HEADER_SIZE, SHF_ALLOC, SHT_DYNAMIC, SHT_NOBITS, SHT_NULL, SHT_REL, SHT_RELA,
};
use crate::region::{
    all_ranges, all_trees_ranges, apart_or_same, distinct_ranges, notes_view, strictly_apart,
    tree_sorted, views, FileNode, Region, SectionType,
};
use crate::resolve::resolve;
use crate::strtab::{out_of_bounds_name, parse_str_table, table_name};
use crate::text::{decimal, digits, hex, hex_text};
use crate::tree::{
    build_tree, inside, lemma_region_tree, lemma_region_tree_apart, lemma_sorted_tree, ordered,
    region_tree,
};
use vstd::prelude::*;
use vstd::slice::slice_subrange;

verus! {

broadcast use vstd::std_specs::vec::group_vec_axioms;

/// A list of (label, text) notes.
pub type Notes = Seq<(Seq<char>, Seq<char>)>;

/// The note carried by a region whose range was empty and is shown one byte long.
pub open spec fn widen_note() -> (Seq<char>, Seq<char>) {
    ("display"@, "zero-length range widened to one byte"@)
}

/// The end of the range `[start, end)` as shown: one past `start` when the range is empty.
pub open spec fn shown_end(start: u64, end: int) -> int {
    if end == start {
        start + 1
    } else {
        end
    }
}

/// A region without children; an empty range is widened to one byte and noted.
pub open spec fn leaf(
    name: Seq<char>,
    start: u64,
    end: int,
    ram: (u64, u64),
    file: (u64, u64),
    kind: SectionType,
    notes: Notes,
) -> Region {
    Region {
        name,
        start,
        end: shown_end(start, end) as u64,
        ram_start: ram.0,
        ram_end: ram.1,
        file_start: file.0,
        file_end: file.1,
        kind,
        notes: if end == start {
            notes.push(widen_note())
        } else {
            notes
        },
        children: seq![],
    }
}

/// Builds a region without children, as [`leaf`] says.
fn make_leaf(
    name: String,
    start: u64,
    end: u64,
    ram: (u64, u64),
    file: (u64, u64),
    ty: SectionType,
    notes: Vec<(String, String)>,
) -> (r: FileNode)
    requires
        start <= end,
        end == start ==> start < u64::MAX,
    ensures
        r@ == leaf(name@, start, end as int, ram, file, ty, notes_view(notes@)),
        r.bytes_start == start,
        r.bytes_end == shown_end(start, end as int),
        r.bytes_start < r.bytes_end,
        r.children@.len() == 0,
{
    let mut notes = notes;
    let ghost notes0 = notes@;
    let mut shown = end;
    if end == start {
        shown = start + 1;
        notes.push((String::from_str("display"), String::from_str("zero-length range widened to one byte")));
        assert(notes_view(notes@) =~= notes_view(notes0).push(widen_note()));
    }
    let r = FileNode {
        name,
        bytes_start: start,
        bytes_end: shown,
        ram_bytes_start: ram.0,
        ram_bytes_end: ram.1,
        file_bytes_start: file.0,
        file_bytes_end: file.1,
        ty,
        notes,
        children: Vec::new(),
    };
    assert(r@.children =~= seq![]);
    assert(r@ =~= leaf(name@, start, end as int, ram, file, ty, notes_view(notes0)));
    r
}

/// The flag names of `flags` that are set in `f`, joined by `|`.
pub open spec fn flags_join(f: u64, flags: Seq<u32>) -> Seq<char>
    decreases flags.len(),
{
    if flags.len() == 0 {
        seq![]
    } else {
        let prev = flags_join(f, flags.drop_last());
        let flag = flags.last();
        if f & (flag as u64) != 0 {
            if prev.len() == 0 {
                section_flag_name(flag)
            } else {
                prev + seq!['|'] + section_flag_name(flag)
            }
        } else {
            prev
        }
    }
}

/// The names of the known flags set in `f`, joined by `|`, or `NONE`.
pub open spec fn flags_text(f: u64) -> Seq<char> {
    if flags_join(f, known_flags()).len() == 0 {
        "NONE"@
    } else {
        flags_join(f, known_flags())
    }
}

/// Names the known flags set in `f`, as [`flags_text`] says.
pub fn describe_flags(f: u64) -> (r: String)
    ensures
        r@ == flags_text(f),
{
    let flags = regular_flags();
    let mut out = String::new();
    let mut k: usize = 0;
    while k < flags.len()
        invariant
            flags@ == known_flags(),
            k <= flags@.len(),
            out@ == flags_join(f, flags@.subrange(0, k as int)),
        decreases flags@.len() - k,
    {
        let flag = flags[k];
        proof {
            assert(flags@.subrange(0, k + 1).drop_last() =~= flags@.subrange(0, k as int));
        }
        if f & (flag as u64) != 0 {
            if !out.as_str().is_empty() {
                out.append("|");
                proof {
                    reveal_strlit("|");
                }
            }
            let name = shf_text(flag);
            out.append(name.as_str());
        }
        k = k + 1;
    }
    assert(flags@.subrange(0, flags@.len() as int) =~= flags@);
    if out.as_str().is_empty() {
        String::from_str("NONE")
    } else {
        out
    }
}

} // verus!

verus! {

/// What the parser reads from a file: its header, its section header
/// records, and the bytes of its section name table.
pub struct Layout {
    pub data: Seq<u8>,
    pub header: ElfHeader,
    pub records: Seq<SectionRecord>,
    pub names: Seq<u8>,
}

/// The note on a region whose name offset lies past the end of the name table.
pub open spec fn name_note() -> (Seq<char>, Seq<char>) {
    ("diagnostic"@, "name offset lies past the end of the section name table"@)
}

/// The name of section `i`.
pub open spec fn section_name(l: Layout, i: int) -> Seq<char> {
    table_name(l.names, l.records[i].sh_name as int)
}

/// The note on section `i` when its name could not be found.
pub open spec fn name_notes(l: Layout, i: int) -> Notes {
    if l.records[i].sh_name as int > l.names.len() {
        seq![name_note()]
    } else {
        seq![]
    }
}

/// The name of the section that section `i` links to.
pub open spec fn link_name(l: Layout, i: int) -> Seq<char> {
    let link = l.records[i].sh_link as int;
    if link < l.records.len() {
        table_name(l.names, l.records[link].sh_name as int)
    } else {
        "bad link section"@
    }
}

/// The notes that describe section `i`.
pub open spec fn section_notes(l: Layout, i: int) -> Notes {
    let rec = l.records[i];
    let base = seq![
        ("type"@, section_type_name(rec.sh_type)),
        ("flags"@, flags_text(rec.sh_flags)),
        ("address"@, hex_text(rec.sh_addr as nat)),
        ("address alignment"@, hex_text(rec.sh_addralign as nat)),
    ];
    let linked = if rec.sh_type == SHT_DYNAMIC {
        seq![("string table in section"@, link_name(l, i))]
    } else if rec.sh_type == SHT_REL || rec.sh_type == SHT_RELA {
        seq![("symbol table in section"@, link_name(l, i))]
    } else {
        seq![]
    };
    base + linked + name_notes(l, i)
}

/// `a + b`, or `u64::MAX` when the sum does not fit.
pub open spec fn capped_sum(a: u64, b: u64) -> u64 {
    if a + b > u64::MAX {
        u64::MAX
    } else {
        (a + b) as u64
    }
}

pub open spec fn occupies_memory(rec: SectionRecord) -> bool {
    rec.sh_flags & SHF_ALLOC != 0
}

pub open spec fn stored_in_file(rec: SectionRecord) -> bool {
    rec.sh_type != SHT_NOBITS && rec.sh_type != SHT_NULL
}

/// The region of section `i`'s contents, in memory when `in_memory`, else in the file.
pub open spec fn content_region(l: Layout, i: int, in_memory: bool) -> Region {
    let rec = l.records[i];
    let start = if in_memory {
        rec.sh_addr
    } else {
        rec.sh_offset
    };
    leaf(
        section_name(l, i),
        start,
        start + rec.sh_size,
        (rec.sh_addr, capped_sum(rec.sh_addr, rec.sh_size)),
        (rec.sh_offset, capped_sum(rec.sh_offset, rec.sh_size)),
        SectionType::SectionContent,
        section_notes(l, i),
    )
}

/// Why the contents of section `i` cannot be placed, if they cannot: a memory
/// range past the end of the address space, or a file range past the end of
/// the buffer.
pub open spec fn section_error(l: Layout, i: int) -> Option<ParseError> {
    let rec = l.records[i];
    if occupies_memory(rec) && shown_end(rec.sh_addr, rec.sh_addr + rec.sh_size) > u64::MAX {
        Some(ParseError::AddressOverflow { address: rec.sh_addr, size: rec.sh_size })
    } else if stored_in_file(rec) && shown_end(rec.sh_offset, rec.sh_offset + rec.sh_size)
        > l.data.len() {
        Some(
            ParseError::MalformedTableBounds {
                offset: rec.sh_offset,
                length: rec.sh_size,
                buffer_len: l.data.len() as u64,
            },
        )
    } else {
        None
    }
}

/// The content regions of the first `k` sections, in the file and in
/// memory, or the error of the first section that cannot be placed.
pub open spec fn contents(l: Layout, k: nat) -> Result<(Seq<Region>, Seq<Region>), ParseError>
    decreases k,
{
    if k == 0 {
        Ok((seq![], seq![]))
    } else {
        match contents(l, (k - 1) as nat) {
            Err(e) => Err(e),
            Ok((f, m)) => match section_error(l, k - 1) {
                Some(e) => Err(e),
                None => {
                    let rec = l.records[k - 1];
                    let f2 = if stored_in_file(rec) {
                        f.push(content_region(l, k - 1, false))
                    } else {
                        f
                    };
                    let m2 = if occupies_memory(rec) {
                        m.push(content_region(l, k - 1, true))
                    } else {
                        m
                    };
                    Ok((f2, m2))
                },
            },
        }
    }
}

/// Why a parse fails.
#[derive(Clone, Copy, Debug, PartialEq, Eq, Structural)]
pub enum ParseError {
    /// The buffer does not start with the four-byte ELF signature.
    BadMagic,
    /// The byte-order tag, at offset 5 of the header, is neither 1 nor 2.
    UnknownByteOrder { tag: u8 },
    /// The buffer is shorter than the fixed header.
    TruncatedHeader { len: u64 },
    /// A table or section would lie outside the buffer.
    MalformedTableBounds { offset: u64, length: u64, buffer_len: u64 },
    /// A section's memory range runs past the end of the address space.
    AddressOverflow { address: u64, size: u64 },
}

} // verus!

verus! {

fn note(label: &str, text: String) -> (r: (String, String))
    ensures
        r.0@ == label@,
        r.1@ == text@,
{
    (String::from_str(label), text)
}

/// Names the section that section `i` links to, as [`link_name`] says.
fn describe_link(records: &Vec<SectionRecord>, names: &[u8], i: usize, Ghost(l): Ghost<Layout>) -> (r: String)
    requires
        i < records@.len(),
        l.records == records@,
        l.names == names@,
    ensures
        r@ == link_name(l, i as int),
{
    let link = records[i].sh_link as usize;
    if link < records.len() {
        parse_str_table(names, records[link].sh_name)
    } else {
        String::from_str("bad link section")
    }
}

/// The notes on section `i` when its name could not be found, as [`name_notes`] says.
fn describe_name_failure(records: &Vec<SectionRecord>, names: &[u8], i: usize, Ghost(l): Ghost<Layout>) -> (r: Vec<(String, String)>)
    requires
        i < records@.len(),
        l.records == records@,
        l.names == names@,
    ensures
        notes_view(r@) == name_notes(l, i as int),
{
    let mut notes: Vec<(String, String)> = Vec::new();
    if records[i].sh_name as usize > names.len() {
        notes.push(note("diagnostic", String::from_str("name offset lies past the end of the section name table")));
    }
    assert(notes_view(notes@) =~= name_notes(l, i as int));
    notes
}

/// The notes that describe section `i`, as [`section_notes`] says.
fn describe_section(records: &Vec<SectionRecord>, names: &[u8], i: usize, Ghost(l): Ghost<Layout>) -> (r: Vec<(String, String)>)
    requires
        i < records@.len(),
        l.records == records@,
        l.names == names@,
    ensures
        notes_view(r@) == section_notes(l, i as int),
{
    let rec = records[i];
    let mut notes: Vec<(String, String)> = Vec::new();
    notes.push(note("type", sht_text(rec.sh_type)));
    notes.push(note("flags", describe_flags(rec.sh_flags)));
    notes.push(note("address", hex(rec.sh_addr)));
    notes.push(note("address alignment", hex(rec.sh_addralign)));
    if rec.sh_type == SHT_DYNAMIC {
        notes.push(note("string table in section", describe_link(records, names, i, Ghost(l))));
    } else if rec.sh_type == SHT_REL || rec.sh_type == SHT_RELA {
        notes.push(note("symbol table in section", describe_link(records, names, i, Ghost(l))));
    }
    let ghost before = notes@;
    let mut failure = describe_name_failure(records, names, i, Ghost(l));
    let ghost tail = failure@;
    notes.append(&mut failure);
    assert(notes_view(notes@) =~= notes_view(before) + notes_view(tail));
    assert(notes_view(notes@) =~= section_notes(l, i as int));
    notes
}

fn capped_add(a: u64, b: u64) -> (r: u64)
    ensures
        r == capped_sum(a, b),
{
    if a > u64::MAX - b {
        u64::MAX
    } else {
        a + b
    }
}

/// The region of section `i`'s contents, as [`content_region`] says.
fn make_content_region(records: &Vec<SectionRecord>, names: &[u8], i: usize, in_memory: bool, Ghost(l): Ghost<Layout>) -> (r: FileNode)
    requires
        i < records@.len(),
        l.records == records@,
        l.names == names@,
        section_error(l, i as int).is_none(),
        l.data.len() <= u64::MAX,
        in_memory ==> occupies_memory(records@[i as int]),
        !in_memory ==> stored_in_file(records@[i as int]),
    ensures
        r@ == content_region(l, i as int, in_memory),
        r.bytes_start < r.bytes_end,
        !in_memory ==> r.bytes_end <= l.data.len(),
        r.children@.len() == 0,
{
    let rec = records[i];
    let start = if in_memory {
        rec.sh_addr
    } else {
        rec.sh_offset
    };
    assert(shown_end(start, start + rec.sh_size) <= u64::MAX);
    let name = parse_str_table(names, rec.sh_name);
    let notes = describe_section(records, names, i, Ghost(l));
    make_leaf(
        name,
        start,
        start + rec.sh_size,
        (rec.sh_addr, capped_add(rec.sh_addr, rec.sh_size)),
        (rec.sh_offset, capped_add(rec.sh_offset, rec.sh_size)),
        SectionType::SectionContent,
        notes,
    )
}

} // verus!

verus! {

/// `count` entries of `size` bytes from `off` on lie inside a buffer of
/// `len` bytes, each empty entry taken as one byte long.
pub open spec fn table_fits(off: u64, count: u16, size: u16, len: int) -> bool {
    &&& off + count * size <= len
    &&& (count > 0 && size == 0 ==> off < len)
}

/// The first table of `data` that lies outside it, if any: the header itself,
/// the program header table, and the section header table as its entry size
/// and as its 64-byte records measure it.
pub open spec fn table_error(data: Seq<u8>, h: ElfHeader) -> Option<ParseError> {
    let len = data.len() as int;
    if h.e_ehsize > len {
        Some(ParseError::MalformedTableBounds { offset: 0, length: h.e_ehsize as u64, buffer_len: len as u64 })
    } else if !table_fits(h.e_phoff, h.e_phnum, h.e_phentsize, len) {
        Some(
            ParseError::MalformedTableBounds {
                offset: h.e_phoff,
                length: (h.e_phnum * h.e_phentsize) as u64,
                buffer_len: len as u64,
            },
        )
    } else if !table_fits(h.e_shoff, h.e_shnum, h.e_shentsize, len) {
        Some(
            ParseError::MalformedTableBounds {
                offset: h.e_shoff,
                length: (h.e_shnum * h.e_shentsize) as u64,
                buffer_len: len as u64,
            },
        )
    } else if h.e_shnum > 0 && h.e_shoff + h.e_shnum * 64 > len {
        Some(
            ParseError::MalformedTableBounds {
                offset: h.e_shoff,
                length: (h.e_shnum * 64) as u64,
                buffer_len: len as u64,
            },
        )
    } else {
        None
    }
}

/// The section header records of `data`.
pub open spec fn records_in(data: Seq<u8>, h: ElfHeader) -> Seq<SectionRecord> {
    records_of(data, h.e_shoff as int, h.e_shnum as nat, h.ei_data == 2)
}

/// Why the section name table cannot be read, if it cannot: its index names
/// no record, or its bytes lie outside the buffer.
pub open spec fn names_error(data: Seq<u8>, h: ElfHeader) -> Option<ParseError> {
    let len = data.len() as int;
    let recs = records_in(data, h);
    if h.e_shnum == 0 {
        None
    } else if h.e_shstrndx >= h.e_shnum {
        Some(
            ParseError::MalformedTableBounds {
                offset: h.e_shoff,
                length: ((h.e_shstrndx + 1) * 64) as u64,
                buffer_len: len as u64,
            },
        )
    } else if recs[h.e_shstrndx as int].sh_offset + recs[h.e_shstrndx as int].sh_size > len {
        Some(
            ParseError::MalformedTableBounds {
                offset: recs[h.e_shstrndx as int].sh_offset,
                length: recs[h.e_shstrndx as int].sh_size,
                buffer_len: len as u64,
            },
        )
    } else {
        None
    }
}

/// What the parser reads from `data`, once its tables are known to fit.
pub open spec fn layout_of(data: Seq<u8>) -> Layout {
    let h = header_of(data);
    let recs = records_in(data, h);
    let st = recs[h.e_shstrndx as int];
    Layout {
        data,
        header: h,
        records: recs,
        names: if h.e_shnum == 0 {
            seq![]
        } else {
            data.subrange(st.sh_offset as int, st.sh_offset + st.sh_size)
        },
    }
}

pub open spec fn header_region(h: ElfHeader) -> Region {
    leaf("ELF Header"@, 0, h.e_ehsize as int, (0, 0), (0, h.e_ehsize as u64), SectionType::ElfHeader, seq![])
}

pub open spec fn program_entry_region(h: ElfHeader, i: int) -> Region {
    let start = h.e_phoff + i * h.e_phentsize;
    let end = h.e_phoff + (i + 1) * h.e_phentsize;
    leaf(
        "Program Header Segment #"@ + digits(i as nat, 10),
        start as u64,
        end,
        (0, 0),
        (start as u64, end as u64),
        SectionType::ElfProgramHeader,
        seq![],
    )
}

pub open spec fn section_entry_region(l: Layout, i: int) -> Region {
    let h = l.header;
    let start = h.e_shoff + i * h.e_shentsize;
    let end = h.e_shoff + (i + 1) * h.e_shentsize;
    leaf(
        "ELF Section Header for "@ + section_name(l, i),
        start as u64,
        end,
        (0, 0),
        (start as u64, end as u64),
        SectionType::ElfSectionHeader,
        name_notes(l, i),
    )
}

/// The flat list of file-space regions: the header, the program header
/// entries, the section header entries, then the section contents `f`.
pub open spec fn file_regions(l: Layout, f: Seq<Region>) -> Seq<Region> {
    seq![header_region(l.header)] + Seq::new(
        l.header.e_phnum as nat,
        |i: int| program_entry_region(l.header, i),
    ) + Seq::new(l.header.e_shnum as nat, |i: int| section_entry_region(l, i)) + f
}

/// The largest end among `s`, 0 for none.
pub open spec fn max_end(s: Seq<Region>) -> u64
    decreases s.len(),
{
    if s.len() == 0 {
        0
    } else if s.last().end > max_end(s.drop_last()) {
        s.last().end
    } else {
        max_end(s.drop_last())
    }
}

/// A root region spanning `[0, end)`.
pub open spec fn root_region(name: Seq<char>, end: u64, ram: (u64, u64), file: (u64, u64)) -> Region {
    Region {
        name,
        start: 0,
        end,
        ram_start: ram.0,
        ram_end: ram.1,
        file_start: file.0,
        file_end: file.1,
        kind: SectionType::Root,
        notes: seq![],
        children: seq![],
    }
}

/// The mathematical value of an [`ExecutableFile`].
pub struct ExecutableView {
    pub file_root: Region,
    pub ram_root: Region,
    pub inspector_collapsed: bool,
    pub name: Seq<char>,
}

/// The two trees of `data` once its contents are placed.
pub open spec fn trees_of(name: Seq<char>, l: Layout, f: Seq<Region>, m: Seq<Region>) -> ExecutableView {
    let len = l.data.len() as u64;
    ExecutableView {
        file_root: region_tree(
            root_region("ELF file"@, len, (0, 0), (0, len)),
            file_regions(l, f),
        ),
        ram_root: region_tree(
            root_region("RAM"@, max_end(m), (0, max_end(m)), (0, len)),
            m,
        ),
        inspector_collapsed: false,
        name,
    }
}

pub open spec fn has_signature(data: Seq<u8>) -> bool {
    data.len() >= 4 && data[0] == 0x7f && data[1] == 0x45 && data[2] == 0x4c && data[3] == 0x46
}

/// The outcome of parsing `data` under the display name `name`.
pub open spec fn parse(name: Seq<char>, data: Seq<u8>) -> Result<ExecutableView, ParseError> {
    if !has_signature(data) {
        Err(ParseError::BadMagic)
    } else if data.len() < 64 {
        Err(ParseError::TruncatedHeader { len: data.len() as u64 })
    } else if !known_byte_order(data) {
        Err(ParseError::UnknownByteOrder { tag: data[5] })
    } else {
        let h = header_of(data);
        match table_error(data, h) {
            Some(e) => Err(e),
            None => match names_error(data, h) {
                Some(e) => Err(e),
                None => {
                    let l = layout_of(data);
                    match contents(l, h.e_shnum as nat) {
                        Err(e) => Err(e),
                        Ok((f, m)) => Ok(trees_of(name, l, f, m)),
                    }
                },
            },
        }
    }
}

} // verus!

verus! {

/// A region that lies inside `[0, total]`, is not empty, and has no children.
pub open spec fn placed(n: FileNode, total: int) -> bool {
    n.bytes_start < n.bytes_end <= total && n.children@.len() == 0
}

proof fn lemma_entry_bounds(off: u64, i: int, count: u16, size: u16, len: int)
    requires
        table_fits(off, count, size, len),
        0 <= i < count,
    ensures
        off + i * size + size <= len,
        off + (i + 1) * size == off + i * size + size,
        i * size <= 0xffff_ffff,
        size == 0 ==> off + i * size < len,
{
    assert(i * size + size <= count * size) by (nonlinear_arith)
        requires
            0 <= i < count,
            0 <= size,
    ;
    assert((i + 1) * size == i * size + size) by (nonlinear_arith);
    assert(i * size <= 0xffff_ffff) by (nonlinear_arith)
        requires
            0 <= i < 0x10000,
            0 <= size < 0x10000,
    ;
    if size == 0 {
        assert(i * size == 0) by (nonlinear_arith)
            requires
                size == 0,
        ;
    }
}

fn fits(off: u64, count: u16, size: u16, len: u64) -> (r: bool)
    ensures
        r == table_fits(off, count, size, len as int),
{
    assert((count as u64) * (size as u64) <= 0xffff_ffff) by (nonlinear_arith)
        requires
            count < 0x10000,
            size < 0x10000,
    ;
    let total = count as u64 * size as u64;
    if off > len || total > len - off {
        false
    } else if count > 0 && size == 0 {
        off < len
    } else {
        true
    }
}

/// Finds the first table of `data` that lies outside it, as [`table_error`] says.
fn check_tables(data: &[u8], h: &ElfHeader) -> (r: Option<ParseError>)
    ensures
        r == table_error(data@, *h),
{
    let len = data.len() as u64;
    if h.e_ehsize as u64 > len {
        return Some(ParseError::MalformedTableBounds { offset: 0, length: h.e_ehsize as u64, buffer_len: len });
    }
    if !fits(h.e_phoff, h.e_phnum, h.e_phentsize, len) {
        assert((h.e_phnum as u64) * (h.e_phentsize as u64) <= 0xffff_ffff) by (nonlinear_arith)
            requires
                h.e_phnum < 0x10000,
                h.e_phentsize < 0x10000,
        ;
        return Some(
            ParseError::MalformedTableBounds {
                offset: h.e_phoff,
                length: h.e_phnum as u64 * h.e_phentsize as u64,
                buffer_len: len,
            },
        );
    }
    if !fits(h.e_shoff, h.e_shnum, h.e_shentsize, len) {
        assert((h.e_shnum as u64) * (h.e_shentsize as u64) <= 0xffff_ffff) by (nonlinear_arith)
            requires
                h.e_shnum < 0x10000,
                h.e_shentsize < 0x10000,
        ;
        return Some(
            ParseError::MalformedTableBounds {
                offset: h.e_shoff,
                length: h.e_shnum as u64 * h.e_shentsize as u64,
                buffer_len: len,
            },
        );
    }
    let records_len = h.e_shnum as u64 * 64;
    if h.e_shnum > 0 && (h.e_shoff > len || records_len > len - h.e_shoff) {
        return Some(
            ParseError::MalformedTableBounds { offset: h.e_shoff, length: records_len, buffer_len: len },
        );
    }
    None
}

/// Finds why the section name table cannot be read, as [`names_error`] says.
fn check_names(data: &[u8], h: &ElfHeader, records: &Vec<SectionRecord>) -> (r: Option<ParseError>)
    requires
        records@ == records_in(data@, *h),
    ensures
        r == names_error(data@, *h),
{
    let len = data.len() as u64;
    if h.e_shnum == 0 {
        return None;
    }
    if h.e_shstrndx >= h.e_shnum {
        return Some(
            ParseError::MalformedTableBounds {
                offset: h.e_shoff,
                length: (h.e_shstrndx as u64 + 1) * 64,
                buffer_len: len,
            },
        );
    }
    let st = records[h.e_shstrndx as usize];
    if st.sh_offset > len || st.sh_size > len - st.sh_offset {
        return Some(
            ParseError::MalformedTableBounds { offset: st.sh_offset, length: st.sh_size, buffer_len: len },
        );
    }
    None
}

/// Appends the regions of the program header entries.
fn push_program_entries(flat: &mut Vec<FileNode>, h: &ElfHeader, len: u64)
    requires
        table_fits(h.e_phoff, h.e_phnum, h.e_phentsize, len as int),
    ensures
        views(final(flat)@) == views(old(flat)@) + Seq::new(
            h.e_phnum as nat,
            |i: int| program_entry_region(*h, i),
        ),
        forall|k: int| 0 <= k < old(flat)@.len() ==> final(flat)@[k] == old(flat)@[k],
        forall|k: int| old(flat)@.len() <= k < final(flat)@.len() ==> placed(#[trigger] final(flat)@[k], len as int),
        final(flat)@.len() == old(flat)@.len() + h.e_phnum,
{
    let ghost start_len = flat@.len();
    let ghost before = flat@;
    let mut i: u16 = 0;
    while i < h.e_phnum
        invariant
            table_fits(h.e_phoff, h.e_phnum, h.e_phentsize, len as int),
            i <= h.e_phnum,
            flat@.len() == start_len + i,
            flat@.subrange(0, start_len as int) == before,
            views(flat@) == views(before) + Seq::new(i as nat, |k: int| program_entry_region(*h, k)),
            forall|k: int| start_len <= k < flat@.len() ==> placed(#[trigger] flat@[k], len as int),
        decreases h.e_phnum - i,
    {
        proof {
            lemma_entry_bounds(h.e_phoff, i as int, h.e_phnum, h.e_phentsize, len as int);
        }
        let start = h.e_phoff + i as u64 * h.e_phentsize as u64;
        let end = start + h.e_phentsize as u64;
        let mut name = String::from_str("Program Header Segment #");
        let number = decimal(i as u64);
        name.append(number.as_str());
        let no_notes: Vec<(String, String)> = Vec::new();
        assert(notes_view(no_notes@) =~= seq![]);
        let node = make_leaf(name, start, end, (0, 0), (start, end), SectionType::ElfProgramHeader, no_notes);
        let ghost prev = flat@;
        flat.push(node);
        assert(flat@.subrange(0, start_len as int) =~= before);
        assert(views(flat@) =~= views(prev).push(node@));
        assert(Seq::new((i + 1) as nat, |k: int| program_entry_region(*h, k)) =~= Seq::new(
            i as nat,
            |k: int| program_entry_region(*h, k),
        ).push(program_entry_region(*h, i as int)));
        i = i + 1;
    }
    assert forall|k: int| 0 <= k < before.len() implies flat@[k] == before[k] by {
        assert(flat@.subrange(0, start_len as int)[k] == flat@[k]);
    }
}

} // verus!

verus! {

/// Appends the regions of the section header entries.
fn push_section_entries(
    flat: &mut Vec<FileNode>,
    h: &ElfHeader,
    records: &Vec<SectionRecord>,
    names: &[u8],
    Ghost(l): Ghost<Layout>,
)
    requires
        *h == l.header,
        table_fits(l.header.e_shoff, l.header.e_shnum, l.header.e_shentsize, l.data.len() as int),
        l.records == records@,
        l.names == names@,
        records@.len() == l.header.e_shnum,
        l.data.len() <= u64::MAX,
    ensures
        views(final(flat)@) == views(old(flat)@) + Seq::new(
            l.header.e_shnum as nat,
            |i: int| section_entry_region(l, i),
        ),
        forall|k: int| 0 <= k < old(flat)@.len() ==> final(flat)@[k] == old(flat)@[k],
        forall|k: int| old(flat)@.len() <= k < final(flat)@.len() ==> placed(#[trigger] final(flat)@[k], l.data.len() as int),
        final(flat)@.len() == old(flat)@.len() + l.header.e_shnum,
{
    let ghost start_len = flat@.len();
    let ghost before = flat@;
    let ghost len = l.data.len() as int;
    let mut i: usize = 0;
    while i < records.len()
        invariant
            table_fits(l.header.e_shoff, l.header.e_shnum, l.header.e_shentsize, len),
            *h == l.header,
            l.records == records@,
            l.names == names@,
            records@.len() == l.header.e_shnum,
            len == l.data.len(),
            len <= u64::MAX,
            i <= records@.len(),
            flat@.len() == start_len + i,
            flat@.subrange(0, start_len as int) == before,
            views(flat@) == views(before) + Seq::new(i as nat, |k: int| section_entry_region(l, k)),
            forall|k: int| start_len <= k < flat@.len() ==> placed(#[trigger] flat@[k], len),
        decreases records@.len() - i,
    {
        proof {
            lemma_entry_bounds(l.header.e_shoff, i as int, l.header.e_shnum, l.header.e_shentsize, len);
        }
        let start = h.e_shoff + i as u64 * h.e_shentsize as u64;
        let end = start + h.e_shentsize as u64;
        let mut name = String::from_str("ELF Section Header for ");
        let section = parse_str_table(names, records[i].sh_name);
        name.append(section.as_str());
        let notes = describe_name_failure(records, names, i, Ghost(l));
        let node = make_leaf(name, start, end, (0, 0), (start, end), SectionType::ElfSectionHeader, notes);
        let ghost prev = flat@;
        flat.push(node);
        assert(flat@.subrange(0, start_len as int) =~= before);
        assert(views(flat@) =~= views(prev).push(node@));
        assert(Seq::new((i + 1) as nat, |k: int| section_entry_region(l, k)) =~= Seq::new(
            i as nat,
            |k: int| section_entry_region(l, k),
        ).push(section_entry_region(l, i as int)));
        i = i + 1;
    }
    assert forall|k: int| 0 <= k < before.len() implies flat@[k] == before[k] by {
        assert(flat@.subrange(0, start_len as int)[k] == flat@[k]);
    }
}

} // verus!

verus! {

/// Finds why the contents of section `i` cannot be placed, as [`section_error`] says.
fn check_section(records: &Vec<SectionRecord>, i: usize, len: u64, Ghost(l): Ghost<Layout>) -> (r: Option<ParseError>)
    requires
        i < records@.len(),
        l.records == records@,
        l.data.len() == len,
    ensures
        r == section_error(l, i as int),
{
    let rec = records[i];
    let shown = if rec.sh_size == 0 {
        1
    } else {
        rec.sh_size
    };
    if rec.sh_flags & SHF_ALLOC != 0 && rec.sh_addr > u64::MAX - shown {
        return Some(ParseError::AddressOverflow { address: rec.sh_addr, size: rec.sh_size });
    }
    if rec.sh_type != SHT_NOBITS && rec.sh_type != SHT_NULL && (rec.sh_offset > len || shown > len
        - rec.sh_offset) {
        return Some(
            ParseError::MalformedTableBounds { offset: rec.sh_offset, length: rec.sh_size, buffer_len: len },
        );
    }
    None
}

/// Appends the content regions of every section, in the file to `file_flat`
/// and in memory to `ram`, as [`contents`] says.
fn push_contents(
    file_flat: &mut Vec<FileNode>,
    ram: &mut Vec<FileNode>,
    records: &Vec<SectionRecord>,
    names: &[u8],
    len: u64,
    Ghost(l): Ghost<Layout>,
) -> (r: Option<ParseError>)
    requires
        l.records == records@,
        l.names == names@,
        l.data.len() == len,
        old(ram)@.len() == 0,
    ensures
        match contents(l, records@.len()) {
            Err(e) => r == Some(e),
            Ok((f, m)) => {
                &&& r.is_none()
                &&& views(final(file_flat)@) == views(old(file_flat)@) + f
                &&& views(final(ram)@) == m
                &&& forall|k: int| 0 <= k < old(file_flat)@.len() ==> final(file_flat)@[k] == old(file_flat)@[k]
                &&& forall|k: int|
                    old(file_flat)@.len() <= k < final(file_flat)@.len() ==> placed(
                        #[trigger] final(file_flat)@[k],
                        l.data.len() as int,
                    )
                &&& forall|k: int| 0 <= k < final(ram)@.len() ==> placed(#[trigger] final(ram)@[k], u64::MAX as int)
            },
        },
{
    let ghost start_len = file_flat@.len();
    let ghost before = file_flat@;
    let mut i: usize = 0;
    assert(views(file_flat@) =~= views(before) + seq![]);
    assert(views(ram@) =~= seq![]);
    while i < records.len()
        invariant
            l.records == records@,
            l.names == names@,
            l.data.len() == len,
            i <= records@.len(),
            contents(l, i as nat) is Ok,
            views(file_flat@) == views(before) + contents(l, i as nat)->Ok_0.0,
            views(ram@) == contents(l, i as nat)->Ok_0.1,
            file_flat@.subrange(0, start_len as int) == before,
            file_flat@.len() >= start_len,
            forall|k: int| start_len <= k < file_flat@.len() ==> placed(#[trigger] file_flat@[k], len as int),
            forall|k: int| 0 <= k < ram@.len() ==> placed(#[trigger] ram@[k], u64::MAX as int),
        decreases records@.len() - i,
    {
        if let Some(e) = check_section(records, i, len, Ghost(l)) {
            proof {
                lemma_contents_stay_failed(l, (i + 1) as nat, records@.len());
            }
            return Some(e);
        }
        let rec = records[i];
        if rec.sh_type != SHT_NOBITS && rec.sh_type != SHT_NULL {
            let node = make_content_region(records, names, i, false, Ghost(l));
            let ghost prev = file_flat@;
            file_flat.push(node);
            assert(views(file_flat@) =~= views(prev).push(node@));
            assert(file_flat@.subrange(0, start_len as int) =~= before);
        }
        if rec.sh_flags & SHF_ALLOC != 0 {
            let node = make_content_region(records, names, i, true, Ghost(l));
            let ghost prev = ram@;
            ram.push(node);
            assert(views(ram@) =~= views(prev).push(node@));
        }
        i = i + 1;
    }
    assert forall|k: int| 0 <= k < before.len() implies file_flat@[k] == before[k] by {
        assert(file_flat@.subrange(0, start_len as int)[k] == file_flat@[k]);
    }
    None
}

/// A section that cannot be placed never reports a bad signature.
proof fn lemma_contents_error(l: Layout, k: nat)
    ensures
        contents(l, k) is Err ==> contents(l, k)->Err_0 != ParseError::BadMagic,
    decreases k,
{
    if k > 0 {
        lemma_contents_error(l, (k - 1) as nat);
    }
}

/// Once a section cannot be placed, the scan stays failed.
proof fn lemma_contents_stay_failed(l: Layout, k: nat, n: nat)
    requires
        contents(l, k) is Err,
        k <= n,
    ensures
        contents(l, n) == contents(l, k),
    decreases n - k,
{
    if k < n {
        lemma_contents_stay_failed(l, k, (n - 1) as nat);
    }
}

} // verus!

verus! {

proof fn lemma_max_end(s: Seq<Region>)
    ensures
        forall|k: int| 0 <= k < s.len() ==> #[trigger] s[k].end <= max_end(s),
    decreases s.len(),
{
    if s.len() > 0 {
        lemma_max_end(s.drop_last());
        assert forall|k: int| 0 <= k < s.len() implies #[trigger] s[k].end <= max_end(s) by {
            if k < s.len() - 1 {
                assert(s[k] == s.drop_last()[k]);
            }
        }
    }
}

/// The largest end among `nodes`, as [`max_end`] says.
fn largest_end(nodes: &Vec<FileNode>) -> (r: u64)
    ensures
        r == max_end(views(nodes@)),
{
    let ghost s = views(nodes@);
    let mut best: u64 = 0;
    let mut k: usize = 0;
    assert(s.subrange(0, 0) =~= seq![]);
    while k < nodes.len()
        invariant
            s == views(nodes@),
            k <= nodes@.len(),
            best == max_end(s.subrange(0, k as int)),
        decreases nodes@.len() - k,
    {
        assert(s.subrange(0, k + 1).drop_last() =~= s.subrange(0, k as int));
        if nodes[k].bytes_end > best {
            best = nodes[k].bytes_end;
        }
        k = k + 1;
    }
    assert(s.subrange(0, k as int) =~= s);
    best
}

/// A root without children spanning `[0, end)`, as [`root_region`] says.
fn make_root(name: &str, end: u64, ram: (u64, u64), file: (u64, u64)) -> (r: FileNode)
    ensures
        r@ == root_region(name@, end, ram, file),
{
    let r = FileNode {
        name: String::from_str(name),
        bytes_start: 0,
        bytes_end: end,
        ram_bytes_start: ram.0,
        ram_bytes_end: ram.1,
        file_bytes_start: file.0,
        file_bytes_end: file.1,
        ty: SectionType::Root,
        notes: Vec::new(),
        children: Vec::new(),
    };
    assert(r@.children =~= seq![]);
    assert(r@.notes =~= seq![]);
    assert(r@ =~= root_region(name@, end, ram, file));
    r
}

/// A loaded executable: its region trees over file offsets and over memory
/// addresses.
pub struct ExecutableFile {
    pub file_root: FileNode,
    pub ram_root: FileNode,
    /// Whether a viewer shows the file folded.
    pub inspector_collapsed: bool,
    pub name: String,
}

impl View for ExecutableFile {
    type V = ExecutableView;

    open spec fn view(&self) -> ExecutableView {
        ExecutableView {
            file_root: self.file_root@,
            ram_root: self.ram_root@,
            inspector_collapsed: self.inspector_collapsed,
            name: self.name@,
        }
    }
}

pub open spec fn outcome_view(r: Result<ExecutableFile, ParseError>) -> Result<ExecutableView, ParseError> {
    match r {
        Ok(f) => Ok(f@),
        Err(e) => Err(e),
    }
}

/// The flat list of file-space regions of `data`.
pub open spec fn file_flat_regions(data: Seq<u8>) -> Seq<Region> {
    match contents(layout_of(data), header_of(data).e_shnum as nat) {
        Ok((f, m)) => file_regions(layout_of(data), f),
        Err(_) => seq![],
    }
}

/// The memory-space regions of the sections of `data` that occupy memory.
pub open spec fn loaded_regions(data: Seq<u8>) -> Seq<Region> {
    match contents(layout_of(data), header_of(data).e_shnum as nat) {
        Ok((f, m)) => m,
        Err(_) => seq![],
    }
}

/// What holds of a region tree over `[0, total)`: the root spans exactly that
/// range; every node ends at or after its start; every region below the root
/// is non-empty and lies inside the range; at every node the children ascend
/// by start; and the root's children lie apart or cover the same range.
pub open spec fn tree_laws(root: Region, total: u64) -> bool {
    &&& root.start == 0
    &&& root.end == total
    &&& all_ranges(root, ordered())
    &&& all_trees_ranges(root.children, inside(total))
    &&& tree_sorted(root)
    &&& apart_or_same(root.children)
}

} // verus!

verus! {

proof fn lemma_placed_ranges(nodes: Seq<FileNode>, total: u64)
    requires
        forall|k: int| 0 <= k < nodes.len() ==> placed(#[trigger] nodes[k], total as int),
    ensures
        all_trees_ranges(views(nodes), inside(total)),
{
    assert forall|k: int| 0 <= k < views(nodes).len() implies all_ranges(#[trigger] views(nodes)[k], inside(total)) by {
        let r = nodes[k]@;
        assert(placed(nodes[k], total as int));
        assert(r.children.len() == 0);
    }
}

proof fn lemma_tree_laws(root: FileNode, nodes: Seq<FileNode>, total: u64)
    requires
        root@.start == 0,
        root@.end == total,
        forall|k: int| 0 <= k < nodes.len() ==> placed(#[trigger] nodes[k], total as int),
    ensures
        tree_laws(region_tree(root@, views(nodes)), total),
{
    lemma_placed_ranges(nodes, total);
    lemma_region_tree(root@, views(nodes));
}

impl ExecutableFile {
    /// Parses `data` as a 64-bit ELF file and builds its two region trees;
    /// `name` is the name to show for it.
    pub fn load_from_bytes(name: String, data: &[u8]) -> (r: Result<ExecutableFile, ParseError>)
        ensures
            outcome_view(r) == parse(name@, data@),
            (r is Err && r->Err_0 == ParseError::BadMagic) <==> !has_signature(data@),
            r is Ok ==> tree_laws(r->Ok_0@.file_root, data@.len() as u64),
            r is Ok ==> tree_laws(r->Ok_0@.ram_root, max_end(loaded_regions(data@))),
            r is Ok && distinct_ranges(file_flat_regions(data@)) ==> strictly_apart(
                r->Ok_0@.file_root.children,
            ),
            r is Ok && distinct_ranges(loaded_regions(data@)) ==> strictly_apart(
                r->Ok_0@.ram_root.children,
            ),
    {
        if data.len() < 4 || data[0] != 0x7f || data[1] != 0x45 || data[2] != 0x4c || data[3] != 0x46 {
            return Err(ParseError::BadMagic);
        }
        let len = data.len() as u64;
        if data.len() < HEADER_SIZE {
            return Err(ParseError::TruncatedHeader { len });
        }
        let h = match parse_header(data) {
            Some(h) => h,
            None => return Err(ParseError::UnknownByteOrder { tag: data[5] }),
        };
        if let Some(e) = check_tables(data, &h) {
            return Err(e);
        }
        let records: Vec<SectionRecord> = if h.e_shnum > 0 {
            match parse_section_records(data, h.e_shoff as usize, h.e_shnum as usize, h.is_big_endian()) {
                Some(v) => v,
                None => {
                    return Err(
                        ParseError::MalformedTableBounds {
                            offset: h.e_shoff,
                            length: h.e_shnum as u64 * 64,
                            buffer_len: len,
                        },
                    )
                },
            }
        } else {
            Vec::new()
        };
        assert(records@ =~= records_in(data@, h));
        if let Some(e) = check_names(data, &h, &records) {
            return Err(e);
        }
        let names: &[u8] = if h.e_shnum > 0 {
            let st = records[h.e_shstrndx as usize];
            slice_subrange(data, st.sh_offset as usize, (st.sh_offset + st.sh_size) as usize)
        } else {
            slice_subrange(data, 0, 0)
        };
        let ghost l = layout_of(data@);
        assert(l.names =~= names@);
        let mut file_flat: Vec<FileNode> = Vec::new();
        let no_notes: Vec<(String, String)> = Vec::new();
        assert(notes_view(no_notes@) =~= seq![]);
        let head = make_leaf(
            String::from_str("ELF Header"),
            0,
            h.e_ehsize as u64,
            (0, 0),
            (0, h.e_ehsize as u64),
            SectionType::ElfHeader,
            no_notes,
        );
        file_flat.push(head);
        push_program_entries(&mut file_flat, &h, len);
        push_section_entries(&mut file_flat, &h, &records, names, Ghost(l));
        let ghost entries = file_flat@;
        let mut ram: Vec<FileNode> = Vec::new();
        if let Some(e) = push_contents(&mut file_flat, &mut ram, &records, names, len, Ghost(l)) {
            proof {
                lemma_contents_error(l, records@.len());
            }
            return Err(e);
        }
        let ghost f = contents(l, records@.len())->Ok_0.0;
        let ghost m = contents(l, records@.len())->Ok_0.1;
        assert(views(file_flat@) =~= file_regions(l, f));
        let ram_end = largest_end(&ram);
        proof {
            lemma_max_end(m);
            assert forall|k: int| 0 <= k < ram@.len() implies placed(#[trigger] ram@[k], ram_end as int) by {
                assert(views(ram@)[k] == ram@[k]@);
                assert(m[k] == ram@[k]@);
                assert(m[k].end <= max_end(m));
                assert(placed(ram@[k], u64::MAX as int));
            }
            assert forall|k: int| 0 <= k < file_flat@.len() implies placed(#[trigger] file_flat@[k], len as int) by {
                if k < entries.len() {
                    assert(file_flat@[k] == entries[k]);
                }
            }
        }
        let file_root = make_root("ELF file", len, (0, 0), (0, len));
        let ram_root = make_root("RAM", ram_end, (0, ram_end), (0, len));
        proof {
            lemma_tree_laws(file_root, file_flat@, len);
            lemma_tree_laws(ram_root, ram@, ram_end);
            if distinct_ranges(views(file_flat@)) {
                lemma_placed_ranges(file_flat@, len);
                lemma_region_tree_apart(file_root@, views(file_flat@));
            }
            if distinct_ranges(views(ram@)) {
                lemma_placed_ranges(ram@, ram_end);
                lemma_region_tree_apart(ram_root@, views(ram@));
            }
        }
        let file_tree = build_tree(file_root, file_flat);
        let ram_tree = build_tree(ram_root, ram);
        Ok(ExecutableFile { file_root: file_tree, ram_root: ram_tree, inspector_collapsed: false, name })
    }
}

} // verus!

verus! {

/// A node over `[start, end)` named `name` with the given children.
pub open spec fn sample_region(name: Seq<char>, start: u64, end: u64, kind: SectionType, children: Seq<Region>) -> Region {
    Region {
        name,
        start,
        end,
        ram_start: 0,
        ram_end: 0,
        file_start: start,
        file_end: end,
        kind,
        notes: seq![],
        children,
    }
}

/// The sample tree: `foo` over `[0, 1_000_000)`, split at 10 into `child1` and
/// `child2`, the latter split at 100_000 into `child21` and `child22`.
pub open spec fn sample_tree() -> Region {
    sample_region(
        "foo"@,
        0,
        1_000_000,
        SectionType::ElfHeader,
        seq![
            sample_region("child1"@, 0, 10, SectionType::ElfHeader, seq![]),
            sample_region(
                "child2"@,
                10,
                1_000_000,
                SectionType::Text,
                seq![
                    sample_region("child21"@, 10, 100_000, SectionType::ElfHeader, seq![]),
                    sample_region("child22"@, 100_000, 1_000_000, SectionType::ElfHeader, seq![]),
                ],
            ),
        ],
    )
}

fn sample_node(name: &str, start: u64, end: u64, ty: SectionType, children: Vec<FileNode>) -> (r: FileNode)
    ensures
        r@ == sample_region(name@, start, end, ty, views(children@)),
        children@.len() == 0 ==> r@ == sample_region(name@, start, end, ty, seq![]),
{
    let r = FileNode {
        name: String::from_str(name),
        bytes_start: start,
        bytes_end: end,
        ram_bytes_start: 0,
        ram_bytes_end: 0,
        file_bytes_start: start,
        file_bytes_end: end,
        ty,
        notes: Vec::new(),
        children,
    };
    assert(r@.children =~= views(children@));
    assert(r@.notes =~= seq![]);
    assert(r@ =~= sample_region(name@, start, end, ty, views(children@)));
    proof {
        if children@.len() == 0 {
            assert(views(children@) =~= seq![]);
        }
    }
    r
}

impl ExecutableFile {
    /// A small fixed file, for trying out a viewer without a binary at hand.
    pub fn load_dummy() -> (r: ExecutableFile)
        ensures
            r@.file_root == sample_tree(),
            r@.ram_root == root_region("RAM"@, 0, (0, 0), (0, 0)),
            r@.name == "dummy file"@,
            !r@.inspector_collapsed,
    {
        let child21 = sample_node("child21", 10, 100_000, SectionType::ElfHeader, Vec::new());
        let child22 = sample_node("child22", 100_000, 1_000_000, SectionType::ElfHeader, Vec::new());
        let mut grandchildren: Vec<FileNode> = Vec::new();
        grandchildren.push(child21);
        grandchildren.push(child22);
        let child1 = sample_node("child1", 0, 10, SectionType::ElfHeader, Vec::new());
        let child2 = sample_node("child2", 10, 1_000_000, SectionType::Text, grandchildren);
        let mut children: Vec<FileNode> = Vec::new();
        children.push(child1);
        children.push(child2);
        let root = sample_node("foo", 0, 1_000_000, SectionType::ElfHeader, children);
        proof {
            assert(views(grandchildren@) =~= seq![
                sample_region("child21"@, 10, 100_000, SectionType::ElfHeader, seq![]),
                sample_region("child22"@, 100_000, 1_000_000, SectionType::ElfHeader, seq![]),
            ]);
            assert(views(children@)[0] == sample_region("child1"@, 0, 10, SectionType::ElfHeader, seq![]));
            assert(views(children@) =~= sample_tree().children);
        }
        ExecutableFile {
            file_root: root,
            ram_root: make_root("RAM", 0, (0, 0), (0, 0)),
            inspector_collapsed: false,
            name: String::from_str("dummy file"),
        }
    }
}

} // verus!

verus! {

/// The text that describes a parse error.
pub open spec fn error_message(e: ParseError) -> Seq<char> {
    match e {
        ParseError::BadMagic => "Magic ELF bytes were wrong."@,
        ParseError::UnknownByteOrder { tag } => "Unknown byte order tag "@ + digits(tag as nat, 10)
            + "."@,
        ParseError::TruncatedHeader { len } => "The file is too short for an ELF header: "@
            + digits(len as nat, 10) + " bytes."@,
        ParseError::MalformedTableBounds { offset, length, buffer_len } => "Data at offset "@
            + hex_text(offset as nat) + " of length "@ + hex_text(length as nat)
            + " lies outside the file of length "@ + hex_text(buffer_len as nat) + "."@,
        ParseError::AddressOverflow { address, size } => "A section at address "@ + hex_text(
            address as nat,
        ) + " of size "@ + hex_text(size as nat) + " runs past the end of the address space."@,
    }
}

impl ParseError {
    /// Describes the error, as [`error_message`] says.
    pub fn message(&self) -> (r: String)
        ensures
            r@ == error_message(*self),
    {
        match *self {
            ParseError::BadMagic => String::from_str("Magic ELF bytes were wrong."),
            ParseError::UnknownByteOrder { tag } => {
                let mut s = String::from_str("Unknown byte order tag ");
                s.append(decimal(tag as u64).as_str());
                s.append(".");
                s
            },
            ParseError::TruncatedHeader { len } => {
                let mut s = String::from_str("The file is too short for an ELF header: ");
                s.append(decimal(len).as_str());
                s.append(" bytes.");
                s
            },
            ParseError::MalformedTableBounds { offset, length, buffer_len } => {
                let mut s = String::from_str("Data at offset ");
                s.append(hex(offset).as_str());
                s.append(" of length ");
                s.append(hex(length).as_str());
                s.append(" lies outside the file of length ");
                s.append(hex(buffer_len).as_str());
                s.append(".");
                s
            },
            ParseError::AddressOverflow { address, size } => {
                let mut s = String::from_str("A section at address ");
                s.append(hex(address).as_str());
                s.append(" of size ");
                s.append(hex(size).as_str());
                s.append(" runs past the end of the address space.");
                s
            },
        }
    }
}

} // verus!

verus! {

/// Parsing is deterministic: the same name and the same bytes give the same
/// outcome, down to every name, range, note and the nesting and order of the
/// regions of both trees.
pub proof fn lemma_parse_deterministic(name: Seq<char>, a: Seq<u8>, b: Seq<u8>)
    requires
        a == b,
    ensures
        parse(name, a) == parse(name, b),
{
}

} // verus!

verus! {

/// The highest end, as shown, of the memory ranges of the first `k` sections
/// that occupy memory; 0 when none does.
pub open spec fn loaded_end(l: Layout, k: nat) -> u64
    decreases k,
{
    if k == 0 {
        0
    } else {
        let rec = l.records[k - 1];
        let end = shown_end(rec.sh_addr, rec.sh_addr + rec.sh_size);
        if occupies_memory(rec) && end > loaded_end(l, (k - 1) as nat) {
            end as u64
        } else {
            loaded_end(l, (k - 1) as nat)
        }
    }
}

proof fn lemma_loaded_end(l: Layout, k: nat)
    requires
        contents(l, k) is Ok,
    ensures
        max_end(contents(l, k)->Ok_0.1) == loaded_end(l, k),
    decreases k,
{
    if k > 0 {
        lemma_loaded_end(l, (k - 1) as nat);
        let m = contents(l, (k - 1) as nat)->Ok_0.1;
        if occupies_memory(l.records[k - 1]) {
            let x = content_region(l, k - 1, true);
            assert(m.push(x).drop_last() =~= m);
        }
    }
}

/// The memory root of a parsed file spans from 0 to the highest end of the
/// memory ranges of the sections that occupy memory, an empty range counted
/// one byte long; it ends at 0 when no section occupies memory.
pub proof fn lemma_memory_root_end(name: Seq<char>, data: Seq<u8>)
    requires
        parse(name, data) is Ok,
    ensures
        parse(name, data)->Ok_0.ram_root.start == 0,
        parse(name, data)->Ok_0.ram_root.end == loaded_end(layout_of(data), header_of(data).e_shnum as nat),
{
    let l = layout_of(data);
    let k = header_of(data).e_shnum as nat;
    let m = contents(l, k)->Ok_0.1;
    lemma_loaded_end(l, k);
    let root = root_region("RAM"@, max_end(m), (0, max_end(m)), (0, data.len() as u64));
    lemma_sorted_tree(Region { children: resolve(m), ..root }, ordered());
}

} // verus!

verus! {

proof fn lemma_contents_hold(l: Layout, k: nat, i: int)
    requires
        contents(l, k) is Ok,
        0 <= i < k,
    ensures
        stored_in_file(l.records[i]) ==> exists|n: int|
            0 <= n < contents(l, k)->Ok_0.0.len() && #[trigger] contents(l, k)->Ok_0.0[n] == content_region(l, i, false),
        occupies_memory(l.records[i]) ==> exists|n: int|
            0 <= n < contents(l, k)->Ok_0.1.len() && #[trigger] contents(l, k)->Ok_0.1[n] == content_region(l, i, true),
    decreases k,
{
    let f = contents(l, (k - 1) as nat)->Ok_0.0;
    let m = contents(l, (k - 1) as nat)->Ok_0.1;
    if i < k - 1 {
        lemma_contents_hold(l, (k - 1) as nat, i);
        if stored_in_file(l.records[i]) {
            let n = choose|n: int| 0 <= n < f.len() && f[n] == content_region(l, i, false);
            if stored_in_file(l.records[k - 1]) {
                assert(f.push(content_region(l, k - 1, false))[n] == f[n]);
            }
        }
        if occupies_memory(l.records[i]) {
            let n = choose|n: int| 0 <= n < m.len() && m[n] == content_region(l, i, true);
            if occupies_memory(l.records[k - 1]) {
                assert(m.push(content_region(l, k - 1, true))[n] == m[n]);
            }
        }
    } else {
        if stored_in_file(l.records[i]) {
            assert(contents(l, k)->Ok_0.0[f.len() as int] == content_region(l, i, false));
        }
        if occupies_memory(l.records[i]) {
            assert(contents(l, k)->Ok_0.1[m.len() as int] == content_region(l, i, true));
        }
    }
}

/// The regions of a parsed file's sections: the file-space list holds the
/// region of each section's header entry, at its place after the file header
/// and the program header entries, and the region of the contents of each
/// section stored in the file; the memory-space list holds the region of each
/// section that occupies memory.
pub proof fn lemma_section_regions(name: Seq<char>, data: Seq<u8>, i: int)
    requires
        parse(name, data) is Ok,
        0 <= i < header_of(data).e_shnum,
    ensures
        file_flat_regions(data)[1 + header_of(data).e_phnum + i] == section_entry_region(layout_of(data), i),
        stored_in_file(layout_of(data).records[i]) ==> exists|n: int|
            0 <= n < file_flat_regions(data).len() && #[trigger] file_flat_regions(data)[n] == content_region(layout_of(data), i, false),
        occupies_memory(layout_of(data).records[i]) ==> exists|n: int|
            0 <= n < loaded_regions(data).len() && #[trigger] loaded_regions(data)[n] == content_region(layout_of(data), i, true),
{
    let l = layout_of(data);
    let h = header_of(data);
    let k = h.e_shnum as nat;
    let f = contents(l, k)->Ok_0.0;
    lemma_contents_hold(l, k, i);
    let pre = seq![header_region(h)] + Seq::new(h.e_phnum as nat, |j: int| program_entry_region(h, j))
        + Seq::new(h.e_shnum as nat, |j: int| section_entry_region(l, j));
    assert(file_flat_regions(data) == pre + f);
    assert(pre[1 + h.e_phnum + i] == section_entry_region(l, i));
    if stored_in_file(l.records[i]) {
        let n = choose|n: int| 0 <= n < f.len() && f[n] == content_region(l, i, false);
        assert((pre + f)[pre.len() + n] == f[n]);
    }
    assert(loaded_regions(data) == contents(l, k)->Ok_0.1);
}

/// An empty section is shown one byte long, from its offset in the file or
/// its address in memory, with a note that says so.
pub proof fn lemma_empty_section_widened(l: Layout, i: int, in_memory: bool)
    requires
        0 <= i < l.records.len(),
        l.records[i].sh_size == 0,
        (if in_memory { l.records[i].sh_addr } else { l.records[i].sh_offset }) < u64::MAX,
    ensures
        content_region(l, i, in_memory).start == (if in_memory { l.records[i].sh_addr } else { l.records[i].sh_offset }),
        content_region(l, i, in_memory).end == content_region(l, i, in_memory).start + 1,
        content_region(l, i, in_memory).notes.last() == widen_note(),
{
}

/// A section whose name offset lies past the end of the name table is not an
/// error: its regions take the placeholder name and carry a note that says
/// why.
pub proof fn lemma_bad_name_not_fatal(l: Layout, i: int, in_memory: bool)
    requires
        0 <= i < l.records.len(),
        l.records[i].sh_name > l.names.len(),
    ensures
        section_name(l, i) == out_of_bounds_name(),
        section_entry_region(l, i).name == "ELF Section Header for "@ + out_of_bounds_name(),
        section_entry_region(l, i).notes.contains(name_note()),
        content_region(l, i, in_memory).name == out_of_bounds_name(),
        content_region(l, i, in_memory).notes.contains(name_note()),
        section_error(l, i) == section_error(Layout { records: l.records.update(i, SectionRecord { sh_name: 0, ..l.records[i] }), ..l }, i),
{
    assert(section_entry_region(l, i).notes[0] == name_note());
    let notes = section_notes(l, i);
    assert(notes[notes.len() - 1] == name_note());
    assert(content_region(l, i, in_memory).notes[notes.len() - 1] == name_note());
}

} // verus!
