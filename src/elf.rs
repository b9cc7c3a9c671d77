//! The fixed-layout records of a 64-bit ELF file, read through goblin.

use vstd::prelude::*;

verus! {

/// Section type: unused header.
pub const SHT_NULL: u32 = 0;
/// Section type: relocation entries with addends.
pub const SHT_RELA: u32 = 4;
/// Section type: dynamic linking information.
pub const SHT_DYNAMIC: u32 = 6;
/// Section type: occupies no space in the file.
pub const SHT_NOBITS: u32 = 8;
/// Section type: relocation entries without addends.
pub const SHT_REL: u32 = 9;
/// Section flag: occupies memory during execution.
pub const SHF_ALLOC: u64 = 2;
/// Size of the ELF64 file header.
pub const HEADER_SIZE: usize = 64;
/// Size of one ELF64 section header record.
pub const SECTION_RECORD_SIZE: usize = 64;

/// The unsigned integer stored little-endian in `width` bytes of `data` at `off`.
pub open spec fn le_uint(data: Seq<u8>, off: int, width: nat) -> nat
    decreases width,
{
    if width == 0 {
        0
    } else {
        data[off] as nat + 256 * le_uint(data, off + 1, (width - 1) as nat)
    }
}

/// The unsigned integer stored big-endian in `width` bytes of `data` at `off`.
pub open spec fn be_uint(data: Seq<u8>, off: int, width: nat) -> nat
    decreases width,
{
    if width == 0 {
        0
    } else {
        be_uint(data, off, (width - 1) as nat) * 256 + data[off + width - 1] as nat
    }
}

pub open spec fn uint_at(data: Seq<u8>, off: int, width: nat, big_endian: bool) -> nat {
    if big_endian {
        be_uint(data, off, width)
    } else {
        le_uint(data, off, width)
    }
}

/// The fields of the ELF file header that locate its tables.
#[derive(Clone, Copy, Debug, PartialEq, Eq, Structural)]
pub struct ElfHeader {
    /// The byte-order tag: 1 for little-endian, 2 for big-endian.
    pub ei_data: u8,
    pub e_phoff: u64,
    pub e_shoff: u64,
    pub e_ehsize: u16,
    pub e_phentsize: u16,
    pub e_phnum: u16,
    pub e_shentsize: u16,
    pub e_shnum: u16,
    pub e_shstrndx: u16,
}

/// The byte-order tag at offset 5 of the identification bytes is one of the
/// two that ELF defines.
pub open spec fn known_byte_order(data: Seq<u8>) -> bool {
    data.len() > 5 && (data[5] == 1 || data[5] == 2)
}

/// The header fields of `data`, in the byte order that its tag names.
pub open spec fn header_of(data: Seq<u8>) -> ElfHeader {
    let big = data[5] == 2;
    ElfHeader {
        ei_data: data[5],
        e_phoff: uint_at(data, 32, 8, big) as u64,
        e_shoff: uint_at(data, 40, 8, big) as u64,
        e_ehsize: uint_at(data, 52, 2, big) as u16,
        e_phentsize: uint_at(data, 54, 2, big) as u16,
        e_phnum: uint_at(data, 56, 2, big) as u16,
        e_shentsize: uint_at(data, 58, 2, big) as u16,
        e_shnum: uint_at(data, 60, 2, big) as u16,
        e_shstrndx: uint_at(data, 62, 2, big) as u16,
    }
}

/// Relies on goblin's `elf64::header::Header::parse`: it fails when the buffer
/// is shorter than the 64-byte header or the byte-order tag is unknown, and
/// otherwise reads each field at its fixed offset in that byte order.
#[verifier::external_body]
pub(crate) fn parse_header(data: &[u8]) -> (r: Option<ElfHeader>)
    ensures
        match r {
            Some(h) => data@.len() >= HEADER_SIZE && known_byte_order(data@) && h == header_of(data@),
            None => !(data@.len() >= HEADER_SIZE && known_byte_order(data@)),
        },
{
    goblin::elf64::header::Header::parse(data).ok().map(|h| ElfHeader {
        ei_data: h.e_ident[5],
        e_phoff: h.e_phoff,
        e_shoff: h.e_shoff,
        e_ehsize: h.e_ehsize,
        e_phentsize: h.e_phentsize,
        e_phnum: h.e_phnum,
        e_shentsize: h.e_shentsize,
        e_shnum: h.e_shnum,
        e_shstrndx: h.e_shstrndx,
    })
}

impl ElfHeader {
    /// The file stores its integers big-endian.
    pub fn is_big_endian(&self) -> (r: bool)
        ensures
            r == (self.ei_data == 2),
    {
        self.ei_data == 2
    }
}

/// One section header record.
#[derive(Clone, Copy, Debug, PartialEq, Eq, Structural)]
pub struct SectionRecord {
    pub sh_name: u32,
    pub sh_type: u32,
    pub sh_flags: u64,
    pub sh_addr: u64,
    pub sh_offset: u64,
    pub sh_size: u64,
    pub sh_link: u32,
    pub sh_addralign: u64,
}

/// The section header record stored in `data` at `off`.
pub open spec fn record_of(data: Seq<u8>, off: int, big: bool) -> SectionRecord {
    SectionRecord {
        sh_name: uint_at(data, off, 4, big) as u32,
        sh_type: uint_at(data, off + 4, 4, big) as u32,
        sh_flags: uint_at(data, off + 8, 8, big) as u64,
        sh_addr: uint_at(data, off + 16, 8, big) as u64,
        sh_offset: uint_at(data, off + 24, 8, big) as u64,
        sh_size: uint_at(data, off + 32, 8, big) as u64,
        sh_link: uint_at(data, off + 40, 4, big) as u32,
        sh_addralign: uint_at(data, off + 48, 8, big) as u64,
    }
}

/// The `count` records of the table at `off`, one every 64 bytes.
pub open spec fn records_of(data: Seq<u8>, off: int, count: nat, big: bool) -> Seq<SectionRecord> {
    Seq::new(count, |k: int| record_of(data, off + k * 64, big))
}

/// Relies on goblin's `elf::section_header::SectionHeader::parse_from` for a
/// 64-bit file: with at least one record and the whole table inside the
/// buffer, it reads `count` records, 64 bytes apart from `off` on, in the
/// given byte order.
#[verifier::external_body]
pub(crate) fn parse_section_records(data: &[u8], off: usize, count: usize, big_endian: bool) -> (r: Option<Vec<SectionRecord>>)
    requires
        count >= 1,
        off + count * SECTION_RECORD_SIZE <= data@.len(),
    ensures
        r.is_some(),
        r.is_some() ==> r.unwrap()@ == records_of(data@, off as int, count as nat, big_endian),
{
    let le = if big_endian { goblin::container::Endian::Big } else { goblin::container::Endian::Little };
    let ctx = goblin::container::Ctx::new(goblin::container::Container::Big, le);
    let headers = goblin::elf::section_header::SectionHeader::parse_from(data, off, count, ctx).ok()?;
    Some(headers.iter().map(|s| SectionRecord {
        sh_name: s.sh_name as u32,
        sh_type: s.sh_type,
        sh_flags: s.sh_flags,
        sh_addr: s.sh_addr,
        sh_offset: s.sh_offset,
        sh_size: s.sh_size,
        sh_link: s.sh_link,
        sh_addralign: s.sh_addralign,
    }).collect())
}

/// The name that goblin gives a section type.
pub uninterp spec fn section_type_name(sh_type: u32) -> Seq<char>;

/// Relies on goblin's `elf::section_header::sht_to_str`: the symbolic name
/// of a section type, `"UNKNOWN_SHT"` for one it does not know.
#[verifier::external_body]
pub(crate) fn sht_text(sh_type: u32) -> (r: String)
    ensures
        r@ == section_type_name(sh_type),
{
    goblin::elf::section_header::sht_to_str(sh_type).to_owned()
}

/// The name that goblin gives a single section flag.
pub open spec fn section_flag_name(flag: u32) -> Seq<char> {
    if flag == 0x1 {
        "SHF_WRITE"@
    } else if flag == 0x2 {
        "SHF_ALLOC"@
    } else if flag == 0x4 {
        "SHF_EXECINSTR"@
    } else if flag == 0x10 {
        "SHF_MERGE"@
    } else if flag == 0x20 {
        "SHF_STRINGS"@
    } else if flag == 0x40 {
        "SHF_INFO_LINK"@
    } else if flag == 0x80 {
        "SHF_LINK_ORDER"@
    } else if flag == 0x100 {
        "SHF_OS_NONCONFORMING"@
    } else if flag == 0x200 {
        "SHF_GROUP"@
    } else if flag == 0x400 {
        "SHF_TLS"@
    } else if flag == 0x800 {
        "SHF_COMPRESSED"@
    } else if flag == 0x4000_0000 {
        "SHF_ORDERED"@
    } else {
        "SHF_UNKNOWN"@
    }
}

/// Relies on goblin's `elf::section_header::shf_to_str`: the symbolic name
/// of a single section flag, as [`section_flag_name`] lists them.
#[verifier::external_body]
pub(crate) fn shf_text(flag: u32) -> (r: String)
    ensures
        r@ == section_flag_name(flag),
{
    goblin::elf::section_header::shf_to_str(flag).to_owned()
}

/// The section flags that goblin names, in its order.
pub open spec fn known_flags() -> Seq<u32> {
    seq![0x1, 0x2, 0x4, 0x10, 0x20, 0x40, 0x80, 0x100, 0x200, 0x400, 0x800, 0x4000_0000]
}

/// Relies on goblin's `elf::section_header::SHF_FLAGS`: the twelve regular
/// section flags, from `SHF_WRITE` to `SHF_ORDERED`.
#[verifier::external_body]
pub(crate) fn regular_flags() -> (r: Vec<u32>)
    ensures
        r@ == known_flags(),
{
    goblin::elf::section_header::SHF_FLAGS.to_vec()
}

} // verus!
