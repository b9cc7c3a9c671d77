use executable_visualizer::region::{FileNode, SectionType};
use executable_visualizer::sections::{ExecutableFile, ParseError};

const SHT_PROGBITS: u32 = 1;
const SHT_STRTAB: u32 = 3;
const SHT_DYNAMIC: u32 = 6;
const SHT_NOBITS: u32 = 8;
const SHF_WRITE: u64 = 1;
const SHF_ALLOC: u64 = 2;

struct Section {
    name: &'static str,
    sh_type: u32,
    flags: u64,
    addr: u64,
    offset: u64,
    size: u64,
    link: u32,
}

fn section(name: &'static str, offset: u64, size: u64) -> Section {
    Section { name, sh_type: SHT_PROGBITS, flags: 0, addr: 0, offset, size, link: 0 }
}

fn put(buf: &mut [u8], at: usize, value: u64, width: usize, big: bool) {
    for k in 0..width {
        let byte = (value >> (8 * k)) as u8;
        if big {
            buf[at + width - 1 - k] = byte;
        } else {
            buf[at + k] = byte;
        }
    }
}

/// An ELF64 file: `body` bytes of contents, then the section name table, then
/// the section header table (a null record, the given sections, the name table).
fn elf(body: usize, sections: &[Section], big: bool) -> Vec<u8> {
    let mut names = vec![0u8];
    let mut name_offsets = vec![];
    for s in sections {
        name_offsets.push(names.len() as u64);
        names.extend_from_slice(s.name.as_bytes());
        names.push(0);
    }
    let strtab_name = names.len() as u64;
    names.extend_from_slice(b".shstrtab\0");
    let strtab_off = body;
    let shoff = strtab_off + names.len();
    let shnum = sections.len() + 2;
    let mut buf = vec![0u8; shoff + shnum * 64];
    buf[0..4].copy_from_slice(&[0x7f, b'E', b'L', b'F']);
    buf[4] = 2;
    buf[5] = if big { 2 } else { 1 };
    buf[6] = 1;
    put(&mut buf, 16, 2, 2, big);
    put(&mut buf, 40, shoff as u64, 8, big);
    put(&mut buf, 52, 64, 2, big);
    put(&mut buf, 54, 56, 2, big);
    put(&mut buf, 58, 64, 2, big);
    put(&mut buf, 60, shnum as u64, 2, big);
    put(&mut buf, 62, (shnum - 1) as u64, 2, big);
    buf[strtab_off..strtab_off + names.len()].copy_from_slice(&names);
    let mut write = |i: usize, name: u64, s: &Section| {
        let at = shoff + i * 64;
        put(&mut buf, at, name, 4, big);
        put(&mut buf, at + 4, s.sh_type as u64, 4, big);
        put(&mut buf, at + 8, s.flags, 8, big);
        put(&mut buf, at + 16, s.addr, 8, big);
        put(&mut buf, at + 24, s.offset, 8, big);
        put(&mut buf, at + 32, s.size, 8, big);
        put(&mut buf, at + 40, s.link as u64, 4, big);
        put(&mut buf, at + 48, 1, 8, big);
    };
    for (k, s) in sections.iter().enumerate() {
        write(k + 1, name_offsets[k], s);
    }
    let table = Section {
        name: ".shstrtab",
        sh_type: SHT_STRTAB,
        flags: 0,
        addr: 0,
        offset: strtab_off as u64,
        size: names.len() as u64,
        link: 0,
    };
    write(shnum - 1, strtab_name, &table);
    buf
}

fn load(data: &[u8]) -> ExecutableFile {
    match ExecutableFile::load_from_bytes("test".to_string(), data) {
        Ok(file) => file,
        Err(e) => panic!("parse failed: {:?}", e),
    }
}

fn find<'a>(node: &'a FileNode, name: &str) -> Option<&'a FileNode> {
    if node.name == name {
        return Some(node);
    }
    node.children.iter().find_map(|c| find(c, name))
}

fn note<'a>(node: &'a FileNode, label: &str) -> Option<&'a str> {
    node.notes.iter().find(|(l, _)| l == label).map(|(_, t)| t.as_str())
}

fn same_tree(a: &FileNode, b: &FileNode) -> bool {
    a.name == b.name
        && a.bytes_start == b.bytes_start
        && a.bytes_end == b.bytes_end
        && a.ram_bytes_start == b.ram_bytes_start
        && a.ram_bytes_end == b.ram_bytes_end
        && a.file_bytes_start == b.file_bytes_start
        && a.file_bytes_end == b.file_bytes_end
        && a.notes == b.notes
        && a.children.len() == b.children.len()
        && a.children.iter().zip(b.children.iter()).all(|(x, y)| same_tree(x, y))
}

fn check_laws(node: &FileNode, depth: usize) {
    assert!(node.bytes_end >= node.bytes_start);
    for pair in node.children.windows(2) {
        assert!(pair[0].bytes_start <= pair[1].bytes_start);
        if depth == 0 {
            assert!(
                pair[0].bytes_end <= pair[1].bytes_start
                    || (pair[0].bytes_start == pair[1].bytes_start && pair[0].bytes_end == pair[1].bytes_end)
            );
        }
    }
    for c in &node.children {
        check_laws(c, depth + 1);
    }
}

#[test]
fn bad_magic_yields_no_tree() {
    let data = vec![0u8; 128];
    assert_eq!(ExecutableFile::load_from_bytes("x".to_string(), &data).err(), Some(ParseError::BadMagic));
}

#[test]
fn short_buffer_without_signature_is_bad_magic() {
    let data = vec![0x7f, b'E'];
    assert_eq!(ExecutableFile::load_from_bytes("x".to_string(), &data).err(), Some(ParseError::BadMagic));
}

#[test]
fn short_header_is_truncated() {
    let mut data = vec![0u8; 20];
    data[0..4].copy_from_slice(&[0x7f, b'E', b'L', b'F']);
    assert_eq!(
        ExecutableFile::load_from_bytes("x".to_string(), &data).err(),
        Some(ParseError::TruncatedHeader { len: 20 })
    );
}

#[test]
fn unknown_byte_order_has_its_own_error() {
    let mut data = elf(256, &[], false);
    data[5] = 7;
    assert_eq!(
        ExecutableFile::load_from_bytes("x".to_string(), &data).err(),
        Some(ParseError::UnknownByteOrder { tag: 7 })
    );
}

#[test]
fn section_table_past_the_end_is_malformed() {
    let mut data = elf(256, &[], false);
    let len = data.len() as u64;
    data[40..48].copy_from_slice(&(len - 10).to_le_bytes());
    assert_eq!(
        ExecutableFile::load_from_bytes("x".to_string(), &data).err(),
        Some(ParseError::MalformedTableBounds { offset: len - 10, length: 2 * 64, buffer_len: len })
    );
}

#[test]
fn section_contents_past_the_end_are_malformed() {
    let data = elf(256, &[section(".big", 200, 100_000)], false);
    let len = data.len() as u64;
    assert_eq!(
        ExecutableFile::load_from_bytes("x".to_string(), &data).err(),
        Some(ParseError::MalformedTableBounds { offset: 200, length: 100_000, buffer_len: len })
    );
}

#[test]
fn memory_range_past_the_address_space_is_an_error() {
    let mut s = section(".bss", 0, 100);
    s.sh_type = SHT_NOBITS;
    s.flags = SHF_ALLOC;
    s.addr = u64::MAX - 5;
    let data = elf(256, &[s], false);
    assert_eq!(
        ExecutableFile::load_from_bytes("x".to_string(), &data).err(),
        Some(ParseError::AddressOverflow { address: u64::MAX - 5, size: 100 })
    );
}

#[test]
fn bad_name_table_index_is_malformed() {
    let mut data = elf(256, &[], false);
    data[62] = 9;
    let len = data.len() as u64;
    assert_eq!(
        ExecutableFile::load_from_bytes("x".to_string(), &data).err(),
        Some(ParseError::MalformedTableBounds { offset: 256 + 11, length: 10 * 64, buffer_len: len })
    );
}

#[test]
fn contained_range_becomes_a_child() {
    let data = elf(256, &[section(".outer", 100, 100), section(".inner", 150, 10)], false);
    let file = load(&data);
    let outer = find(&file.file_root, ".outer").unwrap();
    assert_eq!((outer.bytes_start, outer.bytes_end), (100, 200));
    assert_eq!(outer.children.len(), 1);
    assert_eq!(outer.children[0].name, ".inner");
    assert_eq!((outer.children[0].bytes_start, outer.children[0].bytes_end), (150, 160));
}

#[test]
fn empty_section_is_widened_with_a_note() {
    let data = elf(512, &[section(".empty", 300, 0)], false);
    let file = load(&data);
    let empty = find(&file.file_root, ".empty").unwrap();
    assert_eq!((empty.bytes_start, empty.bytes_end), (300, 301));
    assert_eq!(note(empty, "display"), Some("zero-length range widened to one byte"));
}

#[test]
fn touching_ranges_stay_siblings() {
    let data = elf(256, &[section(".a", 100, 10), section(".b", 110, 10)], false);
    let file = load(&data);
    let a = file.file_root.children.iter().position(|c| c.name == ".a").unwrap();
    let b = file.file_root.children.iter().position(|c| c.name == ".b").unwrap();
    assert_eq!(b, a + 1);
    assert!(file.file_root.children[a].children.is_empty());
}

#[test]
fn name_past_the_table_is_a_placeholder() {
    let mut data = elf(256, &[section(".text", 100, 10)], false);
    let shoff = u64::from_le_bytes(data[40..48].try_into().unwrap()) as usize;
    data[shoff + 64..shoff + 68].copy_from_slice(&5000u32.to_le_bytes());
    let file = load(&data);
    let node = find(&file.file_root, "sh_name out of bounds of string table").unwrap();
    assert_eq!((node.bytes_start, node.bytes_end), (100, 110));
    assert_eq!(note(node, "diagnostic"), Some("name offset lies past the end of the section name table"));
    assert!(find(&file.file_root, "ELF Section Header for .shstrtab").is_some());
}

#[test]
fn parsing_twice_gives_the_same_trees() {
    let data = elf(256, &[section(".outer", 100, 100), section(".inner", 150, 10), section(".x", 120, 60)], false);
    let a = load(&data);
    let b = load(&data);
    assert!(same_tree(&a.file_root, &b.file_root));
    assert!(same_tree(&a.ram_root, &b.ram_root));
}

#[test]
fn roots_span_their_spaces() {
    let mut text = section(".text", 100, 50);
    text.flags = SHF_ALLOC;
    text.addr = 0x1000;
    let mut bss = section(".bss", 0, 0x300);
    bss.sh_type = SHT_NOBITS;
    bss.flags = SHF_ALLOC | SHF_WRITE;
    bss.addr = 0x2000;
    let data = elf(256, &[text, bss], false);
    let file = load(&data);
    assert_eq!((file.file_root.bytes_start, file.file_root.bytes_end), (0, data.len() as u64));
    assert_eq!(file.file_root.ty, SectionType::Root);
    assert_eq!((file.ram_root.bytes_start, file.ram_root.bytes_end), (0, 0x2300));
    assert_eq!(file.ram_root.children.len(), 2);
    assert!(find(&file.file_root, ".bss").is_none());
    let bss = find(&file.ram_root, ".bss").unwrap();
    assert_eq!(note(bss, "flags"), Some("SHF_WRITE|SHF_ALLOC"));
    assert_eq!(note(bss, "type"), Some("SHT_NOBITS"));
    assert_eq!(note(bss, "address"), Some("0x2000"));
    assert_eq!(note(bss, "address alignment"), Some("0x1"));
}

#[test]
fn trees_keep_their_laws() {
    let data = elf(
        512,
        &[section(".a", 100, 100), section(".b", 150, 10), section(".c", 180, 60), section(".d", 300, 0), section(".e", 300, 20)],
        false,
    );
    let file = load(&data);
    check_laws(&file.file_root, 0);
    check_laws(&file.ram_root, 0);
}

#[test]
fn equal_length_overlap_keeps_the_earlier_as_parent() {
    let data = elf(256, &[section(".first", 100, 20), section(".second", 110, 20)], false);
    let file = load(&data);
    let first = find(&file.file_root, ".first").unwrap();
    assert_eq!(first.children.len(), 1);
    assert_eq!(first.children[0].name, ".second");
}

#[test]
fn header_and_table_entries_are_regions() {
    let data = elf(256, &[section(".text", 100, 10)], false);
    let file = load(&data);
    let header = find(&file.file_root, "ELF Header").unwrap();
    assert_eq!((header.bytes_start, header.bytes_end), (0, 64));
    assert_eq!(header.ty, SectionType::ElfHeader);
    let shoff = u64::from_le_bytes(data[40..48].try_into().unwrap());
    let entry = find(&file.file_root, "ELF Section Header for .text").unwrap();
    assert_eq!((entry.bytes_start, entry.bytes_end), (shoff + 64, shoff + 128));
    assert_eq!(entry.ty, SectionType::ElfSectionHeader);
    let null_entry = file.file_root.children.iter().find(|c| c.name == "ELF Section Header for ").unwrap();
    assert_eq!(null_entry.bytes_start, shoff);
}

#[test]
fn program_header_entries_are_numbered() {
    let mut data = elf(512, &[], false);
    data[32..40].copy_from_slice(&64u64.to_le_bytes());
    data[56..58].copy_from_slice(&2u16.to_le_bytes());
    let file = load(&data);
    let first = find(&file.file_root, "Program Header Segment #0").unwrap();
    assert_eq!((first.bytes_start, first.bytes_end), (64, 120));
    let second = find(&file.file_root, "Program Header Segment #1").unwrap();
    assert_eq!((second.bytes_start, second.bytes_end), (120, 176));
    assert_eq!(second.ty, SectionType::ElfProgramHeader);
}

#[test]
fn dynamic_section_names_its_string_table() {
    let mut dynamic = section(".dynamic", 100, 16);
    dynamic.sh_type = SHT_DYNAMIC;
    dynamic.link = 2;
    let mut broken = section(".dyn2", 120, 16);
    broken.sh_type = SHT_DYNAMIC;
    broken.link = 99;
    let data = elf(256, &[dynamic, section(".dynstr", 140, 8), broken], false);
    let file = load(&data);
    let node = find(&file.file_root, ".dynamic").unwrap();
    assert_eq!(note(node, "string table in section"), Some(".dynstr"));
    let node = find(&file.file_root, ".dyn2").unwrap();
    assert_eq!(note(node, "string table in section"), Some("bad link section"));
    assert_eq!(note(node, "type"), Some("SHT_DYNAMIC"));
    assert_eq!(note(node, "flags"), Some("NONE"));
}

#[test]
fn big_endian_files_parse() {
    let data = elf(256, &[section(".outer", 100, 100), section(".inner", 150, 10)], true);
    let file = load(&data);
    let outer = find(&file.file_root, ".outer").unwrap();
    assert_eq!(outer.children[0].name, ".inner");
}

#[test]
fn dummy_file_has_its_sample_tree() {
    let file = ExecutableFile::load_dummy();
    assert_eq!(file.name, "dummy file");
    assert_eq!(file.file_root.name, "foo");
    assert_eq!(file.file_root.children.len(), 2);
    assert_eq!(file.file_root.children[1].children[1].name, "child22");
    assert_eq!(file.file_root.children[1].children[1].bytes_start, 100_000);
    assert_eq!(file.file_root.children[1].ty, SectionType::Text);
    assert!(!file.inspector_collapsed);
}

#[test]
fn error_messages_describe_the_error() {
    assert_eq!(ParseError::BadMagic.message(), "Magic ELF bytes were wrong.");
    assert_eq!(ParseError::UnknownByteOrder { tag: 7 }.message(), "Unknown byte order tag 7.");
    assert_eq!(
        ParseError::TruncatedHeader { len: 20 }.message(),
        "The file is too short for an ELF header: 20 bytes."
    );
    assert_eq!(
        ParseError::MalformedTableBounds { offset: 16, length: 255, buffer_len: 4096 }.message(),
        "Data at offset 0x10 of length 0xff lies outside the file of length 0x1000."
    );
    assert_eq!(
        ParseError::AddressOverflow { address: 1, size: 2 }.message(),
        "A section at address 0x1 of size 0x2 runs past the end of the address space."
    );
}
