use executable_visualizer::sections::describe_flags;
use executable_visualizer::strtab::parse_str_table;
use executable_visualizer::text::{decimal, hex};

#[test]
fn numbers_in_decimal() {
    assert_eq!(decimal(0), "0");
    assert_eq!(decimal(7), "7");
    assert_eq!(decimal(1234), "1234");
    assert_eq!(decimal(u64::MAX), "18446744073709551615");
}

#[test]
fn numbers_in_hex() {
    assert_eq!(hex(0), "0x0");
    assert_eq!(hex(255), "0xff");
    assert_eq!(hex(0x1000), "0x1000");
    assert_eq!(hex(u64::MAX), "0xffffffffffffffff");
}

#[test]
fn flags_are_joined() {
    assert_eq!(describe_flags(0), "NONE");
    assert_eq!(describe_flags(3), "SHF_WRITE|SHF_ALLOC");
    assert_eq!(describe_flags(0x6), "SHF_ALLOC|SHF_EXECINSTR");
    assert_eq!(describe_flags(0x4000_0000), "SHF_ORDERED");
    assert_eq!(describe_flags(0x8), "NONE");
}

#[test]
fn names_end_at_nul() {
    let table = b"\0.text\0.data\0";
    assert_eq!(parse_str_table(table, 1), ".text");
    assert_eq!(parse_str_table(table, 7), ".data");
    assert_eq!(parse_str_table(table, 0), "");
    assert_eq!(parse_str_table(table, 3), "ext");
}

#[test]
fn name_without_nul_runs_to_the_end() {
    assert_eq!(parse_str_table(b"\0abc", 1), "abc");
    assert_eq!(parse_str_table(b"\0abc", 4), "");
}

#[test]
fn name_past_the_end_is_a_placeholder() {
    assert_eq!(parse_str_table(b"\0abc", 5), "sh_name out of bounds of string table");
}

#[test]
fn invalid_utf8_is_replaced() {
    assert_eq!(parse_str_table(b"a\xffb\0", 0), "a\u{fffd}b");
}
