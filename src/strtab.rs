//! Names from a string table: NUL-terminated strings addressed by offset.

use crate::text::{lossy_text, text_from_bytes};
use vstd::prelude::*;
use vstd::slice::slice_subrange;

verus! {

/// The name given to an offset past the end of the table.
pub open spec fn out_of_bounds_name() -> Seq<char> {
    "sh_name out of bounds of string table"@
}

/// The index of the first NUL of `table` at or after `off`, or the table's
/// length if there is none.
pub open spec fn nul_at_or_after(table: Seq<u8>, off: int) -> int
    decreases table.len() - off,
{
    if off >= table.len() || off < 0 {
        table.len() as int
    } else if table[off] == 0 {
        off
    } else {
        nul_at_or_after(table, off + 1)
    }
}

/// The name at `off`: the bytes up to the next NUL or the end of the table,
/// read as UTF-8; a fixed placeholder when `off` lies past the end.
pub open spec fn table_name(table: Seq<u8>, off: int) -> Seq<char> {
    if off > table.len() {
        out_of_bounds_name()
    } else {
        lossy_text(table.subrange(off, nul_at_or_after(table, off)))
    }
}

proof fn lemma_nul_bounds(table: Seq<u8>, off: int)
    requires
        0 <= off <= table.len(),
    ensures
        off <= nul_at_or_after(table, off) <= table.len(),
    decreases table.len() - off,
{
    if off < table.len() && table[off] != 0 {
        lemma_nul_bounds(table, off + 1);
    }
}

/// Resolves the name at `offset` of the string table `data`.
pub fn parse_str_table(data: &[u8], offset: u32) -> (r: String)
    ensures
        r@ == table_name(data@, offset as int),
{
    if offset as usize > data.len() {
        return String::from_str("sh_name out of bounds of string table");
    }
    let start = offset as usize;
    let mut end = start;
    while end < data.len() && data[end] != 0
        invariant
            start <= end <= data@.len(),
            nul_at_or_after(data@, start as int) == nul_at_or_after(data@, end as int),
        decreases data@.len() - end,
    {
        end = end + 1;
    }
    proof {
        lemma_nul_bounds(data@, start as int);
    }
    text_from_bytes(slice_subrange(data, start, end))
}

} // verus!
