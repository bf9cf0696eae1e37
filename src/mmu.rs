//! Page geometry: rounding to pages and splitting a virtual address into
//! its page-directory and page-table indices.
use vstd::prelude::*;

verus! {

/// Bytes in a page, and in a frame.
pub const PAGE_SIZE: usize = 4096;

/// Offset of the page-directory index in a linear address.
pub const PAGE_DIRECTORY_INDEX_SHIFT: usize = 22;

/// Offset of the page-table index in a linear address.
pub const PAGE_TABLE_INDEX_SHIFT: usize = 12;

/// Entries in a page directory, and in a page table.
pub const ENTRIES_PER_TABLE: usize = 1024;

/// Start of the page that holds `address`.
pub open spec fn round_down(address: int) -> int {
    address - address % PAGE_SIZE as int
}

/// Start of the first page at or above `address`.
pub open spec fn round_up(address: int) -> int {
    round_down(address + PAGE_SIZE - 1)
}

/// Directory slot of a virtual address.
pub open spec fn directory_index(va: int) -> int {
    (va / 0x400000) % 1024
}

/// Table slot of a virtual address.
pub open spec fn table_index(va: int) -> int {
    (va / 0x1000) % 1024
}

/// Rounds up to the nearest page.
pub fn page_round_up(address: usize) -> (r: usize)
    requires
        address + PAGE_SIZE - 1 <= usize::MAX,
    ensures
        r as int == round_up(address as int),
        r % PAGE_SIZE == 0,
        address <= r < address + PAGE_SIZE,
{
    let s: usize = address + (PAGE_SIZE - 1);
    let r = s & !(PAGE_SIZE - 1);
    assert(s & !0xFFFusize == s - s % 4096) by (bit_vector);
    r
}

/// Rounds down to the nearest page.
pub fn page_round_down(address: usize) -> (r: usize)
    ensures
        r as int == round_down(address as int),
        r % PAGE_SIZE == 0,
        r <= address < r + PAGE_SIZE,
{
    let r = address & !(PAGE_SIZE - 1);
    assert(address & !0xFFFusize == address - address % 4096) by (bit_vector);
    r
}

/// The index of a virtual address's entry in a page directory.
pub fn page_directory_index(virtual_address: usize) -> (r: usize)
    ensures
        r as int == directory_index(virtual_address as int),
        r < ENTRIES_PER_TABLE,
{
    let r = (virtual_address >> PAGE_DIRECTORY_INDEX_SHIFT) & 0x3FFusize;
    assert((virtual_address >> 22usize) & 0x3FFusize == (virtual_address / 0x400000) % 1024)
        by (bit_vector);
    r
}

/// The index of a virtual address's entry in a page table.
pub fn page_table_index(virtual_address: usize) -> (r: usize)
    ensures
        r as int == table_index(virtual_address as int),
        r < ENTRIES_PER_TABLE,
{
    let r = (virtual_address >> PAGE_TABLE_INDEX_SHIFT) & 0x3FFusize;
    assert((virtual_address >> 12usize) & 0x3FFusize == (virtual_address / 0x1000) % 1024)
        by (bit_vector);
    r
}

} // verus!
