//! The hardware formats of page-directory and page-table entries, read and
//! written through the `x86` crate's entry types.
use vstd::prelude::*;
use x86::bits32::paging::{PAddr, PDEntry, PDFlags, PTEntry, PTFlags};

verus! {

/// Entry flag: present.
pub const ENTRY_PRESENT: u32 = 0x1;

/// Entry flag: writable.
pub const ENTRY_WRITABLE: u32 = 0x2;

/// Entry flag: reachable from user mode.
pub const ENTRY_USER: u32 = 0x4;

/// The flag bits that the `x86` crate defines for a page-table entry.
pub const TABLE_FLAG_BITS: u32 = 0x1FF;

/// The flag bits that the `x86` crate defines for a page-directory entry.
pub const DIRECTORY_FLAG_BITS: u32 = 0x11FF;

/// The directory flag that makes an entry map a 4 MiB page itself.
pub const DIRECTORY_LARGE_PAGE: u32 = 0x80;

/// The bits of an entry that hold a frame's physical address.
pub const FRAME_MASK: u32 = 0xFFFF_F000;

/// Whether an entry, of either level, is present.
pub open spec fn present(e: u32) -> bool {
    e & ENTRY_PRESENT == ENTRY_PRESENT
}

/// The physical address of the frame that an entry points at.
pub open spec fn frame_address(e: u32) -> u32 {
    e & FRAME_MASK
}

/// Relies on `x86::bits32::paging::PTEntry::new`: the frame's address with the
/// defined flag bits of `flags` (it panics on an address that is not page aligned).
#[verifier::external_body]
pub(crate) fn table_entry(page: u32, flags: u32) -> (r: u32)
    requires
        page % 4096 == 0,
    ensures
        r == page | (flags & TABLE_FLAG_BITS),
{
    PTEntry::new(PAddr::from(page), PTFlags::from_bits_truncate(flags)).0
}

/// Relies on `x86::bits32::paging::PTEntry::is_present`: bit 0 of the entry.
#[verifier::external_body]
pub(crate) fn table_entry_present(e: u32) -> (r: bool)
    ensures
        r == present(e),
{
    PTEntry(e).is_present()
}

/// Relies on `x86::bits32::paging::PTEntry::address`: the entry with its low
/// twelve bits cleared.
#[verifier::external_body]
pub(crate) fn table_entry_address(e: u32) -> (r: u32)
    ensures
        r == frame_address(e),
{
    PTEntry(e).address().as_u32()
}

/// Relies on `x86::bits32::paging::PDEntry::new`: for flags without the
/// large-page bit, the table's address with the defined flag bits of `flags`
/// (it panics on an address that is not page aligned).
#[verifier::external_body]
pub(crate) fn directory_entry(table: u32, flags: u32) -> (r: u32)
    requires
        table % 4096 == 0,
        flags & DIRECTORY_LARGE_PAGE == 0,
    ensures
        r == table | (flags & DIRECTORY_FLAG_BITS),
{
    PDEntry::new(PAddr::from(table), PDFlags::from_bits_truncate(flags)).0
}

/// Relies on `x86::bits32::paging::PDEntry::is_present`: bit 0 of the entry.
#[verifier::external_body]
pub(crate) fn directory_entry_present(e: u32) -> (r: bool)
    ensures
        r == present(e),
{
    PDEntry(e).is_present()
}

/// Relies on `x86::bits32::paging::PDEntry::address`: for an entry without the
/// large-page bit, the entry with its low twelve bits cleared.
#[verifier::external_body]
pub(crate) fn directory_entry_address(e: u32) -> (r: u32)
    ensures
        e & DIRECTORY_LARGE_PAGE == 0 ==> r == frame_address(e),
        e & DIRECTORY_LARGE_PAGE != 0 ==> r == e & 0xFFC0_0000,
{
    PDEntry(e).address().as_u32()
}

} // verus!
