//! Fixed physical and virtual layout, and the higher-half alias.
use vstd::prelude::*;

verus! {

/// Start of extended memory.
pub const EXTENDED_MEMORY: usize = 0x100000;

/// Top of the physical memory that the kernel uses.
pub const PHYSICAL_TOP: usize = 0xE000000;

/// Devices live at high addresses.
pub const DEVICE_SPACE: usize = 0xFE000000;

/// First kernel virtual address: physical address `p` has the alias `p + KERNEL_BASE`.
pub const KERNEL_BASE: usize = 0x80000000;

/// Address where the kernel is linked.
pub const KERNEL_LINK: usize = 0x80100000;

/// The higher-half alias of a physical address, wrapping at the top of the word.
pub open spec fn alias_of(address: int) -> int {
    if address + KERNEL_BASE > usize::MAX {
        address + KERNEL_BASE - (usize::MAX as int + 1)
    } else {
        address + KERNEL_BASE
    }
}

/// Maps a virtual address of the higher half to its physical address.
pub fn map_virtual_to_physical(address: usize) -> (r: usize)
    requires
        address >= KERNEL_BASE,
    ensures
        r == address - KERNEL_BASE,
{
    address - KERNEL_BASE
}

/// Maps a physical address to its higher-half virtual alias.
pub fn map_physical_virtual(address: usize) -> (r: usize)
    ensures
        r as int == alias_of(address as int),
        address as int + KERNEL_BASE <= usize::MAX ==> r == address + KERNEL_BASE,
{
    address.wrapping_add(KERNEL_BASE)
}

} // verus!
