//! Memory-management core of a small 32-bit x86 kernel: a physical frame
//! allocator and a two-level address-space builder and teardown engine,
//! with the console encoders and descriptor tables that boot uses.
//!
//! - `memory_layout`, `mmu`: the higher-half alias and page geometry.
//! - `page_allocator`: the free list of frames.
//! - `paging`: the hardware entry formats.
//! - `regions`: region descriptors and the kernel's own regions.
//! - `virtual_memory`: building, walking and tearing down address spaces.
//! - `segmentation`, `interrupts`: descriptor tables.
//! - `uart`, `vga`: what the consoles show.
//! - `acpi`: finding the firmware's root table pointer.
//! - `arch`: saved register frames.
use vstd::prelude::*;

pub mod acpi;
pub mod arch;
pub mod interrupts;
pub mod memory_layout;
pub mod mmu;
pub mod page_allocator;
pub mod paging;
pub mod regions;
pub mod segmentation;
pub mod uart;
pub mod vga;
pub mod virtual_memory;

verus! {

} // verus!
