//! The flat segments that each core's descriptor table holds. Segmentation
//! only gives each core its own addressing; protection is paging's job.
use vstd::prelude::*;
use x86::segmentation::{
    BuildDescriptor, CodeSegmentType, DataSegmentType, Descriptor, DescriptorBuilder,
    SegmentDescriptorBuilder,
};
use x86::Ring;

verus! {

/// Slots of a core's descriptor table.
pub const NSEGS: usize = 6;

pub const SEGMENT_KERNEL_CODE: usize = 1;

pub const SEGMENT_KERNEL_DATA: usize = 2;

pub const SEGMENT_USER_CODE: usize = 3;

pub const SEGMENT_USER_DATA: usize = 4;

/// The largest limit, in 4 KiB units: the whole 4 GiB.
pub const FLAT_LIMIT: u32 = 0xFFFFF;

/// Type of an execute/read code segment.
pub const CODE_EXECUTE_READ: u64 = 0xA;

/// Type of a read/write data segment.
pub const DATA_READ_WRITE: u64 = 0x2;

/// A present, 32-bit, 4 KiB-granular code or data descriptor, packed as the
/// processor reads it: base and limit split over both words, then the type,
/// the code-or-data flag, the privilege level, present, 32-bit and granularity.
pub open spec fn segment_descriptor(base: u32, limit: u32, typ: u64, ring: u8) -> u64 {
    let lower: u64 = ((base as u64) << 16 | (limit as u64 & 0xffff)) & 0xFFFF_FFFF;
    let upper: u64 = (base as u64 >> 16 & 0xff) | (base as u64 >> 24) << 24 | (limit as u64 >> 16
        & 0x0f) << 16 | typ << 8 | 0x1000 | (ring as u64) << 13 | 0x8000 | 0x40_0000 | 0x80_0000;
    upper << 32 | lower
}

/// Relies on the `x86` crate's `DescriptorBuilder`: an execute/read code
/// segment, present, 32-bit and 4 KiB-granular, with privilege level `ring`,
/// as `Descriptor::as_u64` packs it.
#[verifier::external_body]
fn code_segment(base: u32, limit: u32, ring: u8) -> (r: u64)
    requires
        ring < 4,
    ensures
        r == segment_descriptor(base, limit, CODE_EXECUTE_READ, ring),
{
    let ring = match ring {
        0 => Ring::Ring0,
        1 => Ring::Ring1,
        2 => Ring::Ring2,
        _ => Ring::Ring3,
    };
    let builder = <DescriptorBuilder as SegmentDescriptorBuilder<u32>>::code_descriptor(base, limit, CodeSegmentType::ExecuteRead);
    let d: Descriptor = builder.present().dpl(ring).limit_granularity_4kb().db().finish();
    d.as_u64()
}

/// Relies on the `x86` crate's `DescriptorBuilder`: a read/write data
/// segment, present, 32-bit and 4 KiB-granular, with privilege level `ring`,
/// as `Descriptor::as_u64` packs it.
#[verifier::external_body]
fn data_segment(base: u32, limit: u32, ring: u8) -> (r: u64)
    requires
        ring < 4,
    ensures
        r == segment_descriptor(base, limit, DATA_READ_WRITE, ring),
{
    let ring = match ring {
        0 => Ring::Ring0,
        1 => Ring::Ring1,
        2 => Ring::Ring2,
        _ => Ring::Ring3,
    };
    let builder = <DescriptorBuilder as SegmentDescriptorBuilder<u32>>::data_descriptor(base, limit, DataSegmentType::ReadWrite);
    let d: Descriptor = builder.present().dpl(ring).limit_granularity_4kb().db().finish();
    d.as_u64()
}

/// Fills a core's descriptor table with flat (base 0, limit 4 GiB) kernel
/// code and data segments at privilege level 0 and user code and data
/// segments at level 3; the other slots stay as they were.
pub fn setup_segmentation(gdt: &mut Vec<u64>)
    requires
        old(gdt)@.len() == NSEGS,
    ensures
        final(gdt)@.len() == NSEGS,
        final(gdt)@[0] == old(gdt)@[0],
        final(gdt)@[5] == old(gdt)@[5],
        final(gdt)@[SEGMENT_KERNEL_CODE as int] == segment_descriptor(0, FLAT_LIMIT, CODE_EXECUTE_READ, 0),
        final(gdt)@[SEGMENT_KERNEL_DATA as int] == segment_descriptor(0, FLAT_LIMIT, DATA_READ_WRITE, 0),
        final(gdt)@[SEGMENT_USER_CODE as int] == segment_descriptor(0, FLAT_LIMIT, CODE_EXECUTE_READ, 3),
        final(gdt)@[SEGMENT_USER_DATA as int] == segment_descriptor(0, FLAT_LIMIT, DATA_READ_WRITE, 3),
{
    gdt.set(SEGMENT_KERNEL_CODE, code_segment(0, FLAT_LIMIT, 0));
    gdt.set(SEGMENT_KERNEL_DATA, data_segment(0, FLAT_LIMIT, 0));
    gdt.set(SEGMENT_USER_CODE, code_segment(0, FLAT_LIMIT, 3));
    gdt.set(SEGMENT_USER_DATA, data_segment(0, FLAT_LIMIT, 3));
}

} // verus!
