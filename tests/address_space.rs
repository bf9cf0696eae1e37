use xv6_memory::memory_layout::map_physical_virtual;
use xv6_memory::page_allocator::{init, AllocationList};
use xv6_memory::regions::{
    frames_needed, kernel_map, region_is_valid, regions_overlap, RegionDescriptor,
};
use xv6_memory::virtual_memory::{
    build, frames_usable, is_high_half, setup_kernel_virtual_memory, try_build, BuildError,
};

fn frames(count: usize) -> AllocationList {
    let start = map_physical_virtual(0x20_0000);
    init(start, start + count * 0x1000)
}

fn sorted_free(list: &mut AllocationList) -> Vec<usize> {
    let mut out = Vec::new();
    while let Some(f) = list.alloc_page() {
        out.push(f);
    }
    for f in out.iter().rev() {
        list.dealloc_page(*f);
    }
    out.sort();
    out
}

fn region(virtual_base: usize, phys_start: usize, size: usize) -> RegionDescriptor {
    RegionDescriptor { virtual_base, phys_start, size, writable: true, user: false }
}

#[test]
fn low_megabyte_lookups() {
    let mut list = frames(512);
    let space = build(&vec![region(0x8000_0000, 0, 0x10_0000)], &mut list).unwrap();
    let first = space.walk_page_directory(0x8000_0000).unwrap();
    assert_eq!(first & 1, 1);
    assert_eq!(first & 0xFFFF_F000, 0);
    assert_eq!(first, 0x3);
    let last = space.walk_page_directory(0x800F_FFFF).unwrap();
    assert_eq!(last & 1, 1);
    assert_eq!(last & 0xFFFF_F000, 0xF_F000);
    assert_eq!(space.translate(0x8000_0000), Some(0));
    assert_eq!(space.translate(0x800F_FFFF), Some(0xF_F000));
    assert_eq!(space.translate(0x8010_0000), None);
    assert_eq!(space.walk_page_directory(0x8010_0000), Some(0));
    assert_eq!(space.walk_page_directory(0x8040_0000), None);
    assert_eq!(space.translate(0x0), None);
}

#[test]
fn build_takes_directory_and_one_table() {
    let mut list = frames(10);
    let space = build(&vec![region(0x8000_0000, 0, 0x10_0000)], &mut list).unwrap();
    assert_eq!(list.free_count(), 8);
    space.destroy(&mut list);
    assert_eq!(list.free_count(), 10);
}

#[test]
fn destroy_restores_exact_free_set() {
    let mut list = frames(20);
    let before = sorted_free(&mut list);
    let regions = vec![
        region(0x8000_0000, 0, 0x10_0000),
        region(0x9000_0000, 0x40_0000, 0x80_1000),
        region(0x1000, 0x10_0000, 0x1000),
    ];
    let space = build(&regions, &mut list).unwrap();
    assert_eq!(list.free_count(), 20 - 1 - 5);
    space.destroy(&mut list);
    assert_eq!(sorted_free(&mut list), before);
}

#[test]
fn overlapping_regions_are_refused() {
    let mut list = frames(10);
    let regions = vec![region(0x8000_0000, 0, 0x2000), region(0x8000_1000, 0x10_0000, 0x1000)];
    assert!(regions_overlap(&regions));
    assert_eq!(try_build(&regions, &mut list).err(), Some(BuildError::Remap));
    assert_eq!(list.free_count(), 10);
}

#[test]
fn unaligned_overlap_is_found_by_page() {
    let regions = vec![region(0x8000_0000, 0, 0x1001), region(0x8000_1800, 0x10_0000, 0x10)];
    assert!(regions_overlap(&regions));
    let apart = vec![region(0x8000_0000, 0, 0x1000), region(0x8000_1000, 0x10_0000, 0x1000)];
    assert!(!regions_overlap(&apart));
}

#[test]
fn invalid_region_is_refused() {
    let mut list = frames(10);
    assert!(!region_is_valid(&region(0x8000_0000, 0, 0)));
    assert!(!region_is_valid(&region(0x8000_0000, 0x123, 0x1000)));
    assert!(!region_is_valid(&region(0xFFFF_F000, 0, 0x2000)));
    assert!(region_is_valid(&region(0xFFFF_F000, 0, 0x1000)));
    let regions = vec![region(0x8000_0000, 0x10, 0x1000)];
    assert_eq!(try_build(&regions, &mut list).err(), Some(BuildError::InvalidRegion));
    assert_eq!(list.free_count(), 10);
}

#[test]
fn exhaustion_leaks_nothing() {
    // two stretches of 4 MiB: the directory and two tables
    let regions = vec![region(0x803F_F000, 0, 0x2000)];
    let mut list = frames(2);
    let before = sorted_free(&mut list);
    assert!(build(&regions, &mut list).is_none());
    assert_eq!(list.free_count(), 2);
    assert_eq!(sorted_free(&mut list), before);
    let mut enough = frames(3);
    assert!(build(&regions, &mut enough).is_some());
    assert_eq!(enough.free_count(), 0);
}

#[test]
fn exhaustion_reported_by_try_build() {
    let mut list = frames(1);
    let regions = vec![region(0x8000_0000, 0, 0x1000)];
    assert_eq!(try_build(&regions, &mut list).err(), Some(BuildError::OutOfMemory));
    assert_eq!(list.free_count(), 1);
}

#[test]
fn no_frames_gives_none() {
    let mut list = AllocationList::new();
    assert!(build(&vec![region(0x8000_0000, 0, 0x1000)], &mut list).is_none());
}

#[test]
fn single_page_needs_one_table() {
    let mut list = frames(10);
    let space = build(&vec![region(0x1234_5678, 0x5000, 1)], &mut list).unwrap();
    assert_eq!(list.free_count(), 8);
    assert_eq!(space.translate(0x1234_5000), Some(0x5000));
    assert_eq!(space.translate(0x1234_6000), None);
}

#[test]
fn full_stretch_needs_one_table() {
    let mut list = frames(10);
    let space = build(&vec![region(0x8040_0000, 0x100_0000, 0x40_0000)], &mut list).unwrap();
    assert_eq!(list.free_count(), 8);
    assert_eq!(space.translate(0x807F_F000), Some(0x13F_F000));
    assert_eq!(space.translate(0x8080_0000), None);
}

#[test]
fn user_and_read_only_flags() {
    let mut list = frames(10);
    let regions = vec![
        RegionDescriptor { virtual_base: 0, phys_start: 0x30_0000, size: 0x1000, writable: true, user: true },
        RegionDescriptor { virtual_base: 0x1000, phys_start: 0x31_0000, size: 0x1000, writable: false, user: true },
        RegionDescriptor { virtual_base: 0x2000, phys_start: 0x32_0000, size: 0x1000, writable: false, user: false },
    ];
    let space = build(&regions, &mut list).unwrap();
    assert_eq!(space.walk_page_directory(0), Some(0x30_0007));
    assert_eq!(space.walk_page_directory(0x1000), Some(0x31_0005));
    assert_eq!(space.walk_page_directory(0x2000), Some(0x32_0001));
}

#[test]
fn directory_physical_address_is_frame_minus_base() {
    let mut list = frames(4);
    let space = build(&vec![region(0x8000_0000, 0, 0x1000)], &mut list).unwrap();
    // the directory is the first frame taken: the top of the stack
    assert_eq!(space.directory_physical_address(), 0x20_3000);
}

#[test]
fn kernel_address_space() {
    let mut list = frames(512);
    let data = 0x8010_8000;
    assert_eq!(kernel_map(data).len(), 4);
    let space = setup_kernel_virtual_memory(&mut list, data).unwrap();
    assert_eq!(list.free_count(), 512 - 65);
    assert_eq!(space.translate(0x8000_0000), Some(0));
    assert_eq!(space.walk_page_directory(0x8010_0000), Some(0x10_0001));
    assert_eq!(space.walk_page_directory(0x8010_8000), Some(0x10_8003));
    assert_eq!(space.translate(0x8DFF_F000), Some(0xDFF_F000));
    assert_eq!(space.translate(0x8E00_0000), None);
    assert_eq!(space.translate(0xFE00_0000), Some(0xFE00_0000));
    assert_eq!(space.translate(0xFFFF_FFFF), Some(0xFFFF_F000));
    assert_eq!(space.translate(0x0), None);
    space.destroy(&mut list);
    assert_eq!(list.free_count(), 512);
}

#[test]
fn kernel_address_space_needs_65_frames() {
    let mut list = frames(64);
    assert!(setup_kernel_virtual_memory(&mut list, 0x8010_8000).is_none());
    assert_eq!(list.free_count(), 64);
}

#[test]
fn first_user_page() {
    let mut list = frames(10);
    let mut space = build(&vec![region(0x8000_0000, 0, 0x1000)], &mut list).unwrap();
    let (frame, page) = space.init_user_virtual_memory(&mut list, &vec![1, 2, 3]).unwrap();
    assert_eq!(frame, map_physical_virtual(0x20_7000));
    assert_eq!(page.len(), 4096);
    assert_eq!(&page[..4], &[1, 2, 3, 0]);
    assert!(page[3..].iter().all(|b| *b == 0));
    assert_eq!(space.walk_page_directory(0), Some(0x20_7007));
    assert_eq!(space.translate(0x1000), None);
    // the data page and the table for the low 4 MiB
    assert_eq!(list.free_count(), 6);
    space.destroy(&mut list);
    // the data frame stays with the caller
    assert_eq!(list.free_count(), 9);
}

#[test]
fn first_user_page_without_frames() {
    let mut list = frames(3);
    let mut space = build(&vec![region(0x8000_0000, 0, 0x1000)], &mut list).unwrap();
    assert_eq!(list.free_count(), 1);
    assert!(space.init_user_virtual_memory(&mut list, &vec![9]).is_none());
    assert_eq!(list.free_count(), 1);
    assert_eq!(space.translate(0), None);
}

#[test]
fn boot_directory_uses_large_pages() {
    let d = xv6_memory::virtual_memory::default_page_directory();
    assert_eq!(d.len(), 1024);
    assert_eq!(d[0], 0x83);
    assert_eq!(d[1], 0x40_0083);
    assert_eq!(d[255], 0x3FC0_0083);
    assert_eq!(d[256], 0);
    assert_eq!(d[512], 0x83);
    assert_eq!(d[1023], 0);
}

#[test]
fn frames_needed_counts_directory_and_tables() {
    assert_eq!(frames_needed(&vec![]), 1);
    assert_eq!(frames_needed(&vec![region(0x8000_0000, 0, 0x10_0000)]), 2);
    assert_eq!(
        frames_needed(&vec![region(0x803F_F000, 0, 0x2000), region(0x8040_1000, 0x10_0000, 0x1000)]),
        3
    );
    assert_eq!(frames_needed(&kernel_map(0x8010_8000)), 65);
}

#[test]
fn reserved_frames_build_then_return() {
    let mut shared = frames(10);
    let regions = vec![region(0x8000_0000, 0, 0x10_0000)];
    let mut reserved = shared.take(frames_needed(&regions));
    assert_eq!(shared.free_count(), 8);
    assert_eq!(reserved.free_count(), 2);
    let space = build(&regions, &mut reserved).unwrap();
    shared.append(reserved);
    assert_eq!(shared.free_count(), 8);
    space.destroy(&mut shared);
    assert_eq!(shared.free_count(), 10);
}

#[test]
fn usable_frames_are_higher_half() {
    assert!(frames_usable(&frames(4)));
    assert!(!frames_usable(&init(0x20_0000, 0x20_2000)));
    assert!(is_high_half(0x8000_0000));
    assert!(!is_high_half(0x8000_0010));
    assert!(!is_high_half(0x7FFF_F000));
}
