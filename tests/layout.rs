use xv6_memory::memory_layout::{map_physical_virtual, map_virtual_to_physical, KERNEL_BASE};
use xv6_memory::mmu::{page_directory_index, page_round_down, page_round_up, page_table_index};

#[test]
fn alias_round_trip() {
    assert_eq!(map_physical_virtual(0x1000), 0x8000_1000);
    assert_eq!(map_virtual_to_physical(0x8000_1000), 0x1000);
    assert_eq!(map_virtual_to_physical(KERNEL_BASE), 0);
}

#[test]
fn alias_wraps_at_top_of_word() {
    assert_eq!(map_physical_virtual(usize::MAX), KERNEL_BASE - 1);
}

#[test]
fn rounding() {
    assert_eq!(page_round_up(0), 0);
    assert_eq!(page_round_up(1), 0x1000);
    assert_eq!(page_round_up(0x1000), 0x1000);
    assert_eq!(page_round_down(0x1fff), 0x1000);
    assert_eq!(page_round_down(0x2000), 0x2000);
}

#[test]
fn indices() {
    assert_eq!(page_directory_index(0x8000_0000), 0x200);
    assert_eq!(page_table_index(0x8000_0000), 0);
    assert_eq!(page_table_index(0x8010_0000), 0x100);
    assert_eq!(page_directory_index(0xFFFF_FFFF), 0x3FF);
    assert_eq!(page_table_index(0xFFFF_FFFF), 0x3FF);
}
