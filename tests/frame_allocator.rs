use xv6_memory::page_allocator::{init, AllocationList};

fn drain(list: &mut AllocationList) -> Vec<usize> {
    let mut out = Vec::new();
    while let Some(frame) = list.alloc_page() {
        out.push(frame);
    }
    out
}

#[test]
fn init_registers_512_frames() {
    let mut list = init(0x0020_0000, 0x0040_0000);
    assert_eq!(list.free_count(), 512);
    for _ in 0..512 {
        assert!(list.alloc_page().is_some());
    }
    assert_eq!(list.alloc_page(), None);
}

#[test]
fn frames_come_back_in_reverse_order() {
    let mut list = init(0x0020_0000, 0x0020_3000);
    assert_eq!(list.alloc_page(), Some(0x0020_2000));
    assert_eq!(list.alloc_page(), Some(0x0020_1000));
    assert_eq!(list.alloc_page(), Some(0x0020_0000));
    assert_eq!(list.alloc_page(), None);
}

#[test]
fn init_rounds_start_up_and_drops_partial_frame() {
    let mut list = init(0x0020_0001, 0x0020_2fff);
    assert_eq!(list.free_count(), 1);
    assert_eq!(list.alloc_page(), Some(0x0020_1000));
}

#[test]
fn empty_range_registers_nothing() {
    let mut list = init(0x5000, 0x5000);
    assert_eq!(list.free_count(), 0);
    assert_eq!(list.alloc_page(), None);
}

#[test]
fn new_list_is_empty() {
    let mut list = AllocationList::new();
    assert_eq!(list.free_count(), 0);
    assert_eq!(list.alloc_page(), None);
}

#[test]
fn freed_frame_is_handed_out_next() {
    let mut list = init(0x1000, 0x4000);
    let a = list.alloc_page().unwrap();
    let b = list.alloc_page().unwrap();
    assert_ne!(a, b);
    list.dealloc_page(a);
    assert_eq!(list.alloc_page(), Some(a));
}

#[test]
fn allocations_and_frees_conserve_frames() {
    let mut list = init(0x1_0000, 0x2_0000);
    let mut held = Vec::new();
    for _ in 0..5 {
        held.push(list.alloc_page().unwrap());
    }
    list.dealloc_page(held.remove(1));
    list.dealloc_page(held.remove(2));
    for _ in 0..3 {
        held.push(list.alloc_page().unwrap());
    }
    let mut all = drain(&mut list);
    for f in &held {
        assert!(!all.contains(f));
    }
    all.extend(held.iter().copied());
    all.sort();
    let expected: Vec<usize> = (0..16).map(|i| 0x1_0000 + i * 0x1000).collect();
    assert_eq!(all, expected);
}

#[test]
fn dealloc_range_appends_to_existing_frames() {
    let mut list = init(0x1000, 0x2000);
    list.dealloc_range(0x8000, 0xA000);
    assert_eq!(list.free_count(), 3);
    assert_eq!(list.alloc_page(), Some(0x9000));
    assert_eq!(list.alloc_page(), Some(0x8000));
    assert_eq!(list.alloc_page(), Some(0x1000));
}

#[test]
fn take_moves_top_frames() {
    let mut list = init(0x1000, 0x6000);
    let mut taken = list.take(2);
    assert_eq!(list.free_count(), 3);
    assert_eq!(taken.alloc_page(), Some(0x5000));
    assert_eq!(taken.alloc_page(), Some(0x4000));
    assert_eq!(taken.alloc_page(), None);
    let all = list.take(10);
    assert_eq!(all.free_count(), 3);
    assert_eq!(list.free_count(), 0);
}

#[test]
fn append_puts_frames_on_top() {
    let mut list = init(0x1000, 0x3000);
    let other = init(0x8000, 0x9000);
    list.append(other);
    assert_eq!(list.free_count(), 3);
    assert_eq!(list.alloc_page(), Some(0x8000));
}

#[test]
fn contains_and_frame_report_free_frames() {
    let list = init(0x1000, 0x3000);
    assert!(list.contains(0x2000));
    assert!(!list.contains(0x3000));
    assert_eq!(list.frame(0), 0x1000);
    assert_eq!(list.frame(1), 0x2000);
}
