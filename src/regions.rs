//! Region descriptors: what an address space is asked to map, when a list of
//! them can be mapped, and how many frames mapping them takes.
use vstd::prelude::*;
use vstd::set_lib::{lemma_int_range, lemma_len_subset, set_int_range};
use crate::memory_layout::{
    map_virtual_to_physical, DEVICE_SPACE, EXTENDED_MEMORY, KERNEL_BASE, KERNEL_LINK,
    PHYSICAL_TOP,
};
use crate::mmu::{
    directory_index, page_directory_index, page_round_down, round_down, table_index,
    ENTRIES_PER_TABLE, PAGE_SIZE,
};
use crate::paging::{ENTRY_PRESENT, ENTRY_USER, ENTRY_WRITABLE};

verus! {

/// One more than the highest 32-bit address.
pub const ADDRESS_SPACE_END: u64 = 0x1_0000_0000;

/// A request to map `[virtual_base, virtual_base + size)` to the physical
/// range that starts at `phys_start`, page by page.
#[derive(Clone, Copy, Debug)]
pub struct RegionDescriptor {
    pub virtual_base: usize,
    pub phys_start: usize,
    pub size: usize,
    /// Whether the pages may be written.
    pub writable: bool,
    /// Whether user mode may reach the pages.
    pub user: bool,
}

/// The first page of a region.
pub open spec fn first_page(r: RegionDescriptor) -> int {
    round_down(r.virtual_base as int)
}

/// The last page of a region, included.
pub open spec fn last_page(r: RegionDescriptor) -> int {
    round_down(r.virtual_base + r.size - 1)
}

/// A region that can be mapped: not empty, inside the 32-bit address space,
/// and starting at a page boundary of physical memory that it does not run past.
pub open spec fn region_valid(r: RegionDescriptor) -> bool {
    &&& r.size > 0
    &&& r.virtual_base + r.size <= ADDRESS_SPACE_END
    &&& r.phys_start % PAGE_SIZE == 0
    &&& r.phys_start + (last_page(r) - first_page(r)) + PAGE_SIZE <= ADDRESS_SPACE_END
}

/// Whether the page that starts at `p` is one that the region maps.
pub open spec fn in_region(r: RegionDescriptor, p: int) -> bool {
    &&& p % PAGE_SIZE as int == 0
    &&& first_page(r) <= p <= last_page(r)
}

/// The flags of the region's table entries.
pub open spec fn region_flags(r: RegionDescriptor) -> u32 {
    (ENTRY_PRESENT + (if r.writable {
        ENTRY_WRITABLE
    } else {
        0
    }) + (if r.user {
        ENTRY_USER
    } else {
        0
    })) as u32
}

/// The physical page that the region maps its page `p` to.
pub open spec fn region_frame(r: RegionDescriptor, p: int) -> int {
    r.phys_start + (p - first_page(r))
}

/// The table entry that the region writes for its page `p`.
pub open spec fn region_entry(r: RegionDescriptor, p: int) -> u32 {
    (region_frame(r, p) as u32) | region_flags(r)
}

pub open spec fn regions_valid(rs: Seq<RegionDescriptor>) -> bool {
    forall|i: int| 0 <= i < rs.len() ==> region_valid(#[trigger] rs[i])
}

/// No page is asked for by two regions.
pub open spec fn regions_disjoint(rs: Seq<RegionDescriptor>) -> bool {
    forall|i: int, j: int, p: int|
        0 <= i < rs.len() && 0 <= j < rs.len() && i != j && #[trigger] in_region(rs[i], p)
            ==> !#[trigger] in_region(rs[j], p)
}

/// Whether one of the first `n` regions maps page `p`.
pub open spec fn covered(rs: Seq<RegionDescriptor>, n: int, p: int) -> bool {
    exists|i: int| 0 <= i < n && #[trigger] in_region(rs[i], p)
}

/// The entry that the first `n` regions ask for at page `p`, if any.
pub open spec fn requested(rs: Seq<RegionDescriptor>, n: int, p: int) -> Option<u32> {
    if covered(rs, n, p) {
        let i = choose|i: int| 0 <= i < n && #[trigger] in_region(rs[i], p);
        Some(region_entry(rs[i], p))
    } else {
        None
    }
}

/// The directory slots of the pages of a region.
pub open spec fn region_tables(r: RegionDescriptor) -> Set<int> {
    Set::new(|d: int| exists|p: int| #[trigger] in_region(r, p) && directory_index(p) == d)
}

/// The directory slots of the pages of the first `n` regions: one page table each.
pub open spec fn tables_needed(rs: Seq<RegionDescriptor>, n: int) -> Set<int> {
    Set::new(|d: int| exists|i: int| 0 <= i < n && #[trigger] region_tables(rs[i]).contains(d))
}

/// A page below the top of the 32-bit space is its directory slot and table slot.
pub(crate) proof fn lemma_page_indices(p: int)
    requires
        0 <= p < ADDRESS_SPACE_END,
        p % 4096 == 0,
    ensures
        p == directory_index(p) * 0x400000 + table_index(p) * 0x1000,
        0 <= directory_index(p) < 1024,
        0 <= table_index(p) < 1024,
{
    let q = p as u64;
    assert(q == ((q / 0x400000) % 1024) * 0x400000 + ((q / 0x1000) % 1024) * 0x1000) by (bit_vector)
        requires
            q < 0x1_0000_0000,
            q % 4096 == 0,
    ;
    assert(((q / 0x400000) % 1024) < 1024 && ((q / 0x1000) % 1024) < 1024) by (bit_vector);
}

/// Two pages with the same slots are the same page.
pub(crate) proof fn lemma_same_slots(p: int, q: int)
    requires
        0 <= p < ADDRESS_SPACE_END,
        p % 4096 == 0,
        0 <= q < ADDRESS_SPACE_END,
        q % 4096 == 0,
        directory_index(p) == directory_index(q),
        table_index(p) == table_index(q),
    ensures
        p == q,
{
    lemma_page_indices(p);
    lemma_page_indices(q);
}

/// A set of directory slots is finite.
pub(crate) proof fn lemma_slots_finite(s: Set<int>)
    requires
        forall|d: int| s.contains(d) ==> 0 <= d < 1024,
    ensures
        s.finite(),
        s.len() <= 1024,
{
    lemma_int_range(0, 1024);
    assert(s.subset_of(set_int_range(0, 1024)));
    lemma_len_subset(s, set_int_range(0, 1024));
}

/// Computes the flags of the region's table entries.
pub(crate) fn entry_flags(r: &RegionDescriptor) -> (f: u32)
    ensures
        f == region_flags(*r),
        f < 8,
{
    let mut f: u32 = ENTRY_PRESENT;
    if r.writable {
        f = f + ENTRY_WRITABLE;
    }
    if r.user {
        f = f + ENTRY_USER;
    }
    f
}

/// A page that one region maps is asked for by that region alone.
pub(crate) proof fn lemma_requested_unique(rs: Seq<RegionDescriptor>, n: int, i: int, p: int)
    requires
        regions_disjoint(rs),
        0 <= i < n <= rs.len(),
        in_region(rs[i], p),
    ensures
        requested(rs, n, p) == Some(region_entry(rs[i], p)),
{
    assert(covered(rs, n, p));
    let j = choose|j: int| 0 <= j < n && #[trigger] in_region(rs[j], p);
    if j != i {
        assert(!in_region(rs[j], p));
    }
}

pub(crate) proof fn lemma_tables_needed_finite(rs: Seq<RegionDescriptor>, n: int)
    ensures
        tables_needed(rs, n).finite(),
{
    assert forall|d: int| tables_needed(rs, n).contains(d) implies 0 <= d < 1024 by {
        let i = choose|i: int| 0 <= i < n && #[trigger] region_tables(rs[i]).contains(d);
        let p = choose|p: int| #[trigger] in_region(rs[i], p) && directory_index(p) == d;
    }
    lemma_slots_finite(tables_needed(rs, n));
}

/// Whether a region can be mapped (see `region_valid`).
pub fn region_is_valid(r: &RegionDescriptor) -> (b: bool)
    ensures
        b == region_valid(*r),
{
    if r.size == 0 || r.virtual_base as u64 > ADDRESS_SPACE_END || r.size as u64 > ADDRESS_SPACE_END
        - r.virtual_base as u64 {
        return false;
    }
    if r.phys_start % PAGE_SIZE != 0 || r.phys_start as u64 > ADDRESS_SPACE_END {
        return false;
    }
    let first = page_round_down(r.virtual_base);
    let last = page_round_down(r.virtual_base + (r.size - 1));
    (last - first) as u64 + PAGE_SIZE as u64 <= ADDRESS_SPACE_END - r.phys_start as u64
}

/// Two valid regions share a page exactly when their page ranges meet.
proof fn lemma_regions_meet(a: RegionDescriptor, b: RegionDescriptor)
    requires
        region_valid(a),
        region_valid(b),
    ensures
        (exists|p: int| #[trigger] in_region(a, p) && in_region(b, p)) <==> (first_page(a)
            <= last_page(b) && first_page(b) <= last_page(a)),
{
    if first_page(a) <= last_page(b) && first_page(b) <= last_page(a) {
        let p = if first_page(a) >= first_page(b) {
            first_page(a)
        } else {
            first_page(b)
        };
        assert(in_region(a, p) && in_region(b, p));
    }
}

/// Whether two of the regions ask for the same page.
pub fn regions_overlap(regions: &Vec<RegionDescriptor>) -> (b: bool)
    requires
        regions_valid(regions@),
    ensures
        b == !regions_disjoint(regions@),
{
    let n = regions.len();
    let mut i: usize = 0;
    while i < n
        invariant
            n == regions@.len(),
            i <= n,
            regions_valid(regions@),
            forall|x: int, y: int, p: int|
                0 <= x < i && 0 <= y < n && x != y && #[trigger] in_region(regions@[x], p)
                    ==> !#[trigger] in_region(regions@[y], p),
        decreases n - i,
    {
        let mut j: usize = 0;
        while j < n
            invariant
                n == regions@.len(),
                i < n,
                j <= n,
                regions_valid(regions@),
                forall|x: int, y: int, p: int|
                    0 <= x < i && 0 <= y < n && x != y && #[trigger] in_region(regions@[x], p)
                        ==> !#[trigger] in_region(regions@[y], p),
                forall|y: int, p: int|
                    0 <= y < j && i != y && #[trigger] in_region(regions@[i as int], p)
                        ==> !#[trigger] in_region(regions@[y], p),
            decreases n - j,
        {
            if i != j {
                let a = &regions[i];
                let b = &regions[j];
                let first_a = page_round_down(a.virtual_base);
                let last_a = page_round_down(a.virtual_base + (a.size - 1));
                let first_b = page_round_down(b.virtual_base);
                let last_b = page_round_down(b.virtual_base + (b.size - 1));
                proof {
                    assert(region_valid(regions@[i as int]) && region_valid(regions@[j as int]));
                    lemma_regions_meet(*a, *b);
                }
                if first_a <= last_b && first_b <= last_a {
                    proof {
                        let p = choose|p: int| #[trigger] in_region(*a, p) && in_region(*b, p);
                        assert(in_region(regions@[i as int], p) && in_region(regions@[j as int], p));
                    }
                    return true;
                }
            }
            j = j + 1;
        }
        i = i + 1;
    }
    false
}

/// Where the kernel's data may start: after its code, page aligned, with
/// room for it below the top of physical memory.
pub open spec fn kernel_data_valid(data: usize) -> bool {
    &&& data % PAGE_SIZE == 0
    &&& KERNEL_LINK < data
    &&& data < KERNEL_BASE + PHYSICAL_TOP
}

/// The kernel's own regions, given where its data starts: the low megabyte
/// for the firmware's structures, the kernel's code read-only, the rest of
/// physical memory writable at its alias, and the device window.
pub open spec fn kernel_regions(data: usize) -> Seq<RegionDescriptor> {
    seq![
        RegionDescriptor {
            virtual_base: KERNEL_BASE,
            phys_start: 0,
            size: EXTENDED_MEMORY,
            writable: true,
            user: false,
        },
        RegionDescriptor {
            virtual_base: KERNEL_LINK,
            phys_start: (KERNEL_LINK - KERNEL_BASE) as usize,
            size: (data - KERNEL_LINK) as usize,
            writable: false,
            user: false,
        },
        RegionDescriptor {
            virtual_base: data,
            phys_start: (data - KERNEL_BASE) as usize,
            size: (PHYSICAL_TOP - (data - KERNEL_BASE)) as usize,
            writable: true,
            user: false,
        },
        RegionDescriptor {
            virtual_base: DEVICE_SPACE,
            phys_start: DEVICE_SPACE,
            size: (ADDRESS_SPACE_END - DEVICE_SPACE) as usize,
            writable: true,
            user: false,
        },
    ]
}

/// The kernel's regions are valid and do not overlap.
pub(crate) proof fn lemma_kernel_regions(data: usize)
    requires
        kernel_data_valid(data),
    ensures
        regions_valid(kernel_regions(data)),
        regions_disjoint(kernel_regions(data)),
{
    let rs = kernel_regions(data);
    assert(first_page(rs[0]) == 0x8000_0000 && last_page(rs[0]) == 0x800F_F000);
    assert(first_page(rs[1]) == 0x8010_0000 && last_page(rs[1]) == data - 4096);
    assert(first_page(rs[2]) == data && last_page(rs[2]) == 0x8DFF_F000);
    assert(first_page(rs[3]) == 0xFE00_0000 && last_page(rs[3]) == 0xFFFF_F000);
    assert forall|i: int| 0 <= i < rs.len() implies region_valid(#[trigger] rs[i]) by {}
    assert forall|i: int, j: int, p: int|
        0 <= i < rs.len() && 0 <= j < rs.len() && i != j && #[trigger] in_region(rs[i], p)
            implies !#[trigger] in_region(rs[j], p) by {}
}

/// The kernel's regions, given where its data starts.
pub fn kernel_map(data: usize) -> (r: Vec<RegionDescriptor>)
    requires
        kernel_data_valid(data),
    ensures
        r@ == kernel_regions(data),
{
    let mut map: Vec<RegionDescriptor> = Vec::new();
    map.push(
        RegionDescriptor {
            virtual_base: KERNEL_BASE,
            phys_start: 0,
            size: EXTENDED_MEMORY,
            writable: true,
            user: false,
        },
    );
    map.push(
        RegionDescriptor {
            virtual_base: KERNEL_LINK,
            phys_start: map_virtual_to_physical(KERNEL_LINK),
            size: data - KERNEL_LINK,
            writable: false,
            user: false,
        },
    );
    map.push(
        RegionDescriptor {
            virtual_base: data,
            phys_start: map_virtual_to_physical(data),
            size: PHYSICAL_TOP - map_virtual_to_physical(data),
            writable: true,
            user: false,
        },
    );
    map.push(
        RegionDescriptor {
            virtual_base: DEVICE_SPACE,
            phys_start: DEVICE_SPACE,
            size: (ADDRESS_SPACE_END - DEVICE_SPACE as u64) as usize,
            writable: true,
            user: false,
        },
    );
    assert(map@ =~= kernel_regions(data));
    map
}

/// The directory slots of a region are those from its first page's to its
/// last page's.
pub(crate) proof fn lemma_region_tables_range(r: RegionDescriptor)
    requires
        region_valid(r),
    ensures
        forall|d: int|
            #[trigger] region_tables(r).contains(d) <==> directory_index(first_page(r)) <= d
                <= directory_index(last_page(r)),
{
    let lo = first_page(r);
    let hi = last_page(r);
    lemma_page_indices(lo);
    lemma_page_indices(hi);
    assert forall|d: int|
        #[trigger] region_tables(r).contains(d) <==> directory_index(lo) <= d <= directory_index(
            hi,
        ) by {
        if region_tables(r).contains(d) {
            let p = choose|p: int| #[trigger] in_region(r, p) && directory_index(p) == d;
            lemma_page_indices(p);
            let (dl, tl, dp, tp, dh, th) = (
                directory_index(lo),
                table_index(lo),
                directory_index(p),
                table_index(p),
                directory_index(hi),
                table_index(hi),
            );
            assert(dl <= dp <= dh) by (nonlinear_arith)
                requires
                    lo == dl * 0x400000 + tl * 0x1000,
                    p == dp * 0x400000 + tp * 0x1000,
                    hi == dh * 0x400000 + th * 0x1000,
                    0 <= tl < 1024,
                    0 <= tp < 1024,
                    0 <= th < 1024,
                    lo <= p <= hi,
            ;
        }
        if directory_index(lo) <= d <= directory_index(hi) {
            let p = if d == directory_index(lo) {
                lo
            } else {
                d * 0x400000
            };
            if d != directory_index(lo) {
                let q = d as u64;
                assert(((q * 0x400000) / 0x400000) % 1024 == q && (q * 0x400000) % 4096 == 0) by (bit_vector)
                    requires
                        q < 1024,
                ;
                let (dl, tl, dh, th) = (
                    directory_index(lo),
                    table_index(lo),
                    directory_index(hi),
                    table_index(hi),
                );
                assert(lo <= p <= hi) by (nonlinear_arith)
                    requires
                        lo == dl * 0x400000 + tl * 0x1000,
                        hi == dh * 0x400000 + th * 0x1000,
                        0 <= tl < 1024,
                        0 <= th < 1024,
                        dl < d <= dh,
                        p == d * 0x400000,
                ;
            }
            assert(in_region(r, p) && directory_index(p) == d);
        }
    }
}

/// The frames that building `regions` takes: the directory and one page
/// table per directory slot that the regions touch.
pub fn frames_needed(regions: &Vec<RegionDescriptor>) -> (r: usize)
    requires
        regions_valid(regions@),
    ensures
        r == 1 + tables_needed(regions@, regions@.len() as int).len(),
{
    let ghost rs = regions@;
    let mut marks: Vec<bool> = Vec::new();
    let mut k: usize = 0;
    while k < ENTRIES_PER_TABLE
        invariant
            k <= ENTRIES_PER_TABLE,
            marks@.len() == k,
            forall|j: int| 0 <= j < k ==> !marks@[j],
        decreases ENTRIES_PER_TABLE - k,
    {
        marks.push(false);
        k = k + 1;
    }
    let mut count: usize = 0;
    let mut i: usize = 0;
    proof {
        assert(Set::new(|d: int| 0 <= d < 1024 && marks@[d]) =~= tables_needed(rs, 0));
        assert(tables_needed(rs, 0) =~= Set::<int>::empty());
    }
    while i < regions.len()
        invariant
            rs == regions@,
            regions_valid(rs),
            i <= rs.len(),
            marks@.len() == 1024,
            Set::new(|d: int| 0 <= d < 1024 && marks@[d]) == tables_needed(rs, i as int),
            count == tables_needed(rs, i as int).len(),
            count <= 1024,
        decreases rs.len() - i,
    {
        let r = &regions[i];
        proof {
            assert(region_valid(rs[i as int]));
            lemma_region_tables_range(*r);
            lemma_page_indices(first_page(*r));
            lemma_page_indices(last_page(*r));
        }
        let d_first = page_directory_index(page_round_down(r.virtual_base));
        let d_last = page_directory_index(page_round_down(r.virtual_base + (r.size - 1)));
        let ghost before = tables_needed(rs, i as int);
        let mut d = d_first;
        while d <= d_last
            invariant
                rs == regions@,
                i < rs.len(),
                *r == rs[i as int],
                d_first <= d <= d_last + 1,
                d_last < 1024,
                d_first == directory_index(first_page(*r)),
                d_last == directory_index(last_page(*r)),
                forall|x: int|
                    #[trigger] region_tables(*r).contains(x) <==> d_first <= x <= d_last,
                marks@.len() == 1024,
                Set::new(|x: int| 0 <= x < 1024 && marks@[x]) == before.union(
                    Set::new(|x: int| d_first <= x < d),
                ),
                count == Set::new(|x: int| 0 <= x < 1024 && marks@[x]).len(),
                count <= 1024,
            decreases d_last + 1 - d,
        {
            let ghost old_marks = Set::new(|x: int| 0 <= x < 1024 && marks@[x]);
            proof {
                lemma_slots_finite(old_marks);
            }
            if !marks[d] {
                marks.set(d, true);
                proof {
                    assert(Set::new(|x: int| 0 <= x < 1024 && marks@[x]) =~= old_marks.insert(d as int));
                    assert(old_marks.insert(d as int).len() == old_marks.len() + 1);
                    lemma_slots_finite(old_marks.insert(d as int));
                }
                count = count + 1;
            }
            proof {
                assert(Set::new(|x: int| 0 <= x < 1024 && marks@[x]) =~= before.union(
                    Set::new(|x: int| d_first <= x < d + 1),
                ));
            }
            d = d + 1;
        }
        proof {
            let range = Set::new(|x: int| d_first <= x < d);
            assert(tables_needed(rs, i + 1) =~= before.union(range)) by {
                assert forall|x: int| #[trigger] tables_needed(rs, i + 1).contains(x) implies before.union(range).contains(x) by {
                    let j = choose|j: int| 0 <= j < i + 1 && #[trigger] region_tables(rs[j]).contains(x);
                    if j < i {
                        assert(before.contains(x));
                    }
                }
                assert forall|x: int| #[trigger] before.union(range).contains(x) implies tables_needed(rs, i + 1).contains(x) by {
                    if before.contains(x) {
                        let j = choose|j: int| 0 <= j < i && #[trigger] region_tables(rs[j]).contains(x);
                        assert(0 <= j < i + 1 && region_tables(rs[j]).contains(x));
                    } else {
                        assert(region_tables(rs[i as int]).contains(x));
                    }
                }
            }
        }
        i = i + 1;
    }
    count + 1
}

} // verus!
