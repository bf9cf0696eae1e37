//! Address spaces: a page directory and the page tables that it points at,
//! built from a list of region descriptors and torn down into the frame
//! allocator again.
use vstd::prelude::*;
use vstd::set_lib::lemma_len_subset;
use crate::memory_layout::{map_physical_virtual, map_virtual_to_physical, KERNEL_BASE};
use crate::mmu::{
    directory_index, page_directory_index, page_round_down, page_table_index, round_down,
    table_index,
    ENTRIES_PER_TABLE, PAGE_SIZE,
};
use crate::page_allocator::{frames_valid, AllocationList};
use crate::paging::{
    directory_entry, directory_entry_address, directory_entry_present, frame_address, present,
    table_entry, table_entry_address, table_entry_present,
};
use crate::regions::{
    covered, entry_flags, first_page, in_region, kernel_data_valid, kernel_map,
    kernel_regions, last_page, lemma_kernel_regions, lemma_requested_unique,
    lemma_same_slots, lemma_slots_finite, lemma_tables_needed_finite, region_entry, region_frame,
    region_flags, region_is_valid, region_tables, region_valid, regions_disjoint, regions_overlap,
    regions_valid, requested, tables_needed, RegionDescriptor, ADDRESS_SPACE_END,
};

verus! {

/// The flags of a directory entry that points at a page table: present,
/// writable and reachable from user mode, so that the table's own entries decide.
pub const DIRECTORY_FLAGS: u32 = 0x7;

/// Whether `f` is the higher-half alias of a frame that a 32-bit entry can name.
pub open spec fn high_half(f: usize) -> bool {
    &&& f % PAGE_SIZE == 0
    &&& KERNEL_BASE <= f
    &&& f - KERNEL_BASE < ADDRESS_SPACE_END
}

/// Every free frame can be used as a page directory or a page table.
pub open spec fn all_high_half(s: Seq<usize>) -> bool {
    forall|i: int| 0 <= i < s.len() ==> high_half(#[trigger] s[i])
}

/// Whether `f` can serve as a page directory or a page table (see `high_half`).
pub fn is_high_half(f: usize) -> (r: bool)
    ensures
        r == high_half(f),
{
    f % PAGE_SIZE == 0 && f >= KERNEL_BASE && ((f - KERNEL_BASE) as u64) < ADDRESS_SPACE_END
}

/// Whether every free frame can serve as a page directory or a page table,
/// as `build` requires.
pub fn frames_usable(frames: &AllocationList) -> (r: bool)
    ensures
        r == all_high_half(frames@),
{
    let n = frames.free_count();
    let mut i: usize = 0;
    while i < n
        invariant
            n == frames@.len(),
            i <= n,
            forall|j: int| 0 <= j < i ==> high_half(#[trigger] frames@[j]),
        decreases n - i,
    {
        if !is_high_half(frames.frame(i)) {
            return false;
        }
        i = i + 1;
    }
    true
}

/// The frame, by its higher-half alias, that a directory entry points at.
pub open spec fn table_frame(e: u32) -> int {
    frame_address(e) + KERNEL_BASE
}

/// What a walk without allocation finds at a page: the entry when it is present.
pub open spec fn translation_of(e: Option<u32>) -> Option<u32> {
    match e {
        Some(x) => if present(x) {
            Some(x)
        } else {
            None
        },
        None => None,
    }
}

proof fn lemma_entry_bits(phys: u32, flags: u32)
    requires
        phys % 4096 == 0,
        flags < 4096,
    ensures
        frame_address(phys | flags) == phys,
        (phys | flags) & 1 == flags & 1,
        (phys | flags) & 0x80 == flags & 0x80,
{
    assert(phys & 0xFFF == 0) by (bit_vector)
        requires
            phys % 4096 == 0,
    ;
    assert((phys | flags) & 0xFFFF_F000 == phys) by (bit_vector)
        requires
            phys & 0xFFF == 0,
            flags < 4096,
    ;
    assert((phys | flags) & 1 == flags & 1) by (bit_vector)
        requires
            phys & 0xFFF == 0,
    ;
    assert((phys | flags) & 0x80 == flags & 0x80) by (bit_vector)
        requires
            phys & 0xFFF == 0,
    ;
}

/// An address and the start of its page have the same slots.
proof fn lemma_same_page_slots(va: usize)
    ensures
        directory_index(va as int) == directory_index(round_down(va as int)),
        table_index(va as int) == table_index(round_down(va as int)),
{
    assert((va / 0x400000) % 1024 == ((va - va % 4096) / 0x400000) % 1024 && (va / 0x1000) % 1024
        == ((va - va % 4096) / 0x1000) % 1024) by (bit_vector);
}

proof fn lemma_frame_address_aligned(e: u32)
    ensures
        frame_address(e) % 4096 == 0,
{
    assert((e & 0xFFFF_F000) % 4096 == 0) by (bit_vector);
}

/// An address space: one page directory, and for each present directory entry
/// the page table that it points at.
pub struct AddressSpace {
    /// The directory's frame, by its higher-half alias.
    directory_frame: usize,
    /// The directory's 1024 entries.
    directory: Vec<u32>,
    /// For each directory slot, the entries of its page table; empty where the
    /// slot is absent.
    tables: Vec<Vec<u32>>,
}

impl AddressSpace {
    /// The directory's frame, by its higher-half alias.
    pub closed spec fn root(&self) -> usize {
        self.directory_frame
    }

    /// The word in directory slot `d`.
    pub closed spec fn directory_word(&self, d: int) -> u32 {
        self.directory@[d]
    }

    /// Entry `t` of the page table that directory slot `d` points at.
    pub closed spec fn table_word(&self, d: int, t: int) -> u32 {
        self.tables@[d]@[t]
    }

    /// Whether the directory slot `d` points at a page table.
    pub open spec fn has_table(&self, d: int) -> bool {
        present(self.directory_word(d))
    }

    /// The directory slots that point at a page table.
    pub open spec fn tables(&self) -> Set<int> {
        Set::new(|d: int| 0 <= d < 1024 && self.has_table(d))
    }

    /// The frame, by its higher-half alias, of the page table in slot `d`.
    pub open spec fn table_frame_of(&self, d: int) -> int {
        table_frame(self.directory_word(d))
    }

    /// The table entry for virtual address `va`, when a page table covers it:
    /// what a walk of the directory without allocation finds.
    pub open spec fn entry(&self, va: int) -> Option<u32> {
        let d = directory_index(va);
        if self.has_table(d) {
            Some(self.table_word(d, table_index(va)))
        } else {
            None
        }
    }

    /// The present table entry for `va`, if there is one.
    pub open spec fn translation(&self, va: int) -> Option<u32> {
        translation_of(self.entry(va))
    }

    /// Every frame that the address space owns: the directory and its page tables.
    pub open spec fn frames(&self) -> Set<usize> {
        Set::new(
            |f: usize|
                f == self.root() || exists|d: int|
                    0 <= d < 1024 && #[trigger] self.has_table(d) && self.table_frame_of(d) == f,
        )
    }

    pub closed spec fn wf(&self) -> bool {
        &&& self.directory@.len() == 1024
        &&& self.tables@.len() == 1024
        &&& high_half(self.directory_frame)
        &&& forall|d: int|
            0 <= d < 1024 && #[trigger] present(self.directory@[d]) ==> {
                &&& self.tables@[d]@.len() == 1024
                &&& self.directory@[d] & 0x80 == 0
                &&& table_frame(self.directory@[d]) != self.directory_frame
                &&& table_frame(self.directory@[d]) <= usize::MAX
            }
        &&& forall|d1: int, d2: int|
            0 <= d1 < 1024 && 0 <= d2 < 1024 && d1 != d2 && #[trigger] present(self.directory@[d1])
                && #[trigger] present(self.directory@[d2]) ==> table_frame(self.directory@[d1])
                != table_frame(self.directory@[d2])
    }
}

impl AddressSpace {
    /// An address space with a zeroed directory in `directory_frame` and no tables.
    fn empty(directory_frame: usize) -> (r: AddressSpace)
        requires
            high_half(directory_frame),
        ensures
            r.wf(),
            r.root() == directory_frame,
            r.tables() == Set::<int>::empty(),
            r.frames() == set![directory_frame],
            forall|va: int| #[trigger] r.entry(va) == None::<u32>,
    {
        let mut directory: Vec<u32> = Vec::new();
        let mut tables: Vec<Vec<u32>> = Vec::new();
        let mut i: usize = 0;
        while i < ENTRIES_PER_TABLE
            invariant
                i <= ENTRIES_PER_TABLE,
                directory@.len() == i,
                tables@.len() == i,
                forall|j: int| 0 <= j < i ==> directory@[j] == 0,
            decreases ENTRIES_PER_TABLE - i,
        {
            directory.push(0);
            tables.push(Vec::new());
            i = i + 1;
        }
        assert(!present(0u32)) by (bit_vector);
        let r = AddressSpace { directory_frame, directory, tables };
        assert(r.tables() == Set::<int>::empty());
        assert(r.frames() == set![directory_frame]);
        assert forall|va: int| #[trigger] r.entry(va) == None::<u32> by {
            assert(0 <= directory_index(va) < 1024);
        }
        r
    }

    /// Walks the directory without allocating: the table entry for
    /// `virtual_address`, present or not, when a page table covers it, and
    /// `None` when its directory slot is absent. The entry is the one of the
    /// page that holds the address. The lookup that answers `None` for an
    /// address that no present entry maps is `translate`.
    pub fn walk_page_directory(&self, virtual_address: usize) -> (r: Option<u32>)
        requires
            self.wf(),
        ensures
            r == self.entry(virtual_address as int),
            r == self.entry(round_down(virtual_address as int)),
            r.is_some() == self.has_table(directory_index(virtual_address as int)),
            r.is_some() ==> r == Some(
                self.table_word(
                    directory_index(virtual_address as int),
                    table_index(virtual_address as int),
                ),
            ),
    {
        proof {
            lemma_same_page_slots(virtual_address);
        }
        let d = page_directory_index(virtual_address);
        if directory_entry_present(self.directory[d]) {
            Some(self.tables[d][page_table_index(virtual_address)])
        } else {
            None
        }
    }

    /// The physical frame that `virtual_address` is mapped to, if a present
    /// entry maps it: `None` both where the directory slot is absent and where
    /// the table entry is.
    pub fn translate(&self, virtual_address: usize) -> (r: Option<u32>)
        requires
            self.wf(),
        ensures
            r == (match self.translation(virtual_address as int) {
                Some(e) => Some(frame_address(e)),
                None => None,
            }),
            self.translation(virtual_address as int) == self.translation(
                round_down(virtual_address as int),
            ),
    {
        match self.walk_page_directory(virtual_address) {
            Some(e) => {
                if table_entry_present(e) {
                    Some(table_entry_address(e))
                } else {
                    None
                }
            },
            None => None,
        }
    }

    /// The physical address of the directory: what the page-table base
    /// register is loaded with to switch onto this address space.
    pub fn directory_physical_address(&self) -> (r: usize)
        requires
            self.wf(),
        ensures
            r == self.root() - KERNEL_BASE,
    {
        map_virtual_to_physical(self.directory_frame)
    }
}

impl AddressSpace {
    /// Finds the page table that covers `va`, allocating and zeroing one when
    /// the directory slot is absent. Fails, changing nothing, only when a
    /// table is needed and no frame is free.
    fn resolve_table(&mut self, frames: &mut AllocationList, va: usize) -> (ok: bool)
        requires
            old(self).wf(),
            old(frames).wf(),
            all_high_half(old(frames)@),
            forall|f: usize| old(self).frames().contains(f) ==> !old(frames)@.contains(f),
        ensures
            final(self).wf(),
            final(frames).wf(),
            all_high_half(final(frames)@),
            forall|f: usize| final(self).frames().contains(f) ==> !final(frames)@.contains(f),
            final(self).root() == old(self).root(),
            ok == (old(self).has_table(directory_index(va as int)) || old(frames)@.len() > 0),
            ok ==> final(self).has_table(directory_index(va as int)),
            forall|x: int| #[trigger] final(self).translation(x) == old(self).translation(x),
            old(self).has_table(directory_index(va as int)) || !ok ==> *final(self) == *old(self)
                && final(frames)@ == old(frames)@,
            !old(self).has_table(directory_index(va as int)) && ok ==> {
                &&& final(frames)@ == old(frames)@.drop_last()
                &&& final(self).directory_word(directory_index(va as int)) == ((old(frames)@.last()
                    - KERNEL_BASE) as u32) | DIRECTORY_FLAGS
                &&& final(self).directory_word(directory_index(va as int)) & DIRECTORY_FLAGS
                    == DIRECTORY_FLAGS
                &&& frame_address(final(self).directory_word(directory_index(va as int)))
                    == (old(frames)@.last() - KERNEL_BASE) as u32
                &&& forall|x: int|
                    0 <= x < 1024 && x != directory_index(va as int)
                        ==> #[trigger] final(self).directory_word(x) == old(self).directory_word(x)
                &&& final(self).tables() == old(self).tables().insert(directory_index(va as int))
                &&& final(self).frames() == old(self).frames().insert(old(frames)@.last())
                &&& forall|x: int|
                    #![trigger final(self).entry(x)]
                    directory_index(x) != directory_index(va as int) ==> final(self).entry(x)
                        == old(self).entry(x)
                &&& forall|x: int|
                    #![trigger final(self).entry(x)]
                    directory_index(x) == directory_index(va as int) ==> final(self).entry(x)
                        == Some(0u32)
            },
    {
        let d = page_directory_index(va);
        if directory_entry_present(self.directory[d]) {
            return true;
        }
        let location = frames.alloc_page();
        match location {
            None => false,
            Some(frame) => {
                let ghost old_frames = self.frames();
                let mut table: Vec<u32> = Vec::new();
                let mut k: usize = 0;
                while k < ENTRIES_PER_TABLE
                    invariant
                        k <= ENTRIES_PER_TABLE,
                        table@.len() == k,
                        forall|j: int| 0 <= j < k ==> table@[j] == 0,
                    decreases ENTRIES_PER_TABLE - k,
                {
                    table.push(0);
                    k = k + 1;
                }
                proof {
                    assert(old(frames)@.contains(frame));
                    assert(high_half(frame));
                }
                let phys = map_virtual_to_physical(frame) as u32;
                proof {
                    assert(7u32 & 0x80u32 == 0) by (bit_vector);
                    assert(7u32 & 0x11FFu32 == 7) by (bit_vector);
                    assert(7u32 & 1u32 == 1) by (bit_vector);
                }
                let entry = directory_entry(phys, DIRECTORY_FLAGS);
                proof {
                    lemma_entry_bits(phys, DIRECTORY_FLAGS);
                    assert((phys | 7u32) & 7u32 == 7u32) by (bit_vector);
                    assert(present(entry));
                    assert(table_frame(entry) == frame);
                    assert(!old(frames)@.drop_last().contains(frame)) by {
                        assert(old(frames)@.no_duplicates());
                        if old(frames)@.drop_last().contains(frame) {
                            let i = choose|i: int| 0 <= i < old(frames)@.len() - 1 && old(frames)@.drop_last()[i] == frame;
                            assert(old(frames)@[i] == old(frames)@[old(frames)@.len() - 1]);
                        }
                    }
                    assert(!old_frames.contains(frame));
                    assert(old_frames.contains(old(self).root()));
                    assert(frame != old(self).root());
                    assert forall|d2: int| 0 <= d2 < 1024 && #[trigger] old(self).has_table(d2)
                        implies old(self).table_frame_of(d2) != frame by {
                        assert(old_frames.contains(old(self).table_frame_of(d2) as usize));
                    }
                }
                self.tables[d] = table;
                self.directory[d] = entry;
                proof {
                    assert(self.tables() == old(self).tables().insert(d as int));
                    assert forall|d1: int, d2: int|
                        0 <= d1 < 1024 && 0 <= d2 < 1024 && d1 != d2 && #[trigger] present(self.directory@[d1])
                            && #[trigger] present(self.directory@[d2]) implies table_frame(self.directory@[d1])
                            != table_frame(self.directory@[d2]) by {
                        if d1 != d && d2 != d {
                            assert(old(self).has_table(d1) && old(self).has_table(d2));
                        } else if d1 == d {
                            assert(old(self).has_table(d2));
                        } else {
                            assert(old(self).has_table(d1));
                        }
                    }
                    assert forall|f: usize| self.frames().contains(f) <==> old_frames.insert(frame).contains(f) by {
                        if old_frames.contains(f) && f != self.root() {
                            let d2 = choose|d2: int|
                                0 <= d2 < 1024 && #[trigger] old(self).has_table(d2)
                                    && old(self).table_frame_of(d2) == f;
                            assert(self.has_table(d2) && self.table_frame_of(d2) == f);
                        }
                        if f == frame {
                            assert(self.has_table(d as int) && self.table_frame_of(d as int) == f);
                        }
                        if self.frames().contains(f) && f != self.root() {
                            let d2 = choose|d2: int|
                                0 <= d2 < 1024 && #[trigger] self.has_table(d2)
                                    && self.table_frame_of(d2) == f;
                            if d2 != d {
                                assert(old(self).has_table(d2) && old(self).table_frame_of(d2) == f);
                            }
                        }
                    }
                    assert(self.frames() == old_frames.insert(frame));
                    assert(!present(0u32)) by (bit_vector);
                    assert forall|x: int| #[trigger] self.translation(x) == old(self).translation(x) by {
                        assert(0 <= directory_index(x) < 1024);
                    }
                    assert forall|f: usize| self.frames().contains(f) implies !frames@.contains(f) by {
                        if f != frame {
                            assert(old_frames.contains(f));
                            assert(!old(frames)@.contains(f));
                            if frames@.contains(f) {
                                let i = choose|i: int| 0 <= i < frames@.len() && frames@[i] == f;
                                assert(old(frames)@[i] == f);
                            }
                        }
                    }
                    assert forall|i: int| 0 <= i < frames@.len() implies high_half(#[trigger] frames@[i]) by {
                        assert(frames@[i] == old(frames)@[i]);
                    }
                }
                true
            },
        }
    }

    /// Writes the table entry for `va`, whose page table must exist.
    fn set_entry(&mut self, va: usize, e: u32)
        requires
            old(self).wf(),
            old(self).has_table(directory_index(va as int)),
        ensures
            final(self).wf(),
            final(self).root() == old(self).root(),
            final(self).tables() == old(self).tables(),
            final(self).frames() == old(self).frames(),
            forall|x: int|
                #![trigger final(self).entry(x)]
                final(self).entry(x) == if directory_index(x) == directory_index(va as int)
                    && table_index(x) == table_index(va as int) {
                    Some(e)
                } else {
                    old(self).entry(x)
                },
    {
        let d = page_directory_index(va);
        let t = page_table_index(va);
        self.tables[d][t] = e;
        proof {
            assert(self.directory@ == old(self).directory@);
            assert(self.tables() == old(self).tables());
            assert forall|f: usize| self.frames().contains(f) <==> old(self).frames().contains(f) by {
                if self.frames().contains(f) && f != self.root() {
                    let k = choose|k: int| 0 <= k < 1024 && #[trigger] self.has_table(k) && self.table_frame_of(k) == f;
                    assert(old(self).has_table(k) && old(self).table_frame_of(k) == f);
                }
                if old(self).frames().contains(f) && f != self.root() {
                    let k = choose|k: int| 0 <= k < 1024 && #[trigger] old(self).has_table(k) && old(self).table_frame_of(k) == f;
                    assert(self.has_table(k) && self.table_frame_of(k) == f);
                }
            }
            assert(self.frames() =~= old(self).frames());
            assert forall|x: int|
                #![trigger self.entry(x)]
                self.entry(x) == if directory_index(x) == d && table_index(x) == t {
                    Some(e)
                } else {
                    old(self).entry(x)
                } by {
                assert(0 <= directory_index(x) < 1024 && 0 <= table_index(x) < 1024);
            }
        }
    }

    /// Tears the address space down: frees the frame of every page table that
    /// the directory points at, then the directory's own frame. The data frames
    /// that the tables map are not freed: they belong to whoever mapped them.
    pub fn destroy(self, frames: &mut AllocationList)
        requires
            self.wf(),
            old(frames).wf(),
            forall|f: usize| self.frames().contains(f) ==> !old(frames)@.contains(f),
        ensures
            torn_down(self, old(frames)@, final(frames)@),
    {
        let mut d: usize = 0;
        while d < ENTRIES_PER_TABLE
            invariant
                self.wf(),
                d <= ENTRIES_PER_TABLE,
                frames.wf(),
                forall|f: usize| self.frames().contains(f) ==> !old(frames)@.contains(f),
                forall|f: usize|
                    frames@.contains(f) <==> (old(frames)@.contains(f) || exists|k: int|
                        0 <= k < d && #[trigger] self.has_table(k) && self.table_frame_of(k) == f),
            decreases ENTRIES_PER_TABLE - d,
        {
            let e = self.directory[d];
            if directory_entry_present(e) {
                let phys = directory_entry_address(e);
                let f = map_physical_virtual(phys as usize);
                proof {
                    lemma_frame_address_aligned(e);
                    assert(self.has_table(d as int));
                    assert(f == self.table_frame_of(d as int));
                    assert(self.frames().contains(f));
                    if frames@.contains(f) {
                        if !old(frames)@.contains(f) {
                            let k = choose|k: int|
                                0 <= k < d && #[trigger] self.has_table(k) && self.table_frame_of(k) == f;
                            assert(false);
                        }
                    }
                }
                let ghost before = frames@;
                frames.dealloc_page(f);
                proof {
                    assert forall|g: usize|
                        frames@.contains(g) <==> (old(frames)@.contains(g) || exists|k: int|
                            0 <= k < d + 1 && #[trigger] self.has_table(k) && self.table_frame_of(k)
                                == g) by {
                        assert(frames@.contains(g) <==> (before.contains(g) || g == f)) by {
                            if g == f {
                                assert(frames@.last() == f);
                            }
                            if before.contains(g) {
                                let i = choose|i: int| 0 <= i < before.len() && before[i] == g;
                                assert(frames@[i] == g);
                            }
                        }
                        if exists|k: int| 0 <= k < d + 1 && #[trigger] self.has_table(k) && self.table_frame_of(k) == g {
                            let k = choose|k: int| 0 <= k < d + 1 && #[trigger] self.has_table(k) && self.table_frame_of(k) == g;
                            if k < d {
                                assert(before.contains(g));
                            }
                        }
                    }
                }
            } else {
                proof {
                    assert forall|g: usize|
                        frames@.contains(g) <==> (old(frames)@.contains(g) || exists|k: int|
                            0 <= k < d + 1 && #[trigger] self.has_table(k) && self.table_frame_of(k)
                                == g) by {
                        if exists|k: int| 0 <= k < d + 1 && #[trigger] self.has_table(k) && self.table_frame_of(k) == g {
                            let k = choose|k: int| 0 <= k < d + 1 && #[trigger] self.has_table(k) && self.table_frame_of(k) == g;
                            assert(k != d);
                        }
                    }
                }
            }
            d = d + 1;
        }
        proof {
            let root = self.directory_frame;
            assert(self.frames().contains(root));
            if frames@.contains(root) {
                if !old(frames)@.contains(root) {
                    let k = choose|k: int| 0 <= k < 1024 && #[trigger] self.has_table(k) && self.table_frame_of(k) == root;
                    assert(false);
                }
            }
        }
        let ghost before = frames@;
        frames.dealloc_page(self.directory_frame);
        proof {
            assert forall|g: usize|
                frames@.to_set().contains(g) <==> old(frames)@.to_set().union(self.frames()).contains(g) by {
                assert(frames@.contains(g) <==> (before.contains(g) || g == self.directory_frame)) by {
                    if g == self.directory_frame {
                        assert(frames@.last() == g);
                    }
                    if before.contains(g) {
                        let i = choose|i: int| 0 <= i < before.len() && before[i] == g;
                        assert(frames@[i] == g);
                    }
                }
            }
            assert(frames@.to_set() == old(frames)@.to_set().union(self.frames()));
        }
    }
}

proof fn lemma_tables_finite(h: AddressSpace)
    ensures
        h.tables().finite(),
{
    lemma_slots_finite(h.tables());
}

/// The directory slots of the region's pages below `a`.
pub open spec fn tables_below(r: RegionDescriptor, a: int) -> Set<int> {
    Set::new(|d: int| exists|p: int| #[trigger] in_region(r, p) && p < a && directory_index(p) == d)
}

/// The translations of `after` are those of `before`, but that the region's
/// pages below `q` are mapped to the region's entries.
pub open spec fn mapped_below(before: AddressSpace, after: AddressSpace, r: RegionDescriptor, q: int) -> bool {
    forall|p: int|
        0 <= p < ADDRESS_SPACE_END && p % 4096 == 0 ==> #[trigger] after.translation(p) == if in_region(r, p)
            && p < q {
            Some(region_entry(r, p))
        } else {
            before.translation(p)
        }
}

impl AddressSpace {
    /// Maps every page of region `r`, allocating page tables as needed. Fails
    /// only when a page table is needed and no frame is free; what it mapped
    /// until then stays, for the caller to tear down.
    #[verifier::rlimit(50)]
    fn map_pages(&mut self, frames: &mut AllocationList, r: &RegionDescriptor) -> (ok: bool)
        requires
            old(self).wf(),
            old(frames).wf(),
            all_high_half(old(frames)@),
            forall|f: usize| old(self).frames().contains(f) ==> !old(frames)@.contains(f),
            region_valid(*r),
            forall|p: int| #[trigger] in_region(*r, p) ==> old(self).translation(p) == None::<u32>,
        ensures
            final(self).wf(),
            final(frames).wf(),
            all_high_half(final(frames)@),
            forall|f: usize| final(self).frames().contains(f) ==> !final(frames)@.contains(f),
            final(self).root() == old(self).root(),
            final(frames)@.len() <= old(frames)@.len(),
            final(frames)@ == old(frames)@.subrange(0, final(frames)@.len() as int),
            final(self).frames() == old(self).frames().union(
                old(frames)@.subrange(final(frames)@.len() as int, old(frames)@.len() as int).to_set(),
            ),
            old(frames)@.len() - final(frames)@.len() == final(self).tables().len() - old(
                self,
            ).tables().len(),
            final(self).tables().subset_of(old(self).tables().union(region_tables(*r))),
            old(self).tables().subset_of(final(self).tables()),
            ok ==> final(self).tables() == old(self).tables().union(region_tables(*r)),
            ok ==> forall|p: int|
                0 <= p < ADDRESS_SPACE_END && p % 4096 == 0 ==> #[trigger] final(self).translation(p)
                    == if in_region(*r, p) {
                    Some(region_entry(*r, p))
                } else {
                    old(self).translation(p)
                },
            !ok ==> final(frames)@.len() == 0 && exists|d: int|
                region_tables(*r).contains(d) && !final(self).tables().contains(d),
            !ok ==> exists|q: int|
                #[trigger] in_region(*r, q) && !final(self).has_table(directory_index(q))
                    && mapped_below(*old(self), *final(self), *r, q),
    {
        let mut address = page_round_down(r.virtual_base);
        let last = page_round_down(r.virtual_base + (r.size - 1));
        let mut phys = r.phys_start;
        let flags = entry_flags(r);
        proof {
            assert(tables_below(*r, address as int) =~= Set::<int>::empty());
            assert(old(self).tables().union(Set::<int>::empty()) =~= old(self).tables());
            assert(old(frames)@.subrange(0, old(frames)@.len() as int) == old(frames)@);
            assert(old(frames)@.subrange(old(frames)@.len() as int, old(frames)@.len() as int).to_set() =~= Set::<usize>::empty());
            assert(old(self).frames().union(Set::<usize>::empty()) =~= old(self).frames());
        }
        loop
            invariant
                self.wf(),
                frames.wf(),
                all_high_half(frames@),
                forall|f: usize| self.frames().contains(f) ==> !frames@.contains(f),
                self.root() == old(self).root(),
                region_valid(*r),
                first_page(*r) <= address <= last_page(*r),
                address % 4096 == 0,
                last == last_page(*r),
                phys == region_frame(*r, address as int),
                flags == region_flags(*r),
                flags < 8,
                frames@.len() <= old(frames)@.len(),
                frames@ == old(frames)@.subrange(0, frames@.len() as int),
                self.frames() == old(self).frames().union(
                    old(frames)@.subrange(frames@.len() as int, old(frames)@.len() as int).to_set(),
                ),
                self.tables() == old(self).tables().union(tables_below(*r, address as int)),
                old(frames)@.len() - frames@.len() == self.tables().len() - old(self).tables().len(),
                forall|p: int|
                    0 <= p < ADDRESS_SPACE_END && p % 4096 == 0 ==> #[trigger] self.translation(p)
                        == if in_region(*r, p) && p < address {
                        Some(region_entry(*r, p))
                    } else {
                        old(self).translation(p)
                    },
            decreases last - address,
        {
            let ghost before_self = *self;
            let ghost before_frames = frames@;
            proof {
                lemma_tables_finite(*self);
            }
            if !self.resolve_table(frames, address) {
                proof {
                    let d = directory_index(address as int);
                    assert(in_region(*r, address as int));
                    assert(region_tables(*r).contains(d));
                    assert(!self.tables().contains(d));
                    assert(mapped_below(*old(self), *self, *r, address as int));
                }
                return false;
            }
            let ghost mid_self = *self;
            let e = table_entry(phys as u32, flags);
            proof {
                lemma_entry_bits(phys as u32, flags);
                assert(flags & 0x1FF == flags) by (bit_vector)
                    requires
                        flags < 8,
                ;
                assert(flags & 1 == 1) by (bit_vector)
                    requires
                        flags < 8,
                        flags % 2 == 1,
                ;
                assert(e == region_entry(*r, address as int));
                assert(present(e));
            }
            self.set_entry(address, e);
            let ghost next: int = address + 4096;
            proof {
                let a = address as int;
                let d = directory_index(a);
                lemma_tables_finite(*self);
                lemma_tables_finite(before_self);
                // the frame accounting
                if before_self.has_table(d) {
                    assert(frames@ == before_frames);
                } else {
                    assert(!before_self.tables().contains(d));
                    assert(self.tables() == before_self.tables().insert(d));
                    assert(frames@.len() == before_frames.len() - 1);
                    assert(frames@ =~= old(frames)@.subrange(0, frames@.len() as int));
                    assert(before_frames.last() == old(frames)@[frames@.len() as int]);
                    assert(old(frames)@.subrange(frames@.len() as int, old(frames)@.len() as int).to_set()
                        =~= old(frames)@.subrange(before_frames.len() as int, old(frames)@.len() as int).to_set().insert(before_frames.last())) by {
                        let s1 = old(frames)@.subrange(frames@.len() as int, old(frames)@.len() as int);
                        let s2 = old(frames)@.subrange(before_frames.len() as int, old(frames)@.len() as int);
                        assert forall|f: usize| s1.contains(f) <==> (s2.contains(f) || f == before_frames.last()) by {
                            if s1.contains(f) {
                                let i = choose|i: int| 0 <= i < s1.len() && s1[i] == f;
                                if i > 0 {
                                    assert(s2[i - 1] == f);
                                }
                            }
                            if s2.contains(f) {
                                let i = choose|i: int| 0 <= i < s2.len() && s2[i] == f;
                                assert(s1[i + 1] == f);
                            }
                            if f == before_frames.last() {
                                assert(s1[0] == f);
                            }
                        }
                    }
                    assert(self.frames() =~= old(self).frames().union(
                        old(frames)@.subrange(frames@.len() as int, old(frames)@.len() as int).to_set()));
                }
                // the tables
                assert(tables_below(*r, next) =~= tables_below(*r, a).insert(d)) by {
                    assert(in_region(*r, a));
                    assert forall|x: int| tables_below(*r, next).contains(x) implies #[trigger] tables_below(*r, a).insert(d).contains(x) by {
                        let p = choose|p: int| #[trigger] in_region(*r, p) && p < next && directory_index(p) == x;
                        if p >= a {
                            assert(p == a);
                        }
                    }
                }
                assert(self.tables() =~= old(self).tables().union(tables_below(*r, next)));
                // the translations
                assert forall|p: int|
                    0 <= p < ADDRESS_SPACE_END && p % 4096 == 0 implies #[trigger] self.translation(p)
                        == if in_region(*r, p) && p < next {
                        Some(region_entry(*r, p))
                    } else {
                        old(self).translation(p)
                    } by {
                    assert(0 <= a < ADDRESS_SPACE_END);
                    if p == a {
                        assert(self.entry(p) == Some(e));
                    } else {
                        if directory_index(p) == d && table_index(p) == table_index(a) {
                            lemma_same_slots(p, a);
                        }
                        assert(self.entry(p) == mid_self.entry(p));
                        assert(mid_self.translation(p) == before_self.translation(p));
                        if in_region(*r, p) && p < next {
                            assert(p < a);
                        }
                    }
                }
            }
            if address == last {
                proof {
                    assert(tables_below(*r, next) =~= region_tables(*r));
                }
                return true;
            }
            address = address + PAGE_SIZE;
            phys = phys + PAGE_SIZE;
        }
    }
}

/// The frames of consecutive stretches of a list are those of the whole stretch.
proof fn lemma_subrange_sets(s: Seq<usize>, a: int, b: int, c: int)
    requires
        0 <= a <= b <= c <= s.len(),
    ensures
        s.subrange(a, c).to_set() == s.subrange(a, b).to_set().union(s.subrange(b, c).to_set()),
{
    let whole = s.subrange(a, c);
    let left = s.subrange(a, b);
    let right = s.subrange(b, c);
    assert forall|f: usize| whole.contains(f) <==> (left.contains(f) || right.contains(f)) by {
        if whole.contains(f) {
            let i = choose|i: int| 0 <= i < whole.len() && whole[i] == f;
            if i < b - a {
                assert(left[i] == f);
            } else {
                assert(right[i - (b - a)] == f);
            }
        }
        if left.contains(f) {
            let i = choose|i: int| 0 <= i < left.len() && left[i] == f;
            assert(whole[i] == f);
        }
        if right.contains(f) {
            let i = choose|i: int| 0 <= i < right.len() && right[i] == f;
            assert(whole[i + (b - a)] == f);
        }
    }
    assert(whole.to_set() =~= left.to_set().union(right.to_set()));
}

/// What `build` promises, from the free frames `before` to the free frames
/// `after` and its result `r`: an address space exactly when the free frames
/// cover the directory and one page table per directory slot that the regions
/// touch. It maps each requested page to its region's entry and nothing else,
/// and owns exactly the frames taken off the top of the free list, its
/// directory in the first of them, the head of the list. Without
/// one, the free frames are those of before.
pub open spec fn built(
    rs: Seq<RegionDescriptor>,
    before: Seq<usize>,
    r: Option<AddressSpace>,
    after: Seq<usize>,
) -> bool {
    &&& frames_valid(after)
    &&& all_high_half(after)
    &&& r.is_some() <==> before.len() >= 1 + tables_needed(rs, rs.len() as int).len()
    &&& match r {
        Some(h) => {
            &&& h.wf()
            &&& h.root() == before.last()
            &&& h.tables() == tables_needed(rs, rs.len() as int)
            &&& after.len() + 1 + h.tables().len() == before.len()
            &&& after == before.subrange(0, after.len() as int)
            &&& h.frames() == before.subrange(after.len() as int, before.len() as int).to_set()
            &&& forall|p: int|
                0 <= p < ADDRESS_SPACE_END && p % 4096 == 0 ==> #[trigger] h.translation(p)
                    == requested(rs, rs.len() as int, p)
        },
        None => {
            &&& after.to_set() == before.to_set()
            &&& after.len() == before.len()
        },
    }
}

/// What `destroy` promises: the free frames are those of before and every
/// frame of the address space.
pub open spec fn torn_down(h: AddressSpace, before: Seq<usize>, after: Seq<usize>) -> bool {
    &&& frames_valid(after)
    &&& after.to_set() == before.to_set().union(h.frames())
}

/// Builds an address space that maps `regions`, in order, allocating the
/// directory and each page table from `frames`. On exhaustion it tears down
/// what it built and gives `None`, with the same free frames as before.
pub fn build(regions: &Vec<RegionDescriptor>, frames: &mut AllocationList) -> (r: Option<
    AddressSpace,
>)
    requires
        old(frames).wf(),
        all_high_half(old(frames)@),
        regions_valid(regions@),
        regions_disjoint(regions@),
    ensures
        built(regions@, old(frames)@, r, final(frames)@),
{
    let ghost rs = regions@;
    let ghost n = regions@.len() as int;
    let ghost total = old(frames)@.len() as int;
    proof {
        lemma_tables_needed_finite(rs, n);
    }
    let location = frames.alloc_page();
    let directory_frame = match location {
        None => {
            return None;
        },
        Some(f) => f,
    };
    proof {
        assert(old(frames)@.contains(directory_frame));
    }
    let mut space = AddressSpace::empty(directory_frame);
    proof {
        assert(tables_needed(rs, 0) =~= Set::<int>::empty());
        assert(old(frames)@.subrange(total - 1, total).to_set() =~= set![directory_frame]) by {
            let s1 = old(frames)@.subrange(total - 1, total);
            assert(s1[0] == directory_frame);
            assert forall|f: usize| s1.contains(f) <==> f == directory_frame by {
                if s1.contains(f) {
                    let i = choose|i: int| 0 <= i < s1.len() && s1[i] == f;
                }
            }
        }
        assert(frames@ =~= old(frames)@.subrange(0, total - 1));
        assert(!frames@.contains(directory_frame)) by {
            assert(old(frames)@.no_duplicates());
            if frames@.contains(directory_frame) {
                let i = choose|i: int| 0 <= i < frames@.len() && frames@[i] == directory_frame;
                assert(old(frames)@[i] == old(frames)@[total - 1]);
            }
        }
        assert forall|i: int| 0 <= i < frames@.len() implies high_half(#[trigger] frames@[i]) by {
            assert(frames@[i] == old(frames)@[i]);
        }
        lemma_tables_finite(space);
        assert(space.tables().len() == 0);
    }
    let mut i: usize = 0;
    while i < regions.len()
        invariant
            rs == regions@,
            n == rs.len(),
            total == old(frames)@.len(),
            old(frames).wf(),
            all_high_half(old(frames)@),
            i <= n,
            regions_valid(rs),
            regions_disjoint(rs),
            space.wf(),
            space.root() == old(frames)@.last(),
            frames.wf(),
            all_high_half(frames@),
            forall|f: usize| space.frames().contains(f) ==> !frames@.contains(f),
            frames@.len() < total,
            frames@ == old(frames)@.subrange(0, frames@.len() as int),
            space.frames() == old(frames)@.subrange(frames@.len() as int, total).to_set(),
            space.tables() == tables_needed(rs, i as int),
            total - frames@.len() == 1 + space.tables().len(),
            forall|p: int|
                0 <= p < ADDRESS_SPACE_END && p % 4096 == 0 ==> #[trigger] space.translation(p)
                    == requested(rs, i as int, p),
        decreases n - i,
    {
        let ghost before = space;
        let ghost before_frames = frames@;
        proof {
            lemma_tables_needed_finite(rs, n);
        }
        proof {
            assert(region_valid(rs[i as int]));
            assert forall|p: int| #[trigger] in_region(rs[i as int], p) implies space.translation(p)
                == None::<u32> by {
                assert(0 <= p < ADDRESS_SPACE_END);
                if covered(rs, i as int, p) {
                    let j = choose|j: int| 0 <= j < i && #[trigger] in_region(rs[j], p);
                    assert(!in_region(rs[j], p));
                }
            }
        }
        let ok = space.map_pages(frames, &regions[i]);
        proof {
            lemma_tables_finite(space);
            lemma_tables_finite(before);
            lemma_subrange_sets(old(frames)@, frames@.len() as int, before_frames.len() as int, total);
            assert(before_frames.subrange(frames@.len() as int, before_frames.len() as int)
                =~= old(frames)@.subrange(frames@.len() as int, before_frames.len() as int));
            assert(frames@ =~= old(frames)@.subrange(0, frames@.len() as int));
            assert(space.frames() =~= old(frames)@.subrange(frames@.len() as int, total).to_set());
        }
        if !ok {
            proof {
                let d = choose|d: int| region_tables(rs[i as int]).contains(d) && !space.tables().contains(d);
                assert(tables_needed(rs, n).contains(d));
                assert(space.tables().subset_of(tables_needed(rs, n))) by {
                    assert forall|x: int| space.tables().contains(x) implies tables_needed(rs, n).contains(x) by {
                        if before.tables().contains(x) {
                            let j = choose|j: int| 0 <= j < i && #[trigger] region_tables(rs[j]).contains(x);
                        } else {
                            assert(region_tables(rs[i as int]).contains(x));
                        }
                    }
                }
                lemma_tables_needed_finite(rs, n);
                lemma_len_subset(space.tables().insert(d), tables_needed(rs, n));
            }
            let ghost last_frames = frames@;
            space.destroy(frames);
            proof {
                lemma_subrange_sets(old(frames)@, 0, last_frames.len() as int, total);
                assert(old(frames)@.subrange(0, total) == old(frames)@);
                assert(last_frames.to_set() == old(frames)@.subrange(0, last_frames.len() as int).to_set());
                assert(frames@.to_set() =~= old(frames)@.to_set());
                frames@.unique_seq_to_set();
                old(frames)@.unique_seq_to_set();
                assert forall|k: int| 0 <= k < frames@.len() implies high_half(#[trigger] frames@[k]) by {
                    assert(frames@.to_set().contains(frames@[k]));
                    assert(old(frames)@.contains(frames@[k]));
                    let j = choose|j: int| 0 <= j < old(frames)@.len() && old(frames)@[j] == frames@[k];
                }
            }
            return None;
        }
        proof {
            assert(tables_needed(rs, i + 1) =~= tables_needed(rs, i as int).union(region_tables(rs[i as int]))) by {
                assert forall|x: int| tables_needed(rs, i + 1).contains(x) implies tables_needed(rs, i as int).union(region_tables(rs[i as int])).contains(x) by {
                    let j = choose|j: int| 0 <= j < i + 1 && #[trigger] region_tables(rs[j]).contains(x);
                    if j < i {
                        assert(tables_needed(rs, i as int).contains(x));
                    }
                }
                assert forall|x: int| tables_needed(rs, i as int).contains(x) implies tables_needed(rs, i + 1).contains(x) by {
                    let j = choose|j: int| 0 <= j < i && #[trigger] region_tables(rs[j]).contains(x);
                }
                assert forall|x: int| region_tables(rs[i as int]).contains(x) implies tables_needed(rs, i + 1).contains(x) by {
                    assert(0 <= i < i + 1 && region_tables(rs[i as int]).contains(x));
                }
            }
            assert forall|p: int|
                0 <= p < ADDRESS_SPACE_END && p % 4096 == 0 implies #[trigger] space.translation(p)
                    == requested(rs, i + 1, p) by {
                if in_region(rs[i as int], p) {
                    lemma_requested_unique(rs, i + 1, i as int, p);
                } else if covered(rs, i as int, p) {
                    let j = choose|j: int| 0 <= j < i && #[trigger] in_region(rs[j], p);
                    lemma_requested_unique(rs, i + 1, j, p);
                    lemma_requested_unique(rs, i as int, j, p);
                } else {
                    assert(!covered(rs, i + 1, p)) by {
                        if covered(rs, i + 1, p) {
                            let j = choose|j: int| 0 <= j < i + 1 && #[trigger] in_region(rs[j], p);
                            assert(j != i);
                            assert(covered(rs, i as int, p));
                        }
                    }
                }
            }
        }
        i = i + 1;
    }
    Some(space)
}

/// Why a checked build gave no address space.
#[derive(Clone, Copy, Debug, PartialEq, Eq, Structural)]
pub enum BuildError {
    /// A region is empty, leaves the 32-bit space, or has an unaligned
    /// physical start.
    InvalidRegion,
    /// Two regions ask for the same page: mapping both would silently remap it.
    Remap,
    /// The free frames did not cover the directory and the page tables.
    OutOfMemory,
}

/// Checks the regions, then builds. Overlapping regions are refused before
/// anything is allocated, so a page is never mapped twice.
pub fn try_build(regions: &Vec<RegionDescriptor>, frames: &mut AllocationList) -> (r: Result<
    AddressSpace,
    BuildError,
>)
    requires
        old(frames).wf(),
        all_high_half(old(frames)@),
    ensures
        final(frames).wf(),
        all_high_half(final(frames)@),
        r == Err::<AddressSpace, BuildError>(BuildError::InvalidRegion) <==> !regions_valid(
            regions@,
        ),
        r == Err::<AddressSpace, BuildError>(BuildError::Remap) <==> regions_valid(regions@)
            && !regions_disjoint(regions@),
        r == Err::<AddressSpace, BuildError>(BuildError::OutOfMemory) <==> regions_valid(regions@)
            && regions_disjoint(regions@) && old(frames)@.len() < 1 + tables_needed(
            regions@,
            regions@.len() as int,
        ).len(),
        !regions_valid(regions@) || !regions_disjoint(regions@) ==> *final(frames) == *old(
            frames,
        ),
        regions_valid(regions@) && regions_disjoint(regions@) ==> built(
            regions@,
            old(frames)@,
            match r {
                Ok(h) => Some(h),
                Err(_) => None,
            },
            final(frames)@,
        ),
{
    let n = regions.len();
    let mut i: usize = 0;
    while i < n
        invariant
            n == regions@.len(),
            i <= n,
            forall|k: int| 0 <= k < i ==> region_valid(#[trigger] regions@[k]),
            *frames == *old(frames),
            frames.wf(),
            all_high_half(frames@),
        decreases n - i,
    {
        if !region_is_valid(&regions[i]) {
            return Err(BuildError::InvalidRegion);
        }
        i = i + 1;
    }
    if regions_overlap(regions) {
        return Err(BuildError::Remap);
    }
    match build(regions, frames) {
        Some(h) => Ok(h),
        None => Err(BuildError::OutOfMemory),
    }
}

/// Builds the kernel's own address space (see `kernel_regions`).
pub fn setup_kernel_virtual_memory(frames: &mut AllocationList, data: usize) -> (r: Option<
    AddressSpace,
>)
    requires
        old(frames).wf(),
        all_high_half(old(frames)@),
        kernel_data_valid(data),
    ensures
        built(kernel_regions(data), old(frames)@, r, final(frames)@),
{
    let map = kernel_map(data);
    proof {
        lemma_kernel_regions(data);
    }
    build(&map, frames)
}

/// Destroying an address space that `build` made gives back exactly the free
/// frames that were there before the build, as many as before.
pub proof fn lemma_build_destroy_round_trip(
    rs: Seq<RegionDescriptor>,
    before: Seq<usize>,
    h: AddressSpace,
    mid: Seq<usize>,
    after: Seq<usize>,
)
    requires
        frames_valid(before),
        built(rs, before, Some(h), mid),
        torn_down(h, mid, after),
    ensures
        after.to_set() == before.to_set(),
        after.len() == before.len(),
{
    lemma_subrange_sets(before, 0, mid.len() as int, before.len() as int);
    assert(before.subrange(0, before.len() as int) == before);
    assert(after.to_set() =~= before.to_set());
    after.unique_seq_to_set();
    before.unique_seq_to_set();
}

/// When the free frames fall short of what the regions need, even by one,
/// `build` gives no address space and leaves the same free frames, as many
/// as before: nothing leaks.
pub proof fn lemma_exhaustion_leaks_nothing(
    rs: Seq<RegionDescriptor>,
    before: Seq<usize>,
    r: Option<AddressSpace>,
    after: Seq<usize>,
)
    requires
        built(rs, before, r, after),
        before.len() < 1 + tables_needed(rs, rs.len() as int).len(),
    ensures
        r.is_none(),
        after.len() == before.len(),
        after.to_set() == before.to_set(),
{
}

/// Pages that all lie in one 4 MiB stretch, a single page among them, need a
/// single page table: building them takes the directory's frame and one more.
pub proof fn lemma_one_table_per_stretch(
    r: RegionDescriptor,
    before: Seq<usize>,
    out: Option<AddressSpace>,
    after: Seq<usize>,
)
    requires
        region_valid(r),
        first_page(r) / 0x400000 == last_page(r) / 0x400000,
        built(seq![r], before, out, after),
        out.is_some(),
    ensures
        out.unwrap().tables() == set![directory_index(first_page(r))],
        after.len() + 2 == before.len(),
{
    let rs = seq![r];
    let d = directory_index(first_page(r));
    assert forall|x: int| tables_needed(rs, 1).contains(x) <==> x == d by {
        if tables_needed(rs, 1).contains(x) {
            let i = choose|i: int| 0 <= i < 1 && #[trigger] region_tables(rs[i]).contains(x);
            let p = choose|p: int| #[trigger] in_region(r, p) && directory_index(p) == x;
            let lo = first_page(r);
            let hi = last_page(r);
            assert(lo / 0x400000 <= p / 0x400000 <= hi / 0x400000) by (nonlinear_arith)
                requires
                    lo <= p <= hi,
            ;
        }
        if x == d {
            assert(in_region(r, first_page(r)));
            assert(region_tables(rs[0]).contains(x));
        }
    }
    assert(tables_needed(rs, 1) =~= set![d]);
}

/// The contents of a page that starts with `code` and is zero after it.
pub open spec fn code_page(code: Seq<u8>) -> Seq<u8> {
    code + Seq::new((PAGE_SIZE - code.len()) as nat, |i: int| 0u8)
}

/// The region that maps the first user page at virtual address 0 to the
/// physical page `phys`, writable and reachable from user mode.
pub open spec fn user_code_region(phys: usize) -> RegionDescriptor {
    RegionDescriptor { virtual_base: 0, phys_start: phys, size: PAGE_SIZE, writable: true, user: true }
}

impl AddressSpace {
    /// Loads the first user program: takes a frame for it, maps the frame at
    /// virtual address 0, writable and reachable from user mode, and gives the
    /// frame with what it must hold: `init_code`, then zeros. The frame is the
    /// caller's, not the address space's. Gives `None`, changing nothing, when
    /// the free frames do not cover the page and, if the directory has no
    /// table for it yet, that table.
    pub fn init_user_virtual_memory(
        &mut self,
        frames: &mut AllocationList,
        init_code: &Vec<u8>,
    ) -> (r: Option<(usize, Vec<u8>)>)
        requires
            old(self).wf(),
            old(frames).wf(),
            all_high_half(old(frames)@),
            forall|f: usize| old(self).frames().contains(f) ==> !old(frames)@.contains(f),
            init_code@.len() < PAGE_SIZE,
            old(self).translation(0) == None::<u32>,
        ensures
            final(self).wf(),
            final(frames).wf(),
            all_high_half(final(frames)@),
            forall|f: usize| final(self).frames().contains(f) ==> !final(frames)@.contains(f),
            final(self).root() == old(self).root(),
            r.is_some() <==> old(frames)@.len() >= if old(self).has_table(0) {
                1int
            } else {
                2int
            },
            match r {
                Some((frame, page)) => {
                    &&& frame == old(frames)@.last()
                    &&& page@ == code_page(init_code@)
                    &&& !final(frames)@.contains(frame)
                    &&& !final(self).frames().contains(frame)
                    &&& final(frames)@ == old(frames)@.subrange(0, final(frames)@.len() as int)
                    &&& final(self).frames() == old(self).frames().union(
                        old(frames)@.subrange(
                            final(frames)@.len() as int,
                            old(frames)@.len() - 1,
                        ).to_set(),
                    )
                    &&& final(self).tables() == old(self).tables().insert(0)
                    &&& forall|p: int|
                        0 <= p < ADDRESS_SPACE_END && p % 4096 == 0
                            ==> #[trigger] final(self).translation(p) == if p == 0 {
                            Some(region_entry(user_code_region((frame - KERNEL_BASE) as usize), 0))
                        } else {
                            old(self).translation(p)
                        }
                },
                None => *final(self) == *old(self) && final(frames)@ == old(frames)@,
            },
    {
        let need: usize = if directory_entry_present(self.directory[0]) {
            1
        } else {
            2
        };
        if frames.free_count() < need {
            return None;
        }
        let frame = match frames.alloc_page() {
            Some(f) => f,
            None => {
                return None;
            },
        };
        let ghost after_data = frames@;
        proof {
            assert(old(frames)@.contains(frame));
            assert(high_half(frame));
            assert forall|i: int| 0 <= i < frames@.len() implies high_half(#[trigger] frames@[i]) by {
                assert(frames@[i] == old(frames)@[i]);
            }
            assert forall|f: usize| self.frames().contains(f) implies !frames@.contains(f) by {
                if frames@.contains(f) {
                    let i = choose|i: int| 0 <= i < frames@.len() && frames@[i] == f;
                    assert(old(frames)@[i] == f);
                }
            }
            assert(!frames@.contains(frame)) by {
                assert(old(frames)@.no_duplicates());
                if frames@.contains(frame) {
                    let i = choose|i: int| 0 <= i < frames@.len() && frames@[i] == frame;
                    assert(old(frames)@[i] == old(frames)@[old(frames)@.len() - 1]);
                }
            }
        }
        let mut page: Vec<u8> = Vec::new();
        let mut i: usize = 0;
        while i < PAGE_SIZE
            invariant
                i <= PAGE_SIZE,
                init_code@.len() < PAGE_SIZE,
                page@.len() == i,
                forall|k: int| 0 <= k < i ==> #[trigger] page@[k] == code_page(init_code@)[k],
            decreases PAGE_SIZE - i,
        {
            if i < init_code.len() {
                page.push(init_code[i]);
            } else {
                page.push(0);
            }
            i = i + 1;
        }
        assert(page@ =~= code_page(init_code@));
        let region = RegionDescriptor {
            virtual_base: 0,
            phys_start: map_virtual_to_physical(frame),
            size: PAGE_SIZE,
            writable: true,
            user: true,
        };
        let ghost before = *self;
        proof {
            assert(first_page(region) == 0 && last_page(region) == 0);
            assert forall|p: int| #[trigger] in_region(region, p) implies self.translation(p) == None::<u32> by {
                assert(p == 0);
            }
            lemma_tables_finite(*self);
        }
        let ok = self.map_pages(frames, &region);
        proof {
            lemma_tables_finite(*self);
            assert(region_tables(region) =~= set![0int]) by {
                assert(in_region(region, 0));
                assert forall|d: int| region_tables(region).contains(d) implies d == 0 by {
                    let p = choose|p: int| #[trigger] in_region(region, p) && directory_index(p) == d;
                    assert(p == 0);
                }
            }
            if !ok {
                assert(!self.tables().contains(0));
                assert(!before.tables().contains(0));
                assert(self.tables() =~= before.tables()) by {
                    assert forall|d: int| self.tables().contains(d) implies before.tables().contains(d) by {
                        assert(before.tables().union(region_tables(region)).contains(d));
                    }
                }
                assert(false);
            }
            assert(!self.frames().contains(frame)) by {
                if self.frames().contains(frame) {
                    if !before.frames().contains(frame) {
                        let s1 = after_data.subrange(frames@.len() as int, after_data.len() as int);
                        assert(s1.to_set().contains(frame));
                        let k = choose|k: int| 0 <= k < s1.len() && s1[k] == frame;
                        assert(after_data.contains(frame));
                    }
                }
            }
            assert(after_data =~= old(frames)@.subrange(0, old(frames)@.len() - 1));
            assert(frames@ =~= old(frames)@.subrange(0, frames@.len() as int));
            assert(after_data.subrange(frames@.len() as int, after_data.len() as int)
                =~= old(frames)@.subrange(frames@.len() as int, old(frames)@.len() - 1));
            assert(!frames@.contains(frame)) by {
                if frames@.contains(frame) {
                    let k = choose|k: int| 0 <= k < frames@.len() && frames@[k] == frame;
                    assert(after_data[k] == frame);
                }
            }
            assert(self.tables() =~= old(self).tables().insert(0));
            assert forall|p: int|
                0 <= p < ADDRESS_SPACE_END && p % 4096 == 0 implies #[trigger] self.translation(p)
                    == if p == 0 {
                    Some(region_entry(user_code_region((frame - KERNEL_BASE) as usize), 0))
                } else {
                    old(self).translation(p)
                } by {
                if p == 0 {
                    assert(in_region(region, 0));
                }
            }
        }
        Some((frame, page))
    }
}

/// Directory flags of a boot-time entry: present, writable, and mapping a
/// 4 MiB page itself.
pub const BOOT_ENTRY_FLAGS: u32 = 0x83;

/// The directory entries of the boot-time address space: the low 1 GiB
/// mapped one to one in 4 MiB pages, and the first 4 MiB of physical memory
/// also at the kernel's base.
pub open spec fn boot_entry(i: int) -> u32 {
    if 0 <= i < 256 {
        (i * 0x400000 + BOOT_ENTRY_FLAGS) as u32
    } else if i == 512 {
        BOOT_ENTRY_FLAGS
    } else {
        0
    }
}

/// The directory that paging starts with, before the kernel's own address
/// space is built: 4 MiB pages, with no page tables.
pub fn default_page_directory() -> (r: Vec<u32>)
    ensures
        r@.len() == 1024,
        forall|i: int| 0 <= i < 1024 ==> #[trigger] r@[i] == boot_entry(i),
{
    let mut directory: Vec<u32> = Vec::new();
    let mut i: u32 = 0;
    while i < 1024
        invariant
            i <= 1024,
            directory@.len() == i,
            forall|j: int| 0 <= j < i ==> directory@[j] == 0,
        decreases 1024 - i,
    {
        directory.push(0);
        i = i + 1;
    }
    let mut i: u32 = 0;
    while i < 256
        invariant
            i <= 256,
            directory@.len() == 1024,
            forall|j: int|
                0 <= j < 1024 ==> #[trigger] directory@[j] == if j < i {
                    boot_entry(j)
                } else {
                    0
                },
        decreases 256 - i,
    {
        let base: u32 = i * 0x400000;
        let entry = (base & 0xFFC0_0000) | BOOT_ENTRY_FLAGS;
        assert((base & 0xFFC0_0000u32) | 0x83u32 == base + 0x83u32) by (bit_vector)
            requires
                base == i * 0x400000u32,
                i < 256,
        ;
        directory.set(i as usize, entry);
        i = i + 1;
    }
    let kernel_slot = page_directory_index(KERNEL_BASE);
    assert(directory_index(KERNEL_BASE as int) == 512);
    directory.set(kernel_slot, BOOT_ENTRY_FLAGS);
    directory
}

} // verus!
