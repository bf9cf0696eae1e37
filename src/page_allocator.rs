//! Physical frame allocator: a stack of free frames, named by the virtual
//! (higher-half) address of each frame.
use vstd::prelude::*;
use crate::mmu::{page_round_up, round_up, PAGE_SIZE};

verus! {

/// Every address is the start of a frame, and no frame is listed twice.
pub open spec fn frames_valid(s: Seq<usize>) -> bool {
    &&& forall|i: int| 0 <= i < s.len() ==> (#[trigger] s[i]) % PAGE_SIZE == 0
    &&& s.no_duplicates()
}

/// The frames `first`, `first + PAGE_SIZE`, ... that lie whole below `end`,
/// in increasing order.
pub open spec fn frames_between(first: int, end: int) -> Seq<usize> {
    let n: int = if first <= end { (end - first) / PAGE_SIZE as int } else { 0 };
    Seq::new(n as nat, |i: int| (first + i * PAGE_SIZE) as usize)
}

/// Stores the free frames. Taking a frame out allocates it; putting it back
/// frees it. The most recently freed frame is handed out first.
pub struct AllocationList {
    /// The free frames; the last one is the head of the list.
    free: Vec<usize>,
}

impl View for AllocationList {
    type V = Seq<usize>;

    /// The free frames, oldest first: the last one is handed out next.
    closed spec fn view(&self) -> Seq<usize> {
        self.free@
    }
}

impl AllocationList {
    pub open spec fn wf(&self) -> bool {
        frames_valid(self@)
    }

    /// An empty list: until frames are freed into it, nothing can be allocated.
    pub fn new() -> (r: AllocationList)
        ensures
            r@ == Seq::<usize>::empty(),
            r.wf(),
    {
        AllocationList { free: Vec::new() }
    }

    /// The number of free frames.
    pub fn free_count(&self) -> (r: usize)
        ensures
            r == self@.len(),
    {
        self.free.len()
    }

    /// Frees every whole frame in `[page_round_up(start), end)`, in increasing
    /// address order, so that they come back out in decreasing order.
    pub fn dealloc_range(&mut self, start: usize, end: usize)
        requires
            old(self).wf(),
            start <= end,
            start + PAGE_SIZE - 1 <= usize::MAX,
            forall|a: usize|
                frames_between(round_up(start as int), end as int).contains(a) ==> !old(
                    self,
                )@.contains(a),
        ensures
            final(self).wf(),
            final(self)@ == old(self)@ + frames_between(round_up(start as int), end as int),
    {
        let start_page = page_round_up(start);
        let ghost first = start_page as int;
        let ghost added = frames_between(first, end as int);
        let mut page: usize = start_page;
        let ghost n: int = 0;
        while page <= end && end - page >= PAGE_SIZE
            invariant
                self.wf(),
                page as int == first + n * PAGE_SIZE,
                0 <= n,
                0 <= first,
                first % PAGE_SIZE as int == 0,
                n <= added.len(),
                self@ == old(self)@ + added.subrange(0, n),
                forall|a: usize| added.contains(a) ==> !old(self)@.contains(a),
                added == frames_between(first, end as int),
            decreases end - page,
        {
            proof {
                assert(n < added.len()) by (nonlinear_arith)
                    requires
                        page as int == first + n * 4096,
                        page + 4096 <= end,
                        added.len() == (end - first) / 4096,
                        first <= end,
                        0 <= n,
                ;
                assert(added[n] == page);
                assert(added.contains(page));
                assert forall|k: int| 0 <= k < n implies added[k] != page by {
                    assert(first + k * 4096 < first + n * 4096 && 0 <= first + k * 4096) by (nonlinear_arith)
                        requires
                            0 <= k < n,
                            0 <= first,
                    ;
                    assert(added[k] == (first + k * 4096) as usize);
                }
                assert((first + n * 4096) % 4096 == 0) by (nonlinear_arith)
                    requires
                        first % 4096 == 0,
                ;
            }
            self.dealloc_page(page);
            page = page + PAGE_SIZE;
            proof {
                assert(added.subrange(0, n + 1) == added.subrange(0, n).push(added[n]));
                n = n + 1;
            }
        }
        proof {
            assert(n >= added.len()) by (nonlinear_arith)
                requires
                    page as int == first + n * 4096,
                    !(page <= end && end - page >= 4096),
                    added.len() == (if first <= end { (end - first) / 4096 } else { 0int }),
                    0 <= n,
            ;
            assert(added.subrange(0, n) == added);
        }
    }

    /// Allocates a frame: takes the head off the list, or gives `None` when
    /// the list is empty.
    pub fn alloc_page(&mut self) -> (r: Option<usize>)
        requires
            old(self).wf(),
        ensures
            final(self).wf(),
            old(self)@.len() == 0 ==> r.is_none() && final(self)@ == old(self)@,
            old(self)@.len() > 0 ==> r == Some(old(self)@.last()) && final(self)@ == old(
                self,
            )@.drop_last(),
            final(self)@ == after_op(old(self)@, FrameOp::Allocate),
    {
        let r = self.free.pop();
        proof {
            if old(self)@.len() > 0 {
                assert(self@ == old(self)@.subrange(0, old(self)@.len() - 1));
            }
        }
        r
    }

    /// Frees a frame: it becomes the new head of the list. The frame must not
    /// be free already.
    pub fn dealloc_page(&mut self, address: usize)
        requires
            old(self).wf(),
            address % PAGE_SIZE == 0,
            !old(self)@.contains(address),
        ensures
            final(self).wf(),
            final(self)@ == old(self)@.push(address),
            final(self)@ == after_op(old(self)@, FrameOp::Free(address)),
    {
        self.free.push(address);
        proof {
            assert forall|i: int, j: int|
                0 <= i < j < self@.len() implies self@[i] != self@[j] by {
                if j == self@.len() - 1 {
                    assert(old(self)@[i] == self@[i]);
                    assert(old(self)@.contains(old(self)@[i]));
                }
            }
        }
    }
}

impl AllocationList {
    /// Moves up to `n` frames off the top of the list into a new list, in
    /// the same order.
    pub fn take(&mut self, n: usize) -> (r: AllocationList)
        requires
            old(self).wf(),
        ensures
            final(self).wf(),
            r.wf(),
            final(self)@ + r@ == old(self)@,
            r@.len() == if n <= old(self)@.len() {
                n as int
            } else {
                old(self)@.len() as int
            },
    {
        let keep: usize = if n <= self.free.len() {
            self.free.len() - n
        } else {
            0
        };
        let taken = self.free.split_off(keep);
        proof {
            assert(self@ + taken@ =~= old(self)@);
            assert forall|i: int, j: int| 0 <= i < j < taken@.len() implies taken@[i] != taken@[j] by {
                assert(old(self)@[keep + i] == taken@[i]);
                assert(old(self)@[keep + j] == taken@[j]);
            }
            assert forall|i: int, j: int| 0 <= i < j < self@.len() implies self@[i] != self@[j] by {
                assert(old(self)@[i] == self@[i]);
                assert(old(self)@[j] == self@[j]);
            }
            assert forall|i: int| 0 <= i < taken@.len() implies (#[trigger] taken@[i]) % PAGE_SIZE == 0 by {
                assert(old(self)@[keep + i] == taken@[i]);
            }
            assert forall|i: int| 0 <= i < self@.len() implies (#[trigger] self@[i]) % PAGE_SIZE == 0 by {
                assert(old(self)@[i] == self@[i]);
            }
        }
        AllocationList { free: taken }
    }

    /// Puts every frame of `other` on top of the list, in its order. No
    /// frame may be in both lists.
    pub fn append(&mut self, other: AllocationList)
        requires
            old(self).wf(),
            other.wf(),
            forall|f: usize| other@.contains(f) ==> !old(self)@.contains(f),
        ensures
            final(self).wf(),
            final(self)@ == old(self)@ + other@,
    {
        let ghost b = other@;
        let mut other = other;
        self.free.append(&mut other.free);
        proof {
            let a = old(self)@;
            assert(self@ =~= a + b);
            assert forall|i: int, j: int| 0 <= i < j < self@.len() implies self@[i] != self@[j] by {
                if j >= a.len() && i < a.len() {
                    assert(self@[j] == b[j - a.len()]);
                    assert(b.contains(self@[j]));
                    assert(a.contains(self@[i]));
                } else if j >= a.len() {
                    assert(self@[j] == b[j - a.len()]);
                    assert(self@[i] == b[i - a.len()]);
                }
            }
        }
    }
}

impl AllocationList {
    /// The frame at position `i`, counted from the oldest.
    pub fn frame(&self, i: usize) -> (r: usize)
        requires
            i < self@.len(),
        ensures
            r == self@[i as int],
    {
        self.free[i]
    }

    /// Whether `address` is free.
    pub fn contains(&self, address: usize) -> (r: bool)
        ensures
            r == self@.contains(address),
    {
        let mut i: usize = 0;
        while i < self.free.len()
            invariant
                i <= self@.len(),
                forall|j: int| 0 <= j < i ==> self@[j] != address,
            decreases self@.len() - i,
        {
            if self.free[i] == address {
                return true;
            }
            i = i + 1;
        }
        false
    }
}

/// A list that holds every whole frame of `[page_round_up(start), end)`.
pub fn init(start: usize, end: usize) -> (r: AllocationList)
    requires
        start <= end,
        start + PAGE_SIZE - 1 <= usize::MAX,
    ensures
        r.wf(),
        r@ == frames_between(round_up(start as int), end as int),
{
    let mut list = AllocationList::new();
    list.dealloc_range(start, end);
    proof {
        assert(Seq::<usize>::empty() + frames_between(round_up(start as int), end as int)
            == frames_between(round_up(start as int), end as int));
    }
    list
}

/// One call on the allocator.
pub enum FrameOp {
    /// `alloc_page`.
    Allocate,
    /// `dealloc_page` of a frame.
    Free(usize),
}

/// The free list after one call, as `alloc_page` and `dealloc_page` leave it.
pub open spec fn after_op(free: Seq<usize>, op: FrameOp) -> Seq<usize> {
    match op {
        FrameOp::Allocate => if free.len() == 0 {
            free
        } else {
            free.drop_last()
        },
        FrameOp::Free(a) => free.push(a),
    }
}

/// The frames that the caller holds after one call: it gains the frame that
/// `alloc_page` hands out, and gives up the frame that it frees.
pub open spec fn held_after(free: Seq<usize>, held: Set<usize>, op: FrameOp) -> Set<usize> {
    match op {
        FrameOp::Allocate => if free.len() == 0 {
            held
        } else {
            held.insert(free.last())
        },
        FrameOp::Free(a) => held.remove(a),
    }
}

/// The free list after a run of calls.
pub open spec fn free_after_run(free: Seq<usize>, held: Set<usize>, ops: Seq<FrameOp>) -> Seq<
    usize,
>
    decreases ops.len(),
{
    if ops.len() == 0 {
        free
    } else {
        free_after_run(after_op(free, ops[0]), held_after(free, held, ops[0]), ops.drop_first())
    }
}

/// The frames that the caller holds after a run of calls.
pub open spec fn held_after_run(free: Seq<usize>, held: Set<usize>, ops: Seq<FrameOp>) -> Set<
    usize,
>
    decreases ops.len(),
{
    if ops.len() == 0 {
        held
    } else {
        held_after_run(after_op(free, ops[0]), held_after(free, held, ops[0]), ops.drop_first())
    }
}

/// A run of calls that frees only page-aligned frames that it holds: in
/// particular, no frame twice.
pub open spec fn frees_only_held(free: Seq<usize>, held: Set<usize>, ops: Seq<FrameOp>) -> bool
    decreases ops.len(),
{
    if ops.len() == 0 {
        true
    } else {
        &&& match ops[0] {
            FrameOp::Allocate => true,
            FrameOp::Free(a) => held.contains(a) && a % PAGE_SIZE == 0,
        }
        &&& frees_only_held(after_op(free, ops[0]), held_after(free, held, ops[0]), ops.drop_first())
    }
}

/// Every frame that the run hands out is one that the caller did not hold
/// at that moment.
pub open spec fn hands_out_only_unheld(free: Seq<usize>, held: Set<usize>, ops: Seq<FrameOp>) -> bool
    decreases ops.len(),
{
    if ops.len() == 0 {
        true
    } else {
        &&& (ops[0] is Allocate && free.len() > 0 ==> !held.contains(free.last()))
        &&& hands_out_only_unheld(
            after_op(free, ops[0]),
            held_after(free, held, ops[0]),
            ops.drop_first(),
        )
    }
}

proof fn lemma_step(free: Seq<usize>, held: Set<usize>, op: FrameOp)
    requires
        frames_valid(free),
        free.to_set().disjoint(held),
        match op {
            FrameOp::Allocate => true,
            FrameOp::Free(a) => held.contains(a) && a % PAGE_SIZE == 0,
        },
    ensures
        frames_valid(after_op(free, op)),
        after_op(free, op).to_set().disjoint(held_after(free, held, op)),
        after_op(free, op).to_set().union(held_after(free, held, op)) == free.to_set().union(held),
        op is Allocate && free.len() > 0 ==> !held.contains(free.last()),
{
    let next = after_op(free, op);
    match op {
        FrameOp::Allocate => {
            if free.len() > 0 {
                let f = free.last();
                assert(free.to_set().contains(f));
                assert forall|x: usize| next.to_set().contains(x) <==> (free.to_set().contains(x) && x != f) by {
                    if next.contains(x) {
                        let i = choose|i: int| 0 <= i < next.len() && next[i] == x;
                        assert(free[i] == x);
                    }
                    if free.contains(x) && x != f {
                        let i = choose|i: int| 0 <= i < free.len() && free[i] == x;
                        assert(next[i] == x);
                    }
                }
                assert(next.to_set().union(held.insert(f)) =~= free.to_set().union(held));
                assert(next.to_set().disjoint(held.insert(f)));
            }
        },
        FrameOp::Free(a) => {
            assert(!free.contains(a)) by {
                if free.contains(a) {
                    assert(free.to_set().contains(a));
                }
            }
            assert forall|x: usize| next.to_set().contains(x) <==> (free.to_set().contains(x) || x == a) by {
                if next.contains(x) {
                    let i = choose|i: int| 0 <= i < next.len() && next[i] == x;
                    if i < free.len() {
                        assert(free[i] == x);
                    }
                }
                if free.contains(x) {
                    let i = choose|i: int| 0 <= i < free.len() && free[i] == x;
                    assert(next[i] == x);
                }
                if x == a {
                    assert(next[free.len() as int] == a);
                }
            }
            assert forall|i: int, j: int| 0 <= i < j < next.len() implies next[i] != next[j] by {
                if j == free.len() {
                    assert(free.contains(next[i]));
                }
            }
            assert(next.to_set().union(held.remove(a)) =~= free.to_set().union(held));
            assert(next.to_set().disjoint(held.remove(a)));
        },
    }
}

/// Conservation: over any run of `alloc_page` and `dealloc_page` calls that
/// frees only frames it holds, each frame is free or held, never both; no
/// frame appears or vanishes; and no frame is handed out while it is held, so
/// two allocations never return the same frame without a free between them.
pub proof fn lemma_conservation(free: Seq<usize>, held: Set<usize>, ops: Seq<FrameOp>)
    requires
        frames_valid(free),
        free.to_set().disjoint(held),
        frees_only_held(free, held, ops),
    ensures
        frames_valid(free_after_run(free, held, ops)),
        free_after_run(free, held, ops).to_set().disjoint(held_after_run(free, held, ops)),
        free_after_run(free, held, ops).to_set().union(held_after_run(free, held, ops))
            == free.to_set().union(held),
        hands_out_only_unheld(free, held, ops),
    decreases ops.len(),
{
    if ops.len() > 0 {
        lemma_step(free, held, ops[0]);
        lemma_conservation(after_op(free, ops[0]), held_after(free, held, ops[0]), ops.drop_first());
    }
}

/// A run of calls with no double free: each frame freed is page aligned and
/// not free at that moment. It may be a frame that the list never held.
pub open spec fn frees_no_free_frame(free: Seq<usize>, held: Set<usize>, ops: Seq<FrameOp>) -> bool
    decreases ops.len(),
{
    if ops.len() == 0 {
        true
    } else {
        &&& match ops[0] {
            FrameOp::Allocate => true,
            FrameOp::Free(a) => a % PAGE_SIZE == 0 && !free.contains(a),
        }
        &&& frees_no_free_frame(
            after_op(free, ops[0]),
            held_after(free, held, ops[0]),
            ops.drop_first(),
        )
    }
}

/// Every frame that the run hands out is in `source` or was freed earlier in
/// the run.
pub open spec fn hands_out_only_freed(free: Seq<usize>, source: Set<usize>, ops: Seq<FrameOp>) -> bool
    decreases ops.len(),
{
    if ops.len() == 0 {
        true
    } else {
        &&& (ops[0] is Allocate && free.len() > 0 ==> source.contains(free.last()))
        &&& hands_out_only_freed(
            after_op(free, ops[0]),
            match ops[0] {
                FrameOp::Allocate => source,
                FrameOp::Free(a) => source.insert(a),
            },
            ops.drop_first(),
        )
    }
}

proof fn lemma_free_step(free: Seq<usize>, held: Set<usize>, a: usize)
    requires
        frames_valid(free),
        free.to_set().disjoint(held),
        a % PAGE_SIZE == 0,
        !free.contains(a),
    ensures
        frames_valid(free.push(a)),
        free.push(a).to_set().disjoint(held.remove(a)),
        free.push(a).to_set() == free.to_set().insert(a),
{
    let next = free.push(a);
    assert forall|x: usize| next.to_set().contains(x) <==> (free.to_set().contains(x) || x == a) by {
        if next.contains(x) {
            let i = choose|i: int| 0 <= i < next.len() && next[i] == x;
            if i < free.len() {
                assert(free[i] == x);
            }
        }
        if free.contains(x) {
            let i = choose|i: int| 0 <= i < free.len() && free[i] == x;
            assert(next[i] == x);
        }
        if x == a {
            assert(next[free.len() as int] == a);
        }
    }
    assert(next.to_set() =~= free.to_set().insert(a));
    assert forall|i: int, j: int| 0 <= i < j < next.len() implies next[i] != next[j] by {
        if j == free.len() {
            assert(free.contains(next[i]));
        }
    }
}

proof fn lemma_allocate_step(free: Seq<usize>, held: Set<usize>)
    requires
        frames_valid(free),
        free.to_set().disjoint(held),
        free.len() > 0,
    ensures
        frames_valid(free.drop_last()),
        free.drop_last().to_set().disjoint(held.insert(free.last())),
        free.drop_last().to_set().subset_of(free.to_set()),
        free.to_set().contains(free.last()),
        !held.contains(free.last()),
{
    lemma_step(free, held, FrameOp::Allocate);
    let next = free.drop_last();
    assert forall|x: usize| next.to_set().contains(x) implies free.to_set().contains(x) by {
        let i = choose|i: int| 0 <= i < next.len() && next[i] == x;
        assert(free[i] == x);
    }
    assert(free.to_set().contains(free.last()));
}

proof fn lemma_free_list_from(
    free: Seq<usize>,
    held: Set<usize>,
    source: Set<usize>,
    ops: Seq<FrameOp>,
)
    requires
        frames_valid(free),
        free.to_set().disjoint(held),
        free.to_set().subset_of(source),
        frees_no_free_frame(free, held, ops),
    ensures
        hands_out_only_unheld(free, held, ops),
        hands_out_only_freed(free, source, ops),
    decreases ops.len(),
{
    if ops.len() > 0 {
        match ops[0] {
            FrameOp::Allocate => {
                if free.len() > 0 {
                    lemma_allocate_step(free, held);
                    lemma_free_list_from(free.drop_last(), held.insert(free.last()), source, ops.drop_first());
                } else {
                    lemma_free_list_from(free, held, source, ops.drop_first());
                }
            },
            FrameOp::Free(a) => {
                lemma_free_step(free, held, a);
                lemma_free_list_from(free.push(a), held.remove(a), source.insert(a), ops.drop_first());
            },
        }
    }
}

/// From a new, empty list, over any run of `alloc_page` and `dealloc_page`
/// calls with no double free: every frame that `alloc_page` returns was the
/// argument of an earlier `dealloc_page`, and it is not returned again until
/// it has been freed again.
pub proof fn lemma_no_double_hand_out(ops: Seq<FrameOp>)
    requires
        frees_no_free_frame(Seq::<usize>::empty(), Set::<usize>::empty(), ops),
    ensures
        hands_out_only_freed(Seq::<usize>::empty(), Set::<usize>::empty(), ops),
        hands_out_only_unheld(Seq::<usize>::empty(), Set::<usize>::empty(), ops),
{
    let e = Seq::<usize>::empty();
    assert(e.to_set() =~= Set::<usize>::empty());
    lemma_free_list_from(e, Set::<usize>::empty(), Set::<usize>::empty(), ops);
}

} // verus!
