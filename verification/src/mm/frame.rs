//! A bump allocator of 4 KiB physical frames.
use super::phys::{zero_page, PhysMemory};
use super::{align_up, page_ceil, PAGE_SIZE};
use vstd::prelude::*;

verus! {

/// Hands out the frames of `[start, end)` in increasing order; `next` is the first frame
/// not yet handed out. Frames are never given back.
pub struct FrameAllocator {
    pub start: usize,
    pub end: usize,
    pub next: usize,
}

impl FrameAllocator {
    /// `next` stays page-aligned, at or after `start`.
    pub open spec fn wf(&self) -> bool {
        &&& self.start % 4096 == 0
        &&& self.next % 4096 == 0
        &&& self.start <= self.next
    }

    /// How many more frames can be handed out.
    pub open spec fn free_frames(&self) -> nat {
        if self.next + 4096 <= self.end {
            ((self.end - self.next) / 4096) as nat
        } else {
            0
        }
    }

    /// The address range `[a, a + 4096)` lies wholly outside the frames not yet handed out.
    pub open spec fn not_free(&self, a: usize) -> bool {
        a + 4096 <= self.next || self.end <= a
    }
}

/// One allocation: the allocator afterwards and the frame handed out, if one was left.
pub open spec fn alloc_step(fa: FrameAllocator) -> (FrameAllocator, Option<usize>) {
    if fa.next + 4096 <= fa.end {
        (FrameAllocator { next: (fa.next + 4096) as usize, ..fa }, Some(fa.next))
    } else {
        (fa, None)
    }
}

/// The allocator after `k` successive allocations.
pub open spec fn after_allocs(fa: FrameAllocator, k: nat) -> FrameAllocator
    decreases k,
{
    if k == 0 {
        fa
    } else {
        alloc_step(after_allocs(fa, (k - 1) as nat)).0
    }
}

/// What allocation number `k` (counting from 0) of a run of successive ones hands out.
pub open spec fn nth_alloc(fa: FrameAllocator, k: nat) -> Option<usize> {
    alloc_step(after_allocs(fa, k)).1
}

proof fn lemma_after_allocs(fa: FrameAllocator, k: nat)
    ensures
        fa.next + 4096 * k <= fa.end ==> after_allocs(fa, k).next == fa.next + 4096 * k,
        fa.next + 4096 * k > fa.end ==> after_allocs(fa, k).next + 4096 > fa.end,
        after_allocs(fa, k).end == fa.end,
        after_allocs(fa, k).start == fa.start,
    decreases k,
{
    if k > 0 {
        lemma_after_allocs(fa, (k - 1) as nat);
    }
}

/// Successive allocations hand out the frames from `next` on in turn, one page apart,
/// until the region is used up; from then on each one fails. So no frame is handed out
/// twice, and each lies in `[next, end)`.
pub proof fn lemma_alloc_sequence(fa: FrameAllocator, k: nat)
    ensures
        nth_alloc(fa, k) == if fa.next + 4096 * (k + 1) <= fa.end {
            Some((fa.next + 4096 * k) as usize)
        } else {
            None::<usize>
        },
{
    lemma_after_allocs(fa, k);
}

/// An allocator over the page-aligned part of `[free_start, free_end)`.
pub fn init(free_start: usize, free_end: usize) -> (fa: FrameAllocator)
    requires
        free_start + 4095 <= usize::MAX,
    ensures
        fa.wf(),
        fa.start == page_ceil(free_start as int),
        fa.next == fa.start,
        fa.end == free_end,
{
    let start = align_up(free_start, PAGE_SIZE);
    assert(start % 4096 == 0) by {
        assert(page_ceil(free_start as int) % 4096 == 0);
    }
    FrameAllocator { start, end: free_end, next: start }
}

/// Takes the next frame off the allocator, if one is left.
fn alloc_inner(fa: &mut FrameAllocator) -> (r: Option<usize>)
    requires
        old(fa).wf(),
        old(fa).next + 4096 <= usize::MAX,
    ensures
        final(fa).wf(),
        final(fa).start == old(fa).start,
        final(fa).end == old(fa).end,
        old(fa).next + 4096 <= old(fa).end ==> r == Some(old(fa).next) && final(fa).next == old(fa).next + 4096,
        old(fa).next + 4096 > old(fa).end ==> r is None && final(fa).next == old(fa).next,
{
    let cur = fa.next;
    let end = fa.end;
    if cur + PAGE_SIZE <= end {
        fa.next = cur + PAGE_SIZE;
        Some(cur)
    } else {
        None
    }
}

/// Allocates one zero-filled 4 KiB frame and returns its physical address, or `None` when
/// the region is used up. No word outside the frame changes.
pub fn alloc_frame<M: PhysMemory>(fa: &mut FrameAllocator, mem: &mut M) -> (r: Option<usize>)
    requires
        old(fa).wf(),
        old(fa).next + 4096 <= usize::MAX,
    ensures
        final(fa).wf(),
        (*final(fa), r) == alloc_step(*old(fa)),
        final(fa).start == old(fa).start,
        final(fa).end == old(fa).end,
        old(fa).next + 4096 <= old(fa).end ==> {
            &&& r == Some(old(fa).next)
            &&& final(fa).next == old(fa).next + 4096
            &&& final(fa).free_frames() + 1 == old(fa).free_frames()
            &&& forall|a: usize|
                old(fa).next <= a < old(fa).next + 4096 && a % 8 == 0 ==> #[trigger] final(mem).word(a) == 0
            &&& forall|a: usize|
                !(old(fa).next <= a < old(fa).next + 4096) ==> #[trigger] final(mem).word(a)
                    == old(mem).word(a)
        },
        old(fa).next + 4096 > old(fa).end ==> {
            &&& r is None
            &&& final(fa).next == old(fa).next
            &&& old(fa).free_frames() == 0
            &&& *final(mem) == *old(mem)
        },
{
    match alloc_inner(fa) {
        Some(pa) => {
            zero_page(mem, pa);
            assert(fa.free_frames() + 1 == old(fa).free_frames()) by {
                assert((fa.end - fa.next) / 4096 + 1 == (old(fa).end - old(fa).next) / 4096);
            }
            Some(pa)
        },
        None => None,
    }
}

} // verus!
