//! Building user address spaces: runs of fresh pages, optionally filled from an image.
use super::frame::{alloc_frame, FrameAllocator};
use super::pagetable::{
    in_frame, l0_set, l1_set, last_hit, lemma_frames_needed_sets, lemma_frames_taken,
    lemma_next_frame_outside, lemma_sets_after_map, lemma_wf_frames, level0_result, map_one,
    outside_tables, range_l0s, range_l1s, table_wf, tables_needed, translation,
};
use super::phys::{byte_at, word_base, write_byte, MemoryView, PhysMemory};
use super::pte::encode;
use super::PAGE_SIZE;
use vstd::prelude::*;

verus! {

/// The frames that mapping `n` fresh pages from `va0` on takes: for each page its data
/// frame and the tables it needs, given the valid entries `l1s` and `l0s` to start with.
pub open spec fn run_frames(l1s: Set<usize>, l0s: Set<(usize, usize)>, va0: int, n: nat) -> nat
    decreases n,
{
    if n == 0 {
        0
    } else {
        let k = (n - 1) as nat;
        run_frames(l1s, l0s, va0, k) + 1 + tables_needed(
            range_l1s(l1s, va0, k),
            range_l0s(l0s, va0, k),
            (va0 + 4096 * k) as usize,
        )
    }
}

/// The data frame of page `j` of a run that starts with the allocator at `next0`.
pub open spec fn page_frame(
    next0: int,
    l1s: Set<usize>,
    l0s: Set<(usize, usize)>,
    va0: int,
    j: nat,
) -> int {
    next0 + 4096 * run_frames(l1s, l0s, va0, j)
}

/// Byte `i` of `img`, or zero past its end.
pub open spec fn image_byte(img: Seq<u8>, i: int) -> u8 {
    if 0 <= i < img.len() {
        img[i]
    } else {
        0
    }
}

pub proof fn lemma_run_frames_mono(l1s: Set<usize>, l0s: Set<(usize, usize)>, va0: int, i: nat, n: nat)
    requires
        i <= n,
    ensures
        run_frames(l1s, l0s, va0, i) + (n - i) <= run_frames(l1s, l0s, va0, n),
    decreases n,
{
    if i < n {
        lemma_run_frames_mono(l1s, l0s, va0, i, (n - 1) as nat);
    }
}

/// A zero word holds zero bytes.
proof fn lemma_zero_byte<M: MemoryView>(m: M, pa: usize)
    requires
        m.word(word_base(pa)) == 0,
    ensures
        byte_at(m, pa) == 0,
{
    let s = super::phys::byte_shift(pa);
    assert((0u64 >> s) & 0xff == 0) by (bit_vector);
}

/// The word holding a byte of an aligned frame lies in that frame.
pub proof fn lemma_word_in_frame(f: usize, o: usize)
    requires
        f % 4096 == 0,
        o < 4096,
        f + 4096 <= usize::MAX,
    ensures
        in_frame(word_base((f + o) as usize), f),
        in_frame((f + o) as usize, f),
{
    let q = (f + o) as usize;
    assert(f % 4096 == 0 && o < 4096 && q == f + o ==> f <= (q & !7usize) && (q & !7usize) < f
        + 4096) by (bit_vector);
}

/// Copies `img[begin..end]` to the frame at `pa`.
fn copy_into_frame<M: PhysMemory>(mem: &mut M, pa: usize, img: &[u8], begin: usize, end: usize)
    requires
        pa % 4096 == 0,
        pa + 4096 <= usize::MAX,
        begin <= end <= img@.len(),
        end - begin <= 4096,
    ensures
        forall|o: int|
            0 <= o < 4096 ==> #[trigger] byte_at(*final(mem), (pa + o) as usize) == if o < end
                - begin {
                img@[begin + o]
            } else {
                byte_at(*old(mem), (pa + o) as usize)
            },
        forall|a: usize| !in_frame(a, pa) ==> #[trigger] final(mem).word(a) == old(mem).word(a),
{
    let mut k: usize = 0;
    while k < end - begin
        invariant
            pa % 4096 == 0,
            pa + 4096 <= usize::MAX,
            begin <= end <= img@.len(),
            end - begin <= 4096,
            k <= end - begin,
            forall|o: int|
                0 <= o < 4096 ==> #[trigger] byte_at(*mem, (pa + o) as usize) == if o < k {
                    img@[begin + o]
                } else {
                    byte_at(*old(mem), (pa + o) as usize)
                },
            forall|a: usize| !in_frame(a, pa) ==> #[trigger] mem.word(a) == old(mem).word(a),
        decreases end - begin - k,
    {
        proof {
            lemma_word_in_frame(pa, k);
        }
        write_byte(mem, pa + k, img[begin + k]);
        k = k + 1;
    }
}

/// Maps the `n` pages from `va0` on, each to a fresh frame of its own taken from the
/// allocator, with `flags`. Page `j`'s frame holds the bytes of `img` from `4096 * j` on
/// (zero past the end of `img`).
pub fn map_user_pages<M: PhysMemory>(
    mem: &mut M,
    frames: &mut FrameAllocator,
    root_pa: usize,
    va0: usize,
    n: usize,
    flags: u64,
    img: &[u8],
)
    requires
        table_wf(*old(mem), root_pa, *old(frames)),
        va0 % 4096 == 0,
        va0 + 4096 * n <= usize::MAX,
        old(frames).next + 4096 * run_frames(
            l1_set(*old(mem), root_pa),
            l0_set(*old(mem), root_pa),
            va0 as int,
            n as nat,
        ) <= old(frames).end,
    ensures
        ({
            let s1 = l1_set(*old(mem), root_pa);
            let s0 = l0_set(*old(mem), root_pa);
            let next0 = old(frames).next as int;
            &&& table_wf(*final(mem), root_pa, *final(frames))
            &&& final(frames).start == old(frames).start
            &&& final(frames).end == old(frames).end
            &&& final(frames).next == next0 + 4096 * run_frames(s1, s0, va0 as int, n as nat)
            &&& l1_set(*final(mem), root_pa) == range_l1s(s1, va0 as int, n as nat)
            &&& l0_set(*final(mem), root_pa) == range_l0s(s0, va0 as int, n as nat)
            &&& forall|vb: usize| #[trigger]
                translation(*final(mem), root_pa, vb) == match last_hit(va0 as int, n as nat, vb) {
                    Some(j) => level0_result(
                        encode(page_frame(next0, s1, s0, va0 as int, j) as usize, flags),
                        vb,
                    ),
                    None => translation(*old(mem), root_pa, vb),
                }
            &&& forall|j: int, o: int|
                0 <= j < n && 0 <= o < 4096 ==> #[trigger] byte_at(
                    *final(mem),
                    (page_frame(next0, s1, s0, va0 as int, j as nat) + o) as usize,
                ) == image_byte(img@, 4096 * j + o)
            &&& forall|j: int, a: usize|
                0 <= j < n && #[trigger] in_frame(
                    a,
                    page_frame(next0, s1, s0, va0 as int, j as nat) as usize,
                ) ==> outside_tables(*final(mem), root_pa, a)
            &&& forall|j: int|
                0 <= j < n ==> #[trigger] page_frame(next0, s1, s0, va0 as int, j as nat) % 4096
                    == 0 && page_frame(next0, s1, s0, va0 as int, j as nat) + 4096 <= final(frames).next
            &&& forall|a: usize|
                outside_tables(*old(mem), root_pa, a) && !(next0 <= a < final(frames).next)
                    ==> #[trigger] final(mem).word(a) == old(mem).word(a)
            &&& forall|a: usize|
                #[trigger] outside_tables(*old(mem), root_pa, a) && !(next0 <= a < final(frames).next) ==> outside_tables(*final(mem), root_pa, a)
        }),
{
    let ghost m0 = *mem;
    let ghost fa0 = *frames;
    let ghost s1 = l1_set(m0, root_pa);
    let ghost s0 = l0_set(m0, root_pa);
    let ghost next0 = fa0.next as int;
    let mut i: usize = 0;
    while i < n
        invariant
            i <= n,
            next0 == fa0.next,
            s1 == l1_set(m0, root_pa),
            s0 == l0_set(m0, root_pa),
            va0 % 4096 == 0,
            va0 + 4096 * n <= usize::MAX,
            next0 + 4096 * run_frames(s1, s0, va0 as int, n as nat) <= fa0.end,
            table_wf(*mem, root_pa, *frames),
            frames.start == fa0.start,
            frames.end == fa0.end,
            frames.next == next0 + 4096 * run_frames(s1, s0, va0 as int, i as nat),
            l1_set(*mem, root_pa) == range_l1s(s1, va0 as int, i as nat),
            l0_set(*mem, root_pa) == range_l0s(s0, va0 as int, i as nat),
            forall|vb: usize| #[trigger]
                translation(*mem, root_pa, vb) == match last_hit(va0 as int, i as nat, vb) {
                    Some(j) => level0_result(
                        encode(page_frame(next0, s1, s0, va0 as int, j) as usize, flags),
                        vb,
                    ),
                    None => translation(m0, root_pa, vb),
                },
            forall|j: int, o: int|
                0 <= j < i && 0 <= o < 4096 ==> #[trigger] byte_at(
                    *mem,
                    (page_frame(next0, s1, s0, va0 as int, j as nat) + o) as usize,
                ) == image_byte(img@, 4096 * j + o),
            forall|j: int, a: usize|
                0 <= j < i && #[trigger] in_frame(
                    a,
                    page_frame(next0, s1, s0, va0 as int, j as nat) as usize,
                ) ==> outside_tables(*mem, root_pa, a),
            forall|j: int|
                0 <= j < i ==> #[trigger] page_frame(next0, s1, s0, va0 as int, j as nat) % 4096
                    == 0 && page_frame(next0, s1, s0, va0 as int, j as nat) + 4096 <= frames.next,
            forall|a: usize|
                outside_tables(m0, root_pa, a) && !(next0 <= a < frames.next) ==> #[trigger] mem.word(a)
                    == m0.word(a),
            forall|a: usize|
                #[trigger] outside_tables(m0, root_pa, a) && !(next0 <= a < frames.next)
                    ==> outside_tables(*mem, root_pa, a),
        decreases n - i,
    {
        let ghost mb = *mem;
        let ghost fb = *frames;
        proof {
            lemma_wf_frames(mb, root_pa, fb);
            lemma_run_frames_mono(s1, s0, va0 as int, (i + 1) as nat, n as nat);
            lemma_frames_needed_sets(mb, root_pa, (va0 + i * 4096) as usize);
        }
        let pa = match alloc_frame(frames, mem) {
            Some(p) => p,
            None => {
                proof {
                    assert(false);
                }
                0
            },
        };
        let ghost ma = *mem;
        let begin = i * PAGE_SIZE;
        if begin < img.len() {
            let end = if begin + PAGE_SIZE < img.len() {
                begin + PAGE_SIZE
            } else {
                img.len()
            };
            copy_into_frame(mem, pa, img, begin, end);
        }
        let ghost mc = *mem;
        let ghost fc = *frames;
        assert(fb.next + 4096 <= fb.end);
        assert(fc.next == fb.next + 4096);
        proof {
            lemma_frames_taken(mb, mc, root_pa, fb, fc);
            assert forall|o: int| 0 <= o < 4096 implies #[trigger] byte_at(mc, (pa + o) as usize)
                == image_byte(img@, 4096 * i + o) by {
                lemma_word_in_frame(pa, o as usize);
                super::phys::lemma_word_base_aligned((pa + o) as usize);
                lemma_zero_byte(ma, (pa + o) as usize);
            }
            assert forall|a: usize| in_frame(a, pa) implies #[trigger] outside_tables(mc, root_pa, a) by {
                lemma_next_frame_outside(mb, root_pa, fb, a);
            }
        }
        let va = va0 + i * PAGE_SIZE;
        map_one(mem, frames, root_pa, va, pa, flags);
        proof {
            let md = *mem;
            lemma_sets_after_map(mc, md, root_pa, va);
            assert forall|vb: usize| #[trigger]
                translation(md, root_pa, vb) == match last_hit(va0 as int, (i + 1) as nat, vb) {
                    Some(j) => level0_result(
                        encode(page_frame(next0, s1, s0, va0 as int, j) as usize, flags),
                        vb,
                    ),
                    None => translation(m0, root_pa, vb),
                } by {
                assert(translation(mc, root_pa, vb) == translation(mb, root_pa, vb));
            }
            assert forall|j: int, o: int|
                0 <= j <= i && 0 <= o < 4096 implies #[trigger] byte_at(
                    md,
                    (page_frame(next0, s1, s0, va0 as int, j as nat) + o) as usize,
                ) == image_byte(img@, 4096 * j + o) by {
                let fi = page_frame(next0, s1, s0, va0 as int, j as nat);
                if j < i {
                    assert(fi % 4096 == 0 && fi + 4096 <= fb.next);
                } else {
                    assert(fi == fb.next);
                    assert(fi == pa);
                }
                assert(0 <= fi && fi + 4096 <= fc.next);
                let f = fi as usize;
                assert(f == fi);
                lemma_word_in_frame(f, o as usize);
                let q = (fi + o) as usize;
                assert(q == (f + o) as usize);
                let w = word_base(q);
                assert(outside_tables(mc, root_pa, w));
                assert(md.word(w) == mc.word(w));
                assert(byte_at(md, q) == byte_at(mc, q));
                if j < i {
                    assert(mc.word(w) == mb.word(w));
                    assert(byte_at(mc, q) == byte_at(mb, q));
                } else {
                    assert(q == (pa + o) as usize);
                    assert(byte_at(mc, (pa + o) as usize) == image_byte(img@, 4096 * i + o));
                }
            }
            assert forall|j: int, a: usize|
                0 <= j <= i && #[trigger] in_frame(
                    a,
                    page_frame(next0, s1, s0, va0 as int, j as nat) as usize,
                ) implies outside_tables(md, root_pa, a) by {
                let fi = page_frame(next0, s1, s0, va0 as int, j as nat);
                if j < i {
                    assert(fi % 4096 == 0 && fi + 4096 <= fb.next);
                    assert(outside_tables(mb, root_pa, a));
                } else {
                    assert(fi == pa);
                }
                assert(outside_tables(mc, root_pa, a));
                assert(a < fc.next);
            }
            assert forall|a: usize|
                outside_tables(m0, root_pa, a) && !(next0 <= a < frames.next) implies #[trigger] md.word(a)
                    == m0.word(a) by {
                assert(outside_tables(mb, root_pa, a));
                assert(outside_tables(mc, root_pa, a));
            }
            assert forall|a: usize|
                #[trigger] outside_tables(m0, root_pa, a) && !(next0 <= a < frames.next) implies outside_tables(
                md,
                root_pa,
                a,
            ) by {
                assert(outside_tables(mb, root_pa, a));
                assert(outside_tables(mc, root_pa, a));
            }
        }
        i = i + 1;
    }
}

} // verus!
