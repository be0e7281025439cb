//! Sv39 three-level page tables kept in physical memory.
use super::frame::{alloc_frame, FrameAllocator};
use super::{align_down, align_up, page_ceil, PAGE_SIZE};
use super::phys::{MemoryView, PhysMemory};
use super::pte::{
    encode, flags_of, is_leaf, lemma_encode_decode, make_pte, pte_is_valid, pte_ppn, target_of,
    valid, PTE_R, PTE_V, PTE_W, PTE_X,
};
use vstd::prelude::*;

verus! {

pub const PTES_PER_PAGE: usize = 512;

/// The index that `va` selects in the table of the given level (2 is the root).
pub open spec fn vpn_at(va: usize, level: nat) -> usize {
    if level == 0 {
        (va >> 12usize) & 0x1ffusize
    } else if level == 1 {
        (va >> 21usize) & 0x1ffusize
    } else {
        (va >> 30usize) & 0x1ffusize
    }
}

/// The address of entry `idx` of the table at `table` (the address arithmetic wraps).
pub open spec fn entry_addr(table: usize, idx: usize) -> usize {
    if table + 8 * idx > usize::MAX {
        (table + 8 * idx - (usize::MAX + 1)) as usize
    } else {
        (table + 8 * idx) as usize
    }
}

/// Entry `idx` of the table at `table`.
pub open spec fn entry<M: MemoryView>(m: M, table: usize, idx: usize) -> u64 {
    m.word(entry_addr(table, idx))
}

/// The offset of `va` in the page that a leaf of the given level maps: 4 KiB at level 0,
/// 2 MiB at level 1, 1 GiB at level 2.
pub open spec fn page_offset(va: usize, level: nat) -> usize {
    if level == 0 {
        va & 0xfffusize
    } else if level == 1 {
        va & 0x1f_ffffusize
    } else {
        va & 0x3fff_ffffusize
    }
}

/// `a + b` wrapped around the width of `usize`.
pub open spec fn wrapping_sum(a: usize, b: usize) -> usize {
    if a + b > usize::MAX {
        (a + b - (usize::MAX + 1)) as usize
    } else {
        (a + b) as usize
    }
}

/// What a leaf entry of the given level found for `va` gives: the physical address (the
/// page's address plus the offset of `va` in a page of that level's size) and the
/// entry's flags.
pub open spec fn leaf_result(e: u64, va: usize, level: nat) -> (usize, u64) {
    (wrapping_sum(target_of(e), page_offset(va, level)), flags_of(e))
}

/// The Sv39 walk for `va` starting at the table `table` of level `level`: an invalid
/// entry ends it with `None`, a leaf (R, W or X set) with the page's address plus the
/// offset of `va` in the page that the leaf maps (4 KiB, 2 MiB or 1 GiB), and any other
/// valid entry leads to the table one level down; at level 0 such an entry ends it with
/// `None`.
pub open spec fn walk<M: MemoryView>(m: M, table: usize, va: usize, level: nat) -> Option<
    (usize, u64),
>
    decreases level,
{
    let e = entry(m, table, vpn_at(va, level));
    if !valid(e) {
        None
    } else if is_leaf(e) {
        Some(leaf_result(e, va, level))
    } else if level == 0 {
        None
    } else {
        walk(m, target_of(e), va, (level - 1) as nat)
    }
}

/// The translation of `va` under the page table rooted at `root`.
pub open spec fn translation<M: MemoryView>(m: M, root: usize, va: usize) -> Option<(usize, u64)> {
    walk(m, root, va, 2)
}

/// The three table indexes of `va`, level 0 first.
fn vpn_indexes(va: usize) -> (r: [usize; 3])
    ensures
        r@ == seq![vpn_at(va, 0), vpn_at(va, 1), vpn_at(va, 2)],
        r[0] < 512 && r[1] < 512 && r[2] < 512,
{
    proof {
        lemma_vpn_bound(va);
    }
    [(va >> 12) & 0x1ff, (va >> 21) & 0x1ff, (va >> 30) & 0x1ff]
}

/// A zero entry is not valid.
proof fn lemma_zero_invalid()
    ensures
        !valid(0u64),
{
    assert(!valid(0u64)) by (bit_vector);
}

/// Every table index is below 512.
pub proof fn lemma_vpn_bound(va: usize)
    ensures
        vpn_at(va, 0) < 512,
        vpn_at(va, 1) < 512,
        vpn_at(va, 2) < 512,
{
    assert((va >> 12usize) & 0x1ffusize < 512 && (va >> 21usize) & 0x1ffusize < 512 && (va
        >> 30usize) & 0x1ffusize < 512) by (bit_vector);
}

/// The address of entry `idx` of the table at `table_pa`.
fn pte_ptr(table_pa: usize, idx: usize) -> (r: usize)
    requires
        idx < 512,
    ensures
        r == entry_addr(table_pa, idx),
{
    table_pa.wrapping_add(idx * 8)
}

/// An entry address of an 8-aligned table is 8-aligned.
proof fn lemma_entry_addr_aligned(table: usize, idx: usize)
    requires
        table % 8 == 0,
        idx < 512,
    ensures
        entry_addr(table, idx) % 8 == 0,
{
    let s = table + 8 * idx;
    if s > usize::MAX {
        assert(usize::MAX + 1 == 0x1_0000_0000 || usize::MAX + 1 == 0x1_0000_0000_0000_0000);
    }
}

/// Facts about the address an entry points to.
pub proof fn lemma_target(e: u64)
    ensures
        target_of(e) % 4096 == 0,
        target_of(e) + 4095 <= usize::MAX,
{
    let p = ((e >> 10u64) & 0xfff_ffff_ffff) as usize;
    let t = p << 12usize;
    assert(t == target_of(e));
    assert((p << 12usize) % 4096 == 0 && (p << 12usize) | 4095usize == (p << 12usize) + 4095)
        by (bit_vector);
}

/// Translates `va` with the page table rooted at `root_pa`: the physical address and
/// the flags of the leaf entry, or `None` when the walk finds no leaf.
pub fn translate<M: PhysMemory>(mem: &M, root_pa: usize, va: usize) -> (r: Option<(usize, u64)>)
    requires
        root_pa % 8 == 0,
    ensures
        r == translation(*mem, root_pa, va),
{
    let vpn = vpn_indexes(va);
    let mut table_pa = root_pa;
    let mut level: usize = 2;
    loop
        invariant
            level <= 2,
            table_pa % 8 == 0,
            vpn@ == seq![vpn_at(va, 0), vpn_at(va, 1), vpn_at(va, 2)],
            vpn[0] < 512 && vpn[1] < 512 && vpn[2] < 512,
            walk(*mem, table_pa, va, level as nat) == translation(*mem, root_pa, va),
        decreases level,
    {
        let idx = vpn[level];
        proof {
            lemma_entry_addr_aligned(table_pa, idx);
        }
        let pte_val = mem.read_word(pte_ptr(table_pa, idx));
        if !pte_is_valid(pte_val) {
            return None;
        }
        let flags = pte_val & 0x3ff;
        let ppn = pte_ppn(pte_val);
        proof {
            lemma_target(pte_val);
            assert(flags & (PTE_R | PTE_W | PTE_X) == pte_val & 0xe) by (bit_vector)
                requires
                    flags == pte_val & 0x3ff,
            ;
        }
        if (flags & (PTE_R | PTE_W | PTE_X)) != 0 {
            let page_pa = ppn << 12;
            let page_off = if level == 0 {
                va & 0xfff
            } else if level == 1 {
                va & 0x1f_ffff
            } else {
                va & 0x3fff_ffff
            };
            return Some((page_pa.wrapping_add(page_off), flags));
        } else {
            if level == 0 {
                return None;
            }
            table_pa = ppn << 12;
            level = level - 1;
        }
    }
}


// ---------------------------------------------------------------------------
// The shape of a page table built by `map_one`.
// ---------------------------------------------------------------------------

/// The address of the level-1 table that root entry `i2` points to.
pub open spec fn l1_table<M: MemoryView>(m: M, root: usize, i2: usize) -> usize {
    target_of(entry(m, root, i2))
}

/// Root entry `i2` is valid.
pub open spec fn has_l1<M: MemoryView>(m: M, root: usize, i2: usize) -> bool {
    i2 < 512 && valid(entry(m, root, i2))
}

/// The address of the level-0 table under root entry `i2` and level-1 entry `i1`.
pub open spec fn l0_table<M: MemoryView>(m: M, root: usize, i2: usize, i1: usize) -> usize {
    target_of(entry(m, l1_table(m, root, i2), i1))
}

/// Root entry `i2` and entry `i1` of the level-1 table below it are valid.
pub open spec fn has_l0<M: MemoryView>(m: M, root: usize, i2: usize, i1: usize) -> bool {
    has_l1(m, root, i2) && i1 < 512 && valid(entry(m, l1_table(m, root, i2), i1))
}

/// `a` lies in the 4 KiB frame at `f`.
pub open spec fn in_frame(a: usize, f: usize) -> bool {
    f <= a && a < f + 4096
}

/// The tables of a page table rooted at `root`, as `map_one` keeps them: the root and
/// every table reached from it are page-aligned frames that the allocator will not hand
/// out again, the entries of the root and of the level-1 tables that are valid point to
/// tables (never to pages), and no two of these tables share a frame. The allocator's
/// frames lie below 2^56, where an entry can point to them.
pub closed spec fn table_wf<M: MemoryView>(m: M, root: usize, fa: FrameAllocator) -> bool {
    &&& root % 4096 == 0
    &&& fa.wf()
    &&& fa.end as int <= 0x100_0000_0000_0000
    &&& fa.end + 4096 <= usize::MAX
    &&& fa.next + 4096 <= usize::MAX
    &&& fa.not_free(root)
    &&& forall|i2: usize|
        #[trigger] has_l1(m, root, i2) ==> {
            &&& !is_leaf(entry(m, root, i2))
            &&& fa.not_free(l1_table(m, root, i2))
            &&& l1_table(m, root, i2) != root
        }
    &&& forall|i2: usize, i1: usize|
        #[trigger] has_l0(m, root, i2, i1) ==> {
            &&& !is_leaf(entry(m, l1_table(m, root, i2), i1))
            &&& fa.not_free(l0_table(m, root, i2, i1))
            &&& l0_table(m, root, i2, i1) != root
        }
    &&& forall|i2: usize, j2: usize|
        #[trigger] has_l1(m, root, i2) && #[trigger] has_l1(m, root, j2) && i2 != j2 ==> l1_table(
            m,
            root,
            i2,
        ) != l1_table(m, root, j2)
    &&& forall|i2: usize, i1: usize, j2: usize|
        #[trigger] has_l0(m, root, i2, i1) && #[trigger] has_l1(m, root, j2) ==> l0_table(
            m,
            root,
            i2,
            i1,
        ) != l1_table(m, root, j2)
    &&& forall|i2: usize, i1: usize, j2: usize, j1: usize|
        #[trigger] has_l0(m, root, i2, i1) && #[trigger] has_l0(m, root, j2, j1) && (i2 != j2 || i1
            != j1) ==> l0_table(m, root, i2, i1) != l0_table(m, root, j2, j1)
}

/// How many new tables `map_one` needs to map `va`.
pub open spec fn frames_needed<M: MemoryView>(m: M, root: usize, va: usize) -> nat {
    if !has_l1(m, root, vpn_at(va, 2)) {
        2
    } else if !has_l0(m, root, vpn_at(va, 2), vpn_at(va, 1)) {
        1
    } else {
        0
    }
}

/// `va` and `vb` select the same entries at all three levels.
pub open spec fn same_page(va: usize, vb: usize) -> bool {
    &&& vpn_at(va, 2) == vpn_at(vb, 2)
    &&& vpn_at(va, 1) == vpn_at(vb, 1)
    &&& vpn_at(va, 0) == vpn_at(vb, 0)
}

/// What a walk gives for `va` when it reaches the level-0 entry `e`.
pub open spec fn level0_result(e: u64, va: usize) -> Option<(usize, u64)> {
    if valid(e) && is_leaf(e) {
        Some(leaf_result(e, va, 0))
    } else {
        None
    }
}

/// The word at `a` lies in none of the tables of the page table rooted at `root`.
pub open spec fn outside_tables<M: MemoryView>(m: M, root: usize, a: usize) -> bool {
    &&& !in_frame(a, root)
    &&& forall|i2: usize| #[trigger] has_l1(m, root, i2) ==> !in_frame(a, l1_table(m, root, i2))
    &&& forall|i2: usize, i1: usize|
        #[trigger] has_l0(m, root, i2, i1) ==> !in_frame(a, l0_table(m, root, i2, i1))
}

/// The entries that a walk of `va` reads hold the same values in `ma` and `mb`.
pub open spec fn same_path<M1: MemoryView, M2: MemoryView>(ma: M1, mb: M2, root: usize, va: usize) -> bool {
    let e2 = entry(ma, root, vpn_at(va, 2));
    &&& entry(mb, root, vpn_at(va, 2)) == e2
    &&& (valid(e2) && !is_leaf(e2)) ==> {
        let e1 = entry(ma, target_of(e2), vpn_at(va, 1));
        &&& entry(mb, target_of(e2), vpn_at(va, 1)) == e1
        &&& (valid(e1) && !is_leaf(e1)) ==> entry(mb, target_of(e1), vpn_at(va, 0)) == entry(
            ma,
            target_of(e1),
            vpn_at(va, 0),
        )
    }
}

proof fn lemma_same_path_walk<M1: MemoryView, M2: MemoryView>(ma: M1, mb: M2, root: usize, va: usize)
    requires
        same_path(ma, mb, root, va),
    ensures
        translation(ma, root, va) == translation(mb, root, va),
{
    reveal_with_fuel(walk, 3);
}

/// An aligned frame's entry addresses do not wrap and lie inside the frame.
proof fn lemma_frame_entry(t: usize, i: usize)
    requires
        t % 4096 == 0,
        i < 512,
    ensures
        entry_addr(t, i) == t + 8 * i,
        in_frame(entry_addr(t, i), t),
        entry_addr(t, i) % 8 == 0,
        t + 4095 <= usize::MAX,
{
    assert(t % 4096 == 0 ==> t | 4095usize == t + 4095) by (bit_vector);
}

/// Entries of different aligned frames, or at different indexes, have different addresses.
proof fn lemma_entry_distinct(t1: usize, i: usize, t2: usize, j: usize)
    requires
        t1 % 4096 == 0,
        t2 % 4096 == 0,
        i < 512,
        j < 512,
        t1 != t2 || i != j,
    ensures
        entry_addr(t1, i) != entry_addr(t2, j),
{
    lemma_frame_entry(t1, i);
    lemma_frame_entry(t2, j);
    if t1 != t2 {
        lemma_frames_apart(t1, t2);
    }
}

/// Distinct aligned frames do not overlap.
proof fn lemma_frames_apart(t1: usize, t2: usize)
    requires
        t1 % 4096 == 0,
        t2 % 4096 == 0,
        t1 != t2,
    ensures
        t1 + 4096 <= t2 || t2 + 4096 <= t1,
{
    assert(t1 % 4096 == 0 && t2 % 4096 == 0 && t1 != t2 ==> t1 + 4096 <= t2 || t2 + 4096 <= t1)
        by (bit_vector);
}


/// One step of `map_one`'s descent: the table below entry `idx` of `table_pa`. When the
/// entry is not valid, a fresh zeroed frame is allocated and the entry is set to point
/// to it (with only V set).
fn descend<M: PhysMemory>(mem: &mut M, fa: &mut FrameAllocator, table_pa: usize, idx: usize) -> (next: usize)
    requires
        table_pa % 8 == 0,
        idx < 512,
        old(fa).wf(),
        old(fa).next + 4096 <= usize::MAX,
        !valid(entry(*old(mem), table_pa, idx)) ==> old(fa).next + 4096 <= old(fa).end,
    ensures
        final(fa).wf(),
        final(fa).start == old(fa).start,
        final(fa).end == old(fa).end,
        valid(entry(*old(mem), table_pa, idx)) ==> {
            &&& next == target_of(entry(*old(mem), table_pa, idx))
            &&& final(fa).next == old(fa).next
            &&& *final(mem) == *old(mem)
        },
        !valid(entry(*old(mem), table_pa, idx)) ==> {
            &&& next == old(fa).next
            &&& final(fa).next == old(fa).next + 4096
            &&& final(mem).word(entry_addr(table_pa, idx)) == encode(next, PTE_V)
            &&& forall|a: usize|
                a != entry_addr(table_pa, idx) && !in_frame(a, next) ==> #[trigger] final(mem).word(a) == old(mem).word(a)
            &&& forall|a: usize|
                a != entry_addr(table_pa, idx) && in_frame(a, next) && a % 8 == 0
                    ==> #[trigger] final(mem).word(a) == 0
        },
{
    proof {
        lemma_entry_addr_aligned(table_pa, idx);
    }
    let pte_addr = pte_ptr(table_pa, idx);
    let cur = mem.read_word(pte_addr);
    if !pte_is_valid(cur) {
        let new_table = match alloc_frame(fa, mem) {
            Some(f) => f,
            None => {
                proof {
                    assert(false);
                }
                0
            },
        };
        let new_pte = make_pte(new_table, PTE_V);
        mem.write_word(pte_addr, new_pte);
        new_table
    } else {
        proof {
            lemma_target(cur);
        }
        pte_ppn(cur) << 12
    }
}


/// What an entry that `descend` links looks like: valid, not a leaf, pointing to `f`.
proof fn lemma_dir_entry(f: usize)
    requires
        f % 4096 == 0,
        (f as int) < 0x100_0000_0000_0000,
    ensures
        valid(encode(f, PTE_V)),
        !is_leaf(encode(f, PTE_V)),
        target_of(encode(f, PTE_V)) == f,
{
    lemma_encode_decode(f, PTE_V);
    let e = encode(f, PTE_V);
    assert(e & 0x3ff == 1 ==> e & 1 != 0 && e & 0xe == 0) by (bit_vector);
}

/// The relation between memories before and after `descend` links a fresh frame `f` at
/// entry `ea`.
pub open spec fn linked<M: MemoryView>(m0: M, m1: M, ea: usize, f: usize) -> bool {
    &&& m1.word(ea) == encode(f, PTE_V)
    &&& forall|a: usize| a != ea && !in_frame(a, f) ==> #[trigger] m1.word(a) == m0.word(a)
    &&& forall|a: usize| a != ea && in_frame(a, f) && a % 8 == 0 ==> #[trigger] m1.word(a) == 0
}

/// Linking a fresh zeroed table under root entry `v2` keeps the table well formed and
/// every translation as it was.
proof fn lemma_link_root<M: MemoryView>(
    m0: M,
    m1: M,
    root: usize,
    fa0: FrameAllocator,
    fa1: FrameAllocator,
    v2: usize,
    t1: usize,
)
    requires
        table_wf(m0, root, fa0),
        v2 < 512,
        fa1.wf(),
        fa1.start == fa0.start,
        fa1.end == fa0.end,
        valid(entry(m0, root, v2)) ==> t1 == target_of(entry(m0, root, v2)) && fa1.next
            == fa0.next && m1 == m0,
        !valid(entry(m0, root, v2)) ==> {
            &&& t1 == fa0.next
            &&& fa0.next + 4096 <= fa0.end
            &&& fa1.next == fa0.next + 4096
            &&& linked(m0, m1, entry_addr(root, v2), t1)
        },
    ensures
        table_wf(m1, root, fa1),
        has_l1(m1, root, v2),
        l1_table(m1, root, v2) == t1,
        fa1.next == fa0.next + if has_l1(m0, root, v2) {
            0int
        } else {
            4096int
        },
        forall|i2: usize| #[trigger]
            has_l1(m1, root, i2) == (has_l1(m0, root, i2) || (i2 == v2)),
        forall|i2: usize| #[trigger]
            has_l1(m0, root, i2) ==> l1_table(m1, root, i2) == l1_table(m0, root, i2),
        forall|i2: usize, i1: usize| #[trigger]
            has_l0(m1, root, i2, i1) == has_l0(m0, root, i2, i1),
        forall|i2: usize, i1: usize| #[trigger]
            has_l0(m0, root, i2, i1) ==> l0_table(m1, root, i2, i1) == l0_table(m0, root, i2, i1),
        forall|va: usize| #[trigger] translation(m1, root, va) == translation(m0, root, va),
        forall|a: usize|
            outside_tables(m0, root, a) && !(fa0.next <= a < fa1.next) ==> #[trigger] m1.word(a)
                == m0.word(a),
        forall|a: usize|
            #[trigger] outside_tables(m0, root, a) && !(fa0.next <= a < fa1.next) ==> outside_tables(
                m1,
                root,
                a,
            ),
{
    if valid(entry(m0, root, v2)) {
        return;
    }
    let nf = t1;
    let ea = entry_addr(root, v2);
    lemma_frame_entry(root, v2);
    lemma_dir_entry(nf);
    assert(root + 4096 <= nf || nf + 4096 <= root);
    lemma_zero_invalid();
    assert(entry(m1, root, v2) == encode(nf, PTE_V));
    assert(l1_table(m1, root, v2) == nf);
    // Root entries other than v2 keep their values.
    assert forall|i2: usize| i2 < 512 && i2 != v2 implies entry(m1, root, i2) == entry(m0, root, i2) by {
        lemma_frame_entry(root, i2);
        lemma_entry_distinct(root, i2, root, v2);
    }
    // Level-1 tables reachable before keep their entries.
    assert forall|i2: usize, i1: usize| has_l1(m0, root, i2) && i1 < 512 implies entry(
        m1,
        l1_table(m0, root, i2),
        i1,
    ) == entry(m0, l1_table(m0, root, i2), i1) by {
        let t = l1_table(m0, root, i2);
        assert(has_l1(m0, root, i2));
        lemma_target(entry(m0, root, i2));
        lemma_frame_entry(t, i1);
        lemma_entry_distinct(t, i1, root, v2);
    }
    // Level-0 tables reachable before keep their entries.
    assert forall|i2: usize, i1: usize, i0: usize| has_l0(m0, root, i2, i1) && i0 < 512 implies entry(
        m1,
        l0_table(m0, root, i2, i1),
        i0,
    ) == entry(m0, l0_table(m0, root, i2, i1), i0) by {
        let t = l0_table(m0, root, i2, i1);
        assert(has_l0(m0, root, i2, i1));
        lemma_target(entry(m0, l1_table(m0, root, i2), i1));
        lemma_frame_entry(t, i0);
        lemma_entry_distinct(t, i0, root, v2);
    }
    // The new table is all zero.
    assert forall|i1: usize| i1 < 512 implies entry(m1, nf, i1) == 0 by {
        lemma_frame_entry(nf, i1);
    }
    assert forall|i2: usize| #[trigger] has_l1(m1, root, i2) == (has_l1(m0, root, i2) || (i2 == v2)) by {
        if i2 < 512 && i2 != v2 {
            assert(entry(m1, root, i2) == entry(m0, root, i2));
        }
    }
    assert forall|i2: usize| #[trigger] has_l1(m0, root, i2) implies l1_table(m1, root, i2) == l1_table(
        m0,
        root,
        i2,
    ) by {
        assert(entry(m1, root, i2) == entry(m0, root, i2));
    }
    assert forall|i2: usize, i1: usize| #[trigger]
        has_l0(m1, root, i2, i1) == has_l0(m0, root, i2, i1) by {
        if i2 == v2 {
            if i1 < 512 {
                assert(entry(m1, nf, i1) == 0);
            }
        } else if i2 < 512 {
            assert(entry(m1, root, i2) == entry(m0, root, i2));
            if has_l1(m0, root, i2) && i1 < 512 {
                assert(entry(m1, l1_table(m0, root, i2), i1) == entry(m0, l1_table(m0, root, i2), i1));
            }
        }
    }
    assert forall|i2: usize, i1: usize| #[trigger] has_l0(m0, root, i2, i1) implies l0_table(
        m1,
        root,
        i2,
        i1,
    ) == l0_table(m0, root, i2, i1) by {
        assert(has_l1(m0, root, i2));
        assert(entry(m1, root, i2) == entry(m0, root, i2));
        assert(entry(m1, l1_table(m0, root, i2), i1) == entry(m0, l1_table(m0, root, i2), i1));
    }
    // Translations.
    assert forall|va: usize| #[trigger] translation(m1, root, va) == translation(m0, root, va) by {
        lemma_vpn_bound(va);
        let i2 = vpn_at(va, 2);
        let i1 = vpn_at(va, 1);
        let i0 = vpn_at(va, 0);
        if i2 == v2 {
            reveal_with_fuel(walk, 3);
            assert(entry(m1, nf, i1) == 0);
            lemma_zero_invalid();
        } else {
            assert(entry(m1, root, i2) == entry(m0, root, i2));
            let e2 = entry(m0, root, i2);
            if valid(e2) && !is_leaf(e2) {
                assert(has_l1(m0, root, i2));
                assert(entry(m1, target_of(e2), i1) == entry(m0, target_of(e2), i1));
                let e1 = entry(m0, target_of(e2), i1);
                if valid(e1) && !is_leaf(e1) {
                    assert(has_l0(m0, root, i2, i1));
                    assert(entry(m1, target_of(e1), i0) == entry(m0, target_of(e1), i0));
                }
            }
            lemma_same_path_walk(m0, m1, root, va);
        }
    }
    // Words outside the tables.
    assert forall|a: usize| outside_tables(m0, root, a) && !(fa0.next <= a < fa1.next) implies #[trigger] m1.word(
        a,
    ) == m0.word(a) by {
        assert(a != ea);
    }
    assert forall|a: usize| #[trigger]
        outside_tables(m0, root, a) && !(fa0.next <= a < fa1.next) implies outside_tables(m1, root, a) by {
        assert forall|i2: usize| #[trigger] has_l1(m1, root, i2) implies !in_frame(
            a,
            l1_table(m1, root, i2),
        ) by {
            if has_l1(m0, root, i2) {
                assert(l1_table(m1, root, i2) == l1_table(m0, root, i2));
            }
        }
        assert forall|i2: usize, i1: usize| #[trigger] has_l0(m1, root, i2, i1) implies !in_frame(
            a,
            l0_table(m1, root, i2, i1),
        ) by {
            assert(has_l0(m0, root, i2, i1));
            assert(l0_table(m1, root, i2, i1) == l0_table(m0, root, i2, i1));
        }
    }
    // Well-formedness.
    assert(fa1.not_free(root));
    assert forall|i2: usize| #[trigger] has_l1(m1, root, i2) implies {
        &&& !is_leaf(entry(m1, root, i2))
        &&& fa1.not_free(l1_table(m1, root, i2))
        &&& l1_table(m1, root, i2) != root
    } by {
        if i2 != v2 {
            assert(has_l1(m0, root, i2));
            assert(entry(m1, root, i2) == entry(m0, root, i2));
        }
    }
    assert forall|i2: usize, i1: usize| #[trigger] has_l0(m1, root, i2, i1) implies {
        &&& !is_leaf(entry(m1, l1_table(m1, root, i2), i1))
        &&& fa1.not_free(l0_table(m1, root, i2, i1))
        &&& l0_table(m1, root, i2, i1) != root
    } by {
        assert(has_l0(m0, root, i2, i1));
        assert(has_l1(m0, root, i2));
        assert(l1_table(m1, root, i2) == l1_table(m0, root, i2));
        assert(entry(m1, l1_table(m0, root, i2), i1) == entry(m0, l1_table(m0, root, i2), i1));
    }
    assert forall|i2: usize, j2: usize| #[trigger]
        has_l1(m1, root, i2) && #[trigger] has_l1(m1, root, j2) && i2 != j2 implies l1_table(
        m1,
        root,
        i2,
    ) != l1_table(m1, root, j2) by {
        if i2 != v2 {
            assert(has_l1(m0, root, i2));
            assert(l1_table(m1, root, i2) == l1_table(m0, root, i2));
        }
        if j2 != v2 {
            assert(has_l1(m0, root, j2));
            assert(l1_table(m1, root, j2) == l1_table(m0, root, j2));
        }
    }
    assert forall|i2: usize, i1: usize, j2: usize| #[trigger]
        has_l0(m1, root, i2, i1) && #[trigger] has_l1(m1, root, j2) implies l0_table(
        m1,
        root,
        i2,
        i1,
    ) != l1_table(m1, root, j2) by {
        assert(has_l0(m0, root, i2, i1));
        assert(l0_table(m1, root, i2, i1) == l0_table(m0, root, i2, i1));
        if j2 != v2 {
            assert(has_l1(m0, root, j2));
            assert(l1_table(m1, root, j2) == l1_table(m0, root, j2));
        }
    }
    assert forall|i2: usize, i1: usize, j2: usize, j1: usize| #[trigger]
        has_l0(m1, root, i2, i1) && #[trigger] has_l0(m1, root, j2, j1) && (i2 != j2 || i1 != j1) implies l0_table(
        m1,
        root,
        i2,
        i1,
    ) != l0_table(m1, root, j2, j1) by {
        assert(has_l0(m0, root, i2, i1));
        assert(has_l0(m0, root, j2, j1));
        assert(l0_table(m1, root, i2, i1) == l0_table(m0, root, i2, i1));
        assert(l0_table(m1, root, j2, j1) == l0_table(m0, root, j2, j1));
    }
}


/// Linking a fresh zeroed table under entry `v1` of the level-1 table below root entry
/// `v2` keeps the table well formed and every translation as it was.
proof fn lemma_link_l1<M: MemoryView>(
    m1: M,
    m2: M,
    root: usize,
    fa1: FrameAllocator,
    fa2: FrameAllocator,
    v2: usize,
    v1: usize,
    t0: usize,
)
    requires
        table_wf(m1, root, fa1),
        has_l1(m1, root, v2),
        v1 < 512,
        fa2.wf(),
        fa2.start == fa1.start,
        fa2.end == fa1.end,
        valid(entry(m1, l1_table(m1, root, v2), v1)) ==> t0 == target_of(
            entry(m1, l1_table(m1, root, v2), v1),
        ) && fa2.next == fa1.next && m2 == m1,
        !valid(entry(m1, l1_table(m1, root, v2), v1)) ==> {
            &&& t0 == fa1.next
            &&& fa1.next + 4096 <= fa1.end
            &&& fa2.next == fa1.next + 4096
            &&& linked(m1, m2, entry_addr(l1_table(m1, root, v2), v1), t0)
        },
    ensures
        table_wf(m2, root, fa2),
        has_l0(m2, root, v2, v1),
        l0_table(m2, root, v2, v1) == t0,
        fa2.next == fa1.next + if has_l0(m1, root, v2, v1) {
            0int
        } else {
            4096int
        },
        forall|i2: usize| #[trigger] has_l1(m2, root, i2) == has_l1(m1, root, i2),
        forall|i2: usize| #[trigger]
            has_l1(m1, root, i2) ==> l1_table(m2, root, i2) == l1_table(m1, root, i2),
        forall|i2: usize, i1: usize| #[trigger]
            has_l0(m2, root, i2, i1) == (has_l0(m1, root, i2, i1) || (i2 == v2 && i1 == v1)),
        forall|i2: usize, i1: usize| #[trigger]
            has_l0(m1, root, i2, i1) ==> l0_table(m2, root, i2, i1) == l0_table(m1, root, i2, i1),
        forall|va: usize| #[trigger] translation(m2, root, va) == translation(m1, root, va),
        forall|a: usize|
            outside_tables(m1, root, a) && !(fa1.next <= a < fa2.next) ==> #[trigger] m2.word(a)
                == m1.word(a),
        forall|a: usize|
            #[trigger] outside_tables(m1, root, a) && !(fa1.next <= a < fa2.next) ==> outside_tables(
                m2,
                root,
                a,
            ),
{
    let t = l1_table(m1, root, v2);
    if valid(entry(m1, t, v1)) {
        assert(has_l0(m1, root, v2, v1));
        return;
    }
    let nf = t0;
    let ea = entry_addr(t, v1);
    assert(has_l1(m1, root, v2));
    lemma_target(entry(m1, root, v2));
    lemma_frame_entry(t, v1);
    lemma_dir_entry(nf);
    lemma_frames_apart(t, root);
    lemma_zero_invalid();
    assert(entry(m2, t, v1) == encode(nf, PTE_V));
    // Root entries keep their values.
    assert forall|i2: usize| i2 < 512 implies entry(m2, root, i2) == entry(m1, root, i2) by {
        lemma_frame_entry(root, i2);
        lemma_entry_distinct(root, i2, t, v1);
    }
    // Level-1 entries keep their values, but for entry v1 of table t.
    assert forall|i2: usize, i1: usize|
        has_l1(m1, root, i2) && i1 < 512 && !(i2 == v2 && i1 == v1) implies entry(
        m2,
        l1_table(m1, root, i2),
        i1,
    ) == entry(m1, l1_table(m1, root, i2), i1) by {
        let u = l1_table(m1, root, i2);
        assert(has_l1(m1, root, i2));
        lemma_target(entry(m1, root, i2));
        lemma_frame_entry(u, i1);
        if i2 != v2 {
            assert(u != t);
        }
        lemma_entry_distinct(u, i1, t, v1);
    }
    // Level-0 entries keep their values.
    assert forall|i2: usize, i1: usize, i0: usize| has_l0(m1, root, i2, i1) && i0 < 512 implies entry(
        m2,
        l0_table(m1, root, i2, i1),
        i0,
    ) == entry(m1, l0_table(m1, root, i2, i1), i0) by {
        let u = l0_table(m1, root, i2, i1);
        assert(has_l0(m1, root, i2, i1));
        assert(has_l1(m1, root, v2));
        assert(u != t);
        lemma_target(entry(m1, l1_table(m1, root, i2), i1));
        lemma_frame_entry(u, i0);
        lemma_entry_distinct(u, i0, t, v1);
    }
    assert forall|i0: usize| i0 < 512 implies entry(m2, nf, i0) == 0 by {
        lemma_frame_entry(nf, i0);
    }
    assert(l0_table(m2, root, v2, v1) == nf) by {
        assert(entry(m2, root, v2) == entry(m1, root, v2));
    }
    assert forall|i2: usize| #[trigger] has_l1(m2, root, i2) == has_l1(m1, root, i2) by {
        if i2 < 512 {
            assert(entry(m2, root, i2) == entry(m1, root, i2));
        }
    }
    assert forall|i2: usize| #[trigger] has_l1(m1, root, i2) implies l1_table(m2, root, i2) == l1_table(
        m1,
        root,
        i2,
    ) by {
        assert(entry(m2, root, i2) == entry(m1, root, i2));
    }
    assert forall|i2: usize, i1: usize| #[trigger]
        has_l0(m2, root, i2, i1) == (has_l0(m1, root, i2, i1) || (i2 == v2 && i1 == v1)) by {
        if i2 < 512 {
            assert(entry(m2, root, i2) == entry(m1, root, i2));
            if has_l1(m1, root, i2) && i1 < 512 && !(i2 == v2 && i1 == v1) {
                assert(entry(m2, l1_table(m1, root, i2), i1) == entry(m1, l1_table(m1, root, i2), i1));
            }
        }
    }
    assert forall|i2: usize, i1: usize| #[trigger] has_l0(m1, root, i2, i1) implies l0_table(
        m2,
        root,
        i2,
        i1,
    ) == l0_table(m1, root, i2, i1) by {
        assert(has_l1(m1, root, i2));
        assert(entry(m2, root, i2) == entry(m1, root, i2));
        assert(!(i2 == v2 && i1 == v1));
        assert(entry(m2, l1_table(m1, root, i2), i1) == entry(m1, l1_table(m1, root, i2), i1));
    }
    assert forall|va: usize| #[trigger] translation(m2, root, va) == translation(m1, root, va) by {
        lemma_vpn_bound(va);
        let i2 = vpn_at(va, 2);
        let i1 = vpn_at(va, 1);
        let i0 = vpn_at(va, 0);
        assert(entry(m2, root, i2) == entry(m1, root, i2));
        let e2 = entry(m1, root, i2);
        if i2 == v2 && i1 == v1 {
            reveal_with_fuel(walk, 3);
            assert(entry(m2, nf, i0) == 0);
        } else {
            if valid(e2) && !is_leaf(e2) {
                assert(has_l1(m1, root, i2));
                assert(entry(m2, target_of(e2), i1) == entry(m1, target_of(e2), i1));
                let e1 = entry(m1, target_of(e2), i1);
                if valid(e1) && !is_leaf(e1) {
                    assert(has_l0(m1, root, i2, i1));
                    assert(entry(m2, target_of(e1), i0) == entry(m1, target_of(e1), i0));
                }
            }
            lemma_same_path_walk(m1, m2, root, va);
        }
    }
    assert forall|a: usize| outside_tables(m1, root, a) && !(fa1.next <= a < fa2.next) implies #[trigger] m2.word(
        a,
    ) == m1.word(a) by {
        assert(has_l1(m1, root, v2));
        assert(a != ea);
    }
    assert forall|a: usize| #[trigger]
        outside_tables(m1, root, a) && !(fa1.next <= a < fa2.next) implies outside_tables(m2, root, a) by {
        assert forall|i2: usize| #[trigger] has_l1(m2, root, i2) implies !in_frame(
            a,
            l1_table(m2, root, i2),
        ) by {
            assert(has_l1(m1, root, i2));
            assert(l1_table(m2, root, i2) == l1_table(m1, root, i2));
        }
        assert forall|i2: usize, i1: usize| #[trigger] has_l0(m2, root, i2, i1) implies !in_frame(
            a,
            l0_table(m2, root, i2, i1),
        ) by {
            if has_l0(m1, root, i2, i1) {
                assert(l0_table(m2, root, i2, i1) == l0_table(m1, root, i2, i1));
            }
        }
    }
    // Well-formedness.
    assert(fa2.not_free(root));
    assert forall|i2: usize| #[trigger] has_l1(m2, root, i2) implies {
        &&& !is_leaf(entry(m2, root, i2))
        &&& fa2.not_free(l1_table(m2, root, i2))
        &&& l1_table(m2, root, i2) != root
    } by {
        assert(has_l1(m1, root, i2));
        assert(entry(m2, root, i2) == entry(m1, root, i2));
    }
    assert forall|i2: usize, i1: usize| #[trigger] has_l0(m2, root, i2, i1) implies {
        &&& !is_leaf(entry(m2, l1_table(m2, root, i2), i1))
        &&& fa2.not_free(l0_table(m2, root, i2, i1))
        &&& l0_table(m2, root, i2, i1) != root
    } by {
        assert(has_l1(m1, root, i2));
        assert(l1_table(m2, root, i2) == l1_table(m1, root, i2));
        if !(i2 == v2 && i1 == v1) {
            assert(has_l0(m1, root, i2, i1));
            assert(entry(m2, l1_table(m1, root, i2), i1) == entry(m1, l1_table(m1, root, i2), i1));
        }
    }
    assert forall|i2: usize, j2: usize| #[trigger]
        has_l1(m2, root, i2) && #[trigger] has_l1(m2, root, j2) && i2 != j2 implies l1_table(
        m2,
        root,
        i2,
    ) != l1_table(m2, root, j2) by {
        assert(has_l1(m1, root, i2));
        assert(has_l1(m1, root, j2));
        assert(l1_table(m2, root, i2) == l1_table(m1, root, i2));
        assert(l1_table(m2, root, j2) == l1_table(m1, root, j2));
    }
    assert forall|i2: usize, i1: usize, j2: usize| #[trigger]
        has_l0(m2, root, i2, i1) && #[trigger] has_l1(m2, root, j2) implies l0_table(
        m2,
        root,
        i2,
        i1,
    ) != l1_table(m2, root, j2) by {
        assert(has_l1(m1, root, j2));
        assert(l1_table(m2, root, j2) == l1_table(m1, root, j2));
        if !(i2 == v2 && i1 == v1) {
            assert(has_l0(m1, root, i2, i1));
            assert(l0_table(m2, root, i2, i1) == l0_table(m1, root, i2, i1));
        }
    }
    assert forall|i2: usize, i1: usize, j2: usize, j1: usize| #[trigger]
        has_l0(m2, root, i2, i1) && #[trigger] has_l0(m2, root, j2, j1) && (i2 != j2 || i1 != j1) implies l0_table(
        m2,
        root,
        i2,
        i1,
    ) != l0_table(m2, root, j2, j1) by {
        if !(i2 == v2 && i1 == v1) {
            assert(has_l0(m1, root, i2, i1));
            assert(l0_table(m2, root, i2, i1) == l0_table(m1, root, i2, i1));
        }
        if !(j2 == v2 && j1 == v1) {
            assert(has_l0(m1, root, j2, j1));
            assert(l0_table(m2, root, j2, j1) == l0_table(m1, root, j2, j1));
        }
    }
}


/// Writing entry `v0` of the level-0 table below `(v2, v1)` changes the translation of
/// exactly the addresses whose three indexes are `(v2, v1, v0)`.
proof fn lemma_set_leaf<M: MemoryView>(
    m2: M,
    m3: M,
    root: usize,
    fa: FrameAllocator,
    v2: usize,
    v1: usize,
    v0: usize,
    leaf: u64,
)
    requires
        table_wf(m2, root, fa),
        has_l0(m2, root, v2, v1),
        v0 < 512,
        m3.word(entry_addr(l0_table(m2, root, v2, v1), v0)) == leaf,
        forall|a: usize|
            a != entry_addr(l0_table(m2, root, v2, v1), v0) ==> #[trigger] m3.word(a) == m2.word(a),
    ensures
        table_wf(m3, root, fa),
        forall|i2: usize| #[trigger] has_l1(m3, root, i2) == has_l1(m2, root, i2),
        forall|i2: usize| #[trigger]
            has_l1(m2, root, i2) ==> l1_table(m3, root, i2) == l1_table(m2, root, i2),
        forall|i2: usize, i1: usize| #[trigger]
            has_l0(m3, root, i2, i1) == has_l0(m2, root, i2, i1),
        forall|i2: usize, i1: usize| #[trigger]
            has_l0(m2, root, i2, i1) ==> l0_table(m3, root, i2, i1) == l0_table(m2, root, i2, i1),
        forall|va: usize| #[trigger]
            translation(m3, root, va) == if vpn_at(va, 2) == v2 && vpn_at(va, 1) == v1 && vpn_at(
                va,
                0,
            ) == v0 {
                level0_result(leaf, va)
            } else {
                translation(m2, root, va)
            },
        forall|a: usize| outside_tables(m2, root, a) ==> #[trigger] m3.word(a) == m2.word(a),
        forall|a: usize| #[trigger] outside_tables(m2, root, a) ==> outside_tables(m3, root, a),
{
    let t = l0_table(m2, root, v2, v1);
    let ea = entry_addr(t, v0);
    assert(has_l0(m2, root, v2, v1));
    assert(has_l1(m2, root, v2));
    lemma_target(entry(m2, l1_table(m2, root, v2), v1));
    lemma_frame_entry(t, v0);
    lemma_frames_apart(t, root);
    assert forall|i2: usize| i2 < 512 implies entry(m3, root, i2) == entry(m2, root, i2) by {
        lemma_frame_entry(root, i2);
        lemma_entry_distinct(root, i2, t, v0);
    }
    assert forall|i2: usize, i1: usize| has_l1(m2, root, i2) && i1 < 512 implies entry(
        m3,
        l1_table(m2, root, i2),
        i1,
    ) == entry(m2, l1_table(m2, root, i2), i1) by {
        let u = l1_table(m2, root, i2);
        assert(has_l1(m2, root, i2));
        assert(t != u);
        lemma_target(entry(m2, root, i2));
        lemma_frame_entry(u, i1);
        lemma_entry_distinct(u, i1, t, v0);
    }
    assert forall|i2: usize, i1: usize, i0: usize|
        has_l0(m2, root, i2, i1) && i0 < 512 && !(i2 == v2 && i1 == v1 && i0 == v0) implies entry(
        m3,
        l0_table(m2, root, i2, i1),
        i0,
    ) == entry(m2, l0_table(m2, root, i2, i1), i0) by {
        let u = l0_table(m2, root, i2, i1);
        assert(has_l0(m2, root, i2, i1));
        lemma_target(entry(m2, l1_table(m2, root, i2), i1));
        lemma_frame_entry(u, i0);
        if !(i2 == v2 && i1 == v1) {
            assert(u != t);
        }
        lemma_entry_distinct(u, i0, t, v0);
    }
    assert forall|i2: usize| #[trigger] has_l1(m3, root, i2) == has_l1(m2, root, i2) by {
        if i2 < 512 {
            assert(entry(m3, root, i2) == entry(m2, root, i2));
        }
    }
    assert forall|i2: usize| #[trigger] has_l1(m2, root, i2) implies l1_table(m3, root, i2) == l1_table(
        m2,
        root,
        i2,
    ) by {
        assert(entry(m3, root, i2) == entry(m2, root, i2));
    }
    assert forall|i2: usize, i1: usize| #[trigger]
        has_l0(m3, root, i2, i1) == has_l0(m2, root, i2, i1) by {
        if i2 < 512 {
            assert(entry(m3, root, i2) == entry(m2, root, i2));
            if has_l1(m2, root, i2) && i1 < 512 {
                assert(entry(m3, l1_table(m2, root, i2), i1) == entry(m2, l1_table(m2, root, i2), i1));
            }
        }
    }
    assert forall|i2: usize, i1: usize| #[trigger] has_l0(m2, root, i2, i1) implies l0_table(
        m3,
        root,
        i2,
        i1,
    ) == l0_table(m2, root, i2, i1) by {
        assert(has_l1(m2, root, i2));
        assert(entry(m3, root, i2) == entry(m2, root, i2));
        assert(entry(m3, l1_table(m2, root, i2), i1) == entry(m2, l1_table(m2, root, i2), i1));
    }
    assert forall|va: usize| #[trigger]
        translation(m3, root, va) == if vpn_at(va, 2) == v2 && vpn_at(va, 1) == v1 && vpn_at(va, 0)
            == v0 {
            level0_result(leaf, va)
        } else {
            translation(m2, root, va)
        } by {
        lemma_vpn_bound(va);
        let i2 = vpn_at(va, 2);
        let i1 = vpn_at(va, 1);
        let i0 = vpn_at(va, 0);
        assert(entry(m3, root, i2) == entry(m2, root, i2));
        let e2 = entry(m2, root, i2);
        if i2 == v2 && i1 == v1 && i0 == v0 {
            reveal_with_fuel(walk, 3);
            assert(has_l1(m2, root, v2));
            assert(entry(m3, l1_table(m2, root, v2), v1) == entry(m2, l1_table(m2, root, v2), v1));
        } else {
            if valid(e2) && !is_leaf(e2) {
                assert(has_l1(m2, root, i2));
                assert(entry(m3, target_of(e2), i1) == entry(m2, target_of(e2), i1));
                let e1 = entry(m2, target_of(e2), i1);
                if valid(e1) && !is_leaf(e1) {
                    assert(has_l0(m2, root, i2, i1));
                    assert(entry(m3, target_of(e1), i0) == entry(m2, target_of(e1), i0));
                }
            }
            lemma_same_path_walk(m2, m3, root, va);
        }
    }
    assert forall|a: usize| outside_tables(m2, root, a) implies #[trigger] m3.word(a) == m2.word(a) by {
        assert(has_l0(m2, root, v2, v1));
        assert(a != ea);
    }
    assert forall|a: usize| #[trigger] outside_tables(m2, root, a) implies outside_tables(m3, root, a) by {
        assert forall|i2: usize| #[trigger] has_l1(m3, root, i2) implies !in_frame(
            a,
            l1_table(m3, root, i2),
        ) by {
            assert(has_l1(m2, root, i2));
            assert(l1_table(m3, root, i2) == l1_table(m2, root, i2));
        }
        assert forall|i2: usize, i1: usize| #[trigger] has_l0(m3, root, i2, i1) implies !in_frame(
            a,
            l0_table(m3, root, i2, i1),
        ) by {
            assert(has_l0(m2, root, i2, i1));
            assert(l0_table(m3, root, i2, i1) == l0_table(m2, root, i2, i1));
        }
    }
    assert forall|i2: usize| #[trigger] has_l1(m3, root, i2) implies {
        &&& !is_leaf(entry(m3, root, i2))
        &&& fa.not_free(l1_table(m3, root, i2))
        &&& l1_table(m3, root, i2) != root
    } by {
        assert(has_l1(m2, root, i2));
        assert(entry(m3, root, i2) == entry(m2, root, i2));
    }
    assert forall|i2: usize, i1: usize| #[trigger] has_l0(m3, root, i2, i1) implies {
        &&& !is_leaf(entry(m3, l1_table(m3, root, i2), i1))
        &&& fa.not_free(l0_table(m3, root, i2, i1))
        &&& l0_table(m3, root, i2, i1) != root
    } by {
        assert(has_l0(m2, root, i2, i1));
        assert(has_l1(m2, root, i2));
        assert(l1_table(m3, root, i2) == l1_table(m2, root, i2));
        assert(entry(m3, l1_table(m2, root, i2), i1) == entry(m2, l1_table(m2, root, i2), i1));
    }
    assert forall|i2: usize, j2: usize| #[trigger]
        has_l1(m3, root, i2) && #[trigger] has_l1(m3, root, j2) && i2 != j2 implies l1_table(
        m3,
        root,
        i2,
    ) != l1_table(m3, root, j2) by {
        assert(has_l1(m2, root, i2));
        assert(has_l1(m2, root, j2));
        assert(l1_table(m3, root, i2) == l1_table(m2, root, i2));
        assert(l1_table(m3, root, j2) == l1_table(m2, root, j2));
    }
    assert forall|i2: usize, i1: usize, j2: usize| #[trigger]
        has_l0(m3, root, i2, i1) && #[trigger] has_l1(m3, root, j2) implies l0_table(
        m3,
        root,
        i2,
        i1,
    ) != l1_table(m3, root, j2) by {
        assert(has_l1(m2, root, j2));
        assert(has_l0(m2, root, i2, i1));
        assert(l1_table(m3, root, j2) == l1_table(m2, root, j2));
        assert(l0_table(m3, root, i2, i1) == l0_table(m2, root, i2, i1));
    }
    assert forall|i2: usize, i1: usize, j2: usize, j1: usize| #[trigger]
        has_l0(m3, root, i2, i1) && #[trigger] has_l0(m3, root, j2, j1) && (i2 != j2 || i1 != j1) implies l0_table(
        m3,
        root,
        i2,
        i1,
    ) != l0_table(m3, root, j2, j1) by {
        assert(has_l0(m2, root, i2, i1));
        assert(has_l0(m2, root, j2, j1));
        assert(l0_table(m3, root, i2, i1) == l0_table(m2, root, i2, i1));
        assert(l0_table(m3, root, j2, j1) == l0_table(m2, root, j2, j1));
    }
}


/// A leaf built from `pa` and sensible `flags` translates `va` into the page of `pa`.
pub proof fn lemma_leaf_result(pa: usize, flags: u64, va: usize)
    ensures
        flags < 0x400 && flags & PTE_V != 0 && flags & 0xe != 0 && (pa as int)
            < 0x100_0000_0000_0000 ==> level0_result(encode(pa, flags), va) == Some(
            (((pa - pa % 4096) + va % 4096) as usize, flags),
        ),
{
    lemma_encode_decode(pa, flags);
    let e = encode(pa, flags);
    lemma_target(e);
    assert(e & 0x3ff == flags ==> (e & 1 == flags & 1 && e & 0xe == flags & 0xe)) by (bit_vector);
    assert(va & 0xfffusize == va % 4096) by (bit_vector);
}

/// Maps the 4 KiB page of `va` to the page of `pa`, with the leaf entry
/// `make_pte(pa, flags)`, allocating the missing intermediate tables.
///
/// Only the translations of the addresses in the page of `va` change; the tables stay
/// well formed; exactly `frames_needed` frames are taken from the allocator; and no word
/// outside the old tables and the new frames changes.
#[verifier::spinoff_prover]
pub fn map_one<M: PhysMemory>(
    mem: &mut M,
    fa: &mut FrameAllocator,
    root_pa: usize,
    va: usize,
    pa: usize,
    flags: u64,
)
    requires
        table_wf(*old(mem), root_pa, *old(fa)),
        old(fa).next + 4096 * frames_needed(*old(mem), root_pa, va) <= old(fa).end,
    ensures
        table_wf(*final(mem), root_pa, *final(fa)),
        final(fa).start == old(fa).start,
        final(fa).end == old(fa).end,
        final(fa).next == old(fa).next + 4096 * frames_needed(*old(mem), root_pa, va),
        forall|vb: usize| #[trigger]
            translation(*final(mem), root_pa, vb) == if same_page(va, vb) {
                level0_result(encode(pa, flags), vb)
            } else {
                translation(*old(mem), root_pa, vb)
            },
        forall|i2: usize| #[trigger]
            has_l1(*final(mem), root_pa, i2) == (has_l1(*old(mem), root_pa, i2) || i2 == vpn_at(va, 2)),
        forall|i2: usize, i1: usize| #[trigger]
            has_l0(*final(mem), root_pa, i2, i1) == (has_l0(*old(mem), root_pa, i2, i1) || (i2
                == vpn_at(va, 2) && i1 == vpn_at(va, 1))),
        forall|a: usize|
            outside_tables(*old(mem), root_pa, a) && !(old(fa).next <= a < final(fa).next)
                ==> #[trigger] final(mem).word(a) == old(mem).word(a),
        forall|a: usize|
            #[trigger] outside_tables(*old(mem), root_pa, a) && !(old(fa).next <= a < final(fa).next)
                ==> outside_tables(*final(mem), root_pa, a),
        flags < 0x400 && flags & PTE_V != 0 && flags & 0xe != 0 && (pa as int)
            < 0x100_0000_0000_0000 ==> translation(*final(mem), root_pa, va) == Some(
            (((pa - pa % 4096) + va % 4096) as usize, flags),
        ),
{
    let ghost m0 = *mem;
    let ghost fa0 = *fa;
    let vpn = vpn_indexes(va);
    let ghost v2 = vpn[2];
    let ghost v1 = vpn[1];
    let ghost v0 = vpn[0];
    // Level 2 (the root), then level 1: find or create the next table.
    let t1 = descend(mem, fa, root_pa, vpn[2]);
    proof {
        lemma_link_root(m0, *mem, root_pa, fa0, *fa, v2, t1);
        lemma_target(entry(*mem, root_pa, v2));
    }
    let ghost m1 = *mem;
    let ghost fa1 = *fa;
    assert(valid(entry(m1, t1, v1)) == has_l0(m1, root_pa, v2, v1));
    let t0 = descend(mem, fa, t1, vpn[1]);
    proof {
        lemma_link_l1(m1, *mem, root_pa, fa1, *fa, v2, v1, t0);
        lemma_target(entry(*mem, t1, v1));
    }
    let ghost m2 = *mem;
    // Level 0: the leaf.
    proof {
        lemma_frame_entry(t0, v0);
    }
    let leaf_addr = pte_ptr(t0, vpn[0]);
    let leaf = make_pte(pa, flags);
    mem.write_word(leaf_addr, leaf);
    proof {
        lemma_set_leaf(m2, *mem, root_pa, *fa, v2, v1, v0, leaf);
        let m3 = *mem;
        assert forall|a: usize|
            outside_tables(m0, root_pa, a) && !(fa0.next <= a < fa.next) implies #[trigger] m3.word(a)
            == m0.word(a) by {
            assert(outside_tables(m1, root_pa, a));
            assert(outside_tables(m2, root_pa, a));
        }
        assert forall|a: usize| #[trigger]
            outside_tables(m0, root_pa, a) && !(fa0.next <= a < fa.next) implies outside_tables(
            m3,
            root_pa,
            a,
        ) by {
            assert(outside_tables(m1, root_pa, a));
            assert(outside_tables(m2, root_pa, a));
        }
        lemma_leaf_result(pa, flags, va);
        assert forall|vb: usize| #[trigger]
            translation(m3, root_pa, vb) == if same_page(va, vb) {
                level0_result(encode(pa, flags), vb)
            } else {
                translation(m0, root_pa, vb)
            } by {
            assert(translation(m2, root_pa, vb) == translation(m1, root_pa, vb));
            assert(translation(m1, root_pa, vb) == translation(m0, root_pa, vb));
        }
        assert forall|i2: usize| #[trigger]
            has_l1(m3, root_pa, i2) == (has_l1(m0, root_pa, i2) || i2 == v2) by {
            assert(has_l1(m2, root_pa, i2) == has_l1(m1, root_pa, i2));
            assert(has_l1(m1, root_pa, i2) == (has_l1(m0, root_pa, i2) || i2 == v2));
        }
        assert forall|i2: usize, i1: usize| #[trigger]
            has_l0(m3, root_pa, i2, i1) == (has_l0(m0, root_pa, i2, i1) || (i2 == v2 && i1 == v1)) by {
            assert(has_l0(m2, root_pa, i2, i1) == (has_l0(m1, root_pa, i2, i1) || (i2 == v2 && i1
                == v1)));
            assert(has_l0(m1, root_pa, i2, i1) == has_l0(m0, root_pa, i2, i1));
        }
    }
}


// ---------------------------------------------------------------------------
// Fresh tables, data frames, and ranges.
// ---------------------------------------------------------------------------

/// A zero-filled root frame that the allocator will not hand out is a well-formed, empty
/// page table: nothing is mapped.
pub proof fn lemma_fresh_table<M: MemoryView>(m: M, root: usize, fa: FrameAllocator)
    requires
        root % 4096 == 0,
        forall|a: usize| in_frame(a, root) && a % 8 == 0 ==> #[trigger] m.word(a) == 0,
        fa.wf(),
        fa.not_free(root),
        fa.end as int <= 0x100_0000_0000_0000,
        fa.end + 4096 <= usize::MAX,
        fa.next + 4096 <= usize::MAX,
    ensures
        table_wf(m, root, fa),
        forall|i2: usize| !#[trigger] has_l1(m, root, i2),
        forall|i2: usize, i1: usize| !#[trigger] has_l0(m, root, i2, i1),
        forall|va: usize| #[trigger] translation(m, root, va) is None,
{
    lemma_zero_invalid();
    assert forall|i2: usize| !#[trigger] has_l1(m, root, i2) by {
        if i2 < 512 {
            lemma_frame_entry(root, i2);
        }
    }
    assert forall|va: usize| #[trigger] translation(m, root, va) is None by {
        lemma_vpn_bound(va);
        lemma_frame_entry(root, vpn_at(va, 2));
        reveal_with_fuel(walk, 1);
    }
}

/// Handing out frames and filling them leaves a well-formed page table as it was.
pub proof fn lemma_frames_taken<M: MemoryView>(
    m0: M,
    m1: M,
    root: usize,
    fa0: FrameAllocator,
    fa1: FrameAllocator,
)
    requires
        table_wf(m0, root, fa0),
        fa1.wf(),
        fa1.start == fa0.start,
        fa1.end == fa0.end,
        fa0.next <= fa1.next,
        fa1.next <= fa0.end,
        fa1.next + 4096 <= usize::MAX,
        forall|a: usize| !(fa0.next <= a < fa1.next) ==> #[trigger] m1.word(a) == m0.word(a),
    ensures
        table_wf(m1, root, fa1),
        forall|va: usize| #[trigger] translation(m1, root, va) == translation(m0, root, va),
        forall|i2: usize| #[trigger] has_l1(m1, root, i2) == has_l1(m0, root, i2),
        forall|i2: usize, i1: usize| #[trigger] has_l0(m1, root, i2, i1) == has_l0(m0, root, i2, i1),
        forall|a: usize| #[trigger] outside_tables(m1, root, a) == outside_tables(m0, root, a),
{
    assert forall|i2: usize| i2 < 512 implies entry(m1, root, i2) == entry(m0, root, i2) by {
        lemma_frame_entry(root, i2);
    }
    assert forall|i2: usize, i1: usize| has_l1(m0, root, i2) && i1 < 512 implies entry(
        m1,
        l1_table(m0, root, i2),
        i1,
    ) == entry(m0, l1_table(m0, root, i2), i1) by {
        assert(has_l1(m0, root, i2));
        lemma_target(entry(m0, root, i2));
        lemma_frame_entry(l1_table(m0, root, i2), i1);
    }
    assert forall|i2: usize, i1: usize, i0: usize| has_l0(m0, root, i2, i1) && i0 < 512 implies entry(
        m1,
        l0_table(m0, root, i2, i1),
        i0,
    ) == entry(m0, l0_table(m0, root, i2, i1), i0) by {
        assert(has_l0(m0, root, i2, i1));
        lemma_target(entry(m0, l1_table(m0, root, i2), i1));
        lemma_frame_entry(l0_table(m0, root, i2, i1), i0);
    }
    assert forall|i2: usize| #[trigger] has_l1(m1, root, i2) == has_l1(m0, root, i2) by {
        if i2 < 512 {
            assert(entry(m1, root, i2) == entry(m0, root, i2));
        }
    }
    assert forall|i2: usize, i1: usize| #[trigger]
        has_l0(m1, root, i2, i1) == has_l0(m0, root, i2, i1) by {
        if has_l1(m0, root, i2) && i1 < 512 {
            assert(entry(m1, root, i2) == entry(m0, root, i2));
            assert(entry(m1, l1_table(m0, root, i2), i1) == entry(m0, l1_table(m0, root, i2), i1));
        }
    }
    assert forall|va: usize| #[trigger] translation(m1, root, va) == translation(m0, root, va) by {
        lemma_vpn_bound(va);
        let i2 = vpn_at(va, 2);
        let i1 = vpn_at(va, 1);
        let i0 = vpn_at(va, 0);
        assert(entry(m1, root, i2) == entry(m0, root, i2));
        let e2 = entry(m0, root, i2);
        if valid(e2) && !is_leaf(e2) {
            assert(has_l1(m0, root, i2));
            assert(entry(m1, target_of(e2), i1) == entry(m0, target_of(e2), i1));
            let e1 = entry(m0, target_of(e2), i1);
            if valid(e1) && !is_leaf(e1) {
                assert(has_l0(m0, root, i2, i1));
                assert(entry(m1, target_of(e1), i0) == entry(m0, target_of(e1), i0));
            }
        }
        lemma_same_path_walk(m0, m1, root, va);
    }
    assert forall|a: usize| #[trigger] outside_tables(m1, root, a) == outside_tables(m0, root, a) by {
        assert forall|i2: usize| #[trigger] has_l1(m1, root, i2) implies l1_table(m1, root, i2)
            == l1_table(m0, root, i2) by {
            assert(entry(m1, root, i2) == entry(m0, root, i2));
        }
        assert forall|i2: usize, i1: usize| #[trigger] has_l0(m1, root, i2, i1) implies l0_table(
            m1,
            root,
            i2,
            i1,
        ) == l0_table(m0, root, i2, i1) by {
            assert(has_l0(m0, root, i2, i1));
            assert(entry(m1, root, i2) == entry(m0, root, i2));
            assert(entry(m1, l1_table(m0, root, i2), i1) == entry(m0, l1_table(m0, root, i2), i1));
        }
        if outside_tables(m0, root, a) {
            assert forall|i2: usize| #[trigger] has_l1(m1, root, i2) implies !in_frame(
                a,
                l1_table(m1, root, i2),
            ) by {
                assert(has_l1(m0, root, i2));
            }
            assert forall|i2: usize, i1: usize| #[trigger] has_l0(m1, root, i2, i1) implies !in_frame(
                a,
                l0_table(m1, root, i2, i1),
            ) by {
                assert(has_l0(m0, root, i2, i1));
            }
        }
        if outside_tables(m1, root, a) {
            assert forall|i2: usize| #[trigger] has_l1(m0, root, i2) implies !in_frame(
                a,
                l1_table(m0, root, i2),
            ) by {
                assert(has_l1(m1, root, i2));
            }
            assert forall|i2: usize, i1: usize| #[trigger] has_l0(m0, root, i2, i1) implies !in_frame(
                a,
                l0_table(m0, root, i2, i1),
            ) by {
                assert(has_l0(m1, root, i2, i1));
            }
        }
    }
    assert forall|i2: usize| #[trigger] has_l1(m1, root, i2) implies {
        &&& !is_leaf(entry(m1, root, i2))
        &&& fa1.not_free(l1_table(m1, root, i2))
        &&& l1_table(m1, root, i2) != root
    } by {
        assert(has_l1(m0, root, i2));
        assert(entry(m1, root, i2) == entry(m0, root, i2));
    }
    assert forall|i2: usize, i1: usize| #[trigger] has_l0(m1, root, i2, i1) implies {
        &&& !is_leaf(entry(m1, l1_table(m1, root, i2), i1))
        &&& fa1.not_free(l0_table(m1, root, i2, i1))
        &&& l0_table(m1, root, i2, i1) != root
    } by {
        assert(has_l0(m0, root, i2, i1));
        assert(entry(m1, root, i2) == entry(m0, root, i2));
        assert(entry(m1, l1_table(m0, root, i2), i1) == entry(m0, l1_table(m0, root, i2), i1));
    }
    assert forall|i2: usize, j2: usize| #[trigger]
        has_l1(m1, root, i2) && #[trigger] has_l1(m1, root, j2) && i2 != j2 implies l1_table(
        m1,
        root,
        i2,
    ) != l1_table(m1, root, j2) by {
        assert(has_l1(m0, root, i2));
        assert(has_l1(m0, root, j2));
        assert(entry(m1, root, i2) == entry(m0, root, i2));
        assert(entry(m1, root, j2) == entry(m0, root, j2));
    }
    assert forall|i2: usize, i1: usize, j2: usize| #[trigger]
        has_l0(m1, root, i2, i1) && #[trigger] has_l1(m1, root, j2) implies l0_table(
        m1,
        root,
        i2,
        i1,
    ) != l1_table(m1, root, j2) by {
        assert(has_l0(m0, root, i2, i1));
        assert(has_l1(m0, root, j2));
        assert(entry(m1, root, i2) == entry(m0, root, i2));
        assert(entry(m1, root, j2) == entry(m0, root, j2));
        assert(entry(m1, l1_table(m0, root, i2), i1) == entry(m0, l1_table(m0, root, i2), i1));
    }
    assert forall|i2: usize, i1: usize, j2: usize, j1: usize| #[trigger]
        has_l0(m1, root, i2, i1) && #[trigger] has_l0(m1, root, j2, j1) && (i2 != j2 || i1 != j1) implies l0_table(
        m1,
        root,
        i2,
        i1,
    ) != l0_table(m1, root, j2, j1) by {
        assert(has_l0(m0, root, i2, i1));
        assert(has_l0(m0, root, j2, j1));
        assert(entry(m1, root, i2) == entry(m0, root, i2));
        assert(entry(m1, root, j2) == entry(m0, root, j2));
        assert(entry(m1, l1_table(m0, root, i2), i1) == entry(m0, l1_table(m0, root, i2), i1));
        assert(entry(m1, l1_table(m0, root, j2), j1) == entry(m0, l1_table(m0, root, j2), j1));
    }
}


/// The indexes of the valid root entries.
pub open spec fn l1_set<M: MemoryView>(m: M, root: usize) -> Set<usize> {
    Set::new(|i2: usize| has_l1(m, root, i2))
}

/// The index pairs of the valid level-1 entries below valid root entries.
pub open spec fn l0_set<M: MemoryView>(m: M, root: usize) -> Set<(usize, usize)> {
    Set::new(|p: (usize, usize)| has_l0(m, root, p.0, p.1))
}

/// The number of tables that mapping `va` creates, given the valid root entries `l1s`
/// and the valid level-1 entries `l0s`.
pub open spec fn tables_needed(l1s: Set<usize>, l0s: Set<(usize, usize)>, va: usize) -> nat {
    if !l1s.contains(vpn_at(va, 2)) {
        2
    } else if !l0s.contains((vpn_at(va, 2), vpn_at(va, 1))) {
        1
    } else {
        0
    }
}

/// The number of tables that mapping the `n` pages from `va` on, in order, creates.
pub open spec fn range_tables(l1s: Set<usize>, l0s: Set<(usize, usize)>, va: int, n: nat) -> nat
    decreases n,
{
    if n == 0 {
        0
    } else {
        let v = va as usize;
        tables_needed(l1s, l0s, v) + range_tables(
            l1s.insert(vpn_at(v, 2)),
            l0s.insert((vpn_at(v, 2), vpn_at(v, 1))),
            va + 4096,
            (n - 1) as nat,
        )
    }
}

/// The valid root entries after mapping the `n` pages from `va` on.
pub open spec fn range_l1s(l1s: Set<usize>, va: int, n: nat) -> Set<usize>
    decreases n,
{
    if n == 0 {
        l1s
    } else {
        range_l1s(l1s, va, (n - 1) as nat).insert(vpn_at((va + 4096 * (n - 1)) as usize, 2))
    }
}

/// The valid level-1 entries after mapping the `n` pages from `va` on.
pub open spec fn range_l0s(l0s: Set<(usize, usize)>, va: int, n: nat) -> Set<(usize, usize)>
    decreases n,
{
    if n == 0 {
        l0s
    } else {
        let v = (va + 4096 * (n - 1)) as usize;
        range_l0s(l0s, va, (n - 1) as nat).insert((vpn_at(v, 2), vpn_at(v, 1)))
    }
}

/// The last of the `n` pages from `va0` on that shares its entries with `vb`.
pub open spec fn last_hit(va0: int, n: nat, vb: usize) -> Option<nat>
    decreases n,
{
    if n == 0 {
        None
    } else if same_page((va0 + 4096 * (n - 1)) as usize, vb) {
        Some((n - 1) as nat)
    } else {
        last_hit(va0, (n - 1) as nat, vb)
    }
}

/// The translation of `vb` after the `n` pages from `va0` on have been mapped, in
/// order, to the pages from `pa0` on with `flags`, over the table `m`.
pub open spec fn range_translation<M: MemoryView>(
    m: M,
    root: usize,
    va0: int,
    pa0: int,
    n: nat,
    flags: u64,
    vb: usize,
) -> Option<(usize, u64)> {
    match last_hit(va0, n, vb) {
        Some(i) => level0_result(encode((pa0 + 4096 * i) as usize, flags), vb),
        None => translation(m, root, vb),
    }
}

/// The first page that `map_range` maps.
pub open spec fn range_start(va_start: usize) -> int {
    va_start - va_start % 4096
}

/// How many pages `map_range` maps: none for an empty range, else every page from the one
/// holding `va_start` to the one holding the last byte.
pub open spec fn range_pages(va_start: usize, len: usize) -> nat {
    if len == 0 {
        0
    } else {
        ((page_ceil(va_start + len) - range_start(va_start)) / 4096) as nat
    }
}

pub proof fn lemma_sets_after_map<M: MemoryView>(m0: M, m1: M, root: usize, va: usize)
    requires
        forall|i2: usize| #[trigger]
            has_l1(m1, root, i2) == (has_l1(m0, root, i2) || i2 == vpn_at(va, 2)),
        forall|i2: usize, i1: usize| #[trigger]
            has_l0(m1, root, i2, i1) == (has_l0(m0, root, i2, i1) || (i2 == vpn_at(va, 2) && i1
                == vpn_at(va, 1))),
    ensures
        l1_set(m1, root) == l1_set(m0, root).insert(vpn_at(va, 2)),
        l0_set(m1, root) == l0_set(m0, root).insert((vpn_at(va, 2), vpn_at(va, 1))),
{
    assert(l1_set(m1, root) =~= l1_set(m0, root).insert(vpn_at(va, 2)));
    assert(l0_set(m1, root) =~= l0_set(m0, root).insert((vpn_at(va, 2), vpn_at(va, 1))));
}

pub proof fn lemma_frames_needed_sets<M: MemoryView>(m0: M, root: usize, va: usize)
    ensures
        frames_needed(m0, root, va) == tables_needed(l1_set(m0, root), l0_set(m0, root), va),
{
    assert(l1_set(m0, root).contains(vpn_at(va, 2)) == has_l1(m0, root, vpn_at(va, 2)));
    assert(l0_set(m0, root).contains((vpn_at(va, 2), vpn_at(va, 1))) == has_l0(
        m0,
        root,
        vpn_at(va, 2),
        vpn_at(va, 1),
    ));
}

/// Maps `[va_start, va_start + len)` page by page to the pages from `pa_start` on, with
/// `flags`: each page of the range, from the one holding `va_start` to the one holding
/// the last byte, gets the leaf of the matching physical page. An empty range maps nothing.
pub fn map_range<M: PhysMemory>(
    mem: &mut M,
    fa: &mut FrameAllocator,
    root_pa: usize,
    va_start: usize,
    pa_start: usize,
    len: usize,
    flags: u64,
)
    requires
        table_wf(*old(mem), root_pa, *old(fa)),
        va_start + len + 4095 <= usize::MAX,
        range_start(pa_start) + 4096 * range_pages(va_start, len) <= usize::MAX,
        old(fa).next + 4096 * range_tables(
            l1_set(*old(mem), root_pa),
            l0_set(*old(mem), root_pa),
            range_start(va_start),
            range_pages(va_start, len),
        ) <= old(fa).end,
    ensures
        table_wf(*final(mem), root_pa, *final(fa)),
        final(fa).start == old(fa).start,
        final(fa).end == old(fa).end,
        final(fa).next == old(fa).next + 4096 * range_tables(
            l1_set(*old(mem), root_pa),
            l0_set(*old(mem), root_pa),
            range_start(va_start),
            range_pages(va_start, len),
        ),
        forall|vb: usize| #[trigger]
            translation(*final(mem), root_pa, vb) == range_translation(
                *old(mem),
                root_pa,
                range_start(va_start),
                range_start(pa_start),
                range_pages(va_start, len),
                flags,
                vb,
            ),
        l1_set(*final(mem), root_pa) == range_l1s(
            l1_set(*old(mem), root_pa),
            range_start(va_start),
            range_pages(va_start, len),
        ),
        l0_set(*final(mem), root_pa) == range_l0s(
            l0_set(*old(mem), root_pa),
            range_start(va_start),
            range_pages(va_start, len),
        ),
        forall|a: usize|
            outside_tables(*old(mem), root_pa, a) && !(old(fa).next <= a < final(fa).next)
                ==> #[trigger] final(mem).word(a) == old(mem).word(a),
        forall|a: usize|
            #[trigger] outside_tables(*old(mem), root_pa, a) && !(old(fa).next <= a < final(fa).next)
                ==> outside_tables(*final(mem), root_pa, a),
{
    let ghost m0 = *mem;
    let ghost fa0 = *fa;
    let ghost s1 = l1_set(m0, root_pa);
    let ghost s0 = l0_set(m0, root_pa);
    let va0 = align_down(va_start, PAGE_SIZE);
    let pa0 = align_down(pa_start, PAGE_SIZE);
    let end = if len == 0 {
        va0
    } else {
        align_up(va_start + len, PAGE_SIZE)
    };
    let ghost n = range_pages(va_start, len);
    let ghost total = range_tables(s1, s0, va0 as int, n);
    assert(end % 4096 == 0 && va0 % 4096 == 0 && va0 <= end) by {
        assert(page_ceil((va_start + len) as int) % 4096 == 0);
    }
    assert(end - va0 == 4096 * n);
    let mut va = va0;
    let mut pa = pa0;
    let ghost mut i: nat = 0;
    while va < end
        invariant
            i <= n,
            va0 % 4096 == 0,
            end == va0 + 4096 * n,
            va == va0 + 4096 * i,
            pa == pa0 + 4096 * i,
            pa0 + 4096 * n <= usize::MAX,
            end <= usize::MAX,
            table_wf(*mem, root_pa, *fa),
            fa.start == fa0.start,
            fa.end == fa0.end,
            fa.next + 4096 * range_tables(l1_set(*mem, root_pa), l0_set(*mem, root_pa), va as int, (n - i) as nat)
                == fa0.next + 4096 * total,
            fa0.next + 4096 * total <= fa0.end,
            fa0.next <= fa.next,
            l1_set(*mem, root_pa) == range_l1s(s1, va0 as int, i),
            l0_set(*mem, root_pa) == range_l0s(s0, va0 as int, i),
            forall|vb: usize| #[trigger]
                translation(*mem, root_pa, vb) == range_translation(
                    m0,
                    root_pa,
                    va0 as int,
                    pa0 as int,
                    i,
                    flags,
                    vb,
                ),
            forall|a: usize|
                outside_tables(m0, root_pa, a) && !(fa0.next <= a < fa.next) ==> #[trigger] mem.word(a)
                    == m0.word(a),
            forall|a: usize|
                #[trigger] outside_tables(m0, root_pa, a) && !(fa0.next <= a < fa.next)
                    ==> outside_tables(*mem, root_pa, a),
        decreases end - va,
    {
        let ghost mb = *mem;
        let ghost fab = *fa;
        proof {
            lemma_frames_needed_sets(mb, root_pa, va);
        }
        map_one(mem, fa, root_pa, va, pa, flags);
        proof {
            lemma_sets_after_map(mb, *mem, root_pa, va);
            assert forall|vb: usize| #[trigger]
                translation(*mem, root_pa, vb) == range_translation(
                    m0,
                    root_pa,
                    va0 as int,
                    pa0 as int,
                    i + 1,
                    flags,
                    vb,
                ) by {
                assert(translation(mb, root_pa, vb) == range_translation(
                    m0,
                    root_pa,
                    va0 as int,
                    pa0 as int,
                    i,
                    flags,
                    vb,
                ));
            }
            assert forall|a: usize|
                outside_tables(m0, root_pa, a) && !(fa0.next <= a < fa.next) implies #[trigger] mem.word(a)
                    == m0.word(a) && outside_tables(*mem, root_pa, a) by {
                assert(outside_tables(mb, root_pa, a));
            }
        }
        va = va + PAGE_SIZE;
        pa = pa + PAGE_SIZE;
        proof {
            i = i + 1;
        }
    }
}


/// The Sv39 page number bits of `va`: the 27 bits that select its three entries.
pub open spec fn page_index(va: usize) -> int {
    (va as int / 4096) % 0x800_0000
}

/// Two addresses share their three entries exactly when their Sv39 page numbers agree.
pub proof fn lemma_same_page_index(va: usize, vb: usize)
    ensures
        same_page(va, vb) == (page_index(va) == page_index(vb)),
{
    assert(((va >> 12usize) & 0x1ffusize == (vb >> 12usize) & 0x1ffusize && (va >> 21usize)
        & 0x1ffusize == (vb >> 21usize) & 0x1ffusize && (va >> 30usize) & 0x1ffusize == (vb
        >> 30usize) & 0x1ffusize) == ((va >> 12usize) & 0x7ff_ffffusize == (vb >> 12usize)
        & 0x7ff_ffffusize)) by (bit_vector);
    assert((va >> 12usize) & 0x7ff_ffffusize == ((va / 4096) % 0x800_0000) && (vb >> 12usize)
        & 0x7ff_ffffusize == ((vb / 4096) % 0x800_0000)) by (bit_vector);
}

/// Within a run of fewer than 2^27 pages, the page number grows by one per page.
proof fn lemma_page_index_step(va0: usize, k: nat)
    requires
        va0 % 4096 == 0,
        va0 + 4096 * k <= usize::MAX,
        page_index(va0) + k < 0x800_0000,
    ensures
        page_index((va0 + 4096 * k) as usize) == page_index(va0) + k,
{
    let q = va0 as int / 4096;
    assert((va0 + 4096 * k) as int / 4096 == q + k) by (nonlinear_arith)
        requires
            va0 % 4096 == 0,
            q == va0 as int / 4096,
    ;
    assert((q + k) % 0x800_0000 == q % 0x800_0000 + k) by (nonlinear_arith)
        requires
            q >= 0,
            k >= 0,
            q % 0x800_0000 + k < 0x800_0000,
    ;
}

/// `last_hit` over a run of pages that does not wrap around the Sv39 page numbers: the
/// page of `vb` is hit exactly when its page number falls in the run.
pub proof fn lemma_last_hit_run(va0: usize, n: nat, vb: usize)
    requires
        va0 % 4096 == 0,
        va0 + 4096 * n <= usize::MAX,
        page_index(va0) + n <= 0x800_0000,
    ensures
        last_hit(va0 as int, n, vb) == if page_index(va0) <= page_index(vb) < page_index(va0) + n {
            Some((page_index(vb) - page_index(va0)) as nat)
        } else {
            None
        },
    decreases n,
{
    if n > 0 {
        let k = (n - 1) as nat;
        lemma_last_hit_run(va0, k, vb);
        lemma_page_index_step(va0, k);
        lemma_same_page_index((va0 + 4096 * k) as usize, vb);
    }
}

/// After mapping a run of pages that does not wrap around the Sv39 page numbers, an
/// address whose page is the `k`-th of the run translates into the `k`-th physical page;
/// any other address translates as before.
pub proof fn lemma_range_translation_run<M: MemoryView>(
    m: M,
    root: usize,
    va0: usize,
    pa0: usize,
    n: nat,
    flags: u64,
    vb: usize,
)
    requires
        va0 % 4096 == 0,
        pa0 % 4096 == 0,
        va0 + 4096 * n <= usize::MAX,
        pa0 + 4096 * n <= 0x100_0000_0000_0000,
        pa0 + 4096 * n <= usize::MAX,
        page_index(va0) + n <= 0x800_0000,
        flags < 0x400,
        flags & PTE_V != 0,
        flags & 0xe != 0,
    ensures
        range_translation(m, root, va0 as int, pa0 as int, n, flags, vb) == if page_index(va0)
            <= page_index(vb) < page_index(va0) + n {
            Some(
                (
                    (pa0 + 4096 * (page_index(vb) - page_index(va0)) + vb % 4096) as usize,
                    flags,
                ),
            )
        } else {
            translation(m, root, vb)
        },
{
    lemma_last_hit_run(va0, n, vb);
    if page_index(va0) <= page_index(vb) < page_index(va0) + n {
        let k = page_index(vb) - page_index(va0);
        assert(4096 * k + 4096 <= 4096 * n) by (nonlinear_arith)
            requires
                0 <= k < n,
        ;
        let p = (pa0 + 4096 * k) as usize;
        lemma_leaf_result(p, flags, vb);
        assert(p % 4096 == 0) by (nonlinear_arith)
            requires
                pa0 % 4096 == 0,
                p == pa0 + 4096 * k,
        ;
    }
}

/// The satp value for Sv39 with ASID 0 and the root table at `root_pa`, as a 64-bit word.
pub open spec fn satp_word(root_pa: usize) -> u64 {
    (8u64 << 60u64) | (((root_pa >> 12usize) as u64) & 0xfff_ffff_ffff)
}

/// The satp value for the Sv39 page table rooted at `root_pa`: MODE = 8, ASID = 0 and
/// PPN = the root's page number.
pub fn make_satp(root_pa: usize) -> (r: usize)
    ensures
        r == satp_word(root_pa) as usize,
        satp_word(root_pa) >> 60u64 == 8,
        (satp_word(root_pa) >> 44u64) & 0xffff == 0,
        (root_pa as int) < 0x100_0000_0000_0000 ==> satp_word(root_pa) & 0xfff_ffff_ffff == (
        root_pa / 4096) as u64,
{
    let root_ppn = (root_pa >> 12) as u64;
    proof {
        let p = root_ppn;
        assert(((8u64 << 60u64) | (p & 0xfff_ffff_ffff)) >> 60u64 == 8 && (((8u64 << 60u64) | (p
            & 0xfff_ffff_ffff)) >> 44u64) & 0xffff == 0 && ((8u64 << 60u64) | (p & 0xfff_ffff_ffff))
            & 0xfff_ffff_ffff == p & 0xfff_ffff_ffff) by (bit_vector);
        assert((root_pa as int) < 0x100_0000_0000_0000 ==> ((root_pa >> 12usize) as u64)
            & 0xfff_ffff_ffff == (root_pa / 4096) as u64) by (bit_vector);
    }
    ((8u64 << 60) | (root_ppn & 0xfff_ffff_ffff)) as usize
}


/// Fills the page table frame at `table_pa` with zeros.
pub fn zero_table<M: PhysMemory>(mem: &mut M, table_pa: usize)
    requires
        table_pa % 4096 == 0,
        table_pa + 4096 <= usize::MAX,
    ensures
        forall|a: usize| in_frame(a, table_pa) && a % 8 == 0 ==> #[trigger] final(mem).word(a) == 0,
        forall|a: usize| !in_frame(a, table_pa) ==> #[trigger] final(mem).word(a) == old(mem).word(a),
{
    super::phys::zero_page(mem, table_pa);
}

/// What the translation of `vb` is after the `n` pages from `va0` on have been mapped
/// to the pages from `pa0` on with `flags`, in a table that mapped nothing before.
pub open spec fn run_translation(va0: usize, pa0: usize, n: nat, flags: u64, vb: usize) -> Option<
    (usize, u64),
> {
    if page_index(va0) <= page_index(vb) < page_index(va0) + n {
        Some(((pa0 + 4096 * (page_index(vb) - page_index(va0)) + vb % 4096) as usize, flags))
    } else {
        None
    }
}

/// An address inside a run maps to the same offset in the matching physical page.
pub proof fn lemma_run_translation_inside(va0: usize, pa0: usize, n: nat, flags: u64, vb: usize)
    requires
        va0 % 4096 == 0,
        va0 <= vb < va0 + 4096 * n,
        page_index(va0) + n <= 0x800_0000,
    ensures
        run_translation(va0, pa0, n, flags, vb) == Some(((pa0 + (vb - va0)) as usize, flags)),
{
    let k = (vb - va0) / 4096;
    assert(0 <= k < n) by (nonlinear_arith)
        requires
            k == (vb - va0) / 4096,
            0 <= vb - va0 < 4096 * n,
    ;
    assert(vb == va0 + 4096 * k + vb % 4096) by (nonlinear_arith)
        requires
            k == (vb - va0) / 4096,
            va0 % 4096 == 0,
            va0 <= vb,
    ;
    lemma_page_index_step(va0, k as nat);
    assert(page_index((va0 + 4096 * k) as usize) == page_index(vb)) by (nonlinear_arith)
        requires
            vb == va0 + 4096 * k + vb % 4096,
            va0 % 4096 == 0,
            0 <= vb % 4096 < 4096,
    {
        assert((va0 + 4096 * k) / 4096 == vb as int / 4096);
    }
}


/// Facts about moving `j` bytes forward inside a 4 KiB page.
proof fn lemma_page_step(va: usize, j: usize)
    requires
        va % 4096 + j < 4096,
    ensures
        va + j <= usize::MAX,
        va & 0xfffusize == va % 4096,
        ((va + j) as usize) & 0xfffusize == (va & 0xfffusize) + j,
        vpn_at((va + j) as usize, 0) == vpn_at(va, 0),
        vpn_at((va + j) as usize, 1) == vpn_at(va, 1),
        vpn_at((va + j) as usize, 2) == vpn_at(va, 2),
{
    assert(va & 4095usize == va % 4096) by (bit_vector);
    assert(va % 4096 + j < 4096 ==> (va | 4095usize) == va + (4095 - va % 4096)) by (bit_vector);
    let vb = (va + j) as usize;
    assert(va % 4096 + j < 4096 ==> ((vb >> 12usize) == (va >> 12usize) && vb & 0xfffusize == (va
        & 0xfffusize) + j)) by (bit_vector)
        requires
            vb == va + j,
    ;
    assert(vpn_at(vb, 0) == vpn_at(va, 0) && vpn_at(vb, 1) == vpn_at(va, 1) && vpn_at(vb, 2)
        == vpn_at(va, 2)) by (bit_vector)
        requires
            (vb >> 12usize) == (va >> 12usize),
    ;
}

/// An address below `m` that lies `k` bytes into its 4 KiB page leaves `4096 - k` bytes of
/// that page below `m`, when `m` is a multiple of 4096.
proof fn lemma_page_room(s: int, m: int, k: int)
    requires
        0 <= s < m,
        m % 4096 == 0,
        s % 4096 == k,
    ensures
        s + (4096 - k) <= m,
{
    let q = s / 4096;
    let p = m / 4096;
    assert(s == 4096 * q + k && m == 4096 * p) by (nonlinear_arith)
        requires
            s % 4096 == k,
            m % 4096 == 0,
            q == s / 4096,
            p == m / 4096,
    ;
    assert(q + 1 <= p) by (nonlinear_arith)
        requires
            s == 4096 * q + k,
            m == 4096 * p,
            s < m,
            0 <= k < 4096,
    ;
    assert(4096 * (q + 1) <= 4096 * p) by (nonlinear_arith)
        requires
            q + 1 <= p,
    ;
}

/// A leaf's result moves with the offset inside the 4 KiB page, at every level.
proof fn lemma_leaf_step(e: u64, va: usize, j: usize, level: nat)
    requires
        va % 4096 + j < 4096,
    ensures
        leaf_result(e, (va + j) as usize, level) == ((leaf_result(e, va, level).0 + j) as usize,
            leaf_result(e, va, level).1),
        leaf_result(e, va, level).0 % 4096 == va % 4096,
        leaf_result(e, va, level).0 + (4096 - va % 4096) <= usize::MAX + 1,
{
    lemma_page_step(va, j);
    lemma_target(e);
    let vb = (va + j) as usize;
    assert(va % 4096 + j < 4096 ==> (vb & 0x1f_ffffusize == (va & 0x1f_ffffusize) + j && vb
        & 0x3fff_ffffusize == (va & 0x3fff_ffffusize) + j)) by (bit_vector)
        requires
            vb == va + j,
    ;
    assert((va & 0x1f_ffffusize) % 4096 == va % 4096 && (va & 0x3fff_ffffusize) % 4096 == va
        % 4096) by (bit_vector);
    let t = target_of(e);
    let o = page_offset(va, level);
    assert(page_offset(vb, level) == o + j);
    assert(o % 4096 == va % 4096);
    let k: int = (va % 4096) as int;
    let m: int = usize::MAX + 1;
    assert(m % 4096 == 0) by {
        assert(m == 0x1_0000_0000 || m == 0x1_0000_0000_0000_0000);
    }
    assert(t % 4096 == 0 && o % 4096 == k ==> (t + o) % 4096 == k) by (nonlinear_arith);
    let s = t + o;
    if s > usize::MAX {
        assert((s - m) % 4096 == k) by (nonlinear_arith)
            requires
                s % 4096 == k,
                m % 4096 == 0,
        ;
        lemma_page_room(s - m, m, k);
    } else {
        lemma_page_room(s, m, k);
    }
}

/// Addresses in the same 4 KiB page translate through the same leaf: the physical address
/// moves with the offset and the flags stay the same.
pub proof fn lemma_translation_in_page<M: MemoryView>(m: M, root: usize, va: usize, j: usize)
    requires
        va % 4096 + j < 4096,
    ensures
        va + j <= usize::MAX,
        translation(m, root, (va + j) as usize) == match translation(m, root, va) {
            Some((pa, fl)) => Some(((pa + j) as usize, fl)),
            None => None,
        },
        translation(m, root, va) matches Some((pa, fl)) ==> pa % 4096 == va % 4096 && pa + (4096
            - va % 4096) <= usize::MAX + 1,
{
    lemma_page_step(va, j);
    let vb = (va + j) as usize;
    reveal_with_fuel(walk, 3);
    let l2 = entry(m, root, vpn_at(va, 2));
    let l1 = entry(m, target_of(l2), vpn_at(va, 1));
    let l0 = entry(m, target_of(l1), vpn_at(va, 0));
    lemma_leaf_step(l2, va, j, 2);
    lemma_leaf_step(l1, va, j, 1);
    lemma_leaf_step(l0, va, j, 0);
}


/// A memory and the words it holds translate alike.
pub proof fn lemma_words_of_translation<M: MemoryView>(m: M, root: usize, va: usize)
    ensures
        translation(super::phys::words_of(m), root, va) == translation(m, root, va),
{
    reveal_with_fuel(walk, 3);
}


/// The frame the allocator hands out next holds no table.
pub proof fn lemma_next_frame_outside<M: MemoryView>(m: M, root: usize, fa: FrameAllocator, a: usize)
    requires
        table_wf(m, root, fa),
        fa.next + 4096 <= fa.end,
        in_frame(a, fa.next),
    ensures
        outside_tables(m, root, a),
{
    assert forall|i2: usize| #[trigger] has_l1(m, root, i2) implies !in_frame(a, l1_table(m, root, i2)) by {
    }
    assert forall|i2: usize, i1: usize| #[trigger] has_l0(m, root, i2, i1) implies !in_frame(
        a,
        l0_table(m, root, i2, i1),
    ) by {}
}

/// The allocator of a well-formed table is well formed and its frames lie below 2^56.
pub proof fn lemma_wf_frames<M: MemoryView>(m: M, root: usize, fa: FrameAllocator)
    requires
        table_wf(m, root, fa),
    ensures
        fa.wf(),
        fa.end as int <= 0x100_0000_0000_0000,
        fa.end + 4096 <= usize::MAX,
        fa.next + 4096 <= usize::MAX,
        root % 4096 == 0,
        fa.not_free(root),
{
}


/// Translations depend only on the words of the tables: a memory that agrees with a
/// well-formed table's memory on every word inside its tables translates alike.
pub proof fn lemma_tables_kept<M1: MemoryView, M2: MemoryView>(
    m0: M1,
    m1: M2,
    root: usize,
    fa: FrameAllocator,
)
    requires
        table_wf(m0, root, fa),
        forall|a: usize| !outside_tables(m0, root, a) ==> #[trigger] m1.word(a) == m0.word(a),
    ensures
        forall|va: usize| #[trigger] translation(m1, root, va) == translation(m0, root, va),
{
    assert forall|va: usize| #[trigger] translation(m1, root, va) == translation(m0, root, va) by {
        lemma_vpn_bound(va);
        let i2 = vpn_at(va, 2);
        let i1 = vpn_at(va, 1);
        let i0 = vpn_at(va, 0);
        lemma_frame_entry(root, i2);
        assert(!outside_tables(m0, root, entry_addr(root, i2)));
        let e2 = entry(m0, root, i2);
        if valid(e2) && !is_leaf(e2) {
            assert(has_l1(m0, root, i2));
            lemma_target(e2);
            lemma_frame_entry(target_of(e2), i1);
            assert(!outside_tables(m0, root, entry_addr(target_of(e2), i1)));
            let e1 = entry(m0, target_of(e2), i1);
            if valid(e1) && !is_leaf(e1) {
                assert(has_l0(m0, root, i2, i1));
                lemma_target(e1);
                lemma_frame_entry(target_of(e1), i0);
                assert(!outside_tables(m0, root, entry_addr(target_of(e1), i0)));
            }
        }
        lemma_same_path_walk(m0, m1, root, va);
    }
}

} // verus!
