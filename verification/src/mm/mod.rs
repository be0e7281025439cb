//! Sv39 memory management: layout constants and address alignment.
use vstd::prelude::*;

pub mod copy;
pub mod frame;
pub mod pagetable;
pub mod phys;
pub mod pte;
pub mod space;

use frame::{alloc_frame, FrameAllocator};
use pagetable::{
    lemma_fresh_table, lemma_range_translation_run, make_satp, map_range, range_pages,
    range_start, range_tables, run_translation, satp_word, table_wf, translation, zero_table,
};
use phys::PhysMemory;
use pte::{PTE_A, PTE_D, PTE_R, PTE_V, PTE_W, PTE_X};

verus! {

pub const PAGE_SIZE: usize = 4096;

/// Start of DRAM on the QEMU `virt` machine.
pub const MEMORY_START: usize = 0x8000_0000;

/// End of the 128 MiB of DRAM that the kernel manages.
pub const MEMORY_END: usize = 0x8800_0000;

pub const USER_BASE: usize = 0x0001_0000;

pub const USER_STACK_TOP: usize = 0x0008_0000;

pub const USER_STACK_PAGES: usize = 4;

/// The least multiple of the page size that is at least `x`.
pub open spec fn page_ceil(x: int) -> int {
    (x + 4095) - (x + 4095) % 4096
}

/// Rounds `addr` down to a multiple of `align`.
pub fn align_down(addr: usize, align: usize) -> (r: usize)
    requires
        align >= 1,
    ensures
        r == addr & !((align - 1) as usize),
        align == PAGE_SIZE ==> r == addr - addr % PAGE_SIZE,
{
    assert(addr & !(4095usize) == addr - addr % 4096) by (bit_vector);
    addr & !(align - 1)
}

/// Rounds `addr` up to a multiple of `align`.
pub fn align_up(addr: usize, align: usize) -> (r: usize)
    requires
        align >= 1,
        addr + align - 1 <= usize::MAX,
    ensures
        r == ((addr + align - 1) as usize) & !((align - 1) as usize),
        align == PAGE_SIZE ==> r == page_ceil(addr as int),
{
    let s: usize = addr + (align - 1);
    assert(s & !(4095usize) == s - s % 4096) by (bit_vector);
    s & !(align - 1)
}


/// The flags of the kernel's identity mapping of DRAM: valid, readable, writable,
/// executable, accessed and dirty, but not accessible from U-mode.
pub const KERNEL_PTE_FLAGS: u64 = PTE_V | PTE_R | PTE_W | PTE_X | PTE_A | PTE_D;

/// The number of 4 KiB pages of DRAM.
pub open spec fn dram_pages() -> nat {
    ((MEMORY_END - MEMORY_START) / 4096) as nat
}

/// The number of tables that the kernel's identity mapping of DRAM needs in an empty page
/// table.
pub open spec fn kernel_map_tables() -> nat {
    range_tables(Set::empty(), Set::empty(), MEMORY_START as int, dram_pages())
}

/// The kernel's address space: the frame allocator over the memory after the kernel image,
/// and the root of the page table that identity-maps DRAM.
pub struct KernelSpace {
    pub frames: FrameAllocator,
    pub root_pa: usize,
    pub satp: usize,
}

impl KernelSpace {
    /// The physical address of the kernel's root page table.
    pub fn kernel_root_pa(&self) -> (r: usize)
        ensures
            r == self.root_pa,
    {
        self.root_pa
    }

    /// The satp value that selects the kernel's page table.
    pub fn kernel_satp(&self) -> (r: usize)
        ensures
            r == self.satp,
    {
        self.satp
    }
}

/// Sets up the frame allocator over `[align_up(ekernel), MEMORY_END)`, takes its first frame
/// as the kernel's root table and identity-maps DRAM in it as supervisor-only memory.
///
/// Every address whose Sv39 page number is that of a page of DRAM translates to itself
/// with `KERNEL_PTE_FLAGS`; every other address has no translation. Only the frames handed
/// out change in memory.
pub fn init<M: PhysMemory>(mem: &mut M, ekernel: usize) -> (k: KernelSpace)
    requires
        ekernel + 4095 <= usize::MAX,
        page_ceil(ekernel as int) + 4096 * (1 + kernel_map_tables()) <= MEMORY_END,
    ensures
        k.root_pa == page_ceil(ekernel as int),
        k.satp == satp_word(k.root_pa) as usize,
        k.frames.start == k.root_pa,
        k.frames.end == MEMORY_END,
        k.frames.next == k.root_pa + 4096 * (1 + kernel_map_tables()),
        table_wf(*final(mem), k.root_pa, k.frames),
        forall|vb: usize| #[trigger]
            translation(*final(mem), k.root_pa, vb) == run_translation(
                MEMORY_START,
                MEMORY_START,
                dram_pages(),
                KERNEL_PTE_FLAGS,
                vb,
            ),
        forall|a: usize|
            !(k.root_pa <= a < k.frames.next) ==> #[trigger] final(mem).word(a) == old(mem).word(a),
{
    let free_start = align_up(ekernel, PAGE_SIZE);
    let mut frames = frame::init(free_start, MEMORY_END);
    let root_pa = match alloc_frame(&mut frames, mem) {
        Some(p) => p,
        None => {
            proof {
                assert(false);
            }
            0
        },
    };
    zero_table(mem, root_pa);
    let ghost m1 = *mem;
    proof {
        lemma_fresh_table(*mem, root_pa, frames);
        assert(pagetable::l1_set(*mem, root_pa) =~= Set::empty());
        assert(pagetable::l0_set(*mem, root_pa) =~= Set::empty());
        assert(range_start(MEMORY_START) == MEMORY_START);
        assert(range_pages(MEMORY_START, (MEMORY_END - MEMORY_START) as usize) == dram_pages());
    }
    map_range(
        mem,
        &mut frames,
        root_pa,
        MEMORY_START,
        MEMORY_START,
        MEMORY_END - MEMORY_START,
        PTE_V | PTE_R | PTE_W | PTE_X | PTE_A | PTE_D,
    );
    proof {
        assert(KERNEL_PTE_FLAGS == 0xcf) by (bit_vector);
        assert(0xcfu64 & PTE_V != 0 && 0xcfu64 & 0xe != 0) by (bit_vector);
        assert forall|vb: usize| #[trigger]
            translation(*mem, root_pa, vb) == run_translation(
                MEMORY_START,
                MEMORY_START,
                dram_pages(),
                KERNEL_PTE_FLAGS,
                vb,
            ) by {
            lemma_range_translation_run(
                m1,
                root_pa,
                MEMORY_START,
                MEMORY_START,
                dram_pages(),
                KERNEL_PTE_FLAGS,
                vb,
            );
        }
    }
    let satp = make_satp(root_pa);
    KernelSpace { frames, root_pa, satp }
}

} // verus!
