//! Sv39 page table entry flags and encoding.
use vstd::prelude::*;

verus! {

/// Valid.
pub const PTE_V: u64 = 0x1;

/// Readable.
pub const PTE_R: u64 = 0x2;

/// Writable.
pub const PTE_W: u64 = 0x4;

/// Executable.
pub const PTE_X: u64 = 0x8;

/// Accessible from U-mode.
pub const PTE_U: u64 = 0x10;

/// Global mapping.
pub const PTE_G: u64 = 0x20;

/// Accessed.
pub const PTE_A: u64 = 0x40;

/// Dirty.
pub const PTE_D: u64 = 0x80;

/// Mask of the 44-bit physical page number field.
pub const PPN_MASK: u64 = 0xfff_ffff_ffff;

/// The entry's V bit is set.
pub open spec fn valid(pte: u64) -> bool {
    pte & PTE_V != 0
}

/// The entry maps a page (one of R, W, X is set) rather than pointing to a table.
pub open spec fn is_leaf(pte: u64) -> bool {
    pte & 0xe != 0
}

/// The physical page number stored in bits 10..54 of the entry.
pub open spec fn ppn_of(pte: u64) -> usize {
    ((pte >> 10u64) & PPN_MASK) as usize
}

/// The physical address that the entry points to (page number shifted to a byte address).
pub open spec fn target_of(pte: u64) -> usize {
    ppn_of(pte) << 12usize
}

/// The low ten bits of an entry: its flags and the two software bits.
pub open spec fn flags_of(pte: u64) -> u64 {
    pte & 0x3ff
}

/// The entry that `make_pte` builds.
pub open spec fn encode(pa: usize, flags: u64) -> u64 {
    (((pa >> 12usize) as u64) << 10u64) | flags
}

/// Whether the entry's V bit is set.
pub fn pte_is_valid(pte: u64) -> (r: bool)
    ensures
        r == valid(pte),
{
    (pte & PTE_V) != 0
}

/// The physical page number held in the entry.
pub fn pte_ppn(pte: u64) -> (r: usize)
    ensures
        r == ppn_of(pte),
{
    ((pte >> 10) & PPN_MASK) as usize
}

/// Builds an entry that points to the page holding `pa`, with `flags` in its low bits.
pub fn make_pte(pa: usize, flags: u64) -> (r: u64)
    ensures
        r == encode(pa, flags),
        flags < 0x400 ==> flags_of(r) == flags,
        flags < 0x400 && (pa as int) < 0x100_0000_0000_0000 ==> target_of(r) == pa - pa % 4096,
{
    let ppn = (pa >> 12) as u64;
    proof {
        lemma_encode_decode(pa, flags);
    }
    (ppn << 10) | flags
}

/// Decoding an entry built by `encode` gives back its flags and the page of its address.
pub proof fn lemma_encode_decode(pa: usize, flags: u64)
    ensures
        flags < 0x400 ==> flags_of(encode(pa, flags)) == flags,
        flags < 0x400 && (pa as int) < 0x100_0000_0000_0000 ==> target_of(encode(pa, flags)) == pa
            - pa % 4096,
{
    let ppn = (pa >> 12usize) as u64;
    let e = encode(pa, flags);
    assert(flags < 0x400 ==> ((ppn << 10u64) | flags) & 0x3ff == flags) by (bit_vector);
    if flags < 0x400 && (pa as int) < 0x100_0000_0000_0000 {
        assert(ppn == (pa >> 12usize) as u64);
        assert(((pa as u64) < 0x100_0000_0000_0000 && flags < 0x400 && ppn == (pa >> 12usize) as u64)
            ==> ((((ppn << 10u64) | flags) >> 10u64) & 0xfff_ffff_ffff) == ppn) by (bit_vector);
        assert((pa as u64) < 0x100_0000_0000_0000 ==> (((pa >> 12usize) as u64) as usize) << 12usize
            == pa - pa % 4096) by (bit_vector);
    }
}


/// An entry built by `make_pte` from an address below 2^56 and flags below 2^10 gives back
/// the address's page number, the flags, and is valid exactly when the flags hold V.
pub proof fn lemma_pte_roundtrip(pa: usize, flags: u64)
    requires
        flags < 0x400,
        (pa as int) < 0x100_0000_0000_0000,
    ensures
        ppn_of(encode(pa, flags)) == pa / 4096,
        flags_of(encode(pa, flags)) == flags,
        valid(encode(pa, flags)) == (flags & PTE_V != 0),
        target_of(encode(pa, flags)) == pa - pa % 4096,
{
    lemma_encode_decode(pa, flags);
    let ppn = (pa >> 12usize) as u64;
    assert(((pa as u64) < 0x100_0000_0000_0000 && flags < 0x400 && ppn == (pa >> 12usize) as u64)
        ==> (((((ppn << 10u64) | flags) >> 10u64) & 0xfff_ffff_ffff) as usize == pa / 4096 && ((
    ppn << 10u64) | flags) & 1 == flags & 1)) by (bit_vector);
}

} // verus!
