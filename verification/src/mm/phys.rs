//! Physical memory, seen as 64-bit little-endian words at 8-aligned addresses.
//!
//! The kernel reaches physical memory directly (the page tables, the frames it
//! zeroes and the user pages it copies from and to). The logic here is written
//! against the `PhysMemory` trait; `PhysMem` is an implementation that keeps the
//! words in a map, in which a word never written reads as zero.
use std::collections::HashMap;
use vstd::prelude::*;

verus! {

broadcast use vstd::std_specs::hash::group_hash_axioms;

/// The contents of memory: a 64-bit word at each 8-aligned address.
pub trait MemoryView {
    /// The word stored at the 8-aligned address `addr`.
    spec fn word(&self, addr: usize) -> u64;
}

/// A state of memory given by its words.
#[verifier::ext_equal]
pub ghost struct Words {
    pub f: spec_fn(usize) -> u64,
}

impl MemoryView for Words {
    open spec fn word(&self, addr: usize) -> u64 {
        (self.f)(addr)
    }
}

/// The words of `m`.
pub open spec fn words_of<M: MemoryView>(m: M) -> Words {
    Words { f: |a: usize| m.word(a) }
}

/// Word-addressed physical memory that can be read and written.
pub trait PhysMemory: MemoryView {

    /// Reads the word at `addr`.
    fn read_word(&self, addr: usize) -> (r: u64)
        requires
            addr % 8 == 0,
        ensures
            r == self.word(addr),
    ;

    /// Stores `value` at `addr`; every other word keeps its value.
    fn write_word(&mut self, addr: usize, value: u64)
        requires
            addr % 8 == 0,
        ensures
            final(self).word(addr) == value,
            forall|a: usize| a != addr ==> #[trigger] final(self).word(a) == old(self).word(a),
    ;
}

/// Memory in which every word not yet written holds zero.
pub struct PhysMem {
    words: HashMap<usize, u64>,
}

impl PhysMem {
    /// The stored words.
    pub closed spec fn stored(&self) -> Map<usize, u64> {
        self.words@
    }

    /// Memory that holds zero everywhere.
    pub fn new() -> (m: Self)
        ensures
            forall|a: usize| #[trigger] m.word(a) == 0,
    {
        PhysMem { words: HashMap::new() }
    }
}

impl MemoryView for PhysMem {
    closed spec fn word(&self, addr: usize) -> u64 {
        if self.words@.contains_key(addr) {
            self.words@[addr]
        } else {
            0
        }
    }
}

impl PhysMemory for PhysMem {
    fn read_word(&self, addr: usize) -> (r: u64) {
        match self.words.get(&addr) {
            Some(v) => *v,
            None => 0,
        }
    }

    fn write_word(&mut self, addr: usize, value: u64) {
        self.words.insert(addr, value);
    }
}

/// The address of the word that holds the byte at `pa`.
pub open spec fn word_base(pa: usize) -> usize {
    pa & !7usize
}

/// The bit position of the byte at `pa` inside its word.
pub open spec fn byte_shift(pa: usize) -> u64 {
    (((pa & 7usize) as u64) * 8) as u64
}

/// The byte at physical address `pa` (memory is little-endian).
pub open spec fn byte_at<M: MemoryView>(m: M, pa: usize) -> u8 {
    ((m.word(word_base(pa)) >> byte_shift(pa)) & 0xff) as u8
}

/// `w` with the byte at bit position `shift` replaced by `b`.
pub open spec fn put_byte(w: u64, shift: u64, b: u8) -> u64 {
    (w & !(0xffu64 << shift)) | ((b as u64) << shift)
}

proof fn lemma_put_byte(w: u64, i: u64, j: u64, b: u8)
    requires
        i < 8,
        j < 8,
    ensures
        (put_byte(w, (i * 8) as u64, b) >> ((j * 8) as u64)) & 0xff == if i == j {
            b as u64
        } else {
            (w >> ((j * 8) as u64)) & 0xff
        },
{
    let bb = b as u64;
    assert(bb < 256 && i < 8 && j < 8 ==> ((((w & !(0xffu64 << (i * 8))) | (bb << (i * 8))) >> (j
        * 8)) & 0xff) == if i == j {
        bb
    } else {
        (w >> (j * 8)) & 0xff
    }) by (bit_vector);
}

/// The word that holds a byte is 8-aligned.
pub proof fn lemma_word_base_aligned(pa: usize)
    ensures
        word_base(pa) % 8 == 0,
{
    lemma_word_base(pa);
}

proof fn lemma_word_base(pa: usize)
    ensures
        word_base(pa) % 8 == 0,
        word_base(pa) <= pa,
        pa - word_base(pa) == pa & 7usize,
        pa & 7usize < 8,
{
    assert((pa & !7usize) % 8 == 0) by (bit_vector);
    assert((pa & !7usize) <= pa) by (bit_vector);
    assert(pa - (pa & !7usize) == pa & 7usize) by (bit_vector);
    assert(pa & 7usize < 8) by (bit_vector);
}

/// Two byte addresses in the same word differ exactly when their positions in it differ.
proof fn lemma_same_word(p: usize, q: usize)
    requires
        word_base(p) == word_base(q),
    ensures
        p != q ==> p & 7usize != q & 7usize,
{
    assert((p & !7usize) == (q & !7usize) && p != q ==> p & 7usize != q & 7usize) by (bit_vector);
}

/// Replacing the byte at `pa` in its word, and no other word, changes that byte only.
pub proof fn lemma_put_byte_effect<M1: MemoryView, M2: MemoryView>(m0: M1, m1: M2, pa: usize, b: u8)
    requires
        m1.word(word_base(pa)) == put_byte(m0.word(word_base(pa)), byte_shift(pa), b),
        forall|a: usize| a != word_base(pa) ==> #[trigger] m1.word(a) == m0.word(a),
    ensures
        byte_at(m1, pa) == b,
        forall|q: usize| q != pa ==> #[trigger] byte_at(m1, q) == byte_at(m0, q),
{
    lemma_word_base(pa);
    let w = m0.word(word_base(pa));
    let i = (pa & 7usize) as u64;
    lemma_put_byte(w, i, i, b);
    assert forall|q: usize| q != pa implies #[trigger] byte_at(m1, q) == byte_at(m0, q) by {
        if word_base(q) == word_base(pa) {
            lemma_word_base(q);
            lemma_same_word(pa, q);
            lemma_put_byte(w, i, (q & 7usize) as u64, b);
        }
    }
}

/// `m` with the byte at `pa` set to `b`.
pub open spec fn with_byte(m: Words, pa: usize, b: u8) -> Words {
    Words {
        f: |a: usize|
            if a == word_base(pa) {
                put_byte(m.word(a), byte_shift(pa), b)
            } else {
                m.word(a)
            },
    }
}

/// Setting a byte of `m` changes that byte only, and no word but the one holding it.
pub proof fn lemma_with_byte(m: Words, pa: usize, b: u8)
    ensures
        byte_at(with_byte(m, pa, b), pa) == b,
        forall|q: usize| q != pa ==> #[trigger] byte_at(with_byte(m, pa, b), q) == byte_at(m, q),
        forall|a: usize| a != word_base(pa) ==> #[trigger] with_byte(m, pa, b).word(a) == m.word(a),
{
    lemma_put_byte_effect(m, with_byte(m, pa, b), pa, b);
}

/// Reads the byte at physical address `pa`.
pub fn read_byte<M: PhysMemory>(mem: &M, pa: usize) -> (r: u8)
    ensures
        r == byte_at(*mem, pa),
{
    proof {
        lemma_word_base(pa);
    }
    let w = mem.read_word(pa & !7usize);
    let shift = ((pa & 7usize) as u64) * 8;
    ((w >> shift) & 0xff) as u8
}

/// Stores the byte `b` at physical address `pa`; every other byte keeps its value, and
/// so does every word but the one that holds `pa`.
pub fn write_byte<M: PhysMemory>(mem: &mut M, pa: usize, b: u8)
    ensures
        byte_at(*final(mem), pa) == b,
        final(mem).word(word_base(pa)) == put_byte(old(mem).word(word_base(pa)), byte_shift(pa), b),
        forall|q: usize| q != pa ==> #[trigger] byte_at(*final(mem), q) == byte_at(*old(mem), q),
        forall|a: usize| a != word_base(pa) ==> #[trigger] final(mem).word(a) == old(mem).word(a),
{
    proof {
        lemma_word_base(pa);
    }
    let base = pa & !7usize;
    let w = mem.read_word(base);
    let shift = ((pa & 7usize) as u64) * 8;
    let nw = (w & !(0xffu64 << shift)) | ((b as u64) << shift);
    mem.write_word(base, nw);
    proof {
        lemma_put_byte_effect(*old(mem), *mem, pa, b);
    }
}

/// Stores zero in every word of the page at the page-aligned address `pa`; every other
/// word keeps its value.
pub fn zero_page<M: PhysMemory>(mem: &mut M, pa: usize)
    requires
        pa % 4096 == 0,
        pa + 4096 <= usize::MAX,
    ensures
        forall|a: usize| pa <= a < pa + 4096 && a % 8 == 0 ==> #[trigger] final(mem).word(a) == 0,
        forall|a: usize| !(pa <= a < pa + 4096) ==> #[trigger] final(mem).word(a) == old(mem).word(a),
{
    let mut off: usize = 0;
    while off < 4096
        invariant
            pa % 4096 == 0,
            pa + 4096 <= usize::MAX,
            off <= 4096,
            off % 8 == 0,
            forall|a: usize| pa <= a < pa + off && a % 8 == 0 ==> #[trigger] mem.word(a) == 0,
            forall|a: usize| !(pa <= a < pa + off) ==> #[trigger] mem.word(a) == old(mem).word(a),
        decreases 4096 - off,
    {
        mem.write_word(pa + off, 0);
        off = off + 8;
    }
}

} // verus!
