//! Copies between kernel buffers and user memory, through the user's page table.
//!
//! Only pages mapped with U may be touched; a read needs R and a write needs W. A copy goes
//! page by page and stops at the first page that breaks the rule.
use super::frame::FrameAllocator;
use super::pagetable::{
    lemma_tables_kept, lemma_translation_in_page, lemma_words_of_translation, outside_tables,
    table_wf, translate, translation,
};
use super::phys::{
    byte_at, lemma_with_byte, read_byte, with_byte, word_base, words_of, write_byte, MemoryView,
    PhysMemory, Words,
};
use super::pte::{PTE_R, PTE_U, PTE_W};
use super::PAGE_SIZE;
use vstd::prelude::*;

verus! {

fn min(a: usize, b: usize) -> (r: usize)
    ensures
        r == if a < b {
            a
        } else {
            b
        },
{
    if a < b {
        a
    } else {
        b
    }
}

/// `a + b`, wrapping around the address space.
pub open spec fn wrap_add(a: usize, b: int) -> usize {
    if a + b > usize::MAX {
        (a + b - (usize::MAX + 1)) as usize
    } else {
        (a + b) as usize
    }
}

/// The physical address of the user byte at `va` when its page is mapped with U and R.
pub open spec fn user_read_pa<M: MemoryView>(m: M, root: usize, va: usize) -> Option<usize> {
    match translation(m, root, va) {
        Some((pa, fl)) => if fl & PTE_U != 0 && fl & PTE_R != 0 {
            Some(pa)
        } else {
            None
        },
        None => None,
    }
}

/// The user byte at `va`, read through the page table.
pub open spec fn user_byte<M: MemoryView>(m: M, root: usize, va: usize) -> u8 {
    byte_at(m, user_read_pa(m, root, va)->Some_0)
}

/// Copies the `dst.len()` user bytes from `src_va` on into `dst`.
///
/// Succeeds exactly when every byte's page is mapped with U and R. Otherwise the bytes
/// before the first one that is not are copied, and the rest of `dst` is left as it was.
pub fn copy_from_user<M: PhysMemory>(mem: &M, root_pa: usize, dst: &mut [u8], src_va: usize) -> (r:
    Result<(), ()>)
    requires
        root_pa % 8 == 0,
    ensures
        final(dst)@.len() == old(dst)@.len(),
        r is Ok <==> forall|i: int|
            0 <= i < old(dst)@.len() ==> #[trigger] user_read_pa(*mem, root_pa, wrap_add(src_va, i))
                is Some,
        r is Ok ==> forall|i: int|
            0 <= i < old(dst)@.len() ==> #[trigger] final(dst)@[i] == user_byte(
                *mem,
                root_pa,
                wrap_add(src_va, i),
            ),
        r is Err ==> exists|k: int|
            0 <= k < old(dst)@.len() && user_read_pa(*mem, root_pa, wrap_add(src_va, k)) is None
                && (forall|i: int|
                0 <= i < k ==> #[trigger] user_read_pa(*mem, root_pa, wrap_add(src_va, i)) is Some
                    && final(dst)@[i] == user_byte(*mem, root_pa, wrap_add(src_va, i))) && (forall|
                i: int,
            |
                k <= i < old(dst)@.len() ==> #[trigger] final(dst)@[i] == old(dst)@[i]),
{
    let len = dst.len();
    let mut off: usize = 0;
    while off < len
        invariant
            root_pa % 8 == 0,
            len == old(dst)@.len(),
            dst@.len() == len,
            off <= len,
            forall|i: int|
                0 <= i < off ==> #[trigger] user_read_pa(*mem, root_pa, wrap_add(src_va, i)) is Some
                    && dst@[i] == user_byte(*mem, root_pa, wrap_add(src_va, i)),
            forall|i: int| off <= i < len ==> #[trigger] dst@[i] == old(dst)@[i],
        decreases len - off,
    {
        let va = src_va.wrapping_add(off);
        let (pa, flags) = match translate(mem, root_pa, va) {
            Some(t) => t,
            None => {
                assert(user_read_pa(*mem, root_pa, wrap_add(src_va, off as int)) is None);
                return Err(());
            },
        };
        if (flags & PTE_U) == 0 || (flags & PTE_R) == 0 {
            assert(user_read_pa(*mem, root_pa, wrap_add(src_va, off as int)) is None);
            return Err(());
        }
        let page_off = va & (PAGE_SIZE - 1);
        assert(page_off == va % 4096) by (bit_vector)
            requires
                page_off == va & 4095usize,
        ;
        let n = min(PAGE_SIZE - page_off, len - off);
        proof {
            lemma_translation_in_page(*mem, root_pa, va, 0);
        }
        let mut j: usize = 0;
        while j < n
            invariant
                root_pa % 8 == 0,
                len == old(dst)@.len(),
                dst@.len() == len,
                off + n <= len,
                page_off + n <= 4096,
                va == wrap_add(src_va, off as int),
                page_off == va % 4096,
                translation(*mem, root_pa, va) == Some((pa, flags)),
                flags & PTE_U != 0 && flags & PTE_R != 0,
                pa + (4096 - page_off) <= usize::MAX + 1,
                j <= n,
                forall|i: int|
                    0 <= i < off + j ==> #[trigger] user_read_pa(*mem, root_pa, wrap_add(src_va, i))
                        is Some && dst@[i] == user_byte(*mem, root_pa, wrap_add(src_va, i)),
                forall|i: int| off + j <= i < len ==> #[trigger] dst@[i] == old(dst)@[i],
            decreases n - j,
        {
            proof {
                lemma_translation_in_page(*mem, root_pa, va, j);
                assert(wrap_add(src_va, (off + j) as int) == (va + j) as usize);
            }
            let b = read_byte(mem, pa + j);
            dst[off + j] = b;
            j = j + 1;
        }
        off = off + n;
    }
    Ok(())
}


/// The physical address of the user byte at `va` when its page is mapped with U and W.
pub open spec fn user_write_pa<M: MemoryView>(m: M, root: usize, va: usize) -> Option<usize> {
    match translation(m, root, va) {
        Some((pa, fl)) => if fl & PTE_U != 0 && fl & PTE_W != 0 {
            Some(pa)
        } else {
            None
        },
        None => None,
    }
}

/// `m` with `src[from + i]` stored at `pa + i` for each `i < n`, in increasing order.
pub open spec fn with_bytes(m: Words, pa: usize, src: Seq<u8>, from: int, n: nat) -> Words
    decreases n,
{
    if n == 0 {
        m
    } else {
        with_byte(
            with_bytes(m, pa, src, from, (n - 1) as nat),
            (pa + n - 1) as usize,
            src[from + n - 1],
        )
    }
}

/// How many bytes a copy moves at `va` with `remaining` bytes left: up to the end of the
/// page of `va`.
pub open spec fn chunk_len(va: usize, remaining: int) -> int {
    if 4096 - va % 4096 < remaining {
        4096 - va % 4096
    } else {
        remaining
    }
}

/// Copying `src[off..]` to the user pages from `dst_va + off` on, one page at a time, each
/// page translated in memory as the copy has left it so far: the memory afterwards, and
/// whether every page was mapped with U and W.
pub open spec fn copy_out(m: Words, root: usize, dst_va: usize, src: Seq<u8>, off: int) -> (
    Words,
    bool,
)
    decreases src.len() - off,
{
    if off < 0 || off >= src.len() {
        (m, true)
    } else {
        let va = wrap_add(dst_va, off);
        match user_write_pa(m, root, va) {
            None => (m, false),
            Some(pa) => {
                let n = chunk_len(va, src.len() - off);
                copy_out(with_bytes(m, pa, src, off, n as nat), root, dst_va, src, off + n)
            },
        }
    }
}

/// Copies `src` into user memory from `dst_va` on, page by page.
///
/// Each page is translated when the copy reaches it; the copy stops with `Err` at the first
/// page not mapped with U and W, after the bytes before it have been written. The memory
/// afterwards and the result are those of `copy_out`.
pub fn copy_to_user<M: PhysMemory>(mem: &mut M, root_pa: usize, dst_va: usize, src: &[u8]) -> (r:
    Result<(), ()>)
    requires
        root_pa % 8 == 0,
    ensures
        (r is Ok) == copy_out(words_of(*old(mem)), root_pa, dst_va, src@, 0).1,
        forall|a: usize| #[trigger]
            final(mem).word(a) == copy_out(words_of(*old(mem)), root_pa, dst_va, src@, 0).0.word(a),
{
    let ghost goal = copy_out(words_of(*old(mem)), root_pa, dst_va, src@, 0);
    let len = src.len();
    let mut off: usize = 0;
    while off < len
        invariant
            root_pa % 8 == 0,
            len == src@.len(),
            off <= len,
            copy_out(words_of(*mem), root_pa, dst_va, src@, off as int) == goal,
            goal == copy_out(words_of(*old(mem)), root_pa, dst_va, src@, 0),
        decreases len - off,
    {
        let va = dst_va.wrapping_add(off);
        proof {
            lemma_words_of_translation(*mem, root_pa, va);
        }
        assert(va == wrap_add(dst_va, off as int));
        let (pa, flags) = match translate(mem, root_pa, va) {
            Some(t) => t,
            None => {
                assert(user_write_pa(words_of(*mem), root_pa, va) is None);
                assert(copy_out(words_of(*mem), root_pa, dst_va, src@, off as int) == (
                words_of(*mem), false));
                return Err(());
            },
        };
        if (flags & PTE_U) == 0 || (flags & PTE_W) == 0 {
            assert(user_write_pa(words_of(*mem), root_pa, va) is None);
            return Err(());
        }
        let page_off = va & (PAGE_SIZE - 1);
        assert(page_off == va % 4096) by (bit_vector)
            requires
                page_off == va & 4095usize,
        ;
        let n = min(PAGE_SIZE - page_off, len - off);
        proof {
            lemma_translation_in_page(*mem, root_pa, va, 0);
        }
        let ghost m0 = words_of(*mem);
        let mut j: usize = 0;
        while j < n
            invariant
                len == src@.len(),
                off + n <= len,
                page_off + n <= 4096,
                pa + (4096 - page_off) <= usize::MAX + 1,
                j <= n,
                words_of(*mem) == with_bytes(m0, pa, src@, off as int, j as nat),
            decreases n - j,
        {
            let b = src[off + j];
            let ghost before = words_of(*mem);
            write_byte(mem, pa + j, b);
            proof {
                assert(words_of(*mem) =~= with_byte(before, (pa + j) as usize, b));
            }
            j = j + 1;
        }
        off = off + n;
    }
    Ok(())
}


/// Storing `src[from..from + n]` at `pa..pa + n` sets those bytes, keeps every other byte, and
/// changes no word but the ones holding those bytes.
pub proof fn lemma_with_bytes(m: Words, pa: usize, src: Seq<u8>, from: int, n: nat)
    requires
        pa + n <= usize::MAX + 1,
        0 <= from,
        from + n <= src.len(),
    ensures
        forall|k: int| 0 <= k < n ==> #[trigger] byte_at(with_bytes(m, pa, src, from, n), (pa + k) as usize)
            == src[from + k],
        forall|q: usize| !(pa <= q < pa + n) ==> #[trigger] byte_at(with_bytes(m, pa, src, from, n), q)
            == byte_at(m, q),
        forall|a: usize|
            (forall|k: int| 0 <= k < n ==> a != #[trigger] word_base((pa + k) as usize)) ==> #[trigger] with_bytes(
                m,
                pa,
                src,
                from,
                n,
            ).word(a) == m.word(a),
    decreases n,
{
    if n > 0 {
        let k0 = (n - 1) as nat;
        lemma_with_bytes(m, pa, src, from, k0);
        let prev = with_bytes(m, pa, src, from, k0);
        let p = (pa + k0) as usize;
        lemma_with_byte(prev, p, src[from + k0]);
        let cur = with_bytes(m, pa, src, from, n);
        assert(cur == with_byte(prev, p, src[from + k0]));
        assert forall|a: usize|
            (forall|k: int| 0 <= k < n ==> a != #[trigger] word_base((pa + k) as usize)) implies #[trigger] cur.word(
            a,
        ) == m.word(a) by {
            assert(a != word_base((pa + k0) as usize));
        }
    }
}

/// The physical address that byte `i` of a copy to `dst_va` is written to.
pub open spec fn copy_target<M: MemoryView>(m: M, root: usize, dst_va: usize, i: int) -> usize {
    user_write_pa(m, root, wrap_add(dst_va, i))->Some_0
}

/// The conditions under which copying `len` bytes to `dst_va` is a plain store: every byte
/// lies in a page mapped with U and W, the bytes go to distinct physical bytes, and none of
/// them lies in a word of the page table.
pub open spec fn plain_user_store<M: MemoryView>(
    m: M,
    root: usize,
    fa: FrameAllocator,
    dst_va: usize,
    len: int,
) -> bool {
    &&& table_wf(m, root, fa)
    &&& forall|i: int|
        0 <= i < len ==> #[trigger] user_write_pa(m, root, wrap_add(dst_va, i)) is Some
    &&& forall|i: int|
        0 <= i < len ==> outside_tables(m, root, word_base(#[trigger] copy_target(m, root, dst_va, i)))
    &&& forall|i: int, j: int|
        0 <= i < len && 0 <= j < len && i != j ==> #[trigger] copy_target(m, root, dst_va, i)
            != #[trigger] copy_target(m, root, dst_va, j)
}

/// A plain store to bytes that the user can also read back: every page is mapped with U, R
/// and W.
pub open spec fn plain_user_copy<M: MemoryView>(
    m: M,
    root: usize,
    fa: FrameAllocator,
    dst_va: usize,
    len: int,
) -> bool {
    &&& plain_user_store(m, root, fa, dst_va, len)
    &&& forall|i: int|
        0 <= i < len ==> #[trigger] user_read_pa(m, root, wrap_add(dst_va, i)) is Some
}

proof fn lemma_copy_out_from<M: MemoryView>(
    m0: M,
    m: Words,
    root: usize,
    fa: FrameAllocator,
    dst_va: usize,
    src: Seq<u8>,
    off: int,
)
    requires
        plain_user_store(m0, root, fa, dst_va, src.len() as int),
        src.len() <= usize::MAX,
        0 <= off <= src.len(),
        forall|a: usize| !outside_tables(m0, root, a) ==> #[trigger] m.word(a) == m0.word(a),
        forall|i: int|
            0 <= i < off ==> #[trigger] byte_at(m, copy_target(m0, root, dst_va, i)) == src[i],
    ensures
        copy_out(m, root, dst_va, src, off).1,
        forall|i: int|
            0 <= i < src.len() ==> #[trigger] byte_at(
                copy_out(m, root, dst_va, src, off).0,
                copy_target(m0, root, dst_va, i),
            ) == src[i],
        forall|a: usize|
            !outside_tables(m0, root, a) ==> #[trigger] copy_out(m, root, dst_va, src, off).0.word(a)
                == m0.word(a),
    decreases src.len() - off,
{
    if off < src.len() {
        let va = wrap_add(dst_va, off);
        lemma_tables_kept(m0, m, root, fa);
        assert(user_write_pa(m0, root, va) is Some);
        let pa = copy_target(m0, root, dst_va, off);
        assert(user_write_pa(m, root, va) == Some(pa));
        let n = chunk_len(va, src.len() - off);
        lemma_translation_in_page(m0, root, va, 0);
        assert forall|k: int| 0 <= k < n implies #[trigger] copy_target(m0, root, dst_va, off + k)
            == (pa + k) as usize by {
            lemma_translation_in_page(m0, root, va, k as usize);
            assert(va + k <= usize::MAX);
            if dst_va + off > usize::MAX {
                assert(va == dst_va + off - (usize::MAX + 1));
            } else {
                assert(va == dst_va + off);
            }
            assert(wrap_add(dst_va, off + k) == (va + k) as usize);
        }
        lemma_with_bytes(m, pa, src, off, n as nat);
        let m1 = with_bytes(m, pa, src, off, n as nat);
        assert forall|a: usize| !outside_tables(m0, root, a) implies #[trigger] m1.word(a) == m0.word(
            a,
        ) by {
            assert forall|k: int| 0 <= k < n implies a != #[trigger] word_base((pa + k) as usize) by {
                assert(copy_target(m0, root, dst_va, off + k) == (pa + k) as usize);
                assert(outside_tables(m0, root, word_base(copy_target(m0, root, dst_va, off + k))));
            }
        }
        assert forall|i: int| 0 <= i < off + n implies #[trigger] byte_at(
            m1,
            copy_target(m0, root, dst_va, i),
        ) == src[i] by {
            if i < off {
                let t = copy_target(m0, root, dst_va, i);
                if pa <= t < pa + n {
                    let k = t - pa;
                    assert(copy_target(m0, root, dst_va, off + k) == t);
                    assert(false);
                }
            } else {
                let k = i - off;
                assert(copy_target(m0, root, dst_va, off + k) == (pa + k) as usize);
            }
        }
        lemma_copy_out_from(m0, m1, root, fa, dst_va, src, off + n);
    }
}

proof fn lemma_copy_out_ok<M: MemoryView>(
    m0: M,
    m: Words,
    root: usize,
    fa: FrameAllocator,
    dst_va: usize,
    src: Seq<u8>,
    off: int,
)
    requires
        table_wf(m0, root, fa),
        src.len() <= usize::MAX,
        0 <= off <= src.len(),
        forall|i: int|
            0 <= i < src.len() && #[trigger] user_write_pa(m0, root, wrap_add(dst_va, i)) is Some
                ==> outside_tables(m0, root, word_base(copy_target(m0, root, dst_va, i))),
        forall|a: usize| !outside_tables(m0, root, a) ==> #[trigger] m.word(a) == m0.word(a),
    ensures
        copy_out(m, root, dst_va, src, off).1 <==> forall|i: int|
            off <= i < src.len() ==> #[trigger] user_write_pa(m0, root, wrap_add(dst_va, i)) is Some,
    decreases src.len() - off,
{
    if off < src.len() {
        let va = wrap_add(dst_va, off);
        lemma_tables_kept(m0, m, root, fa);
        assert(user_write_pa(m, root, va) == user_write_pa(m0, root, va));
        if user_write_pa(m0, root, va) is Some {
            let pa = copy_target(m0, root, dst_va, off);
            let n = chunk_len(va, src.len() - off);
            lemma_translation_in_page(m0, root, va, 0);
            assert forall|k: int| 0 <= k < n implies #[trigger] copy_target(m0, root, dst_va, off + k)
                == (pa + k) as usize && user_write_pa(m0, root, wrap_add(dst_va, off + k)) is Some by {
                lemma_translation_in_page(m0, root, va, k as usize);
                assert(va + k <= usize::MAX);
                if dst_va + off > usize::MAX {
                    assert(va == dst_va + off - (usize::MAX + 1));
                } else {
                    assert(va == dst_va + off);
                }
                assert(wrap_add(dst_va, off + k) == (va + k) as usize);
            }
            lemma_with_bytes(m, pa, src, off, n as nat);
            let m1 = with_bytes(m, pa, src, off, n as nat);
            assert forall|a: usize| !outside_tables(m0, root, a) implies #[trigger] m1.word(a)
                == m0.word(a) by {
                assert forall|k: int| 0 <= k < n implies a != #[trigger] word_base(
                    (pa + k) as usize,
                ) by {
                    assert(copy_target(m0, root, dst_va, off + k) == (pa + k) as usize);
                    assert(user_write_pa(m0, root, wrap_add(dst_va, off + k)) is Some);
                    assert(outside_tables(
                        m0,
                        root,
                        word_base(copy_target(m0, root, dst_va, off + k)),
                    ));
                }
            }
            lemma_copy_out_ok(m0, m1, root, fa, dst_va, src, off + n);
            if forall|i: int|
                off + n <= i < src.len() ==> #[trigger] user_write_pa(
                    m0,
                    root,
                    wrap_add(dst_va, i),
                ) is Some {
                assert forall|i: int| off <= i < src.len() implies #[trigger] user_write_pa(
                    m0,
                    root,
                    wrap_add(dst_va, i),
                ) is Some by {
                    if i < off + n {
                        let k = i - off;
                        assert(copy_target(m0, root, dst_va, off + k) == (pa + k) as usize);
                        assert(off + k == i);
                    }
                }
            }
        } else {
            assert(!(user_write_pa(m0, root, wrap_add(dst_va, off)) is Some));
        }
    }
}

proof fn lemma_copy_out_keeps<M: MemoryView>(
    m0: M,
    m: Words,
    root: usize,
    fa: FrameAllocator,
    dst_va: usize,
    src: Seq<u8>,
    off: int,
    q: usize,
)
    requires
        table_wf(m0, root, fa),
        src.len() <= usize::MAX,
        0 <= off <= src.len(),
        forall|i: int|
            0 <= i < src.len() && #[trigger] user_write_pa(m0, root, wrap_add(dst_va, i)) is Some
                ==> outside_tables(m0, root, word_base(copy_target(m0, root, dst_va, i))),
        forall|a: usize| !outside_tables(m0, root, a) ==> #[trigger] m.word(a) == m0.word(a),
        forall|i: int|
            0 <= i < src.len() ==> #[trigger] user_write_pa(m0, root, wrap_add(dst_va, i)) != Some(q),
    ensures
        byte_at(copy_out(m, root, dst_va, src, off).0, q) == byte_at(m, q),
    decreases src.len() - off,
{
    if off < src.len() {
        let va = wrap_add(dst_va, off);
        lemma_tables_kept(m0, m, root, fa);
        assert(user_write_pa(m, root, va) == user_write_pa(m0, root, va));
        if user_write_pa(m0, root, va) is Some {
            let pa = copy_target(m0, root, dst_va, off);
            let n = chunk_len(va, src.len() - off);
            lemma_translation_in_page(m0, root, va, 0);
            assert forall|k: int| 0 <= k < n implies #[trigger] copy_target(m0, root, dst_va, off + k)
                == (pa + k) as usize && user_write_pa(m0, root, wrap_add(dst_va, off + k)) is Some by {
                lemma_translation_in_page(m0, root, va, k as usize);
                assert(va + k <= usize::MAX);
                if dst_va + off > usize::MAX {
                    assert(va == dst_va + off - (usize::MAX + 1));
                } else {
                    assert(va == dst_va + off);
                }
                assert(wrap_add(dst_va, off + k) == (va + k) as usize);
            }
            lemma_with_bytes(m, pa, src, off, n as nat);
            let m1 = with_bytes(m, pa, src, off, n as nat);
            assert forall|a: usize| !outside_tables(m0, root, a) implies #[trigger] m1.word(a)
                == m0.word(a) by {
                assert forall|k: int| 0 <= k < n implies a != #[trigger] word_base(
                    (pa + k) as usize,
                ) by {
                    assert(copy_target(m0, root, dst_va, off + k) == (pa + k) as usize);
                    assert(user_write_pa(m0, root, wrap_add(dst_va, off + k)) is Some);
                    assert(outside_tables(
                        m0,
                        root,
                        word_base(copy_target(m0, root, dst_va, off + k)),
                    ));
                }
            }
            if pa <= q < pa + n {
                let k = q - pa;
                assert(copy_target(m0, root, dst_va, off + k) == (pa + k) as usize);
                assert(user_write_pa(m0, root, wrap_add(dst_va, off + k)) != Some(q));
            }
            lemma_copy_out_keeps(m0, m1, root, fa, dst_va, src, off + n, q);
        }
    }
}

/// Copying `src` to user memory, when no byte that it may store lies in a word of the page
/// table, succeeds exactly when every byte lies in a page mapped with U and W (R is not
/// needed); when, besides, the bytes go to distinct physical bytes, each of them is stored.
/// Whether it succeeds or not, no physical byte that is not the target of one of the
/// copied bytes changes.
pub proof fn lemma_copy_to_user_result<M: MemoryView>(
    m0: M,
    root: usize,
    fa: FrameAllocator,
    dst_va: usize,
    src: Seq<u8>,
)
    requires
        table_wf(m0, root, fa),
        src.len() <= usize::MAX,
        forall|i: int|
            0 <= i < src.len() && #[trigger] user_write_pa(m0, root, wrap_add(dst_va, i)) is Some
                ==> outside_tables(m0, root, word_base(copy_target(m0, root, dst_va, i))),
    ensures
        copy_out(words_of(m0), root, dst_va, src, 0).1 <==> forall|i: int|
            0 <= i < src.len() ==> #[trigger] user_write_pa(m0, root, wrap_add(dst_va, i)) is Some,
        plain_user_store(m0, root, fa, dst_va, src.len() as int) ==> forall|i: int|
            0 <= i < src.len() ==> #[trigger] byte_at(
                copy_out(words_of(m0), root, dst_va, src, 0).0,
                copy_target(m0, root, dst_va, i),
            ) == src[i],
        forall|q: usize|
            (forall|i: int|
                0 <= i < src.len() ==> #[trigger] user_write_pa(m0, root, wrap_add(dst_va, i))
                    != Some(q)) ==> #[trigger] byte_at(
                copy_out(words_of(m0), root, dst_va, src, 0).0,
                q,
            ) == byte_at(m0, q),
{
    assert forall|q: usize|
        (forall|i: int|
            0 <= i < src.len() ==> #[trigger] user_write_pa(m0, root, wrap_add(dst_va, i))
                != Some(q)) implies #[trigger] byte_at(
        copy_out(words_of(m0), root, dst_va, src, 0).0,
        q,
    ) == byte_at(m0, q) by {
        lemma_copy_out_keeps(m0, words_of(m0), root, fa, dst_va, src, 0, q);
    }
    lemma_copy_out_ok(m0, words_of(m0), root, fa, dst_va, src, 0);
    if plain_user_store(m0, root, fa, dst_va, src.len() as int) {
        lemma_copy_out_from(m0, words_of(m0), root, fa, dst_va, src, 0);
    }
}

/// What a copy to user memory writes, a copy from user memory reads back: when every byte of
/// `[dst_va, dst_va + len)` lies in a page mapped with U, R and W, in distinct physical bytes
/// outside the page table, copying `src` there succeeds, and afterwards each of those user
/// bytes reads as the byte of `src` written to it.
pub proof fn lemma_copy_roundtrip<M: MemoryView>(
    m0: M,
    m1: M,
    root: usize,
    fa: FrameAllocator,
    dst_va: usize,
    src: Seq<u8>,
)
    requires
        plain_user_copy(m0, root, fa, dst_va, src.len() as int),
        src.len() <= usize::MAX,
        forall|a: usize| #[trigger]
            m1.word(a) == copy_out(words_of(m0), root, dst_va, src, 0).0.word(a),
    ensures
        copy_out(words_of(m0), root, dst_va, src, 0).1,
        forall|i: int|
            0 <= i < src.len() ==> #[trigger] user_read_pa(m1, root, wrap_add(dst_va, i)) is Some
                && user_byte(m1, root, wrap_add(dst_va, i)) == src[i],
{
    let w0 = words_of(m0);
    lemma_copy_out_from(m0, w0, root, fa, dst_va, src, 0);
    let w1 = copy_out(w0, root, dst_va, src, 0).0;
    lemma_tables_kept(m0, m1, root, fa);
    assert forall|i: int|
        0 <= i < src.len() implies #[trigger] user_read_pa(m1, root, wrap_add(dst_va, i)) is Some
        && user_byte(m1, root, wrap_add(dst_va, i)) == src[i] by {
        let t = copy_target(m0, root, dst_va, i);
        assert(user_read_pa(m0, root, wrap_add(dst_va, i)) is Some);
        assert(user_write_pa(m0, root, wrap_add(dst_va, i)) is Some);
        assert(translation(m1, root, wrap_add(dst_va, i)) == translation(m0, root, wrap_add(dst_va, i)));
        assert(user_read_pa(m1, root, wrap_add(dst_va, i)) == Some(t));
        assert(byte_at(w1, t) == src[i]);
        assert(m1.word(word_base(t)) == w1.word(word_base(t)));
    }
}

} // verus!
