//! Word-granular access to a block's raw byte arena.
//!
//! Every metadata field of the allocator (sentinels, free-list links, sizes,
//! the back-offset before a usable span) is one little-endian 64-bit word
//! stored directly in the managed bytes.

use vstd::prelude::*;
use vstd::arithmetic::div_mod::lemma_fundamental_div_mod;

verus! {

/// The 64-bit word encoded in little-endian order at byte offset `i`.
/// Opaque: callers see words only through the contracts of the accessors and
/// the frame lemma below.
#[verifier::opaque]
pub open spec fn word_at(m: Seq<u8>, i: int) -> int {
    m[i] as int + m[i + 1] as int * 0x100 + m[i + 2] as int * 0x1_0000 + m[i + 3] as int
        * 0x100_0000 + m[i + 4] as int * 0x1_0000_0000 + m[i + 5] as int * 0x100_0000_0000 + m[i
        + 6] as int * 0x1_0000_0000_0000 + m[i + 7] as int * 0x100_0000_0000_0000
}

/// A word decode depends only on the eight bytes it covers.
pub proof fn lemma_word_frame(m1: Seq<u8>, m2: Seq<u8>, i: int)
    requires
        0 <= i,
        i + 8 <= m1.len(),
        m1.len() == m2.len(),
        forall|j: int| i <= j < i + 8 ==> m2[j] == m1[j],
    ensures
        word_at(m2, i) == word_at(m1, i),
{
    reveal(word_at);
}

/// Reads the little-endian word at byte offset `i`.
pub fn read_word(mem: &Vec<u8>, i: usize) -> (r: u64)
    requires
        i + 8 <= mem@.len(),
    ensures
        r as int == word_at(mem@, i as int),
{
    proof {
        reveal(word_at);
    }
    let n: usize = mem.len();
    mem[i] as u64 + (mem[i + 1] as u64) * 0x100 + (mem[i + 2] as u64) * 0x1_0000 + (mem[i
        + 3] as u64) * 0x100_0000 + (mem[i + 4] as u64) * 0x1_0000_0000 + (mem[i + 5] as u64)
        * 0x100_0000_0000 + (mem[i + 6] as u64) * 0x1_0000_0000_0000 + (mem[i + 7] as u64)
        * 0x100_0000_0000_0000
}

/// Reads the word at byte offset `i` as a `usize`; the caller knows from the
/// block invariant that the stored value fits.
pub fn read_word_usize(mem: &Vec<u8>, i: usize) -> (r: usize)
    requires
        i + 8 <= mem@.len(),
        word_at(mem@, i as int) <= usize::MAX,
    ensures
        r == word_at(mem@, i as int),
{
    let w = read_word(mem, i);
    w as usize
}

/// Writes `v` as a little-endian word at byte offset `i`; no other byte
/// changes.
pub fn write_word(mem: &mut Vec<u8>, i: usize, v: u64)
    requires
        i + 8 <= old(mem)@.len(),
    ensures
        final(mem)@.len() == old(mem)@.len(),
        word_at(final(mem)@, i as int) == v as int,
        forall|j: int|
            0 <= j < old(mem)@.len() && !(i <= j < i + 8) ==> final(mem)@[j] == old(mem)@[j],
{
    proof {
        reveal(word_at);
    }
    let n: usize = mem.len();
    let t0: u64 = v;
    let t1: u64 = t0 / 0x100;
    let t2: u64 = t1 / 0x100;
    let t3: u64 = t2 / 0x100;
    let t4: u64 = t3 / 0x100;
    let t5: u64 = t4 / 0x100;
    let t6: u64 = t5 / 0x100;
    let t7: u64 = t6 / 0x100;
    mem[i] = (t0 % 0x100) as u8;
    mem[i + 1] = (t1 % 0x100) as u8;
    mem[i + 2] = (t2 % 0x100) as u8;
    mem[i + 3] = (t3 % 0x100) as u8;
    mem[i + 4] = (t4 % 0x100) as u8;
    mem[i + 5] = (t5 % 0x100) as u8;
    mem[i + 6] = (t6 % 0x100) as u8;
    mem[i + 7] = (t7 % 0x100) as u8;
    proof {
        lemma_fundamental_div_mod(t0 as int, 0x100);
        lemma_fundamental_div_mod(t1 as int, 0x100);
        lemma_fundamental_div_mod(t2 as int, 0x100);
        lemma_fundamental_div_mod(t3 as int, 0x100);
        lemma_fundamental_div_mod(t4 as int, 0x100);
        lemma_fundamental_div_mod(t5 as int, 0x100);
        lemma_fundamental_div_mod(t6 as int, 0x100);
        assert(t7 < 0x100);
        vstd::arithmetic::div_mod::lemma_small_mod(t7 as nat, 0x100);
    }
}

/// Writes the word at byte offset `i` from a `usize` value.
pub fn write_word_usize(mem: &mut Vec<u8>, i: usize, v: usize)
    requires
        i + 8 <= old(mem)@.len(),
    ensures
        final(mem)@.len() == old(mem)@.len(),
        word_at(final(mem)@, i as int) == v,
        forall|j: int|
            0 <= j < old(mem)@.len() && !(i <= j < i + 8) ==> final(mem)@[j] == old(mem)@[j],
{
    write_word(mem, i, v as u64)
}

} // verus!
