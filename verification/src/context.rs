//! The allocator context: the mapping table of acquired blocks and the
//! sizing policy, built lazily from the OS page size.
//!
//! Querying the page size is the host's concern: the host hands the raw
//! answer of the OS to `resolve_page_size` and builds the context from it.

use vstd::prelude::*;
use crate::block::{
    alloc_need, block_alloc, block_head_fits, block_new, block_wf, carve_result, carve_used_chunk,
    ff_idx, lemma_ff_idx, Chunk, MappedBlock,
};
use crate::layout::{compute_growth_increment, growth_of, lemma_pow2_ceil_from, pow2_ceil,
    pow2_ceil_spec, GROWTH_FLOOR, MIN_REGION_SIZE};
use vstd::arithmetic::div_mod::{lemma_fundamental_div_mod, lemma_mod_multiples_basic};
use vstd::arithmetic::power2::is_pow2;

verus! {

/// The process-wide freelist allocator: a growable table of mapped blocks
/// plus the sizing policy.
pub struct FreelistAllocator {
    /// The mapping table: every block acquired so far, in acquisition order.
    pub blocks: Vec<MappedBlock>,
    /// The OS page size the context was built with.
    pub page_size: usize,
    /// Minimum length of a newly mapped block.
    pub growth_increment: usize,
}

/// Well-formedness of the allocator: the sizing policy is sound and every
/// block in the table is well formed.
pub open spec fn context_wf(a: FreelistAllocator) -> bool {
    &&& 1 <= a.page_size <= 0x4000_0000
    &&& a.page_size % 8 == 0
    &&& a.growth_increment == growth_of(a.page_size as int)
    &&& a.growth_increment >= MIN_REGION_SIZE
    &&& a.growth_increment % 8 == 0
    &&& a.growth_increment <= usize::MAX / 2 + 1
    &&& forall|i: int| 0 <= i < a.blocks@.len() ==> block_wf(#[trigger] a.blocks@[i])
    &&& forall|i: int|
        0 <= i < a.blocks@.len() ==> (#[trigger] a.blocks@[i]).mem@.len() <= usize::MAX / 2 + 1
}

/// The growth increment inherits the page size's word alignment through the
/// doubling, and never shrinks below the page size.
pub proof fn lemma_growth_mod8(ps: int)
    requires
        1 <= ps,
        ps % 8 == 0,
    ensures
        growth_of(ps) % 8 == 0,
        growth_of(ps) >= ps,
        growth_of(ps) >= GROWTH_FLOOR || ps >= GROWTH_FLOOR,
        growth_of(ps) >= MIN_REGION_SIZE,
        growth_of(ps) <= 2 * GROWTH_FLOOR || growth_of(ps) == ps,
    decreases (if ps < GROWTH_FLOOR { GROWTH_FLOOR - ps } else { 0 }),
{
    if ps < GROWTH_FLOOR {
        assert((2 * ps) % 8 == 0) by {
            lemma_fundamental_div_mod(ps, 8);
            assert(2 * ps == (2 * (ps / 8)) * 8) by (nonlinear_arith)
                requires
                    ps == 8 * (ps / 8),
            ;
            lemma_mod_multiples_basic(2 * (ps / 8), 8);
        };
        lemma_growth_mod8(2 * ps);
    }
}

impl FreelistAllocator {
    /// Builds an empty context from a given page size: no blocks yet, and a
    /// growth increment of the smallest power-of-two multiple of the page
    /// size that reaches the floor.
    pub fn with_page_size(page_size: usize) -> (a: FreelistAllocator)
        requires
            1 <= page_size <= 0x4000_0000,
            page_size % 8 == 0,
        ensures
            context_wf(a),
            a.page_size == page_size,
            a.growth_increment == growth_of(page_size as int),
            a.blocks@.len() == 0,
    {
        proof {
            lemma_growth_mod8(page_size as int);
        }
        FreelistAllocator {
            blocks: Vec::new(),
            page_size,
            growth_increment: compute_growth_increment(page_size),
        }
    }

    /// Number of blocks acquired so far.
    pub fn block_count(&self) -> (r: usize)
        ensures
            r == self.blocks@.len(),
    {
        self.blocks.len()
    }

    /// Maps one more block of at least `min_size` bytes: its length is the
    /// growth increment, or the next power of two above `min_size` when that
    /// is larger. Fails only when that size cannot be represented.
    pub fn grow(&mut self, min_size: usize) -> (r: Option<usize>)
        requires
            context_wf(*old(self)),
        ensures
            context_wf(*final(self)),
            final(self).page_size == old(self).page_size,
            final(self).growth_increment == old(self).growth_increment,
            match r {
                None => {
                    &&& min_size > usize::MAX / 4 + 1
                    &&& *final(self) == *old(self)
                },
                Some(len) => {
                    &&& final(self).blocks@.len() == old(self).blocks@.len() + 1
                    &&& len as int == (if pow2_ceil_spec(min_size as int)
                        > old(self).growth_increment {
                        pow2_ceil_spec(min_size as int)
                    } else {
                        old(self).growth_increment as int
                    })
                    &&& final(self).blocks@[old(self).blocks@.len() as int].mem@.len() == len
                    &&& block_wf(final(self).blocks@[old(self).blocks@.len() as int])
                    &&& final(self).blocks@[old(self).blocks@.len() as int].chunks@ =~= seq![
                        Chunk { off: 0, size: len as int, free: true, ptr: 0, req: 0 },
                    ]
                    &&& forall|i: int|
                        0 <= i < old(self).blocks@.len() ==> final(self).blocks@[i] == old(
                            self,
                        ).blocks@[i]
                },
            },
    {
        let rounded = match pow2_ceil(min_size) {
            None => {
                return None;
            },
            Some(v) => v,
        };
        let len = if rounded > self.growth_increment {
            rounded
        } else {
            self.growth_increment
        };
        proof {
            if rounded > self.growth_increment {
                reveal_with_fuel(vstd::arithmetic::power2::is_pow2, 5);
                assert(is_pow2(8));
                crate::layout::lemma_pow2_divides(8, len as int);
            }
        }
        let b = block_new(len);
        self.blocks.push(b);
        proof {
            assert(forall|i: int|
                0 <= i < self.blocks@.len() - 1 ==> self.blocks@[i] == old(self).blocks@[i]);
        }
        Some(len)
    }

    /// Satisfies an allocation request: scans the mapping table in insertion
    /// order for the first block whose size hint admits the request and
    /// whose head free region holds it, and maps a new block when none does.
    /// Returns the block's index and the usable offset inside that block,
    /// aligned as requested; fails only when the request cannot be sized.
    #[verifier::rlimit(100)]
    #[verifier::spinoff_prover]
    pub fn allocate(&mut self, size: usize, align: usize) -> (r: Option<(usize, usize)>)
        requires
            context_wf(*old(self)),
            is_pow2(align as int),
            alloc_need(size as int, align as int) <= usize::MAX,
        ensures
            context_wf(*final(self)),
            final(self).page_size == old(self).page_size,
            final(self).growth_increment == old(self).growth_increment,
            old(self).blocks@.len() <= final(self).blocks@.len() <= old(self).blocks@.len() + 1,
            match r {
                None => {
                    &&& alloc_need(size as int, align as int) > usize::MAX / 4 + 1
                    &&& final(self).blocks@ == old(self).blocks@
                },
                Some(t) => {
                    let b = final(self).blocks@[t.0 as int];
                    &&& (t.0 as int) < final(self).blocks@.len()
                    &&& t.1 as int % align as int == 0
                    &&& exists|k: int|
                        0 <= k < b.chunks@.len() && !(#[trigger] b.chunks@[k]).free
                            && b.chunks@[k].ptr == t.1 && b.chunks@[k].req == size
                    &&& forall|i: int|
                        0 <= i < old(self).blocks@.len() && i != t.0 ==> final(self).blocks@[i]
                            == old(self).blocks@[i]
                },
            },
            alloc_need(size as int, align as int) <= usize::MAX / 4 + 1 ==> r.is_some(),
    {
        let a8 = if align < 8 {
            8
        } else {
            align
        };
        let need = size + a8 + 32;
        let n = self.blocks.len();
        let mut idx: usize = 0;
        while idx < n
            invariant
                context_wf(*self),
                self.blocks@ =~= old(self).blocks@,
                self.page_size == old(self).page_size,
                self.growth_increment == old(self).growth_increment,
                n == self.blocks@.len(),
                idx <= n,
                is_pow2(align as int),
                need == alloc_need(size as int, align as int),
                need <= usize::MAX,
            decreases n - idx,
        {
            if need <= self.blocks[idx].largest {
                let ghost cs = self.blocks@[idx as int].chunks@;
                let got = block_alloc(&mut self.blocks[idx], 0, size, align);
                match got {
                    Some(p) => {
                        proof {
                            let k = ff_idx(cs, 0);
                            lemma_ff_idx(cs, 0);
                            let b2 = self.blocks@[idx as int];
                            let uc = carve_used_chunk(cs[k], 0, size as int, align as int);
                            assert(0 <= k < b2.chunks@.len());
                            assert(b2.chunks@[k] == uc);
                            assert(!uc.free && uc.ptr == p && uc.req == size);
                            assert(forall|i: int|
                                0 <= i < old(self).blocks@.len() && i != idx
                                    ==> self.blocks@[i] == old(self).blocks@[i]);
                        }
                        return Some((idx, p));
                    },
                    None => {
                        proof {
                            assert(self.blocks@ =~= old(self).blocks@);
                        }
                    },
                }
            }
            idx = idx + 1;
        }
        // no existing block can hold the request: map a new one
        self.allocate_in_new_block(size, align, need)
    }

    /// Maps one new block sized for the request and carves the allocation
    /// out of it; fails only when the request cannot be sized.
    fn allocate_in_new_block(&mut self, size: usize, align: usize, need: usize) -> (r: Option<
        (usize, usize),
    >)
        requires
            context_wf(*old(self)),
            is_pow2(align as int),
            need == alloc_need(size as int, align as int),
            need <= usize::MAX,
        ensures
            context_wf(*final(self)),
            final(self).page_size == old(self).page_size,
            final(self).growth_increment == old(self).growth_increment,
            old(self).blocks@.len() <= final(self).blocks@.len() <= old(self).blocks@.len() + 1,
            (r.is_none() ==> need > usize::MAX / 4 + 1),
            (r.is_none() ==> final(self).blocks@ == old(self).blocks@),
            (r matches Some(t) ==> ({
                let b = final(self).blocks@[t.0 as int];
                &&& (t.0 as int) < final(self).blocks@.len()
                &&& t.1 as int % align as int == 0
                &&& exists|k: int|
                    0 <= k < b.chunks@.len() && !(#[trigger] b.chunks@[k]).free
                        && b.chunks@[k].ptr == t.1 && b.chunks@[k].req == size
                &&& forall|i: int|
                    0 <= i < old(self).blocks@.len() && i != t.0 ==> final(self).blocks@[i]
                        == old(self).blocks@[i]
            })),
            need <= usize::MAX / 4 + 1 ==> r.is_some(),
    {
        let n = self.blocks.len();
        let got = self.grow(need);
        match got {
            None => None,
            Some(len) => {
                let ghost cs = self.blocks@[n as int].chunks@;
                proof {
                    reveal_with_fuel(vstd::arithmetic::power2::is_pow2, 2);
                    assert(is_pow2(1));
                    lemma_pow2_ceil_from(1, need as int);
                    assert(pow2_ceil_spec(need as int) >= need);
                    assert(len >= need);
                    assert(cs[0].free && cs[0].size == len);
                    assert(ff_idx(cs, 0) == 0);
                    assert(block_head_fits(self.blocks@[n as int], size as int, align as int));
                }
                let got2 = block_alloc(&mut self.blocks[n], 0, size, align);
                match got2 {
                    Some(p) => {
                        proof {
                            let b2 = self.blocks@[n as int];
                            let uc = carve_used_chunk(cs[0], 0, size as int, align as int);
                            assert(0 <= 0 < b2.chunks@.len());
                            assert(b2.chunks@[0] == uc);
                            assert(!uc.free && uc.ptr == p && uc.req == size);
                            assert(forall|i: int|
                                0 <= i < old(self).blocks@.len() && i != n ==> self.blocks@[i]
                                    == old(self).blocks@[i]);
                        }
                        Some((n, p))
                    },
                    None => {
                        proof {
                            assert(false);
                        }
                        None
                    },
                }
            },
        }
    }
}

/// Interprets the raw page-size answer of the OS: a nonpositive, oversized
/// or misaligned answer is replaced by the conventional 4096.
pub fn resolve_page_size(raw: i64) -> (r: usize)
    ensures
        r == (if 1 <= raw <= 0x4000_0000 && raw % 8 == 0 {
            raw as usize
        } else {
            4096
        }),
        1 <= r,
        r % 8 == 0,
{
    if 1 <= raw && raw <= 0x4000_0000 && raw % 8 == 0 {
        raw as usize
    } else {
        4096
    }
}

} // verus!
