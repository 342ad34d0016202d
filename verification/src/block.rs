//! Mapped blocks: spans of managed memory tiled by free regions and
//! allocation records.
//!
//! A block's bytes are self-describing. A free region starts with a header of
//! four words — leading sentinel, previous-free link, next-free link, span
//! size — and ends with the six sentinel bytes "REGEND". An allocation record is
//! four words — leading sentinel, the free link recovered at carve time, the
//! record size, a closing sentinel — followed by padding, one back-offset
//! word, and the usable bytes. Links are block-local byte offsets, with
//! `NO_REGION` standing for a null link.
//!
//! The ghost `chunks` sequence is the abstraction: it lists the regions and
//! records in address order, and `block_wf` ties every ghost chunk to the
//! words actually stored in the arena.

use vstd::prelude::*;
use crate::layout::{
    align_up, align_up8, align_up_spec, lemma_align_up, lemma_align_up_aligned,
    lemma_align_up_le_multiple, lemma_mod_add, lemma_mod_div_trans, lemma_mod_sub,
    lemma_pow2_divides, MIN_REGION_SIZE,
};
use crate::words::{lemma_word_frame, read_word, read_word_usize, word_at, write_word,
    write_word_usize};
use vstd::arithmetic::power2::is_pow2;

verus! {

/// Null link: no region.
pub const NO_REGION: usize = usize::MAX;

/// Leading sentinel of a free-region header ("REGSTART", little endian).
pub const REGION_MAGIC: u64 = 0x5452415453474552;

/// The six trailing sentinel bytes closing a free region: the ASCII of
/// "REGEND", stored at the last six bytes of the span.
pub const FOOTER_R: u8 = 0x52;

pub const FOOTER_E: u8 = 0x45;

pub const FOOTER_G: u8 = 0x47;

pub const FOOTER_N: u8 = 0x4e;

pub const FOOTER_D: u8 = 0x44;

/// Leading sentinel of an allocation record ("TAGSTART", little endian).
pub const TAG_MAGIC: u64 = 0x5452415453474154;

/// Closing sentinel of an allocation record ("TAGEND", little endian).
pub const TAG_END_MAGIC: u64 = 0x444e454741540000;

/// One region or record of a block, in the ghost model.
pub struct Chunk {
    /// Block-local byte offset where the span starts.
    pub off: int,
    /// Total bytes of the span, metadata included.
    pub size: int,
    /// Whether the span is a free region (else: a live allocation record).
    pub free: bool,
    /// For a live record: block-local offset of the usable bytes.
    pub ptr: int,
    /// For a live record: the byte count the caller asked for.
    pub req: int,
}

/// One span of memory acquired from the memory source, carved into chunks.
pub struct MappedBlock {
    /// The managed bytes.
    pub mem: Vec<u8>,
    /// Offset of the first free region (the free-list head), or `NO_REGION`.
    pub first_free: usize,
    /// Upper bound on the largest free span in this block; may be stale-high,
    /// never stale-low.
    pub largest: usize,
    /// Ghost model: the chunks tiling this block, in address order.
    pub chunks: Ghost<Seq<Chunk>>,
}

/// No chunk strictly between `i` and `j` is free.
pub open spec fn no_free_between(cs: Seq<Chunk>, i: int, j: int) -> bool {
    forall|t: int| i < t < j ==> !(#[trigger] cs[t]).free
}

/// Geometric soundness of one chunk.
pub open spec fn chunk_bounds(c: Chunk) -> bool {
    &&& c.size >= MIN_REGION_SIZE
    &&& 0 <= c.off
    &&& c.off % 8 == 0
    &&& c.size % 8 == 0
}

/// The words stored for a free region match its ghost chunk, links aside.
pub open spec fn free_words_ok(m: Seq<u8>, c: Chunk) -> bool {
    &&& word_at(m, c.off) == REGION_MAGIC
    &&& word_at(m, c.off + 24) == c.size
    &&& footer_at(m, c.off + c.size - 6)
}

/// The words stored for a live allocation record match its ghost chunk.
pub open spec fn used_words_ok(m: Seq<u8>, c: Chunk) -> bool {
    &&& word_at(m, c.off) == TAG_MAGIC
    &&& word_at(m, c.off + 16) == c.size
    &&& word_at(m, c.off + 24) == TAG_END_MAGIC
    &&& c.off + 40 <= c.ptr
    &&& c.ptr % 8 == 0
    &&& 0 <= c.req
    &&& c.ptr + c.req <= c.off + c.size
    &&& word_at(m, c.ptr - 8) == c.ptr - c.off
}

/// The trailing sentinel "REGEND" occupies the six bytes at `i`.
/// Opaque, like `word_at`: callers see it only through `write_footer` and
/// the frame lemma.
#[verifier::opaque]
pub open spec fn footer_at(m: Seq<u8>, i: int) -> bool {
    &&& m[i] == FOOTER_R
    &&& m[i + 1] == FOOTER_E
    &&& m[i + 2] == FOOTER_G
    &&& m[i + 3] == FOOTER_E
    &&& m[i + 4] == FOOTER_N
    &&& m[i + 5] == FOOTER_D
}

/// The footer test depends only on the six bytes it covers.
pub proof fn lemma_footer_frame(m1: Seq<u8>, m2: Seq<u8>, i: int)
    requires
        0 <= i,
        i + 6 <= m1.len(),
        m1.len() == m2.len(),
        forall|j: int| i <= j < i + 6 ==> m2[j] == m1[j],
    ensures
        footer_at(m2, i) == footer_at(m1, i),
{
    reveal(footer_at);
}

/// Writes the trailing sentinel at byte offset `i`; no other byte changes.
pub fn write_footer(mem: &mut Vec<u8>, i: usize)
    requires
        i + 6 <= old(mem)@.len(),
    ensures
        final(mem)@.len() == old(mem)@.len(),
        footer_at(final(mem)@, i as int),
        forall|j: int|
            0 <= j < old(mem)@.len() && !(i <= j < i + 6) ==> final(mem)@[j] == old(mem)@[j],
{
    proof {
        reveal(footer_at);
    }
    let n: usize = mem.len();
    mem[i] = FOOTER_R;
    mem[i + 1] = FOOTER_E;
    mem[i + 2] = FOOTER_G;
    mem[i + 3] = FOOTER_E;
    mem[i + 4] = FOOTER_N;
    mem[i + 5] = FOOTER_D;
}

/// The chunks tile the block exactly: they start at offset zero, are
/// contiguous, and end at the block's end.
pub open spec fn chunks_tile(cs: Seq<Chunk>, len: int) -> bool {
    &&& cs.len() >= 1
    &&& cs[0].off == 0
    &&& forall|i: int, j: int|
        0 <= i < cs.len() - 1 && j == i + 1 ==> (#[trigger] cs[i]).off + cs[i].size == (
        #[trigger] cs[j]).off
    &&& cs[cs.len() - 1].off + cs[cs.len() - 1].size == len
}

/// Well-formedness of a mapped block: the ghost chunks tile the bytes, every
/// chunk's stored words agree with the model, free regions form a doubly
/// linked list in address order headed by `first_free`, no two free regions
/// are adjacent, and `largest` bounds every free span.
pub open spec fn block_wf(b: MappedBlock) -> bool {
    let m = b.mem@;
    let cs = b.chunks@;
    let len = m.len() as int;
    &&& len % 8 == 0
    &&& MIN_REGION_SIZE <= len <= usize::MAX
    &&& struct_wf(b)
    &&& words_wf(b)
    &&& chain_wf(b)
    &&& list_edges_wf(b)
}

/// Geometric part of the invariant: the chunks tile the block, each is
/// sound, no two free regions are adjacent, and the size hint bounds every
/// free span.
#[verifier::opaque]
pub open spec fn struct_wf(b: MappedBlock) -> bool {
    let cs = b.chunks@;
    let len = b.mem@.len() as int;
    &&& chunks_tile(cs, len)
    &&& forall|i: int| 0 <= i < cs.len() ==> chunk_bounds(#[trigger] cs[i])
    &&& forall|i: int, j: int|
        0 <= i < cs.len() - 1 && j == i + 1 ==> !((#[trigger] cs[i]).free && (#[trigger]
        cs[j]).free)
    &&& forall|i: int| 0 <= i < cs.len() && (#[trigger] cs[i]).free ==> cs[i].size <= b.largest
}

/// Every chunk's stored words agree with the ghost model.
#[verifier::opaque]
pub open spec fn words_wf(b: MappedBlock) -> bool {
    let m = b.mem@;
    let cs = b.chunks@;
    &&& forall|i: int| 0 <= i < cs.len() && (#[trigger] cs[i]).free ==> free_words_ok(m, cs[i])
    &&& forall|i: int|
        0 <= i < cs.len() && !(#[trigger] cs[i]).free ==> used_words_ok(m, cs[i])
}

/// Free regions `i` and `j` point at each other through their stored links.
pub open spec fn chain_linked(m: Seq<u8>, cs: Seq<Chunk>, i: int, j: int) -> bool {
    &&& word_at(m, cs[i].off + 16) == cs[j].off
    &&& word_at(m, cs[j].off + 8) == cs[i].off
}

/// Consecutive free regions point at each other through their stored links.
#[verifier::opaque]
pub open spec fn chain_wf(b: MappedBlock) -> bool {
    let m = b.mem@;
    let cs = b.chunks@;
    forall|i: int, j: int|
        0 <= i < j < cs.len() && (#[trigger] cs[i]).free && (#[trigger] cs[j]).free
            && no_free_between(cs, i, j) ==> chain_linked(m, cs, i, j)
}

/// Free region `i` is the stored list head and terminates the backward
/// chain.
pub open spec fn list_head_ok(b: MappedBlock, i: int) -> bool {
    &&& b.first_free == b.chunks@[i].off
    &&& word_at(b.mem@, b.chunks@[i].off + 8) == NO_REGION
}

/// Free region `i` terminates the forward chain.
pub open spec fn list_tail_ok(b: MappedBlock, i: int) -> bool {
    word_at(b.mem@, b.chunks@[i].off + 16) == NO_REGION
}

/// The first free region is the stored list head and terminates the backward
/// chain; the last free region terminates the forward chain; a block with no
/// free region has a null head.
#[verifier::opaque]
pub open spec fn list_edges_wf(b: MappedBlock) -> bool {
    let cs = b.chunks@;
    &&& forall|i: int|
        0 <= i < cs.len() && (#[trigger] cs[i]).free && no_free_between(cs, -1, i)
            ==> list_head_ok(b, i)
    &&& forall|i: int|
        0 <= i < cs.len() && (#[trigger] cs[i]).free && no_free_between(cs, i, cs.len() as int)
            ==> list_tail_ok(b, i)
    &&& (no_free_between(cs, -1, cs.len() as int) ==> b.first_free == NO_REGION)
}

/// Chunk offsets grow along the sequence; chunk `j` starts at or after the
/// end of chunk `i` whenever `i < j`.
pub proof fn lemma_chunks_ordered(cs: Seq<Chunk>, len: int, i: int, j: int)
    requires
        chunks_tile(cs, len),
        forall|t: int| 0 <= t < cs.len() ==> chunk_bounds(#[trigger] cs[t]),
        0 <= i <= j < cs.len(),
    ensures
        cs[i].off + cs[i].size <= cs[j].off + cs[j].size,
        i < j ==> cs[i].off + cs[i].size <= cs[j].off,
        cs[i].off <= cs[j].off,
    decreases j - i,
{
    if i < j {
        assert(cs[i].off + cs[i].size == cs[i + 1].off);
        lemma_chunks_ordered(cs, len, i + 1, j);
    }
}

/// Every chunk lies inside the block.
pub proof fn lemma_chunk_in_block(cs: Seq<Chunk>, len: int, i: int)
    requires
        chunks_tile(cs, len),
        forall|t: int| 0 <= t < cs.len() ==> chunk_bounds(#[trigger] cs[t]),
        0 <= i < cs.len(),
    ensures
        0 <= cs[i].off,
        cs[i].off + cs[i].size <= len,
{
    lemma_chunks_ordered(cs, len, i, cs.len() - 1);
    lemma_chunks_ordered(cs, len, 0, i);
}

/// Index of the first free chunk at or after `i`, or the length if none.
pub open spec fn ff_idx(cs: Seq<Chunk>, i: int) -> int
    decreases (if i < cs.len() { cs.len() - i } else { 0 }),
{
    if i < 0 || i >= cs.len() {
        cs.len() as int
    } else if cs[i].free {
        i
    } else {
        ff_idx(cs, i + 1)
    }
}

pub proof fn lemma_ff_idx(cs: Seq<Chunk>, i: int)
    requires
        0 <= i <= cs.len(),
    ensures
        i <= ff_idx(cs, i) <= cs.len(),
        ff_idx(cs, i) < cs.len() ==> cs[ff_idx(cs, i)].free,
        forall|t: int| i <= t < ff_idx(cs, i) ==> !(#[trigger] cs[t]).free,
    decreases cs.len() - i,
{
    if i < cs.len() && !cs[i].free {
        lemma_ff_idx(cs, i + 1);
    }
}

/// The memory source: acquires a zero-initialized span of fresh bytes.
/// Resource exhaustion surfaces to callers through the sizing arithmetic of
/// the allocation algorithm, never as a partial span.
pub fn acquire(size: usize) -> (m: Vec<u8>)
    ensures
        m@.len() == size,
        forall|j: int| 0 <= j < size ==> m@[j] == 0,
{
    let mut m: Vec<u8> = Vec::new();
    while m.len() < size
        invariant
            m@.len() <= size,
            forall|j: int| 0 <= j < m@.len() ==> m@[j] == 0,
        decreases size - m@.len(),
    {
        m.push(0);
    }
    m
}

/// Maps a new block: acquires a span and writes a single free region
/// covering all of it.
pub fn block_new(len: usize) -> (b: MappedBlock)
    requires
        len % 8 == 0,
        MIN_REGION_SIZE <= len,
    ensures
        block_wf(b),
        b.mem@.len() == len,
        b.chunks@ =~= seq![
            Chunk { off: 0, size: len as int, free: true, ptr: 0, req: 0 },
        ],
        b.first_free == 0,
        b.largest == len,
{
    let ghost cs0: Seq<Chunk> = seq![
        Chunk { off: 0, size: len as int, free: true, ptr: 0, req: 0 },
    ];
    let mut mem = acquire(len);
    write_word(&mut mem, 0, REGION_MAGIC);
    let ghost m1 = mem@;
    write_word_usize(&mut mem, 8, NO_REGION);
    let ghost m2 = mem@;
    write_word_usize(&mut mem, 16, NO_REGION);
    let ghost m3 = mem@;
    write_word_usize(&mut mem, 24, len);
    let ghost m4 = mem@;
    write_footer(&mut mem, len - 6);
    let b = MappedBlock {
        mem,
        first_free: 0,
        largest: len,
        chunks: Ghost(cs0),
    };
    proof {
        let m = b.mem@;
        let cs = b.chunks@;
        reveal(struct_wf);
        reveal(words_wf);
        reveal(chain_wf);
        reveal(list_edges_wf);
        lemma_word_frame(m1, m, 0);
        lemma_word_frame(m2, m, 8);
        lemma_word_frame(m3, m, 16);
        lemma_word_frame(m4, m, 24);
        assert(free_words_ok(m, cs[0]));
        assert(chunks_tile(cs, len as int));
    }
    b
}

/// A free region's stored words survive byte changes confined to two windows
/// that avoid its sentinel and size words.
pub proof fn lemma_free_words_preserved(
    m0: Seq<u8>,
    m1: Seq<u8>,
    c: Chunk,
    w1lo: int,
    w1hi: int,
    w2lo: int,
    w2hi: int,
)
    requires
        m0.len() == m1.len(),
        chunk_bounds(c),
        c.off + c.size <= m0.len(),
        free_words_ok(m0, c),
        forall|j: int| 0 <= j < m0.len() && !(w1lo <= j < w1hi) && !(w2lo <= j < w2hi) ==> m1[j]
            == m0[j],
        w1hi <= c.off || c.off + 8 <= w1lo,
        w1hi <= c.off + 24 || c.off + 32 <= w1lo,
        w1hi <= c.off + c.size - 6 || c.off + c.size <= w1lo,
        w2hi <= c.off || c.off + 8 <= w2lo,
        w2hi <= c.off + 24 || c.off + 32 <= w2lo,
        w2hi <= c.off + c.size - 6 || c.off + c.size <= w2lo,
    ensures
        free_words_ok(m1, c),
{
    lemma_word_frame(m0, m1, c.off);
    lemma_word_frame(m0, m1, c.off + 24);
    lemma_footer_frame(m0, m1, c.off + c.size - 6);
}

/// An allocation record's stored words survive byte changes confined to two
/// windows outside its span.
pub proof fn lemma_used_words_preserved(
    m0: Seq<u8>,
    m1: Seq<u8>,
    c: Chunk,
    w1lo: int,
    w1hi: int,
    w2lo: int,
    w2hi: int,
)
    requires
        m0.len() == m1.len(),
        chunk_bounds(c),
        c.off + c.size <= m0.len(),
        used_words_ok(m0, c),
        forall|j: int| 0 <= j < m0.len() && !(w1lo <= j < w1hi) && !(w2lo <= j < w2hi) ==> m1[j]
            == m0[j],
        w1hi <= c.off || c.off + c.size <= w1lo,
        w2hi <= c.off || c.off + c.size <= w2lo,
    ensures
        used_words_ok(m1, c),
{
    lemma_word_frame(m0, m1, c.off);
    lemma_word_frame(m0, m1, c.off + 16);
    lemma_word_frame(m0, m1, c.off + 24);
    lemma_word_frame(m0, m1, c.ptr - 8);
}

/// The alignment actually applied to a usable pointer: at least one word.
pub open spec fn align_of_req(align: int) -> int {
    if align < 8 {
        8
    } else {
        align
    }
}

/// Worst-case bytes a request consumes out of a free span: record words,
/// alignment padding and the usable bytes themselves.
pub open spec fn alloc_need(size: int, align: int) -> int {
    size + align_of_req(align) + 32
}

/// Whether the head free region of the block can hold the request.
pub open spec fn block_head_fits(b: MappedBlock, size: int, align: int) -> bool {
    let cs = b.chunks@;
    let k = ff_idx(cs, 0);
    k < cs.len() && alloc_need(size, align) <= cs[k].size
}

/// The usable pointer carved for a request out of the free region at
/// block-local offset `off`, as a global address.
#[verifier::opaque]
pub open spec fn alloc_ptr_spec(base: int, off: int, align: int) -> int {
    align_up_spec(base + off + 40, align_of_req(align))
}

/// Block-local offset where the remainder free region would start.
#[verifier::opaque]
pub open spec fn carve_next_off(c: Chunk, base: int, size: int, align: int) -> int {
    align_up_spec(alloc_ptr_spec(base, c.off, align) - base + size, 8)
}

/// Whether the tail left after carving is too small to stand as a free
/// region and is folded into the allocation record instead.
pub open spec fn carve_folds(c: Chunk, base: int, size: int, align: int) -> bool {
    c.off + c.size - carve_next_off(c, base, size, align) < MIN_REGION_SIZE
}

/// The allocation record chunk that carving produces.
pub open spec fn carve_used_chunk(c: Chunk, base: int, size: int, align: int) -> Chunk {
    Chunk {
        off: c.off,
        size: if carve_folds(c, base, size, align) {
            c.size
        } else {
            carve_next_off(c, base, size, align) - c.off
        },
        free: false,
        ptr: alloc_ptr_spec(base, c.off, align) - base,
        req: size,
    }
}

/// The chunk sequence after carving a request out of free chunk `k`: the
/// record replaces the region, followed by the remainder region unless the
/// tail was folded away.
pub open spec fn carve_result(cs: Seq<Chunk>, k: int, base: int, size: int, align: int) -> Seq<
    Chunk,
> {
    let c = cs[k];
    if carve_folds(c, base, size, align) {
        cs.update(k, carve_used_chunk(c, base, size, align))
    } else {
        cs.subrange(0, k) + seq![
            carve_used_chunk(c, base, size, align),
            Chunk {
                off: carve_next_off(c, base, size, align),
                size: c.off + c.size - carve_next_off(c, base, size, align),
                free: true,
                ptr: 0,
                req: 0,
            },
        ] + cs.subrange(k + 1, cs.len() as int)
    }
}





/// The free-list head after carving out of free chunk `k`: the remainder
/// region when one is split off, else the next free region.
pub open spec fn carve_new_head(cs: Seq<Chunk>, k: int, base: int, size: int, align: int) -> int {
    if carve_folds(cs[k], base, size, align) {
        if ff_idx(cs, k + 1) < cs.len() {
            cs[ff_idx(cs, k + 1)].off
        } else {
            NO_REGION as int
        }
    } else {
        carve_next_off(cs[k], base, size, align)
    }
}

/// What carving writes into the arena: the record words, the remainder
/// region's header when one is split off, the successor's re-threaded back
/// link, and nothing else.
#[verifier::opaque]
pub open spec fn carve_words_ok(
    ob: MappedBlock,
    nb: MappedBlock,
    base: int,
    size: int,
    align: int,
) -> bool {
    let cs = ob.chunks@;
    let k = ff_idx(cs, 0);
    let c = cs[k];
    let m = nb.mem@;
    let pl = alloc_ptr_spec(base, c.off, align) - base;
    let no = carve_next_off(c, base, size, align);
    let folds = carve_folds(c, base, size, align);
    let k2 = ff_idx(cs, k + 1);
    let w1hi = if folds {
        c.off + c.size
    } else {
        c.off + c.size - 6
    };
    let w2lo = if k2 < cs.len() {
        cs[k2].off + 8
    } else {
        0
    };
    let w2hi = if k2 < cs.len() {
        cs[k2].off + 16
    } else {
        0
    };
    &&& word_at(m, c.off) == TAG_MAGIC
    &&& word_at(m, c.off + 16) == (if folds {
        c.size
    } else {
        no - c.off
    })
    &&& word_at(m, c.off + 24) == TAG_END_MAGIC
    &&& word_at(m, pl - 8) == pl - c.off
    &&& (!folds ==> word_at(m, no) == REGION_MAGIC && word_at(m, no + 8) == NO_REGION && word_at(
        m,
        no + 16,
    ) == (if k2 < cs.len() {
        cs[k2].off
    } else {
        NO_REGION as int
    }) && word_at(m, no + 24) == c.off + c.size - no)
    &&& (k2 < cs.len() ==> word_at(m, cs[k2].off + 8) == (if folds {
        NO_REGION as int
    } else {
        no
    }))
    &&& forall|j: int|
        0 <= j < m.len() && !(c.off <= j < w1hi) && !(w2lo <= j < w2hi) ==> m[j] == ob.mem@[j]
}

/// The usable pointer of a carve is aligned as requested and lies just past
/// the record words, within the padding allowance.
pub proof fn lemma_alloc_ptr_bounds(base: int, off: int, align: int)
    requires
        is_pow2(align),
        base % 8 == 0,
        off % 8 == 0,
        0 <= base,
        0 <= off,
    ensures
        alloc_ptr_spec(base, off, align) % align == 0,
        alloc_ptr_spec(base, off, align) % 8 == 0,
        base + off + 40 <= alloc_ptr_spec(base, off, align) <= base + off + 32 + align_of_req(
            align,
        ),
{
    reveal(alloc_ptr_spec);
    reveal_with_fuel(vstd::arithmetic::power2::is_pow2, 5);
    let a8 = align_of_req(align);
    assert(is_pow2(8));
    assert(is_pow2(a8));
    assert(align >= 1);
    lemma_pow2_divides(8, a8);
    lemma_mod_add(base, off, 8);
    lemma_mod_add(base + off, 40, 8);
    lemma_align_up_aligned(base + off + 40, a8);
    lemma_pow2_divides(align, a8);
    lemma_mod_div_trans(alloc_ptr_spec(base, off, align), a8, align);
}



/// Carving the head free region preserves block well-formedness.
pub proof fn lemma_carve_wf(ob: MappedBlock, nb: MappedBlock, base: int, size: int, align: int)
    requires
        block_wf(ob),
        is_pow2(align),
        base % 8 == 0,
        0 <= base,
        0 <= size,
        base + ob.mem@.len() <= usize::MAX,
        alloc_need(size, align) <= usize::MAX,
        ff_idx(ob.chunks@, 0) < ob.chunks@.len(),
        alloc_need(size, align) <= ob.chunks@[ff_idx(ob.chunks@, 0)].size,
        nb.mem@.len() == ob.mem@.len(),
        nb.largest == ob.largest,
        nb.chunks@ == carve_result(ob.chunks@, ff_idx(ob.chunks@, 0), base, size, align),
        nb.first_free == carve_new_head(ob.chunks@, ff_idx(ob.chunks@, 0), base, size, align),
        carve_words_ok(ob, nb, base, size, align),
    ensures
        block_wf(nb),
{
    if carve_folds(ob.chunks@[ff_idx(ob.chunks@, 0)], base, size, align) {
        lemma_carve_struct_fold(ob, nb, base, size, align);
        lemma_carve_words_fold(ob, nb, base, size, align);
        lemma_carve_chain_fold(ob, nb, base, size, align);
        lemma_carve_list_edges_fold(ob, nb, base, size, align);
    } else {
        lemma_carve_struct_split(ob, nb, base, size, align);
        lemma_carve_words_split(ob, nb, base, size, align);
        lemma_carve_chain_split(ob, nb, base, size, align);
        lemma_carve_list_edges_split(ob, nb, base, size, align);
    }
}

/// Geometry after a carve that folds the whole region into the record.
#[verifier::rlimit(100)]
#[verifier::spinoff_prover]
proof fn lemma_carve_struct_fold(
    ob: MappedBlock,
    nb: MappedBlock,
    base: int,
    size: int,
    align: int,
)
    requires
        block_wf(ob),
        is_pow2(align),
        base % 8 == 0,
        0 <= base,
        0 <= size,
        base + ob.mem@.len() <= usize::MAX,
        alloc_need(size, align) <= usize::MAX,
        ff_idx(ob.chunks@, 0) < ob.chunks@.len(),
        alloc_need(size, align) <= ob.chunks@[ff_idx(ob.chunks@, 0)].size,
        nb.mem@.len() == ob.mem@.len(),
        nb.largest == ob.largest,
        nb.chunks@ == carve_result(ob.chunks@, ff_idx(ob.chunks@, 0), base, size, align),
        nb.first_free == carve_new_head(ob.chunks@, ff_idx(ob.chunks@, 0), base, size, align),
        carve_words_ok(ob, nb, base, size, align),
        carve_folds(ob.chunks@[ff_idx(ob.chunks@, 0)], base, size, align),
    ensures
        struct_wf(nb),
{
    let cs = ob.chunks@;
    let new_cs = nb.chunks@;
    let m0 = ob.mem@;
    let mF = nb.mem@;
    let len = m0.len() as int;
    let k = ff_idx(cs, 0);
    let c = cs[k];
    let k2 = ff_idx(cs, k + 1);
    let p = alloc_ptr_spec(base, c.off, align);
    let pl = p - base;
    let no = carve_next_off(c, base, size, align);
    let rem = c.off + c.size - no;
    let uc = carve_used_chunk(c, base, size, align);
    let nf = Chunk { off: no, size: rem, free: true, ptr: 0, req: 0 };
    let w1hi: int = c.off + c.size;
    let w2lo: int = if k2 < cs.len() {
        cs[k2].off + 8
    } else {
        0
    };
    let w2hi: int = if k2 < cs.len() {
        cs[k2].off + 16
    } else {
        0
    };
    reveal(struct_wf);
    reveal(carve_next_off);
    lemma_ff_idx(cs, 0);
    lemma_ff_idx(cs, k + 1);
    lemma_chunk_in_block(cs, len, k);
    if k2 < cs.len() {
        assert(no_free_between(cs, k, k2));
        lemma_chunks_ordered(cs, len, k, k2);
        lemma_chunk_in_block(cs, len, k2);
    } else {
        assert(no_free_between(cs, k, cs.len() as int));
    }
    // geometry of the carve
    lemma_alloc_ptr_bounds(base, c.off, align);
    lemma_mod_sub(p, base, 8);
    lemma_align_up(pl + size, 8);
    lemma_mod_add(c.off, c.size, 8);
    lemma_align_up_le_multiple(pl + size, 8, c.off + c.size);
    lemma_mod_sub(no, c.off, 8);
    lemma_mod_sub(c.off + c.size, no, 8);
    assert(c.off + 40 <= pl);
    assert(pl + size <= no <= c.off + c.size);
    assert(chunk_bounds(uc));
    // index map: only chunk k changed, and its geometry is unchanged
    assert(new_cs.len() == cs.len());
    assert(forall|i: int| 0 <= i < cs.len() && i != k ==> new_cs[i] == cs[i]);
    assert(new_cs[k] == uc);
    assert(uc.off == c.off && uc.size == c.size);
    assert(chunks_tile(new_cs, len)) by {
        assert forall|i: int, j: int|
            0 <= i < new_cs.len() - 1 && j == i + 1 implies ((#[trigger] new_cs[i]).off
            + new_cs[i].size == (#[trigger] new_cs[j]).off) by {
            assert(cs[i].off + cs[i].size == cs[j].off);
        };
    };
    assert(forall|i: int| 0 <= i < new_cs.len() ==> chunk_bounds(#[trigger] new_cs[i]));
    assert forall|i: int, j: int|
        0 <= i < new_cs.len() - 1 && j == i + 1 implies !((#[trigger] new_cs[i]).free && (
        #[trigger] new_cs[j]).free) by {
        assert(0 <= i < cs.len() && 0 <= j < cs.len());
        if i == k || j == k {
            assert(!uc.free);
        } else {
            assert(new_cs[i] == cs[i]);
            assert(new_cs[j] == cs[j]);
            assert(!(cs[i].free && cs[j].free));
        }
    };
    assert forall|i: int|
        0 <= i < new_cs.len() && (#[trigger] new_cs[i]).free implies (new_cs[i].size
        <= nb.largest) by {
        assert(new_cs[i] == cs[i]);
    };
    assert(struct_wf(nb));
}

/// Geometry after a carve that splits off a remainder region.
#[verifier::rlimit(100)]
#[verifier::spinoff_prover]
proof fn lemma_carve_struct_split(
    ob: MappedBlock,
    nb: MappedBlock,
    base: int,
    size: int,
    align: int,
)
    requires
        block_wf(ob),
        is_pow2(align),
        base % 8 == 0,
        0 <= base,
        0 <= size,
        base + ob.mem@.len() <= usize::MAX,
        alloc_need(size, align) <= usize::MAX,
        ff_idx(ob.chunks@, 0) < ob.chunks@.len(),
        alloc_need(size, align) <= ob.chunks@[ff_idx(ob.chunks@, 0)].size,
        nb.mem@.len() == ob.mem@.len(),
        nb.largest == ob.largest,
        nb.chunks@ == carve_result(ob.chunks@, ff_idx(ob.chunks@, 0), base, size, align),
        nb.first_free == carve_new_head(ob.chunks@, ff_idx(ob.chunks@, 0), base, size, align),
        carve_words_ok(ob, nb, base, size, align),
        !carve_folds(ob.chunks@[ff_idx(ob.chunks@, 0)], base, size, align),
    ensures
        struct_wf(nb),
{
    let cs = ob.chunks@;
    let new_cs = nb.chunks@;
    let m0 = ob.mem@;
    let mF = nb.mem@;
    let len = m0.len() as int;
    let k = ff_idx(cs, 0);
    let c = cs[k];
    let k2 = ff_idx(cs, k + 1);
    let p = alloc_ptr_spec(base, c.off, align);
    let pl = p - base;
    let no = carve_next_off(c, base, size, align);
    let rem = c.off + c.size - no;
    let uc = carve_used_chunk(c, base, size, align);
    let nf = Chunk { off: no, size: rem, free: true, ptr: 0, req: 0 };
    let w1hi: int = c.off + c.size - 6;
    let w2lo: int = if k2 < cs.len() {
        cs[k2].off + 8
    } else {
        0
    };
    let w2hi: int = if k2 < cs.len() {
        cs[k2].off + 16
    } else {
        0
    };
    reveal(struct_wf);
    reveal(carve_next_off);
    lemma_ff_idx(cs, 0);
    lemma_ff_idx(cs, k + 1);
    lemma_chunk_in_block(cs, len, k);
    if k2 < cs.len() {
        assert(no_free_between(cs, k, k2));
        lemma_chunks_ordered(cs, len, k, k2);
        lemma_chunk_in_block(cs, len, k2);
    } else {
        assert(no_free_between(cs, k, cs.len() as int));
    }
    // geometry of the carve
    lemma_alloc_ptr_bounds(base, c.off, align);
    lemma_mod_sub(p, base, 8);
    lemma_align_up(pl + size, 8);
    lemma_mod_add(c.off, c.size, 8);
    lemma_align_up_le_multiple(pl + size, 8, c.off + c.size);
    lemma_mod_sub(no, c.off, 8);
    lemma_mod_sub(c.off + c.size, no, 8);
    assert(c.off + 40 <= pl);
    assert(pl + size <= no <= c.off + c.size);
    assert(chunk_bounds(uc));
    // index map: chunk k becomes the record plus the remainder region
    assert(new_cs.len() == cs.len() + 1);
    assert(forall|i: int| 0 <= i < k ==> new_cs[i] == cs[i]);
    assert(new_cs[k] == uc);
    assert(new_cs[k + 1] == nf);
    assert(forall|i: int| k + 2 <= i < new_cs.len() ==> new_cs[i] == cs[i - 1]);
    assert(chunk_bounds(nf));
    assert(chunks_tile(new_cs, len)) by {
        assert forall|i: int, j: int|
            0 <= i < new_cs.len() - 1 && j == i + 1 implies ((#[trigger] new_cs[i]).off
            + new_cs[i].size == (#[trigger] new_cs[j]).off) by {
            if i < k {
                assert(new_cs[i] == cs[i] && cs[i].off + cs[i].size == cs[i + 1].off);
                if j < k {
                    assert(new_cs[j] == cs[j]);
                }
            } else if i == k {
                assert(new_cs[j] == nf);
            } else if i == k + 1 {
                assert(k + 1 < cs.len());
                assert(new_cs[j] == cs[k + 1]);
            } else {
                assert(new_cs[i] == cs[i - 1] && new_cs[j] == cs[i]);
                assert(cs[i - 1].off + cs[i - 1].size == cs[i].off);
            }
        };
    };
    assert(forall|i: int| 0 <= i < new_cs.len() ==> chunk_bounds(#[trigger] new_cs[i]));
    assert forall|i: int, j: int|
        0 <= i < new_cs.len() - 1 && j == i + 1 implies !((#[trigger] new_cs[i]).free && (
        #[trigger] new_cs[j]).free) by {
        if i < k {
            assert(new_cs[i] == cs[i]);
            if j < k {
                assert(new_cs[j] == cs[j]);
                assert(!(cs[i].free && cs[j].free));
            } else {
                assert(new_cs[j] == uc && !uc.free);
            }
        } else if i == k + 1 {
            assert(new_cs[j] == cs[k + 1]);
            assert(!(cs[k].free && cs[k + 1].free));
        } else if i > k + 1 {
            assert(new_cs[i] == cs[i - 1] && new_cs[j] == cs[i]);
            assert(!(cs[i - 1].free && cs[i].free));
        }
    };
    assert forall|i: int|
        0 <= i < new_cs.len() && (#[trigger] new_cs[i]).free implies (new_cs[i].size
        <= nb.largest) by {
        if i != k + 1 {
            if i > k + 1 {
                assert(new_cs[i] == cs[i - 1]);
            }
        }
    };
    assert(struct_wf(nb));
}

/// Stored words after a folding carve.
#[verifier::rlimit(100)]
#[verifier::spinoff_prover]
proof fn lemma_carve_words_fold(
    ob: MappedBlock,
    nb: MappedBlock,
    base: int,
    size: int,
    align: int,
)
    requires
        block_wf(ob),
        is_pow2(align),
        base % 8 == 0,
        0 <= base,
        0 <= size,
        base + ob.mem@.len() <= usize::MAX,
        alloc_need(size, align) <= usize::MAX,
        ff_idx(ob.chunks@, 0) < ob.chunks@.len(),
        alloc_need(size, align) <= ob.chunks@[ff_idx(ob.chunks@, 0)].size,
        nb.mem@.len() == ob.mem@.len(),
        nb.largest == ob.largest,
        nb.chunks@ == carve_result(ob.chunks@, ff_idx(ob.chunks@, 0), base, size, align),
        nb.first_free == carve_new_head(ob.chunks@, ff_idx(ob.chunks@, 0), base, size, align),
        carve_words_ok(ob, nb, base, size, align),
        carve_folds(ob.chunks@[ff_idx(ob.chunks@, 0)], base, size, align),
    ensures
        words_wf(nb),
{
    let cs = ob.chunks@;
    let new_cs = nb.chunks@;
    let m0 = ob.mem@;
    let mF = nb.mem@;
    let len = m0.len() as int;
    let k = ff_idx(cs, 0);
    let c = cs[k];
    let k2 = ff_idx(cs, k + 1);
    let p = alloc_ptr_spec(base, c.off, align);
    let pl = p - base;
    let no = carve_next_off(c, base, size, align);
    let rem = c.off + c.size - no;
    let uc = carve_used_chunk(c, base, size, align);
    let nf = Chunk { off: no, size: rem, free: true, ptr: 0, req: 0 };
    let w1hi: int = c.off + c.size;
    let w2lo: int = if k2 < cs.len() {
        cs[k2].off + 8
    } else {
        0
    };
    let w2hi: int = if k2 < cs.len() {
        cs[k2].off + 16
    } else {
        0
    };
    reveal(struct_wf);
    reveal(carve_next_off);
    lemma_ff_idx(cs, 0);
    lemma_ff_idx(cs, k + 1);
    lemma_chunk_in_block(cs, len, k);
    if k2 < cs.len() {
        assert(no_free_between(cs, k, k2));
        lemma_chunks_ordered(cs, len, k, k2);
        lemma_chunk_in_block(cs, len, k2);
    } else {
        assert(no_free_between(cs, k, cs.len() as int));
    }
    // geometry of the carve
    lemma_alloc_ptr_bounds(base, c.off, align);
    lemma_mod_sub(p, base, 8);
    lemma_align_up(pl + size, 8);
    lemma_mod_add(c.off, c.size, 8);
    lemma_align_up_le_multiple(pl + size, 8, c.off + c.size);
    lemma_mod_sub(no, c.off, 8);
    lemma_mod_sub(c.off + c.size, no, 8);
    assert(c.off + 40 <= pl);
    assert(pl + size <= no <= c.off + c.size);
    assert(chunk_bounds(uc));
    // every other chunk lies wholly before or after the carved region, and
    // before or after the successor region
    assert forall|j: int| 0 <= j < cs.len() && j != k implies ((#[trigger] cs[j]).off + cs[j].size
        <= c.off || c.off + c.size <= cs[j].off) by {
        if j < k {
            lemma_chunks_ordered(cs, len, j, k);
        } else {
            lemma_chunks_ordered(cs, len, k, j);
        }
    };
    assert forall|j: int|
        0 <= j < cs.len() && j != k2 && k2 < cs.len() implies ((#[trigger] cs[j]).off + cs[j].size
        <= cs[k2].off || cs[k2].off + cs[k2].size <= cs[j].off) by {
        if j < k2 {
            lemma_chunks_ordered(cs, len, j, k2);
        } else {
            lemma_chunks_ordered(cs, len, k2, j);
        }
    };
    assert forall|j: int| 0 <= j < cs.len() implies (#[trigger] cs[j]).off + cs[j].size <= len by {
        lemma_chunk_in_block(cs, len, j);
    };
    reveal(words_wf);
    reveal(carve_words_ok);
    assert(used_words_ok(mF, uc));
    // untouched chunks keep their stored words
    assert forall|j: int|
        0 <= j < cs.len() && j != k && (#[trigger] cs[j]).free implies (free_words_ok(
            mF,
            cs[j],
        )) by {
        lemma_free_words_preserved(m0, mF, cs[j], c.off, w1hi, w2lo, w2hi);
    };
    assert forall|j: int|
        0 <= j < cs.len() && j != k && !(#[trigger] cs[j]).free implies (used_words_ok(
            mF,
            cs[j],
        )) by {
        lemma_used_words_preserved(m0, mF, cs[j], c.off, w1hi, w2lo, w2hi);
    };
    // index map: only chunk k changed, and its geometry is unchanged
    assert(new_cs.len() == cs.len());
    assert(forall|i: int| 0 <= i < cs.len() && i != k ==> new_cs[i] == cs[i]);
    assert(new_cs[k] == uc);
    assert(uc.off == c.off && uc.size == c.size);
    assert forall|i: int|
        0 <= i < new_cs.len() && (#[trigger] new_cs[i]).free implies (free_words_ok(
            mF,
            new_cs[i],
        )) by {
        assert(new_cs[i] == cs[i]);
    };
    assert forall|i: int|
        0 <= i < new_cs.len() && !(#[trigger] new_cs[i]).free implies (used_words_ok(
            mF,
            new_cs[i],
        )) by {
        if i != k {
            assert(new_cs[i] == cs[i]);
        }
    };
    assert(words_wf(nb));
}

/// Stored words after a splitting carve.
#[verifier::rlimit(100)]
#[verifier::spinoff_prover]
proof fn lemma_carve_words_split(
    ob: MappedBlock,
    nb: MappedBlock,
    base: int,
    size: int,
    align: int,
)
    requires
        block_wf(ob),
        is_pow2(align),
        base % 8 == 0,
        0 <= base,
        0 <= size,
        base + ob.mem@.len() <= usize::MAX,
        alloc_need(size, align) <= usize::MAX,
        ff_idx(ob.chunks@, 0) < ob.chunks@.len(),
        alloc_need(size, align) <= ob.chunks@[ff_idx(ob.chunks@, 0)].size,
        nb.mem@.len() == ob.mem@.len(),
        nb.largest == ob.largest,
        nb.chunks@ == carve_result(ob.chunks@, ff_idx(ob.chunks@, 0), base, size, align),
        nb.first_free == carve_new_head(ob.chunks@, ff_idx(ob.chunks@, 0), base, size, align),
        carve_words_ok(ob, nb, base, size, align),
        !carve_folds(ob.chunks@[ff_idx(ob.chunks@, 0)], base, size, align),
    ensures
        words_wf(nb),
{
    let cs = ob.chunks@;
    let new_cs = nb.chunks@;
    let m0 = ob.mem@;
    let mF = nb.mem@;
    let len = m0.len() as int;
    let k = ff_idx(cs, 0);
    let c = cs[k];
    let k2 = ff_idx(cs, k + 1);
    let p = alloc_ptr_spec(base, c.off, align);
    let pl = p - base;
    let no = carve_next_off(c, base, size, align);
    let rem = c.off + c.size - no;
    let uc = carve_used_chunk(c, base, size, align);
    let nf = Chunk { off: no, size: rem, free: true, ptr: 0, req: 0 };
    let w1hi: int = c.off + c.size - 6;
    let w2lo: int = if k2 < cs.len() {
        cs[k2].off + 8
    } else {
        0
    };
    let w2hi: int = if k2 < cs.len() {
        cs[k2].off + 16
    } else {
        0
    };
    reveal(struct_wf);
    reveal(carve_next_off);
    lemma_ff_idx(cs, 0);
    lemma_ff_idx(cs, k + 1);
    lemma_chunk_in_block(cs, len, k);
    if k2 < cs.len() {
        assert(no_free_between(cs, k, k2));
        lemma_chunks_ordered(cs, len, k, k2);
        lemma_chunk_in_block(cs, len, k2);
    } else {
        assert(no_free_between(cs, k, cs.len() as int));
    }
    // geometry of the carve
    lemma_alloc_ptr_bounds(base, c.off, align);
    lemma_mod_sub(p, base, 8);
    lemma_align_up(pl + size, 8);
    lemma_mod_add(c.off, c.size, 8);
    lemma_align_up_le_multiple(pl + size, 8, c.off + c.size);
    lemma_mod_sub(no, c.off, 8);
    lemma_mod_sub(c.off + c.size, no, 8);
    assert(c.off + 40 <= pl);
    assert(pl + size <= no <= c.off + c.size);
    assert(chunk_bounds(uc));
    // every other chunk lies wholly before or after the carved region, and
    // before or after the successor region
    assert forall|j: int| 0 <= j < cs.len() && j != k implies ((#[trigger] cs[j]).off + cs[j].size
        <= c.off || c.off + c.size <= cs[j].off) by {
        if j < k {
            lemma_chunks_ordered(cs, len, j, k);
        } else {
            lemma_chunks_ordered(cs, len, k, j);
        }
    };
    assert forall|j: int|
        0 <= j < cs.len() && j != k2 && k2 < cs.len() implies ((#[trigger] cs[j]).off + cs[j].size
        <= cs[k2].off || cs[k2].off + cs[k2].size <= cs[j].off) by {
        if j < k2 {
            lemma_chunks_ordered(cs, len, j, k2);
        } else {
            lemma_chunks_ordered(cs, len, k2, j);
        }
    };
    assert forall|j: int| 0 <= j < cs.len() implies (#[trigger] cs[j]).off + cs[j].size <= len by {
        lemma_chunk_in_block(cs, len, j);
    };
    reveal(words_wf);
    reveal(carve_words_ok);
    assert(used_words_ok(mF, uc));
    // untouched chunks keep their stored words
    assert forall|j: int|
        0 <= j < cs.len() && j != k && (#[trigger] cs[j]).free implies (free_words_ok(
            mF,
            cs[j],
        )) by {
        lemma_free_words_preserved(m0, mF, cs[j], c.off, w1hi, w2lo, w2hi);
    };
    assert forall|j: int|
        0 <= j < cs.len() && j != k && !(#[trigger] cs[j]).free implies (used_words_ok(
            mF,
            cs[j],
        )) by {
        lemma_used_words_preserved(m0, mF, cs[j], c.off, w1hi, w2lo, w2hi);
    };
    // index map: chunk k becomes the record plus the remainder region
    assert(new_cs.len() == cs.len() + 1);
    assert(forall|i: int| 0 <= i < k ==> new_cs[i] == cs[i]);
    assert(new_cs[k] == uc);
    assert(new_cs[k + 1] == nf);
    assert(forall|i: int| k + 2 <= i < new_cs.len() ==> new_cs[i] == cs[i - 1]);
    // the trailing sentinel of the remainder is the old region's
    lemma_footer_frame(m0, mF, c.off + c.size - 6);
    assert(free_words_ok(mF, nf));
    assert forall|i: int|
        0 <= i < new_cs.len() && (#[trigger] new_cs[i]).free implies (free_words_ok(
            mF,
            new_cs[i],
        )) by {
        if i > k + 1 {
            assert(new_cs[i] == cs[i - 1]);
        }
    };
    assert forall|i: int|
        0 <= i < new_cs.len() && !(#[trigger] new_cs[i]).free implies (used_words_ok(
            mF,
            new_cs[i],
        )) by {
        if i < k {
            assert(new_cs[i] == cs[i]);
        } else if i > k + 1 {
            assert(new_cs[i] == cs[i - 1]);
        }
    };
    assert(words_wf(nb));
}

/// Forward/backward chain links after a folding carve.
#[verifier::rlimit(100)]
#[verifier::spinoff_prover]
proof fn lemma_carve_chain_fold(
    ob: MappedBlock,
    nb: MappedBlock,
    base: int,
    size: int,
    align: int,
)
    requires
        block_wf(ob),
        is_pow2(align),
        base % 8 == 0,
        0 <= base,
        0 <= size,
        base + ob.mem@.len() <= usize::MAX,
        alloc_need(size, align) <= usize::MAX,
        ff_idx(ob.chunks@, 0) < ob.chunks@.len(),
        alloc_need(size, align) <= ob.chunks@[ff_idx(ob.chunks@, 0)].size,
        nb.mem@.len() == ob.mem@.len(),
        nb.largest == ob.largest,
        nb.chunks@ == carve_result(ob.chunks@, ff_idx(ob.chunks@, 0), base, size, align),
        nb.first_free == carve_new_head(ob.chunks@, ff_idx(ob.chunks@, 0), base, size, align),
        carve_words_ok(ob, nb, base, size, align),
        carve_folds(ob.chunks@[ff_idx(ob.chunks@, 0)], base, size, align),
    ensures
        chain_wf(nb),
{
    let cs = ob.chunks@;
    let new_cs = nb.chunks@;
    let m0 = ob.mem@;
    let mF = nb.mem@;
    let len = m0.len() as int;
    let k = ff_idx(cs, 0);
    let c = cs[k];
    let k2 = ff_idx(cs, k + 1);
    let p = alloc_ptr_spec(base, c.off, align);
    let pl = p - base;
    let no = carve_next_off(c, base, size, align);
    let rem = c.off + c.size - no;
    let uc = carve_used_chunk(c, base, size, align);
    let nf = Chunk { off: no, size: rem, free: true, ptr: 0, req: 0 };
    let w1hi: int = c.off + c.size;
    let w2lo: int = if k2 < cs.len() {
        cs[k2].off + 8
    } else {
        0
    };
    let w2hi: int = if k2 < cs.len() {
        cs[k2].off + 16
    } else {
        0
    };
    reveal(struct_wf);
    reveal(carve_next_off);
    lemma_ff_idx(cs, 0);
    lemma_ff_idx(cs, k + 1);
    lemma_chunk_in_block(cs, len, k);
    if k2 < cs.len() {
        assert(no_free_between(cs, k, k2));
        lemma_chunks_ordered(cs, len, k, k2);
        lemma_chunk_in_block(cs, len, k2);
    } else {
        assert(no_free_between(cs, k, cs.len() as int));
    }
    // geometry of the carve
    lemma_alloc_ptr_bounds(base, c.off, align);
    lemma_mod_sub(p, base, 8);
    lemma_align_up(pl + size, 8);
    lemma_mod_add(c.off, c.size, 8);
    lemma_align_up_le_multiple(pl + size, 8, c.off + c.size);
    lemma_mod_sub(no, c.off, 8);
    lemma_mod_sub(c.off + c.size, no, 8);
    assert(c.off + 40 <= pl);
    assert(pl + size <= no <= c.off + c.size);
    assert(chunk_bounds(uc));
    reveal(chain_wf);
    reveal(list_edges_wf);
    reveal(carve_words_ok);
    // index map: only chunk k changed, and its geometry is unchanged
    assert(new_cs.len() == cs.len());
    assert(forall|i: int| 0 <= i < cs.len() && i != k ==> new_cs[i] == cs[i]);
    assert(new_cs[k] == uc);
    assert(uc.off == c.off && uc.size == c.size);
    // the free list loses its head; everything else keeps its links
    let d = new_cs;
    let dn = d.len() as int;
    assert forall|i: int, j: int|
        0 <= i < j < dn && (#[trigger] d[i]).free && (#[trigger] d[j]).free && no_free_between(
            d,
            i,
            j,
        ) implies (chain_linked(mF, d, i, j)) by {
        assert(i > k && j > k);
        assert(cs[i].free && cs[j].free);
        assert(no_free_between(cs, i, j));
        assert(i >= k2 && j > k2);
        lemma_chunks_ordered(cs, len, k, i);
        lemma_chunks_ordered(cs, len, k2, j);
        lemma_chunk_in_block(cs, len, i);
        lemma_chunk_in_block(cs, len, j);
        if i > k2 {
            lemma_chunks_ordered(cs, len, k2, i);
        }
        lemma_word_frame(m0, mF, cs[i].off + 16);
        lemma_word_frame(m0, mF, cs[j].off + 8);
    };
    assert(chain_wf(nb));
}

/// Head and last links of the free list after a folding carve.
#[verifier::rlimit(100)]
#[verifier::spinoff_prover]
proof fn lemma_carve_list_edges_fold(
    ob: MappedBlock,
    nb: MappedBlock,
    base: int,
    size: int,
    align: int,
)
    requires
        block_wf(ob),
        is_pow2(align),
        base % 8 == 0,
        0 <= base,
        0 <= size,
        base + ob.mem@.len() <= usize::MAX,
        alloc_need(size, align) <= usize::MAX,
        ff_idx(ob.chunks@, 0) < ob.chunks@.len(),
        alloc_need(size, align) <= ob.chunks@[ff_idx(ob.chunks@, 0)].size,
        nb.mem@.len() == ob.mem@.len(),
        nb.largest == ob.largest,
        nb.chunks@ == carve_result(ob.chunks@, ff_idx(ob.chunks@, 0), base, size, align),
        nb.first_free == carve_new_head(ob.chunks@, ff_idx(ob.chunks@, 0), base, size, align),
        carve_words_ok(ob, nb, base, size, align),
        carve_folds(ob.chunks@[ff_idx(ob.chunks@, 0)], base, size, align),
    ensures
        list_edges_wf(nb),
{
    let cs = ob.chunks@;
    let new_cs = nb.chunks@;
    let m0 = ob.mem@;
    let mF = nb.mem@;
    let len = m0.len() as int;
    let k = ff_idx(cs, 0);
    let c = cs[k];
    let k2 = ff_idx(cs, k + 1);
    let p = alloc_ptr_spec(base, c.off, align);
    let pl = p - base;
    let no = carve_next_off(c, base, size, align);
    let rem = c.off + c.size - no;
    let uc = carve_used_chunk(c, base, size, align);
    let nf = Chunk { off: no, size: rem, free: true, ptr: 0, req: 0 };
    let w1hi: int = c.off + c.size;
    let w2lo: int = if k2 < cs.len() {
        cs[k2].off + 8
    } else {
        0
    };
    let w2hi: int = if k2 < cs.len() {
        cs[k2].off + 16
    } else {
        0
    };
    reveal(struct_wf);
    reveal(carve_next_off);
    lemma_ff_idx(cs, 0);
    lemma_ff_idx(cs, k + 1);
    lemma_chunk_in_block(cs, len, k);
    if k2 < cs.len() {
        assert(no_free_between(cs, k, k2));
        lemma_chunks_ordered(cs, len, k, k2);
        lemma_chunk_in_block(cs, len, k2);
    } else {
        assert(no_free_between(cs, k, cs.len() as int));
    }
    // geometry of the carve
    lemma_alloc_ptr_bounds(base, c.off, align);
    lemma_mod_sub(p, base, 8);
    lemma_align_up(pl + size, 8);
    lemma_mod_add(c.off, c.size, 8);
    lemma_align_up_le_multiple(pl + size, 8, c.off + c.size);
    lemma_mod_sub(no, c.off, 8);
    lemma_mod_sub(c.off + c.size, no, 8);
    assert(c.off + 40 <= pl);
    assert(pl + size <= no <= c.off + c.size);
    assert(chunk_bounds(uc));
    reveal(chain_wf);
    reveal(list_edges_wf);
    reveal(carve_words_ok);
    // index map: only chunk k changed, and its geometry is unchanged
    assert(new_cs.len() == cs.len());
    assert(forall|i: int| 0 <= i < cs.len() && i != k ==> new_cs[i] == cs[i]);
    assert(new_cs[k] == uc);
    assert(uc.off == c.off && uc.size == c.size);
    let d = new_cs;
    assert forall|i: int|
        0 <= i < d.len() && (#[trigger] d[i]).free && no_free_between(d, -1, i) implies (
        list_head_ok(nb, i)) by {
        assert(i > k);
        assert(i >= k2);
        if i > k2 {
            assert(new_cs[k2] == cs[k2]);
            assert(new_cs[k2].free && 0 <= k2 < i);
            assert(false);
        }
        assert(i == k2);
    };
    assert forall|i: int|
        0 <= i < d.len() && (#[trigger] d[i]).free && no_free_between(d, i, d.len() as int)
            implies (list_tail_ok(nb, i)) by {
        assert(i > k && cs[i].free);
        assert(no_free_between(cs, i, cs.len() as int));
        assert(i >= k2);
        lemma_chunks_ordered(cs, len, k, i);
        lemma_chunk_in_block(cs, len, i);
        if i > k2 {
            lemma_chunks_ordered(cs, len, k2, i);
        }
        lemma_word_frame(m0, mF, cs[i].off + 16);
    };
    let total: int = new_cs.len() as int;
    if no_free_between(new_cs, -1, total) {
        assert(k2 == cs.len()) by {
            if k2 < cs.len() {
                assert(new_cs[k2] == cs[k2]);
                assert(new_cs[k2].free && 0 <= k2 < new_cs.len() as int);
                assert(false);
            }
        };
    }
    assert(list_edges_wf(nb));
}


/// Reads the head free region's offset and size and the offset of its
/// successor in the free list, validating them against the model.
fn head_info(b: &MappedBlock) -> (r: Option<(usize, usize, usize)>)
    requires
        block_wf(*b),
    ensures
        ({
            let cs = b.chunks@;
            let k = ff_idx(cs, 0);
            let k2 = ff_idx(cs, k + 1);
            match r {
                None => k == cs.len(),
                Some(t) => {
                    &&& k < cs.len()
                    &&& t.0 == cs[k].off
                    &&& t.1 == cs[k].size
                    &&& (t.2 == NO_REGION) == (k2 == cs.len())
                    &&& (k2 < cs.len() ==> t.2 == cs[k2].off)
                },
            }
        }),
{
    let ghost cs = b.chunks@;
    let ghost len = b.mem@.len() as int;
    let ghost k = ff_idx(cs, 0);
    proof {
        reveal(struct_wf);
        reveal(words_wf);
        reveal(chain_wf);
        reveal(list_edges_wf);
        lemma_ff_idx(cs, 0);
        if k < cs.len() {
            lemma_chunk_in_block(cs, len, k);
            assert(no_free_between(cs, -1, k));
            assert(b.first_free == cs[k].off);
        } else {
            assert(no_free_between(cs, -1, cs.len() as int));
            assert(b.first_free == NO_REGION);
        }
    }
    let ff = b.first_free;
    if ff == NO_REGION {
        proof {
            if k < cs.len() {
                assert(cs[k].off + cs[k].size <= len);
                assert(false);
            }
        }
        return None;
    }
    proof {
        assert(k < cs.len());
        assert(free_words_ok(b.mem@, cs[k]));
    }
    let s = read_word_usize(&b.mem, ff + 24);
    let ghost k2 = ff_idx(cs, k + 1);
    proof {
        lemma_ff_idx(cs, k + 1);
        if k2 < cs.len() {
            assert(no_free_between(cs, k, k2));
            assert(word_at(b.mem@, cs[k].off + 16) == cs[k2].off);
            lemma_chunk_in_block(cs, len, k2);
        } else {
            assert(no_free_between(cs, k, cs.len() as int));
            assert(word_at(b.mem@, cs[k].off + 16) == NO_REGION);
        }
    }
    let next_link = read_word_usize(&b.mem, ff + 16);
    Some((ff, s, next_link))
}

/// Writes the allocation record over the head free region, the remainder
/// region's header when one is split off, and the re-threaded successor
/// link; updates the list head and the ghost chunks, and touches nothing
/// else.
#[verifier::rlimit(100)]
#[verifier::spinoff_prover]
fn carve_writes(
    b: &mut MappedBlock,
    Ghost(gbase): Ghost<int>,
    Ghost(gsize): Ghost<int>,
    Ghost(galign): Ghost<int>,
    Ghost(k): Ghost<int>,
    ff: usize,
    s: usize,
    p_loc: usize,
    next_off: usize,
    next_link: usize,
)
    requires
        0 <= k < old(b).chunks@.len(),
        k == ff_idx(old(b).chunks@, 0),
        ff == old(b).chunks@[k].off,
        s == old(b).chunks@[k].size,
        p_loc == alloc_ptr_spec(gbase, old(b).chunks@[k].off, galign) - gbase,
        next_off == carve_next_off(old(b).chunks@[k], gbase, gsize, galign),
        ff + 40 <= p_loc,
        p_loc <= next_off <= ff + s,
        ff + s <= old(b).mem@.len(),
        old(b).mem@.len() <= usize::MAX,
        (next_link == NO_REGION) == (ff_idx(old(b).chunks@, k + 1) == old(b).chunks@.len()),
        next_link != NO_REGION ==> next_link == old(b).chunks@[ff_idx(old(b).chunks@, k + 1)].off
            && ff + s <= next_link && next_link + 38 <= old(b).mem@.len(),
    ensures
        final(b).mem@.len() == old(b).mem@.len(),
        final(b).largest == old(b).largest,
        final(b).chunks@ == carve_result(old(b).chunks@, k, gbase, gsize, galign),
        final(b).first_free == carve_new_head(old(b).chunks@, k, gbase, gsize, galign),
        carve_words_ok(*old(b), *final(b), gbase, gsize, galign),
{
    let ghost cs = b.chunks@;
    let ghost m0 = b.mem@;
    let ghost len = b.mem@.len() as int;
    let rem_tail = (ff + s) - next_off;
    let folds = rem_tail < MIN_REGION_SIZE;
    proof {
        lemma_ff_idx(cs, k + 1);
        assert(folds == carve_folds(cs[k], gbase, gsize, galign));
    }
    let rec_size = if folds {
        s
    } else {
        next_off - ff
    };
    let ghost w1hi: int = if folds {
        ff + s
    } else {
        ff + s - 6
    };
    let ghost w2lo: int = if next_link != NO_REGION {
        next_link + 8
    } else {
        0
    };
    let ghost w2hi: int = if next_link != NO_REGION {
        next_link + 16
    } else {
        0
    };
    write_word(&mut b.mem, ff, TAG_MAGIC);
    let ghost ma = b.mem@;
    write_word_usize(&mut b.mem, ff + 8, NO_REGION);
    write_word_usize(&mut b.mem, ff + 16, rec_size);
    let ghost mc = b.mem@;
    write_word(&mut b.mem, ff + 24, TAG_END_MAGIC);
    let ghost md = b.mem@;
    write_word_usize(&mut b.mem, p_loc - 8, p_loc - ff);
    let ghost me = b.mem@;
    proof {
        assert(forall|j: int|
            0 <= j < len && !(ff <= j < w1hi) && !(w2lo <= j < w2hi) ==> b.mem@[j] == m0[j]);
    }
    if !folds {
        // the remainder inherits the head's links and replaces it
        write_word(&mut b.mem, next_off, REGION_MAGIC);
        let ghost n1 = b.mem@;
        write_word_usize(&mut b.mem, next_off + 8, NO_REGION);
        let ghost n2 = b.mem@;
        write_word_usize(&mut b.mem, next_off + 16, next_link);
        let ghost n3 = b.mem@;
        write_word_usize(&mut b.mem, next_off + 24, rem_tail);
        proof {
            lemma_word_frame(n1, b.mem@, next_off as int);
            lemma_word_frame(n2, b.mem@, next_off + 8);
            lemma_word_frame(n3, b.mem@, next_off + 16);
            assert(forall|j: int|
                0 <= j < len && !(ff <= j < w1hi) && !(w2lo <= j < w2hi) ==> b.mem@[j] == m0[j]);
        }
    }
    let ghost mi = b.mem@;
    proof {
        lemma_word_frame(ma, mi, ff as int);
        lemma_word_frame(mc, mi, ff + 16);
        lemma_word_frame(md, mi, ff + 24);
        lemma_word_frame(me, mi, p_loc - 8);
    }
    if next_link != NO_REGION {
        // re-thread the successor's back link
        write_word_usize(&mut b.mem, next_link + 8, if folds {
            NO_REGION
        } else {
            next_off
        });
    }
    b.first_free = if folds {
        next_link
    } else {
        next_off
    };
    b.chunks = Ghost(carve_result(cs, k, gbase, gsize, galign));
    proof {
        let mF = b.mem@;
        assert(forall|j: int|
            0 <= j < len && !(ff <= j < w1hi) && !(w2lo <= j < w2hi) ==> mF[j] == m0[j]);
        lemma_word_frame(mi, mF, ff as int);
        lemma_word_frame(mi, mF, ff + 16);
        lemma_word_frame(mi, mF, ff + 24);
        lemma_word_frame(mi, mF, p_loc - 8);
        if !folds {
            lemma_word_frame(mi, mF, next_off as int);
            lemma_word_frame(mi, mF, next_off + 8);
            lemma_word_frame(mi, mF, next_off + 16);
            lemma_word_frame(mi, mF, next_off + 24);
        }
        assert(carve_words_ok(*old(b), *b, gbase, gsize, galign)) by {
            reveal(carve_words_ok);
        };
        assert(folds == carve_folds(cs[k], gbase, gsize, galign));
        assert(b.first_free == carve_new_head(cs, k, gbase, gsize, galign));
    }
}

/// Carves an allocation out of the head free region of the block.
///
/// The record is written at the region's start; the usable bytes start at
/// the caller's alignment past the record and the back-offset word; the tail
/// is folded into the record when it is smaller than a viable free region,
/// and otherwise becomes a new free region that replaces the head in the
/// free list. Only the head region is considered: callers fall back to other
/// blocks, or map a new one, when the head cannot hold the request.
#[verifier::rlimit(100)]
#[verifier::spinoff_prover]
pub fn block_alloc(b: &mut MappedBlock, base: usize, size: usize, align: usize) -> (r: Option<
    usize,
>)
    requires
        block_wf(*old(b)),
        is_pow2(align as int),
        base % 8 == 0,
        base + old(b).mem@.len() <= usize::MAX,
        old(b).mem@.len() + 8 <= usize::MAX,
        alloc_need(size as int, align as int) <= usize::MAX,
    ensures
        block_wf(*final(b)),
        final(b).mem@.len() == old(b).mem@.len(),
        final(b).largest == old(b).largest,
        r.is_some() == block_head_fits(*old(b), size as int, align as int),
        match r {
            None => *final(b) == *old(b),
            Some(p) => {
                let cs = old(b).chunks@;
                let k = ff_idx(cs, 0);
                &&& p == alloc_ptr_spec(base as int, cs[k].off, align as int)
                &&& p as int % align as int == 0
                &&& base + cs[k].off + 40 <= p
                &&& p + size <= base + cs[k].off + cs[k].size
                &&& final(b).chunks@ =~= carve_result(
                    cs,
                    k,
                    base as int,
                    size as int,
                    align as int,
                )
            },
        },
{
    let ghost cs = b.chunks@;
    let ghost len = b.mem@.len() as int;
    let ghost k = ff_idx(cs, 0);
    let ghost k2 = ff_idx(cs, k + 1);
    proof {
        lemma_ff_idx(cs, 0);
        if k < cs.len() {
            lemma_ff_idx(cs, k + 1);
        }
    }
    let head = head_info(b);
    let (ff, s, next_link) = match head {
        None => {
            return None;
        },
        Some(t) => t,
    };
    proof {
        assert(chunk_bounds(cs[k]) && cs[k].off + cs[k].size <= len) by {
            reveal(struct_wf);
            lemma_chunk_in_block(cs, len, k);
        };
        if k2 < cs.len() {
            assert(chunk_bounds(cs[k2]) && cs[k2].off + cs[k2].size <= len && cs[k].off
                + cs[k].size <= cs[k2].off) by {
                reveal(struct_wf);
                lemma_chunk_in_block(cs, len, k2);
                lemma_chunks_ordered(cs, len, k, k2);
            };
        }
    }
    let a8 = if align < 8 {
        8
    } else {
        align
    };
    let need = size + a8 + 32;
    if s < need {
        return None;
    }
    proof {
        assert(is_pow2(a8 as int) && a8 as int % 8 == 0) by {
            reveal_with_fuel(vstd::arithmetic::power2::is_pow2, 5);
            assert(is_pow2(8));
            lemma_pow2_divides(8, a8 as int);
        };
        lemma_mod_add(base as int, ff as int, 8);
        lemma_mod_add(base + ff, 40, 8);
    }
    let p = align_up8(base + ff + 40, a8);
    let p_loc = p - base;
    proof {
        assert(p + size <= base + ff + s);
        lemma_align_up((p_loc + size) as int, 8);
        lemma_mod_add(ff as int, s as int, 8);
        lemma_mod_sub(p as int, base as int, 8);
        lemma_align_up_le_multiple((p_loc + size) as int, 8, ff + s);
    }
    let next_off = align_up(p_loc + size, 8);
    proof {
        assert(alloc_ptr_spec(base as int, cs[k].off, align as int) == p) by {
            reveal(alloc_ptr_spec);
        };
        assert(carve_next_off(cs[k], base as int, size as int, align as int) == next_off) by {
            reveal(carve_next_off);
        };
    }
    carve_writes(
        b,
        Ghost(base as int),
        Ghost(size as int),
        Ghost(align as int),
        Ghost(k),
        ff,
        s,
        p_loc,
        next_off,
        next_link,
    );
    proof {
        lemma_carve_wf(*old(b), *b, base as int, size as int, align as int);
        lemma_alloc_ptr_bounds(base as int, cs[k].off, align as int);
    }
    Some(p)
}

//// One linked pair of free regions after a splitting carve, with the
/// remainder region on the left.
#[verifier::rlimit(100)]
#[verifier::spinoff_prover]
proof fn lemma_carve_chain_split_pair_head(
    ob: MappedBlock,
    nb: MappedBlock,
    base: int,
    size: int,
    align: int,
    i: int,
    j: int,
)
    requires
        block_wf(ob),
        is_pow2(align),
        base % 8 == 0,
        0 <= base,
        0 <= size,
        base + ob.mem@.len() <= usize::MAX,
        alloc_need(size, align) <= usize::MAX,
        ff_idx(ob.chunks@, 0) < ob.chunks@.len(),
        alloc_need(size, align) <= ob.chunks@[ff_idx(ob.chunks@, 0)].size,
        nb.mem@.len() == ob.mem@.len(),
        nb.largest == ob.largest,
        nb.chunks@ == carve_result(ob.chunks@, ff_idx(ob.chunks@, 0), base, size, align),
        nb.first_free == carve_new_head(ob.chunks@, ff_idx(ob.chunks@, 0), base, size, align),
        carve_words_ok(ob, nb, base, size, align),
        !carve_folds(ob.chunks@[ff_idx(ob.chunks@, 0)], base, size, align),
        0 <= i < j < nb.chunks@.len(),
        nb.chunks@[i].free,
        nb.chunks@[j].free,
        no_free_between(nb.chunks@, i, j),
        i == ff_idx(ob.chunks@, 0) + 1,
    ensures
        chain_linked(nb.mem@, nb.chunks@, i, j),
{
    let cs = ob.chunks@;
    let new_cs = nb.chunks@;
    let m0 = ob.mem@;
    let mF = nb.mem@;
    let len = m0.len() as int;
    let k = ff_idx(cs, 0);
    let c = cs[k];
    let k2 = ff_idx(cs, k + 1);
    let no = carve_next_off(c, base, size, align);
    let rem = c.off + c.size - no;
    let uc = carve_used_chunk(c, base, size, align);
    let nf = Chunk { off: no, size: rem, free: true, ptr: 0, req: 0 };
    reveal(struct_wf);
    lemma_ff_idx(cs, 0);
    lemma_ff_idx(cs, k + 1);
    lemma_chunk_in_block(cs, len, k);
    if k2 < cs.len() {
        assert(no_free_between(cs, k, k2));
        lemma_chunks_ordered(cs, len, k, k2);
        lemma_chunk_in_block(cs, len, k2);
    } else {
        assert(no_free_between(cs, k, cs.len() as int));
    }
    // index map: chunk k becomes the record plus the remainder region
    assert(new_cs.len() == cs.len() + 1);
    assert(forall|i: int| 0 <= i < k ==> new_cs[i] == cs[i]);
    assert(new_cs[k] == uc);
    assert(new_cs[k + 1] == nf);
    assert(forall|i: int| k + 2 <= i < new_cs.len() ==> new_cs[i] == cs[i - 1]);
    reveal(chain_wf);
    reveal(carve_words_ok);
    assert(j >= k + 2 && cs[j - 1].free);
    assert(k2 < cs.len());
    assert(j - 1 >= k2);
    if j - 1 > k2 {
        assert(new_cs[k2 + 1] == cs[k2]);
        assert(new_cs[k2 + 1].free && i < k2 + 1 < j);
        assert(false);
    }
    assert(new_cs[j] == cs[k2]);
}

/// One linked pair of free regions past the remainder, after a splitting
/// carve.
#[verifier::rlimit(100)]
#[verifier::spinoff_prover]
proof fn lemma_carve_chain_split_pair_rest(
    ob: MappedBlock,
    nb: MappedBlock,
    base: int,
    size: int,
    align: int,
    i: int,
    j: int,
)
    requires
        block_wf(ob),
        is_pow2(align),
        base % 8 == 0,
        0 <= base,
        0 <= size,
        base + ob.mem@.len() <= usize::MAX,
        alloc_need(size, align) <= usize::MAX,
        ff_idx(ob.chunks@, 0) < ob.chunks@.len(),
        alloc_need(size, align) <= ob.chunks@[ff_idx(ob.chunks@, 0)].size,
        nb.mem@.len() == ob.mem@.len(),
        nb.largest == ob.largest,
        nb.chunks@ == carve_result(ob.chunks@, ff_idx(ob.chunks@, 0), base, size, align),
        nb.first_free == carve_new_head(ob.chunks@, ff_idx(ob.chunks@, 0), base, size, align),
        carve_words_ok(ob, nb, base, size, align),
        !carve_folds(ob.chunks@[ff_idx(ob.chunks@, 0)], base, size, align),
        0 <= i < j < nb.chunks@.len(),
        nb.chunks@[i].free,
        nb.chunks@[j].free,
        no_free_between(nb.chunks@, i, j),
        i != ff_idx(ob.chunks@, 0) + 1,
    ensures
        chain_linked(nb.mem@, nb.chunks@, i, j),
{
    let cs = ob.chunks@;
    let new_cs = nb.chunks@;
    let m0 = ob.mem@;
    let mF = nb.mem@;
    let len = m0.len() as int;
    let k = ff_idx(cs, 0);
    let c = cs[k];
    let k2 = ff_idx(cs, k + 1);
    let no = carve_next_off(c, base, size, align);
    let rem = c.off + c.size - no;
    let uc = carve_used_chunk(c, base, size, align);
    let nf = Chunk { off: no, size: rem, free: true, ptr: 0, req: 0 };
    reveal(struct_wf);
    lemma_ff_idx(cs, 0);
    lemma_ff_idx(cs, k + 1);
    lemma_chunk_in_block(cs, len, k);
    if k2 < cs.len() {
        assert(no_free_between(cs, k, k2));
        lemma_chunks_ordered(cs, len, k, k2);
        lemma_chunk_in_block(cs, len, k2);
    } else {
        assert(no_free_between(cs, k, cs.len() as int));
    }
    // index map: chunk k becomes the record plus the remainder region
    assert(new_cs.len() == cs.len() + 1);
    assert(forall|i: int| 0 <= i < k ==> new_cs[i] == cs[i]);
    assert(new_cs[k] == uc);
    assert(new_cs[k + 1] == nf);
    assert(forall|i: int| k + 2 <= i < new_cs.len() ==> new_cs[i] == cs[i - 1]);
    reveal(chain_wf);
    reveal(carve_words_ok);
    assert(i >= k + 2);
    assert(cs[i - 1].free && cs[j - 1].free);
    lemma_shift_no_free(cs, new_cs, k, i - 1, j - 1);
    assert(i - 1 >= k2 && j - 1 > k2);
    lemma_chunks_ordered(cs, len, k, i - 1);
    lemma_chunks_ordered(cs, len, k2, j - 1);
    lemma_chunk_in_block(cs, len, i - 1);
    lemma_chunk_in_block(cs, len, j - 1);
    if i - 1 > k2 {
        lemma_chunks_ordered(cs, len, k2, i - 1);
    }
    lemma_word_frame(m0, mF, cs[i - 1].off + 16);
    lemma_word_frame(m0, mF, cs[j - 1].off + 8);
}

/// Forward/backward chain links after a splitting carve.
#[verifier::rlimit(100)]
#[verifier::spinoff_prover]
proof fn lemma_carve_chain_split(
    ob: MappedBlock,
    nb: MappedBlock,
    base: int,
    size: int,
    align: int,
)
    requires
        block_wf(ob),
        is_pow2(align),
        base % 8 == 0,
        0 <= base,
        0 <= size,
        base + ob.mem@.len() <= usize::MAX,
        alloc_need(size, align) <= usize::MAX,
        ff_idx(ob.chunks@, 0) < ob.chunks@.len(),
        alloc_need(size, align) <= ob.chunks@[ff_idx(ob.chunks@, 0)].size,
        nb.mem@.len() == ob.mem@.len(),
        nb.largest == ob.largest,
        nb.chunks@ == carve_result(ob.chunks@, ff_idx(ob.chunks@, 0), base, size, align),
        nb.first_free == carve_new_head(ob.chunks@, ff_idx(ob.chunks@, 0), base, size, align),
        carve_words_ok(ob, nb, base, size, align),
        !carve_folds(ob.chunks@[ff_idx(ob.chunks@, 0)], base, size, align),
    ensures
        chain_wf(nb),
{
    let new_cs = nb.chunks@;
    let mF = nb.mem@;
    let d = new_cs;
    let dn = d.len() as int;
    assert forall|i: int, j: int|
        0 <= i < j < dn && (#[trigger] d[i]).free && (#[trigger] d[j]).free && no_free_between(
            d,
            i,
            j,
        ) implies (chain_linked(mF, d, i, j)) by {
        if i == ff_idx(ob.chunks@, 0) + 1 {
            lemma_carve_chain_split_pair_head(ob, nb, base, size, align, i, j);
        } else {
            lemma_carve_chain_split_pair_rest(ob, nb, base, size, align, i, j);
        }
    };
    reveal(chain_wf);
    assert(chain_wf(nb));
}

/// Law: a live allocation's usable bytes lie inside its own record's span,
/// past the record words, and overlap no other free region or live record
/// of the block.
pub proof fn lemma_usable_span_disjoint(b: MappedBlock, i: int, j: int)
    requires
        block_wf(b),
        0 <= i < b.chunks@.len(),
        0 <= j < b.chunks@.len(),
        i != j,
        !b.chunks@[i].free,
    ensures
        b.chunks@[i].off + 40 <= b.chunks@[i].ptr,
        b.chunks@[i].ptr + b.chunks@[i].req <= b.chunks@[i].off + b.chunks@[i].size,
        b.chunks@[i].ptr + b.chunks@[i].req <= b.chunks@[j].off || b.chunks@[j].off
            + b.chunks@[j].size <= b.chunks@[i].ptr,
{
    reveal(struct_wf);
    reveal(words_wf);
    let cs = b.chunks@;
    let len = b.mem@.len() as int;
    assert(used_words_ok(b.mem@, cs[i]));
    if i < j {
        lemma_chunks_ordered(cs, len, i, j);
    } else {
        lemma_chunks_ordered(cs, len, j, i);
    }
}

/// Law: in a well-formed block all of whose chunks are free, the free space
/// has coalesced back into a single region spanning the whole block —
/// whatever order produced that state, since well-formedness never lets two
/// free regions sit side by side.
pub proof fn lemma_full_coalescing(b: MappedBlock)
    requires
        block_wf(b),
        forall|i: int| 0 <= i < b.chunks@.len() ==> (#[trigger] b.chunks@[i]).free,
    ensures
        b.chunks@.len() == 1,
        b.chunks@[0].off == 0,
        b.chunks@[0].size == b.mem@.len(),
{
    reveal(struct_wf);
    let cs = b.chunks@;
    if cs.len() >= 2 {
        assert(cs[0].free && cs[1].free);
        assert(false);
    }
}

/// The remainder region, when last in the list, terminates the forward
/// chain after a splitting carve.
#[verifier::rlimit(100)]
#[verifier::spinoff_prover]
proof fn lemma_carve_les_split_tail_first(
    ob: MappedBlock,
    nb: MappedBlock,
    base: int,
    size: int,
    align: int,
    i: int,
)
    requires
        block_wf(ob),
        is_pow2(align),
        base % 8 == 0,
        0 <= base,
        0 <= size,
        base + ob.mem@.len() <= usize::MAX,
        alloc_need(size, align) <= usize::MAX,
        ff_idx(ob.chunks@, 0) < ob.chunks@.len(),
        alloc_need(size, align) <= ob.chunks@[ff_idx(ob.chunks@, 0)].size,
        nb.mem@.len() == ob.mem@.len(),
        nb.largest == ob.largest,
        nb.chunks@ == carve_result(ob.chunks@, ff_idx(ob.chunks@, 0), base, size, align),
        nb.first_free == carve_new_head(ob.chunks@, ff_idx(ob.chunks@, 0), base, size, align),
        carve_words_ok(ob, nb, base, size, align),
        !carve_folds(ob.chunks@[ff_idx(ob.chunks@, 0)], base, size, align),
        0 <= i < nb.chunks@.len(),
        i == ff_idx(ob.chunks@, 0) + 1,
        nb.chunks@[i].free,
        no_free_between(nb.chunks@, i, nb.chunks@.len() as int),
    ensures
        word_at(nb.mem@, nb.chunks@[i].off + 16) == NO_REGION,
{
    let cs = ob.chunks@;
    let new_cs = nb.chunks@;
    let m0 = ob.mem@;
    let mF = nb.mem@;
    let len = m0.len() as int;
    let k = ff_idx(cs, 0);
    let c = cs[k];
    let k2 = ff_idx(cs, k + 1);
    let no = carve_next_off(c, base, size, align);
    let rem = c.off + c.size - no;
    let uc = carve_used_chunk(c, base, size, align);
    let nf = Chunk { off: no, size: rem, free: true, ptr: 0, req: 0 };
    reveal(struct_wf);
    lemma_ff_idx(cs, 0);
    lemma_ff_idx(cs, k + 1);
    lemma_chunk_in_block(cs, len, k);
    if k2 < cs.len() {
        assert(no_free_between(cs, k, k2));
        lemma_chunks_ordered(cs, len, k, k2);
        lemma_chunk_in_block(cs, len, k2);
    } else {
        assert(no_free_between(cs, k, cs.len() as int));
    }
    // index map: chunk k becomes the record plus the remainder region
    assert(new_cs.len() == cs.len() + 1);
    assert(forall|i: int| 0 <= i < k ==> new_cs[i] == cs[i]);
    assert(new_cs[k] == uc);
    assert(new_cs[k + 1] == nf);
    assert(forall|i: int| k + 2 <= i < new_cs.len() ==> new_cs[i] == cs[i - 1]);
    reveal(carve_words_ok);
    assert(k2 >= cs.len()) by {
        if k2 < cs.len() {
            assert(new_cs[k2 + 1] == cs[k2]);
            assert(new_cs[k2 + 1].free && i < k2 + 1 < new_cs.len() as int);
            assert(false);
        }
    };
}

/// A free region past the remainder that was last before a splitting carve
/// is still last after it.
#[verifier::rlimit(100)]
#[verifier::spinoff_prover]
proof fn lemma_carve_les_split_tail_rest(
    ob: MappedBlock,
    nb: MappedBlock,
    base: int,
    size: int,
    align: int,
    i: int,
)
    requires
        block_wf(ob),
        is_pow2(align),
        base % 8 == 0,
        0 <= base,
        0 <= size,
        base + ob.mem@.len() <= usize::MAX,
        alloc_need(size, align) <= usize::MAX,
        ff_idx(ob.chunks@, 0) < ob.chunks@.len(),
        alloc_need(size, align) <= ob.chunks@[ff_idx(ob.chunks@, 0)].size,
        nb.mem@.len() == ob.mem@.len(),
        nb.largest == ob.largest,
        nb.chunks@ == carve_result(ob.chunks@, ff_idx(ob.chunks@, 0), base, size, align),
        nb.first_free == carve_new_head(ob.chunks@, ff_idx(ob.chunks@, 0), base, size, align),
        carve_words_ok(ob, nb, base, size, align),
        !carve_folds(ob.chunks@[ff_idx(ob.chunks@, 0)], base, size, align),
        0 <= i < nb.chunks@.len(),
        i >= ff_idx(ob.chunks@, 0) + 2,
        nb.chunks@[i].free,
        no_free_between(nb.chunks@, i, nb.chunks@.len() as int),
    ensures
        word_at(nb.mem@, nb.chunks@[i].off + 16) == NO_REGION,
{
    let cs = ob.chunks@;
    let new_cs = nb.chunks@;
    let m0 = ob.mem@;
    let mF = nb.mem@;
    let len = m0.len() as int;
    let k = ff_idx(cs, 0);
    let c = cs[k];
    let k2 = ff_idx(cs, k + 1);
    let no = carve_next_off(c, base, size, align);
    let rem = c.off + c.size - no;
    let uc = carve_used_chunk(c, base, size, align);
    let nf = Chunk { off: no, size: rem, free: true, ptr: 0, req: 0 };
    reveal(struct_wf);
    lemma_ff_idx(cs, 0);
    lemma_ff_idx(cs, k + 1);
    lemma_chunk_in_block(cs, len, k);
    if k2 < cs.len() {
        assert(no_free_between(cs, k, k2));
        lemma_chunks_ordered(cs, len, k, k2);
        lemma_chunk_in_block(cs, len, k2);
    } else {
        assert(no_free_between(cs, k, cs.len() as int));
    }
    // index map: chunk k becomes the record plus the remainder region
    assert(new_cs.len() == cs.len() + 1);
    assert(forall|i: int| 0 <= i < k ==> new_cs[i] == cs[i]);
    assert(new_cs[k] == uc);
    assert(new_cs[k + 1] == nf);
    assert(forall|i: int| k + 2 <= i < new_cs.len() ==> new_cs[i] == cs[i - 1]);
    reveal(list_edges_wf);
    reveal(carve_words_ok);
    assert(cs[i - 1].free);
    lemma_shift_no_free(cs, new_cs, k, i - 1, cs.len() as int);
    assert(i - 1 >= k2);
    lemma_chunks_ordered(cs, len, k, i - 1);
    lemma_chunk_in_block(cs, len, i - 1);
    if i - 1 > k2 {
        lemma_chunks_ordered(cs, len, k2, i - 1);
    }
    lemma_word_frame(m0, mF, cs[i - 1].off + 16);
}

/// The remainder region heads the free list after a splitting carve.
#[verifier::rlimit(100)]
#[verifier::spinoff_prover]
proof fn lemma_carve_les_split_head(
    ob: MappedBlock,
    nb: MappedBlock,
    base: int,
    size: int,
    align: int,
    i: int,
)
    requires
        block_wf(ob),
        is_pow2(align),
        base % 8 == 0,
        0 <= base,
        0 <= size,
        base + ob.mem@.len() <= usize::MAX,
        alloc_need(size, align) <= usize::MAX,
        ff_idx(ob.chunks@, 0) < ob.chunks@.len(),
        alloc_need(size, align) <= ob.chunks@[ff_idx(ob.chunks@, 0)].size,
        nb.mem@.len() == ob.mem@.len(),
        nb.largest == ob.largest,
        nb.chunks@ == carve_result(ob.chunks@, ff_idx(ob.chunks@, 0), base, size, align),
        nb.first_free == carve_new_head(ob.chunks@, ff_idx(ob.chunks@, 0), base, size, align),
        carve_words_ok(ob, nb, base, size, align),
        !carve_folds(ob.chunks@[ff_idx(ob.chunks@, 0)], base, size, align),
        0 <= i < nb.chunks@.len(),
        nb.chunks@[i].free,
        no_free_between(nb.chunks@, -1, i),
    ensures
        list_head_ok(nb, i),
{
    let cs = ob.chunks@;
    let new_cs = nb.chunks@;
    let m0 = ob.mem@;
    let mF = nb.mem@;
    let len = m0.len() as int;
    let k = ff_idx(cs, 0);
    let c = cs[k];
    let k2 = ff_idx(cs, k + 1);
    let no = carve_next_off(c, base, size, align);
    let rem = c.off + c.size - no;
    let uc = carve_used_chunk(c, base, size, align);
    let nf = Chunk { off: no, size: rem, free: true, ptr: 0, req: 0 };
    reveal(struct_wf);
    lemma_ff_idx(cs, 0);
    lemma_ff_idx(cs, k + 1);
    lemma_chunk_in_block(cs, len, k);
    if k2 < cs.len() {
        assert(no_free_between(cs, k, k2));
        lemma_chunks_ordered(cs, len, k, k2);
        lemma_chunk_in_block(cs, len, k2);
    } else {
        assert(no_free_between(cs, k, cs.len() as int));
    }
    // index map: chunk k becomes the record plus the remainder region
    assert(new_cs.len() == cs.len() + 1);
    assert(forall|i: int| 0 <= i < k ==> new_cs[i] == cs[i]);
    assert(new_cs[k] == uc);
    assert(new_cs[k + 1] == nf);
    assert(forall|i: int| k + 2 <= i < new_cs.len() ==> new_cs[i] == cs[i - 1]);
    reveal(carve_words_ok);
    if i > k + 1 {
        assert(new_cs[k + 1].free && 0 <= k + 1 < i);
        assert(false);
    }
    assert(i == k + 1);
}

/// Head and last links of the free list after a splitting carve.
#[verifier::rlimit(100)]
#[verifier::spinoff_prover]
proof fn lemma_carve_list_edges_split(
    ob: MappedBlock,
    nb: MappedBlock,
    base: int,
    size: int,
    align: int,
)
    requires
        block_wf(ob),
        is_pow2(align),
        base % 8 == 0,
        0 <= base,
        0 <= size,
        base + ob.mem@.len() <= usize::MAX,
        alloc_need(size, align) <= usize::MAX,
        ff_idx(ob.chunks@, 0) < ob.chunks@.len(),
        alloc_need(size, align) <= ob.chunks@[ff_idx(ob.chunks@, 0)].size,
        nb.mem@.len() == ob.mem@.len(),
        nb.largest == ob.largest,
        nb.chunks@ == carve_result(ob.chunks@, ff_idx(ob.chunks@, 0), base, size, align),
        nb.first_free == carve_new_head(ob.chunks@, ff_idx(ob.chunks@, 0), base, size, align),
        carve_words_ok(ob, nb, base, size, align),
        !carve_folds(ob.chunks@[ff_idx(ob.chunks@, 0)], base, size, align),
    ensures
        list_edges_wf(nb),
{
    let cs = ob.chunks@;
    let new_cs = nb.chunks@;
    let m0 = ob.mem@;
    let mF = nb.mem@;
    let len = m0.len() as int;
    let k = ff_idx(cs, 0);
    let c = cs[k];
    let k2 = ff_idx(cs, k + 1);
    let no = carve_next_off(c, base, size, align);
    let rem = c.off + c.size - no;
    let uc = carve_used_chunk(c, base, size, align);
    let nf = Chunk { off: no, size: rem, free: true, ptr: 0, req: 0 };
    reveal(struct_wf);
    lemma_ff_idx(cs, 0);
    lemma_ff_idx(cs, k + 1);
    lemma_chunk_in_block(cs, len, k);
    if k2 < cs.len() {
        assert(no_free_between(cs, k, k2));
        lemma_chunks_ordered(cs, len, k, k2);
        lemma_chunk_in_block(cs, len, k2);
    } else {
        assert(no_free_between(cs, k, cs.len() as int));
    }
    // index map: chunk k becomes the record plus the remainder region
    assert(new_cs.len() == cs.len() + 1);
    assert(forall|i: int| 0 <= i < k ==> new_cs[i] == cs[i]);
    assert(new_cs[k] == uc);
    assert(new_cs[k + 1] == nf);
    assert(forall|i: int| k + 2 <= i < new_cs.len() ==> new_cs[i] == cs[i - 1]);
    reveal(list_edges_wf);
    let d = new_cs;
    assert forall|i: int|
        0 <= i < d.len() && (#[trigger] d[i]).free && no_free_between(d, -1, i) implies (
        list_head_ok(nb, i)) by {
        lemma_carve_les_split_head(ob, nb, base, size, align, i);
    };
    assert forall|i: int|
        0 <= i < d.len() && (#[trigger] d[i]).free && no_free_between(d, i, d.len() as int)
            implies (list_tail_ok(nb, i)) by {
        if i == k + 1 {
            lemma_carve_les_split_tail_first(ob, nb, base, size, align, i);
        } else {
            assert(i >= k + 2);
            lemma_carve_les_split_tail_rest(ob, nb, base, size, align, i);
        }
    };
    assert(!no_free_between(new_cs, -1, new_cs.len() as int)) by {
        assert(new_cs[k + 1].free && 0 <= k + 1 < new_cs.len() as int);
    };
    assert(list_edges_wf(nb));
}

/// Chunks shifted one place by a split keep their free flags: a gap with no
/// free chunk in the new sequence maps to one in the old.
proof fn lemma_shift_no_free(cs: Seq<Chunk>, new_cs: Seq<Chunk>, k: int, lo: int, hi: int)
    requires
        new_cs.len() == cs.len() + 1,
        forall|t: int| k + 2 <= t < new_cs.len() ==> new_cs[t] == cs[t - 1],
        k + 1 <= lo,
        lo <= hi <= cs.len(),
        no_free_between(new_cs, lo + 1, hi + 1),
    ensures
        no_free_between(cs, lo, hi),
{
    assert forall|t: int| lo < t < hi implies !(#[trigger] cs[t]).free by {
        assert(new_cs[t + 1] == cs[t]);
        assert(lo + 1 < t + 1 < hi + 1);
    };
}

} // verus!
