//! The C library's heap: a first-fit allocator over a free list of blocks kept in address
//! order, each block led by a header of 8 bytes that records its usable size. Blocks are split
//! when what is left is worth keeping, and merged with their neighbours when freed. New memory
//! comes from the kernel a page at a time.

use vstd::prelude::*;
use std::collections::BTreeMap;

verus! {

broadcast use vstd::laws_cmp::group_laws_cmp;

/// The size of a block's header: its usable size and the link to the next free block.
pub const BLOCK_HEADER_SIZE: u32 = 8;

/// The smallest usable size handed out.
pub const MIN_ALLOC: u32 = 16;

pub const PAGE_SIZE: u32 = 4096;

/// Where the heap asks the kernel to put its first pages.
pub const HEAP_START_HINT: u32 = 0x8000_0000;

/// A block of the heap: the address of its header and its usable size after the header.
#[derive(Copy, Clone, Debug, PartialEq, Eq, Structural)]
pub struct Block {
    pub addr: u32,
    pub size: u32,
}

/// One past the last byte of a block.
pub open spec fn block_end(b: Block) -> int {
    b.addr + BLOCK_HEADER_SIZE + b.size
}

/// Every block ends within the address space.
pub open spec fn blocks_bounded(s: Seq<Block>) -> bool {
    forall|i: int| 0 <= i < s.len() ==> block_end(#[trigger] s[i]) <= u32::MAX
}

/// The blocks are in address order and do not overlap.
pub open spec fn blocks_ordered(s: Seq<Block>) -> bool {
    forall|i: int, j: int| 0 <= i < j < s.len() ==> block_end(#[trigger] s[i]) <= (#[trigger] s[j]).addr
}

/// A block shares no byte with any block of a list.
pub open spec fn apart(s: Seq<Block>, b: Block) -> bool {
    forall|i: int| 0 <= i < s.len() ==> block_end(#[trigger] s[i]) <= b.addr || block_end(b) <= s[i].addr
}

/// The index of the first block at or above `addr`.
pub open spec fn insert_point(s: Seq<Block>, addr: u32, i: int) -> int
    decreases s.len() - i,
{
    if i < 0 || i >= s.len() {
        s.len() as int
    } else if s[i].addr >= addr {
        i
    } else {
        insert_point(s, addr, i + 1)
    }
}

/// Two blocks, the first directly followed by the second, as one.
pub open spec fn joined(a: Block, b: Block) -> Block {
    Block { addr: a.addr, size: (a.size + BLOCK_HEADER_SIZE + b.size) as u32 }
}

/// The free list after `b` is put in it: at its place in address order, joined with the block
/// after it and then with the block before it where they touch.
pub open spec fn with_free(s: Seq<Block>, b: Block) -> Seq<Block> {
    let i = insert_point(s, b.addr, 0);
    let next_touches = i < s.len() && block_end(b) == s[i].addr;
    let merged = if next_touches { joined(b, s[i]) } else { b };
    let rest = if next_touches { s.skip(i + 1) } else { s.skip(i) };
    if i > 0 && block_end(s[i - 1]) == b.addr {
        s.take(i - 1) + seq![joined(s[i - 1], merged)] + rest
    } else {
        s.take(i) + seq![merged] + rest
    }
}

/// The size a request is served with: at least `MIN_ALLOC`, else rounded up to 8.
pub open spec fn request_size(size: u32) -> u32 {
    if size < MIN_ALLOC {
        MIN_ALLOC
    } else {
        ((size + 7) as u32) & !7u32
    }
}

/// The index of the first block from `i` large enough for `req`, or the count of blocks.
pub open spec fn first_fit(s: Seq<Block>, req: u32, i: int) -> int
    decreases s.len() - i,
{
    if i < 0 || i >= s.len() {
        s.len() as int
    } else if s[i].size >= req {
        i
    } else {
        first_fit(s, req, i + 1)
    }
}

/// What is left of a block of `size` after `req` bytes go out is kept as a free block.
pub open spec fn splits(size: u32, req: u32) -> bool {
    size - req > BLOCK_HEADER_SIZE + MIN_ALLOC
}

/// The free block left after `req` bytes of `b` go out.
pub open spec fn tail_of(b: Block, req: u32) -> Block {
    Block { addr: (b.addr + BLOCK_HEADER_SIZE + req) as u32, size: (b.size - req - BLOCK_HEADER_SIZE) as u32 }
}

/// The bytes asked of the kernel for a request: whole pages holding it and a header.
pub open spec fn pages_for(req: u32) -> u32 {
    (((req + BLOCK_HEADER_SIZE + PAGE_SIZE - 1) / PAGE_SIZE as int) * PAGE_SIZE) as u32
}

proof fn lemma_first_fit(s: Seq<Block>, req: u32, i: int)
    requires
        0 <= i <= s.len(),
    ensures
        i <= first_fit(s, req, i) <= s.len(),
        first_fit(s, req, i) < s.len() ==> s[first_fit(s, req, i)].size >= req,
        forall|j: int| i <= j < first_fit(s, req, i) ==> #[trigger] s[j].size < req,
    decreases s.len() - i,
{
    if i < s.len() && s[i].size < req {
        lemma_first_fit(s, req, i + 1);
    }
}

/// Blocks are searched from the lowest address: the block chosen is large enough and every
/// free block before it is too small; the count of blocks comes back exactly when none is
/// large enough.
pub proof fn law_heap_first_fit(s: Seq<Block>, req: u32)
    ensures
        0 <= first_fit(s, req, 0) <= s.len(),
        first_fit(s, req, 0) < s.len() ==> s[first_fit(s, req, 0)].size >= req,
        forall|j: int| 0 <= j < first_fit(s, req, 0) ==> #[trigger] s[j].size < req,
        first_fit(s, req, 0) == s.len() <==> forall|j: int| 0 <= j < s.len() ==> #[trigger] s[j].size < req,
{
    lemma_first_fit(s, req, 0);
}

/// Splitting a block: the part handed out keeps the block's header and `req` bytes, and what
/// is left becomes a free block with a header of its own right after them, ending where the
/// block ended and larger than the smallest allocation.
pub proof fn law_split_block(b: Block, req: u32)
    requires
        req <= b.size,
        splits(b.size, req),
        b.addr + BLOCK_HEADER_SIZE + b.size <= u32::MAX,
    ensures
        tail_of(b, req).addr == b.addr + BLOCK_HEADER_SIZE + req,
        block_end(tail_of(b, req)) == block_end(b),
        tail_of(b, req).size > MIN_ALLOC,
{
}

/// The kernel is asked for whole pages that hold the request and its header, with less than
/// a page to spare.
pub proof fn law_pages_for(req: u32)
    requires
        req + BLOCK_HEADER_SIZE + PAGE_SIZE - 1 <= u32::MAX,
    ensures
        pages_for(req) % 4096 == 0,
        req + BLOCK_HEADER_SIZE <= pages_for(req) < req + BLOCK_HEADER_SIZE + 4096,
{
    let n = req + BLOCK_HEADER_SIZE + PAGE_SIZE - 1;
    let q = n / 4096;
    assert(q * 4096 <= n < q * 4096 + 4096) by (nonlinear_arith)
        requires
            q == n / 4096,
            n >= 0,
    ;
    assert((q * 4096) % 4096 == 0) by {
        vstd::arithmetic::div_mod::lemma_mod_multiples_basic(q, 4096);
    }
}

/// What `malloc` does next.
pub enum MallocStep {
    /// The result: the address of the usable bytes, or none.
    Done(Option<u32>),
    /// Map `size` bytes near `hint`, then hand the outcome to `grow` with the request `req`.
    NeedPages { hint: u32, size: u32, req: u32 },
}

/// What `realloc` does next.
pub enum ReallocStep {
    /// The result.
    Done(Option<u32>),
    /// No block yet: the outcome of `malloc`.
    Allocate(MallocStep),
    /// A larger block is needed: allocate one, copy `old_size` bytes to it, then free the old one.
    Move { old_size: u32 },
}

/// The heap: the free list, the usable size recorded in the header of each block handed out,
/// and the span of the address space the heap has used.
pub struct Heap {
    free: Vec<Block>,
    allocated: BTreeMap<u32, u32>,
    heap_base: u32,
    heap_end: u32,
}

impl Heap {
    pub closed spec fn free_list(&self) -> Seq<Block> {
        self.free@
    }

    /// The usable size of each block handed out, by the address of its header.
    pub closed spec fn in_use(&self) -> Map<u32, u32> {
        self.allocated@
    }

    pub closed spec fn base(&self) -> u32 {
        self.heap_base
    }

    pub closed spec fn end(&self) -> u32 {
        self.heap_end
    }

    /// Every block, free or handed out, ends within the address space.
    pub open spec fn wf(&self) -> bool {
        &&& blocks_bounded(self.free_list())
        &&& forall|a: u32| #[trigger] self.in_use().contains_key(a) ==> a + BLOCK_HEADER_SIZE + self.in_use()[a] <= u32::MAX
    }

    pub fn new() -> (r: Self)
        ensures
            r.wf(),
            r.free_list() == Seq::<Block>::empty(),
            r.in_use() == Map::<u32, u32>::empty(),
            r.base() == 0,
            r.end() == 0,
    {
        Heap { free: Vec::new(), allocated: BTreeMap::new(), heap_base: 0, heap_end: 0 }
    }

    /// Puts a block in the free list, in address order, joined with the blocks it touches.
    pub fn insert_free(&mut self, block: Block)
        requires
            old(self).wf(),
            block_end(block) <= u32::MAX,
        ensures
            final(self).wf(),
            final(self).free_list() == with_free(old(self).free_list(), block),
            final(self).in_use() == old(self).in_use(),
            final(self).base() == old(self).base(),
            final(self).end() == old(self).end(),
    {
        let ghost s = self.free@;
        let mut i: usize = 0;
        while i < self.free.len() && self.free[i].addr < block.addr
            invariant
                i <= self.free@.len(),
                self.free@ == s,
                insert_point(s, block.addr, i as int) == insert_point(s, block.addr, 0),
            decreases self.free@.len() - i,
        {
            i = i + 1;
        }
        proof {
            assert(insert_point(s, block.addr, i as int) == i);
        }
        let len = self.free.len();
        let next_touches = i < len && block.addr as u64 + 8 + block.size as u64 == self.free[i].addr as u64;
        let merged = if next_touches {
            let n = self.free[i];
            Block { addr: block.addr, size: block.size + 8 + n.size }
        } else {
            block
        };
        let mut out: Vec<Block> = Vec::new();
        let prev_touches = i > 0 && self.free[i - 1].addr as u64 + 8 + self.free[i - 1].size as u64 == block.addr as u64;
        let keep = if prev_touches { i - 1 } else { i };
        let mut k: usize = 0;
        while k < keep
            invariant
                k <= keep,
                keep <= i <= s.len(),
                self.free@ == s,
                out@ == s.take(k as int),
            decreases keep - k,
        {
            out.push(self.free[k]);
            k = k + 1;
            proof {
                assert(out@ =~= s.take(k as int));
            }
        }
        if prev_touches {
            let p = self.free[i - 1];
            out.push(Block { addr: p.addr, size: p.size + 8 + merged.size });
        } else {
            out.push(merged);
        }
        let mut k: usize = if next_touches { i + 1 } else { i };
        let ghost from = k as int;
        let ghost head = out@;
        while k < len
            invariant
                0 <= from <= k <= len,
                len == s.len(),
                self.free@ == s,
                out@ == head + s.subrange(from, k as int),
            decreases len - k,
        {
            out.push(self.free[k]);
            k = k + 1;
            proof {
                assert(out@ =~= head + s.subrange(from, k as int));
            }
        }
        proof {
            assert(out@ =~= with_free(s, block));
            assert(blocks_bounded(out@)) by {
                assert forall|m: int| 0 <= m < out@.len() implies block_end(#[trigger] out@[m]) <= u32::MAX by {
                    if m < keep {
                        assert(out@[m] == s[m]);
                    } else if m == keep {
                        if next_touches {
                            assert(block_end(s[i as int]) <= u32::MAX);
                            assert(block_end(merged) == block_end(s[i as int]));
                        }
                        assert(block_end(merged) <= u32::MAX);
                        if prev_touches {
                            assert(block_end(s[i - 1]) == block.addr);
                            assert(out@[m] == joined(s[i - 1], merged));
                        }
                    } else if m > keep {
                        assert(out@[m] == s[from + (m - keep - 1)]);
                    }
                }
            }
        }
        self.free = out;
        proof {
            assert(self.allocated@ == old(self).allocated@);
            assert forall|a: u32| #[trigger] self.in_use().contains_key(a) implies a + BLOCK_HEADER_SIZE
                + self.in_use()[a] <= u32::MAX by {
                assert(old(self).in_use().contains_key(a));
            }
        }
    }
}

/// The largest request the heap serves: larger ones could not fit the address space with their
/// header and page rounding.
pub const MAX_REQUEST: u32 = 0xFFFF_EFE0;

proof fn lemma_round_to_8(x: u32)
    by (bit_vector)
    ensures
        x & !7u32 == x - x % 8,
{
}

fn request_size_of(size: u32) -> (r: u32)
    requires
        size <= MAX_REQUEST,
    ensures
        r == request_size(size),
        size <= r <= size + 16,
        r >= MIN_ALLOC,
        r % 8 == 0,
{
    if size < MIN_ALLOC {
        MIN_ALLOC
    } else {
        let r = (size + 7) & !7u32;
        proof {
            lemma_round_to_8((size + 7) as u32);
        }
        r
    }
}

fn pages_for_request(req: u32) -> (r: u32)
    requires
        req <= MAX_REQUEST + 16,
    ensures
        r == pages_for(req),
        r >= req + BLOCK_HEADER_SIZE,
{
    let total = req + BLOCK_HEADER_SIZE + PAGE_SIZE - 1;
    let pages = total / PAGE_SIZE;
    assert(pages * 4096 <= total && pages * 4096 > total - 4096) by (nonlinear_arith)
        requires
            pages == total / 4096,
    ;
    pages * PAGE_SIZE
}


/// What `malloc` of `size` bytes does to a heap and returns: nothing for 0; else the first
/// free block large enough for the request's size, split when enough is left; else the pages
/// to map, the heap unchanged.
pub open spec fn malloc_outcome(before: Heap, after: Heap, size: u32, r: MallocStep) -> bool {
    &&& after.base() == before.base()
    &&& after.end() == before.end()
    &&& size == 0 ==> r == MallocStep::Done(None) && after == before
    &&& size > 0 ==> ({
        let s = before.free_list();
        let req = request_size(size);
        let k = first_fit(s, req, 0);
        if k < s.len() {
            let b = s[k];
            &&& r == MallocStep::Done(Some((b.addr + BLOCK_HEADER_SIZE) as u32))
            &&& splits(b.size, req) ==> after.free_list() == s.update(k, tail_of(b, req))
                && after.in_use() == before.in_use().insert(b.addr, req)
            &&& !splits(b.size, req) ==> after.free_list() == s.remove(k)
                && after.in_use() == before.in_use().insert(b.addr, b.size)
        } else {
            &&& r == MallocStep::NeedPages {
                hint: if before.end() == 0 { HEAP_START_HINT } else { before.end() },
                size: pages_for(req),
                req,
            }
            &&& after == before
        }
    })
}

impl Heap {
    /// Serves a request of `size` bytes: none for 0; else the first free block large enough
    /// for the request's size, split when enough is left; else the pages to map.
    pub fn malloc(&mut self, size: u32) -> (r: MallocStep)
        requires
            old(self).wf(),
            size <= MAX_REQUEST,
        ensures
            final(self).wf(),
            final(self).base() == old(self).base(),
            final(self).end() == old(self).end(),
            malloc_outcome(*old(self), *final(self), size, r),
    {
        if size == 0 {
            return MallocStep::Done(None);
        }
        let req = request_size_of(size);
        let ghost s = self.free@;
        let mut k: usize = 0;
        while k < self.free.len() && self.free[k].size < req
            invariant
                k <= self.free@.len(),
                self.free@ == s,
                first_fit(s, req, k as int) == first_fit(s, req, 0),
            decreases self.free@.len() - k,
        {
            k = k + 1;
        }
        if k == self.free.len() {
            let hint = if self.heap_end == 0 { HEAP_START_HINT } else { self.heap_end };
            return MallocStep::NeedPages { hint, size: pages_for_request(req), req };
        }
        proof {
            assert(first_fit(s, req, k as int) == k);
        }
        let b = self.free[k];
        assert(block_end(s[k as int]) <= u32::MAX);
        let remaining = b.size - req;
        if remaining > BLOCK_HEADER_SIZE + MIN_ALLOC {
            let tail = Block { addr: b.addr + BLOCK_HEADER_SIZE + req, size: remaining - BLOCK_HEADER_SIZE };
            self.free.set(k, tail);
            self.allocated.insert(b.addr, req);
        } else {
            self.free.remove(k);
            self.allocated.insert(b.addr, b.size);
        }
        proof {
            assert forall|m: int| 0 <= m < self.free@.len() implies block_end(#[trigger] self.free@[m]) <= u32::MAX by {
                if remaining > BLOCK_HEADER_SIZE + MIN_ALLOC {
                    if m != k {
                        assert(self.free@[m] == s[m]);
                    }
                } else if m < k {
                    assert(self.free@[m] == s[m]);
                } else {
                    assert(self.free@[m] == s[m + 1]);
                }
            }
            assert forall|a: u32| #[trigger] self.in_use().contains_key(a) implies a + BLOCK_HEADER_SIZE
                + self.in_use()[a] <= u32::MAX by {
                if a != b.addr {
                    assert(old(self).in_use().contains_key(a));
                }
            }
        }
        MallocStep::Done(Some(b.addr + BLOCK_HEADER_SIZE))
    }

    /// Finishes a request with the pages the kernel mapped for it, if it did: their first block
    /// is handed out, split when enough is left, and the heap's span grows to cover them.
    pub fn grow(&mut self, req: u32, alloc_size: u32, mapped: Option<u32>) -> (r: Option<u32>)
        requires
            old(self).wf(),
            alloc_size >= req + BLOCK_HEADER_SIZE,
            mapped matches Some(a) ==> a + alloc_size <= u32::MAX,
        ensures
            final(self).wf(),
            match mapped {
                None => r is None && *final(self) == *old(self),
                Some(a) => {
                    let b = Block { addr: a, size: (alloc_size - BLOCK_HEADER_SIZE) as u32 };
                    &&& r == Some((a + BLOCK_HEADER_SIZE) as u32)
                    &&& final(self).base() == if old(self).base() == 0 { a } else { old(self).base() }
                    &&& final(self).end() == if a + alloc_size > old(self).end() {
                        (a + alloc_size) as u32
                    } else {
                        old(self).end()
                    }
                    &&& splits(b.size, req) ==> final(self).free_list() == with_free(
                        old(self).free_list(),
                        tail_of(b, req),
                    ) && final(self).in_use() == old(self).in_use().insert(a, req)
                    &&& !splits(b.size, req) ==> final(self).free_list() == old(self).free_list()
                        && final(self).in_use() == old(self).in_use().insert(a, b.size)
                },
            },
    {
        let a = match mapped {
            None => return None,
            Some(a) => a,
        };
        if self.heap_base == 0 {
            self.heap_base = a;
        }
        let new_end = a + alloc_size;
        if new_end > self.heap_end {
            self.heap_end = new_end;
        }
        let size = alloc_size - BLOCK_HEADER_SIZE;
        let remaining = size - req;
        proof {
            assert forall|x: u32| #[trigger] self.in_use().contains_key(x) implies x + BLOCK_HEADER_SIZE
                + self.in_use()[x] <= u32::MAX by {
                assert(old(self).in_use().contains_key(x));
            }
        }
        if remaining > BLOCK_HEADER_SIZE + MIN_ALLOC {
            let tail = Block { addr: a + BLOCK_HEADER_SIZE + req, size: remaining - BLOCK_HEADER_SIZE };
            self.insert_free(tail);
            self.allocated.insert(a, req);
        } else {
            self.allocated.insert(a, size);
        }
        proof {
            assert forall|x: u32| #[trigger] self.in_use().contains_key(x) implies x + BLOCK_HEADER_SIZE
                + self.in_use()[x] <= u32::MAX by {
                if x != a {
                    assert(old(self).in_use().contains_key(x));
                }
            }
        }
        Some(a + BLOCK_HEADER_SIZE)
    }

    /// Gives back the block whose usable bytes start at `ptr`; 0 gives back nothing.
    pub fn free(&mut self, ptr: u32)
        requires
            old(self).wf(),
            ptr != 0 ==> ptr >= BLOCK_HEADER_SIZE && old(self).in_use().contains_key(
                (ptr - BLOCK_HEADER_SIZE) as u32,
            ),
        ensures
            final(self).wf(),
            final(self).base() == old(self).base(),
            final(self).end() == old(self).end(),
            ptr == 0 ==> *final(self) == *old(self),
            ptr != 0 ==> {
                let a = (ptr - BLOCK_HEADER_SIZE) as u32;
                &&& final(self).free_list() == with_free(
                    old(self).free_list(),
                    Block { addr: a, size: old(self).in_use()[a] },
                )
                &&& final(self).in_use() == old(self).in_use().remove(a)
            },
    {
        if ptr == 0 {
            return;
        }
        let a = ptr - BLOCK_HEADER_SIZE;
        let size = match self.allocated.get(&a) {
            Some(s) => *s,
            None => 0,
        };
        self.allocated.remove(&a);
        proof {
            assert(old(self).in_use().contains_key(a));
            assert forall|x: u32| #[trigger] self.in_use().contains_key(x) implies x + BLOCK_HEADER_SIZE
                + self.in_use()[x] <= u32::MAX by {
                assert(old(self).in_use().contains_key(x));
            }
        }
        self.insert_free(Block { addr: a, size });
    }

    /// `malloc` of `nmemb * size` bytes in wrapping arithmetic; the caller zeroes the bytes it
    /// gets. None for a product of 0.
    pub fn calloc(&mut self, nmemb: u32, size: u32) -> (r: MallocStep)
        requires
            old(self).wf(),
            nmemb.wrapping_mul(size) <= MAX_REQUEST,
        ensures
            final(self).wf(),
            malloc_outcome(*old(self), *final(self), nmemb.wrapping_mul(size), r),
    {
        let total = nmemb.wrapping_mul(size);
        if total == 0 {
            return MallocStep::Done(None);
        }
        self.malloc(total)
    }

    /// Resizes the block at `ptr`: 0 allocates, a size of 0 frees, a size that fits keeps the
    /// block, a larger one moves it.
    pub fn realloc(&mut self, ptr: u32, new_size: u32) -> (r: ReallocStep)
        requires
            old(self).wf(),
            new_size <= MAX_REQUEST,
            ptr != 0 ==> ptr >= BLOCK_HEADER_SIZE && old(self).in_use().contains_key(
                (ptr - BLOCK_HEADER_SIZE) as u32,
            ),
        ensures
            final(self).wf(),
            ptr != 0 && new_size == 0 ==> r == ReallocStep::Done(None) && ({
                let a = (ptr - BLOCK_HEADER_SIZE) as u32;
                &&& final(self).free_list() == with_free(
                    old(self).free_list(),
                    Block { addr: a, size: old(self).in_use()[a] },
                )
                &&& final(self).in_use() == old(self).in_use().remove(a)
            }),
            ptr != 0 && new_size > 0 ==> *final(self) == *old(self) && ({
                let old_size = old(self).in_use()[(ptr - BLOCK_HEADER_SIZE) as u32];
                if new_size <= old_size {
                    r == ReallocStep::Done(Some(ptr))
                } else {
                    r == ReallocStep::Move { old_size }
                }
            }),
            ptr == 0 ==> (r matches ReallocStep::Allocate(step) && malloc_outcome(
                *old(self),
                *final(self),
                new_size,
                step,
            )),
    {
        if ptr == 0 {
            return ReallocStep::Allocate(self.malloc(new_size));
        }
        if new_size == 0 {
            self.free(ptr);
            return ReallocStep::Done(None);
        }
        let a = ptr - BLOCK_HEADER_SIZE;
        let old_size = match self.allocated.get(&a) {
            Some(s) => *s,
            None => 0,
        };
        if new_size <= old_size {
            return ReallocStep::Done(Some(ptr));
        }
        ReallocStep::Move { old_size }
    }
}

proof fn lemma_insert_point(s: Seq<Block>, addr: u32, i: int)
    requires
        0 <= i <= s.len(),
        forall|j: int| 0 <= j < i ==> s[j].addr < addr,
    ensures
        i <= insert_point(s, addr, i) <= s.len(),
        forall|j: int| 0 <= j < insert_point(s, addr, i) ==> s[j].addr < addr,
        insert_point(s, addr, i) < s.len() ==> s[insert_point(s, addr, i)].addr >= addr,
    decreases s.len() - i,
{
    if i < s.len() && s[i].addr < addr {
        lemma_insert_point(s, addr, i + 1);
    }
}

/// A block placed between two ordered lists, after the first and before the second, keeps
/// the whole list ordered.
proof fn lemma_ordered_around(a: Seq<Block>, m: Block, b: Seq<Block>)
    requires
        blocks_ordered(a),
        blocks_ordered(b),
        forall|j: int| 0 <= j < a.len() ==> block_end(#[trigger] a[j]) <= m.addr,
        forall|j: int| 0 <= j < b.len() ==> block_end(m) <= (#[trigger] b[j]).addr,
        forall|j: int, k: int| 0 <= j < a.len() && 0 <= k < b.len() ==> block_end(#[trigger] a[j]) <= (#[trigger] b[k]).addr,
    ensures
        blocks_ordered(a + seq![m] + b),
{
    let t = a + seq![m] + b;
    assert forall|p: int, q: int| 0 <= p < q < t.len() implies block_end(#[trigger] t[p]) <= (#[trigger] t[q]).addr by {
        if q < a.len() {
            assert(t[p] == a[p] && t[q] == a[q]);
        } else if q == a.len() {
            assert(t[p] == a[p] && t[q] == m);
        } else if p < a.len() {
            assert(t[p] == a[p] && t[q] == b[q - a.len() - 1]);
        } else if p == a.len() {
            assert(t[p] == m && t[q] == b[q - a.len() - 1]);
        } else {
            assert(t[p] == b[p - a.len() - 1] && t[q] == b[q - a.len() - 1]);
        }
    }
}

/// Freeing keeps the free list in address order: a block that shares no byte with the free
/// blocks goes in at its place, and joining it with its neighbours keeps the order.
pub proof fn law_free_keeps_order(s: Seq<Block>, b: Block)
    requires
        blocks_ordered(s),
        blocks_bounded(s),
        block_end(b) <= u32::MAX,
        apart(s, b),
    ensures
        blocks_ordered(with_free(s, b)),
        blocks_bounded(with_free(s, b)),
{
    lemma_insert_point(s, b.addr, 0);
    let i = insert_point(s, b.addr, 0);
    assert forall|j: int| 0 <= j < i implies block_end(#[trigger] s[j]) <= b.addr by {
        assert(s[j].addr < b.addr);
    }
    assert forall|j: int| i <= j < s.len() implies block_end(b) <= (#[trigger] s[j]).addr by {
        if j > i {
            assert(block_end(s[i]) <= s[j].addr);
        }
    }
    let next_touches = i < s.len() && block_end(b) == s[i].addr;
    let merged = if next_touches { joined(b, s[i]) } else { b };
    let r0 = if next_touches { i + 1 } else { i };
    let rest = s.skip(r0);
    if next_touches {
        assert(block_end(s[i]) <= u32::MAX);
        assert(block_end(merged) == block_end(s[i]));
    }
    assert(merged.addr == b.addr);
    assert(block_end(merged) <= u32::MAX);
    assert forall|j: int| 0 <= j < rest.len() implies block_end(merged) <= (#[trigger] rest[j]).addr by {
        assert(rest[j] == s[r0 + j]);
        if next_touches {
            assert(block_end(s[i]) <= s[r0 + j].addr);
        }
    }
    assert(blocks_ordered(rest)) by {
        assert forall|p: int, q: int| 0 <= p < q < rest.len() implies block_end(#[trigger] rest[p]) <= (#[trigger] rest[q]).addr by {
            assert(rest[p] == s[r0 + p] && rest[q] == s[r0 + q]);
        }
    }
    if i > 0 && block_end(s[i - 1]) == b.addr {
        let a = s.take(i - 1);
        let m = joined(s[i - 1], merged);
        assert(block_end(m) == block_end(merged));
        assert(blocks_ordered(a)) by {
            assert forall|p: int, q: int| 0 <= p < q < a.len() implies block_end(#[trigger] a[p]) <= (#[trigger] a[q]).addr by {
                assert(a[p] == s[p] && a[q] == s[q]);
            }
        }
        assert forall|j: int| 0 <= j < a.len() implies block_end(#[trigger] a[j]) <= m.addr by {
            assert(a[j] == s[j]);
            assert(block_end(s[j]) <= s[i - 1].addr);
        }
        assert forall|j: int, k: int| 0 <= j < a.len() && 0 <= k < rest.len() implies block_end(#[trigger] a[j]) <= (#[trigger] rest[k]).addr by {
            assert(a[j] == s[j] && rest[k] == s[r0 + k]);
        }
        lemma_ordered_around(a, m, rest);
        assert(with_free(s, b) == a + seq![m] + rest);
        assert(blocks_bounded(with_free(s, b))) by {
            let t = a + seq![m] + rest;
            assert forall|p: int| 0 <= p < t.len() implies block_end(#[trigger] t[p]) <= u32::MAX by {
                if p < a.len() {
                    assert(t[p] == s[p]);
                } else if p > a.len() {
                    assert(t[p] == s[r0 + p - a.len() - 1]);
                }
            }
        }
    } else {
        let a = s.take(i);
        assert(blocks_ordered(a)) by {
            assert forall|p: int, q: int| 0 <= p < q < a.len() implies block_end(#[trigger] a[p]) <= (#[trigger] a[q]).addr by {
                assert(a[p] == s[p] && a[q] == s[q]);
            }
        }
        assert forall|j: int| 0 <= j < a.len() implies block_end(#[trigger] a[j]) <= merged.addr by {
            assert(a[j] == s[j]);
        }
        assert forall|j: int, k: int| 0 <= j < a.len() && 0 <= k < rest.len() implies block_end(#[trigger] a[j]) <= (#[trigger] rest[k]).addr by {
            assert(a[j] == s[j] && rest[k] == s[r0 + k]);
        }
        lemma_ordered_around(a, merged, rest);
        assert(with_free(s, b) == a + seq![merged] + rest);
        assert(blocks_bounded(with_free(s, b))) by {
            let t = a + seq![merged] + rest;
            assert forall|p: int| 0 <= p < t.len() implies block_end(#[trigger] t[p]) <= u32::MAX by {
                if p < a.len() {
                    assert(t[p] == s[p]);
                } else if p > a.len() {
                    assert(t[p] == s[r0 + p - a.len() - 1]);
                }
            }
        }
    }
}

/// Handing out the first block that fits keeps the free list in address order: what stays free
/// of it lies at its end.
pub proof fn law_malloc_keeps_order(s: Seq<Block>, req: u32)
    requires
        blocks_ordered(s),
        blocks_bounded(s),
        first_fit(s, req, 0) < s.len(),
    ensures
        ({
            let k = first_fit(s, req, 0);
            let b = s[k];
            &&& splits(b.size, req) ==> blocks_ordered(s.update(k, tail_of(b, req)))
            &&& !splits(b.size, req) ==> blocks_ordered(s.remove(k))
        }),
{
    let k = first_fit(s, req, 0);
    lemma_first_fit(s, req, 0);
    let b = s[k];
    assert(block_end(b) <= u32::MAX);
    if splits(b.size, req) {
        let t = s.update(k, tail_of(b, req));
        assert(block_end(tail_of(b, req)) == block_end(b));
        assert forall|p: int, q: int| 0 <= p < q < t.len() implies block_end(#[trigger] t[p]) <= (#[trigger] t[q]).addr by {
            assert(block_end(s[p]) <= s[q].addr);
            if q == k {
                assert(s[q].addr <= t[q].addr);
            }
        }
    } else {
        let t = s.remove(k);
        assert forall|p: int, q: int| 0 <= p < q < t.len() implies block_end(#[trigger] t[p]) <= (#[trigger] t[q]).addr by {
            let sp = if p < k { p } else { p + 1 };
            let sq = if q < k { q } else { q + 1 };
            assert(t[p] == s[sp] && t[q] == s[sq]);
        }
    }
}

/// The byte at `x` lies in a block, header included.
pub open spec fn in_block(b: Block, x: int) -> bool {
    b.addr <= x < block_end(b)
}

/// The byte at `x` lies in some block of a list.
pub open spec fn covered(s: Seq<Block>, x: int) -> bool {
    exists|i: int| 0 <= i < s.len() && in_block(#[trigger] s[i], x)
}

/// The blocks are in address order, and no block ends where the next begins: neighbours that
/// touch have been joined.
pub open spec fn coalesced(s: Seq<Block>) -> bool {
    forall|i: int, j: int| 0 <= i < j < s.len() ==> block_end(#[trigger] s[i]) < (#[trigger] s[j]).addr
}

proof fn lemma_covered_concat(a: Seq<Block>, b: Seq<Block>, x: int)
    ensures
        covered(a + b, x) <==> covered(a, x) || covered(b, x),
{
    let c = a + b;
    if covered(c, x) {
        let i = choose|i: int| 0 <= i < c.len() && in_block(#[trigger] c[i], x);
        if i < a.len() {
            assert(c[i] == a[i]);
        } else {
            assert(c[i] == b[i - a.len()]);
        }
    }
    if covered(a, x) {
        let i = choose|i: int| 0 <= i < a.len() && in_block(#[trigger] a[i], x);
        assert(c[i] == a[i]);
    }
    if covered(b, x) {
        let i = choose|i: int| 0 <= i < b.len() && in_block(#[trigger] b[i], x);
        assert(c[i + a.len()] == b[i]);
    }
}

proof fn lemma_covered_one(m: Block, x: int)
    ensures
        covered(seq![m], x) <==> in_block(m, x),
{
    if in_block(m, x) {
        assert(seq![m][0] == m);
    }
}

/// A list splits at any position into what comes before and what comes after.
proof fn lemma_covered_split(s: Seq<Block>, p: int, x: int)
    requires
        0 <= p <= s.len(),
    ensures
        covered(s, x) <==> covered(s.take(p), x) || covered(s.skip(p), x),
{
    assert(s =~= s.take(p) + s.skip(p));
    lemma_covered_concat(s.take(p), s.skip(p), x);
}

proof fn lemma_free_covers(s: Seq<Block>, b: Block, x: int)
    requires
        blocks_ordered(s),
        blocks_bounded(s),
        block_end(b) <= u32::MAX,
        apart(s, b),
    ensures
        covered(with_free(s, b), x) <==> covered(s, x) || in_block(b, x),
{
    lemma_insert_point(s, b.addr, 0);
    let i = insert_point(s, b.addr, 0);
    assert forall|j: int| 0 <= j < i implies block_end(#[trigger] s[j]) <= b.addr by {
        assert(s[j].addr < b.addr);
    }
    assert forall|j: int| i <= j < s.len() implies block_end(b) <= (#[trigger] s[j]).addr by {
        if j > i {
            assert(block_end(s[i]) <= s[j].addr);
        }
    }
    let next_touches = i < s.len() && block_end(b) == s[i].addr;
    let merged = if next_touches { joined(b, s[i]) } else { b };
    let r0 = if next_touches { i + 1 } else { i };
    let rest = s.skip(r0);
    if next_touches {
        assert(block_end(s[i]) <= u32::MAX);
        assert(block_end(merged) == block_end(s[i]));
    }
    assert(merged.addr == b.addr);
    // what the joined block covers
    assert(in_block(merged, x) <==> in_block(b, x) || (next_touches && in_block(s[i], x)));
    lemma_covered_one(merged, x);
    lemma_covered_split(s, r0, x);
    if next_touches {
        lemma_covered_split(s.take(i + 1), i, x);
        assert(s.take(i + 1).take(i) =~= s.take(i));
        assert(s.take(i + 1).skip(i) =~= seq![s[i]]);
        lemma_covered_one(s[i], x);
    }
    let prev_touches = i > 0 && block_end(s[i - 1]) == b.addr;
    if prev_touches {
        let a = s.take(i - 1);
        let m = joined(s[i - 1], merged);
        assert(block_end(s[i - 1]) <= u32::MAX);
        assert(block_end(m) == block_end(merged));
        assert(in_block(m, x) <==> in_block(s[i - 1], x) || in_block(merged, x));
        assert(with_free(s, b) == a + seq![m] + rest);
        lemma_covered_concat(a + seq![m], rest, x);
        lemma_covered_concat(a, seq![m], x);
        lemma_covered_one(m, x);
        lemma_covered_one(s[i - 1], x);
        lemma_covered_split(s.take(i), i - 1, x);
        assert(s.take(i).take(i - 1) =~= a);
        assert(s.take(i).skip(i - 1) =~= seq![s[i - 1]]);
        assert(s.take(r0).take(i) =~= s.take(i));
        lemma_covered_split(s.take(r0), i, x);
        if !next_touches {
            assert(s.take(r0).skip(i).len() == 0);
            assert(!covered(s.take(r0).skip(i), x));
        } else {
            assert(s.take(r0).skip(i) =~= seq![s[i]]);
        }
    } else {
        let a = s.take(i);
        assert(with_free(s, b) == a + seq![merged] + rest);
        lemma_covered_concat(a + seq![merged], rest, x);
        lemma_covered_concat(a, seq![merged], x);
        if !next_touches {
            assert(s.take(r0) =~= a);
        } else {
            lemma_covered_split(s.take(r0), i, x);
            assert(s.take(r0).take(i) =~= a);
            assert(s.take(r0).skip(i) =~= seq![s[i]]);
        }
    }
}

#[verifier::spinoff_prover]
#[verifier::rlimit(40)]
proof fn lemma_free_coalesces(s: Seq<Block>, b: Block)
    requires
        blocks_ordered(s),
        blocks_bounded(s),
        block_end(b) <= u32::MAX,
        apart(s, b),
    ensures
        coalesced(s) ==> coalesced(with_free(s, b)),
{
    lemma_insert_point(s, b.addr, 0);
    let i = insert_point(s, b.addr, 0);
    assert forall|j: int| 0 <= j < i implies block_end(#[trigger] s[j]) <= b.addr by {
        assert(s[j].addr < b.addr);
    }
    assert forall|j: int| i <= j < s.len() implies block_end(b) <= (#[trigger] s[j]).addr by {
        if j > i {
            assert(block_end(s[i]) <= s[j].addr);
        }
    }
    let next_touches = i < s.len() && block_end(b) == s[i].addr;
    let merged = if next_touches { joined(b, s[i]) } else { b };
    let r0 = if next_touches { i + 1 } else { i };
    let rest = s.skip(r0);
    if next_touches {
        assert(block_end(s[i]) <= u32::MAX);
        assert(block_end(merged) == block_end(s[i]));
    }
    assert(merged.addr == b.addr);
    let prev_touches = i > 0 && block_end(s[i - 1]) == b.addr;
    if prev_touches {
        let a = s.take(i - 1);
        let m = joined(s[i - 1], merged);
        assert(block_end(s[i - 1]) <= u32::MAX);
        assert(block_end(m) == block_end(merged));
        assert(with_free(s, b) == a + seq![m] + rest);
        if coalesced(s) {
            assert forall|p: int, q: int| 0 <= p < q < with_free(s, b).len() implies block_end(#[trigger] with_free(s, b)[p])
                < (#[trigger] with_free(s, b)[q]).addr by {
                let t = with_free(s, b);
                if q < a.len() {
                    assert(t[p] == s[p] && t[q] == s[q]);
                } else if q == a.len() {
                    assert(t[p] == s[p] && t[q] == m);
                    assert(block_end(s[p]) < s[i - 1].addr);
                } else if p < a.len() {
                    assert(t[p] == s[p] && t[q] == s[r0 + q - a.len() - 1]);
                } else if p == a.len() {
                    assert(t[p] == m && t[q] == s[r0 + q - a.len() - 1]);
                    if next_touches {
                        assert(block_end(s[i]) < s[r0 + q - a.len() - 1].addr);
                    } else {
                        assert(block_end(b) <= s[i].addr);
                        assert(block_end(b) != s[i].addr);
                        if r0 + q - a.len() - 1 > i {
                            assert(s[i].addr < block_end(s[i]));
                            assert(block_end(s[i]) < s[r0 + q - a.len() - 1].addr);
                        }
                    }
                } else {
                    assert(t[p] == s[r0 + p - a.len() - 1] && t[q] == s[r0 + q - a.len() - 1]);
                }
            }
        }
    } else {
        let a = s.take(i);
        assert(with_free(s, b) == a + seq![merged] + rest);
        if coalesced(s) {
            assert forall|p: int, q: int| 0 <= p < q < with_free(s, b).len() implies block_end(#[trigger] with_free(s, b)[p])
                < (#[trigger] with_free(s, b)[q]).addr by {
                let t = with_free(s, b);
                if q < a.len() {
                    assert(t[p] == s[p] && t[q] == s[q]);
                } else if q == a.len() {
                    assert(t[p] == s[p] && t[q] == merged);
                    assert(block_end(s[i - 1]) <= b.addr);
                    assert(block_end(s[i - 1]) != b.addr);
                    if p < i - 1 {
                        assert(block_end(s[p]) < s[i - 1].addr);
                        assert(s[i - 1].addr < block_end(s[i - 1]));
                    }
                } else if p < a.len() {
                    assert(t[p] == s[p] && t[q] == s[r0 + q - a.len() - 1]);
                } else if p == a.len() {
                    assert(t[p] == merged && t[q] == s[r0 + q - a.len() - 1]);
                    if next_touches {
                        assert(block_end(s[i]) < s[r0 + q - a.len() - 1].addr);
                    } else {
                        assert(block_end(b) != s[i].addr);
                        if r0 + q - a.len() - 1 > i {
                            assert(s[i].addr < block_end(s[i]));
                            assert(block_end(s[i]) < s[r0 + q - a.len() - 1].addr);
                        }
                    }
                } else {
                    assert(t[p] == s[r0 + p - a.len() - 1] && t[q] == s[r0 + q - a.len() - 1]);
                }
            }
        }
    }
}

/// Freeing a block adds exactly its bytes to those the free list covers, and, where no two
/// free blocks touched before, none touch after: a neighbour that touches is joined.
pub proof fn law_free_covers_and_coalesces(s: Seq<Block>, b: Block, x: int)
    requires
        blocks_ordered(s),
        blocks_bounded(s),
        block_end(b) <= u32::MAX,
        apart(s, b),
    ensures
        covered(with_free(s, b), x) <==> covered(s, x) || in_block(b, x),
        coalesced(s) ==> coalesced(with_free(s, b)),
{
    lemma_free_covers(s, b, x);
    lemma_free_coalesces(s, b);
}

/// The block `malloc` hands out: its header, then what it serves the request with.
pub open spec fn handed_out(b: Block, req: u32) -> Block {
    Block { addr: b.addr, size: if splits(b.size, req) { req } else { b.size } }
}

/// The block `malloc` hands out shares no byte with the blocks left free, nor with any block
/// already handed out that shared none with the free blocks; and those stay apart from the
/// free list too.
pub proof fn law_malloc_block_apart(s: Seq<Block>, req: u32, live: Seq<Block>)
    requires
        blocks_ordered(s),
        blocks_bounded(s),
        first_fit(s, req, 0) < s.len(),
        forall|j: int| 0 <= j < live.len() ==> apart(s, #[trigger] live[j]),
    ensures
        ({
            let k = first_fit(s, req, 0);
            let b = s[k];
            let after = if splits(b.size, req) { s.update(k, tail_of(b, req)) } else { s.remove(k) };
            &&& apart(after, handed_out(b, req))
            &&& forall|j: int| 0 <= j < live.len() ==> apart(seq![handed_out(b, req)], #[trigger] live[j])
            &&& forall|j: int| 0 <= j < live.len() ==> apart(after, #[trigger] live[j])
        }),
{
    let k = first_fit(s, req, 0);
    lemma_first_fit(s, req, 0);
    let b = s[k];
    let h = handed_out(b, req);
    assert(block_end(b) <= u32::MAX);
    assert(block_end(h) <= block_end(b));
    let after = if splits(b.size, req) { s.update(k, tail_of(b, req)) } else { s.remove(k) };
    assert forall|m: int| 0 <= m < after.len() implies block_end(#[trigger] after[m]) <= h.addr || block_end(h) <= after[m].addr by {
        if splits(b.size, req) {
            if m == k {
                assert(after[m] == tail_of(b, req));
            } else {
                assert(after[m] == s[m]);
                if m < k {
                    assert(block_end(s[m]) <= s[k].addr);
                } else {
                    assert(block_end(s[k]) <= s[m].addr);
                }
            }
        } else {
            let sm = if m < k { m } else { m + 1 };
            assert(after[m] == s[sm]);
            if sm < k {
                assert(block_end(s[sm]) <= s[k].addr);
            } else {
                assert(block_end(s[k]) <= s[sm].addr);
            }
        }
    }
    assert forall|j: int| 0 <= j < live.len() implies apart(seq![h], #[trigger] live[j]) by {
        assert(apart(s, live[j]));
        assert(block_end(s[k]) <= live[j].addr || block_end(live[j]) <= s[k].addr);
        assert(seq![h][0] == h);
    }
    assert forall|j: int| 0 <= j < live.len() implies apart(after, #[trigger] live[j]) by {
        let l = live[j];
        assert(apart(s, l));
        assert forall|m: int| 0 <= m < after.len() implies block_end(#[trigger] after[m]) <= l.addr || block_end(l) <= after[m].addr by {
            if splits(b.size, req) {
                if m == k {
                    assert(block_end(s[k]) <= l.addr || block_end(l) <= s[k].addr);
                } else {
                    assert(after[m] == s[m]);
                }
            } else {
                let sm = if m < k { m } else { m + 1 };
                assert(after[m] == s[sm]);
            }
        }
    }
}

/// A request is served with at least what was asked and at least `MIN_ALLOC`, in a multiple
/// of 8, and with less than 8 bytes more once it reaches `MIN_ALLOC`.
pub proof fn law_request_size(size: u32)
    requires
        size <= MAX_REQUEST,
    ensures
        size <= request_size(size),
        MIN_ALLOC <= request_size(size),
        request_size(size) % 8 == 0,
        size >= MIN_ALLOC ==> request_size(size) < size + 8,
{
    lemma_round_to_8((size + 7) as u32);
}

} // verus!
