//! The allocator of the SDK: slabs of one page for six classes of small sizes, and whole pages
//! for larger blocks, with freed pages kept for reuse. Each slab keeps its free slots in a chain
//! whose head is handed out first. Fresh pages come from the kernel.

use vstd::prelude::*;
use std::collections::BTreeMap;
use vstd::set_lib::{lemma_int_range, lemma_len_subset, set_int_range};

verus! {

broadcast use vstd::laws_cmp::group_laws_cmp;

pub const NUM_CLASSES: usize = 6;

pub const PAGE_SIZE: u32 = 0x1000;

/// The size of the records kept for large blocks and free pages, which live in the smallest
/// class.
pub const RECORD_SIZE: u32 = 12;

/// The slot size of each class.
pub open spec fn class_size(ci: int) -> u32 {
    if ci == 0 {
        32
    } else if ci == 1 {
        64
    } else if ci == 2 {
        128
    } else if ci == 3 {
        256
    } else if ci == 4 {
        512
    } else {
        1024
    }
}

fn class_size_of(ci: usize) -> (r: u32)
    requires
        ci < NUM_CLASSES,
    ensures
        r == class_size(ci as int),
{
    if ci == 0 {
        32
    } else if ci == 1 {
        64
    } else if ci == 2 {
        128
    } else if ci == 3 {
        256
    } else if ci == 4 {
        512
    } else {
        1024
    }
}

/// The class that serves `effective` bytes: the first whose slots are large enough.
pub open spec fn class_for(effective: u32) -> Option<usize> {
    if effective <= 32 {
        Some(0)
    } else if effective <= 64 {
        Some(1)
    } else if effective <= 128 {
        Some(2)
    } else if effective <= 256 {
        Some(3)
    } else if effective <= 512 {
        Some(4)
    } else if effective <= 1024 {
        Some(5)
    } else {
        None
    }
}

/// The size classes double from 32 bytes up to 1024, and an allocation goes to the smallest
/// class whose slots hold it: the class chosen is large enough, the one below it is not, and
/// only an allocation larger than the largest class gets none.
pub proof fn law_smallest_class(e: u32)
    ensures
        forall|ci: int| 0 <= ci < NUM_CLASSES - 1 ==> #[trigger] class_size(ci + 1) == 2 * class_size(ci),
        class_size(0) == 32,
        class_for(e) matches Some(ci) ==> ci < NUM_CLASSES && e <= class_size(ci as int)
            && (ci == 0 || e > class_size(ci - 1)),
        class_for(e) is None <==> e > class_size(NUM_CLASSES - 1),
{
}

/// The size-class index for an allocation of `effective` bytes, or `None` if it exceeds the
/// largest class.
pub fn class_index(effective: u32) -> (r: Option<usize>)
    ensures
        r == class_for(effective),
        r matches Some(ci) ==> ci < NUM_CLASSES && effective <= class_size(ci as int),
        r matches Some(ci) ==> ci == 0 || effective > class_size(ci - 1),
        r is None <==> effective > 1024,
{
    if effective <= 32 {
        Some(0)
    } else if effective <= 64 {
        Some(1)
    } else if effective <= 128 {
        Some(2)
    } else if effective <= 256 {
        Some(3)
    } else if effective <= 512 {
        Some(4)
    } else if effective <= 1024 {
        Some(5)
    } else {
        None
    }
}

/// The number of slots of a slab: the page in slots of its class, but for the first, which
/// holds the slab's header.
pub open spec fn slots_of(ci: int) -> int {
    PAGE_SIZE as int / class_size(ci) as int - 1
}

/// A slab: a page split into slots of its class. Slot 0 holds the header; the free slots are
/// chained, the head of the chain last in `free`.
pub struct SlabPage {
    pub class: usize,
    pub free: Vec<u16>,
    pub used: u16,
    pub total: u16,
}

/// A record of pages: where they start and how many bytes, and the slot the record lives in.
#[derive(Copy, Clone, Debug, PartialEq, Eq, Structural)]
pub struct PageRecord {
    pub node: u32,
    pub addr: u32,
    pub size: u32,
}

/// A slab is consistent: its class exists, its slots are counted right, and its free chain
/// holds distinct slots other than the header's.
pub open spec fn slab_wf(p: SlabPage) -> bool {
    &&& p.class < NUM_CLASSES
    &&& p.total == slots_of(p.class as int)
    &&& p.used + p.free@.len() == p.total
    &&& forall|k: int| 0 <= k < p.free@.len() ==> 1 <= #[trigger] p.free@[k] <= p.total
    &&& forall|j: int, k: int| 0 <= j < k < p.free@.len() ==> p.free@[j] != p.free@[k]
}

/// The slab a fresh page of class `ci` becomes: every slot free, slot 1 at the head.
pub open spec fn fresh_chain(ci: int) -> Seq<u16> {
    Seq::new(slots_of(ci) as nat, |k: int| (slots_of(ci) - k) as u16)
}

/// Where a page's slots would be: `a` rounded down to its page.
pub open spec fn page_of(a: u32) -> u32 {
    (a - a % 4096) as u32
}

/// The address of slot `idx` of the slab at `page` of class `ci`.
pub open spec fn slot_addr(page: u32, ci: int, idx: int) -> int {
    page + idx * class_size(ci)
}

/// A page-aligned range that holds `a`.
pub open spec fn holds(r: PageRecord, a: int) -> bool {
    r.addr <= a < r.addr + r.size
}

/// Two records share no page.
pub open spec fn records_apart(a: PageRecord, b: PageRecord) -> bool {
    a.addr + a.size <= b.addr || b.addr + b.size <= a.addr
}

/// A record covers whole pages within the address space.
pub open spec fn record_ok(r: PageRecord) -> bool {
    &&& r.addr % 4096 == 0
    &&& r.size % 4096 == 0
    &&& r.size > 0
    &&& r.addr + r.size <= 0x1_0000_0000
}

/// What the allocator does next.
#[derive(Copy, Clone, Debug, PartialEq, Eq, Structural)]
pub enum SlabStep {
    /// The result: an address, or 0 for none.
    Done(u32),
    /// Map this many fresh bytes and hand the outcome to `mapped`.
    MapPages(u32),
}

/// What waits for a fresh page or a fresh mapping.
#[derive(Copy, Clone, Debug, PartialEq, Eq, Structural)]
pub enum Pending {
    Idle,
    /// A new slab of class `ci` for a slot handed to the caller.
    SlabForCaller { ci: usize },
    /// A new slab of the smallest class for the record of pages at `addr`, a large block
    /// (`large`) or free pages; the operation then returns `result`.
    SlabForRecord { addr: u32, size: u32, large: bool, result: u32 },
    /// A mapping of `size` bytes for a large block.
    LargeBlock { size: u32 },
}

/// The allocator's state.
pub struct SlabAllocator {
    slabs: BTreeMap<u32, SlabPage>,
    partial: Vec<Vec<u32>>,
    all: Vec<Vec<u32>>,
    large: Vec<PageRecord>,
    free_pages: Vec<PageRecord>,
    pending: Pending,
}

impl SlabAllocator {
    /// The slabs, by the address of their page.
    pub closed spec fn slabs(&self) -> Map<u32, SlabPage> {
        self.slabs@
    }

    /// The slabs of class `ci` with a free slot, the next one to serve last.
    pub closed spec fn partial(&self, ci: int) -> Seq<u32> {
        self.partial@[ci]@
    }

    /// The large blocks handed out, the latest last.
    pub closed spec fn large(&self) -> Seq<PageRecord> {
        self.large@
    }

    /// The pages kept for reuse, the first to be looked at last.
    pub closed spec fn free_pages(&self) -> Seq<PageRecord> {
        self.free_pages@
    }

    pub closed spec fn pending(&self) -> Pending {
        self.pending
    }

    pub closed spec fn lists_sized(&self) -> bool {
        self.partial@.len() == NUM_CLASSES && self.all@.len() == NUM_CLASSES
    }

    /// All records: free pages, then large blocks.
    pub open spec fn records(&self) -> Seq<PageRecord> {
        self.free_pages() + self.large()
    }

    /// The slot `a` is handed out from a slab: its page is a slab, it is a slot of it other
    /// than the header's, and it is not in the free chain.
    pub open spec fn slot_in_use(&self, a: u32) -> bool {
        let page = page_of(a);
        &&& self.slabs().contains_key(page)
        &&& {
            let p = self.slabs()[page];
            let off: int = a - page;
            let size: int = class_size(p.class as int) as int;
            &&& off % size == 0
            &&& 1 <= off / size <= p.total
            &&& !p.free@.contains((off / size) as u16)
        }
    }

    /// Some record lives in the slot at `a`.
    pub open spec fn is_record_node(&self, a: u32) -> bool {
        exists|i: int| 0 <= i < self.records().len() && #[trigger] self.records()[i].node == a
    }

    /// The allocator's invariant.
    pub open spec fn wf(&self) -> bool {
        &&& self.lists_sized()
        &&& forall|page: u32| #[trigger] self.slabs().contains_key(page) ==> {
            &&& page % 4096 == 0
            &&& page + 4096 <= 0x1_0000_0000
            &&& slab_wf(self.slabs()[page])
        }
        &&& forall|ci: int, k: int| 0 <= ci < NUM_CLASSES && 0 <= k < self.partial(ci).len() ==> {
            let page = #[trigger] self.partial(ci)[k];
            &&& self.slabs().contains_key(page)
            &&& self.slabs()[page].class == ci
            &&& self.slabs()[page].free@.len() > 0
        }
        &&& forall|ci: int, j: int, k: int| 0 <= ci < NUM_CLASSES && 0 <= j < k < self.partial(ci).len()
            ==> #[trigger] self.partial(ci)[j] != #[trigger] self.partial(ci)[k]
        &&& forall|i: int| 0 <= i < self.records().len() ==> record_ok(#[trigger] self.records()[i])
        &&& forall|i: int, j: int| 0 <= i < j < self.records().len() ==> records_apart(
            #[trigger] self.records()[i],
            #[trigger] self.records()[j],
        )
        &&& forall|i: int, page: u32| 0 <= i < self.records().len() && #[trigger] self.slabs().contains_key(page)
            ==> !holds(#[trigger] self.records()[i], page as int)
        &&& forall|i: int| 0 <= i < self.records().len() ==> {
            let n = (#[trigger] self.records()[i]).node;
            &&& self.slot_in_use(n)
            &&& self.slabs()[page_of(n)].class == 0
        }
        &&& forall|i: int, j: int| 0 <= i < j < self.records().len() ==> (#[trigger] self.records()[i]).node
            != (#[trigger] self.records()[j]).node
        &&& match self.pending() {
            Pending::SlabForRecord { addr, size, large, result } => {
                let r = PageRecord { node: 0, addr, size };
                &&& record_ok(r)
                &&& forall|i: int| 0 <= i < self.records().len() ==> records_apart(#[trigger] self.records()[i], r)
                &&& forall|page: u32| #[trigger] self.slabs().contains_key(page) ==> !holds(r, page as int)
            },
            Pending::SlabForCaller { ci } => ci < NUM_CLASSES,
            Pending::LargeBlock { size } => size % 4096 == 0 && size > 0,
            _ => true,
        }
    }

    pub fn new() -> (r: Self)
        ensures
            r.wf(),
            r.slabs() == Map::<u32, SlabPage>::empty(),
            r.large() == Seq::<PageRecord>::empty(),
            r.free_pages() == Seq::<PageRecord>::empty(),
            r.pending() == Pending::Idle,
            forall|ci: int| 0 <= ci < NUM_CLASSES ==> r.partial(ci) == Seq::<u32>::empty(),
    {
        let mut partial: Vec<Vec<u32>> = Vec::new();
        let mut all: Vec<Vec<u32>> = Vec::new();
        let mut k: usize = 0;
        while k < NUM_CLASSES
            invariant
                k <= NUM_CLASSES,
                partial@.len() == k,
                all@.len() == k,
                forall|j: int| 0 <= j < k ==> (#[trigger] partial@[j])@ == Seq::<u32>::empty(),
            decreases NUM_CLASSES - k,
        {
            partial.push(Vec::new());
            all.push(Vec::new());
            k = k + 1;
        }
        SlabAllocator {
            slabs: BTreeMap::new(),
            partial,
            all,
            large: Vec::new(),
            free_pages: Vec::new(),
            pending: Pending::Idle,
        }
    }
}

/// The slot `idx` of a slab lies in the slab's page, at a multiple of the slot size.
proof fn lemma_slot_math(page: u32, idx: int, size: int)
    requires
        page % 4096 == 0,
        page + 4096 <= 0x1_0000_0000,
        0 <= idx,
        32 <= size,
        idx * size < 4096,
    ensures
        page_of((page + idx * size) as u32) == page,
        (idx * size) % size == 0,
        (idx * size) / size == idx,
{
    assert((page + idx * size) % 4096 == idx * size) by (nonlinear_arith)
        requires
            page % 4096 == 0,
            0 <= idx * size < 4096,
            page >= 0,
    ;
    assert((idx * size) % size == 0 && (idx * size) / size == idx) by (nonlinear_arith)
        requires
            size > 0,
            idx >= 0,
    ;
}

/// A slot that is not free in a consistent slab leaves fewer free slots than slots.
proof fn lemma_free_slot_left(chain: Seq<u16>, total: int, idx: u16)
    requires
        forall|k: int| 0 <= k < chain.len() ==> 1 <= #[trigger] chain[k] <= total,
        forall|j: int, k: int| 0 <= j < k < chain.len() ==> chain[j] != chain[k],
        1 <= idx <= total,
        !chain.contains(idx),
    ensures
        chain.len() < total,
{
    let t = chain.map_values(|x: u16| x as int);
    assert(t.no_duplicates()) by {
        assert forall|j: int, k: int| 0 <= j < t.len() && 0 <= k < t.len() && j != k implies t[j] != t[k] by {
            if j < k {
                assert(chain[j] != chain[k]);
            } else {
                assert(chain[k] != chain[j]);
            }
        }
    }
    t.unique_seq_to_set();
    lemma_int_range(1, total + 1);
    let r = set_int_range(1, total + 1).remove(idx as int);
    assert(t.to_set().subset_of(r)) by {
        assert forall|x: int| t.to_set().contains(x) implies r.contains(x) by {
            assert(t.contains(x));
            let k = choose|k: int| 0 <= k < t.len() && t[k] == x;
            assert(chain[k] as int == x);
            if x == idx as int {
                assert(chain[k] == idx);
                assert(chain.contains(idx));
            }
        }
    }
    lemma_len_subset(t.to_set(), r);
}

impl SlabAllocator {
    /// Takes the head of the free chain of the slab at the head of the partial list of class
    /// `ci`; a slab left without a free slot leaves the list.
    fn slab_pop(&mut self, ci: usize) -> (slot: u32)
        requires
            old(self).wf(),
            ci < NUM_CLASSES,
            old(self).partial(ci as int).len() > 0,
        ensures
            final(self).wf(),
            final(self).slot_in_use(slot),
            !old(self).slot_in_use(slot),
            !old(self).is_record_node(slot),
            final(self).slabs()[page_of(slot)].class == ci,
            final(self).records() == old(self).records(),
            final(self).large() == old(self).large(),
            final(self).free_pages() == old(self).free_pages(),
            final(self).pending() == old(self).pending(),
            final(self).slabs().dom() == old(self).slabs().dom(),
            ({
                let page = old(self).partial(ci as int).last();
                let p = old(self).slabs()[page];
                let idx = p.free@.last();
                &&& slot == slot_addr(page, ci as int, idx as int)
                &&& page_of(slot) == page
                &&& final(self).slabs()[page].free@ == p.free@.drop_last()
                &&& final(self).slabs()[page].used == p.used + 1
                &&& final(self).partial(ci as int) == if p.free@.len() == 1 {
                    old(self).partial(ci as int).drop_last()
                } else {
                    old(self).partial(ci as int)
                }
                &&& forall|c: int| 0 <= c < NUM_CLASSES && c != ci ==> final(self).partial(c) == old(self).partial(c)
                &&& forall|k: u32| k != page && #[trigger] old(self).slabs().contains_key(k) ==> final(self).slabs()[k] == old(self).slabs()[k]
            }),
    {
        let n = self.partial[ci].len();
        let page = self.partial[ci][n - 1];
        assert(self.slabs@.contains_key(page));
        let mut sp = self.slabs.remove(&page).unwrap();
        let idx = sp.free.pop().unwrap();
        sp.used = sp.used + 1;
        let empty = sp.free.len() == 0;
        let size = class_size_of(ci);
        self.slabs.insert(page, sp);
        if empty {
            self.partial[ci].pop();
        }
        assert((idx as u32) * size <= 4096 - size) by (nonlinear_arith)
            requires
                idx as int <= 4096int / (size as int) - 1,
                size >= 32,
        ;
        let slot = page + idx as u32 * size;
        proof {
            let old_p = old(self).slabs()[page];
            assert(old_p.free@.last() == idx);
            assert(slab_wf(old_p));
            assert(1 <= idx <= old_p.total);
            lemma_slot_math(page, idx as int, size as int);
            let new_p = self.slabs()[page];
            assert(new_p.free@ == old_p.free@.drop_last());
            assert(!new_p.free@.contains(idx)) by {
                if new_p.free@.contains(idx) {
                    let k = choose|k: int| 0 <= k < new_p.free@.len() && new_p.free@[k] == idx;
                    assert(old_p.free@[k] == old_p.free@[old_p.free@.len() - 1]);
                }
            }
            assert(old_p.free@.contains(idx)) by {
                assert(old_p.free@[old_p.free@.len() - 1] == idx);
            }
            assert(self.slot_in_use(slot));
            assert(slab_wf(new_p));
            assert forall|i: int| 0 <= i < self.records().len() implies ({
                let nd = (#[trigger] self.records()[i]).node;
                &&& self.slot_in_use(nd)
                &&& self.slabs()[page_of(nd)].class == 0
            }) by {
                let nd = self.records()[i].node;
                assert(old(self).records()[i].node == nd);
                assert(old(self).slot_in_use(nd));
                if page_of(nd) == page {
                    let sz: int = class_size(old_p.class as int) as int;
                    let j = ((nd - page) / sz) as u16;
                    assert(!old_p.free@.contains(j));
                    assert(!new_p.free@.contains(j)) by {
                        if new_p.free@.contains(j) {
                            let k = choose|k: int| 0 <= k < new_p.free@.len() && new_p.free@[k] == j;
                            assert(old_p.free@[k] == j);
                        }
                    }
                }
            }
            assert forall|c: int, k: int| 0 <= c < NUM_CLASSES && 0 <= k < self.partial(c).len() implies ({
                let pg = #[trigger] self.partial(c)[k];
                &&& self.slabs().contains_key(pg)
                &&& self.slabs()[pg].class == c
                &&& self.slabs()[pg].free@.len() > 0
            }) by {
                let pg = self.partial(c)[k];
                assert(old(self).partial(c)[k] == pg);
                if c == ci && pg == page {
                    assert(k < old(self).partial(c).len() - 1 || !empty);
                    if k < old(self).partial(c).len() - 1 {
                        assert(old(self).partial(c)[k] != old(self).partial(c)[old(self).partial(c).len() - 1]);
                    }
                }
            }
            assert forall|c: int, j: int, k: int| 0 <= c < NUM_CLASSES && 0 <= j < k < self.partial(c).len()
                implies #[trigger] self.partial(c)[j] != #[trigger] self.partial(c)[k] by {
                assert(old(self).partial(c)[j] == self.partial(c)[j]);
                assert(old(self).partial(c)[k] == self.partial(c)[k]);
            }
            assert(self.records() =~= old(self).records());
            assert forall|i: int| 0 <= i < self.records().len() implies record_ok(#[trigger] self.records()[i]) by {
                assert(old(self).records()[i] == self.records()[i]);
            }
            assert forall|i: int, j: int| 0 <= i < j < self.records().len() implies records_apart(
                #[trigger] self.records()[i],
                #[trigger] self.records()[j],
            ) by {
                assert(old(self).records()[i] == self.records()[i]);
                assert(old(self).records()[j] == self.records()[j]);
            }
            assert forall|i: int, pg: u32| 0 <= i < self.records().len() && #[trigger] self.slabs().contains_key(pg)
                implies !holds(#[trigger] self.records()[i], pg as int) by {
                assert(old(self).records()[i] == self.records()[i]);
                assert(old(self).slabs().contains_key(pg));
            }
            assert forall|i: int, j: int| 0 <= i < j < self.records().len() implies (#[trigger] self.records()[i]).node
                != (#[trigger] self.records()[j]).node by {
                assert(old(self).records()[i] == self.records()[i]);
                assert(old(self).records()[j] == self.records()[j]);
            }
        }
        slot
    }
}

impl SlabAllocator {
    /// Puts slot `idx` of the slab at `page` back at the head of its free chain; a slab that
    /// was full goes back on the partial list of its class.
    fn slab_push(&mut self, page: u32, idx: u16)
        requires
            old(self).wf(),
            old(self).slabs().contains_key(page),
            1 <= idx <= old(self).slabs()[page].total,
            !old(self).slabs()[page].free@.contains(idx),
            forall|i: int| 0 <= i < old(self).records().len() ==> (#[trigger] old(self).records()[i]).node
                != slot_addr(page, old(self).slabs()[page].class as int, idx as int),
        ensures
            final(self).wf(),
            final(self).records() == old(self).records(),
            final(self).large() == old(self).large(),
            final(self).free_pages() == old(self).free_pages(),
            final(self).pending() == old(self).pending(),
            final(self).slabs().dom() == old(self).slabs().dom(),
            ({
                let p = old(self).slabs()[page];
                &&& final(self).slabs()[page].free@ == p.free@.push(idx)
                &&& final(self).slabs()[page].used == p.used - 1
                &&& final(self).slabs()[page].class == p.class
                &&& final(self).partial(p.class as int) == if p.free@.len() == 0 {
                    old(self).partial(p.class as int).push(page)
                } else {
                    old(self).partial(p.class as int)
                }
                &&& forall|c: int| 0 <= c < NUM_CLASSES && c != p.class ==> final(self).partial(c) == old(self).partial(c)
                &&& forall|k: u32| k != page && #[trigger] old(self).slabs().contains_key(k) ==> final(self).slabs()[k] == old(self).slabs()[k]
            }),
    {
        let ghost old_p = self.slabs@[page];
        proof {
            assert(slab_wf(old_p));
            lemma_free_slot_left(old_p.free@, old_p.total as int, idx);
        }
        let mut sp = self.slabs.remove(&page).unwrap();
        let was_full = sp.free.len() == 0;
        sp.free.push(idx);
        sp.used = sp.used - 1;
        let class = sp.class;
        self.slabs.insert(page, sp);
        if was_full {
            self.partial[class].push(page);
        }
        proof {
            let new_p = self.slabs()[page];
            assert(slab_wf(new_p)) by {
                assert forall|j: int, k: int| 0 <= j < k < new_p.free@.len() implies new_p.free@[j] != new_p.free@[k] by {
                    if k == new_p.free@.len() - 1 {
                        assert(new_p.free@[k] == idx);
                        assert(old_p.free@[j] == new_p.free@[j]);
                    } else {
                        assert(old_p.free@[j] == new_p.free@[j] && old_p.free@[k] == new_p.free@[k]);
                    }
                }
                assert forall|k: int| 0 <= k < new_p.free@.len() implies 1 <= #[trigger] new_p.free@[k] <= new_p.total by {
                    if k < old_p.free@.len() {
                        assert(old_p.free@[k] == new_p.free@[k]);
                    }
                }
            }
            assert forall|c: int, k: int| 0 <= c < NUM_CLASSES && 0 <= k < self.partial(c).len() implies ({
                let pg = #[trigger] self.partial(c)[k];
                &&& self.slabs().contains_key(pg)
                &&& self.slabs()[pg].class == c
                &&& self.slabs()[pg].free@.len() > 0
            }) by {
                if c == class as int && was_full && k == self.partial(c).len() - 1 {
                } else {
                    assert(old(self).partial(c)[k] == self.partial(c)[k]);
                }
            }
            assert forall|c: int, j: int, k: int| 0 <= c < NUM_CLASSES && 0 <= j < k < self.partial(c).len()
                implies #[trigger] self.partial(c)[j] != #[trigger] self.partial(c)[k] by {
                if c == class as int && was_full && k == self.partial(c).len() - 1 {
                    assert(old(self).partial(c)[j] == self.partial(c)[j]);
                    assert(old(self).slabs()[old(self).partial(c)[j]].free@.len() > 0);
                } else {
                    assert(old(self).partial(c)[j] == self.partial(c)[j]);
                    assert(old(self).partial(c)[k] == self.partial(c)[k]);
                }
            }
            assert(self.records() =~= old(self).records());
            assert forall|i: int| 0 <= i < self.records().len() implies record_ok(#[trigger] self.records()[i]) by {
                assert(old(self).records()[i] == self.records()[i]);
            }
            assert forall|i: int, j: int| 0 <= i < j < self.records().len() implies records_apart(
                #[trigger] self.records()[i],
                #[trigger] self.records()[j],
            ) by {
                assert(old(self).records()[i] == self.records()[i]);
                assert(old(self).records()[j] == self.records()[j]);
            }
            assert forall|i: int, pg: u32| 0 <= i < self.records().len() && #[trigger] self.slabs().contains_key(pg)
                implies !holds(#[trigger] self.records()[i], pg as int) by {
                assert(old(self).records()[i] == self.records()[i]);
                assert(old(self).slabs().contains_key(pg));
            }
            assert forall|i: int, j: int| 0 <= i < j < self.records().len() implies (#[trigger] self.records()[i]).node
                != (#[trigger] self.records()[j]).node by {
                assert(old(self).records()[i] == self.records()[i]);
                assert(old(self).records()[j] == self.records()[j]);
            }
            assert forall|i: int| 0 <= i < self.records().len() implies ({
                let nd = (#[trigger] self.records()[i]).node;
                &&& self.slot_in_use(nd)
                &&& self.slabs()[page_of(nd)].class == 0
            }) by {
                let nd = self.records()[i].node;
                assert(old(self).records()[i].node == nd);
                assert(old(self).slot_in_use(nd));
                if page_of(nd) == page {
                    let sz: int = class_size(old_p.class as int) as int;
                    let off: int = nd - page;
                    let j = (off / sz) as u16;
                    assert(!old_p.free@.contains(j));
                    if j == idx {
                        assert(off == (off / sz) * sz) by (nonlinear_arith)
                            requires
                                off % sz == 0,
                                sz > 0,
                        ;
                        assert(nd == slot_addr(page, old_p.class as int, idx as int));
                    }
                    assert(!new_p.free@.contains(j)) by {
                        if new_p.free@.contains(j) {
                            let k = choose|k: int| 0 <= k < new_p.free@.len() && new_p.free@[k] == j;
                            if k < old_p.free@.len() {
                                assert(old_p.free@[k] == j);
                            }
                        }
                    }
                }
            }
        }
    }
}

/// The records are all as `wf` asks, with no slab page and no node changed: a helper for the
/// operations that change the records only.
pub open spec fn records_wf(records: Seq<PageRecord>, a: &SlabAllocator) -> bool {
    &&& forall|i: int| 0 <= i < records.len() ==> record_ok(#[trigger] records[i])
    &&& forall|i: int, j: int| 0 <= i < j < records.len() ==> records_apart(#[trigger] records[i], #[trigger] records[j])
    &&& forall|i: int, page: u32| 0 <= i < records.len() && #[trigger] a.slabs().contains_key(page)
        ==> !holds(#[trigger] records[i], page as int)
    &&& forall|i: int| 0 <= i < records.len() ==> {
        let n = (#[trigger] records[i]).node;
        &&& a.slot_in_use(n)
        &&& a.slabs()[page_of(n)].class == 0
    }
    &&& forall|i: int, j: int| 0 <= i < j < records.len() ==> (#[trigger] records[i]).node != (#[trigger] records[j]).node
}

proof fn lemma_wf_records(a: &SlabAllocator)
    requires
        a.wf(),
    ensures
        records_wf(a.records(), a),
{
}

/// The slab of a fresh page of class `ci`.
fn fresh_slab(ci: usize) -> (r: SlabPage)
    requires
        ci < NUM_CLASSES,
    ensures
        slab_wf(r),
        r.class == ci,
        r.used == 0,
        r.free@ == fresh_chain(ci as int),
        r.free@.len() > 0,
{
    let size = class_size_of(ci);
    let total = (PAGE_SIZE / size - 1) as u16;
    let mut free: Vec<u16> = Vec::new();
    let mut k: u16 = total;
    while k > 0
        invariant
            k <= total,
            total == slots_of(ci as int),
            free@.len() == total - k,
            forall|j: int| 0 <= j < free@.len() ==> #[trigger] free@[j] == total - j,
        decreases k,
    {
        free.push(k);
        k = k - 1;
    }
    proof {
        assert(free@ =~= fresh_chain(ci as int));
    }
    SlabPage { class: ci, free, used: 0, total }
}

impl SlabAllocator {
    /// Makes the fresh page at `page` a slab of class `ci`, at the head of its partial list.
    fn new_slab(&mut self, page: u32, ci: usize)
        requires
            old(self).wf(),
            ci < NUM_CLASSES,
            page % 4096 == 0,
            page + 4096 <= 0x1_0000_0000,
            !old(self).slabs().contains_key(page),
            forall|i: int| 0 <= i < old(self).records().len() ==> !holds(#[trigger] old(self).records()[i], page as int),
            old(self).pending() matches Pending::SlabForRecord { addr, size, .. } ==> !holds(
                PageRecord { node: 0, addr, size },
                page as int,
            ),
        ensures
            final(self).wf(),
            final(self).records() == old(self).records(),
            final(self).large() == old(self).large(),
            final(self).free_pages() == old(self).free_pages(),
            final(self).pending() == old(self).pending(),
            final(self).slabs().dom() == old(self).slabs().dom().insert(page),
            final(self).slabs()[page].class == ci,
            final(self).slabs()[page].free@ == fresh_chain(ci as int),
            final(self).partial(ci as int) == old(self).partial(ci as int).push(page),
            forall|c: int| 0 <= c < NUM_CLASSES && c != ci ==> final(self).partial(c) == old(self).partial(c),
            forall|k: u32| #[trigger] old(self).slabs().contains_key(k) ==> final(self).slabs()[k] == old(self).slabs()[k],
    {
        let slab = fresh_slab(ci);
        self.slabs.insert(page, slab);
        self.all[ci].push(page);
        self.partial[ci].push(page);
        proof {
            assert forall|c: int, k: int| 0 <= c < NUM_CLASSES && 0 <= k < self.partial(c).len() implies ({
                let pg = #[trigger] self.partial(c)[k];
                &&& self.slabs().contains_key(pg)
                &&& self.slabs()[pg].class == c
                &&& self.slabs()[pg].free@.len() > 0
            }) by {
                if c == ci as int && k == self.partial(c).len() - 1 {
                } else {
                    assert(old(self).partial(c)[k] == self.partial(c)[k]);
                }
            }
            assert forall|c: int, j: int, k: int| 0 <= c < NUM_CLASSES && 0 <= j < k < self.partial(c).len()
                implies #[trigger] self.partial(c)[j] != #[trigger] self.partial(c)[k] by {
                assert(old(self).partial(c)[j] == self.partial(c)[j]);
                if !(c == ci as int && k == self.partial(c).len() - 1) {
                    assert(old(self).partial(c)[k] == self.partial(c)[k]);
                }
            }
            assert(self.records() =~= old(self).records());
            assert forall|i: int| 0 <= i < self.records().len() implies record_ok(#[trigger] self.records()[i]) by {
                assert(old(self).records()[i] == self.records()[i]);
            }
            assert forall|i: int, j: int| 0 <= i < j < self.records().len() implies records_apart(
                #[trigger] self.records()[i],
                #[trigger] self.records()[j],
            ) by {
                assert(old(self).records()[i] == self.records()[i]);
                assert(old(self).records()[j] == self.records()[j]);
            }
            assert forall|i: int, pg: u32| 0 <= i < self.records().len() && #[trigger] self.slabs().contains_key(pg)
                implies !holds(#[trigger] self.records()[i], pg as int) by {
                assert(old(self).records()[i] == self.records()[i]);
                if pg != page {
                    assert(old(self).slabs().contains_key(pg));
                }
            }
            assert forall|i: int, j: int| 0 <= i < j < self.records().len() implies (#[trigger] self.records()[i]).node
                != (#[trigger] self.records()[j]).node by {
                assert(old(self).records()[i] == self.records()[i]);
                assert(old(self).records()[j] == self.records()[j]);
            }
            assert forall|i: int| 0 <= i < self.records().len() implies ({
                let nd = (#[trigger] self.records()[i]).node;
                &&& self.slot_in_use(nd)
                &&& self.slabs()[page_of(nd)].class == 0
            }) by {
                let nd = self.records()[i].node;
                assert(old(self).records()[i].node == nd);
                assert(old(self).slot_in_use(nd));
                assert(page_of(nd) != page);
            }
        }
    }

    /// Takes the record at `k` out of the free pages.
    fn take_free_record(&mut self, k: usize) -> (r: PageRecord)
        requires
            old(self).wf(),
            k < old(self).free_pages().len(),
        ensures
            final(self).wf(),
            r == old(self).free_pages()[k as int],
            final(self).free_pages() == old(self).free_pages().remove(k as int),
            final(self).large() == old(self).large(),
            final(self).slabs() == old(self).slabs(),
            final(self).pending() == old(self).pending(),
            forall|c: int| 0 <= c < NUM_CLASSES ==> final(self).partial(c) == old(self).partial(c),
    {
        let r = self.free_pages.remove(k);
        proof {
            let o = old(self).records();
            let n = self.records();
            let f = old(self).free_pages().len();
            assert forall|i: int| 0 <= i < n.len() implies #[trigger] n[i] == o[if i < k { i } else { i + 1 }] by {
                if i < f - 1 {
                    if i < k {
                        assert(n[i] == self.free_pages()[i]);
                    } else {
                        assert(n[i] == self.free_pages()[i]);
                    }
                } else {
                    assert(n[i] == self.large()[i - (f - 1)]);
                    assert(o[i + 1] == old(self).large()[i + 1 - f]);
                }
            }
            lemma_subsequence_records(o, n, k as int, self, old(self));
            lemma_same_slabs(self, old(self));
            lemma_pending_subsequence(o, n, k as int, self, old(self));
        }
        r
    }

    /// Takes the record at `k` out of the large blocks.
    fn take_large_record(&mut self, k: usize) -> (r: PageRecord)
        requires
            old(self).wf(),
            k < old(self).large().len(),
        ensures
            final(self).wf(),
            r == old(self).large()[k as int],
            final(self).large() == old(self).large().remove(k as int),
            final(self).free_pages() == old(self).free_pages(),
            final(self).slabs() == old(self).slabs(),
            final(self).pending() == old(self).pending(),
            forall|c: int| 0 <= c < NUM_CLASSES ==> final(self).partial(c) == old(self).partial(c),
    {
        let r = self.large.remove(k);
        proof {
            let o = old(self).records();
            let n = self.records();
            let f = old(self).free_pages().len() as int;
            let kk = k + f;
            assert forall|i: int| 0 <= i < n.len() implies #[trigger] n[i] == o[if i < kk { i } else { i + 1 }] by {
                if i < f {
                    assert(n[i] == self.free_pages()[i]);
                } else {
                    assert(n[i] == self.large()[i - f]);
                }
            }
            lemma_subsequence_records(o, n, kk, self, old(self));
            lemma_same_slabs(self, old(self));
            lemma_pending_subsequence(o, n, kk, self, old(self));
        }
        r
    }
}

/// The slab and partial-list parts of `wf` hold of a state with the slabs and lists of one
/// where they hold.
proof fn lemma_same_slabs(now: &SlabAllocator, before: &SlabAllocator)
    requires
        before.wf(),
        now.slabs() == before.slabs(),
        forall|c: int| 0 <= c < NUM_CLASSES ==> now.partial(c) == before.partial(c),
    ensures
        forall|page: u32| #[trigger] now.slabs().contains_key(page) ==> {
            &&& page % 4096 == 0
            &&& page + 4096 <= 0x1_0000_0000
            &&& slab_wf(now.slabs()[page])
        },
        forall|ci: int, k: int| 0 <= ci < NUM_CLASSES && 0 <= k < now.partial(ci).len() ==> {
            let page = #[trigger] now.partial(ci)[k];
            &&& now.slabs().contains_key(page)
            &&& now.slabs()[page].class == ci
            &&& now.slabs()[page].free@.len() > 0
        },
        forall|ci: int, j: int, k: int| 0 <= ci < NUM_CLASSES && 0 <= j < k < now.partial(ci).len()
            ==> #[trigger] now.partial(ci)[j] != #[trigger] now.partial(ci)[k],
{
    assert forall|page: u32| #[trigger] now.slabs().contains_key(page) implies {
        &&& page % 4096 == 0
        &&& page + 4096 <= 0x1_0000_0000
        &&& slab_wf(now.slabs()[page])
    } by {
        assert(before.slabs().contains_key(page));
    }
    assert forall|ci: int, k: int| 0 <= ci < NUM_CLASSES && 0 <= k < now.partial(ci).len() implies {
        let page = #[trigger] now.partial(ci)[k];
        &&& now.slabs().contains_key(page)
        &&& now.slabs()[page].class == ci
        &&& now.slabs()[page].free@.len() > 0
    } by {
        assert(before.partial(ci)[k] == now.partial(ci)[k]);
    }
    assert forall|ci: int, j: int, k: int| 0 <= ci < NUM_CLASSES && 0 <= j < k < now.partial(ci).len()
        implies #[trigger] now.partial(ci)[j] != #[trigger] now.partial(ci)[k] by {
        assert(before.partial(ci)[j] == now.partial(ci)[j]);
        assert(before.partial(ci)[k] == now.partial(ci)[k]);
    }
}

/// The records' part of `wf` carries over to a state with the same slabs.
proof fn lemma_records_wf_transfer(records: Seq<PageRecord>, a: &SlabAllocator, b: &SlabAllocator)
    requires
        records_wf(records, a),
        a.slabs() == b.slabs(),
    ensures
        records_wf(records, b),
{
    assert forall|i: int, page: u32| 0 <= i < records.len() && #[trigger] b.slabs().contains_key(page)
        implies !holds(#[trigger] records[i], page as int) by {
        assert(a.slabs().contains_key(page));
    }
    assert forall|i: int| 0 <= i < records.len() implies ({
        let n = (#[trigger] records[i]).node;
        &&& b.slot_in_use(n)
        &&& b.slabs()[page_of(n)].class == 0
    }) by {
        assert(a.slot_in_use(records[i].node));
    }
}

/// A state that differs from one where `wf` holds only in what waits keeps `wf`, where what
/// waits now is allowed.
proof fn lemma_wf_repending(now: &SlabAllocator, before: &SlabAllocator)
    requires
        before.wf(),
        now.lists_sized(),
        now.slabs() == before.slabs(),
        forall|c: int| 0 <= c < NUM_CLASSES ==> now.partial(c) == before.partial(c),
        now.records() == before.records(),
        match now.pending() {
            Pending::SlabForRecord { addr, size, large, result } => {
                let r = PageRecord { node: 0, addr, size };
                &&& record_ok(r)
                &&& forall|i: int| 0 <= i < now.records().len() ==> records_apart(#[trigger] now.records()[i], r)
                &&& forall|page: u32| #[trigger] now.slabs().contains_key(page) ==> !holds(r, page as int)
            },
            Pending::SlabForCaller { ci } => ci < NUM_CLASSES,
            Pending::LargeBlock { size } => size % 4096 == 0 && size > 0,
            _ => true,
        },
    ensures
        now.wf(),
{
    lemma_same_slabs(now, before);
    lemma_wf_records(before);
    lemma_records_wf_transfer(before.records(), before, now);
}

/// Taking one record out keeps what `wf` asks of the pending record.
proof fn lemma_pending_subsequence(o: Seq<PageRecord>, n: Seq<PageRecord>, k: int, now: &SlabAllocator, before: &SlabAllocator)
    requires
        before.wf(),
        o == before.records(),
        n == now.records(),
        now.slabs() == before.slabs(),
        now.pending() == before.pending(),
        0 <= k < o.len(),
        n.len() == o.len() - 1,
        forall|i: int| 0 <= i < n.len() ==> #[trigger] n[i] == o[if i < k { i } else { i + 1 }],
    ensures
        match now.pending() {
            Pending::SlabForRecord { addr, size, large, result } => {
                let r = PageRecord { node: 0, addr, size };
                &&& record_ok(r)
                &&& forall|i: int| 0 <= i < now.records().len() ==> records_apart(#[trigger] now.records()[i], r)
                &&& forall|page: u32| #[trigger] now.slabs().contains_key(page) ==> !holds(r, page as int)
            },
            Pending::SlabForCaller { ci } => ci < NUM_CLASSES,
            Pending::LargeBlock { size } => size % 4096 == 0 && size > 0,
            _ => true,
        },
{
    if let Pending::SlabForRecord { addr, size, large, result } = now.pending() {
        let r = PageRecord { node: 0, addr, size };
        assert forall|i: int| 0 <= i < n.len() implies records_apart(#[trigger] n[i], r) by {
            let oi = if i < k { i } else { i + 1 };
            assert(n[i] == o[oi]);
        }
    }
}

/// Taking one record out keeps the records as `wf` asks, in a state whose slabs are the same.
proof fn lemma_subsequence_records(o: Seq<PageRecord>, n: Seq<PageRecord>, k: int, now: &SlabAllocator, before: &SlabAllocator)
    requires
        before.wf(),
        o == before.records(),
        n == now.records(),
        now.slabs() == before.slabs(),
        now.lists_sized(),
        0 <= k < o.len(),
        n.len() == o.len() - 1,
        forall|i: int| 0 <= i < n.len() ==> #[trigger] n[i] == o[if i < k { i } else { i + 1 }],
    ensures
        records_wf(n, now),
{
    assert forall|i: int| 0 <= i < n.len() implies record_ok(#[trigger] n[i]) by {
        let oi = if i < k { i } else { i + 1 };
        assert(n[i] == o[oi]);
    }
    assert forall|i: int, j: int| 0 <= i < j < n.len() implies records_apart(#[trigger] n[i], #[trigger] n[j]) by {
        let oi = if i < k { i } else { i + 1 };
        let oj = if j < k { j } else { j + 1 };
        assert(n[i] == o[oi] && n[j] == o[oj]);
    }
    assert forall|i: int, page: u32| 0 <= i < n.len() && #[trigger] now.slabs().contains_key(page)
        implies !holds(#[trigger] n[i], page as int) by {
        let oi = if i < k { i } else { i + 1 };
        assert(n[i] == o[oi]);
    }
    assert forall|i: int| 0 <= i < n.len() implies ({
        let nd = (#[trigger] n[i]).node;
        &&& now.slot_in_use(nd)
        &&& now.slabs()[page_of(nd)].class == 0
    }) by {
        let oi = if i < k { i } else { i + 1 };
        assert(n[i] == o[oi]);
    }
    assert forall|i: int, j: int| 0 <= i < j < n.len() implies (#[trigger] n[i]).node != (#[trigger] n[j]).node by {
        let oi = if i < k { i } else { i + 1 };
        let oj = if j < k { j } else { j + 1 };
        assert(n[i] == o[oi] && n[j] == o[oj]);
    }
}

impl SlabAllocator {
    /// Cuts `amount` bytes off the start of the free record at `k`.
    fn carve_free(&mut self, k: usize, amount: u32)
        requires
            old(self).wf(),
            k < old(self).free_pages().len(),
            amount % 4096 == 0,
            0 < amount < old(self).free_pages()[k as int].size,
        ensures
            final(self).wf(),
            final(self).free_pages() == old(self).free_pages().update(
                k as int,
                PageRecord {
                    addr: (old(self).free_pages()[k as int].addr + amount) as u32,
                    size: (old(self).free_pages()[k as int].size - amount) as u32,
                    ..old(self).free_pages()[k as int]
                },
            ),
            final(self).large() == old(self).large(),
            final(self).slabs() == old(self).slabs(),
            final(self).pending() == old(self).pending(),
            forall|c: int| 0 <= c < NUM_CLASSES ==> final(self).partial(c) == old(self).partial(c),
    {
        let r = self.free_pages[k];
        proof {
            assert(self.records()[k as int] == r);
            assert(record_ok(self.records()[k as int]));
        }
        self.free_pages.set(k, PageRecord { node: r.node, addr: r.addr + amount, size: r.size - amount });
        proof {
            lemma_same_slabs(self, old(self));
            let o = old(self).records();
            let n = self.records();
            assert forall|i: int| 0 <= i < n.len() && i != k implies #[trigger] n[i] == o[i] by {
                if i < self.free_pages().len() {
                    assert(n[i] == self.free_pages()[i]);
                } else {
                    assert(n[i] == self.large()[i - self.free_pages().len()]);
                }
            }
            assert(n[k as int] == self.free_pages()[k as int]);
            assert(o[k as int] == r);
            assert forall|i: int| 0 <= i < n.len() implies record_ok(#[trigger] n[i]) by {
                if i != k {
                    assert(n[i] == o[i]);
                }
            }
            assert forall|i: int, j: int| 0 <= i < j < n.len() implies records_apart(#[trigger] n[i], #[trigger] n[j]) by {
                assert(records_apart(o[i], o[j]));
                if i != k {
                    assert(n[i] == o[i]);
                }
                if j != k {
                    assert(n[j] == o[j]);
                }
            }
            assert forall|i: int, page: u32| 0 <= i < n.len() && #[trigger] self.slabs().contains_key(page)
                implies !holds(#[trigger] n[i], page as int) by {
                assert(!holds(o[i], page as int));
                if i != k {
                    assert(n[i] == o[i]);
                }
            }
            assert forall|i: int| 0 <= i < n.len() implies ({
                let nd = (#[trigger] n[i]).node;
                &&& self.slot_in_use(nd)
                &&& self.slabs()[page_of(nd)].class == 0
            }) by {
                assert(o[i].node == n[i].node);
            }
            assert forall|i: int, j: int| 0 <= i < j < n.len() implies (#[trigger] n[i]).node != (#[trigger] n[j]).node by {
                assert(o[i].node == n[i].node && o[j].node == n[j].node);
            }
            if let Pending::SlabForRecord { addr, size, large, result } = self.pending() {
                let pr = PageRecord { node: 0, addr, size };
                assert forall|i: int| 0 <= i < n.len() implies records_apart(#[trigger] n[i], pr) by {
                    assert(records_apart(o[i], pr));
                    if i != k {
                        assert(n[i] == o[i]);
                    }
                }
            }
        }
    }

    /// Adds a record whose node is a slot just taken for it.
    fn push_record(&mut self, large: bool, node: u32, addr: u32, size: u32)
        requires
            old(self).wf(),
            record_ok(PageRecord { node, addr, size }),
            forall|i: int| 0 <= i < old(self).records().len() ==> records_apart(
                #[trigger] old(self).records()[i],
                PageRecord { node, addr, size },
            ),
            forall|page: u32| #[trigger] old(self).slabs().contains_key(page) ==> !holds(
                PageRecord { node, addr, size },
                page as int,
            ),
            old(self).slot_in_use(node),
            old(self).slabs()[page_of(node)].class == 0,
            !old(self).is_record_node(node),
            !(old(self).pending() is SlabForRecord),
        ensures
            final(self).wf(),
            large ==> final(self).large() == old(self).large().push(PageRecord { node, addr, size })
                && final(self).free_pages() == old(self).free_pages(),
            !large ==> final(self).free_pages() == old(self).free_pages().push(PageRecord { node, addr, size })
                && final(self).large() == old(self).large(),
            final(self).slabs() == old(self).slabs(),
            final(self).pending() == old(self).pending(),
            forall|c: int| 0 <= c < NUM_CLASSES ==> final(self).partial(c) == old(self).partial(c),
    {
        let rec = PageRecord { node, addr, size };
        let ghost o = self.records();
        let ghost f = self.free_pages@.len() as int;
        if large {
            self.large.push(rec);
        } else {
            self.free_pages.push(rec);
        }
        proof {
            lemma_same_slabs(self, old(self));
            let n = self.records();
            let at: int = if large { o.len() as int } else { f };
            assert(n.len() == o.len() + 1);
            assert(n[at] == rec);
            assert forall|i: int| 0 <= i < n.len() && i != at implies #[trigger] n[i] == o[if i < at { i } else { i - 1 }] by {
                if large {
                    if i < f {
                        assert(n[i] == self.free_pages()[i]);
                    } else {
                        assert(n[i] == self.large()[i - f]);
                    }
                } else {
                    if i < f {
                        assert(n[i] == self.free_pages()[i]);
                    } else {
                        assert(n[i] == self.large()[i - f - 1]);
                    }
                }
            }
            assert forall|i: int| 0 <= i < n.len() implies record_ok(#[trigger] n[i]) by {
                if i != at {
                    assert(n[i] == o[if i < at { i } else { i - 1 }]);
                }
            }
            assert forall|i: int, j: int| 0 <= i < j < n.len() implies records_apart(#[trigger] n[i], #[trigger] n[j]) by {
                let oi = if i < at { i } else { i - 1 };
                let oj = if j < at { j } else { j - 1 };
                if i == at {
                    assert(n[j] == o[oj]);
                    assert(records_apart(o[oj], rec));
                } else if j == at {
                    assert(n[i] == o[oi]);
                } else {
                    assert(n[i] == o[oi] && n[j] == o[oj]);
                }
            }
            assert forall|i: int, page: u32| 0 <= i < n.len() && #[trigger] self.slabs().contains_key(page)
                implies !holds(#[trigger] n[i], page as int) by {
                if i != at {
                    assert(n[i] == o[if i < at { i } else { i - 1 }]);
                }
            }
            assert forall|i: int| 0 <= i < n.len() implies ({
                let nd = (#[trigger] n[i]).node;
                &&& self.slot_in_use(nd)
                &&& self.slabs()[page_of(nd)].class == 0
            }) by {
                if i != at {
                    assert(n[i] == o[if i < at { i } else { i - 1 }]);
                }
            }
            assert forall|i: int, j: int| 0 <= i < j < n.len() implies (#[trigger] n[i]).node != (#[trigger] n[j]).node by {
                let oi = if i < at { i } else { i - 1 };
                let oj = if j < at { j } else { j - 1 };
                if i == at {
                    assert(n[j] == o[oj]);
                    assert(!old(self).is_record_node(node));
                    assert(o[oj].node != node);
                } else if j == at {
                    assert(n[i] == o[oi]);
                    assert(o[oi].node != node);
                } else {
                    assert(n[i] == o[oi] && n[j] == o[oj]);
                }
            }
        }
    }
}

fn page_base(a: u32) -> (r: u32)
    ensures
        r == page_of(a),
{
    let r = a & !0xFFFu32;
    assert(a & !0xFFFu32 == a - a % 4096) by (bit_vector);
    r
}

impl SlabAllocator {
    /// Gives back the slot of a record that is gone.
    fn free_node(&mut self, node: u32)
        requires
            old(self).wf(),
            old(self).slot_in_use(node),
            old(self).slabs()[page_of(node)].class == 0,
            !old(self).is_record_node(node),
        ensures
            final(self).wf(),
            final(self).records() == old(self).records(),
            final(self).large() == old(self).large(),
            final(self).free_pages() == old(self).free_pages(),
            final(self).pending() == old(self).pending(),
            final(self).slabs().dom() == old(self).slabs().dom(),
            !final(self).slot_in_use(node),
            ({
                let page = page_of(node);
                let p = old(self).slabs()[page];
                &&& final(self).slabs()[page].free@ == p.free@.push(((node - page) / 32) as u16)
                &&& final(self).slabs()[page].used == p.used - 1
                &&& final(self).slabs()[page].class == 0
                &&& final(self).partial(0) == if p.free@.len() == 0 {
                    old(self).partial(0).push(page)
                } else {
                    old(self).partial(0)
                }
                &&& forall|c: int| 0 < c < NUM_CLASSES ==> final(self).partial(c) == old(self).partial(c)
                &&& forall|k: u32| k != page && #[trigger] old(self).slabs().contains_key(k)
                    ==> final(self).slabs()[k] == old(self).slabs()[k]
            }),
    {
        let page = page_base(node);
        let idx = ((node - page) / 32) as u16;
        proof {
            let p = old(self).slabs()[page];
            assert(slab_wf(p));
            let off: int = node - page;
            assert(off % 32 == 0);
            assert(off == (off / 32) * 32);
            assert(node == slot_addr(page, 0, idx as int));
            assert forall|i: int| 0 <= i < old(self).records().len() implies (#[trigger] old(self).records()[i]).node
                != slot_addr(page, old(self).slabs()[page].class as int, idx as int) by {
                if old(self).records()[i].node == node {
                    assert(old(self).is_record_node(node));
                }
            }
        }
        self.slab_push(page, idx);
        proof {
            let q = self.slabs()[page];
            assert(q.free@[q.free@.len() - 1] == idx);
            assert(q.free@.contains(idx));
            assert(class_size(0) == 32);
            assert((node - page) / 32 == idx as int);
        }
    }

    /// A page from the pages kept for reuse, if there is one: a record of one page is taken out
    /// and its slot given back; a larger one gives up its first page.
    fn reuse_page(&mut self) -> (r: Option<u32>)
        requires
            old(self).wf(),
        ensures
            final(self).wf(),
            final(self).large() == old(self).large(),
            final(self).pending() == old(self).pending(),
            final(self).slabs().dom() == old(self).slabs().dom(),
            r is None <==> old(self).free_pages().len() == 0,
            r is None ==> *final(self) == *old(self),
            r matches Some(p) ==> {
                &&& p % 4096 == 0
                &&& p + 4096 <= 0x1_0000_0000
                &&& !final(self).slabs().contains_key(p)
                &&& forall|i: int| 0 <= i < final(self).records().len() ==> !holds(#[trigger] final(self).records()[i], p as int)
                &&& final(self).pending() matches Pending::SlabForRecord { addr, size, .. } ==> !holds(
                    PageRecord { node: 0, addr, size },
                    p as int,
                )
            },
    {
        let n = self.free_pages.len();
        if n == 0 {
            return None;
        }
        let k = n - 1;
        let rec = self.free_pages[k];
        proof {
            assert(self.records()[k as int] == rec);
            assert(record_ok(rec));
            assert forall|i: int| 0 <= i < self.records().len() && i != k implies !holds(#[trigger] self.records()[i], rec.addr as int) by {
                if i < k {
                    assert(records_apart(self.records()[i], self.records()[k as int]));
                } else {
                    assert(records_apart(self.records()[k as int], self.records()[i]));
                }
            }
            assert(!self.slabs().contains_key(rec.addr)) by {
                if self.slabs().contains_key(rec.addr) {
                    assert(!holds(self.records()[k as int], rec.addr as int));
                }
            }
            if let Pending::SlabForRecord { addr, size, .. } = self.pending() {
                assert(records_apart(self.records()[k as int], PageRecord { node: 0, addr, size }));
            }
        }
        if rec.size == PAGE_SIZE {
            let taken = self.take_free_record(k);
            proof {
                assert forall|i: int| 0 <= i < self.records().len() implies (#[trigger] self.records()[i]).node != rec.node by {
                    let oi = if i < k { i } else { i + 1 };
                    assert(self.records()[i] == old(self).records()[oi]);
                    assert(oi != k);
                    if oi < k {
                        assert(old(self).records()[oi].node != old(self).records()[k as int].node);
                    } else {
                        assert(old(self).records()[k as int].node != old(self).records()[oi].node);
                    }
                }
                assert(old(self).slot_in_use(rec.node));
            }
            self.free_node(taken.node);
            proof {
                assert forall|i: int| 0 <= i < self.records().len() implies !holds(#[trigger] self.records()[i], rec.addr as int) by {
                    let oi = if i < k { i } else { i + 1 };
                    assert(self.records()[i] == old(self).records()[oi]);
                }
            }
            return Some(taken.addr);
        }
        self.carve_free(k, PAGE_SIZE);
        proof {
            assert forall|i: int| 0 <= i < self.records().len() implies !holds(#[trigger] self.records()[i], rec.addr as int) by {
                if i != k {
                    assert(self.records()[i] == old(self).records()[i]);
                } else {
                    assert(self.records()[i] == self.free_pages()[k as int]);
                }
            }
        }
        Some(rec.addr)
    }
}

/// The slot a slab of class `ci` hands out next: the head of the free chain of the slab at the
/// head of the partial list.
pub open spec fn head_slot(a: &SlabAllocator, ci: int) -> int {
    let page = a.partial(ci).last();
    slot_addr(page, ci, a.slabs()[page].free@.last() as int)
}

impl SlabAllocator {
    /// A slot of class `ci`: from a partial slab, else from a new slab on a page kept for
    /// reuse; none where a fresh page is needed.
    fn slab_alloc(&mut self, ci: usize) -> (r: Option<u32>)
        requires
            old(self).wf(),
            ci < NUM_CLASSES,
        ensures
            final(self).wf(),
            final(self).large() == old(self).large(),
            final(self).pending() == old(self).pending(),
            r is None <==> old(self).partial(ci as int).len() == 0 && old(self).free_pages().len() == 0,
            r is None ==> *final(self) == *old(self),
            r matches Some(slot) ==> {
                &&& final(self).slot_in_use(slot)
                &&& final(self).slabs()[page_of(slot)].class == ci
                &&& !final(self).is_record_node(slot)
            },
            old(self).partial(ci as int).len() > 0 ==> (r matches Some(slot) && slot == head_slot(old(self), ci as int)),
    {
        if self.partial[ci].len() > 0 {
            let slot = self.slab_pop(ci);
            proof {
                assert(!self.is_record_node(slot)) by {
                    if self.is_record_node(slot) {
                        let i = choose|i: int| 0 <= i < self.records().len() && #[trigger] self.records()[i].node == slot;
                        assert(old(self).records()[i].node == slot);
                    }
                }
            }
            return Some(slot);
        }
        let page = match self.reuse_page() {
            Some(p) => p,
            None => return None,
        };
        self.new_slab(page, ci);
        let ghost mid = self.records();
        let slot = self.slab_pop(ci);
        proof {
            assert(!self.is_record_node(slot)) by {
                if self.is_record_node(slot) {
                    let i = choose|i: int| 0 <= i < self.records().len() && #[trigger] self.records()[i].node == slot;
                    assert(mid[i].node == slot);
                }
            }
        }
        Some(slot)
    }

    /// Records the pages at `addr` (a large block, or pages freed for reuse) in a slot of the
    /// smallest class; where that needs a fresh page, waits for it.
    fn record(&mut self, large: bool, addr: u32, size: u32, result: u32) -> (r: SlabStep)
        requires
            old(self).wf(),
            old(self).pending() == Pending::Idle,
            record_ok(PageRecord { node: 0, addr, size }),
            forall|i: int| 0 <= i < old(self).records().len() ==> records_apart(
                #[trigger] old(self).records()[i],
                PageRecord { node: 0, addr, size },
            ),
            forall|page: u32| #[trigger] old(self).slabs().contains_key(page) ==> !holds(
                PageRecord { node: 0, addr, size },
                page as int,
            ),
        ensures
            final(self).wf(),
            r == SlabStep::Done(result) ==> final(self).pending() == Pending::Idle && (large ==> exists|i: int|
                0 <= i < final(self).large().len() && (#[trigger] final(self).large()[i]).addr == addr
                    && final(self).large()[i].size == size),
            r != SlabStep::Done(result) ==> r == SlabStep::MapPages(PAGE_SIZE) && final(self).pending()
                == (Pending::SlabForRecord { addr, size, large, result }),
            !large ==> final(self).large() == old(self).large(),
            r == SlabStep::Done(result) && !large ==> final(self).free_pages().len() > 0
                && final(self).free_pages().last().addr == addr
                && final(self).free_pages().last().size == size,
    {
        self.pending = Pending::SlabForRecord { addr, size, large, result };
        proof {
            assert(self.lists_sized());
            lemma_wf_repending(self, old(self));
        }
        let node = match self.slab_alloc(0) {
            Some(n) => n,
            None => return SlabStep::MapPages(PAGE_SIZE),
        };
        let ghost before = *self;
        proof {
            assert forall|i: int| 0 <= i < self.records().len() implies records_apart(
                #[trigger] self.records()[i],
                PageRecord { node, addr, size },
            ) by {
                assert(records_apart(self.records()[i], PageRecord { node: 0, addr, size }));
            }
            assert forall|page: u32| #[trigger] self.slabs().contains_key(page) implies !holds(
                PageRecord { node, addr, size },
                page as int,
            ) by {
                assert(!holds(PageRecord { node: 0, addr, size }, page as int));
            }
        }
        self.pending = Pending::Idle;
        proof {
            assert(self.lists_sized());
            lemma_wf_repending(self, &before);
        }
        self.push_record(large, node, addr, size);
        proof {
            if large {
                let i = self.large().len() - 1;
                assert(self.large()[i].addr == addr && self.large()[i].size == size);
            }
        }
        SlabStep::Done(result)
    }
}

/// Looking from the head of the pages kept for reuse (the end of the list) down to position
/// `k`, the first record large enough for `alloc` bytes
pub open spec fn fit_below(s: Seq<PageRecord>, alloc: u32, k: int) -> Option<int>
    decreases k,
{
    if k <= 0 {
        None
    } else if s[k - 1].size >= alloc {
        Some(k - 1)
    } else {
        fit_below(s, alloc, k - 1)
    }
}

/// The first record of pages kept for reuse, from the head, large enough for `alloc` bytes
pub open spec fn first_fit_record(s: Seq<PageRecord>, alloc: u32) -> Option<int> {
    fit_below(s, alloc, s.len() as int)
}

/// The pages of a slab fit its slots exactly: the header's slot and the others fill the page,
/// slot `idx` starts `idx` slot sizes into the page, each slot ends where the next starts,
/// and every slot lies inside the slab's page.
pub proof fn law_slab_layout(page: u32, ci: int, idx: int)
    requires
        0 <= ci < NUM_CLASSES,
        page % 4096 == 0,
        page + 4096 <= 0x1_0000_0000,
        1 <= idx <= slots_of(ci),
    ensures
        (slots_of(ci) + 1) * class_size(ci) == PAGE_SIZE,
        slot_addr(page, ci, idx) + class_size(ci) == slot_addr(page, ci, idx + 1),
        page + class_size(ci) <= slot_addr(page, ci, idx),
        slot_addr(page, ci, idx) + class_size(ci) <= page + PAGE_SIZE,
        page_of(slot_addr(page, ci, idx) as u32) == page,
{
    let a = slot_addr(page, ci, idx);
    let c = class_size(ci) as int;
    assert(idx * c + c <= 4096) by (nonlinear_arith)
        requires
            1 <= idx <= 4096int / c - 1,
            c == 32 || c == 64 || c == 128 || c == 256 || c == 512 || c == 1024,
    ;
    assert(idx * c >= c) by (nonlinear_arith)
        requires
            idx >= 1,
            c > 0,
    ;
    assert(slot_addr(page, ci, idx + 1) == page + idx * c + c) by (nonlinear_arith)
        requires
            slot_addr(page, ci, idx + 1) == page + (idx + 1) * c,
    ;
    assert(a % 4096 == idx * c) by {
        vstd::arithmetic::div_mod::lemma_fundamental_div_mod(page as int, 4096);
        vstd::arithmetic::div_mod::lemma_fundamental_div_mod_converse(a, 4096, (page / 4096) as int, idx * c);
    }
}

/// The pages kept for reuse are searched from the head of the list, the end: the record
/// chosen is large enough and is the first such from the head, every record after it being
/// too small; and there is none exactly when no record is large enough.
pub proof fn law_first_fit(s: Seq<PageRecord>, alloc: u32)
    ensures
        first_fit_record(s, alloc) matches Some(k) ==> 0 <= k < s.len() && s[k].size >= alloc
            && forall|j: int| k < j < s.len() ==> #[trigger] s[j].size < alloc,
        first_fit_record(s, alloc) is None <==> forall|j: int| 0 <= j < s.len() ==> #[trigger] s[j].size < alloc,
{
    lemma_fit_below(s, alloc, s.len() as int);
}

proof fn lemma_fit_below(s: Seq<PageRecord>, alloc: u32, k: int)
    requires
        k <= s.len(),
    ensures
        fit_below(s, alloc, k) matches Some(m) ==> 0 <= m < k && s[m].size >= alloc
            && forall|j: int| m < j < k ==> #[trigger] s[j].size < alloc,
        fit_below(s, alloc, k) is None <==> forall|j: int| 0 <= j < k ==> #[trigger] s[j].size < alloc,
    decreases k,
{
    if k > 0 && s[k - 1].size < alloc {
        lemma_fit_below(s, alloc, k - 1);
    }
}

/// What `large_alloc` answers for `size` bytes: with a record of free pages that fits, its
/// first pages, recorded as a large block (waiting for a page for the record where the
/// smallest class has no slot); without one, fresh pages of the block's size
pub open spec fn large_outcome(before: SlabAllocator, after: SlabAllocator, size: u32, r: SlabStep) -> bool {
    let alloc = large_size(size);
    match first_fit_record(before.free_pages(), alloc) {
        Some(at) => {
            let addr = before.free_pages()[at].addr;
            ||| r == SlabStep::Done(addr)
            ||| r == SlabStep::MapPages(PAGE_SIZE) && after.pending() == (Pending::SlabForRecord {
                addr,
                size: alloc,
                large: true,
                result: addr,
            })
        },
        None => {
            &&& r == SlabStep::MapPages(alloc)
            &&& after.pending() == (Pending::LargeBlock { size: alloc })
            &&& after.free_pages() == before.free_pages()
            &&& after.large() == before.large()
        },
    }
}

/// The bytes of whole pages a large block of `size` bytes takes.
pub open spec fn large_size(size: u32) -> u32 {
    ((size + 4095) as u32) & !4095u32
}

fn large_size_of(size: u32) -> (r: u32)
    requires
        0 < size <= u32::MAX - 4095,
    ensures
        r == large_size(size),
        r % 4096 == 0,
        size <= r < size + 4096,
{
    proof {
        law_large_size(size);
    }
    (size + 4095) & !4095u32
}

/// A large block takes the whole pages that hold it: its size rounded up to a multiple of
/// the page size, by less than a page.
pub proof fn law_large_size(size: u32)
    requires
        0 < size <= u32::MAX - 4095,
    ensures
        large_size(size) % 4096 == 0,
        size <= large_size(size) < size + 4096,
{
    let t = (size + 4095) as u32;
    assert(t & !4095u32 == t - t % 4096) by (bit_vector);
}


/// A piece of a record taken out of the list shares no page with the records left.
proof fn lemma_piece_apart(o: Seq<PageRecord>, n: Seq<PageRecord>, k: int, piece: PageRecord)
    requires
        0 <= k < o.len(),
        n == o.remove(k),
        forall|i: int, j: int| 0 <= i < j < o.len() ==> records_apart(#[trigger] o[i], #[trigger] o[j]),
        o[k].addr <= piece.addr,
        piece.addr + piece.size <= o[k].addr + o[k].size,
    ensures
        forall|i: int| 0 <= i < n.len() ==> records_apart(#[trigger] n[i], piece),
{
    assert forall|i: int| 0 <= i < n.len() implies records_apart(#[trigger] n[i], piece) by {
        let oi = if i < k { i } else { i + 1 };
        assert(n[i] == o[oi]);
        if oi < k {
            assert(records_apart(o[oi], o[k]));
        } else {
            assert(records_apart(o[k], o[oi]));
        }
    }
}

/// A piece of a record holds no slab page, with the slabs' pages unchanged.
proof fn lemma_piece_no_slab(now: Set<u32>, before: Set<u32>, rec: PageRecord, piece: PageRecord)
    requires
        now == before,
        forall|page: u32| #[trigger] before.contains(page) ==> !holds(rec, page as int),
        rec.addr <= piece.addr,
        piece.addr + piece.size <= rec.addr + rec.size,
    ensures
        forall|page: u32| #[trigger] now.contains(page) ==> !holds(piece, page as int),
{
    assert forall|page: u32| #[trigger] now.contains(page) implies !holds(piece, page as int) by {
        assert(before.contains(page));
    }
}

/// The record at `k` holds no slab page.
proof fn lemma_record_no_slab(a: &SlabAllocator, k: int)
    requires
        a.wf(),
        0 <= k < a.records().len(),
    ensures
        forall|page: u32| #[trigger] a.slabs().dom().contains(page) ==> !holds(a.records()[k], page as int),
{
    assert forall|page: u32| #[trigger] a.slabs().dom().contains(page) implies !holds(a.records()[k], page as int) by {
        assert(a.slabs().contains_key(page));
    }
}

impl SlabAllocator {
    /// Serves a large block: the first record of free pages, from the head, that is large
    /// enough gives up its first pages (or all of it); else fresh pages are needed.
    fn large_alloc(&mut self, size: u32) -> (r: SlabStep)
        requires
            old(self).wf(),
            old(self).pending() == Pending::Idle,
            0 < size <= u32::MAX - 4095,
        ensures
            final(self).wf(),
            r matches SlabStep::Done(a) ==> final(self).pending() == Pending::Idle && exists|i: int|
                0 <= i < final(self).large().len() && (#[trigger] final(self).large()[i]).addr == a
                    && final(self).large()[i].size == large_size(size),
            r matches SlabStep::MapPages(n) ==> (n == large_size(size) && final(self).pending()
                == (Pending::LargeBlock { size: n })) || (n == PAGE_SIZE && final(self).pending() is SlabForRecord),
            large_outcome(*old(self), *final(self), size, r),
    {
        let alloc = large_size_of(size);
        let mut k = self.free_pages.len();
        while k > 0
            invariant
                k <= self.free_pages@.len(),
                forall|j: int| k <= j < self.free_pages@.len() ==> #[trigger] self.free_pages@[j].size < alloc,
                first_fit_record(self.free_pages@, alloc) == fit_below(self.free_pages@, alloc, k as int),
            ensures
                k <= self.free_pages@.len(),
                k > 0 ==> self.free_pages@[k - 1].size >= alloc,
                k > 0 ==> first_fit_record(self.free_pages@, alloc) == Some(k - 1),
                k == 0 ==> first_fit_record(self.free_pages@, alloc) == None::<int>,
            decreases k,
        {
            if self.free_pages[k - 1].size >= alloc {
                break;
            }
            k = k - 1;
        }
        if k == 0 {
            self.pending = Pending::LargeBlock { size: alloc };
            proof {
                assert(self.lists_sized());
                lemma_wf_repending(self, old(self));
            }
            return SlabStep::MapPages(alloc);
        }
        let at = k - 1;
        let rec = self.free_pages[at];
        proof {
            assert(self.records()[at as int] == rec);
            assert(record_ok(rec));
            assert forall|i: int| 0 <= i < self.records().len() && i != at implies records_apart(
                #[trigger] self.records()[i],
                rec,
            ) by {
                if i < at {
                    assert(records_apart(self.records()[i], self.records()[at as int]));
                } else {
                    assert(records_apart(self.records()[at as int], self.records()[i]));
                }
            }
        }
        let addr = rec.addr;
        let ghost piece = PageRecord { node: 0, addr, size: alloc };
        if rec.size > alloc {
            proof {
                lemma_record_no_slab(old(self), at as int);
            }
            self.carve_free(at, alloc);
            proof {
                assert forall|i: int| 0 <= i < self.records().len() implies records_apart(#[trigger] self.records()[i], piece) by {
                    if i != at {
                        assert(self.records()[i] == old(self).records()[i]);
                    } else {
                        assert(self.records()[i] == self.free_pages()[at as int]);
                    }
                }
                lemma_piece_no_slab(self.slabs().dom(), old(self).slabs().dom(), rec, piece);
            }
        } else {
            let taken = self.take_free_record(at);
            proof {
                assert forall|i: int| 0 <= i < self.records().len() implies (#[trigger] self.records()[i]).node != rec.node by {
                    let oi = if i < at { i } else { i + 1 };
                    assert(self.records()[i] == old(self).records()[oi]);
                    if oi < at {
                        assert(old(self).records()[oi].node != old(self).records()[at as int].node);
                    } else {
                        assert(old(self).records()[at as int].node != old(self).records()[oi].node);
                    }
                }
                assert(old(self).slot_in_use(rec.node));
            }
            self.free_node(taken.node);
            proof {
                assert(self.records() =~= old(self).records().remove(at as int));
                lemma_piece_apart(old(self).records(), self.records(), at as int, piece);
                lemma_record_no_slab(old(self), at as int);
                lemma_piece_no_slab(self.slabs().dom(), old(self).slabs().dom(), rec, piece);
            }
        }
        self.record(true, addr, alloc, addr)
    }

    /// Frees a large block: its record leaves the large blocks, and its pages are recorded
    /// for reuse. A pointer that is no large block is ignored.
    fn large_dealloc(&mut self, ptr: u32) -> (r: SlabStep)
        requires
            old(self).wf(),
            old(self).pending() == Pending::Idle,
        ensures
            final(self).wf(),
            r == SlabStep::Done(0) ==> final(self).pending() == Pending::Idle,
            r != SlabStep::Done(0) ==> r == SlabStep::MapPages(PAGE_SIZE) && final(self).pending() is SlabForRecord,
            (forall|i: int| 0 <= i < old(self).large().len() ==> (#[trigger] old(self).large()[i]).addr != ptr)
                ==> *final(self) == *old(self) && r == SlabStep::Done(0),
            forall|i: int| 0 <= i < old(self).large().len() && (#[trigger] old(self).large()[i]).addr == ptr ==> {
                &&& final(self).large() == old(self).large().remove(i)
                &&& r == SlabStep::Done(0) ==> final(self).free_pages().len() > 0
                    && final(self).free_pages().last().addr == ptr
                    && final(self).free_pages().last().size == old(self).large()[i].size
                &&& r != SlabStep::Done(0) ==> final(self).pending() == (Pending::SlabForRecord {
                    addr: ptr,
                    size: old(self).large()[i].size,
                    large: false,
                    result: 0,
                })
            },
    {
        let mut k = self.large.len();
        while k > 0
            invariant
                k <= self.large@.len(),
                forall|j: int| k <= j < self.large@.len() ==> (#[trigger] self.large@[j]).addr != ptr,
            ensures
                k <= self.large@.len(),
                k > 0 ==> self.large@[k - 1].addr == ptr,
                k == 0 ==> forall|j: int| 0 <= j < self.large@.len() ==> (#[trigger] self.large@[j]).addr != ptr,
            decreases k,
        {
            if self.large[k - 1].addr == ptr {
                break;
            }
            k = k - 1;
        }
        if k == 0 {
            return SlabStep::Done(0);
        }
        let at = k - 1;
        proof {
            let fl = old(self).free_pages().len() as int;
            assert forall|i: int| 0 <= i < old(self).large().len() && (#[trigger] old(self).large()[i]).addr == ptr
                implies i == at by {
                assert(old(self).records()[fl + i] == old(self).large()[i]);
                assert(old(self).records()[fl + at] == old(self).large()[at as int]);
                assert(record_ok(old(self).records()[fl + i]));
                assert(record_ok(old(self).records()[fl + at]));
                if i < at {
                    assert(records_apart(old(self).records()[fl + i], old(self).records()[fl + at]));
                } else if i > at {
                    assert(records_apart(old(self).records()[fl + at], old(self).records()[fl + i]));
                }
            }
        }
        let f = self.free_pages.len();
        let rec = self.take_large_record(at);
        proof {
            let ka = at + f;
            assert(old(self).records()[ka as int] == rec);
            assert forall|i: int| 0 <= i < self.records().len() implies (#[trigger] self.records()[i]).node != rec.node by {
                let oi = if i < ka { i } else { i + 1 };
                if i < f {
                    assert(self.records()[i] == old(self).records()[i]);
                } else {
                    assert(self.records()[i] == self.large()[i - f]);
                    assert(old(self).records()[oi] == old(self).large()[oi - f]);
                }
                if oi < ka {
                    assert(old(self).records()[oi].node != old(self).records()[ka as int].node);
                } else {
                    assert(old(self).records()[ka as int].node != old(self).records()[oi].node);
                }
            }
            assert(old(self).slot_in_use(rec.node));
        }
        self.free_node(rec.node);
        proof {
            let ka = at + f;
            assert(self.records() =~= old(self).records().remove(ka as int));
            assert(record_ok(old(self).records()[ka as int]));
            lemma_piece_apart(old(self).records(), self.records(), ka as int, PageRecord { node: 0, addr: ptr, size: rec.size });
            lemma_record_no_slab(old(self), ka as int);
            lemma_piece_no_slab(self.slabs().dom(), old(self).slabs().dom(), rec, PageRecord { node: 0, addr: ptr, size: rec.size });
        }
        self.record(false, ptr, rec.size, 0)
    }

    /// Frees a slot of a slab: it goes back at the head of its slab's free chain.
    fn slab_dealloc(&mut self, ptr: u32, effective: u32)
        requires
            old(self).wf(),
            old(self).pending() == Pending::Idle,
            old(self).slot_in_use(ptr),
            class_for(effective) == Some(old(self).slabs()[page_of(ptr)].class),
            !old(self).is_record_node(ptr),
        ensures
            final(self).wf(),
            final(self).pending() == Pending::Idle,
            !final(self).slot_in_use(ptr),
            final(self).records() == old(self).records(),
    {
        let ci = class_index(effective).unwrap();
        let size = class_size_of(ci);
        let page = page_base(ptr);
        let idx = ((ptr - page) / size) as u16;
        proof {
            let p = old(self).slabs()[page];
            let off: int = ptr - page;
            assert(off == (off / size as int) * size as int) by (nonlinear_arith)
                requires
                    off % (size as int) == 0,
                    size > 0,
            ;
            assert(ptr == slot_addr(page, p.class as int, idx as int));
            assert forall|i: int| 0 <= i < old(self).records().len() implies (#[trigger] old(self).records()[i]).node
                != slot_addr(page, p.class as int, idx as int) by {
                if old(self).records()[i].node == ptr {
                    assert(old(self).is_record_node(ptr));
                }
            }
        }
        self.slab_push(page, idx);
        proof {
            let np = self.slabs()[page];
            assert(np.free@.last() == idx);
            assert(np.free@.contains(idx));
        }
    }
}

/// The bytes a fresh mapping for what waits covers.
pub open spec fn mapping_size(p: Pending) -> u32 {
    match p {
        Pending::LargeBlock { size } => size,
        _ => PAGE_SIZE,
    }
}

/// A fresh mapping at `a` for what waits: whole pages in the address space that share none
/// with what the allocator holds.
pub open spec fn fresh_mapping(s: &SlabAllocator, a: u32) -> bool {
    let r = PageRecord { node: 0, addr: a, size: mapping_size(s.pending()) };
    &&& a % 4096 == 0
    &&& a + mapping_size(s.pending()) <= 0x1_0000_0000
    &&& forall|i: int| 0 <= i < s.records().len() ==> records_apart(#[trigger] s.records()[i], r)
    &&& forall|page: u32| #[trigger] s.slabs().contains_key(page) ==> !holds(r, page as int)
    &&& s.pending() matches Pending::SlabForRecord { addr, size, .. } ==> records_apart(
        PageRecord { node: 0, addr, size },
        r,
    )
}

impl SlabAllocator {
    /// Allocates `size` bytes aligned to `align`: a slot of the class for the larger of the
    /// two, or whole pages for a block too large for any class.
    pub fn allocate(&mut self, size: u32, align: u32) -> (r: SlabStep)
        requires
            old(self).wf(),
            old(self).pending() == Pending::Idle,
            0 < size <= u32::MAX - 4095,
        ensures
            final(self).wf(),
            ({
                let effective = if size >= align { size } else { align };
                match class_for(effective) {
                    Some(ci) => match r {
                        SlabStep::Done(slot) => final(self).pending() == Pending::Idle
                            && final(self).slot_in_use(slot)
                            && final(self).slabs()[page_of(slot)].class == ci
                            && !final(self).is_record_node(slot)
                            && (old(self).partial(ci as int).len() > 0 ==> slot == head_slot(old(self), ci as int))
                            && !(old(self).partial(ci as int).len() == 0 && old(self).free_pages().len() == 0),
                        SlabStep::MapPages(n) => n == PAGE_SIZE && final(self).pending()
                            == (Pending::SlabForCaller { ci }) && old(self).partial(ci as int).len() == 0
                            && old(self).free_pages().len() == 0,
                    },
                    None => match r {
                        SlabStep::Done(a) => final(self).pending() == Pending::Idle && exists|i: int|
                            0 <= i < final(self).large().len() && (#[trigger] final(self).large()[i]).addr == a
                                && final(self).large()[i].size == large_size(size),
                        SlabStep::MapPages(n) => (n == large_size(size) && final(self).pending()
                            == (Pending::LargeBlock { size: n })) || (n == PAGE_SIZE
                            && final(self).pending() is SlabForRecord),
                    },
                }
            }),
            class_for(if size >= align { size } else { align }) is None ==> large_outcome(*old(self), *final(self), size, r),
    {
        let effective = if size >= align { size } else { align };
        match class_index(effective) {
            Some(ci) => {
                match self.slab_alloc(ci) {
                    Some(slot) => SlabStep::Done(slot),
                    None => {
                        self.pending = Pending::SlabForCaller { ci };
                        proof {
                            assert(self.lists_sized());
                            lemma_wf_repending(self, old(self));
                        }
                        SlabStep::MapPages(PAGE_SIZE)
                    },
                }
            },
            None => self.large_alloc(size),
        }
    }

    /// Frees what `allocate` gave for `size` bytes aligned to `align`: a slot goes back to its
    /// slab, a large block's pages are kept for reuse. A null pointer is ignored.
    pub fn dealloc(&mut self, ptr: u32, size: u32, align: u32) -> (r: SlabStep)
        requires
            old(self).wf(),
            old(self).pending() == Pending::Idle,
            ptr != 0 && (if size >= align { size } else { align }) <= 1024 ==> {
                &&& old(self).slot_in_use(ptr)
                &&& class_for(if size >= align { size } else { align }) == Some(
                    old(self).slabs()[page_of(ptr)].class,
                )
                &&& !old(self).is_record_node(ptr)
            },
        ensures
            final(self).wf(),
            ptr == 0 ==> r == SlabStep::Done(0) && *final(self) == *old(self),
            r == SlabStep::Done(0) ==> final(self).pending() == Pending::Idle,
            r != SlabStep::Done(0) ==> r == SlabStep::MapPages(PAGE_SIZE) && final(self).pending() is SlabForRecord,
            ptr != 0 && (if size >= align { size } else { align }) <= 1024 ==> !final(self).slot_in_use(ptr)
                && r == SlabStep::Done(0),
            ptr != 0 && (if size >= align { size } else { align }) > 1024 ==> {
                &&& (forall|i: int| 0 <= i < old(self).large().len() ==> (#[trigger] old(self).large()[i]).addr != ptr)
                    ==> *final(self) == *old(self) && r == SlabStep::Done(0)
                &&& forall|i: int| 0 <= i < old(self).large().len() && (#[trigger] old(self).large()[i]).addr == ptr ==> {
                    &&& final(self).large() == old(self).large().remove(i)
                    &&& r == SlabStep::Done(0) ==> final(self).free_pages().len() > 0
                        && final(self).free_pages().last().addr == ptr
                        && final(self).free_pages().last().size == old(self).large()[i].size
                    &&& r != SlabStep::Done(0) ==> final(self).pending() == (Pending::SlabForRecord {
                        addr: ptr,
                        size: old(self).large()[i].size,
                        large: false,
                        result: 0,
                    })
                }
            },
    {
        if ptr == 0 {
            return SlabStep::Done(0);
        }
        let effective = if size >= align { size } else { align };
        if effective > 1024 {
            self.large_dealloc(ptr)
        } else {
            self.slab_dealloc(ptr, effective);
            SlabStep::Done(0)
        }
    }

    /// Goes on with what waits, given the fresh mapping the kernel made for it, if it did.
    /// Without one, a slot or a large block comes out as 0; a record needs one.
    pub fn mapped(&mut self, addr: Option<u32>) -> (r: SlabStep)
        requires
            old(self).wf(),
            old(self).pending() is SlabForRecord ==> addr is Some,
            addr matches Some(a) ==> fresh_mapping(old(self), a),
        ensures
            final(self).wf(),
            old(self).pending() == Pending::Idle ==> r == SlabStep::Done(0) && *final(self) == *old(self),
            r matches SlabStep::Done(_) ==> final(self).pending() == Pending::Idle,
            r matches SlabStep::MapPages(n) ==> n == PAGE_SIZE && final(self).pending() is SlabForRecord,
            old(self).pending() matches Pending::SlabForCaller { ci } ==> match addr {
                None => r == SlabStep::Done(0),
                Some(_) => r matches SlabStep::Done(slot) && final(self).slot_in_use(slot)
                    && final(self).slabs()[page_of(slot)].class == ci && !final(self).is_record_node(slot),
            },
            old(self).pending() matches Pending::SlabForRecord { result, .. } ==> r == SlabStep::Done(result),
            old(self).pending() matches Pending::LargeBlock { size } ==> match addr {
                None => r == SlabStep::Done(0),
                Some(a) => r == SlabStep::Done(a) || r == SlabStep::MapPages(PAGE_SIZE),
            },
    {
        match self.pending {
            Pending::Idle => SlabStep::Done(0),
            Pending::SlabForCaller { ci } => {
                self.pending = Pending::Idle;
                proof {
                    assert(self.lists_sized());
                    lemma_wf_repending(self, old(self));
                }
                match addr {
                    None => SlabStep::Done(0),
                    Some(page) => {
                        proof {
                            assert forall|i: int| 0 <= i < self.records().len() implies !holds(#[trigger] self.records()[i], page as int) by {
                                assert(records_apart(old(self).records()[i], PageRecord { node: 0, addr: page, size: PAGE_SIZE }));
                            }
                            assert(!self.slabs().contains_key(page)) by {
                                if self.slabs().contains_key(page) {
                                    assert(old(self).slabs().contains_key(page));
                                    assert(!holds(PageRecord { node: 0, addr: page, size: PAGE_SIZE }, page as int));
                                }
                            }
                        }
                        self.new_slab(page, ci);
                        let ghost mid = self.records();
                        let slot = self.slab_pop(ci);
                        proof {
                            assert(!self.is_record_node(slot)) by {
                                if self.is_record_node(slot) {
                                    let i = choose|i: int| 0 <= i < self.records().len() && #[trigger] self.records()[i].node == slot;
                                    assert(mid[i].node == slot);
                                }
                            }
                        }
                        SlabStep::Done(slot)
                    },
                }
            },
            Pending::SlabForRecord { addr: ra, size: rs, large, result } => {
                let page = addr.unwrap();
                proof {
                    let fresh = PageRecord { node: 0, addr: page, size: PAGE_SIZE };
                    assert forall|i: int| 0 <= i < self.records().len() implies !holds(#[trigger] self.records()[i], page as int) by {
                        assert(records_apart(self.records()[i], fresh));
                    }
                    assert(!self.slabs().contains_key(page)) by {
                        if self.slabs().contains_key(page) {
                            assert(!holds(fresh, page as int));
                        }
                    }
                    assert(!holds(PageRecord { node: 0, addr: ra, size: rs }, page as int));
                }
                self.new_slab(page, 0);
                let ghost mid = self.records();
                let node = self.slab_pop(0);
                let ghost before = *self;
                proof {
                    assert(!self.is_record_node(node)) by {
                        if self.is_record_node(node) {
                            let i = choose|i: int| 0 <= i < self.records().len() && #[trigger] self.records()[i].node == node;
                            assert(mid[i].node == node);
                        }
                    }
                    assert forall|i: int| 0 <= i < self.records().len() implies records_apart(
                        #[trigger] self.records()[i],
                        PageRecord { node, addr: ra, size: rs },
                    ) by {
                        assert(records_apart(self.records()[i], PageRecord { node: 0, addr: ra, size: rs }));
                    }
                    assert forall|pg: u32| #[trigger] self.slabs().contains_key(pg) implies !holds(
                        PageRecord { node, addr: ra, size: rs },
                        pg as int,
                    ) by {
                        assert(!holds(PageRecord { node: 0, addr: ra, size: rs }, pg as int));
                    }
                }
                self.pending = Pending::Idle;
                proof {
                    assert(self.lists_sized());
                    lemma_wf_repending(self, &before);
                }
                self.push_record(large, node, ra, rs);
                SlabStep::Done(result)
            },
            Pending::LargeBlock { size } => {
                self.pending = Pending::Idle;
                proof {
                    assert(self.lists_sized());
                    lemma_wf_repending(self, old(self));
                }
                match addr {
                    None => SlabStep::Done(0),
                    Some(a) => {
                        proof {
                            let fresh = PageRecord { node: 0, addr: a, size };
                            assert forall|i: int| 0 <= i < self.records().len() implies records_apart(
                                #[trigger] self.records()[i],
                                fresh,
                            ) by {
                                assert(records_apart(old(self).records()[i], fresh));
                            }
                            assert forall|pg: u32| #[trigger] self.slabs().contains_key(pg) implies !holds(fresh, pg as int) by {
                                assert(old(self).slabs().contains_key(pg));
                            }
                        }
                        self.record(true, a, size, a)
                    },
                }
            },
        }
    }
}

} // verus!
