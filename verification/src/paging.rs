//! Two-level x86 paging: page directories and page tables held in physical
//! frames, the mapping of virtual pages to physical frames, and address
//! translation through them.
use vstd::prelude::*;
use crate::address::{VirtualAddress, PhysicalAddress};
use crate::memory::{MemMappedRegion, MemoryBacking, region_end, regions_wf};
use crate::address::round_down;
use crate::files::{DriverID, DriverMappingToken};
use crate::frames::{FrameTracker, FilePageTracker, get_file_backed_page, track_file_backed_page, released_counts, page_key};
use crate::state::TaskMemory;
use crate::id::TaskID;
use crate::map::TaskMap;

verus! {

/// Extra permission bits requested for paged memory
#[derive(Copy, Clone, Debug, PartialEq, Eq, Structural)]
pub struct PermissionFlags(pub u8);

impl PermissionFlags {
    pub const USER_ACCESS: u8 = 1;
    pub const WRITE_ACCESS: u8 = 2;
    pub const NO_RECLAIM: u8 = 4;

    pub fn new(flags: u8) -> (r: PermissionFlags)
        ensures
            r.0 == flags,
    {
        PermissionFlags(flags)
    }

    pub fn empty() -> (r: PermissionFlags)
        ensures
            r.0 == 0,
    {
        PermissionFlags(0)
    }

    pub fn as_u8(&self) -> (r: u8)
        ensures
            r == self.0,
    {
        self.0
    }

    /// Whether any of the given flags is set
    pub fn has_flag(&self, flag: u8) -> (r: bool)
        ensures
            r == (self.0 & flag != 0),
    {
        self.0 & flag != 0
    }
}

/// Entry bits: present, writable, user-accessible, and a software bit that
/// marks frames that must not be reclaimed
pub const ENTRY_PRESENT: u32 = 0x1;
pub const ENTRY_WRITE: u32 = 0x2;
pub const ENTRY_USER: u32 = 0x4;
pub const ENTRY_NO_RECLAIM: u32 = 0x200;
pub const ENTRY_ADDRESS_MASK: u32 = 0xfffff000;

/// The number of entries in a page directory or page table
pub const TABLE_ENTRIES: usize = 1024;

pub open spec fn entry_present(e: u32) -> bool {
    e & ENTRY_PRESENT == ENTRY_PRESENT
}

pub open spec fn entry_address(e: u32) -> u32 {
    e & ENTRY_ADDRESS_MASK
}

/// An entry pointed at a new frame: its flag bits are kept
pub open spec fn with_address(e: u32, paddr: u32) -> u32 {
    (e & 0xfff) | (paddr & ENTRY_ADDRESS_MASK)
}

/// The entry bits that permission flags ask for
pub open spec fn flag_bits(flags: u8) -> u32 {
    (if flags & PermissionFlags::USER_ACCESS != 0 { ENTRY_USER } else { 0 })
        | (if flags & PermissionFlags::WRITE_ACCESS != 0 { ENTRY_WRITE } else { 0 })
        | (if flags & PermissionFlags::NO_RECLAIM != 0 { ENTRY_NO_RECLAIM } else { 0 })
}

/// A page table entry after mapping `paddr` with `flags`: the frame address
/// is replaced, the entry is marked present, and the requested permission
/// bits are added to those already set.
pub open spec fn mapped_entry(e: u32, paddr: u32, flags: u8) -> u32 {
    with_address(e, paddr) | ENTRY_PRESENT | flag_bits(flags)
}

/// A directory entry for a freshly allocated page table. Below the kernel's
/// region, the whole 4 MiB range is user-accessible and writable.
pub open spec fn new_table_entry(e: u32, table: u32, dir_index: int) -> u32 {
    if dir_index < 768 {
        with_address(e, table) | ENTRY_PRESENT | ENTRY_USER | ENTRY_WRITE
    } else {
        with_address(e, table) | ENTRY_PRESENT
    }
}

pub proof fn lemma_mapped_entry(e: u32, paddr: u32, flags: u8)
    ensures
        entry_present(mapped_entry(e, paddr, flags)),
        entry_address(mapped_entry(e, paddr, flags)) == paddr & ENTRY_ADDRESS_MASK,
{
    let f = flag_bits(flags);
    assert(f & 0xfffff001 == 0) by (bit_vector)
        requires f == (if flags & 1u8 != 0 { 4u32 } else { 0u32 }) | (if flags & 2u8 != 0 { 2u32 } else { 0u32 }) | (if flags & 4u8 != 0 { 0x200u32 } else { 0u32 });
    assert((((e & 0xfff) | (paddr & 0xfffff000)) | 1 | f) & 1 == 1 && (((e & 0xfff) | (paddr & 0xfffff000)) | 1 | f) & 0xfffff000 == paddr & 0xfffff000) by (bit_vector)
        requires f & 0xfffff001 == 0;
}

pub proof fn lemma_new_table_entry(e: u32, table: u32, dir_index: int)
    ensures
        entry_present(new_table_entry(e, table, dir_index)),
        entry_address(new_table_entry(e, table, dir_index)) == table & ENTRY_ADDRESS_MASK,
{
    assert((((e & 0xfff) | (table & 0xfffff000)) | 1 | 4 | 2) & 1 == 1 && (((e & 0xfff) | (table & 0xfffff000)) | 1 | 4 | 2) & 0xfffff000 == table & 0xfffff000) by (bit_vector);
    assert((((e & 0xfff) | (table & 0xfffff000)) | 1) & 1 == 1 && (((e & 0xfff) | (table & 0xfffff000)) | 1) & 0xfffff000 == table & 0xfffff000) by (bit_vector);
}

/// The directory index of a virtual address: its top ten bits
pub open spec fn dir_index(vaddr: u32) -> int {
    vaddr as int / 0x400000
}

/// The page table index of a virtual address: its middle ten bits
pub open spec fn table_index(vaddr: u32) -> int {
    (vaddr as int / 0x1000) % 1024
}

/// The virtual page number of an address
pub open spec fn page_number(vaddr: u32) -> int {
    vaddr as int / 0x1000
}

/// Whether the tables reachable from a directory are all held in memory
pub open spec fn dir_ok(mem: Map<u32, Seq<u32>>, dir: u32) -> bool {
    &&& mem.contains_key(dir)
    &&& mem[dir].len() == TABLE_ENTRIES
    &&& forall|i: int| 0 <= i < TABLE_ENTRIES && entry_present(#[trigger] mem[dir][i])
        ==> mem.contains_key(entry_address(mem[dir][i])) && mem[entry_address(mem[dir][i])].len() == TABLE_ENTRIES
}

/// The page table entry that covers `vaddr`, read through the directory
pub open spec fn table_entry(mem: Map<u32, Seq<u32>>, dir: u32, vaddr: u32) -> u32 {
    mem[entry_address(mem[dir][dir_index(vaddr)])][table_index(vaddr)]
}

/// The frame that backs the page of `vaddr`, or `None` when its directory or
/// table entry is not present
pub open spec fn mapped_frame(mem: Map<u32, Seq<u32>>, dir: u32, vaddr: u32) -> Option<u32> {
    if !entry_present(mem[dir][dir_index(vaddr)]) {
        None
    } else if !entry_present(table_entry(mem, dir, vaddr)) {
        None
    } else {
        Some(entry_address(table_entry(mem, dir, vaddr)))
    }
}

/// Translate a virtual address through a directory: the physical address it
/// reaches, or `None` when its page is not mapped
pub open spec fn translate(mem: Map<u32, Seq<u32>>, dir: u32, vaddr: u32) -> Option<u32> {
    match mapped_frame(mem, dir, vaddr) {
        Some(frame) => Some((frame + vaddr as int % 0x1000) as u32),
        None => None,
    }
}

/// The page tables reachable from a directory below its top entry are
/// distinct from each other and from the directory
pub open spec fn tables_distinct(mem: Map<u32, Seq<u32>>, dir: u32) -> bool {
    &&& forall|i: int| 0 <= i < 1023 && entry_present(#[trigger] mem[dir][i]) ==> entry_address(mem[dir][i]) != dir
    &&& forall|i: int, j: int|
        0 <= i < 1023 && 0 <= j < 1023 && i != j && entry_present(#[trigger] mem[dir][i]) && entry_present(#[trigger] mem[dir][j])
            ==> entry_address(mem[dir][i]) != entry_address(mem[dir][j])
}

/// A page directory whose tables are all in memory, each held only once
pub open spec fn is_directory(mem: Map<u32, Seq<u32>>, dir: u32) -> bool {
    dir_ok(mem, dir) && tables_distinct(mem, dir)
}

/// A frame of physical memory holding a page directory or page table
struct TableFrame {
    frame: u32,
    entries: Vec<u32>,
}

/// A physical frame handed out by the frame allocator
#[derive(Copy, Clone, Debug, PartialEq, Eq, Structural)]
pub struct AllocatedFrame(pub PhysicalAddress);

impl AllocatedFrame {
    pub fn new(addr: PhysicalAddress) -> (r: Self)
        ensures
            r.0 == addr,
    {
        AllocatedFrame(addr)
    }

    pub fn to_physical_address(&self) -> (r: PhysicalAddress)
        ensures
            r == self.0,
    {
        self.0
    }
}

/// The physical memory that paging reads: the frames that hold page
/// directories and page tables, and the allocator of free frames, which hands
/// out frames in ascending order below a limit.
pub struct PhysicalMemory {
    tables: Vec<TableFrame>,
    next_frame: u32,
    frame_limit: u32,
    contents: Ghost<Map<u32, Seq<u32>>>,
}

impl View for PhysicalMemory {
    type V = Map<u32, Seq<u32>>;

    /// The entries of each frame that holds a directory or table, by the
    /// frame's physical address
    closed spec fn view(&self) -> Map<u32, Seq<u32>> {
        self.contents@
    }
}

impl PhysicalMemory {
    pub closed spec fn wf(&self) -> bool {
        &&& forall|i: int| 0 <= i < self.tables@.len() ==> self.contents@.contains_key(#[trigger] self.tables@[i].frame)
            && self.contents@[self.tables@[i].frame] == self.tables@[i].entries@
        &&& forall|i: int, j: int| 0 <= i < j < self.tables@.len() ==> (#[trigger] self.tables@[i]).frame != (#[trigger] self.tables@[j]).frame
        &&& forall|f: u32| #[trigger] self.contents@.contains_key(f) ==> exists|i: int| 0 <= i < self.tables@.len() && self.tables@[i].frame == f
        &&& forall|f: u32| #[trigger] self.contents@.contains_key(f) ==> f < self.next_frame
        &&& self.next_frame % 0x1000 == 0
        &&& self.next_frame <= self.frame_limit
    }

    /// The next frame the allocator hands out
    pub closed spec fn next_free(&self) -> u32 {
        self.next_frame
    }

    /// The address below which the allocator hands out frames
    pub closed spec fn limit(&self) -> u32 {
        self.frame_limit
    }

    /// Memory with no tables, whose free frames run from `first_free` up to
    /// `limit`
    pub fn new(first_free: u32, limit: u32) -> (r: Self)
        requires
            first_free % 0x1000 == 0,
            first_free <= limit,
        ensures
            r.wf(),
            r@ == Map::<u32, Seq<u32>>::empty(),
            r.next_free() == first_free,
            r.limit() == limit,
    {
        PhysicalMemory { tables: Vec::new(), next_frame: first_free, frame_limit: limit, contents: Ghost(Map::empty()) }
    }

    /// Take the next free frame
    pub fn allocate_frame(&mut self) -> (r: Option<AllocatedFrame>)
        requires
            old(self).wf(),
        ensures
            final(self).wf(),
            final(self)@ == old(self)@,
            final(self).limit() == old(self).limit(),
            old(self).next_free() as int + 0x1000 <= old(self).limit() ==> r == Some(AllocatedFrame(PhysicalAddress(old(self).next_free())))
                && final(self).next_free() == old(self).next_free() + 0x1000,
            old(self).next_free() as int + 0x1000 > old(self).limit() ==> r is None && final(self).next_free() == old(self).next_free(),
    {
        if self.frame_limit - self.next_frame < 0x1000 {
            return None;
        }
        let frame = self.next_frame;
        self.next_frame = self.next_frame + 0x1000;
        assert(self.next_frame % 0x1000 == 0);
        assert(forall|f: u32| #[trigger] self.contents@.contains_key(f) ==> f < self.next_frame);
        assert forall|f: u32| #[trigger] self.contents@.contains_key(f) implies exists|j: int| 0 <= j < self.tables@.len() && self.tables@[j].frame == f by {
            assert(old(self).contents@.contains_key(f));
            let j = choose|j: int| 0 <= j < old(self).tables@.len() && old(self).tables@[j].frame == f;
            assert(self.tables@[j].frame == f);
        }
        Some(AllocatedFrame::new(PhysicalAddress::new(frame)))
    }

    /// Take `count` consecutive free frames, returning the first
    pub fn allocate_frames(&mut self, count: usize) -> (r: Option<AllocatedFrame>)
        requires
            old(self).wf(),
        ensures
            final(self).wf(),
            final(self)@ == old(self)@,
            final(self).limit() == old(self).limit(),
            old(self).next_free() + count * 0x1000 <= old(self).limit() ==> r == Some(AllocatedFrame(PhysicalAddress(old(self).next_free())))
                && final(self).next_free() == old(self).next_free() + count * 0x1000,
            old(self).next_free() + count * 0x1000 > old(self).limit() ==> r is None && final(self).next_free() == old(self).next_free(),
    {
        let room: u32 = (self.frame_limit - self.next_frame) / 0x1000;
        if count > room as usize {
            assert(count * 0x1000 > self.frame_limit - self.next_frame) by (nonlinear_arith)
                requires count > room, room == (self.frame_limit - self.next_frame) / 0x1000;
            return None;
        }
        assert(count * 0x1000 <= room * 0x1000 <= self.frame_limit - self.next_frame) by (nonlinear_arith)
            requires count <= room, room == (self.frame_limit - self.next_frame) / 0x1000, self.next_frame <= self.frame_limit;
        let frame = self.next_frame;
        let c: u32 = count as u32;
        self.next_frame = self.next_frame + c * 0x1000;
        assert(self.next_frame % 0x1000 == 0) by (nonlinear_arith)
            requires self.next_frame == frame + c * 0x1000, frame % 0x1000 == 0;
        assert(forall|f: u32| #[trigger] self.contents@.contains_key(f) ==> f < self.next_frame);
        assert forall|f: u32| #[trigger] self.contents@.contains_key(f) implies exists|j: int| 0 <= j < self.tables@.len() && self.tables@[j].frame == f by {
            assert(old(self).contents@.contains_key(f));
            let j = choose|j: int| 0 <= j < old(self).tables@.len() && old(self).tables@[j].frame == f;
            assert(self.tables@[j].frame == f);
        }
        Some(AllocatedFrame::new(PhysicalAddress::new(frame)))
    }

    /// Set up a first page directory in a fresh frame: no table is present,
    /// and the top entry points at the directory itself, so that the tables
    /// appear in the top 4 MiB of the address space
    pub fn new_directory(&mut self) -> (r: Option<PhysicalAddress>)
        requires
            old(self).wf(),
        ensures
            final(self).wf(),
            final(self).limit() == old(self).limit(),
            old(self).next_free() + 0x1000 > old(self).limit() ==> r is None && final(self)@ == old(self)@
                && final(self).next_free() == old(self).next_free(),
            old(self).next_free() + 0x1000 <= old(self).limit() ==> {
                &&& r == Some(PhysicalAddress(old(self).next_free()))
                &&& final(self).next_free() == old(self).next_free() + 0x1000
                &&& final(self)@ == old(self)@.insert(
                    old(self).next_free(),
                    empty_table().update(1023, old(self).next_free() | ENTRY_PRESENT),
                )
                &&& is_directory(final(self)@, old(self).next_free())
            },
    {
        let frame = match self.allocate_frame() {
            Some(f) => f.to_physical_address(),
            None => return None,
        };
        let a = frame.as_u32();
        let mut entries: Vec<u32> = vec![0u32; TABLE_ENTRIES];
        entries.set(1023, a | ENTRY_PRESENT);
        assert(entries@ =~= empty_table().update(1023, a | ENTRY_PRESENT));
        self.add_table(a, entries);
        proof {
            lemma_aligned_address(a);
            assert((a | 1) & 0xfffff000 == a & 0xfffff000) by (bit_vector);
            lemma_zero_entry();
            let m = self@;
            assert forall|i: int| 0 <= i < TABLE_ENTRIES && entry_present(#[trigger] m[a][i])
                implies m.contains_key(entry_address(m[a][i])) && m[entry_address(m[a][i])].len() == TABLE_ENTRIES by {
                if i != 1023 {
                    assert(m[a][i] == 0);
                }
            }
            assert forall|i: int| 0 <= i < 1023 && entry_present(#[trigger] m[a][i]) implies entry_address(m[a][i]) != a by {
                assert(m[a][i] == 0);
            }
            assert forall|i: int, j: int|
                0 <= i < 1023 && 0 <= j < 1023 && i != j && entry_present(#[trigger] m[a][i]) && entry_present(#[trigger] m[a][j])
                implies entry_address(m[a][i]) != entry_address(m[a][j]) by {
                assert(m[a][i] == 0);
            }
        }
        Some(frame)
    }

    fn index_of(&self, frame: u32) -> (r: Option<usize>)
        requires
            self.wf(),
        ensures
            match r {
                Some(i) => i < self.tables@.len() && self.tables@[i as int].frame == frame,
                None => !self@.contains_key(frame),
            },
    {
        let mut i: usize = 0;
        while i < self.tables.len()
            invariant
                self.wf(),
                i <= self.tables@.len(),
                forall|j: int| 0 <= j < i ==> (#[trigger] self.tables@[j]).frame != frame,
            decreases self.tables@.len() - i,
        {
            if self.tables[i].frame == frame {
                return Some(i);
            }
            i = i + 1;
        }
        None
    }

    /// Read entry `index` of the table held in `frame`
    pub fn read_entry(&self, frame: u32, index: usize) -> (r: u32)
        requires
            self.wf(),
            self@.contains_key(frame),
            index < self@[frame].len(),
        ensures
            r == self@[frame][index as int],
    {
        match self.index_of(frame) {
            Some(i) => self.tables[i].entries[index],
            None => 0,
        }
    }

    /// Write entry `index` of the table held in `frame`
    pub fn write_entry(&mut self, frame: u32, index: usize, value: u32)
        requires
            old(self).wf(),
            old(self)@.contains_key(frame),
            index < old(self)@[frame].len(),
        ensures
            final(self).wf(),
            final(self)@ == old(self)@.insert(frame, old(self)@[frame].update(index as int, value)),
            final(self).next_free() == old(self).next_free(),
            final(self).limit() == old(self).limit(),
    {
        match self.index_of(frame) {
            Some(i) => {
                let ghost old_tables = self.tables@;
                let mut t = TableFrame { frame: 0, entries: Vec::new() };
                std::mem::swap(&mut t, &mut self.tables[i]);
                t.entries.set(index, value);
                std::mem::swap(&mut t, &mut self.tables[i]);
                self.contents = Ghost(self.contents@.insert(frame, self.contents@[frame].update(index as int, value)));
                proof {
                    assert forall|k: int| 0 <= k < self.tables@.len() implies self.contents@.contains_key(#[trigger] self.tables@[k].frame)
                        && self.contents@[self.tables@[k].frame] == self.tables@[k].entries@ by {
                        if k != i {
                            assert(self.tables@[k] == old_tables[k]);
                            assert(old_tables[k].frame != old_tables[i as int].frame);
                        }
                    }
                    assert forall|a: int, b: int| 0 <= a < b < self.tables@.len() implies (#[trigger] self.tables@[a]).frame != (#[trigger] self.tables@[b]).frame by {
                        assert(self.tables@[a].frame == old_tables[a].frame && self.tables@[b].frame == old_tables[b].frame);
                    }
                    assert forall|f: u32| #[trigger] self.contents@.contains_key(f) implies exists|j: int| 0 <= j < self.tables@.len() && self.tables@[j].frame == f by {
                        let j0 = choose|j: int| 0 <= j < old_tables.len() && old_tables[j].frame == f;
                        assert(self.tables@[j0].frame == f);
                    }
                }
            },
            None => {},
        }
    }

    /// Place a table with the given entries in a frame taken from the
    /// allocator
    fn add_table(&mut self, frame: u32, entries: Vec<u32>)
        requires
            old(self).wf(),
            frame < old(self).next_free(),
            !old(self)@.contains_key(frame),
        ensures
            final(self).wf(),
            final(self)@ == old(self)@.insert(frame, entries@),
            final(self).next_free() == old(self).next_free(),
            final(self).limit() == old(self).limit(),
    {
        let ghost old_tables = self.tables@;
        let ghost contents = entries@;
        self.tables.push(TableFrame { frame, entries });
        self.contents = Ghost(self.contents@.insert(frame, contents));
        proof {
            let n = old_tables.len();
            assert forall|k: int| 0 <= k < self.tables@.len() implies self.contents@.contains_key(#[trigger] self.tables@[k].frame)
                && self.contents@[self.tables@[k].frame] == self.tables@[k].entries@ by {
                if k < n {
                    assert(self.tables@[k] == old_tables[k]);
                }
            }
            assert forall|a: int, b: int| 0 <= a < b < self.tables@.len() implies (#[trigger] self.tables@[a]).frame != (#[trigger] self.tables@[b]).frame by {
                assert(self.tables@[a] == old_tables[a]);
                if b < n {
                    assert(self.tables@[b] == old_tables[b]);
                }
            }
            assert forall|f: u32| #[trigger] self.contents@.contains_key(f) implies exists|j: int| 0 <= j < self.tables@.len() && self.tables@[j].frame == f by {
                if f != frame {
                    let j0 = choose|j: int| 0 <= j < old_tables.len() && old_tables[j].frame == f;
                    assert(self.tables@[j0].frame == f);
                } else {
                    assert(self.tables@[n as int].frame == f);
                }
            }
        }
    }
}

/// The directory entry that covers `vaddr`
pub open spec fn dir_entry(mem: Map<u32, Seq<u32>>, dir: u32, vaddr: u32) -> u32 {
    mem[dir][dir_index(vaddr)]
}

/// A table with no entry present
pub open spec fn empty_table() -> Seq<u32> {
    Seq::new(TABLE_ENTRIES as nat, |i: int| 0u32)
}

/// Memory after `paddr` is mapped at `vaddr` through the directory `dir`.
/// When the directory has no table for the address, a zeroed table is placed
/// in the frame `fresh` and entered in the directory.
pub open spec fn mapped_in(
    before: Map<u32, Seq<u32>>,
    after: Map<u32, Seq<u32>>,
    dir: u32,
    vaddr: u32,
    paddr: u32,
    flags: u8,
    fresh: u32,
) -> bool {
    let de = dir_entry(before, dir, vaddr);
    let ti = table_index(vaddr);
    if entry_present(de) {
        let t = entry_address(de);
        after == before.insert(t, before[t].update(ti, mapped_entry(before[t][ti], paddr, flags)))
    } else {
        after == before.insert(fresh, empty_table().update(ti, mapped_entry(0, paddr, flags))).insert(
            dir,
            before[dir].update(dir_index(vaddr), new_table_entry(de, fresh, dir_index(vaddr))),
        )
    }
}

/// Memory with the present bit of the table entry for `vaddr` cleared, when
/// its page is mapped; nothing else changes
pub open spec fn cleared(mem: Map<u32, Seq<u32>>, dir: u32, vaddr: u32) -> Map<u32, Seq<u32>> {
    if mapped_frame(mem, dir, vaddr) is None {
        mem
    } else {
        let t = entry_address(dir_entry(mem, dir, vaddr));
        let ti = table_index(vaddr);
        mem.insert(t, mem[t].update(ti, mem[t][ti] & 0xfffffffe))
    }
}

/// Memory after the page of `vaddr` is unmapped through `dir`
pub open spec fn unmapped_in(before: Map<u32, Seq<u32>>, after: Map<u32, Seq<u32>>, dir: u32, vaddr: u32) -> bool {
    after == cleared(before, dir, vaddr)
}

/// Whether every page outside that of `vaddr`, below the top 4 MiB, translates
/// the same in both states
pub open spec fn same_elsewhere(before: Map<u32, Seq<u32>>, after: Map<u32, Seq<u32>>, dir: u32, vaddr: u32) -> bool {
    forall|v: u32|
        dir_index(v) < 1023 && page_number(v) != page_number(vaddr)
            ==> #[trigger] translate(after, dir, v) == translate(before, dir, v)
}

/// Every address in the page of `vaddr` reaches the same offset in the frame
/// of `paddr`
pub open spec fn page_maps_to(mem: Map<u32, Seq<u32>>, dir: u32, vaddr: u32, paddr: u32) -> bool {
    forall|v: u32|
        page_number(v) == page_number(vaddr) ==> #[trigger] translate(mem, dir, v) == Some(
            ((paddr & ENTRY_ADDRESS_MASK) + v % 0x1000) as u32,
        )
}

proof fn lemma_page_indices(v: u32, w: u32)
    by (bit_vector)
    requires
        v / 0x1000 == w / 0x1000,
    ensures
        v / 0x400000 == w / 0x400000,
        (v / 0x1000) % 1024 == (w / 0x1000) % 1024,
{
}

proof fn lemma_same_page(v: u32, w: u32)
    by (bit_vector)
    requires
        v / 0x400000 == w / 0x400000,
        (v / 0x1000) % 1024 == (w / 0x1000) % 1024,
    ensures
        v / 0x1000 == w / 0x1000,
{
}

proof fn lemma_zero_entry()
    ensures
        !entry_present(0),
{
    assert(0u32 & 1u32 != 1u32) by (bit_vector);
}

proof fn lemma_aligned_address(f: u32)
    requires
        f % 0x1000 == 0,
    ensures
        f & ENTRY_ADDRESS_MASK == f,
{
    assert(f % 0x1000 == 0 ==> f & 0xfffff000 == f) by (bit_vector);
}

proof fn lemma_cleared_entry(e: u32)
    ensures
        !entry_present(e & 0xfffffffe),
        entry_address(e & 0xfffffffe) == entry_address(e),
{
    assert((e & 0xfffffffe) & 1 != 1 && (e & 0xfffffffe) & 0xfffff000 == e & 0xfffff000) by (bit_vector);
}

/// Mapping a page makes it translate to the new frame, keeps every other page
/// as it was, and leaves a well-formed directory
pub proof fn law_map_then_translate(
    before: Map<u32, Seq<u32>>,
    after: Map<u32, Seq<u32>>,
    dir: u32,
    vaddr: u32,
    paddr: u32,
    flags: u8,
    fresh: u32,
)
    requires
        is_directory(before, dir),
        dir_index(vaddr) < 1023,
        !entry_present(dir_entry(before, dir, vaddr)) ==> !before.contains_key(fresh) && fresh % 0x1000 == 0,
        mapped_in(before, after, dir, vaddr, paddr, flags, fresh),
    ensures
        is_directory(after, dir),
        translate(after, dir, vaddr) == Some(((paddr & ENTRY_ADDRESS_MASK) + vaddr % 0x1000) as u32),
        page_maps_to(after, dir, vaddr, paddr),
        same_elsewhere(before, after, dir, vaddr),
{
    assert forall|v: u32| page_number(v) == page_number(vaddr) implies dir_index(v) == dir_index(vaddr)
        && table_index(v) == table_index(vaddr) by {
        lemma_page_indices(v, vaddr);
    }
    let di = dir_index(vaddr);
    let ti = table_index(vaddr);
    let de = before[dir][di];
    assert(0 <= di < 1024 && 0 <= ti < 1024);
    if entry_present(de) {
        let t = entry_address(de);
        assert(t != dir);
        lemma_mapped_entry(before[t][ti], paddr, flags);
        assert(after[dir] == before[dir]);
        assert(after[t][ti] == mapped_entry(before[t][ti], paddr, flags));
        assert forall|v: u32| dir_index(v) < 1023 && page_number(v) != page_number(vaddr)
            implies #[trigger] translate(after, dir, v) == translate(before, dir, v) by {
            let dv = dir_index(v);
            let tv = table_index(v);
            if entry_present(before[dir][dv]) {
                let a = entry_address(before[dir][dv]);
                if dv == di {
                    if tv == ti {
                        lemma_same_page(v, vaddr);
                    }
                    assert(after[t][tv] == before[t][tv]);
                } else {
                    assert(a != t);
                    assert(after[a] == before[a]);
                }
            }
        }
        assert forall|i: int| 0 <= i < TABLE_ENTRIES && entry_present(#[trigger] after[dir][i])
            implies after.contains_key(entry_address(after[dir][i])) && after[entry_address(after[dir][i])].len() == TABLE_ENTRIES by {
            assert(after[dir][i] == before[dir][i]);
        }
    } else {
        lemma_new_table_entry(de, fresh, di);
        lemma_aligned_address(fresh);
        lemma_mapped_entry(0, paddr, flags);
        lemma_zero_entry();
        assert(fresh != dir);
        assert(after[dir][di] == new_table_entry(de, fresh, di));
        assert(after[fresh][ti] == mapped_entry(0, paddr, flags));
        assert forall|v: u32| dir_index(v) < 1023 && page_number(v) != page_number(vaddr)
            implies #[trigger] translate(after, dir, v) == translate(before, dir, v) by {
            let dv = dir_index(v);
            let tv = table_index(v);
            if dv == di {
                if tv == ti {
                    lemma_same_page(v, vaddr);
                }
                assert(after[fresh][tv] == 0);
            } else {
                assert(after[dir][dv] == before[dir][dv]);
                if entry_present(before[dir][dv]) {
                    let a = entry_address(before[dir][dv]);
                    assert(before.contains_key(a));
                    assert(a != dir);
                    assert(after[a] == before[a]);
                }
            }
        }
        assert forall|i: int| 0 <= i < TABLE_ENTRIES && entry_present(#[trigger] after[dir][i])
            implies after.contains_key(entry_address(after[dir][i])) && after[entry_address(after[dir][i])].len() == TABLE_ENTRIES by {
            if i != di {
                assert(after[dir][i] == before[dir][i]);
                assert(before.contains_key(entry_address(before[dir][i])));
            }
        }
        assert forall|i: int| 0 <= i < 1023 && entry_present(#[trigger] after[dir][i]) implies entry_address(after[dir][i]) != dir by {
            if i != di {
                assert(after[dir][i] == before[dir][i]);
            }
        }
        assert forall|i: int, j: int|
            0 <= i < 1023 && 0 <= j < 1023 && i != j && entry_present(#[trigger] after[dir][i]) && entry_present(#[trigger] after[dir][j])
            implies entry_address(after[dir][i]) != entry_address(after[dir][j]) by {
            if i == di {
                assert(after[dir][j] == before[dir][j]);
                assert(before.contains_key(entry_address(before[dir][j])));
            } else if j == di {
                assert(after[dir][i] == before[dir][i]);
                assert(before.contains_key(entry_address(before[dir][i])));
            } else {
                assert(after[dir][i] == before[dir][i]);
                assert(after[dir][j] == before[dir][j]);
            }
        }
    }
}

/// Unmapping a page makes it translate to nothing, keeps every other page as
/// it was, and leaves a well-formed directory
pub proof fn law_unmap_then_translate(before: Map<u32, Seq<u32>>, after: Map<u32, Seq<u32>>, dir: u32, vaddr: u32)
    requires
        is_directory(before, dir),
        dir_index(vaddr) < 1023,
        unmapped_in(before, after, dir, vaddr),
    ensures
        is_directory(after, dir),
        translate(after, dir, vaddr) is None,
        same_elsewhere(before, after, dir, vaddr),
{
    if mapped_frame(before, dir, vaddr) is Some {
        let di = dir_index(vaddr);
        let ti = table_index(vaddr);
        let t = entry_address(before[dir][di]);
        assert(t != dir);
        lemma_cleared_entry(before[t][ti]);
        assert(after[dir] == before[dir]);
        assert forall|v: u32| dir_index(v) < 1023 && page_number(v) != page_number(vaddr)
            implies #[trigger] translate(after, dir, v) == translate(before, dir, v) by {
            let dv = dir_index(v);
            let tv = table_index(v);
            if entry_present(before[dir][dv]) {
                let a = entry_address(before[dir][dv]);
                if dv == di {
                    if tv == ti {
                        lemma_same_page(v, vaddr);
                    }
                    assert(after[t][tv] == before[t][tv]);
                } else {
                    assert(a != t);
                    assert(after[a] == before[a]);
                }
            }
        }
        assert forall|i: int| 0 <= i < TABLE_ENTRIES && entry_present(#[trigger] after[dir][i])
            implies after.contains_key(entry_address(after[dir][i])) && after[entry_address(after[dir][i])].len() == TABLE_ENTRIES by {
            assert(after[dir][i] == before[dir][i]);
        }
    }
}

fn entry_is_present(e: u32) -> (r: bool)
    ensures
        r == entry_present(e),
{
    e & ENTRY_PRESENT == ENTRY_PRESENT
}

/// Point an entry at `paddr`, mark it present, and add the bits that the
/// permission flags ask for
fn make_mapped_entry(e: u32, paddr: u32, flags: PermissionFlags) -> (r: u32)
    ensures
        r == mapped_entry(e, paddr, flags.0),
{
    let user: u32 = if flags.has_flag(PermissionFlags::USER_ACCESS) { ENTRY_USER } else { 0 };
    let write: u32 = if flags.has_flag(PermissionFlags::WRITE_ACCESS) { ENTRY_WRITE } else { 0 };
    let keep: u32 = if flags.has_flag(PermissionFlags::NO_RECLAIM) { ENTRY_NO_RECLAIM } else { 0 };
    ((e & 0xfff) | (paddr & ENTRY_ADDRESS_MASK)) | ENTRY_PRESENT | (user | write | keep)
}

/// Point a directory entry at a new table; below the kernel's region the
/// table is open to user code for reading and writing
fn make_table_entry(e: u32, table: u32, dir_index: usize) -> (r: u32)
    ensures
        r == new_table_entry(e, table, dir_index as int),
{
    if dir_index < 768 {
        ((e & 0xfff) | (table & ENTRY_ADDRESS_MASK)) | ENTRY_PRESENT | ENTRY_USER | ENTRY_WRITE
    } else {
        ((e & 0xfff) | (table & ENTRY_ADDRESS_MASK)) | ENTRY_PRESENT
    }
}

/// Whether mapping at `vaddr` finds its page table in the directory, or can
/// take a frame for a new one
pub open spec fn can_map(mem: &PhysicalMemory, dir: u32, vaddr: u32) -> bool {
    entry_present(dir_entry(mem@, dir, vaddr)) || mem.next_free() + 0x1000 <= mem.limit()
}

/// What a mapping through a directory owes: well-formed memory, the exact new
/// contents, a frame taken only for a missing table, and the consequences of
/// the change for translation
pub open spec fn map_done(before: &PhysicalMemory, after: &PhysicalMemory, dir: u32, vaddr: u32, paddr: u32, flags: u8) -> bool {
    &&& after.wf()
    &&& after.limit() == before.limit()
    &&& mapped_in(before@, after@, dir, vaddr, paddr, flags, before.next_free())
    &&& after.next_free() == if entry_present(dir_entry(before@, dir, vaddr)) {
        before.next_free() as int
    } else {
        before.next_free() + 0x1000
    }
    &&& is_directory(after@, dir)
    &&& translate(after@, dir, vaddr) == Some(((paddr & ENTRY_ADDRESS_MASK) + vaddr % 0x1000) as u32)
    &&& page_maps_to(after@, dir, vaddr, paddr)
    &&& same_elsewhere(before@, after@, dir, vaddr)
}

/// Map `paddr` at `vaddr` through the directory held in frame `dir`, taking a
/// frame for the page table when the directory has none for the address
fn map_in_directory(mem: &mut PhysicalMemory, dir: u32, vaddr: u32, paddr: u32, flags: PermissionFlags)
    requires
        old(mem).wf(),
        is_directory(old(mem)@, dir),
        dir_index(vaddr) < 1023,
        can_map(old(mem), dir, vaddr),
    ensures
        map_done(old(mem), final(mem), dir, vaddr, paddr, flags.0),
{
    let ghost before = *mem;
    let di = VirtualAddress::new(vaddr).get_page_directory_index();
    let ti = VirtualAddress::new(vaddr).get_page_table_index();
    let de = mem.read_entry(dir, di);
    if entry_is_present(de) {
        let table = de & ENTRY_ADDRESS_MASK;
        let te = mem.read_entry(table, ti);
        mem.write_entry(table, ti, make_mapped_entry(te, paddr, flags));
    } else {
        let frame = mem.allocate_frame();
        let table = frame.unwrap().to_physical_address().as_u32();
        let mut entries: Vec<u32> = vec![0u32; TABLE_ENTRIES];
        entries.set(ti, make_mapped_entry(0, paddr, flags));
        assert(entries@ == empty_table().update(ti as int, mapped_entry(0, paddr, flags.0)));
        mem.add_table(table, entries);
        mem.write_entry(dir, di, make_table_entry(de, table, di));
    }
    proof {
        law_map_then_translate(before@, mem@, dir, vaddr, paddr, flags.0, before.next_free());
    }
}

/// Clear the present bit of the table entry for `vaddr`, handing back the
/// frame it pointed at
fn unmap_in_directory(mem: &mut PhysicalMemory, dir: u32, vaddr: u32) -> (r: Option<u32>)
    requires
        old(mem).wf(),
        is_directory(old(mem)@, dir),
        dir_index(vaddr) < 1023,
    ensures
        final(mem).wf(),
        final(mem).next_free() == old(mem).next_free(),
        final(mem).limit() == old(mem).limit(),
        r == mapped_frame(old(mem)@, dir, vaddr),
        unmapped_in(old(mem)@, final(mem)@, dir, vaddr),
        is_directory(final(mem)@, dir),
        translate(final(mem)@, dir, vaddr) is None,
        same_elsewhere(old(mem)@, final(mem)@, dir, vaddr),
{
    let ghost before = mem@;
    let di = VirtualAddress::new(vaddr).get_page_directory_index();
    let ti = VirtualAddress::new(vaddr).get_page_table_index();
    let de = mem.read_entry(dir, di);
    if !entry_is_present(de) {
        proof { law_unmap_then_translate(before, mem@, dir, vaddr); }
        return None;
    }
    let table = de & ENTRY_ADDRESS_MASK;
    let te = mem.read_entry(table, ti);
    if !entry_is_present(te) {
        proof { law_unmap_then_translate(before, mem@, dir, vaddr); }
        return None;
    }
    mem.write_entry(table, ti, te & 0xfffffffe);
    proof { law_unmap_then_translate(before, mem@, dir, vaddr); }
    Some(te & ENTRY_ADDRESS_MASK)
}

/// The physical address that `vaddr` reaches through `dir`, if its page is
/// mapped
fn translate_in_directory(mem: &PhysicalMemory, dir: u32, vaddr: u32) -> (r: Option<u32>)
    requires
        mem.wf(),
        is_directory(mem@, dir),
    ensures
        r == translate(mem@, dir, vaddr),
{
    let di = VirtualAddress::new(vaddr).get_page_directory_index();
    let ti = VirtualAddress::new(vaddr).get_page_table_index();
    let de = mem.read_entry(dir, di);
    if !entry_is_present(de) {
        return None;
    }
    let te = mem.read_entry(de & ENTRY_ADDRESS_MASK, ti);
    if !entry_is_present(te) {
        return None;
    }
    let frame = te & ENTRY_ADDRESS_MASK;
    let offset = vaddr & 0xfff;
    assert(offset == vaddr % 0x1000 && frame + offset < 0x1_0000_0000) by (bit_vector)
        requires frame == te & 0xfffff000, offset == vaddr & 0xfff;
    Some(frame + offset)
}

/// A new directory's entries: none below the kernel's region, the kernel's
/// entries copied from the current directory, and the top entry pointed at
/// the new directory itself
pub open spec fn forked_directory(current: Seq<u32>, addr: u32) -> Seq<u32> {
    Seq::new(
        TABLE_ENTRIES as nat,
        |i: int|
            if i < 0x300 {
                0u32
            } else if i < 0x3ff {
                current[i]
            } else {
                with_address(current[i], addr)
            },
    )
}

/// Create a new page directory, copying the kernel-space entries from the
/// current one. All page directories share kernel-space mappings.
pub fn create_page_directory(mem: &mut PhysicalMemory, current: PhysicalAddress) -> (r: PhysicalAddress)
    requires
        old(mem).wf(),
        is_directory(old(mem)@, current.0),
        old(mem).next_free() + 0x1000 <= old(mem).limit(),
    ensures
        final(mem).wf(),
        final(mem).limit() == old(mem).limit(),
        r.0 == old(mem).next_free(),
        final(mem).next_free() == old(mem).next_free() + 0x1000,
        final(mem)@ == old(mem)@.insert(r.0, forked_directory(old(mem)@[current.0], r.0)),
        is_directory(final(mem)@, r.0),
        is_directory(final(mem)@, current.0),
{
    let ghost before = mem@;
    let addr = mem.allocate_frame().unwrap().to_physical_address();
    let a = addr.as_u32();
    let mut entries: Vec<u32> = Vec::new();
    let mut i: usize = 0;
    while i < TABLE_ENTRIES
        invariant
            mem.wf(),
            mem@ == before,
            is_directory(before, current.0),
            i <= TABLE_ENTRIES,
            entries@.len() == i,
            forall|k: int| 0 <= k < i ==> entries@[k] == #[trigger] forked_directory(before[current.0], a)[k],
        decreases TABLE_ENTRIES - i,
    {
        let e = if i < 0x300 {
            0u32
        } else if i < 0x3ff {
            mem.read_entry(current.0, i)
        } else {
            (mem.read_entry(current.0, i) & 0xfff) | (a & ENTRY_ADDRESS_MASK)
        };
        entries.push(e);
        i = i + 1;
    }
    assert(entries@ =~= forked_directory(before[current.0], a));
    mem.add_table(a, entries);
    proof {
        let d = forked_directory(before[current.0], a);
        let after = mem@;
        lemma_aligned_address(a);
        assert(after[current.0] == before[current.0]);
        assert forall|i: int| 0 <= i < TABLE_ENTRIES && entry_present(#[trigger] after[a][i])
            implies after.contains_key(entry_address(after[a][i])) && after[entry_address(after[a][i])].len() == TABLE_ENTRIES by {
            if i < 0x300 {
                lemma_zero_entry();
            } else if i < 0x3ff {
                assert(after[a][i] == before[current.0][i]);
            } else {
                let e = before[current.0][i];
                assert(((e & 0xfff) | (a & 0xfffff000)) & 0xfffff000 == a & 0xfffff000) by (bit_vector);
            }
        }
        assert forall|i: int| 0 <= i < 1023 && entry_present(#[trigger] after[a][i]) implies entry_address(after[a][i]) != a by {
            if i < 0x300 {
                lemma_zero_entry();
            } else {
                assert(after[a][i] == before[current.0][i]);
                assert(before.contains_key(entry_address(before[current.0][i])));
            }
        }
        assert forall|i: int, j: int|
            0 <= i < 1023 && 0 <= j < 1023 && i != j && entry_present(#[trigger] after[a][i]) && entry_present(#[trigger] after[a][j])
            implies entry_address(after[a][i]) != entry_address(after[a][j]) by {
            lemma_zero_entry();
            if i >= 0x300 && j >= 0x300 {
                assert(after[a][i] == before[current.0][i]);
                assert(after[a][j] == before[current.0][j]);
            }
        }
        assert forall|i: int| 0 <= i < TABLE_ENTRIES && entry_present(#[trigger] after[current.0][i])
            implies after.contains_key(entry_address(after[current.0][i])) && after[entry_address(after[current.0][i])].len() == TABLE_ENTRIES by {
            assert(before.contains_key(entry_address(before[current.0][i])));
        }
    }
    addr
}

/// Actual implementation of mapping a page in virtual memory: map `paddr` at
/// `vaddr` in the current directory, adding a table frame if necessary. The
/// top 4 MiB of the address space hold the tables themselves.
pub fn current_pagedir_map_explicit(
    mem: &mut PhysicalMemory,
    current: PhysicalAddress,
    paddr: PhysicalAddress,
    vaddr: VirtualAddress,
    flags: PermissionFlags,
)
    requires
        old(mem).wf(),
        is_directory(old(mem)@, current.0),
        dir_index(vaddr.0) < 1023,
        can_map(old(mem), current.0, vaddr.0),
    ensures
        map_done(old(mem), final(mem), current.0, vaddr.0, paddr.0, flags.0),
{
    map_in_directory(mem, current.0, vaddr.0, paddr.0, flags);
}

/// Map a physical frame to the specified virtual address in the current
/// directory. Returns the physical address of the frame.
pub fn current_pagedir_map(
    mem: &mut PhysicalMemory,
    current: PhysicalAddress,
    frame: AllocatedFrame,
    vaddr: VirtualAddress,
    flags: PermissionFlags,
) -> (r: PhysicalAddress)
    requires
        old(mem).wf(),
        is_directory(old(mem)@, current.0),
        dir_index(vaddr.0) < 1023,
        can_map(old(mem), current.0, vaddr.0),
    ensures
        r == frame.0,
        map_done(old(mem), final(mem), current.0, vaddr.0, frame.0.0, flags.0),
{
    let paddr = frame.to_physical_address();
    current_pagedir_map_explicit(mem, current, paddr, vaddr, flags);
    paddr
}

/// Unmap the page of `vaddr` in the current directory, handing back the
/// frame that backed it
pub fn current_pagedir_unmap(mem: &mut PhysicalMemory, current: PhysicalAddress, vaddr: VirtualAddress) -> (r: Option<AllocatedFrame>)
    requires
        old(mem).wf(),
        is_directory(old(mem)@, current.0),
        dir_index(vaddr.0) < 1023,
    ensures
        final(mem).wf(),
        final(mem).next_free() == old(mem).next_free(),
        final(mem).limit() == old(mem).limit(),
        match mapped_frame(old(mem)@, current.0, vaddr.0) {
            Some(f) => r == Some(AllocatedFrame(PhysicalAddress(f))),
            None => r is None,
        },
        unmapped_in(old(mem)@, final(mem)@, current.0, vaddr.0),
        is_directory(final(mem)@, current.0),
        translate(final(mem)@, current.0, vaddr.0) is None,
        same_elsewhere(old(mem)@, final(mem)@, current.0, vaddr.0),
{
    match unmap_in_directory(mem, current.0, vaddr.0) {
        Some(f) => Some(AllocatedFrame::new(PhysicalAddress::new(f))),
        None => None,
    }
}

/// The physical address backing a virtual address in the current directory,
/// without allocating anything for a page that is not mapped yet
pub fn maybe_get_current_physical_address(mem: &PhysicalMemory, current: PhysicalAddress, vaddr: VirtualAddress) -> (r: Option<PhysicalAddress>)
    requires
        mem.wf(),
        is_directory(mem@, current.0),
    ensures
        match translate(mem@, current.0, vaddr.0) {
            Some(p) => r == Some(PhysicalAddress(p)),
            None => r is None,
        },
{
    match translate_in_directory(mem, current.0, vaddr.0) {
        Some(p) => Some(PhysicalAddress::new(p)),
        None => None,
    }
}

/// The permission flags that a region's pages are mapped with: user code may
/// read and write them, direct physical memory is never reclaimed, and shared
/// file-backed pages are read-only since several tasks share the frame
pub open spec fn region_flags(backing: MemoryBacking) -> u8 {
    match backing {
        MemoryBacking::Direct(_) => 7,
        MemoryBacking::FileBacked { shared: true, .. } => 1,
        _ => 3,
    }
}

pub fn get_flags_for_region(region: &MemMappedRegion) -> (r: PermissionFlags)
    ensures
        r.0 == region_flags(region.backed_by),
{
    let mut flags: u8 = PermissionFlags::USER_ACCESS | PermissionFlags::WRITE_ACCESS;
    if let MemoryBacking::Direct(_) = region.backed_by {
        flags = flags | PermissionFlags::NO_RECLAIM;
    }
    if let MemoryBacking::FileBacked { shared: true, .. } = region.backed_by {
        flags = flags & !PermissionFlags::WRITE_ACCESS;
    }
    assert(1u8 | 2u8 == 3u8 && 3u8 | 4u8 == 7u8 && 3u8 & !2u8 == 1u8) by (bit_vector);
    PermissionFlags::new(flags)
}

/// The page directory of a task other than the current one
pub struct ExternalPageDirectory {
    pub id: TaskID,
    pub page_directory_location: PhysicalAddress,
}

impl ExternalPageDirectory {
    pub fn for_task(tasks: &TaskMap, id: TaskID) -> (r: Self)
        requires
            tasks.wf(),
            tasks@.contains_key(id),
        ensures
            r.id == id,
            r.page_directory_location == tasks@[id].page_directory,
    {
        let task = tasks.get_task(id).unwrap();
        ExternalPageDirectory { id, page_directory_location: task.page_directory }
    }

    /// Map `paddr` at `vaddr` in this directory, adding a table frame if
    /// necessary
    pub fn map(&self, mem: &mut PhysicalMemory, vaddr: VirtualAddress, paddr: PhysicalAddress, flags: PermissionFlags)
        requires
            old(mem).wf(),
            is_directory(old(mem)@, self.page_directory_location.0),
            dir_index(vaddr.0) < 1023,
            can_map(old(mem), self.page_directory_location.0, vaddr.0),
        ensures
            map_done(old(mem), final(mem), self.page_directory_location.0, vaddr.0, paddr.0, flags.0),
    {
        map_in_directory(mem, self.page_directory_location.0, vaddr.0, paddr.0, flags);
    }

    /// Unmap the page of `address` in this directory, handing back the frame
    /// that backed it
    pub fn unmap(&self, mem: &mut PhysicalMemory, address: VirtualAddress) -> (r: Option<AllocatedFrame>)
        requires
            old(mem).wf(),
            is_directory(old(mem)@, self.page_directory_location.0),
            dir_index(address.0) < 1023,
        ensures
            final(mem).wf(),
            final(mem).next_free() == old(mem).next_free(),
            final(mem).limit() == old(mem).limit(),
            match mapped_frame(old(mem)@, self.page_directory_location.0, address.0) {
                Some(f) => r == Some(AllocatedFrame(PhysicalAddress(f))),
                None => r is None,
            },
            unmapped_in(old(mem)@, final(mem)@, self.page_directory_location.0, address.0),
            is_directory(final(mem)@, self.page_directory_location.0),
            translate(final(mem)@, self.page_directory_location.0, address.0) is None,
            same_elsewhere(old(mem)@, final(mem)@, self.page_directory_location.0, address.0),
    {
        match unmap_in_directory(mem, self.page_directory_location.0, address.0) {
            Some(f) => Some(AllocatedFrame::new(PhysicalAddress::new(f))),
            None => None,
        }
    }
}

/// The number of directory entries from `lo` to `hi`, both included, that
/// have no table yet
pub open spec fn missing_tables(d: Seq<u32>, lo: int, hi: int) -> nat
    decreases hi - lo + 1,
{
    if hi < lo {
        0
    } else {
        missing_tables(d, lo, hi - 1) + if entry_present(d[hi]) {
            0nat
        } else {
            1nat
        }
    }
}

proof fn lemma_missing_mono(d: Seq<u32>, lo1: int, lo2: int, hi: int)
    requires
        lo1 <= lo2,
    ensures
        missing_tables(d, lo2, hi) <= missing_tables(d, lo1, hi),
    decreases hi - lo1 + 1,
{
    if hi >= lo1 {
        lemma_missing_mono(d, lo1, lo2, hi - 1);
    }
}

proof fn lemma_missing_at(d: Seq<u32>, k: int, lo: int, hi: int)
    requires
        lo <= k <= hi,
        !entry_present(d[k]),
    ensures
        missing_tables(d, lo, hi) >= 1,
    decreases hi - lo + 1,
{
    if k < hi {
        lemma_missing_at(d, k, lo, hi - 1);
    }
}

proof fn lemma_missing_update(d: Seq<u32>, k: int, v: u32, lo: int, hi: int)
    requires
        0 <= lo <= k <= hi < d.len(),
        !entry_present(d[k]),
        entry_present(v),
    ensures
        missing_tables(d.update(k, v), lo, hi) + 1 == missing_tables(d, lo, hi),
    decreases hi - lo + 1,
{
    if k < hi {
        lemma_missing_update(d, k, v, lo, hi - 1);
    } else {
        lemma_missing_unchanged(d, k, v, lo, hi - 1);
    }
}

proof fn lemma_missing_unchanged(d: Seq<u32>, k: int, v: u32, lo: int, hi: int)
    requires
        0 <= lo,
        0 <= k < d.len(),
        hi < k,
    ensures
        missing_tables(d.update(k, v), lo, hi) == missing_tables(d, lo, hi),
    decreases hi - lo + 1,
{
    if hi >= lo {
        lemma_missing_unchanged(d, k, v, lo, hi - 1);
    }
}

proof fn lemma_page_arith(base: int, i: int, v: int)
    requires
        0 <= base,
        base % 0x1000 == 0,
        0 <= i,
        0 <= v,
    ensures
        (base + i * 0x1000) / 0x1000 == base / 0x1000 + i,
        (base + i * 0x1000) % 0x1000 == 0,
        base + i * 0x1000 <= v < base + i * 0x1000 + 0x1000 ==> v / 0x1000 == base / 0x1000 + i
            && v % 0x1000 == v - base - i * 0x1000,
        v < base + i * 0x1000 ==> v / 0x1000 < base / 0x1000 + i,
        v >= base + i * 0x1000 + 0x1000 ==> v / 0x1000 > base / 0x1000 + i,
{
    assert((base + i * 0x1000) / 0x1000 == base / 0x1000 + i && (base + i * 0x1000) % 0x1000 == 0) by (nonlinear_arith)
        requires base % 0x1000 == 0, 0 <= base, 0 <= i;
    assert(base + i * 0x1000 <= v < base + i * 0x1000 + 0x1000 ==> v / 0x1000 == base / 0x1000 + i
        && v % 0x1000 == v - base - i * 0x1000) by (nonlinear_arith)
        requires base % 0x1000 == 0, 0 <= base, 0 <= i, (base + i * 0x1000) / 0x1000 == base / 0x1000 + i;
    assert(v < base + i * 0x1000 ==> v / 0x1000 < base / 0x1000 + i) by (nonlinear_arith)
        requires base % 0x1000 == 0, 0 <= base, 0 <= i, 0 <= v, (base + i * 0x1000) / 0x1000 == base / 0x1000 + i;
    assert(v >= base + i * 0x1000 + 0x1000 ==> v / 0x1000 > base / 0x1000 + i) by (nonlinear_arith)
        requires base % 0x1000 == 0, 0 <= base, 0 <= i, 0 <= v, (base + i * 0x1000) / 0x1000 == base / 0x1000 + i;
}

proof fn lemma_missing_split(d: Seq<u32>, lo: int, hi: int)
    requires
        lo <= hi,
    ensures
        missing_tables(d, lo, hi) == (if entry_present(d[lo]) { 0int } else { 1int }) + missing_tables(d, lo + 1, hi),
    decreases hi - lo,
{
    if lo < hi {
        lemma_missing_split(d, lo, hi - 1);
        assert(missing_tables(d, lo + 1, hi) == missing_tables(d, lo + 1, hi - 1) + if entry_present(d[hi]) {
            0nat
        } else {
            1nat
        });
    } else {
        assert(missing_tables(d, lo, lo - 1) == 0);
        assert(missing_tables(d, lo + 1, lo) == 0);
    }
}

proof fn lemma_next_dir(vaddr: int, i: int)
    requires
        0 <= vaddr,
        0 <= i,
    ensures
        (vaddr + i * 0x1000) / 0x400000 <= (vaddr + (i + 1) * 0x1000) / 0x400000 <= (vaddr + i * 0x1000) / 0x400000 + 1,
{
    assert((vaddr + i * 0x1000) / 0x400000 <= (vaddr + (i + 1) * 0x1000) / 0x400000 <= (vaddr + i * 0x1000) / 0x400000 + 1) by (nonlinear_arith)
        requires 0 <= vaddr, 0 <= i;
}

/// The frame that the page of `v` is mapped onto, when the pages from
/// `vaddr` are mapped onto consecutive frames from `paddr`
pub open spec fn range_frame(paddr: u32, vaddr: u32, v: u32) -> int {
    ((paddr + (v - vaddr) / 0x1000 * 0x1000) as u32 & ENTRY_ADDRESS_MASK) as int
}

/// Map the `count` pages from `vaddr` onto as many consecutive frames from
/// `paddr`, taking frames for the tables that are missing
pub(crate) fn map_range(mem: &mut PhysicalMemory, dir: u32, vaddr: u32, paddr: u32, count: usize, flags: PermissionFlags)
    requires
        old(mem).wf(),
        is_directory(old(mem)@, dir),
        count >= 1,
        vaddr % 0x1000 == 0,
        vaddr + count * 0x1000 <= 0xffc00000,
        paddr + count * 0x1000 <= 0x1_0000_0000,
        old(mem).next_free() + 0x1000 * missing_tables(old(mem)@[dir], dir_index(vaddr), (vaddr + (count - 1) * 0x1000) / 0x400000)
            <= old(mem).limit(),
    ensures
        final(mem).wf(),
        final(mem).limit() == old(mem).limit(),
        final(mem).next_free() == old(mem).next_free() + 0x1000 * missing_tables(
            old(mem)@[dir],
            dir_index(vaddr),
            (vaddr + (count - 1) * 0x1000) / 0x400000,
        ),
        is_directory(final(mem)@, dir),
        forall|v: u32| vaddr <= v < vaddr + count * 0x1000 ==> #[trigger] translate(final(mem)@, dir, v) == Some(
            (range_frame(paddr, vaddr, v) + v % 0x1000) as u32,
        ),
        paddr % 0x1000 == 0 ==> forall|v: u32| vaddr <= v < vaddr + count * 0x1000 ==> #[trigger] translate(final(mem)@, dir, v) == Some(
            (paddr + (v - vaddr)) as u32,
        ),
        forall|v: u32|
            dir_index(v) < 1023 && !(vaddr <= v < vaddr + count * 0x1000) ==> #[trigger] translate(final(mem)@, dir, v)
                == translate(old(mem)@, dir, v),
{
    let ghost before = mem@;
    let ghost hi = (vaddr + (count - 1) * 0x1000) / 0x400000;
    let ghost total = old(mem).next_free() + 0x1000 * missing_tables(before[dir], dir_index(vaddr), hi);
    let mut i: usize = 0;
    while i < count
        invariant
            mem.wf(),
            mem.limit() == old(mem).limit(),
            total <= mem.limit(),
            is_directory(mem@, dir),
            i <= count,
            count >= 1,
            vaddr % 0x1000 == 0,
            vaddr + count * 0x1000 <= 0xffc00000,
            paddr + count * 0x1000 <= 0x1_0000_0000,
            hi == (vaddr + (count - 1) * 0x1000) / 0x400000,
            i < count ==> mem.next_free() + 0x1000 * missing_tables(mem@[dir], (vaddr + i * 0x1000) / 0x400000, hi) == total,
            i == count ==> mem.next_free() == total,
            forall|v: u32| vaddr <= v < vaddr + i * 0x1000 ==> #[trigger] translate(mem@, dir, v) == Some(
                (range_frame(paddr, vaddr, v) + v % 0x1000) as u32,
            ),
            forall|v: u32|
                dir_index(v) < 1023 && !(vaddr <= v < vaddr + i * 0x1000) ==> #[trigger] translate(mem@, dir, v)
                    == translate(before, dir, v),
        decreases count - i,
    {
        let ghost prev = *mem;
        let offset: u32 = (i as u32) * 0x1000;
        let page = vaddr + offset;
        let frame = paddr + offset;
        proof {
            lemma_page_arith(vaddr as int, i as int, vaddr as int);
            let di = dir_index(page);
            assert(di <= hi) by (nonlinear_arith)
                requires di == page as int / 0x400000, page <= vaddr + (count - 1) * 0x1000,
                    hi == (vaddr + (count - 1) * 0x1000) / 0x400000;
            assert(di < 1023) by (nonlinear_arith)
                requires di == page as int / 0x400000, page < 0xffc00000;
            assert(0 <= di);
            if !entry_present(prev@[dir][di]) {
                lemma_missing_at(prev@[dir], di, di, hi);
            }
        }
        map_in_directory(mem, dir, page, frame, flags);
        proof {
            let di = dir_index(page);
            let d0 = prev@[dir];
            let d1 = mem@[dir];
            lemma_missing_split(d0, di, hi);
            if entry_present(d0[di]) {
                assert(d1 == d0);
            } else {
                assert(d1 == d0.update(di, new_table_entry(d0[di], prev.next_free(), di)));
                lemma_new_table_entry(d0[di], prev.next_free(), di);
                lemma_missing_update(d0, di, new_table_entry(d0[di], prev.next_free(), di), di, hi);
            }
            lemma_missing_split(d1, di, hi);
            if i + 1 < count {
                lemma_next_dir(vaddr as int, i as int);
            } else {
                assert(di == hi);
            }
            assert forall|v: u32| vaddr <= v < vaddr + (i + 1) * 0x1000 implies #[trigger] translate(mem@, dir, v) == Some(
                (range_frame(paddr, vaddr, v) + v % 0x1000) as u32) by {
                lemma_page_arith(vaddr as int, i as int, v as int);
                if v >= vaddr + i * 0x1000 {
                    assert((v - vaddr) / 0x1000 == i) by (nonlinear_arith)
                        requires vaddr + i * 0x1000 <= v < vaddr + i * 0x1000 + 0x1000, vaddr % 0x1000 == 0, 0 <= i;
                    assert(page_number(v) == page_number(page));
                } else {
                    assert(page_number(v) != page_number(page));
                }
            }
            assert forall|v: u32| dir_index(v) < 1023 && !(vaddr <= v < vaddr + (i + 1) * 0x1000) implies #[trigger] translate(mem@, dir, v)
                == translate(before, dir, v) by {
                lemma_page_arith(vaddr as int, i as int, v as int);
                assert(page_number(v) != page_number(page));
            }
        }
        i = i + 1;
    }
    proof {
        assert forall|v: u32| paddr % 0x1000 == 0 && vaddr <= v < vaddr + count * 0x1000 implies (range_frame(paddr, vaddr, v) + v % 0x1000) as u32
            == (paddr + (v - vaddr)) as u32 by {
            let k = (v - vaddr) / 0x1000;
            assert(0 <= k < count && v % 0x1000 == (v - vaddr) - k * 0x1000 && (paddr + k * 0x1000) % 0x1000 == 0) by (nonlinear_arith)
                requires vaddr <= v < vaddr + count * 0x1000, vaddr % 0x1000 == 0, k == (v - vaddr) / 0x1000, paddr % 0x1000 == 0;
            lemma_aligned_address((paddr + k * 0x1000) as u32);
        }
    }
}

/// Whether a region holds an address
pub open spec fn in_region(r: MemMappedRegion, addr: u32) -> bool {
    r.address.0 <= addr < region_end(r)
}

/// The region of a task's memory map that holds an address, if any
pub open spec fn containing_region(s: Seq<MemMappedRegion>, addr: u32) -> Option<MemMappedRegion> {
    if exists|i: int| 0 <= i < s.len() && in_region(#[trigger] s[i], addr) {
        Some(s[choose|i: int| 0 <= i < s.len() && in_region(#[trigger] s[i], addr)])
    } else {
        None
    }
}

pub proof fn lemma_containing_region(s: Seq<MemMappedRegion>, addr: u32, i: int)
    requires
        regions_wf(s),
        0 <= i < s.len(),
        in_region(s[i], addr),
    ensures
        containing_region(s, addr) == Some(s[i]),
{
    let k = choose|k: int| 0 <= k < s.len() && in_region(#[trigger] s[k], addr);
    if k < i {
        assert(region_end(s[k]) <= s[i].address.0);
    } else if i < k {
        assert(region_end(s[i]) <= s[k].address.0);
    }
}

/// The number of pages a region touches
pub open spec fn region_pages(r: MemMappedRegion) -> int {
    (r.size + 0xfff) / 0x1000
}

/// One if the directory has no table for the address yet, zero otherwise
pub open spec fn table_missing(mem: Map<u32, Seq<u32>>, dir: u32, vaddr: u32) -> int {
    if entry_present(dir_entry(mem, dir, vaddr)) {
        0
    } else {
        1
    }
}

/// The byte offset in its file of the page that holds `addr`, in a
/// file-backed region
pub open spec fn file_page_offset(r: MemMappedRegion, addr: u32) -> int {
    match r.backed_by {
        MemoryBacking::FileBacked { offset_in_file, .. } => offset_in_file + round_down(addr as int) - r.address.0,
        _ => 0,
    }
}

/// The frame already holding the page of `addr`, when the region is a
/// shared file mapping whose page another task has loaded
pub open spec fn shared_page(files: Map<(u32, u32, u32), u32>, r: MemMappedRegion, addr: u32) -> Option<u32> {
    match r.backed_by {
        MemoryBacking::FileBacked { driver_id, mapping_token, shared, .. } => {
            let key = (driver_id.0, mapping_token.0, file_page_offset(r, addr) as u32);
            if shared && files.contains_key(key) {
                Some(files[key])
            } else {
                None
            }
        },
        _ => None,
    }
}

/// The number of frames that resolving a fault at `addr` in region `r` takes
pub open spec fn demand_frames(mem: Map<u32, Seq<u32>>, dir: u32, files: Map<(u32, u32, u32), u32>, r: MemMappedRegion, addr: u32) -> int {
    match r.backed_by {
        MemoryBacking::IsaDma => region_pages(r) + missing_tables(
            mem[dir],
            dir_index(r.address.0),
            (r.address.0 + (region_pages(r) - 1) * 0x1000) / 0x400000,
        ),
        MemoryBacking::FreeMemory => 1 + table_missing(mem, dir, addr),
        MemoryBacking::FileBacked { .. } => if shared_page(files, r, addr) is Some {
            table_missing(mem, dir, addr)
        } else {
            1
        },
        MemoryBacking::Direct(_) => 0,
    }
}

/// The faults that can be resolved: outside the memory map, or in a
/// page-aligned region that is not mapped directly to physical memory (its
/// pages are mapped when it is created), whose pages lie below the top 4 MiB,
/// whose file offsets fit in 32 bits, and for which enough free frames remain
pub open spec fn demand_ok(
    mem: &PhysicalMemory,
    dir: u32,
    files: Map<(u32, u32, u32), u32>,
    s: Seq<MemMappedRegion>,
    addr: u32,
) -> bool {
    match containing_region(s, addr) {
        None => true,
        Some(r) => {
            &&& !(r.backed_by is Direct)
            &&& r.address.0 % 0x1000 == 0
            &&& dir_index(addr) < 1023
            &&& r.backed_by is IsaDma ==> r.address.0 + region_pages(r) * 0x1000 <= 0xffc00000
            &&& file_page_offset(r, addr) <= u32::MAX
            &&& mem.next_free() + 0x1000 * demand_frames(mem@, dir, files, r, addr) <= mem.limit()
        },
    }
}

/// A page of a file mapping that must be read from its file before it is
/// mapped: where it comes from, the frame taken for it, and where it goes
#[derive(Copy, Clone, Debug, PartialEq, Eq, Structural)]
pub struct FilePageRead {
    pub driver_id: DriverID,
    pub mapping_token: DriverMappingToken,
    /// The byte offset of the page in the file
    pub offset_in_file: u32,
    pub shared: bool,
    pub frame: AllocatedFrame,
    /// The page the frame is mapped at once it is read
    pub page: VirtualAddress,
    pub flags: PermissionFlags,
    /// The offset of the faulting address in its page
    pub local_offset: u32,
}

/// How a fault on a page that is not mapped yet was resolved
#[derive(Copy, Clone, Debug, PartialEq, Eq, Structural)]
pub enum PageFault {
    /// The address is in none of the task's mappings
    NotMapped,
    /// The page is mapped now; the physical address of the faulting address
    Resolved(PhysicalAddress),
    /// A frame was taken for a page of a file, which must be read into it
    /// before `complete_file_page` maps it
    ReadFile(FilePageRead),
}

/// The counts after a reference is added to a frame that is counted
pub open spec fn added_reference(counts: Map<u32, u32>, frame: u32) -> Map<u32, u32> {
    if counts.contains_key(frame) && counts[frame] < u32::MAX {
        counts.insert(frame, (counts[frame] + 1) as u32)
    } else {
        counts
    }
}

/// What resolving a fault at `addr` does, by the region that holds it
pub open spec fn demanded(
    before: &PhysicalMemory,
    after: &PhysicalMemory,
    counts0: Map<u32, u32>,
    counts1: Map<u32, u32>,
    files: Map<(u32, u32, u32), u32>,
    dir: u32,
    s: Seq<MemMappedRegion>,
    addr: u32,
    r: PageFault,
) -> bool {
    match containing_region(s, addr) {
        None => {
            &&& r == PageFault::NotMapped
            &&& after@ == before@
            &&& after.next_free() == before.next_free()
            &&& counts1 == counts0
        },
        Some(region) => {
            let page = round_down(addr as int) as u32;
            let local = addr % 0x1000;
            let flags = region_flags(region.backed_by);
            let nf = before.next_free();
            &&& after.next_free() == nf + 0x1000 * demand_frames(before@, dir, files, region, addr)
            &&& match region.backed_by {
                MemoryBacking::IsaDma => {
                    let end = region.address.0 + region_pages(region) * 0x1000;
                    &&& r == PageFault::Resolved(PhysicalAddress((nf + (addr - region.address.0)) as u32))
                    &&& counts1 == counts0
                    &&& forall|v: u32| region.address.0 <= v < end ==> #[trigger] translate(after@, dir, v) == Some(
                        (nf + (v - region.address.0)) as u32,
                    )
                    &&& forall|v: u32| dir_index(v) < 1023 && !(region.address.0 <= v < end)
                        ==> #[trigger] translate(after@, dir, v) == translate(before@, dir, v)
                },
                MemoryBacking::FreeMemory => {
                    &&& r == PageFault::Resolved(PhysicalAddress((nf + local) as u32))
                    &&& counts1 == counts0.insert(nf, 1)
                    &&& mapped_in(before@, after@, dir, page, nf, flags, (nf + 0x1000) as u32)
                    &&& page_maps_to(after@, dir, addr, nf)
                    &&& same_elsewhere(before@, after@, dir, addr)
                },
                MemoryBacking::FileBacked { driver_id, mapping_token, shared, .. } => match shared_page(files, region, addr) {
                    Some(p) => {
                        &&& r == PageFault::Resolved(PhysicalAddress(((p & ENTRY_ADDRESS_MASK) + local) as u32))
                        &&& counts1 == added_reference(counts0, p)
                        &&& mapped_in(before@, after@, dir, page, p, flags, nf)
                        &&& page_maps_to(after@, dir, addr, p)
                        &&& same_elsewhere(before@, after@, dir, addr)
                    },
                    None => {
                        &&& r == PageFault::ReadFile(
                            FilePageRead {
                                driver_id,
                                mapping_token,
                                offset_in_file: file_page_offset(region, addr) as u32,
                                shared,
                                frame: AllocatedFrame(PhysicalAddress(nf)),
                                page: VirtualAddress(page),
                                flags: PermissionFlags(flags),
                                local_offset: local,
                            },
                        )
                        &&& counts1 == counts0.insert(nf, 1)
                        &&& after@ == before@
                    },
                },
                MemoryBacking::Direct(_) => false,
            }
        },
    }
}

proof fn lemma_page_in_region(ra: u32, addr: u32)
    requires
        ra % 0x1000 == 0,
        ra <= addr,
    ensures
        ra <= round_down(addr as int),
        round_down(addr as int) - ra + addr % 0x1000 == addr - ra,
        round_down(addr as int) % 0x1000 == 0,
        page_number(round_down(addr as int) as u32) == page_number(addr),
{
    assert(ra <= addr - addr % 0x1000) by (nonlinear_arith)
        requires ra % 0x1000 == 0, ra <= addr;
    assert((addr - addr % 0x1000) % 0x1000 == 0 && (addr - addr % 0x1000) / 0x1000 == addr / 0x1000) by (nonlinear_arith);
}

/// Assuming a virtual address is not backed by a frame yet, find the region
/// of the task's memory map that holds it, and fill in its page: free memory
/// gets a fresh frame, a DMA region gets consecutive frames for all of its
/// pages at once, and a page of a shared file that another task has loaded
/// reuses that task's frame. Any other page of a file takes a frame that the
/// file must be read into first.
pub fn page_on_demand(
    mem: &mut PhysicalMemory,
    current: PhysicalAddress,
    frames: &mut FrameTracker,
    files: &FilePageTracker,
    mapping: &TaskMemory,
    address: VirtualAddress,
) -> (r: PageFault)
    requires
        old(mem).wf(),
        is_directory(old(mem)@, current.0),
        mapping.wf(),
        demand_ok(old(mem), current.0, files@, mapping@, address.0),
    ensures
        final(mem).wf(),
        final(mem).limit() == old(mem).limit(),
        is_directory(final(mem)@, current.0),
        demanded(old(mem), final(mem), old(frames)@, final(frames)@, files@, current.0, mapping@, address.0, r),
{
    let ghost before = *mem;
    let dir = current.0;
    let region = match mapping.get_mapping_containing_address(&address) {
        Some(region) => *region,
        None => {
            proof {
                if exists|i: int| 0 <= i < mapping@.len() && in_region(#[trigger] mapping@[i], address.0) {
                    let i = choose|i: int| 0 <= i < mapping@.len() && in_region(#[trigger] mapping@[i], address.0);
                    assert(!(mapping@[i].address.0 <= address.0 < region_end(mapping@[i])));
                }
            }
            return PageFault::NotMapped;
        },
    };
    proof {
        let i = choose|i: int| 0 <= i < mapping@.len() && mapping@[i] == region && region.address.0 <= address.0 < region_end(region);
        lemma_containing_region(mapping@, address.0, i);
        lemma_page_in_region(region.address.0, address.0);
    }
    let page = address.prev_page_barrier();
    let page_offset = page.0 - region.address.0;
    let a = address.0;
    let local_offset = a & 0xfff;
    assert(local_offset == a % 0x1000) by (bit_vector)
        requires local_offset == a & 0xfff;
    let flags = get_flags_for_region(&region);
    match region.backed_by {
        MemoryBacking::IsaDma => {
            let page_count = region.page_count();
            let start = mem.allocate_frames(page_count).unwrap().to_physical_address().0;
            proof {
                assert(region.size > 0);
                assert(page_count >= 1);
                assert(page_count * 0x1000 >= region.size) by (nonlinear_arith)
                    requires page_count == (region.size + 0xfff) / 0x1000;
            }
            map_range(mem, dir, region.address.0, start, page_count, flags);
            PageFault::Resolved(PhysicalAddress::new(start + page_offset + local_offset))
        },
        MemoryBacking::Direct(_) => {
            PageFault::NotMapped
        },
        MemoryBacking::FreeMemory => {
            let frame = mem.allocate_frame().unwrap();
            frames.track(frame.to_physical_address());
            proof {
                lemma_aligned_address(frame.0.0);
            }
            let paddr = current_pagedir_map(mem, current, frame, page, flags);
            proof {
                assert forall|v: u32| page_number(v) == page_number(address.0) implies #[trigger] translate(mem@, dir, v) == Some(
                    ((paddr.0 & ENTRY_ADDRESS_MASK) + v % 0x1000) as u32) by {
                    assert(page_number(v) == page_number(page.0));
                }
                assert forall|v: u32| dir_index(v) < 1023 && page_number(v) != page_number(address.0)
                    implies #[trigger] translate(mem@, dir, v) == translate(before@, dir, v) by {
                    assert(page_number(v) != page_number(page.0));
                }
            }
            PageFault::Resolved(PhysicalAddress::new(paddr.0 + local_offset))
        },
        MemoryBacking::FileBacked { driver_id, mapping_token, offset_in_file, shared } => {
            let total_offset = offset_in_file + page_offset;
            if shared {
                if let Some(paddr) = get_file_backed_page(files, driver_id, mapping_token, total_offset) {
                    frames.maybe_add_frame_reference(paddr);
                    current_pagedir_map(mem, current, AllocatedFrame::new(paddr), page, flags);
                    proof {
                        assert forall|v: u32| page_number(v) == page_number(address.0) implies #[trigger] translate(mem@, dir, v) == Some(
                            ((paddr.0 & ENTRY_ADDRESS_MASK) + v % 0x1000) as u32) by {
                            assert(page_number(v) == page_number(page.0));
                        }
                        assert forall|v: u32| dir_index(v) < 1023 && page_number(v) != page_number(address.0)
                            implies #[trigger] translate(mem@, dir, v) == translate(before@, dir, v) by {
                            assert(page_number(v) != page_number(page.0));
                        }
                    }
                    let p = paddr.0;
                    let base = p & ENTRY_ADDRESS_MASK;
                    assert(base + local_offset <= u32::MAX) by (bit_vector)
                        requires base == p & 0xfffff000, local_offset == a & 0xfff;
                    return PageFault::Resolved(PhysicalAddress::new(base + local_offset));
                }
            }
            let frame = mem.allocate_frame().unwrap();
            frames.track(frame.to_physical_address());
            PageFault::ReadFile(FilePageRead {
                driver_id,
                mapping_token,
                offset_in_file: total_offset,
                shared,
                frame,
                page,
                flags,
                local_offset,
            })
        },
    }
}

/// Finish a fault on a page of a file once its contents were read into the
/// frame taken for it, or could not be. A page that was read is mapped, and
/// when its mapping is shared its frame is recorded so that other tasks
/// mapping the same page reuse it; a page that could not be read gives its
/// frame back.
pub fn complete_file_page(
    mem: &mut PhysicalMemory,
    current: PhysicalAddress,
    frames: &mut FrameTracker,
    files: &mut FilePageTracker,
    read: FilePageRead,
    loaded: bool,
) -> (r: Option<PhysicalAddress>)
    requires
        old(mem).wf(),
        is_directory(old(mem)@, current.0),
        dir_index(read.page.0) < 1023,
        read.frame.0.0 % 0x1000 == 0,
        read.local_offset < 0x1000,
        loaded ==> can_map(old(mem), current.0, read.page.0),
    ensures
        final(mem).wf(),
        final(mem).limit() == old(mem).limit(),
        is_directory(final(mem)@, current.0),
        loaded ==> {
            &&& r == Some(PhysicalAddress((read.frame.0.0 + read.local_offset) as u32))
            &&& map_done(old(mem), final(mem), current.0, read.page.0, read.frame.0.0, read.flags.0)
            &&& final(frames)@ == old(frames)@
            &&& final(files)@ == if read.shared {
                old(files)@.insert(page_key(read.driver_id, read.mapping_token, read.offset_in_file), read.frame.0.0)
            } else {
                old(files)@
            }
        },
        !loaded ==> {
            &&& r is None
            &&& final(mem)@ == old(mem)@
            &&& final(mem).next_free() == old(mem).next_free()
            &&& final(frames)@ == released_counts(old(frames)@, read.frame.0.0)
            &&& final(files)@ == old(files)@
        },
{
    if !loaded {
        frames.release_tracked_frame(read.frame.to_physical_address());
        return None;
    }
    if read.shared {
        track_file_backed_page(files, read.driver_id, read.mapping_token, read.offset_in_file, read.frame.to_physical_address());
    }
    let paddr = current_pagedir_map(mem, current, read.frame, read.page, read.flags);
    let p = paddr.0;
    let l = read.local_offset;
    assert(p + l <= u32::MAX) by (bit_vector)
        requires p % 0x1000 == 0, l < 0x1000;
    Some(PhysicalAddress::new(p + l))
}

/// Get the physical address backing a virtual address in the current
/// directory. If the address is in a mapping whose page has not been filled
/// in yet, the page is filled in as `page_on_demand` does.
pub fn get_current_physical_address(
    mem: &mut PhysicalMemory,
    current: PhysicalAddress,
    frames: &mut FrameTracker,
    files: &FilePageTracker,
    mapping: &TaskMemory,
    vaddr: VirtualAddress,
) -> (r: PageFault)
    requires
        old(mem).wf(),
        is_directory(old(mem)@, current.0),
        mapping.wf(),
        translate(old(mem)@, current.0, vaddr.0) is None ==> demand_ok(old(mem), current.0, files@, mapping@, vaddr.0),
    ensures
        final(mem).wf(),
        final(mem).limit() == old(mem).limit(),
        is_directory(final(mem)@, current.0),
        match translate(old(mem)@, current.0, vaddr.0) {
            Some(p) => {
                &&& r == PageFault::Resolved(PhysicalAddress(p))
                &&& final(mem)@ == old(mem)@
                &&& final(mem).next_free() == old(mem).next_free()
                &&& final(frames)@ == old(frames)@
            },
            None => demanded(old(mem), final(mem), old(frames)@, final(frames)@, files@, current.0, mapping@, vaddr.0, r),
        },
{
    if let Some(paddr) = maybe_get_current_physical_address(mem, current, vaddr) {
        return PageFault::Resolved(paddr);
    }
    page_on_demand(mem, current, frames, files, mapping, vaddr)
}

} // verus!
