//! Kernel stacks. Each task has a one-page kernel stack; stacks are laid out
//! downwards from the top of the kernel stack area, and a bitmap records which
//! slots are in use so they can be recycled.
use vstd::prelude::*;
use crate::address::PhysicalAddress;
use crate::paging::{PhysicalMemory, PermissionFlags, is_directory, dir_index, dir_entry, entry_present, mapped_in, page_maps_to, same_elsewhere, current_pagedir_map};

verus! {

pub const STACK_SIZE_IN_PAGES: usize = 1;
pub const STACK_SIZE_IN_BYTES: usize = 0x1000;

/// The memory of a kernel stack: its bytes, and the virtual address of the
/// lowest one
pub struct KernelStack {
    pub base: usize,
    pub bytes: Vec<u8>,
}

/// Whether bit `k` of a bitmap byte is set
pub open spec fn bit_of(b: u8, k: u8) -> bool {
    (b >> k) & 1u8 == 1u8
}

/// Whether the stack slot with this index is marked as in use
pub open spec fn slot_in_use(bitmap: Seq<u8>, i: int) -> bool {
    0 <= i < bitmap.len() * 8 && bit_of(bitmap[i / 8], (i % 8) as u8)
}

/// The lowest stack slot that is not in use: either a clear bit of the
/// bitmap, or the first slot past its end
pub open spec fn is_lowest_free_slot(bitmap: Seq<u8>, r: int) -> bool {
    &&& 0 <= r <= bitmap.len() * 8
    &&& !slot_in_use(bitmap, r)
    &&& forall|j: int| 0 <= j < r ==> #[trigger] slot_in_use(bitmap, j)
}

proof fn lemma_full_byte(b: u8, k: u8)
    requires
        b == 0xffu8,
        k < 8,
    ensures
        bit_of(b, k),
{
    assert((b >> k) & 1u8 == 1u8) by (bit_vector)
        requires
            b == 0xffu8,
            k < 8u8,
    ;
}

proof fn lemma_set_bit(b: u8, k: u8, j: u8)
    requires
        k < 8,
        j < 8,
    ensures
        bit_of(b | (1u8 << k), j) == (j == k || bit_of(b, j)),
{
    assert((((b | (1u8 << k)) >> j) & 1u8 == 1u8) == (j == k || (b >> j) & 1u8 == 1u8)) by (bit_vector)
        requires
            k < 8u8,
            j < 8u8,
    ;
}

/// Stack slot `index` occupies the page `index + 1` pages below the top.
pub open spec fn stack_base(stacks_top: int, index: int) -> int {
    stacks_top - (index + 1) * STACK_SIZE_IN_BYTES
}

/// Stacks are laid out downwards from the top, one page each: slot 0 ends at the top, each
/// slot ends where the one before it starts, and the stacks of two slots never overlap.
pub proof fn law_stack_layout(top: int, i: int, j: int)
    requires
        0 <= i < j,
    ensures
        stack_base(top, 0) + STACK_SIZE_IN_BYTES == top,
        stack_base(top, i + 1) + STACK_SIZE_IN_BYTES == stack_base(top, i),
        stack_base(top, j) + STACK_SIZE_IN_BYTES <= stack_base(top, i),
        stack_base(top, i) + STACK_SIZE_IN_BYTES <= top,
{
}

/// Records which kernel stacks have been allocated
pub struct StackAllocator {
    stacks_top: usize,
    bitmap: Vec<u8>,
}

impl StackAllocator {
    pub closed spec fn top(&self) -> usize {
        self.stacks_top
    }

    /// The bitmap of stack slots in use, eight to a byte, lowest bit first
    pub closed spec fn bitmap(&self) -> Seq<u8> {
        self.bitmap@
    }

    /// An allocator with no stacks in use, for stacks laid out below
    /// `stacks_top`
    pub fn new(stacks_top: usize) -> (r: Self)
        ensures
            r.top() == stacks_top,
            r.bitmap() == Seq::<u8>::empty(),
    {
        StackAllocator { stacks_top, bitmap: Vec::new() }
    }

    /// The stack memory for a slot index
    fn stack_box_from_index(&self, index: usize) -> (r: KernelStack)
        requires
            (index + 1) * STACK_SIZE_IN_BYTES <= self.top(),
        ensures
            r.base == stack_base(self.top() as int, index as int),
            r.bytes@.len() == STACK_SIZE_IN_BYTES,
    {
        let stack_bottom = self.stacks_top - ((index + 1) * STACK_SIZE_IN_BYTES);
        let bytes = vec![0u8; STACK_SIZE_IN_BYTES];
        KernelStack { base: stack_bottom, bytes }
    }

    /// Starting from the lowest index, find an unallocated kernel stack slot
    /// and mark it as in use
    fn find_free_stack(&mut self) -> (r: usize)
        requires
            (old(self).bitmap().len() + 1) * 8 <= usize::MAX,
        ensures
            is_lowest_free_slot(old(self).bitmap(), r as int),
            forall|j: int| #[trigger] slot_in_use(final(self).bitmap(), j) == (slot_in_use(old(self).bitmap(), j) || j == r),
            final(self).top() == old(self).top(),
            final(self).bitmap().len() == old(self).bitmap().len() + (if r == old(self).bitmap().len() * 8 { 1int } else { 0int }),
    {
        let ghost old_map = self.bitmap@;
        let mut index: usize = 0;
        while index < self.bitmap.len()
            invariant
                self.bitmap@ == old_map,
                self.stacks_top == old(self).stacks_top,
                old_map == old(self).bitmap@,
                index <= old_map.len(),
                (old_map.len() + 1) * 8 <= usize::MAX,
                forall|j: int| 0 <= j < index * 8 ==> #[trigger] slot_in_use(old_map, j),
            decreases old_map.len() - index,
        {
            let map = self.bitmap[index];
            if map != 0xff {
                let mut stack_index: usize = index * 8;
                let mut inverse: u8 = !map;
                let mut mask: u8 = 1;
                let mut k: u8 = 0;
                assert(inverse == (!map) >> 0u8 && low_bits_full(map, 0u8) && mask == 1u8 << 0u8)
                    by (bit_vector)
                    requires
                        inverse == !map,
                        mask == 1u8,
                ;
                while inverse != 0
                    invariant
                        self.bitmap@ == old_map,
                        self.stacks_top == old(self).stacks_top,
                        old_map == old(self).bitmap@,
                        index < old_map.len(),
                        map == old_map[index as int],
                        map != 0xffu8,
                        k <= 8,
                        stack_index == index * 8 + k,
                        inverse == (!map) >> k,
                        k < 8 ==> mask == 1u8 << k,
                        low_bits_full(map, k),
                        (old_map.len() + 1) * 8 <= usize::MAX,
                        forall|j: int| 0 <= j < index * 8 ==> #[trigger] slot_in_use(old_map, j),
                    decreases 8 - k,
                {
                    assert(k < 8) by {
                        if k >= 8 {
                            assert(((!map) >> k) == 0u8) by (bit_vector)
                                requires k >= 8u8;
                        }
                    }
                    assert((inverse & 1u8 != 0u8) == !bit_of(map, k)) by (bit_vector)
                        requires inverse == (!map) >> k, k < 8u8;
                    if inverse & 1 != 0 {
                        let new_map = map | mask;
                        self.bitmap.set(index, new_map);
                        proof {
                            assert forall|j: int| 0 <= j < index * 8 + k implies #[trigger] slot_in_use(old_map, j) by {
                                if j >= index * 8 {
                                    let jj = (j - index * 8) as u8;
                                    assert(j / 8 == index && j % 8 == jj);
                                    let kk = k as u32;
                                    let jw = jj as u32;
                                    assert(((map >> jj) & 1u8) == 1u8) by (bit_vector)
                                        requires low_bits_full(map, k), jj < k, k < 8u8;
                                }
                            }
                            assert forall|j: int| #[trigger] slot_in_use(self.bitmap@, j) == (slot_in_use(old_map, j) || j == index * 8 + k) by {
                                if 0 <= j < old_map.len() * 8 {
                                    if j / 8 == index {
                                        lemma_set_bit(map, k, (j % 8) as u8);
                                    } else {
                                        assert(self.bitmap@[j / 8] == old_map[j / 8]);
                                    }
                                }
                            }
                        }
                        return stack_index;
                    }
                    let ghost kk = k;
                    assert(((!map) >> (kk + 1u8)) == (((!map) >> kk) >> 1u8)) by (bit_vector)
                        requires kk < 8u8;
                    assert(low_bits_full(map, (kk + 1u8) as u8)) by (bit_vector)
                        requires
                            low_bits_full(map, kk),
                            ((!map) >> kk) & 1u8 == 0u8,
                            kk < 8u8;
                    assert(kk + 1 < 8 ==> (mask << 1u8) == (1u8 << (kk + 1u8))) by (bit_vector)
                        requires mask == 1u8 << kk, kk < 8u8;
                    inverse >>= 1;
                    mask <<= 1;
                    stack_index += 1;
                    k += 1;
                }
                assert(map == 0xffu8) by (bit_vector)
                    requires
                        (!map) >> k == 0u8,
                        low_bits_full(map, k),
                        k <= 8u8;
            }
            proof {
                assert forall|j: int| 0 <= j < (index + 1) * 8 implies #[trigger] slot_in_use(old_map, j) by {
                    if j >= index * 8 {
                        assert(j / 8 == index);
                        lemma_full_byte(map, (j % 8) as u8);
                    }
                }
            }
            index = index + 1;
        }
        let stack_index = self.bitmap.len() * 8;
        self.bitmap.push(1);
        proof {
            assert forall|j: int| #[trigger] slot_in_use(self.bitmap@, j) == (slot_in_use(old_map, j) || j == stack_index) by {
                if 0 <= j < self.bitmap@.len() * 8 {
                    if j / 8 == old_map.len() {
                        let jj = (j % 8) as u8;
                        assert(((1u8 >> jj) & 1u8 == 1u8) == (jj == 0u8)) by (bit_vector)
                            requires jj < 8u8;
                    } else {
                        assert(self.bitmap@[j / 8] == old_map[j / 8]);
                    }
                }
            }
        }
        stack_index
    }

    /// Reserve the first stack slot for the stack that the kernel starts on
    pub fn create_initial_stack(&mut self) -> (r: KernelStack)
        requires
            STACK_SIZE_IN_BYTES <= old(self).top(),
        ensures
            final(self).bitmap() == old(self).bitmap().push(1),
            final(self).top() == old(self).top(),
            r.base == stack_base(old(self).top() as int, 0),
            r.bytes@.len() == STACK_SIZE_IN_BYTES,
    {
        self.bitmap.push(1);
        self.stack_box_from_index(0)
    }

    /// Whether the lowest free slot can hold a stack below the top of the
    /// stack area, and the directory already has the table for its page, so
    /// that a fresh frame can be mapped there
    pub open spec fn can_allocate(&self, mem: &PhysicalMemory, dir: u32) -> bool {
        &&& (self.bitmap().len() + 1) * 8 <= usize::MAX
        &&& self.top() <= 0x1_0000_0000
        &&& mem.next_free() + 0x1000 <= mem.limit()
        &&& forall|i: int| is_lowest_free_slot(self.bitmap(), i) ==> {
            &&& (i + 1) * STACK_SIZE_IN_BYTES <= self.top()
            &&& dir_index(stack_base(self.top() as int, i) as u32) < 1023
            &&& entry_present(dir_entry(mem@, dir, stack_base(self.top() as int, i) as u32))
        }
    }

    /// Take the lowest free stack slot, and back its page with a fresh frame
    /// in the current directory
    pub fn allocate_stack(&mut self, mem: &mut PhysicalMemory, current: PhysicalAddress) -> (r: KernelStack)
        requires
            old(mem).wf(),
            is_directory(old(mem)@, current.0),
            old(self).can_allocate(old(mem), current.0),
        ensures
            exists|i: int| #![trigger is_lowest_free_slot(old(self).bitmap(), i)] {
                &&& is_lowest_free_slot(old(self).bitmap(), i)
                &&& r.base == stack_base(old(self).top() as int, i)
                &&& forall|j: int| #[trigger] slot_in_use(final(self).bitmap(), j) == (slot_in_use(old(self).bitmap(), j) || j == i)
            },
            r.bytes@.len() == STACK_SIZE_IN_BYTES,
            final(self).top() == old(self).top(),
            final(mem).next_free() == old(mem).next_free() + 0x1000,
            final(mem).wf(),
            final(mem).limit() == old(mem).limit(),
            mapped_in(old(mem)@, final(mem)@, current.0, r.base as u32, old(mem).next_free(), 0, old(mem).next_free()),
            is_directory(final(mem)@, current.0),
            page_maps_to(final(mem)@, current.0, r.base as u32, old(mem).next_free()),
            same_elsewhere(old(mem)@, final(mem)@, current.0, r.base as u32),
    {
        let index = self.find_free_stack();
        let stack = self.stack_box_from_index(index);
        let frame = mem.allocate_frame().unwrap();
        let ghost mid = *mem;
        current_pagedir_map(mem, current, frame, crate::address::VirtualAddress::new(stack.base as u32), PermissionFlags::empty());
        proof {
            assert(mid@ == old(mem)@);
        }
        stack
    }

    /// Release a kernel stack. Slots are not yet recycled: the bitmap is left
    /// as it is.
    pub fn free_stack(&mut self, stack: KernelStack)
        ensures
            final(self).bitmap() == old(self).bitmap(),
            final(self).top() == old(self).top(),
    {
    }
}

/// The lowest `k` bits of a byte are all set
pub open spec fn low_bits_full(b: u8, k: u8) -> bool {
    (b as u32) & (((1u32 << (k as u32)) - 1u32) as u32) == (((1u32 << (k as u32)) - 1u32) as u32)
}

} // verus!
