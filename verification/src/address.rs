//! Virtual and physical addresses on a 32-bit machine with 4 KiB pages.
use vstd::prelude::*;

verus! {

/// Page size, in bytes
pub const PAGE_SIZE: u32 = 0x1000;

/// The start of the page that contains `x`
pub open spec fn round_down(x: int) -> int {
    x - x % 0x1000
}

/// The first page boundary at or above `x`
pub open spec fn round_up(x: int) -> int {
    if x % 0x1000 == 0 {
        x
    } else {
        x - x % 0x1000 + 0x1000
    }
}

/// Round an address down to the start of its page
pub fn page_floor(x: u32) -> (r: u32)
    ensures
        r == round_down(x as int),
{
    assert(x & 0xfffff000 == x - x % 4096) by (bit_vector);
    x & 0xfffff000
}

/// Round an address up to the next page boundary
pub fn page_ceil(x: u32) -> (r: u32)
    requires
        x <= 0xfffff000,
    ensures
        r == round_up(x as int),
{
    assert(x & 0xfff == x % 4096 && x & 0xfffff000 == x - x % 4096) by (bit_vector);
    if x & 0xfff == 0 {
        x
    } else {
        (x & 0xfffff000) + 0x1000
    }
}

#[derive(Copy, Clone, Debug, PartialEq, Eq, Structural, PartialOrd, Ord, Hash)]
pub struct VirtualAddress(pub u32);

#[derive(Copy, Clone, Debug, PartialEq, Eq, Structural, PartialOrd, Ord, Hash)]
pub struct PhysicalAddress(pub u32);

impl VirtualAddress {
    pub fn new(addr: u32) -> (r: Self)
        ensures
            r.0 == addr,
    {
        VirtualAddress(addr)
    }

    pub fn as_u32(&self) -> (r: u32)
        ensures
            r == self.0,
    {
        self.0
    }

    pub fn is_page_aligned(&self) -> (r: bool)
        ensures
            r == (self.0 % 0x1000 == 0),
    {
        let x = self.0;
        assert(x & 0xfff == x % 4096) by (bit_vector);
        x & 0xfff == 0
    }

    pub fn prev_page_barrier(&self) -> (r: Self)
        ensures
            r.0 == round_down(self.0 as int),
    {
        VirtualAddress(page_floor(self.0))
    }

    pub fn next_page_barrier(&self) -> (r: Self)
        requires
            self.0 <= 0xfffff000,
        ensures
            r.0 == round_up(self.0 as int),
    {
        VirtualAddress(page_ceil(self.0))
    }

    /// Index of the page directory entry that covers this address
    pub fn get_page_directory_index(&self) -> (r: usize)
        ensures
            r == self.0 / 0x400000,
            r < 1024,
    {
        let x = self.0;
        assert(x >> 22 == x / 0x400000 && x >> 22 < 1024) by (bit_vector);
        (x >> 22) as usize
    }

    /// Index of the page table entry that covers this address
    pub fn get_page_table_index(&self) -> (r: usize)
        ensures
            r == (self.0 / 0x1000) % 1024,
            r < 1024,
    {
        let x = self.0;
        assert((x >> 12) & 0x3ff == (x / 4096) % 1024) by (bit_vector);
        ((x >> 12) & 0x3ff) as usize
    }
}

impl PhysicalAddress {
    pub fn new(addr: u32) -> (r: Self)
        ensures
            r.0 == addr,
    {
        PhysicalAddress(addr)
    }

    pub fn as_u32(&self) -> (r: u32)
        ensures
            r == self.0,
    {
        self.0
    }
}

/// Rounding to pages: rounding down gives the page boundary at or below the address, less
/// than a page away; rounding up gives the boundary at or above it, less than a page away, and
/// leaves an address that is already on a boundary where it is.
pub proof fn law_page_rounding(x: int)
    requires
        0 <= x,
    ensures
        round_down(x) % 0x1000 == 0,
        round_down(x) <= x < round_down(x) + 0x1000,
        round_up(x) % 0x1000 == 0,
        x <= round_up(x) < x + 0x1000,
        round_up(x) == x <==> x % 0x1000 == 0,
        round_down(x) == x <==> x % 0x1000 == 0,
{
    assert((x - x % 0x1000) % 0x1000 == 0) by {
        vstd::arithmetic::div_mod::lemma_fundamental_div_mod(x, 0x1000);
        vstd::arithmetic::div_mod::lemma_mod_multiples_basic(x / 0x1000, 0x1000);
    }
    assert((x - x % 0x1000 + 0x1000) % 0x1000 == 0) by {
        vstd::arithmetic::div_mod::lemma_fundamental_div_mod(x, 0x1000);
        vstd::arithmetic::div_mod::lemma_mod_multiples_basic(x / 0x1000 + 1, 0x1000);
        vstd::arithmetic::mul::lemma_mul_is_distributive_add(0x1000, x / 0x1000, 1);
    }
}

/// An address is its page directory index, its page table index and its offset in the page,
/// put together: directory entries cover 4 MiB each, table entries 4 KiB.
pub proof fn law_address_split(x: u32)
    ensures
        x as int == (x / 0x400000) * 0x400000 + ((x / 0x1000) % 1024) * 0x1000 + x % 0x1000,
{
    assert(x as int == (x / 0x400000) * 0x400000 + ((x / 0x1000) % 1024) * 0x1000 + x % 0x1000) by (nonlinear_arith);
}

} // verus!
