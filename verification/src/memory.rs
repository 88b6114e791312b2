//! The memory map of a task: which ranges of virtual memory are mapped, and
//! what backs them. The map does not touch page tables; it tells the kernel
//! how to fill in a page when a fault occurs in a mapped range.
use vstd::prelude::*;
use core::ops::Range;
use crate::address::{VirtualAddress, PhysicalAddress, round_up, round_down, page_ceil, page_floor};
use crate::files::{DriverID, DriverMappingToken};

verus! {

/// The backing type of a mem-mapped region determines how it behaves when a
/// page fault occurs.
#[derive(Copy, Clone, Debug, PartialEq, Eq, Structural)]
pub enum MemoryBacking {
    /// Points directly at a same-sized region of physical memory
    Direct(PhysicalAddress),
    /// Arbitrary physical memory, allocated on demand
    FreeMemory,
    /// Contiguous physical memory within the first 16 MiB
    IsaDma,
    /// Backed by a file, read in as pages are touched
    FileBacked {
        driver_id: DriverID,
        mapping_token: DriverMappingToken,
        offset_in_file: u32,
        shared: bool,
    },
}

/// A section of memory that has been mapped to a Task.
#[derive(Copy, Clone, Debug, PartialEq, Eq, Structural)]
pub struct MemMappedRegion {
    /// The starting virtual address of the mapped region
    pub address: VirtualAddress,
    /// The size of the mapped region, in bytes; not necessarily a multiple of
    /// the page size
    pub size: u32,
    pub backed_by: MemoryBacking,
}

#[derive(Copy, Clone, Debug, PartialEq, Eq, Structural)]
pub enum UnmappedRegionKind {
    Direct(PhysicalAddress),
    FreeMemory,
    FileBacked {
        driver_id: DriverID,
        mapping_token: DriverMappingToken,
        offset_in_file: u32,
        shared: bool,
    },
}

/// A section that was removed from a memory map, and whose pages can now be
/// cleaned up.
#[derive(Copy, Clone, Debug, PartialEq, Eq, Structural)]
pub struct UnmappedRegion {
    pub address: VirtualAddress,
    pub size: u32,
    pub kind: UnmappedRegionKind,
}

#[derive(Copy, Clone, Debug, PartialEq, Eq, Structural)]
pub enum MemMapError {
    /// Invalid size for memory mapping (must be > 0)
    InvalidSize,
    /// Attempted to map a region of memory beyond the highest possible location
    MapOutOfBounds,
    /// Attempted to map a region of memory that is not page-aligned
    MappingWrongAlignment,
    /// Not enough free virtual memory to satisfy the mapping request
    NotEnoughMemory,
    /// Unmap requests must be a multiple of the page size
    UnmapNotPageMultiple,
    /// Attempted to map memory for a task that does not exist
    NoTask,
    /// Attempted to remap a region that was not mapped
    NotMapped,
    /// Some error occurred while mapping memory for a task
    MappingFailed,
    /// The driver or file behind a file-backed mapping could not be found
    FileUnavailable,
    /// An error occurred in the backing driver while mapping memory
    DriverError,
    /// An error occurred in the kernel while managing memory
    KernelError,
}

/// One past the last byte of a region
pub open spec fn region_end(r: MemMappedRegion) -> int {
    r.address.0 + r.size
}

/// A list of regions is well formed when every region is non-empty, fits in
/// the address space, and the regions are sorted by address without
/// overlapping.
pub open spec fn regions_wf(s: Seq<MemMappedRegion>) -> bool {
    &&& forall|i: int| 0 <= i < s.len() ==> #[trigger] s[i].size > 0 && region_end(s[i]) <= u32::MAX
    &&& forall|i: int, j: int| 0 <= i < j < s.len() ==> region_end(#[trigger] s[i]) <= (#[trigger] s[j]).address.0
}

/// The index of the first region from `i` that contains `addr`, or the count of regions.
pub open spec fn first_containing(s: Seq<MemMappedRegion>, addr: int, i: int) -> int
    decreases s.len() - i,
{
    if i < 0 || i >= s.len() {
        s.len() as int
    } else if s[i].address.0 <= addr < region_end(s[i]) {
        i
    } else {
        first_containing(s, addr, i + 1)
    }
}

/// Whether `[start, end)` shares at least one byte with a region
pub open spec fn touches(r: MemMappedRegion, start: int, end: int) -> bool {
    r.address.0 < end && start < region_end(r) && start < end
}

/// Whether a range is free of every region in the list
pub open spec fn range_free(s: Seq<MemMappedRegion>, start: int, end: int) -> bool {
    forall|i: int| 0 <= i < s.len() ==> !touches(#[trigger] s[i], start, end)
}


/// Every region can have its end rounded up to a page boundary without
/// leaving the address space.
pub open spec fn ends_roundable(s: Seq<MemMappedRegion>) -> bool {
    forall|i: int| 0 <= i < s.len() ==> region_end(#[trigger] s[i]) <= 0xfffff000
}

/// Searching from the top of the address space downwards, the placement for
/// `size` bytes: the highest page-aligned address in the first gap (below
/// `top`) that is large enough, or below the lowest region when that fits, or
/// none. Nothing is placed above `top`.
pub open spec fn free_space_below(s: Seq<MemMappedRegion>, top: int, size: int) -> Option<int>
    decreases s.len(),
{
    if s.len() == 0 {
        if size <= top {
            Some(round_down(top - size))
        } else {
            None
        }
    } else {
        let r = s.last();
        let rend = round_up(region_end(r));
        if region_end(r) <= 0xfffff000 && rend <= top && top - rend >= size {
            Some(round_down(top - size))
        } else {
            free_space_below(s.drop_last(), min_int(top, r.address.0 as int), size)
        }
    }
}

/// Where a request near `hint` lands inside the gap `[gap_start, gap_end)`:
/// at the hint if it fits there, at the start of the gap if the hint is
/// below it, and at the last page-aligned place in the gap otherwise.
pub open spec fn place_in_gap(hint: int, size: int, gap_start: int, gap_end: int) -> int {
    if hint >= gap_start && hint + size <= gap_end {
        hint
    } else if hint < gap_start {
        gap_start
    } else {
        round_down(gap_end - size)
    }
}

pub open spec fn distance(a: int, b: int) -> int {
    if a >= b {
        a - b
    } else {
        b - a
    }
}

/// The closest placement to `hint` over the gaps between regions, starting
/// with the gap below `s[k]` (from `prev_end`) and ending with the gap above
/// the last region (up to `upper`). A later gap wins when it is at least as
/// close as the best found so far, so that a tie goes to the higher address.
pub open spec fn nearest_scan(
    s: Seq<MemMappedRegion>,
    k: int,
    upper: int,
    hint: int,
    size: int,
    prev_end: int,
    best: Option<int>,
    best_dist: int,
) -> Option<int>
    decreases s.len() - k,
{
    if k >= s.len() {
        if upper > prev_end && upper - prev_end >= size {
            let place = place_in_gap(hint, size, prev_end, upper);
            if distance(place, hint) <= best_dist {
                Some(place)
            } else {
                best
            }
        } else {
            best
        }
    } else {
        let r = s[k];
        let gap_end = r.address.0 as int;
        let place = place_in_gap(hint, size, prev_end, gap_end);
        let better = gap_end > prev_end && gap_end - prev_end >= size && distance(place, hint) <= best_dist;
        nearest_scan(
            s,
            k + 1,
            upper,
            hint,
            size,
            round_up(region_end(r)),
            if better { Some(place) } else { best },
            if better { distance(place, hint) } else { best_dist },
        )
    }
}

/// The nearest free placement to `hint`, searching every gap above the first
/// page
pub open spec fn nearest_free_space(s: Seq<MemMappedRegion>, upper: int, hint: int, size: int) -> Option<int> {
    nearest_scan(s, 0, upper, hint, size, 0x1000, None, u32::MAX as int)
}

/// Where `map_memory` places a request, or the error it reports
pub open spec fn map_placement(
    s: Seq<MemMappedRegion>,
    upper: int,
    addr: Option<VirtualAddress>,
    requested_size: u32,
) -> Result<int, MemMapError> {
    if requested_size == 0 {
        Err(MemMapError::InvalidSize)
    } else {
        let rounded = round_up(requested_size as int);
        match addr {
            Some(a) => if a.0 % 0x1000 != 0 {
                Err(MemMapError::MappingWrongAlignment)
            } else if a.0 + rounded <= upper && range_free(s, a.0 as int, a.0 + rounded) {
                Ok(a.0 as int)
            } else {
                match nearest_free_space(s, upper, a.0 as int, rounded) {
                    Some(p) => Ok(p),
                    None => Err(MemMapError::NotEnoughMemory),
                }
            },
            None => match free_space_below(s, upper, rounded) {
                Some(p) => Ok(p),
                None => Err(MemMapError::NotEnoughMemory),
            },
        }
    }
}

/// The inputs on which `map_memory` computes without leaving the range of
/// a `u32`, where each sum would overflow and panic:
///   * rounding the size up to a page adds 0xfff to it;
///   * the end of an explicit request is its start plus the rounded size;
///   * the overlap test of the request against each region adds the two
///     lengths (`ranges_overlap`);
///   * the nearest-gap search rounds each region's end up to a page.
pub open spec fn map_request_ok(
    s: Seq<MemMappedRegion>,
    upper: int,
    addr: Option<VirtualAddress>,
    requested_size: u32,
) -> bool {
    requested_size == 0 || {
        let rounded = round_up(requested_size as int);
        &&& requested_size <= 0xfffff000
        &&& match addr {
            None => true,
            Some(a) => a.0 % 0x1000 != 0 || {
                &&& a.0 + rounded <= u32::MAX
                &&& forall|i: int| 0 <= i < s.len() ==> (#[trigger] s[i]).size + rounded <= u32::MAX
                &&& ((a.0 + rounded <= upper && range_free(s, a.0 as int, a.0 + rounded)) || ends_roundable(s))
            },
        }
    }
}

/// `t` is `s` with `r` added at some position
pub open spec fn inserted(s: Seq<MemMappedRegion>, t: Seq<MemMappedRegion>, r: MemMappedRegion) -> bool {
    exists|k: int| 0 <= k <= s.len() && t == s.insert(k, r)
}

pub proof fn lemma_free_space_below_is_free(s: Seq<MemMappedRegion>, top: int, size: int)
    requires
        regions_wf(s),
        size > 0,
        top >= 0,
    ensures
        free_space_below(s, top, size) matches Some(p) ==> {
            &&& p >= 0
            &&& p + size <= top
            &&& p % 0x1000 == 0
            &&& range_free(s, p, p + size)
        },
    decreases s.len(),
{
    if s.len() > 0 {
        let r = s.last();
        let rend = round_up(region_end(r));
        if region_end(r) <= 0xfffff000 && rend <= top && top - rend >= size {
            let p = round_down(top - size);
            assert forall|i: int| 0 <= i < s.len() implies !touches(#[trigger] s[i], p, p + size) by {
                if i < s.len() - 1 {
                    assert(region_end(s[i]) <= s[s.len() - 1].address.0);
                }
            }
        } else {
            let t = s.drop_last();
            assert forall|i: int, j: int| 0 <= i < j < t.len() implies region_end(#[trigger] t[i]) <= (#[trigger] t[j]).address.0 by {
                assert(t[i] == s[i] && t[j] == s[j]);
            }
            assert forall|i: int| 0 <= i < t.len() implies #[trigger] t[i].size > 0 && region_end(t[i]) <= u32::MAX by {
                assert(t[i] == s[i]);
            }
            lemma_free_space_below_is_free(t, min_int(top, r.address.0 as int), size);
            if let Some(p) = free_space_below(s, top, size) {
                assert forall|i: int| 0 <= i < s.len() implies !touches(#[trigger] s[i], p, p + size) by {
                    if i < s.len() - 1 {
                        assert(t[i] == s[i]);
                        assert(!touches(t[i], p, p + size));
                    }
                }
            }
        }
    }
}

#[verifier::rlimit(40)]
pub proof fn lemma_nearest_scan_is_free(
    s: Seq<MemMappedRegion>,
    k: int,
    upper: int,
    hint: int,
    size: int,
    prev_end: int,
    best: Option<int>,
    best_dist: int,
)
    requires
        regions_wf(s),
        0 <= k <= s.len(),
        size > 0,
        prev_end >= 0,
        prev_end % 0x1000 == 0,
        upper <= u32::MAX,
        forall|j: int| 0 <= j < k ==> region_end(#[trigger] s[j]) <= prev_end,
        best matches Some(b) ==> b >= 0 && b + size <= u32::MAX && range_free(s, b, b + size),
    ensures
        nearest_scan(s, k, upper, hint, size, prev_end, best, best_dist) matches Some(p) ==> p >= 0
            && p + size <= u32::MAX && range_free(s, p, p + size),
    decreases s.len() - k,
{
    if k >= s.len() {
        if upper > prev_end && upper - prev_end >= size {
            let place = place_in_gap(hint, size, prev_end, upper);
            assert(place >= prev_end && place + size <= upper);
            assert forall|i: int| 0 <= i < s.len() implies !touches(#[trigger] s[i], place, place + size) by {
                assert(region_end(s[i]) <= prev_end);
            }
        }
    } else {
        let r = s[k];
        let gap_end = r.address.0 as int;
        let place = place_in_gap(hint, size, prev_end, gap_end);
        let better = gap_end > prev_end && gap_end - prev_end >= size && distance(place, hint) <= best_dist;
        if better {
            assert(place >= prev_end && place + size <= gap_end);
            assert forall|i: int| 0 <= i < s.len() implies !touches(#[trigger] s[i], place, place + size) by {
                if i < k {
                    assert(region_end(s[i]) <= prev_end);
                } else if i > k {
                    assert(region_end(s[k]) <= s[i].address.0);
                }
            }
        }
        assert forall|j: int| 0 <= j < k + 1 implies region_end(#[trigger] s[j]) <= round_up(region_end(r)) by {
            if j < k {
                assert(region_end(s[j]) <= s[k].address.0);
            }
        }
        lemma_nearest_scan_is_free(
            s,
            k + 1,
            upper,
            hint,
            size,
            round_up(region_end(r)),
            if better { Some(place) } else { best },
            if better { distance(place, hint) } else { best_dist },
        );
    }
}

/// The nearest placement is page aligned and ends at or below `upper`, where the hint is
/// aligned and the regions it passes end at or below `upper`.
#[verifier::rlimit(40)]
proof fn lemma_nearest_scan_in_bounds(
    s: Seq<MemMappedRegion>,
    k: int,
    upper: int,
    hint: int,
    size: int,
    prev_end: int,
    best: Option<int>,
    best_dist: int,
)
    requires
        0 <= k <= s.len(),
        size > 0,
        prev_end % 0x1000 == 0,
        hint % 0x1000 == 0,
        forall|j: int| k <= j < s.len() ==> region_end(#[trigger] s[j]) <= upper,
        best matches Some(b) ==> b % 0x1000 == 0 && b + size <= upper,
    ensures
        nearest_scan(s, k, upper, hint, size, prev_end, best, best_dist) matches Some(p) ==> p % 0x1000 == 0
            && p + size <= upper,
    decreases s.len() - k,
{
    if k < s.len() {
        let r = s[k];
        let gap_end = r.address.0 as int;
        let place = place_in_gap(hint, size, prev_end, gap_end);
        let better = gap_end > prev_end && gap_end - prev_end >= size && distance(place, hint) <= best_dist;
        assert(region_end(r) <= upper);
        lemma_nearest_scan_in_bounds(
            s,
            k + 1,
            upper,
            hint,
            size,
            round_up(region_end(r)),
            if better { Some(place) } else { best },
            if better { distance(place, hint) } else { best_dist },
        );
    }
}

/// A placement by `map_memory` is page aligned, ends at or below the upper bound and meets
/// no region; a free, aligned address that ends at or below the bound is taken as given.
pub proof fn law_map_placement(s: Seq<MemMappedRegion>, upper: int, addr: Option<VirtualAddress>, size: u32)
    requires
        regions_wf(s),
        0 <= upper <= u32::MAX,
        forall|i: int| 0 <= i < s.len() ==> region_end(#[trigger] s[i]) <= upper,
        map_request_ok(s, upper, addr, size),
    ensures
        map_placement(s, upper, addr, size) matches Ok(v) ==> {
            &&& v % 0x1000 == 0
            &&& v + round_up(size as int) <= upper
            &&& range_free(s, v, v + round_up(size as int))
        },
        forall|a: VirtualAddress| addr == Some(a) && a.0 % 0x1000 == 0 && size > 0 && a.0 + round_up(size as int) <= upper
            && #[trigger] range_free(s, a.0 as int, a.0 + round_up(size as int))
            ==> map_placement(s, upper, addr, size) == Ok::<int, MemMapError>(a.0 as int),
{
    if size > 0 {
        let rounded = round_up(size as int);
        assert(rounded > 0);
        match addr {
            Some(a) => {
                if a.0 % 0x1000 == 0 && !(a.0 + rounded <= upper && range_free(s, a.0 as int, a.0 + rounded)) {
                    lemma_nearest_scan_is_free(s, 0, upper, a.0 as int, rounded, 0x1000, None, u32::MAX as int);
                    lemma_nearest_scan_in_bounds(s, 0, upper, a.0 as int, rounded, 0x1000, None, u32::MAX as int);
                }
            },
            None => {
                lemma_free_space_below_is_free(s, upper, rounded);
            },
        }
    }
}

/// The top-down search finds the highest place: any free, page-aligned place for `size`
/// bytes that ends at or below `top` lies at or below the one it returns.
pub proof fn law_topmost_fit(s: Seq<MemMappedRegion>, top: int, size: int, q: int)
    requires
        regions_wf(s),
        size > 0,
        0 <= q,
        q % 0x1000 == 0,
        q + size <= top <= 0x1_0000_0000,
        range_free(s, q, q + size),
    ensures
        free_space_below(s, top, size) matches Some(p) && q <= p,
    decreases s.len(),
{
    if s.len() == 0 {
        assert(round_down(top - size) + 0x1000 > top - size);
        assert(q <= round_down(top - size)) by {
            assert((top - size) % 0x1000 == (top - size - q) % 0x1000) by (nonlinear_arith)
                requires q % 0x1000 == 0, q <= top - size;
        }
    } else {
        let r = s.last();
        let n = s.len() - 1;
        assert(r == s[n]);
        assert(!touches(s[n], q, q + size));
        let rend = round_up(region_end(r));
        if region_end(r) <= 0xfffff000 && rend <= top && top - rend >= size {
            assert(q <= round_down(top - size)) by {
                assert((top - size) % 0x1000 == (top - size - q) % 0x1000) by (nonlinear_arith)
                    requires q % 0x1000 == 0, q <= top - size;
            }
        } else {
            if q >= region_end(r) {
                // an aligned place at or above the region's end is at or above its rounded end
                assert(q >= rend) by {
                    assert(region_end(r) % 0x1000 == 0 || q >= region_end(r) - region_end(r) % 0x1000 + 0x1000) by (nonlinear_arith)
                        requires q % 0x1000 == 0, q >= region_end(r);
                }
                assert(false);
            }
            assert(q + size <= r.address.0);
            let t = s.drop_last();
            assert forall|i: int, j: int| 0 <= i < j < t.len() implies region_end(#[trigger] t[i]) <= (#[trigger] t[j]).address.0 by {
                assert(t[i] == s[i] && t[j] == s[j]);
            }
            assert forall|i: int| 0 <= i < t.len() implies #[trigger] t[i].size > 0 && region_end(t[i]) <= u32::MAX by {
                assert(t[i] == s[i]);
            }
            assert forall|i: int| 0 <= i < t.len() implies !touches(#[trigger] t[i], q, q + size) by {
                assert(t[i] == s[i]);
            }
            law_topmost_fit(t, min_int(top, r.address.0 as int), size, q);
        }
    }
}

/// A place where `size` bytes fit: page aligned, above the null page, ending at or below
/// `upper`, and meeting no region
pub open spec fn fits_at(s: Seq<MemMappedRegion>, upper: int, size: int, q: int) -> bool {
    &&& q % 0x1000 == 0
    &&& 0x1000 <= q
    &&& q + size <= upper
    &&& range_free(s, q, q + size)
}

/// Within one gap, the place chosen for the hint is the nearest of the aligned places there.
proof fn lemma_place_in_gap_nearest(hint: int, size: int, gs: int, ge: int, q: int)
    requires
        gs % 0x1000 == 0,
        hint % 0x1000 == 0,
        q % 0x1000 == 0,
        gs <= q,
        q + size <= ge,
    ensures
        distance(place_in_gap(hint, size, gs, ge), hint) <= distance(q, hint),
        gs <= place_in_gap(hint, size, gs, ge),
        place_in_gap(hint, size, gs, ge) + size <= ge,
{
    if !(hint >= gs && hint + size <= ge) && hint >= gs {
        let x = ge - size;
        assert(q <= round_down(x)) by {
            assert(x % 0x1000 == (x - q) % 0x1000) by (nonlinear_arith)
                requires q % 0x1000 == 0, q <= x;
        }
        assert(gs <= round_down(x)) by {
            assert(x % 0x1000 == (x - gs) % 0x1000) by (nonlinear_arith)
                requires gs % 0x1000 == 0, gs <= x;
        }
    }
}

proof fn lemma_nearest_scan_min(
    s: Seq<MemMappedRegion>,
    k: int,
    upper: int,
    hint: int,
    size: int,
    prev_end: int,
    best: Option<int>,
    best_dist: int,
    q: int,
)
    requires
        regions_wf(s),
        0 <= k <= s.len(),
        size > 0,
        0 <= hint <= u32::MAX,
        upper <= u32::MAX,
        prev_end % 0x1000 == 0,
        hint % 0x1000 == 0,
        fits_at(s, upper, size, q),
        forall|j: int| 0 <= j < k ==> region_end(#[trigger] s[j]) <= prev_end,
        best_dist <= u32::MAX,
        best matches Some(b) ==> distance(b, hint) == best_dist && 0 <= b <= u32::MAX,
        best is None ==> best_dist == u32::MAX,
        q < prev_end ==> best is Some && best_dist <= distance(q, hint),
        prev_end >= 0,
    ensures
        nearest_scan(s, k, upper, hint, size, prev_end, best, best_dist) matches Some(p) && distance(p, hint)
            <= distance(q, hint),
    decreases s.len() - k,
{
    if k >= s.len() {
        if q >= prev_end {
            lemma_place_in_gap_nearest(hint, size, prev_end, upper, q);
        }
    } else {
        let r = s[k];
        let gap_end = r.address.0 as int;
        let place = place_in_gap(hint, size, prev_end, gap_end);
        let better = gap_end > prev_end && gap_end - prev_end >= size && distance(place, hint) <= best_dist;
        let nb = if better { Some(place) } else { best };
        let nd = if better { distance(place, hint) } else { best_dist };
        let next = round_up(region_end(r));
        assert(!touches(s[k], q, q + size));
        if prev_end <= q && q + size <= gap_end {
            lemma_place_in_gap_nearest(hint, size, prev_end, gap_end, q);
        }
        if q >= region_end(r) {
            assert(q >= next) by {
                assert(region_end(r) % 0x1000 == 0 || q >= region_end(r) - region_end(r) % 0x1000 + 0x1000) by (nonlinear_arith)
                    requires q % 0x1000 == 0, q >= region_end(r);
            }
        }
        if better {
            assert(place >= prev_end && place + size <= gap_end);
        }
        assert forall|j: int| 0 <= j < k + 1 implies region_end(#[trigger] s[j]) <= next by {
            if j < k {
                assert(region_end(s[j]) <= s[k].address.0);
            }
        }
        lemma_nearest_scan_min(s, k + 1, upper, hint, size, next, nb, nd, q);
    }
}

/// `map_memory`'s search near a hint finds the nearest place: where some aligned place
/// above the null page and at or below the upper bound is free, it returns one, and none
/// that fits is nearer to the hint. Where it returns nothing, nothing fits.
pub proof fn law_nearest_fit(s: Seq<MemMappedRegion>, upper: int, hint: int, size: int, q: int)
    requires
        regions_wf(s),
        size > 0,
        0 <= hint <= u32::MAX,
        hint % 0x1000 == 0,
        upper <= u32::MAX,
        fits_at(s, upper, size, q),
    ensures
        nearest_free_space(s, upper, hint, size) matches Some(p) && distance(p, hint) <= distance(q, hint),
{
    lemma_nearest_scan_min(s, 0, upper, hint, size, 0x1000, None, u32::MAX as int, q);
}

/// Adding a region in a free range, at the position that keeps the list
/// sorted, keeps the list well formed.
pub proof fn lemma_insert_free_region(s: Seq<MemMappedRegion>, k: int, r: MemMappedRegion, rounded: int)
    requires
        regions_wf(s),
        0 <= k <= s.len(),
        forall|j: int| 0 <= j < k ==> (#[trigger] s[j]).address.0 < r.address.0,
        k < s.len() ==> s[k].address.0 >= r.address.0,
        range_free(s, r.address.0 as int, r.address.0 + rounded),
        r.size > 0,
        r.size <= rounded,
        region_end(r) <= u32::MAX,
    ensures
        regions_wf(s.insert(k, r)),
{
    let t = s.insert(k, r);
    assert forall|i: int| 0 <= i < t.len() implies #[trigger] t[i].size > 0 && region_end(t[i]) <= u32::MAX by {
        if i < k {
            assert(t[i] == s[i]);
        } else if i > k {
            assert(t[i] == s[i - 1]);
        }
    }
    assert forall|i: int, j: int| 0 <= i < j < t.len() implies region_end(#[trigger] t[i]) <= (#[trigger] t[j]).address.0 by {
        if j < k {
            assert(t[i] == s[i] && t[j] == s[j]);
        } else if j == k {
            assert(t[i] == s[i]);
            assert(!touches(s[i], r.address.0 as int, r.address.0 + rounded));
        } else if i == k {
            assert(t[j] == s[j - 1]);
            assert(s[k].address.0 >= r.address.0);
            if j - 1 > k {
                assert(region_end(s[k]) <= s[j - 1].address.0);
            }
            assert(!touches(s[j - 1], r.address.0 as int, r.address.0 + rounded));
        } else if i < k {
            assert(t[i] == s[i] && t[j] == s[j - 1]);
        } else {
            assert(t[i] == s[i - 1] && t[j] == s[j - 1]);
        }
    }
}


/// Whether a region is affected by unmapping `[addr, end)`
pub open spec fn unmap_touches(r: MemMappedRegion, addr: int, end: int) -> bool {
    r.address.0 < end && region_end(r) > addr
}

/// The part of a region below the unmapped range
pub open spec fn region_before(r: MemMappedRegion, addr: int) -> MemMappedRegion {
    MemMappedRegion { address: r.address, size: (addr - r.address.0) as u32, backed_by: r.backed_by }
}

/// The backing of the part of a region that starts `offset` bytes into it:
/// physical memory and file contents move along by the offset
pub open spec fn shifted_backing(b: MemoryBacking, offset: int) -> MemoryBacking {
    match b {
        MemoryBacking::Direct(p) => MemoryBacking::Direct(PhysicalAddress((p.0 + offset) as u32)),
        MemoryBacking::FileBacked { driver_id, mapping_token, offset_in_file, shared } => MemoryBacking::FileBacked {
            driver_id,
            mapping_token,
            offset_in_file: (offset_in_file + offset) as u32,
            shared,
        },
        _ => b,
    }
}

/// The part of a region above the unmapped range, backed from where it
/// starts within the region
pub open spec fn region_after(r: MemMappedRegion, end: int) -> MemMappedRegion {
    MemMappedRegion {
        address: VirtualAddress(end as u32),
        size: (region_end(r) - end) as u32,
        backed_by: shifted_backing(r.backed_by, end - r.address.0),
    }
}

/// What is left of one region after unmapping `[addr, end)`
pub open spec fn remaining_pieces(r: MemMappedRegion, addr: int, end: int) -> Seq<MemMappedRegion> {
    if unmap_touches(r, addr, end) {
        (if r.address.0 < addr { seq![region_before(r, addr)] } else { Seq::empty() }) + (if region_end(r) > end {
            seq![region_after(r, end)]
        } else {
            Seq::empty()
        })
    } else {
        seq![r]
    }
}

/// The memory map left after unmapping `[addr, end)`: each region is
/// replaced by its parts outside the range.
pub open spec fn unmap_regions(s: Seq<MemMappedRegion>, addr: int, end: int) -> Seq<MemMappedRegion>
    decreases s.len(),
{
    if s.len() == 0 {
        Seq::empty()
    } else {
        unmap_regions(s.drop_last(), addr, end) + remaining_pieces(s.last(), addr, end)
    }
}

/// How the backing of a removed section is reported, `offset` bytes into
/// the region it came from
pub open spec fn unmapped_kind(b: MemoryBacking, offset: int) -> UnmappedRegionKind {
    match b {
        MemoryBacking::Direct(p) => UnmappedRegionKind::Direct(PhysicalAddress((p.0 + offset) as u32)),
        MemoryBacking::FreeMemory => UnmappedRegionKind::FreeMemory,
        MemoryBacking::IsaDma => UnmappedRegionKind::FreeMemory,
        MemoryBacking::FileBacked { driver_id, mapping_token, offset_in_file, shared } => UnmappedRegionKind::FileBacked {
            driver_id,
            mapping_token,
            offset_in_file: (offset_in_file + offset) as u32,
            shared,
        },
    }
}

/// Whether the reported backing of a removed section fits in a `u32`
pub open spec fn unmapped_kind_ok(b: MemoryBacking, offset: int) -> bool {
    match b {
        MemoryBacking::Direct(p) => p.0 + offset <= u32::MAX,
        MemoryBacking::FileBacked { offset_in_file, .. } => offset_in_file + offset <= u32::MAX,
        _ => true,
    }
}

pub open spec fn max_int(a: int, b: int) -> int {
    if a >= b {
        a
    } else {
        b
    }
}

pub open spec fn min_int(a: int, b: int) -> int {
    if a <= b {
        a
    } else {
        b
    }
}

/// The section of one region that falls inside the unmapped range
pub open spec fn unmapped_piece(r: MemMappedRegion, addr: int, end: int) -> Seq<UnmappedRegion> {
    if unmap_touches(r, addr, end) {
        let istart = max_int(r.address.0 as int, addr);
        let iend = min_int(region_end(r), end);
        if iend - istart > 0 {
            seq![UnmappedRegion {
                address: VirtualAddress(istart as u32),
                size: (iend - istart) as u32,
                kind: unmapped_kind(r.backed_by, istart - r.address.0),
            }]
        } else {
            Seq::empty()
        }
    } else {
        Seq::empty()
    }
}

/// The sections removed by unmapping `[addr, end)`, in ascending order
pub open spec fn unmapped_regions(s: Seq<MemMappedRegion>, addr: int, end: int) -> Seq<UnmappedRegion>
    decreases s.len(),
{
    if s.len() == 0 {
        Seq::empty()
    } else {
        unmapped_regions(s.drop_last(), addr, end) + unmapped_piece(s.last(), addr, end)
    }
}

/// Unmapping `[addr, end)` reports the backing of every removed section
/// within the range of a `u32`
pub open spec fn unmap_offsets_ok(s: Seq<MemMappedRegion>, addr: int, end: int) -> bool {
    forall|i: int| 0 <= i < s.len() && unmap_touches(#[trigger] s[i], addr, end) ==> {
        &&& unmapped_kind_ok(s[i].backed_by, max_int(s[i].address.0 as int, addr) - s[i].address.0)
        &&& region_end(s[i]) > end ==> unmapped_kind_ok(s[i].backed_by, end - s[i].address.0)
    }
}

/// The number of regions that share at least one byte with `[addr, end)`
pub open spec fn regions_met(s: Seq<MemMappedRegion>, addr: int, end: int) -> int
    decreases s.len(),
{
    if s.len() == 0 {
        0
    } else {
        regions_met(s.drop_last(), addr, end) + if unmap_touches(s.last(), addr, end) { 1int } else { 0int }
    }
}

/// The result of `unmap_memory`
pub open spec fn unmap_outcome(s: Seq<MemMappedRegion>, upper: int, addr: VirtualAddress, length: u32) -> Result<Seq<UnmappedRegion>, MemMapError> {
    if length % 0x1000 != 0 {
        Err(MemMapError::UnmapNotPageMultiple)
    } else if addr.0 >= upper || addr.0 + length > upper {
        Err(MemMapError::MapOutOfBounds)
    } else {
        Ok(unmapped_regions(s, addr.0 as int, addr.0 + length))
    }
}

/// Whether a region holds the address `a`
pub open spec fn holds_address(r: MemMappedRegion, a: int) -> bool {
    r.address.0 <= a < region_end(r)
}

/// Whether some region of a memory map holds the address `a`
pub open spec fn covers(s: Seq<MemMappedRegion>, a: int) -> bool {
    exists|i: int| 0 <= i < s.len() && holds_address(#[trigger] s[i], a)
}

/// Whether some removed section holds the address `a`
pub open spec fn sections_cover(u: Seq<UnmappedRegion>, a: int) -> bool {
    exists|i: int| 0 <= i < u.len() && (#[trigger] u[i]).address.0 <= a < u[i].address.0 + u[i].size
}

/// What backs the address `a` of a region: its backing moved along to `a`
pub open spec fn backing_at(r: MemMappedRegion, a: int) -> MemoryBacking {
    shifted_backing(r.backed_by, a - r.address.0)
}

proof fn lemma_covers_concat(x: Seq<MemMappedRegion>, y: Seq<MemMappedRegion>, a: int)
    ensures
        covers(x + y, a) <==> covers(x, a) || covers(y, a),
{
    let c = x + y;
    if covers(c, a) {
        let i = choose|i: int| 0 <= i < c.len() && holds_address(#[trigger] c[i], a);
        if i < x.len() {
            assert(c[i] == x[i]);
        } else {
            assert(c[i] == y[i - x.len()]);
        }
    }
    if covers(x, a) {
        let i = choose|i: int| 0 <= i < x.len() && holds_address(#[trigger] x[i], a);
        assert(c[i] == x[i]);
    }
    if covers(y, a) {
        let i = choose|i: int| 0 <= i < y.len() && holds_address(#[trigger] y[i], a);
        assert(c[i + x.len()] == y[i]);
    }
}

proof fn lemma_sections_cover_concat(x: Seq<UnmappedRegion>, y: Seq<UnmappedRegion>, a: int)
    ensures
        sections_cover(x + y, a) <==> sections_cover(x, a) || sections_cover(y, a),
{
    let c = x + y;
    if sections_cover(c, a) {
        let i = choose|i: int| 0 <= i < c.len() && (#[trigger] c[i]).address.0 <= a < c[i].address.0 + c[i].size;
        if i < x.len() {
            assert(c[i] == x[i]);
        } else {
            assert(c[i] == y[i - x.len()]);
        }
    }
    if sections_cover(x, a) {
        let i = choose|i: int| 0 <= i < x.len() && (#[trigger] x[i]).address.0 <= a < x[i].address.0 + x[i].size;
        assert(c[i] == x[i]);
    }
    if sections_cover(y, a) {
        let i = choose|i: int| 0 <= i < y.len() && (#[trigger] y[i]).address.0 <= a < y[i].address.0 + y[i].size;
        assert(c[i + x.len()] == y[i]);
    }
}

/// Unmapping `[addr, end)` takes exactly that range out of what the memory map covers: an
/// address stays mapped exactly when it was mapped and lies outside the range, the removed
/// sections hold exactly the mapped addresses inside it, and every address still mapped keeps
/// the physical memory or file contents that backed it.
pub proof fn law_unmap_coverage(s: Seq<MemMappedRegion>, addr: int, end: int, a: int)
    requires
        regions_wf(s),
        0 <= addr <= end <= u32::MAX,
        unmap_offsets_ok(s, addr, end),
    ensures
        covers(unmap_regions(s, addr, end), a) <==> covers(s, a) && !(addr <= a < end),
        sections_cover(unmapped_regions(s, addr, end), a) <==> covers(s, a) && addr <= a < end,
        forall|i: int| 0 <= i < unmap_regions(s, addr, end).len() && holds_address(#[trigger] unmap_regions(s, addr, end)[i], a)
            ==> exists|j: int| 0 <= j < s.len() && holds_address(#[trigger] s[j], a)
                && backing_at(unmap_regions(s, addr, end)[i], a) == backing_at(s[j], a),
    decreases s.len(),
{
    if s.len() == 0 {
        assert(!covers(s, a));
        assert(unmap_regions(s, addr, end).len() == 0);
        assert(unmapped_regions(s, addr, end).len() == 0);
    } else {
        let t = s.drop_last();
        let r = s.last();
        let n = s.len() - 1;
        assert(r == s[n]);
        assert forall|i: int, j: int| 0 <= i < j < t.len() implies region_end(#[trigger] t[i]) <= (#[trigger] t[j]).address.0 by {
            assert(t[i] == s[i] && t[j] == s[j]);
        }
        assert forall|i: int| 0 <= i < t.len() implies #[trigger] t[i].size > 0 && region_end(t[i]) <= u32::MAX by {
            assert(t[i] == s[i]);
        }
        assert forall|i: int| 0 <= i < t.len() && unmap_touches(#[trigger] t[i], addr, end) implies {
            &&& unmapped_kind_ok(t[i].backed_by, max_int(t[i].address.0 as int, addr) - t[i].address.0)
            &&& region_end(t[i]) > end ==> unmapped_kind_ok(t[i].backed_by, end - t[i].address.0)
        } by {
            assert(t[i] == s[i]);
        }
        law_unmap_coverage(t, addr, end, a);
        let rest = unmap_regions(t, addr, end);
        let p = remaining_pieces(r, addr, end);
        let u = unmap_regions(s, addr, end);
        assert(u == rest + p);
        lemma_covers_concat(rest, p, a);
        lemma_sections_cover_concat(unmapped_regions(t, addr, end), unmapped_piece(r, addr, end), a);
        lemma_covers_concat(t, seq![r], a);
        assert(s == t + seq![r]);
        // the pieces left of the last region cover what it held outside the range
        if covers(p, a) {
            let k = choose|k: int| 0 <= k < p.len() && holds_address(#[trigger] p[k], a);
            assert(holds_address(r, a) && !(addr <= a < end));
        }
        if holds_address(r, a) && !(addr <= a < end) {
            if unmap_touches(r, addr, end) {
                if a < addr {
                    assert(holds_address(p[0], a));
                } else {
                    assert(holds_address(p[p.len() - 1], a));
                }
            } else {
                assert(holds_address(p[0], a));
            }
        }
        assert(covers(seq![r], a) <==> holds_address(r, a)) by {
            if holds_address(r, a) {
                assert(seq![r][0] == r);
            }
        }
        let q = unmapped_piece(r, addr, end);
        assert(sections_cover(q, a) <==> holds_address(r, a) && addr <= a < end) by {
            if sections_cover(q, a) {
                assert(q.len() == 1);
                assert(q[0].address.0 <= a < q[0].address.0 + q[0].size);
            }
            if holds_address(r, a) && addr <= a < end {
                assert(unmap_touches(r, addr, end));
                assert(q[0].address.0 <= a < q[0].address.0 + q[0].size);
            }
        }
        assert forall|i: int| 0 <= i < u.len() && holds_address(#[trigger] u[i], a)
            implies exists|j: int| 0 <= j < s.len() && holds_address(#[trigger] s[j], a) && backing_at(u[i], a) == backing_at(s[j], a) by {
            if i < rest.len() {
                assert(u[i] == rest[i]);
                let j = choose|j: int| 0 <= j < t.len() && holds_address(#[trigger] t[j], a) && backing_at(rest[i], a) == backing_at(t[j], a);
                assert(t[j] == s[j]);
            } else {
                let k = i - rest.len();
                assert(u[i] == p[k]);
                assert(holds_address(s[n], a));
                if unmap_touches(r, addr, end) && !(r.address.0 < addr && k == 0) {
                    assert(p[k] == region_after(r, end));
                    assert(unmapped_kind_ok(r.backed_by, end - r.address.0));
                }
            }
        }
    }
}

/// The sections unmapping reports are in ascending order and share no byte; each lies inside
/// the unmapped range and inside the region it was cut from; and, for a range that is not
/// empty, there is one for each region that meets it.
pub proof fn law_unmap_sections_apart(s: Seq<MemMappedRegion>, addr: int, end: int)
    requires
        regions_wf(s),
        0 <= addr <= end <= u32::MAX,
    ensures
        ({
            let u = unmapped_regions(s, addr, end);
            &&& forall|i: int, j: int| 0 <= i < j < u.len() ==> (#[trigger] u[i]).address.0 + u[i].size <= (#[trigger] u[j]).address.0
            &&& forall|i: int| 0 <= i < u.len() ==> addr <= (#[trigger] u[i]).address.0 && u[i].address.0 + u[i].size <= end
                && u[i].size > 0
            &&& s.len() > 0 ==> forall|i: int| 0 <= i < u.len() ==> (#[trigger] u[i]).address.0 + u[i].size <= region_end(s.last())
            &&& addr < end ==> u.len() == regions_met(s, addr, end)
        }),
    decreases s.len(),
{
    if s.len() > 0 {
        let t = s.drop_last();
        let r = s.last();
        assert forall|i: int, j: int| 0 <= i < j < t.len() implies region_end(#[trigger] t[i]) <= (#[trigger] t[j]).address.0 by {
            assert(t[i] == s[i] && t[j] == s[j]);
        }
        assert forall|i: int| 0 <= i < t.len() implies #[trigger] t[i].size > 0 && region_end(t[i]) <= u32::MAX by {
            assert(t[i] == s[i]);
        }
        law_unmap_sections_apart(t, addr, end);
        let prev = unmapped_regions(t, addr, end);
        let q = unmapped_piece(r, addr, end);
        let u = unmapped_regions(s, addr, end);
        assert(u == prev + q);
        assert(addr < end ==> q.len() == if unmap_touches(r, addr, end) { 1int } else { 0int });
        if t.len() > 0 {
            assert(region_end(t.last()) <= r.address.0) by {
                assert(t.last() == s[s.len() - 2]);
            }
        }
        assert forall|i: int| 0 <= i < u.len() implies addr <= (#[trigger] u[i]).address.0 && u[i].address.0 + u[i].size <= end
            && u[i].size > 0 && u[i].address.0 + u[i].size <= region_end(r) && (i >= prev.len() ==> r.address.0 <= u[i].address.0) by {
            if i < prev.len() {
                assert(u[i] == prev[i]);
            } else {
                assert(u[i] == q[i - prev.len()]);
            }
        }
        assert forall|i: int, j: int| 0 <= i < j < u.len() implies (#[trigger] u[i]).address.0 + u[i].size <= (#[trigger] u[j]).address.0 by {
            if j < prev.len() {
                assert(u[i] == prev[i] && u[j] == prev[j]);
            } else if i < prev.len() {
                assert(u[i] == prev[i]);
            }
        }
    }
}

pub proof fn lemma_concat_wf(a: Seq<MemMappedRegion>, b: Seq<MemMappedRegion>)
    requires
        regions_wf(a),
        regions_wf(b),
        forall|i: int, j: int| 0 <= i < a.len() && 0 <= j < b.len() ==> region_end(#[trigger] a[i]) <= (#[trigger] b[j]).address.0,
    ensures
        regions_wf(a + b),
{
    let c = a + b;
    assert forall|i: int| 0 <= i < c.len() implies #[trigger] c[i].size > 0 && region_end(c[i]) <= u32::MAX by {
        if i < a.len() {
            assert(c[i] == a[i]);
        } else {
            assert(c[i] == b[i - a.len()]);
        }
    }
    assert forall|i: int, j: int| 0 <= i < j < c.len() implies region_end(#[trigger] c[i]) <= (#[trigger] c[j]).address.0 by {
        if j < a.len() {
            assert(c[i] == a[i] && c[j] == a[j]);
        } else if i < a.len() {
            assert(c[i] == a[i] && c[j] == b[j - a.len()]);
        } else {
            assert(c[i] == b[i - a.len()] && c[j] == b[j - a.len()]);
        }
    }
}

/// Unmapping keeps a memory map well formed, and nothing it leaves reaches
/// past the end of the last region it started from.
pub proof fn lemma_unmap_regions_wf(s: Seq<MemMappedRegion>, addr: int, end: int)
    requires
        regions_wf(s),
        0 <= addr <= end <= u32::MAX,
    ensures
        regions_wf(unmap_regions(s, addr, end)),
        s.len() > 0 ==> forall|i: int| 0 <= i < unmap_regions(s, addr, end).len()
            ==> region_end(#[trigger] unmap_regions(s, addr, end)[i]) <= region_end(s.last()),
        s.len() == 0 ==> unmap_regions(s, addr, end).len() == 0,
    decreases s.len(),
{
    if s.len() > 0 {
        let t = s.drop_last();
        let r = s.last();
        assert forall|i: int, j: int| 0 <= i < j < t.len() implies region_end(#[trigger] t[i]) <= (#[trigger] t[j]).address.0 by {
            assert(t[i] == s[i] && t[j] == s[j]);
        }
        assert forall|i: int| 0 <= i < t.len() implies #[trigger] t[i].size > 0 && region_end(t[i]) <= u32::MAX by {
            assert(t[i] == s[i]);
        }
        lemma_unmap_regions_wf(t, addr, end);
        let rest = unmap_regions(t, addr, end);
        let p = remaining_pieces(r, addr, end);
        assert(regions_wf(p));
        assert forall|i: int| 0 <= i < p.len() implies #[trigger] p[i].address.0 >= r.address.0 && region_end(p[i]) <= region_end(r) by {
        }
        if t.len() > 0 {
            assert(region_end(t.last()) <= r.address.0) by {
                assert(t.last() == s[s.len() - 2]);
            }
        }
        lemma_concat_wf(rest, p);
        let c = unmap_regions(s, addr, end);
        assert(c == rest + p);
        assert forall|i: int| 0 <= i < c.len() implies region_end(#[trigger] c[i]) <= region_end(r) by {
            if i < rest.len() {
                assert(c[i] == rest[i]);
            } else {
                assert(c[i] == p[i - rest.len()]);
            }
        }
    }
}

impl MemMappedRegion {
    pub fn get_address_range(&self) -> (r: Range<VirtualAddress>)
        requires
            region_end(*self) <= u32::MAX,
        ensures
            r.start == self.address,
            r.end.0 == region_end(*self),
    {
        let start = self.address;
        let end = VirtualAddress::new(self.address.0 + self.size);
        start..end
    }

    /// Checks if the given virtual address is contained within this memory
    /// region. An address in the final page but beyond the size of the region
    /// is not contained.
    pub fn contains_address(&self, addr: &VirtualAddress) -> (r: bool)
        requires
            region_end(*self) <= u32::MAX,
        ensures
            r == (self.address.0 <= addr.0 < region_end(*self)),
    {
        let range = self.get_address_range();
        range.start.0 <= addr.0 && addr.0 < range.end.0
    }

    /// Number of pages touched by the region
    pub fn page_count(&self) -> (r: usize)
        ensures
            r == (self.size + 0xfff) / 0x1000,
    {
        let pages: u64 = (self.size as u64 + 0xfff) / 0x1000;
        pages as usize
    }
}

/// Whether two ranges share at least one address. Empty ranges share none.
pub fn ranges_overlap(a: &Range<VirtualAddress>, b: &Range<VirtualAddress>) -> (r: bool)
    requires
        a.start.0 <= a.end.0,
        b.start.0 <= b.end.0,
        (a.end.0 - a.start.0) + (b.end.0 - b.start.0) <= u32::MAX,
    ensures
        r == (a.start.0 < a.end.0 && b.start.0 < b.end.0 && a.start.0 < b.end.0 && b.start.0 < a.end.0),
{
    let min = if a.start.0 <= b.start.0 { a.start.0 } else { b.start.0 };
    let max = if a.end.0 >= b.end.0 { a.end.0 } else { b.end.0 };
    let a_length = a.end.0 - a.start.0;
    let b_length = b.end.0 - b.start.0;
    (a_length + b_length) > (max - min)
}

/// MappedMemory is the collection of memory mappings of a task. The const
/// parameter is the upper bound of the mapped region: every placement ends at
/// or below it.
pub struct MappedMemory<const U: u32> {
    regions: Vec<MemMappedRegion>,
}

impl<const U: u32> View for MappedMemory<U> {
    type V = Seq<MemMappedRegion>;

    /// The mapped regions, in ascending order of address
    closed spec fn view(&self) -> Seq<MemMappedRegion> {
        self.regions@
    }
}

impl<const U: u32> MappedMemory<U> {
    pub open spec fn wf(&self) -> bool {
        regions_wf(self@)
    }

    pub fn new() -> (r: Self)
        ensures
            r@ == Seq::<MemMappedRegion>::empty(),
            r.wf(),
    {
        MappedMemory { regions: Vec::new() }
    }

    /// A copy of every mapped region, in ascending order of address
    pub fn all_regions(&self) -> (r: Vec<MemMappedRegion>)
        ensures
            r@ == self@,
    {
        let mut out: Vec<MemMappedRegion> = Vec::new();
        let mut i: usize = 0;
        while i < self.regions.len()
            invariant
                i <= self.regions@.len(),
                out@ == self.regions@.take(i as int),
            decreases self.regions@.len() - i,
        {
            out.push(self.regions[i]);
            assert(self.regions@.take(i + 1) =~= self.regions@.take(i as int).push(self.regions@[i as int]));
            i = i + 1;
        }
        assert(self.regions@.take(self.regions@.len() as int) =~= self.regions@);
        out
    }

    pub fn len(&self) -> (r: usize)
        ensures
            r == self@.len(),
    {
        self.regions.len()
    }

    /// Returns the region that contains the requested virtual address, if
    /// there is one. This is what a page fault is resolved against.
    pub fn get_mapping_containing_address(&self, addr: &VirtualAddress) -> (r: Option<&MemMappedRegion>)
        requires
            self.wf(),
        ensures
            match r {
                Some(region) => exists|i: int| 0 <= i < self@.len() && self@[i] == *region
                    && region.address.0 <= addr.0 < region_end(*region),
                None => forall|i: int| 0 <= i < self@.len()
                    ==> !(self@[i].address.0 <= addr.0 < region_end(#[trigger] self@[i])),
            },
    {
        let mut i: usize = 0;
        while i < self.regions.len()
            invariant
                self.wf(),
                i <= self@.len(),
                forall|j: int| 0 <= j < i ==> !(self@[j].address.0 <= addr.0 < region_end(#[trigger] self@[j])),
            decreases self@.len() - i,
        {
            if self.regions[i].contains_address(addr) {
                return Some(&self.regions[i]);
            }
            i = i + 1;
        }
        None
    }


    /// The region that contains the requested virtual address, if there is one, for the caller
    /// to change in place; the regions keep their order and their addresses where the caller
    /// changes only what backs it.
    pub fn get_mut_mapping_containing_address(&mut self, addr: &VirtualAddress) -> (r: Option<
        &mut MemMappedRegion,
    >)
        requires
            old(self).wf(),
        ensures
            match r {
                Some(region) => {
                    let i = first_containing(old(self)@, addr.0 as int, 0);
                    &&& 0 <= i < old(self)@.len()
                    &&& old(self)@[i] == *region
                    &&& region.address.0 <= addr.0 < region_end(*region)
                    &&& final(self)@ == old(self)@.update(i, *final(region))
                },
                None => final(self)@ == old(self)@ && forall|i: int|
                    0 <= i < old(self)@.len() ==> !(old(self)@[i].address.0 <= addr.0
                        < region_end(#[trigger] old(self)@[i])),
            },
    {
        let mut i: usize = 0;
        while i < self.regions.len()
            invariant
                self.wf(),
                i <= self@.len(),
                self@ == old(self)@,
                first_containing(self@, addr.0 as int, i as int) == first_containing(self@, addr.0 as int, 0),
                forall|j: int| 0 <= j < i ==> !(self@[j].address.0 <= addr.0 < region_end(#[trigger] self@[j])),
            ensures
                self.wf(),
                self@ == old(self)@,
                i <= self@.len(),
                i < self@.len() ==> i == first_containing(self@, addr.0 as int, 0)
                    && self@[i as int].address.0 <= addr.0 < region_end(self@[i as int]),
                forall|j: int| 0 <= j < i ==> !(self@[j].address.0 <= addr.0 < region_end(#[trigger] self@[j])),
            decreases self@.len() - i,
        {
            if self.regions[i].contains_address(addr) {
                break;
            }
            i = i + 1;
        }
        if i < self.regions.len() {
            let ghost k = i as int;
            let region = &mut self.regions[i];
            proof {
                assert(old(self)@[k] == *region);
            }
            Some(region)
        } else {
            None
        }
    }

    /// Gives the region that contains `addr` a new backing and returns the one it had; `None`
    /// where no region contains it.
    pub fn replace_backing(&mut self, addr: &VirtualAddress, backing: MemoryBacking) -> (r: Option<
        MemoryBacking,
    >)
        requires
            old(self).wf(),
        ensures
            final(self).wf(),
            ({
                let i = first_containing(old(self)@, addr.0 as int, 0);
                if i < old(self)@.len() {
                    &&& r == Some(old(self)@[i].backed_by)
                    &&& final(self)@ == old(self)@.update(
                        i,
                        MemMappedRegion { backed_by: backing, ..old(self)@[i] },
                    )
                } else {
                    r is None && *final(self) == *old(self)
                }
            }),
    {
        let mut i: usize = 0;
        while i < self.regions.len()
            invariant
                self.wf(),
                i <= self@.len(),
                self@ == old(self)@,
                first_containing(self@, addr.0 as int, i as int) == first_containing(self@, addr.0 as int, 0),
            ensures
                self@ == old(self)@,
                i <= self@.len(),
                i < self@.len() ==> i == first_containing(self@, addr.0 as int, 0),
                i == self@.len() ==> first_containing(self@, addr.0 as int, 0) == self@.len(),
            decreases self@.len() - i,
        {
            if self.regions[i].contains_address(addr) {
                break;
            }
            i = i + 1;
        }
        if i == self.regions.len() {
            return None;
        }
        let region = self.regions[i];
        let previous = region.backed_by;
        self.regions.set(i, MemMappedRegion { backed_by: backing, ..region });
        proof {
            assert forall|k: int| 0 <= k < self@.len() implies #[trigger] self@[k].size == old(self)@[k].size
                && self@[k].address == old(self)@[k].address by {}
        }
        Some(previous)
    }

    /// Finds a free mapping space for the requested size, searching from
    /// the top of the address space downwards for the first gap between
    /// regions that is large enough.
    pub fn find_free_mapping_space(&self, size: u32) -> (r: Option<VirtualAddress>)
        requires
            self.wf(),
        ensures
            match r {
                Some(a) => free_space_below(self@, U as int, size as int) == Some(a.0 as int),
                None => free_space_below(self@, U as int, size as int) == None::<int>,
            },
    {
        let mut prev_start: u32 = U;
        let mut i: usize = self.regions.len();
        assert(self@.take(i as int) =~= self@);
        while i > 0
            invariant
                i <= self@.len(),
                regions_wf(self@),
                free_space_below(self@, U as int, size as int) == free_space_below(self@.take(i as int), prev_start as int, size as int),
            decreases i,
        {
            let ghost t = self@.take(i as int);
            assert(t.drop_last() =~= self@.take(i - 1));
            assert(t.last() == self@[i - 1]);
            let region = &self.regions[i - 1];
            let end = region.address.0 + region.size;
            if end <= 0xfffff000 {
                let region_end = page_ceil(end);
                if region_end <= prev_start && prev_start - region_end >= size {
                    return Some(VirtualAddress::new(page_floor(prev_start - size)));
                }
            }
            if region.address.0 < prev_start {
                prev_start = region.address.0;
            }
            i = i - 1;
        }
        assert(self@.take(0) =~= Seq::<MemMappedRegion>::empty());
        if size <= prev_start {
            Some(VirtualAddress::new(page_floor(prev_start - size)))
        } else {
            None
        }
    }

    /// Find the closest available free space to a hint address, searching
    /// the gaps both above and below it.
    fn find_nearest_free_space(&self, hint: VirtualAddress, size: u32) -> (r: Option<VirtualAddress>)
        requires
            self.wf(),
            ends_roundable(self@),
            hint.0 + size <= u32::MAX,
        ensures
            match r {
                Some(a) => nearest_free_space(self@, U as int, hint.0 as int, size as int) == Some(a.0 as int),
                None => nearest_free_space(self@, U as int, hint.0 as int, size as int) == None::<int>,
            },
    {
        let mut best: Option<VirtualAddress> = None;
        let mut best_distance: u32 = u32::MAX;
        let upper_bound: u32 = U;
        let mut prev_end: u32 = 0x1000;
        let mut i: usize = 0;
        while i < self.regions.len()
            invariant
                i <= self@.len(),
                ends_roundable(self@),
                hint.0 + size <= u32::MAX,
                upper_bound == U,
                nearest_free_space(self@, U as int, hint.0 as int, size as int) == nearest_scan(
                    self@, i as int, U as int, hint.0 as int, size as int, prev_end as int,
                    match best { Some(b) => Some(b.0 as int), None => None::<int> }, best_distance as int),
            decreases self@.len() - i,
        {
            let region = &self.regions[i];
            let gap_start = prev_end;
            let gap_end = region.address.0;
            if gap_end > gap_start {
                let gap_size = gap_end - gap_start;
                if gap_size >= size {
                    let place = if hint.0 >= gap_start && hint.0 + size <= gap_end {
                        hint.0
                    } else if hint.0 < gap_start {
                        gap_start
                    } else {
                        page_floor(gap_end - size)
                    };
                    let dist = if place >= hint.0 { place - hint.0 } else { hint.0 - place };
                    if dist <= best_distance {
                        best_distance = dist;
                        best = Some(VirtualAddress::new(place));
                    }
                }
            }
            assert(region_end(self@[i as int]) <= 0xfffff000);
            prev_end = page_ceil(region.address.0 + region.size);
            i = i + 1;
        }
        if upper_bound > prev_end {
            let gap_size = upper_bound - prev_end;
            if gap_size >= size {
                let gap_start = prev_end;
                let gap_end = upper_bound;
                let place = if hint.0 >= gap_start && hint.0 + size <= gap_end {
                    hint.0
                } else if hint.0 < gap_start {
                    gap_start
                } else {
                    page_floor(gap_end - size)
                };
                let dist = if place >= hint.0 { place - hint.0 } else { hint.0 - place };
                if dist <= best_distance {
                    best = Some(VirtualAddress::new(place));
                }
            }
        }
        best
    }

    /// Create a memory mapping. This does not modify any page table, but the
    /// next time a page fault occurs in this region the kernel uses it to fill
    /// in the page.
    /// If a virtual address is provided, the mapping is placed at that exact
    /// address if it is free and ends at or below the upper bound, otherwise
    /// the closest available space is used.
    /// When no address is provided, a free region is picked starting from the
    /// top of the address space and working downward.
    /// On success, it returns the address that the region has been mapped to.
    pub fn map_memory(
        &mut self,
        addr: Option<VirtualAddress>,
        requested_size: u32,
        backing: MemoryBacking,
    ) -> (r: Result<VirtualAddress, MemMapError>)
        requires
            old(self).wf(),
            map_request_ok(old(self)@, U as int, addr, requested_size),
        ensures
            final(self).wf(),
            match r {
                Ok(a) => {
                    &&& map_placement(old(self)@, U as int, addr, requested_size) == Ok::<int, MemMapError>(a.0 as int)
                    &&& inserted(old(self)@, final(self)@, MemMappedRegion { address: a, size: requested_size, backed_by: backing })
                },
                Err(e) => {
                    &&& map_placement(old(self)@, U as int, addr, requested_size) == Err::<int, MemMapError>(e)
                    &&& *final(self) == *old(self)
                },
            },
    {
        if requested_size == 0 {
            return Err(MemMapError::InvalidSize);
        }
        assert(((requested_size + 0xfff) as u32) & 0xfffff000 == ((requested_size + 0xfff) as u32) - ((requested_size + 0xfff) as u32) % 4096) by (bit_vector);
        let rounded_size = (requested_size + 0xfff) & 0xfffff000;
        assert(rounded_size == round_up(requested_size as int));
        let ghost s = self@;

        let location: Option<VirtualAddress> = match addr {
            Some(request_start) => {
                if !request_start.is_page_aligned() {
                    return Err(MemMapError::MappingWrongAlignment);
                }
                let request_end = VirtualAddress::new(request_start.0 + rounded_size);
                if request_end.0 <= U && self.can_fit_range(request_start..request_end) {
                    Some(request_start)
                } else {
                    let found = self.find_nearest_free_space(request_start, rounded_size);
                    proof {
                        lemma_nearest_scan_is_free(s, 0, U as int, request_start.0 as int, rounded_size as int, 0x1000, None, u32::MAX as int);
                    }
                    found
                }
            }
            None => {
                proof {
                    lemma_free_space_below_is_free(s, U as int, rounded_size as int);
                }
                self.find_free_mapping_space(rounded_size)
            }
        };

        let free_space = match location {
            Some(a) => a,
            None => {
                return Err(MemMapError::NotEnoughMemory);
            }
        };
        assert(range_free(s, free_space.0 as int, free_space.0 + rounded_size));

        let mapping = MemMappedRegion { address: free_space, size: requested_size, backed_by: backing };
        let mut k: usize = 0;
        while k < self.regions.len() && self.regions[k].address.0 < free_space.0
            invariant
                self@ == s,
                k <= s.len(),
                forall|j: int| 0 <= j < k ==> (#[trigger] s[j]).address.0 < free_space.0,
            decreases s.len() - k,
        {
            k = k + 1;
        }
        proof {
            lemma_insert_free_region(s, k as int, mapping, rounded_size as int);
        }
        self.regions.insert(k, mapping);
        Ok(free_space)
    }


    /// Remove a Task's reference to a region of mapped memory. This does not
    /// modify any page table. The unmapped range may overlap with one or more
    /// current mappings: those intersections are removed, leaving behind the
    /// non-intersecting parts as new mappings.
    /// Returns the sections that were unmapped, in ascending order.
    pub fn unmap_memory(&mut self, addr: VirtualAddress, length: u32) -> (r: Result<Vec<UnmappedRegion>, MemMapError>)
        requires
            old(self).wf(),
            addr.0 < U ==> addr.0 + length <= u32::MAX,
            addr.0 < U ==> unmap_offsets_ok(old(self)@, addr.0 as int, addr.0 + length),
        ensures
            final(self).wf(),
            match r {
                Ok(v) => {
                    &&& unmap_outcome(old(self)@, U as int, addr, length) == Ok::<Seq<UnmappedRegion>, MemMapError>(v@)
                    &&& final(self)@ == unmap_regions(old(self)@, addr.0 as int, addr.0 + length)
                },
                Err(e) => {
                    &&& unmap_outcome(old(self)@, U as int, addr, length) == Err::<Seq<UnmappedRegion>, MemMapError>(e)
                    &&& *final(self) == *old(self)
                },
            },
    {
        assert(length & 0xfff == length % 4096) by (bit_vector);
        if length & 0xfff != 0 {
            return Err(MemMapError::UnmapNotPageMultiple);
        }
        if addr.0 >= U || addr.0 + length > U {
            return Err(MemMapError::MapOutOfBounds);
        }
        let unmap_end: u32 = addr.0 + length;
        let ghost s = self@;
        let mut kept: Vec<MemMappedRegion> = Vec::new();
        let mut unmapped: Vec<UnmappedRegion> = Vec::new();
        let mut i: usize = 0;
        while i < self.regions.len()
            invariant
                self@ == s,
                regions_wf(s),
                i <= s.len(),
                unmap_end == addr.0 + length,
                unmap_offsets_ok(s, addr.0 as int, unmap_end as int),
                kept@ == unmap_regions(s.take(i as int), addr.0 as int, unmap_end as int),
                unmapped@ == unmapped_regions(s.take(i as int), addr.0 as int, unmap_end as int),
            decreases s.len() - i,
        {
            let ghost t = s.take(i + 1);
            assert(t.drop_last() =~= s.take(i as int));
            assert(t.last() == s[i as int]);
            let region = self.regions[i];
            let region_range = region.get_address_range();
            let ghost kept_before = kept@;
            let ghost unmapped_before = unmapped@;
            if region_range.start.0 < unmap_end && region_range.end.0 > addr.0 {
                let intersection_start = if region_range.start.0 >= addr.0 { region_range.start.0 } else { addr.0 };
                let intersection_end = if region_range.end.0 <= unmap_end { region_range.end.0 } else { unmap_end };
                let intersection_size = intersection_end - intersection_start;
                let local_offset = intersection_start - region_range.start.0;
                if intersection_size > 0 {
                    assert(unmap_touches(s[i as int], addr.0 as int, unmap_end as int));
                    let kind = match region.backed_by {
                        MemoryBacking::Direct(paddr) => UnmappedRegionKind::Direct(PhysicalAddress::new(paddr.0 + local_offset)),
                        MemoryBacking::FreeMemory => UnmappedRegionKind::FreeMemory,
                        MemoryBacking::IsaDma => UnmappedRegionKind::FreeMemory,
                        MemoryBacking::FileBacked { driver_id, mapping_token, offset_in_file, shared } => UnmappedRegionKind::FileBacked {
                            driver_id,
                            mapping_token,
                            offset_in_file: offset_in_file + local_offset,
                            shared,
                        },
                    };
                    unmapped.push(UnmappedRegion { address: VirtualAddress::new(intersection_start), size: intersection_size, kind });
                }
                if region_range.start.0 < addr.0 {
                    kept.push(MemMappedRegion { address: region_range.start, size: addr.0 - region_range.start.0, backed_by: region.backed_by });
                }
                if region_range.end.0 > unmap_end {
                    let tail_offset = unmap_end - region_range.start.0;
                    let backed_by = match region.backed_by {
                        MemoryBacking::Direct(paddr) => MemoryBacking::Direct(PhysicalAddress::new(paddr.0 + tail_offset)),
                        MemoryBacking::FileBacked { driver_id, mapping_token, offset_in_file, shared } => MemoryBacking::FileBacked {
                            driver_id,
                            mapping_token,
                            offset_in_file: offset_in_file + tail_offset,
                            shared,
                        },
                        other => other,
                    };
                    kept.push(MemMappedRegion {
                        address: VirtualAddress::new(unmap_end),
                        size: region_range.end.0 - unmap_end,
                        backed_by,
                    });
                }
            } else {
                kept.push(region);
            }
            assert(kept@ =~= kept_before + remaining_pieces(region, addr.0 as int, unmap_end as int));
            assert(unmapped@ =~= unmapped_before + unmapped_piece(region, addr.0 as int, unmap_end as int));
            i = i + 1;
        }
        assert(s.take(s.len() as int) =~= s);
        proof {
            lemma_unmap_regions_wf(s, addr.0 as int, unmap_end as int);
        }
        self.regions = kept;
        Ok(unmapped)
    }

    /// Checks if the specified range can fit without overlapping any
    /// currently mapped regions.
    fn can_fit_range(&self, range: Range<VirtualAddress>) -> (r: bool)
        requires
            self.wf(),
            range.start.0 < range.end.0,
            forall|i: int| 0 <= i < self@.len() ==> (#[trigger] self@[i]).size + (range.end.0 - range.start.0) <= u32::MAX,
        ensures
            r == range_free(self@, range.start.0 as int, range.end.0 as int),
    {
        let mut i: usize = 0;
        while i < self.regions.len()
            invariant
                self.wf(),
                i <= self@.len(),
                range.start.0 < range.end.0,
                forall|k: int| 0 <= k < self@.len() ==> (#[trigger] self@[k]).size + (range.end.0 - range.start.0) <= u32::MAX,
                forall|j: int| 0 <= j < i ==> !touches(#[trigger] self@[j], range.start.0 as int, range.end.0 as int),
            decreases self@.len() - i,
        {
            let mapping_range = self.regions[i].get_address_range();
            assert(self@[i as int].size + (range.end.0 - range.start.0) <= u32::MAX);
            if ranges_overlap(&mapping_range, &range) {
                return false;
            }
            i = i + 1;
        }
        true
    }
}

} // verus!
