use idos_task::address::{PhysicalAddress, VirtualAddress};
use idos_task::files::{DriverID, DriverMappingToken};
use idos_task::frames::{get_file_backed_page, FilePageTracker, FrameTracker};
use idos_task::memory::{MemMappedRegion, MemoryBacking};
use idos_task::paging::{
    complete_file_page, create_page_directory, current_pagedir_map, current_pagedir_map_explicit,
    current_pagedir_unmap, get_current_physical_address, get_flags_for_region, maybe_get_current_physical_address,
    page_on_demand, AllocatedFrame, PageFault, PermissionFlags, PhysicalMemory,
};
use idos_task::state::TaskMemory;

fn setup() -> (PhysicalMemory, PhysicalAddress) {
    let mut mem = PhysicalMemory::new(0x100000, 0x180000);
    let dir = mem.new_directory().unwrap();
    (mem, dir)
}

fn user_rw() -> PermissionFlags {
    PermissionFlags::new(PermissionFlags::USER_ACCESS | PermissionFlags::WRITE_ACCESS)
}

#[test]
fn new_directory_maps_itself() {
    let (mem, dir) = setup();
    assert_eq!(dir, PhysicalAddress::new(0x100000));
    assert_eq!(mem.read_entry(0x100000, 1023), 0x100001);
    assert_eq!(mem.read_entry(0x100000, 0), 0);
    assert_eq!(mem.read_entry(0x100000, 768), 0);
}

#[test]
fn permission_flags() {
    let flags = PermissionFlags::new(PermissionFlags::USER_ACCESS | PermissionFlags::NO_RECLAIM);
    assert!(flags.has_flag(PermissionFlags::USER_ACCESS));
    assert!(!flags.has_flag(PermissionFlags::WRITE_ACCESS));
    assert!(flags.has_flag(PermissionFlags::WRITE_ACCESS | PermissionFlags::NO_RECLAIM));
    assert_eq!(flags.as_u8(), 5);
    assert_eq!(PermissionFlags::empty().as_u8(), 0);
}

#[test]
fn map_then_translate() {
    let (mut mem, dir) = setup();
    current_pagedir_map_explicit(&mut mem, dir, PhysicalAddress::new(0x5000), VirtualAddress::new(0x400000), user_rw());
    // the table for the second 4 MiB took the next frame
    assert_eq!(mem.read_entry(0x100000, 1), 0x101000 | 0x7);
    assert_eq!(mem.read_entry(0x101000, 0), 0x5000 | 0x7);
    assert_eq!(
        maybe_get_current_physical_address(&mem, dir, VirtualAddress::new(0x400123)),
        Some(PhysicalAddress::new(0x5123))
    );
    assert_eq!(maybe_get_current_physical_address(&mem, dir, VirtualAddress::new(0x401000)), None);
    assert_eq!(maybe_get_current_physical_address(&mem, dir, VirtualAddress::new(0x123)), None);
    // a second page in the same 4 MiB reuses the table
    let frame = AllocatedFrame::new(PhysicalAddress::new(0x9000));
    assert_eq!(
        current_pagedir_map(&mut mem, dir, frame, VirtualAddress::new(0x402000), PermissionFlags::empty()),
        PhysicalAddress::new(0x9000)
    );
    assert_eq!(mem.read_entry(0x101000, 2), 0x9001);
    assert_eq!(mem.allocate_frame(), Some(AllocatedFrame::new(PhysicalAddress::new(0x102000))));
}

#[test]
fn kernel_tables_are_not_user_accessible() {
    let (mut mem, dir) = setup();
    current_pagedir_map_explicit(&mut mem, dir, PhysicalAddress::new(0x7000), VirtualAddress::new(0xc0001000), PermissionFlags::empty());
    assert_eq!(mem.read_entry(0x100000, 768), 0x101001);
    assert_eq!(mem.read_entry(0x101000, 1), 0x7001);
}

#[test]
fn unmap_then_translate() {
    let (mut mem, dir) = setup();
    current_pagedir_map_explicit(&mut mem, dir, PhysicalAddress::new(0x5000), VirtualAddress::new(0x3000), user_rw());
    assert_eq!(
        current_pagedir_unmap(&mut mem, dir, VirtualAddress::new(0x3abc)),
        Some(AllocatedFrame::new(PhysicalAddress::new(0x5000)))
    );
    assert_eq!(maybe_get_current_physical_address(&mem, dir, VirtualAddress::new(0x3000)), None);
    // the entry keeps its address and flags, without the present bit
    assert_eq!(mem.read_entry(0x101000, 3), 0x5006);
    assert_eq!(current_pagedir_unmap(&mut mem, dir, VirtualAddress::new(0x3000)), None);
    assert_eq!(current_pagedir_unmap(&mut mem, dir, VirtualAddress::new(0x800000)), None);
}

#[test]
fn new_directory_shares_kernel_space() {
    let (mut mem, dir) = setup();
    current_pagedir_map_explicit(&mut mem, dir, PhysicalAddress::new(0x7000), VirtualAddress::new(0xc0000000), PermissionFlags::empty());
    current_pagedir_map_explicit(&mut mem, dir, PhysicalAddress::new(0x8000), VirtualAddress::new(0x1000), user_rw());
    let child = create_page_directory(&mut mem, dir);
    assert_eq!(child, PhysicalAddress::new(0x103000));
    assert_eq!(mem.read_entry(0x103000, 768), mem.read_entry(0x100000, 768));
    assert_eq!(mem.read_entry(0x103000, 0), 0);
    assert_eq!(mem.read_entry(0x103000, 1023), 0x103001);
    assert_eq!(
        maybe_get_current_physical_address(&mem, child, VirtualAddress::new(0xc0000010)),
        Some(PhysicalAddress::new(0x7010))
    );
    assert_eq!(maybe_get_current_physical_address(&mem, child, VirtualAddress::new(0x1000)), None);
}

#[test]
fn region_flags() {
    let direct = MemMappedRegion {
        address: VirtualAddress::new(0x1000),
        size: 0x1000,
        backed_by: MemoryBacking::Direct(PhysicalAddress::new(0xb8000)),
    };
    assert_eq!(get_flags_for_region(&direct).as_u8(), 7);
    let shared = MemMappedRegion {
        address: VirtualAddress::new(0x1000),
        size: 0x1000,
        backed_by: MemoryBacking::FileBacked {
            driver_id: DriverID::new(1),
            mapping_token: DriverMappingToken::new(1),
            offset_in_file: 0,
            shared: true,
        },
    };
    assert_eq!(get_flags_for_region(&shared).as_u8(), 1);
    let free = MemMappedRegion { address: VirtualAddress::new(0x1000), size: 0x1000, backed_by: MemoryBacking::FreeMemory };
    assert_eq!(get_flags_for_region(&free).as_u8(), 3);
}

#[test]
fn fault_outside_any_mapping() {
    let (mut mem, dir) = setup();
    let mut frames = FrameTracker::new();
    let files = FilePageTracker::new();
    let mapping = TaskMemory::new();
    assert_eq!(
        page_on_demand(&mut mem, dir, &mut frames, &files, &mapping, VirtualAddress::new(0x5000)),
        PageFault::NotMapped
    );
}

#[test]
fn fault_in_free_memory() {
    let (mut mem, dir) = setup();
    let mut frames = FrameTracker::new();
    let files = FilePageTracker::new();
    let mut mapping = TaskMemory::new();
    mapping.map_memory(Some(VirtualAddress::new(0x10000)), 0x2000, MemoryBacking::FreeMemory).unwrap();
    let r = page_on_demand(&mut mem, dir, &mut frames, &files, &mapping, VirtualAddress::new(0x11234));
    assert_eq!(r, PageFault::Resolved(PhysicalAddress::new(0x101234)));
    assert_eq!(
        maybe_get_current_physical_address(&mem, dir, VirtualAddress::new(0x11ff0)),
        Some(PhysicalAddress::new(0x101ff0))
    );
    // the frame is counted once; releasing it frees it
    assert!(frames.release_tracked_frame(PhysicalAddress::new(0x101000)));
    // once mapped, the address resolves without a new frame
    assert_eq!(
        get_current_physical_address(&mut mem, dir, &mut frames, &files, &mapping, VirtualAddress::new(0x11000)),
        PageFault::Resolved(PhysicalAddress::new(0x101000))
    );
}

#[test]
fn fault_in_dma_region_maps_every_page() {
    let (mut mem, dir) = setup();
    let mut frames = FrameTracker::new();
    let files = FilePageTracker::new();
    let mut mapping = TaskMemory::new();
    mapping.map_memory(Some(VirtualAddress::new(0x20000)), 0x3000, MemoryBacking::IsaDma).unwrap();
    let r = page_on_demand(&mut mem, dir, &mut frames, &files, &mapping, VirtualAddress::new(0x21010));
    assert_eq!(r, PageFault::Resolved(PhysicalAddress::new(0x102010)));
    assert_eq!(
        maybe_get_current_physical_address(&mem, dir, VirtualAddress::new(0x20000)),
        Some(PhysicalAddress::new(0x101000))
    );
    assert_eq!(
        maybe_get_current_physical_address(&mem, dir, VirtualAddress::new(0x22fff)),
        Some(PhysicalAddress::new(0x103fff))
    );
    // the table took the frame after the three DMA frames
    assert_eq!(mem.read_entry(0x100000, 0), 0x104007);
}

fn file_region(shared: bool) -> MemoryBacking {
    MemoryBacking::FileBacked {
        driver_id: DriverID::new(4),
        mapping_token: DriverMappingToken::new(2),
        offset_in_file: 0x2000,
        shared,
    }
}

#[test]
fn fault_in_private_file_mapping() {
    let (mut mem, dir) = setup();
    let mut frames = FrameTracker::new();
    let mut files = FilePageTracker::new();
    let mut mapping = TaskMemory::new();
    mapping.map_memory(Some(VirtualAddress::new(0x30000)), 0x2000, file_region(false)).unwrap();
    let read = match page_on_demand(&mut mem, dir, &mut frames, &files, &mapping, VirtualAddress::new(0x31008)) {
        PageFault::ReadFile(read) => read,
        other => panic!("expected a file read, got {:?}", other),
    };
    assert_eq!(read.offset_in_file, 0x3000);
    assert_eq!(read.page, VirtualAddress::new(0x31000));
    assert_eq!(read.local_offset, 8);
    assert_eq!(read.frame, AllocatedFrame::new(PhysicalAddress::new(0x101000)));
    assert_eq!(read.flags.as_u8(), 3);
    // not mapped until the file has been read
    assert_eq!(maybe_get_current_physical_address(&mem, dir, VirtualAddress::new(0x31008)), None);
    let done = complete_file_page(&mut mem, dir, &mut frames, &mut files, read, true);
    assert_eq!(done, Some(PhysicalAddress::new(0x101008)));
    assert_eq!(
        maybe_get_current_physical_address(&mem, dir, VirtualAddress::new(0x31008)),
        Some(PhysicalAddress::new(0x101008))
    );
    // a private page is not shared
    assert_eq!(get_file_backed_page(&files, DriverID::new(4), DriverMappingToken::new(2), 0x3000), None);
}

#[test]
fn shared_file_page_is_reused() {
    let (mut mem, dir) = setup();
    let mut frames = FrameTracker::new();
    let mut files = FilePageTracker::new();
    let mut mapping = TaskMemory::new();
    mapping.map_memory(Some(VirtualAddress::new(0x30000)), 0x1000, file_region(true)).unwrap();
    let read = match page_on_demand(&mut mem, dir, &mut frames, &files, &mapping, VirtualAddress::new(0x30010)) {
        PageFault::ReadFile(read) => read,
        other => panic!("expected a file read, got {:?}", other),
    };
    assert_eq!(read.flags.as_u8(), 1);
    assert_eq!(complete_file_page(&mut mem, dir, &mut frames, &mut files, read, true), Some(PhysicalAddress::new(0x101010)));
    assert_eq!(
        get_file_backed_page(&files, DriverID::new(4), DriverMappingToken::new(2), 0x2000),
        Some(PhysicalAddress::new(0x101000))
    );
    // another task maps the same page of the same file
    let other_dir = create_page_directory(&mut mem, dir);
    let mut other = TaskMemory::new();
    other.map_memory(Some(VirtualAddress::new(0x50000)), 0x1000, file_region(true)).unwrap();
    let r = page_on_demand(&mut mem, other_dir, &mut frames, &files, &other, VirtualAddress::new(0x50020));
    assert_eq!(r, PageFault::Resolved(PhysicalAddress::new(0x101020)));
    // two references now: the first release keeps the frame
    assert!(!frames.release_tracked_frame(PhysicalAddress::new(0x101000)));
    assert!(frames.release_tracked_frame(PhysicalAddress::new(0x101000)));
}

#[test]
fn failed_file_read_gives_frame_back() {
    let (mut mem, dir) = setup();
    let mut frames = FrameTracker::new();
    let mut files = FilePageTracker::new();
    let mut mapping = TaskMemory::new();
    mapping.map_memory(Some(VirtualAddress::new(0x30000)), 0x1000, file_region(true)).unwrap();
    let read = match page_on_demand(&mut mem, dir, &mut frames, &files, &mapping, VirtualAddress::new(0x30000)) {
        PageFault::ReadFile(read) => read,
        other => panic!("expected a file read, got {:?}", other),
    };
    assert_eq!(complete_file_page(&mut mem, dir, &mut frames, &mut files, read, false), None);
    assert_eq!(maybe_get_current_physical_address(&mem, dir, VirtualAddress::new(0x30000)), None);
    assert_eq!(get_file_backed_page(&files, DriverID::new(4), DriverMappingToken::new(2), 0x2000), None);
    // no reference is left to the frame
    assert!(frames.release_tracked_frame(PhysicalAddress::new(0x101000)));
}

#[test]
fn allocator_runs_out() {
    let mut mem = PhysicalMemory::new(0x1000, 0x3000);
    assert_eq!(mem.allocate_frame(), Some(AllocatedFrame::new(PhysicalAddress::new(0x1000))));
    assert_eq!(mem.allocate_frames(2), None);
    assert_eq!(mem.allocate_frames(1), Some(AllocatedFrame::new(PhysicalAddress::new(0x2000))));
    assert_eq!(mem.allocate_frame(), None);
    assert_eq!(mem.new_directory(), None);
}
