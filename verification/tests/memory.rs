use idos_task::address::{PhysicalAddress, VirtualAddress};
use idos_task::memory::{ranges_overlap, MappedMemory, MemMapError, MemoryBacking, UnmappedRegionKind};
use idos_task::files::{DriverID, DriverMappingToken};

#[test]
fn overlapping_ranges() {
    assert!(!ranges_overlap(
        &(VirtualAddress::new(0x100)..VirtualAddress::new(0x200)),
        &(VirtualAddress::new(0x300)..VirtualAddress::new(0x400)),
    ));
    assert!(!ranges_overlap(
        &(VirtualAddress::new(0x100)..VirtualAddress::new(0x200)),
        &(VirtualAddress::new(0x200)..VirtualAddress::new(0x400)),
    ));
    assert!(ranges_overlap(
        &(VirtualAddress::new(0x100)..VirtualAddress::new(0x200)),
        &(VirtualAddress::new(0x1ff)..VirtualAddress::new(0x400)),
    ));
    assert!(ranges_overlap(
        &(VirtualAddress::new(0x100)..VirtualAddress::new(0x300)),
        &(VirtualAddress::new(0x200)..VirtualAddress::new(0x220)),
    ));
    assert!(ranges_overlap(
        &(VirtualAddress::new(0x100)..VirtualAddress::new(0x300)),
        &(VirtualAddress::new(0x200)..VirtualAddress::new(0x400)),
    ));
}

#[test]
fn explicit_mmap() {
    let mut regions = MappedMemory::<0xc000_0000>::new();
    assert_eq!(
        regions.map_memory(Some(VirtualAddress::new(0x4000)), 0x1000, MemoryBacking::FreeMemory).unwrap(),
        VirtualAddress::new(0x4000),
    );
    assert_eq!(
        regions.map_memory(Some(VirtualAddress::new(0x6000)), 0x2000, MemoryBacking::FreeMemory).unwrap(),
        VirtualAddress::new(0x6000),
    );
    // 0x5000 with size 0x2000 overlaps both existing regions; the nearest
    // available space is right after the 0x6000..0x8000 region
    assert_eq!(
        regions.map_memory(Some(VirtualAddress::new(0x5000)), 0x2000, MemoryBacking::FreeMemory).unwrap(),
        VirtualAddress::new(0x8000),
    );
}

#[test]
fn auto_allocated_mmap() {
    let mut regions = MappedMemory::<0xc000_0000>::new();
    assert_eq!(
        regions.map_memory(None, 0x1000, MemoryBacking::FreeMemory).unwrap(),
        VirtualAddress::new(0xbffff000),
    );
    assert_eq!(
        regions.map_memory(None, 0x400, MemoryBacking::FreeMemory).unwrap(),
        VirtualAddress::new(0xbfffe000),
    );
}

#[test]
fn unmapping() {
    let mut regions = MappedMemory::<0xc000_0000>::new();
    regions.map_memory(Some(VirtualAddress::new(0x4000)), 0x3000, MemoryBacking::FreeMemory).unwrap();
    let unmapped = regions.unmap_memory(VirtualAddress::new(0x5000), 0x1000).unwrap();
    assert_eq!(unmapped.len(), 1);
    assert_eq!(unmapped[0].address, VirtualAddress::new(0x5000));
    assert_eq!(unmapped[0].size, 0x1000);
    assert_eq!(regions.len(), 2);
    let first = regions.get_mapping_containing_address(&VirtualAddress::new(0x4000)).unwrap();
    assert_eq!(first.address, VirtualAddress::new(0x4000));
    assert_eq!(first.size, 0x1000);
    let second = regions.get_mapping_containing_address(&VirtualAddress::new(0x6000)).unwrap();
    assert_eq!(second.address, VirtualAddress::new(0x6000));
    assert_eq!(second.size, 0x1000);
}

#[test]
fn map_errors() {
    let mut regions = MappedMemory::<0xc000_0000>::new();
    assert_eq!(regions.map_memory(None, 0, MemoryBacking::FreeMemory), Err(MemMapError::InvalidSize));
    assert_eq!(
        regions.map_memory(Some(VirtualAddress::new(0x4001)), 0x1000, MemoryBacking::FreeMemory),
        Err(MemMapError::MappingWrongAlignment)
    );
    assert_eq!(regions.len(), 0);
}

#[test]
fn unmap_errors() {
    let mut regions = MappedMemory::<0xc000_0000>::new();
    regions.map_memory(Some(VirtualAddress::new(0x4000)), 0x1000, MemoryBacking::FreeMemory).unwrap();
    assert_eq!(regions.unmap_memory(VirtualAddress::new(0x4000), 0x800), Err(MemMapError::UnmapNotPageMultiple));
    assert_eq!(regions.unmap_memory(VirtualAddress::new(0xc000_0000), 0x1000), Err(MemMapError::MapOutOfBounds));
    assert_eq!(regions.unmap_memory(VirtualAddress::new(0xbfff_f000), 0x2000), Err(MemMapError::MapOutOfBounds));
    assert_eq!(regions.len(), 1);
}

#[test]
fn unmapping_reports_backing_offsets() {
    let mut regions = MappedMemory::<0xc000_0000>::new();
    let file = MemoryBacking::FileBacked {
        driver_id: DriverID::new(3),
        mapping_token: DriverMappingToken::new(9),
        offset_in_file: 0x100,
        shared: true,
    };
    regions.map_memory(Some(VirtualAddress::new(0x10000)), 0x3000, file).unwrap();
    regions
        .map_memory(Some(VirtualAddress::new(0x20000)), 0x2000, MemoryBacking::Direct(PhysicalAddress::new(0xb8000)))
        .unwrap();
    let unmapped = regions.unmap_memory(VirtualAddress::new(0x11000), 0x10000).unwrap();
    assert_eq!(unmapped.len(), 2);
    assert_eq!(unmapped[0].address, VirtualAddress::new(0x11000));
    assert_eq!(unmapped[0].size, 0x2000);
    assert_eq!(
        unmapped[0].kind,
        UnmappedRegionKind::FileBacked {
            driver_id: DriverID::new(3),
            mapping_token: DriverMappingToken::new(9),
            offset_in_file: 0x1100,
            shared: true,
        }
    );
    assert_eq!(unmapped[1].address, VirtualAddress::new(0x20000));
    assert_eq!(unmapped[1].size, 0x1000);
    assert_eq!(unmapped[1].kind, UnmappedRegionKind::Direct(PhysicalAddress::new(0xb8000)));
    // what is left: the first page of the file mapping, the second page of the direct one
    assert_eq!(regions.len(), 2);
    let left = regions.get_mapping_containing_address(&VirtualAddress::new(0x21000)).unwrap();
    assert_eq!(left.address, VirtualAddress::new(0x21000));
    assert_eq!(left.backed_by, MemoryBacking::Direct(PhysicalAddress::new(0xb9000)));
    assert!(regions.get_mapping_containing_address(&VirtualAddress::new(0x11000)).is_none());
}

#[test]
fn the_part_above_an_unmapped_range_keeps_its_own_frames() {
    let mut regions = MappedMemory::<0xc000_0000>::new();
    regions
        .map_memory(Some(VirtualAddress::new(0x4000)), 0x3000, MemoryBacking::Direct(PhysicalAddress::new(0x10000)))
        .unwrap();
    let unmapped = regions.unmap_memory(VirtualAddress::new(0x5000), 0x1000).unwrap();
    assert_eq!(unmapped[0].kind, UnmappedRegionKind::Direct(PhysicalAddress::new(0x11000)));
    let below = regions.get_mapping_containing_address(&VirtualAddress::new(0x4000)).unwrap();
    assert_eq!(below.backed_by, MemoryBacking::Direct(PhysicalAddress::new(0x10000)));
    let above = regions.get_mapping_containing_address(&VirtualAddress::new(0x6000)).unwrap();
    assert_eq!(above.backed_by, MemoryBacking::Direct(PhysicalAddress::new(0x12000)));
}

#[test]
fn an_explicit_address_past_the_bound_is_not_taken() {
    let mut regions = MappedMemory::<0xc000_0000>::new();
    let placed = regions.map_memory(Some(VirtualAddress::new(0xc000_0000)), 0x1000, MemoryBacking::FreeMemory).unwrap();
    assert_eq!(placed, VirtualAddress::new(0xbfff_f000));
    let placed = regions.map_memory(Some(VirtualAddress::new(0xbfff_f000)), 0x2000, MemoryBacking::FreeMemory).unwrap();
    assert_eq!(placed, VirtualAddress::new(0xbfffd000));
}

#[test]
fn region_queries() {
    let mut regions = MappedMemory::<0xc000_0000>::new();
    regions.map_memory(Some(VirtualAddress::new(0x8000)), 0x1800, MemoryBacking::FreeMemory).unwrap();
    let r = regions.get_mapping_containing_address(&VirtualAddress::new(0x9000)).unwrap();
    assert_eq!(r.page_count(), 2);
    assert!(r.contains_address(&VirtualAddress::new(0x97ff)));
    // past the size, though still in the last page
    assert!(!r.contains_address(&VirtualAddress::new(0x9800)));
    assert!(regions.get_mapping_containing_address(&VirtualAddress::new(0x9800)).is_none());
    assert_eq!(r.get_address_range(), VirtualAddress::new(0x8000)..VirtualAddress::new(0x9800));
}

#[test]
fn find_space_from_the_top() {
    let mut regions = MappedMemory::<0xc000_0000>::new();
    regions.map_memory(Some(VirtualAddress::new(0xbfffe000)), 0x2000, MemoryBacking::FreeMemory).unwrap();
    assert_eq!(regions.find_free_mapping_space(0x1000), Some(VirtualAddress::new(0xbfffd000)));
}

#[test]
fn regions_changed_in_place() {
    let mut regions = MappedMemory::<0xc000_0000>::new();
    regions.map_memory(Some(VirtualAddress::new(0x1000)), 0x2000, MemoryBacking::FreeMemory).unwrap();
    let region = regions.get_mut_mapping_containing_address(&VirtualAddress::new(0x2fff)).unwrap();
    assert_eq!(region.address, VirtualAddress::new(0x1000));
    region.backed_by = MemoryBacking::IsaDma;
    assert_eq!(
        regions.get_mapping_containing_address(&VirtualAddress::new(0x1000)).unwrap().backed_by,
        MemoryBacking::IsaDma
    );
    assert!(regions.get_mut_mapping_containing_address(&VirtualAddress::new(0x3000)).is_none());
    assert_eq!(
        regions.replace_backing(&VirtualAddress::new(0x1800), MemoryBacking::FreeMemory),
        Some(MemoryBacking::IsaDma)
    );
    assert_eq!(regions.replace_backing(&VirtualAddress::new(0x9000), MemoryBacking::FreeMemory), None);
}
