use idos_task::slab::{class_index, SlabAllocator, SlabStep};

#[test]
fn size_classes() {
    assert_eq!(class_index(1), Some(0));
    assert_eq!(class_index(32), Some(0));
    assert_eq!(class_index(33), Some(1));
    assert_eq!(class_index(1024), Some(5));
    assert_eq!(class_index(1025), None);
}

#[test]
fn small_blocks_come_from_slabs() {
    let mut a = SlabAllocator::new();
    assert_eq!(a.allocate(10, 8), SlabStep::MapPages(0x1000));
    assert_eq!(a.mapped(Some(0x1000_0000)), SlabStep::Done(0x1000_0020));
    assert_eq!(a.allocate(10, 8), SlabStep::Done(0x1000_0040));
    assert_eq!(a.dealloc(0x1000_0020, 10, 8), SlabStep::Done(0));
    // the slot freed last is handed out first
    assert_eq!(a.allocate(20, 4), SlabStep::Done(0x1000_0020));
    assert_eq!(a.dealloc(0, 10, 8), SlabStep::Done(0));
}

#[test]
fn a_failed_mapping_gives_nothing() {
    let mut a = SlabAllocator::new();
    assert_eq!(a.allocate(100, 8), SlabStep::MapPages(0x1000));
    assert_eq!(a.mapped(None), SlabStep::Done(0));
    assert_eq!(a.mapped(None), SlabStep::Done(0));
}

#[test]
fn large_blocks_take_pages_that_are_kept_for_reuse() {
    let mut a = SlabAllocator::new();
    // a first small block makes the smallest class's slab, where records live
    assert_eq!(a.allocate(8, 8), SlabStep::MapPages(0x1000));
    assert_eq!(a.mapped(Some(0x1000_0000)), SlabStep::Done(0x1000_0020));
    // a large block is mapped whole pages at a time
    assert_eq!(a.allocate(5000, 8), SlabStep::MapPages(0x2000));
    assert_eq!(a.mapped(Some(0x2000_0000)), SlabStep::Done(0x2000_0000));
    // freeing it keeps its pages
    assert_eq!(a.dealloc(0x2000_0000, 5000, 8), SlabStep::Done(0));
    // a new slab takes the first of them
    assert_eq!(a.allocate(100, 8), SlabStep::Done(0x2000_0080));
    // and a block of one page takes the other
    assert_eq!(a.allocate(3000, 4096), SlabStep::Done(0x2000_1000));
    // nothing is left to reuse
    assert_eq!(a.allocate(2000, 2048), SlabStep::MapPages(0x1000));
}

#[test]
fn unknown_large_pointers_are_ignored() {
    let mut a = SlabAllocator::new();
    assert_eq!(a.dealloc(0x3000_0000, 8192, 8), SlabStep::Done(0));
}

#[test]
fn a_freed_large_block_is_taken_again_before_new_pages() {
    let mut a = SlabAllocator::new();
    assert_eq!(a.allocate(8, 8), SlabStep::MapPages(0x1000));
    assert_eq!(a.mapped(Some(0x1000_0000)), SlabStep::Done(0x1000_0020));
    assert_eq!(a.allocate(5000, 8), SlabStep::MapPages(0x2000));
    assert_eq!(a.mapped(Some(0x2000_0000)), SlabStep::Done(0x2000_0000));
    assert_eq!(a.dealloc(0x2000_0000, 5000, 8), SlabStep::Done(0));
    // the same size fits the pages just freed
    assert_eq!(a.allocate(5000, 8), SlabStep::Done(0x2000_0000));
    // a larger block needs fresh pages
    assert_eq!(a.allocate(9000, 8), SlabStep::MapPages(0x3000));
}
