use idos_task::heap::{Heap, MallocStep, ReallocStep, HEAP_START_HINT};

fn must_map(step: MallocStep) -> (u32, u32, u32) {
    match step {
        MallocStep::NeedPages { hint, size, req } => (hint, size, req),
        MallocStep::Done(_) => panic!("expected a request for pages"),
    }
}

fn done(step: MallocStep) -> Option<u32> {
    match step {
        MallocStep::Done(p) => p,
        MallocStep::NeedPages { .. } => panic!("expected a result"),
    }
}

#[test]
fn first_request_asks_for_pages_near_the_hint() {
    let mut heap = Heap::new();
    assert_eq!(done(heap.malloc(0)), None);
    let (hint, size, req) = must_map(heap.malloc(10));
    assert_eq!((hint, size, req), (HEAP_START_HINT, 4096, 16));
    assert_eq!(heap.grow(req, size, Some(0x8000_0000)), Some(0x8000_0008));
    // the rest of the page stays free, after the block and its header
    let p = done(heap.malloc(100));
    assert_eq!(p, Some(0x8000_0008 + 16 + 8));
    let (hint, _, _) = must_map(heap.malloc(8000));
    assert_eq!(hint, 0x8000_1000);
}

#[test]
fn freed_blocks_are_reused_and_joined() {
    let mut heap = Heap::new();
    let (_, size, req) = must_map(heap.malloc(24));
    let a = heap.grow(req, size, Some(0x1000_0000)).unwrap();
    let b = done(heap.malloc(24)).unwrap();
    let c = done(heap.malloc(24)).unwrap();
    assert_eq!((a, b, c), (0x1000_0008, 0x1000_0028, 0x1000_0048));
    heap.free(a);
    heap.free(b);
    // a and b, with b's header, are one block of 24 + 8 + 24 bytes again
    assert_eq!(done(heap.malloc(56)), Some(a));
    heap.free(0);
}

#[test]
fn a_mapping_failure_gives_nothing() {
    let mut heap = Heap::new();
    let (_, size, req) = must_map(heap.malloc(64));
    assert_eq!(heap.grow(req, size, None), None);
}

#[test]
fn calloc_and_realloc() {
    let mut heap = Heap::new();
    assert_eq!(done(heap.calloc(0, 8)), None);
    assert_eq!(done(heap.calloc(0x1_0000, 0x1_0000)), None);
    let (_, size, req) = must_map(heap.calloc(4, 8));
    assert_eq!(req, 32);
    let p = heap.grow(req, size, Some(0x2000_0000)).unwrap();
    assert!(matches!(heap.realloc(p, 20), ReallocStep::Done(Some(q)) if q == p));
    assert!(matches!(heap.realloc(p, 100), ReallocStep::Move { old_size: 32 }));
    assert!(matches!(heap.realloc(0, 10), ReallocStep::Allocate(MallocStep::Done(Some(_)))));
    assert!(matches!(heap.realloc(p, 0), ReallocStep::Done(None)));
}
