use yzos_core::frame_allocator::{Region, SimpleFrameAllocator};
use yzos_core::vm::{size_level, KernelHeapAllocator, LEVEL_NUM};

fn heap() -> KernelHeapAllocator {
    let mut fa = SimpleFrameAllocator::new();
    fa.register_region(Region::new(2066, 2000, 0x1000));
    KernelHeapAllocator::new(fa, 4)
}

#[test]
fn classes_are_filled_from_their_blocks() {
    let h = heap();
    for c in 0..LEVEL_NUM {
        assert_eq!(h.free_objects(c), 4 * 4096 / size_level(c));
    }
    assert_eq!(size_level(0), 32);
    assert_eq!(size_level(7), 4096);
}

#[test]
fn malloc_takes_the_smallest_class_that_fits() {
    let mut h = heap();
    let a = h.malloc(20);
    assert_eq!(a, 16654304);
    assert_eq!(h.free_objects(0), 511);
    let b = h.malloc(32);
    assert_eq!(b, a - 32);
    let c = h.malloc(33);
    assert_ne!(c, 0);
    assert_eq!(h.free_objects(1), 255);
    let d = h.malloc(4096);
    assert_ne!(d, 0);
    assert_eq!(h.free_objects(7), 3);
}

#[test]
fn oversized_request_is_null() {
    let mut h = heap();
    assert_eq!(h.malloc(4097), 0);
    h.free(1234, 5000);
    for c in 0..LEVEL_NUM {
        assert_eq!(h.free_objects(c), 4 * 4096 / size_level(c));
    }
}

#[test]
fn free_then_malloc_reuses_the_slot() {
    let mut h = heap();
    let a = h.malloc(100);
    let regions_free = h.get_frame_allocator().region(0).free_frame_num();
    h.free(a, 100);
    assert_eq!(h.malloc(120), a);
    assert_eq!(h.get_frame_allocator().region(0).free_frame_num(), regions_free);
}

#[test]
fn used_up_class_gives_null() {
    let mut h = heap();
    for _ in 0..4 {
        assert_ne!(h.malloc(4000), 0);
    }
    assert_eq!(h.malloc(4000), 0);
    assert_ne!(h.malloc(2000), 0);
}

#[test]
fn object_addresses_are_never_null() {
    let mut h = heap();
    for _ in 0..512 {
        assert_ne!(h.malloc(32), 0);
    }
    assert_eq!(h.malloc(32), 0);
}

#[test]
fn freeing_twice_hands_the_slot_out_once() {
    let mut h = heap();
    let a = h.malloc(32);
    assert!(!h.is_free(a));
    h.free(a, 32);
    assert!(h.is_free(a));
    h.free(a, 32);
    h.free(0, 32);
    assert_eq!(h.free_objects(0), 512);
    assert_eq!(h.malloc(32), a);
    assert_ne!(h.malloc(32), a);
}
