use yzos_core::data_structures::{FrameFlags, FrameInfo, LinkedList, LinkedListNode};
use yzos_core::frame_allocator::{
    align_to, is_free_buddy_frame, level_size, required_frame_num, Region, SimpleFrameAllocator,
    MAX_LEVEL,
};
use yzos_core::memory::phys2virt;
use yzos_core::{floor_log2, is_power2};

fn lens(r: &Region) -> Vec<usize> {
    (0..MAX_LEVEL).map(|l| r.free_list_len(l)).collect()
}

fn free_frames_on_lists(r: &Region) -> usize {
    (0..MAX_LEVEL).map(|l| r.free_list_len(l) * level_size(l)).sum()
}

#[test]
fn powers_of_two() {
    assert!(is_power2(1));
    assert!(is_power2(2));
    assert!(is_power2(1024));
    assert!(!is_power2(0));
    assert!(!is_power2(3));
    assert!(!is_power2(6));
    assert!(!is_power2(1023));
    assert_eq!(floor_log2(1), 0);
    assert_eq!(floor_log2(4), 2);
    assert_eq!(floor_log2(1023), 9);
    assert_eq!(floor_log2(1024), 10);
}

#[test]
fn rounding_to_pages() {
    assert_eq!(align_to(0, 4096), 0);
    assert_eq!(align_to(1, 4096), 4096);
    assert_eq!(align_to(4096, 4096), 4096);
    assert_eq!(align_to(4097, 4096), 8192);
    assert_eq!(required_frame_num(33056, 4096), 9);
    assert_eq!(required_frame_num(32768, 4096), 8);
    assert_eq!(phys2virt(0x2000, 0x1000), 0x3000);
}

#[test]
fn frame_record_accessors() {
    let mut f = FrameInfo::new(FrameFlags::free(), 0x5000, 7);
    assert_eq!(f.get_index(), 7);
    assert_eq!(f.get_direct_access(), 0x5000);
    assert_eq!(f.get_level(), 0);
    assert_eq!(f.get_count(), 0);
    f.set_level(3);
    assert_eq!(f.get_level(), 3);
    f.add_flgs(FrameFlags::head());
    assert!(f.get_flgs().contains(FrameFlags::head()));
    assert!(!is_free_buddy_frame(&f, 3));
    f.add_flgs(FrameFlags::dirty());
    assert_eq!(f.get_flgs().bits(), 5);
    f.reset_flgs();
    assert_eq!(f.get_flgs().bits(), 0);
    assert!(is_free_buddy_frame(&f, 3));
    assert!(!is_free_buddy_frame(&f, 2));
    f.set_flgs(FrameFlags::taken());
    assert!(!is_free_buddy_frame(&f, 3));
    f.init(FrameFlags::free(), 0x9000, 11);
    assert_eq!(f.get_index(), 11);
    assert_eq!(f.get_direct_access(), 0x9000);
    assert_eq!(f.get_level(), 0);
}

#[test]
fn list_is_last_in_first_out() {
    let mut l = LinkedList::new();
    assert_eq!(l.pop(), None);
    for v in [5usize, 6, 7, 8, 100] {
        l.append(LinkedListNode::new(None, v));
    }
    assert_eq!(l.size(), 5);
    assert_eq!(l.peek(), Some(100));
    assert!(l.remove(6));
    assert!(l.remove(7));
    assert!(!l.remove(42));
    assert_eq!(l.size(), 3);
    assert_eq!(l.pop(), Some(100));
    assert_eq!(l.pop(), Some(8));
    assert_eq!(l.pop(), Some(5));
    assert_eq!(l.pop(), None);
    let mut n = LinkedListNode::new(Some(3), 9);
    n.init(4);
    assert_eq!(n.next, None);
    assert_eq!(n.content, 4);
}

#[test]
fn fresh_region_of_1024_frames_is_one_top_order_block() {
    let r = Region::new(1033, 0, 0);
    assert_eq!(r.start_frame_idx(), 9);
    assert_eq!(r.size(), 1024);
    assert_eq!(r.free_frame_num(), 1024);
    let mut want = vec![0usize; MAX_LEVEL];
    want[10] = 1;
    assert_eq!(lens(&r), want);
    assert_eq!(r.free_list_head(10), Some(0));
    assert_eq!(r.frame(0).get_index(), 9);
    assert_eq!(r.frame(0).get_level(), 10);
}

#[test]
fn uneven_region_is_laid_out_largest_first() {
    let r = Region::new(1600, 0, 0x1000);
    assert_eq!(r.start_frame_idx(), 13);
    assert_eq!(r.size(), 1587);
    let mut want = vec![0usize; MAX_LEVEL];
    want[10] = 1;
    want[9] = 1;
    want[5] = 1;
    want[4] = 1;
    want[1] = 1;
    want[0] = 1;
    assert_eq!(lens(&r), want);
    assert_eq!(r.free_list_head(9), Some(1024));
    assert_eq!(r.free_list_head(5), Some(1536));
    assert_eq!(r.free_list_head(4), Some(1568));
    assert_eq!(r.free_list_head(1), Some(1584));
    assert_eq!(r.free_list_head(0), Some(1586));
    assert_eq!(r.frame(5).get_direct_access(), (13 + 5) * 4096 + 0x1000);
    assert_eq!(free_frames_on_lists(&r), 1587);
}

#[test]
fn request_four_frames_splits_down_and_retrieve_joins_back() {
    let mut r = Region::new(1033, 0, 0);
    let f = r.request_frames(4).unwrap();
    assert_eq!(f.get_index(), 9 + 1020);
    assert_eq!(f.get_level(), 2);
    assert!(f.get_flgs().contains(FrameFlags::head()));
    assert_eq!(r.free_frame_num(), 1020);
    let mut want = vec![0usize; MAX_LEVEL];
    for l in 2..10 {
        want[l] = 1;
    }
    assert_eq!(lens(&r), want);
    assert_eq!(r.free_list_head(9), Some(0));
    assert_eq!(r.free_list_head(8), Some(512));
    assert_eq!(r.free_list_head(3), Some(1008));
    assert_eq!(r.free_list_head(2), Some(1016));
    r.retrieve_frame(&f);
    let mut back = vec![0usize; MAX_LEVEL];
    back[10] = 1;
    assert_eq!(lens(&r), back);
    assert_eq!(r.free_list_head(10), Some(0));
    assert_eq!(r.free_frame_num(), 1024);
}

#[test]
fn zero_and_non_powers_of_two_are_refused() {
    let mut r = Region::new(1033, 0, 0);
    assert!(r.request_frames(0).is_none());
    assert!(r.request_frames(3).is_none());
    assert!(r.request_frames(6).is_none());
    assert!(r.request_frames(1000).is_none());
    assert!(r.request_frames(2048).is_none());
    assert_eq!(r.free_frame_num(), 1024);
    assert_eq!(r.free_list_len(10), 1);
}

#[test]
fn exhausted_region_refuses() {
    let mut r = Region::new(1033, 0, 0);
    let a = r.request_frames(1024).unwrap();
    assert_eq!(a.get_index(), 9);
    assert!(r.request_frames(1).is_none());
    assert_eq!(r.free_frame_num(), 0);
    r.retrieve_frame(&a);
    assert_eq!(r.free_frame_num(), 1024);
    assert!(r.request_frames(1).is_some());
}

#[test]
fn request_then_retrieve_restores_layout() {
    let mut r = Region::new(1033, 0, 0);
    let first = r.request_frames(4).unwrap();
    let before = lens(&r);
    let heads: Vec<Option<usize>> = (0..MAX_LEVEL).map(|l| r.free_list_head(l)).collect();
    let second = r.request_frames(2).unwrap();
    assert_eq!(second.get_index(), 9 + 1018);
    r.retrieve_frame(&second);
    assert_eq!(lens(&r), before);
    let after: Vec<Option<usize>> = (0..MAX_LEVEL).map(|l| r.free_list_head(l)).collect();
    assert_eq!(after, heads);
    assert_eq!(r.free_frame_num(), 1020);
    r.retrieve_frame(&first);
    assert_eq!(r.free_list_len(10), 1);
}

#[test]
fn split_halves_join_when_both_come_back() {
    let mut r = Region::new(1033, 0, 0);
    assert!(r.split(9));
    assert_eq!(r.free_list_len(9), 2);
    assert_eq!(r.free_list_len(10), 0);
    let upper = r.request_frames(512).unwrap();
    let lower = r.request_frames(512).unwrap();
    assert_eq!(upper.get_index(), 9 + 512);
    assert_eq!(lower.get_index(), 9);
    r.retrieve_frame(&upper);
    assert_eq!(r.free_list_len(9), 1);
    r.retrieve_frame(&lower);
    assert_eq!(r.free_list_len(9), 0);
    assert_eq!(r.free_list_len(10), 1);
    assert_eq!(r.free_list_head(10), Some(0));
}

#[test]
fn split_with_nothing_free_fails() {
    let mut r = Region::new(1033, 0, 0);
    let _all = r.request_frames(1024).unwrap();
    assert!(!r.split(0));
    assert!(!r.split(11));
}

#[test]
fn foreign_or_free_record_is_ignored() {
    let mut r = Region::new(1033, 0, 0);
    let stranger = FrameInfo::new(FrameFlags::head(), 0, 5000);
    r.retrieve_frame(&stranger);
    let free_one = r.frame(0);
    r.retrieve_frame(&free_one);
    assert_eq!(r.free_frame_num(), 1024);
    assert_eq!(r.free_list_len(10), 1);
}

#[test]
fn frames_are_accounted_after_many_operations() {
    let mut r = Region::new(1600, 0, 0);
    let mut held = Vec::new();
    for n in [1usize, 8, 2, 64, 1, 16, 4] {
        held.push(r.request_frames(n).unwrap());
    }
    let allocated: usize = held.iter().map(|f| 1usize << f.get_level()).sum();
    assert_eq!(free_frames_on_lists(&r) + allocated, r.size());
    assert_eq!(r.free_frame_num(), free_frames_on_lists(&r));
    let back = held.split_off(3);
    for f in back.iter() {
        r.retrieve_frame(f);
    }
    let allocated: usize = held.iter().map(|f| 1usize << f.get_level()).sum();
    assert_eq!(free_frames_on_lists(&r) + allocated, r.size());
    assert_eq!(r.free_frame_num(), free_frames_on_lists(&r));
}

#[test]
fn allocator_serves_from_last_region_and_routes_frees() {
    let mut fa = SimpleFrameAllocator::new();
    fa.register_region(Region::new(1033, 0, 0));
    fa.register_region(Region::new(2066, 2000, 0));
    assert_eq!(fa.region_num(), 2);
    assert_eq!(fa.region(1).start_frame_idx(), 2017);
    assert_eq!(fa.region(1).size(), 2049);
    let f = fa.alloc_frames(4).unwrap();
    assert_eq!(f.get_index(), 2017 + 2044);
    assert_eq!(fa.region(1).free_frame_num(), 2045);
    assert_eq!(fa.region(0).free_frame_num(), 1024);
    fa.dealloc_frame(&f);
    assert_eq!(fa.region(1).free_frame_num(), 2049);
    assert_eq!(fa.region(1).free_list_len(10), 2);
    assert!(fa.alloc_frames(2048).is_none());
    assert!(fa.alloc_frames(0).is_none());
    assert_eq!(fa.allocate_frame(), Some(4065 * 4096));
}

#[test]
fn allocator_falls_back_to_earlier_region() {
    let mut fa = SimpleFrameAllocator::new();
    fa.register_region(Region::new(1033, 0, 0));
    fa.register_region(Region::new(25, 2000, 0));
    // the second region has 24 usable frames: no block of 32
    let f = fa.alloc_frames(32).unwrap();
    assert_eq!(f.get_index(), 9 + 1024 - 32);
    assert_eq!(fa.region(0).free_frame_num(), 1024 - 32);
    fa.dealloc_frame(&f);
    assert_eq!(fa.region(0).free_frame_num(), 1024);
}

#[test]
fn list_snapshot_runs_from_the_head() {
    let mut l = LinkedList::new();
    for v in [1usize, 2, 3] {
        l.append(LinkedListNode::new(None, v));
    }
    assert_eq!(l.to_vec(), vec![3, 2, 1]);
}

#[test]
fn checked_constructor_refuses_regions_past_the_address_space() {
    assert!(Region::try_new(1, usize::MAX, 0).is_none());
    assert!(Region::try_new(16, 0, usize::MAX).is_none());
    let r = Region::try_new(1033, 0, 0).unwrap();
    assert_eq!(r.size(), 1024);
    assert_eq!(r.free_list_len(10), 1);
}
