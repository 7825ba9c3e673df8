use lab_allocator::{is_power_of_two, AllocError, DeallocFault, LabByteAllocator, HEADER_SIZE};

const BASE: usize = 0x10000;
const ARENA: usize = 0x1000_0000;

fn heap(size: usize) -> LabByteAllocator {
    let mut a = LabByteAllocator::new();
    a.init(BASE, size);
    a
}

fn balanced(a: &LabByteAllocator) -> bool {
    a.used_bytes() + a.available_bytes() == a.total_bytes()
}

#[test]
fn new_has_no_memory() {
    let a = LabByteAllocator::new();
    assert_eq!(a.total_bytes(), 0);
    assert_eq!(a.used_bytes(), 0);
    assert_eq!(a.available_bytes(), 0);
    assert_eq!(a.allocation_count(), 0);
}

#[test]
fn init_counts_whole_region() {
    let a = heap(4096);
    assert_eq!(a.total_bytes(), 4096);
    assert_eq!(a.used_bytes(), 0);
    assert_eq!(a.available_bytes(), 4096);
}

#[test]
fn init_aligns_start() {
    let mut a = LabByteAllocator::new();
    a.init(0x1003, 4096);
    assert_eq!(a.total_bytes(), 4091);
    assert_eq!(a.allocate(8, 8), Ok(0x1008 + HEADER_SIZE));
}

#[test]
fn align_up_values() {
    assert_eq!(LabByteAllocator::align_up(13, 8), 16);
    assert_eq!(LabByteAllocator::align_up(16, 8), 16);
    assert_eq!(LabByteAllocator::align_up(0, 4096), 0);
    assert_eq!(LabByteAllocator::align_up(4097, 4096), 8192);
}

#[test]
fn allocation_splits_block() {
    let mut a = heap(4096);
    assert_eq!(a.allocate(64, 8), Ok(BASE + HEADER_SIZE));
    assert_eq!(a.used_bytes(), HEADER_SIZE + 64);
    assert_eq!(a.allocation_count(), 1);
    assert_eq!(a.allocate(64, 8), Ok(BASE + 2 * HEADER_SIZE + 64));
    assert!(balanced(&a));
}

#[test]
fn allocation_is_aligned() {
    let mut a = heap(8192);
    for align in [1usize, 2, 8, 16, 64, 256, 1024] {
        let p = a.allocate(24, align).unwrap();
        assert_eq!(p % align, 0);
    }
    assert!(balanced(&a));
}

#[test]
fn live_allocations_do_not_overlap() {
    let mut a = heap(8192);
    let sizes = [10usize, 100, 1, 0, 64, 333];
    let mut spans = Vec::new();
    for (k, s) in sizes.iter().enumerate() {
        let p = a.allocate(*s, 1 << (k % 5)).unwrap();
        spans.push((p, p + (*s).max(1)));
    }
    for i in 0..spans.len() {
        for j in 0..spans.len() {
            if i != j {
                assert!(spans[i].1 <= spans[j].0 || spans[j].1 <= spans[i].0);
            }
        }
    }
}

#[test]
fn round_trip_restores_counters() {
    let mut a = heap(4096);
    let _keep = a.allocate(40, 8).unwrap();
    let used = a.used_bytes();
    let avail = a.available_bytes();
    let p = a.allocate(100, 32).unwrap();
    assert_eq!(a.validate_dealloc(p, 100), Ok(()));
    a.dealloc(p, 100, 32);
    assert_eq!(a.used_bytes(), used);
    assert_eq!(a.available_bytes(), avail);
}

#[test]
fn double_free_is_detected() {
    let mut a = heap(4096);
    let p = a.allocate(48, 8).unwrap();
    let _q = a.allocate(48, 8).unwrap();
    a.dealloc(p, 48, 8);
    assert_eq!(a.validate_dealloc(p, 48), Err(DeallocFault::DoubleFree));
}

#[test]
fn size_mismatch_is_detected() {
    let mut a = heap(4096);
    let p = a.allocate(48, 8).unwrap();
    assert_eq!(a.validate_dealloc(p, 47), Err(DeallocFault::SizeMismatch));
}

#[test]
fn foreign_pointer_is_detected() {
    let mut a = heap(4096);
    let _p = a.allocate(48, 8).unwrap();
    assert_eq!(a.validate_dealloc(0x9999_0000, 48), Err(DeallocFault::UnknownPointer));
}

#[test]
fn coalescing_closes_gaps() {
    let mut a = heap(4096);
    let pa = a.allocate(64, 8).unwrap();
    let pb = a.allocate(64, 8).unwrap();
    let pc = a.allocate(64, 8).unwrap();
    a.dealloc(pa, 64, 8);
    a.dealloc(pc, 64, 8);
    a.dealloc(pb, 64, 8);
    assert_eq!(a.used_bytes(), 0);
    assert_eq!(a.allocate(4096 - HEADER_SIZE, 8), Ok(BASE + HEADER_SIZE));
}

#[test]
fn best_fit_picks_smallest_fitting_block() {
    let mut a = LabByteAllocator::new();
    a.init(0x10000, HEADER_SIZE + 100);
    assert_eq!(a.add_memory(0x20000, HEADER_SIZE + 10), Ok(()));
    assert_eq!(a.add_memory(0x30000, HEADER_SIZE + 50), Ok(()));
    assert_eq!(a.allocate(10, 8), Ok(0x20000 + HEADER_SIZE));
    assert_eq!(a.allocate(40, 8), Ok(0x30000 + HEADER_SIZE));
}

#[test]
fn exhaustion_gives_no_memory() {
    let mut a = heap(64);
    assert_eq!(a.allocate(48, 8), Ok(BASE + HEADER_SIZE));
    assert_eq!(a.available_bytes(), 0);
    assert_eq!(a.allocate(1, 8), Err(AllocError::NoMemory));
    assert_eq!(a.used_bytes(), 64);
}

#[test]
fn too_large_request_gives_no_memory() {
    let mut a = heap(4096);
    assert_eq!(a.allocate(4096, 8), Err(AllocError::NoMemory));
    assert_eq!(a.allocate(usize::MAX, 1 << 20), Err(AllocError::NoMemory));
    assert_eq!(a.used_bytes(), 0);
}

#[test]
fn pool_serves_smallest_class_once() {
    let mut a = LabByteAllocator::with_pool_arena(ARENA);
    let p = a.allocate(20, 8).unwrap();
    assert_eq!(p, ARENA + 699008);
    assert_eq!(a.validate_dealloc(p, 20), Ok(()));
    a.dealloc(p, 20, 8);
    assert_eq!(a.allocate(20, 8), Err(AllocError::NoMemory));
}

#[test]
fn pool_not_reused_after_dealloc() {
    let mut a = LabByteAllocator::with_pool_arena(ARENA);
    a.init(BASE, 4096);
    let p = a.allocate(100, 8).unwrap();
    assert_eq!(p, ARENA + 698880);
    a.dealloc(p, 100, 8);
    let q = a.allocate(100, 8).unwrap();
    assert_ne!(q, p);
    assert_eq!(q, BASE + HEADER_SIZE);
    assert_eq!(a.used_bytes(), HEADER_SIZE + 104);
}

#[test]
fn pool_respects_alignment_class() {
    let mut a = LabByteAllocator::with_pool_arena(ARENA);
    let p = a.allocate(16, 4096).unwrap();
    assert_eq!(p % 4096, 0);
    assert_eq!(p, ARENA + 688128);
}

#[test]
fn add_memory_too_small_is_refused() {
    let mut a = heap(4096);
    assert_eq!(a.add_memory(0x40001, HEADER_SIZE), Err(AllocError::NoMemory));
    assert_eq!(a.total_bytes(), 4096);
    assert_eq!(a.add_memory(0x40000, HEADER_SIZE), Ok(()));
    assert_eq!(a.total_bytes(), 4096 + HEADER_SIZE);
}

#[test]
fn adjacent_regions_merge() {
    let mut a = heap(256);
    assert_eq!(a.add_memory(BASE + 256, 256), Ok(()));
    assert_eq!(a.total_bytes(), 512);
    assert_eq!(a.allocate(512 - HEADER_SIZE, 8), Ok(BASE + HEADER_SIZE));
}

#[test]
fn zero_size_requests_get_distinct_pointers() {
    let mut a = heap(4096);
    let p = a.allocate(0, 1).unwrap();
    let q = a.allocate(0, 1).unwrap();
    assert_ne!(p, q);
    a.dealloc(p, 0, 1);
    a.dealloc(q, 0, 1);
    assert_eq!(a.used_bytes(), 0);
}

#[test]
fn region_queries() {
    assert!(LabByteAllocator::region_holds_header(0x1000, HEADER_SIZE));
    assert!(!LabByteAllocator::region_holds_header(0x1001, HEADER_SIZE));
    let a = LabByteAllocator::with_pool_arena(ARENA);
    assert!(!a.region_is_clear(ARENA + 8, 64));
    assert!(a.region_is_clear(BASE, 4096));
    let b = heap(4096);
    assert!(!b.region_is_clear(BASE + 100, 16));
    assert!(b.region_is_clear(BASE + 4096, 16));
}

#[test]
fn power_of_two_test() {
    assert!(is_power_of_two(1));
    assert!(is_power_of_two(4096));
    assert!(!is_power_of_two(0));
    assert!(!is_power_of_two(12));
    assert!(!is_power_of_two(usize::MAX));
}

#[test]
fn init_leaves_one_free_block() {
    let mut a = heap(1024);
    assert_eq!(a.allocate(1024 - HEADER_SIZE, 8), Ok(BASE + HEADER_SIZE));
    assert_eq!(a.available_bytes(), 0);
}
