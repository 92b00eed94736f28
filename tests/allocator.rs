use touchhle::mem::allocator::{AllocError, Allocator, Chunk};
use touchhle::mem::{MAIN_THREAD_STACK_LOW_END, MAIN_THREAD_STACK_SIZE, NULL_PAGE_SIZE};

fn free_total(a: &Allocator) -> u64 {
    a.free_chunks().iter().map(|c| c.size() as u64).sum()
}

fn has_free(a: &Allocator, base: u32, size: u32) -> bool {
    a.free_chunks().iter().any(|c| c.base() == base && c.size() == size)
}

#[test]
fn test() {
    assert!(Chunk::new(2, 4).contains(2));
    assert!(Chunk::new(2, 4).contains(5));
    assert!(!Chunk::new(2, 4).contains(6));

    assert_eq!(
        Chunk::new(2, 4).trisect_by(Chunk::new(3, 2)),
        Some((Some(Chunk::new(2, 1)), Some(Chunk::new(5, 1))))
    );
    assert_eq!(
        Chunk::new(2, 4).trisect_by(Chunk::new(2, 2)),
        Some((None, Some(Chunk::new(4, 2))))
    );
    assert_eq!(
        Chunk::new(2, 4).trisect_by(Chunk::new(4, 2)),
        Some((Some(Chunk::new(2, 2)), None))
    );
    assert_eq!(Chunk::new(2, 4).trisect_by(Chunk::new(1, 2)), None);
    assert_eq!(Chunk::new(2, 4).trisect_by(Chunk::new(5, 2)), None);
}

#[test]
fn chunk_whole_trisection_and_last_byte() {
    assert_eq!(Chunk::new(2, 4).trisect_by(Chunk::new(2, 4)), Some((None, None)));
    assert_eq!(Chunk::new(2, 4).last_byte(), 5);
    let top = Chunk::new(0xFFFF_FFF0, 0x10);
    assert_eq!(top.last_byte(), 0xFFFF_FFFF);
    assert!(top.contains(0xFFFF_FFFF));
}

#[test]
fn align_size_rounds_up_to_sixteen() {
    assert_eq!(Allocator::align_size(0), 16);
    assert_eq!(Allocator::align_size(1), 16);
    assert_eq!(Allocator::align_size(10), 16);
    assert_eq!(Allocator::align_size(16), 16);
    assert_eq!(Allocator::align_size(17), 32);
    assert_eq!(Allocator::align_size(100), 112);
    assert_eq!(Allocator::align_size(0xFFFF_FFF0), 0xFFFF_FFF0);
    for n in [3u32, 31, 32, 33, 4095, 4096, 123_457] {
        let g = Allocator::align_size(n);
        assert!(g >= n && g >= 16 && g % 16 == 0);
    }
}

#[test]
fn new_allocator_layout() {
    let a = Allocator::new();
    let free = a.free_chunks();
    assert_eq!(free.len(), 1);
    assert_eq!(free[0].base(), NULL_PAGE_SIZE);
    assert_eq!(free[0].size(), MAIN_THREAD_STACK_LOW_END - NULL_PAGE_SIZE);
    assert_eq!(a.find_allocated_chunk(0), Ok(Chunk::new(0, 0x1000)));
    assert_eq!(
        a.find_allocated_chunk(MAIN_THREAD_STACK_LOW_END),
        Ok(Chunk::new(MAIN_THREAD_STACK_LOW_END, MAIN_THREAD_STACK_SIZE))
    );
}

#[test]
fn small_allocation_avoids_guard_page_and_stack() {
    let mut a = Allocator::new();
    let base = a.allocate(10).unwrap();
    assert!(base >= 4096);
    assert!((base as u64) + 16 <= 0xFFF0_0000);
    assert_eq!(a.find_allocated_chunk(base).unwrap().size(), 16);
}

#[test]
fn free_then_allocate_same_size_restores_capacity() {
    let mut a = Allocator::new();
    let before = free_total(&a);
    let first = a.allocate(16).unwrap();
    let after_first = free_total(&a);
    assert_eq!(after_first, before - 16);
    assert_eq!(a.free(first), Ok(16));
    assert_eq!(free_total(&a), before);
    let second = a.allocate(16).unwrap();
    assert_eq!(second, first);
    assert_eq!(free_total(&a), after_first);
}

#[test]
fn allocate_splits_large_free_region() {
    let mut a = Allocator::new();
    let original = a.free_chunks()[0];
    let base = a.allocate(100).unwrap();
    assert_eq!(base, original.base());
    assert_eq!(a.find_allocated_chunk(base).unwrap().size(), 112);
    assert!(has_free(&a, original.base() + 112, original.size() - 112));
    assert_eq!(a.free_chunks().len(), 1);
}

#[test]
fn adjacent_frees_merge_once_both_are_free() {
    let mut a = Allocator::new();
    let x = a.allocate(16).unwrap();
    let y = a.allocate(16).unwrap();
    let _z = a.allocate(16).unwrap();
    assert_eq!(y, x + 16);
    assert_eq!(a.free(x), Ok(16));
    assert!(has_free(&a, x, 16));
    assert_eq!(a.free(y), Ok(16));
    assert!(has_free(&a, x, 32));
    assert!(!has_free(&a, x, 16));
    assert!(!has_free(&a, y, 16));
}

#[test]
fn free_merges_with_only_one_neighbour() {
    let mut a = Allocator::new();
    let x = a.allocate(16).unwrap();
    let y = a.allocate(16).unwrap();
    let z = a.allocate(16).unwrap();
    assert_eq!(a.free(x), Ok(16));
    assert_eq!(a.free(z), Ok(16));
    // z merged with the large region after it.
    assert!(!has_free(&a, z, 16));
    assert_eq!(a.free(y), Ok(16));
    // y merged with x, the first neighbour in the list; z's side stays apart.
    assert!(has_free(&a, x, 32));
    assert_eq!(a.free_chunks().len(), 2);
}

#[test]
fn reserve_straddling_two_free_regions_fails() {
    let mut a = Allocator::new();
    let x = a.allocate(16).unwrap();
    let y = a.allocate(16).unwrap();
    let z = a.allocate(16).unwrap();
    assert_eq!(a.free(x), Ok(16));
    assert_eq!(a.free(z), Ok(16));
    assert_eq!(a.free(y), Ok(16));
    let before = a.free_chunks();
    assert_eq!(a.reserve(Chunk::new(z - 8, 16)), Err(AllocError::NotFree));
    assert_eq!(a.free_chunks(), before);
}

#[test]
fn reserve_across_split_boundary_fails() {
    let mut a = Allocator::new();
    let base = a.allocate(100).unwrap();
    assert_eq!(a.reserve(Chunk::new(base + 104, 16)), Err(AllocError::NotFree));
    assert_eq!(a.find_allocated_chunk(base + 104), Err(AllocError::UnknownAllocation));
}

#[test]
fn reserve_over_used_region_fails() {
    let mut a = Allocator::new();
    assert_eq!(a.reserve(Chunk::new(0x800, 0x1000)), Err(AllocError::NotFree));
    assert_eq!(a.reserve(Chunk::new(0, 16)), Err(AllocError::NotFree));
    assert_eq!(
        a.reserve(Chunk::new(MAIN_THREAD_STACK_LOW_END - 8, 16)),
        Err(AllocError::NotFree)
    );
}

#[test]
fn reserve_trisects_free_region() {
    let mut a = Allocator::new();
    assert_eq!(a.reserve(Chunk::new(0x10000, 0x2000)), Ok(()));
    assert_eq!(a.find_allocated_chunk(0x10000), Ok(Chunk::new(0x10000, 0x2000)));
    let free = a.free_chunks();
    assert_eq!(
        free,
        vec![
            Chunk::new(0x1000, 0xF000),
            Chunk::new(0x12000, MAIN_THREAD_STACK_LOW_END - 0x12000)
        ]
    );
    assert_eq!(a.reserve(Chunk::new(0x10000, 0x10)), Err(AllocError::NotFree));
    assert_eq!(a.free(0x10000), Ok(0x2000));
}

#[test]
fn reserve_at_free_region_start_leaves_only_rest() {
    let mut a = Allocator::new();
    assert_eq!(a.reserve(Chunk::new(0x1000, 0x1000)), Ok(()));
    assert_eq!(
        a.free_chunks(),
        vec![Chunk::new(0x2000, MAIN_THREAD_STACK_LOW_END - 0x2000)]
    );
}

#[test]
fn find_after_free_fails() {
    let mut a = Allocator::new();
    let base = a.allocate(64).unwrap();
    assert_eq!(a.find_allocated_chunk(base), Ok(Chunk::new(base, 64)));
    assert_eq!(a.free(base), Ok(64));
    assert_eq!(a.find_allocated_chunk(base), Err(AllocError::UnknownAllocation));
}

#[test]
fn double_free_fails() {
    let mut a = Allocator::new();
    let base = a.allocate(32).unwrap();
    assert_eq!(a.free(base), Ok(32));
    let before = a.free_chunks();
    assert_eq!(a.free(base), Err(AllocError::UnknownAllocation));
    assert_eq!(a.free_chunks(), before);
}

#[test]
fn free_of_unknown_address_fails() {
    let mut a = Allocator::new();
    assert_eq!(a.free(0x5000), Err(AllocError::UnknownAllocation));
}

#[test]
fn out_of_memory() {
    let mut a = Allocator::new();
    assert_eq!(a.allocate(0xFFFF_FFFF), Err(AllocError::OutOfMemory));
    assert_eq!(a.allocate(0xFFF0_0000), Err(AllocError::OutOfMemory));
    let whole = MAIN_THREAD_STACK_LOW_END - NULL_PAGE_SIZE;
    assert_eq!(a.allocate(whole), Ok(NULL_PAGE_SIZE));
    assert!(a.free_chunks().is_empty());
    assert_eq!(a.allocate(1), Err(AllocError::OutOfMemory));
}

#[test]
fn exact_fit_is_preferred() {
    let mut a = Allocator::new();
    let big = a.allocate(32).unwrap();
    let _sep1 = a.allocate(16).unwrap();
    let small = a.allocate(16).unwrap();
    let _sep2 = a.allocate(16).unwrap();
    assert_eq!(a.free(big), Ok(32));
    assert_eq!(a.free(small), Ok(16));
    assert_eq!(a.allocate(16), Ok(small));
    assert_eq!(a.allocate(20), Ok(big));
}

#[test]
fn tightest_fit_when_no_exact_fit() {
    let mut a = Allocator::new();
    let big = a.allocate(64).unwrap();
    let _sep1 = a.allocate(16).unwrap();
    let mid = a.allocate(48).unwrap();
    let _sep2 = a.allocate(16).unwrap();
    assert_eq!(a.free(big), Ok(64));
    assert_eq!(a.free(mid), Ok(48));
    // 32 bytes: no exact fit; the 48-byte region is the tightest.
    assert_eq!(a.allocate(32), Ok(mid));
    assert!(has_free(&a, mid + 32, 16));
}

#[test]
fn split_and_combine_directly() {
    let mut a = Allocator::new();
    let base = a.allocate(48).unwrap();
    assert_eq!(a.free(base), Ok(48));
    let whole = a.free_chunks()[0];
    assert_eq!(whole.base(), base);
    let mut b = Allocator::new();
    assert_eq!(b.reserve(Chunk::new(0x1000, 0x100)), Ok(()));
    assert_eq!(b.free(0x1000), Ok(0x100));
    assert_eq!(b.free_chunks().len(), 1);
}
