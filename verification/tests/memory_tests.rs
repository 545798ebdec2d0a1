use kernel_core::memory::paging::{
    alloc_continuous_pages, alloc_page, create_page_table_entry, free_page, get_entry_addr, get_num_free_pages,
    is_entry_table, PageAllocator, KERNEL_OFFSET, NUM_PAGES, PAGE_SIZE,
};
use kernel_core::rand::Rng;
use kernel_core::std_lib::malloc::{free, init_malloc, malloc, HeapRegion, HEAP_REGION_SIZE};

#[test]
fn test_one_page() {
    let mut alloc = PageAllocator::new();
    let page = alloc_page(&mut alloc);
    assert_eq!(get_num_free_pages(&alloc), NUM_PAGES - 1);
    free_page(&mut alloc, page);
    assert_eq!(get_num_free_pages(&alloc), NUM_PAGES);
}

#[test]
fn test_page_free() {
    let mut alloc = PageAllocator::new();
    let mut rng = Rng::new(54375893);
    let mut pages = vec![0u64; 1024];
    for _ in 0..5 {
        let mut perm: Vec<usize> = (0..1024).collect();
        for i1 in 0..1024 {
            let i2 = rng.get(0, 1024) as usize;
            perm.swap(i1, i2);
        }
        for i in 0..1024 {
            pages[i] = alloc_page(&mut alloc);
            assert!(pages[i] >= KERNEL_OFFSET);
            assert_eq!((pages[i] - KERNEL_OFFSET) % PAGE_SIZE, 0);
        }
        let mut sorted = pages.clone();
        sorted.sort();
        sorted.dedup();
        assert_eq!(sorted.len(), 1024);
        for i in 0..1024 {
            free_page(&mut alloc, pages[perm[i]]);
        }
        assert_eq!(get_num_free_pages(&alloc), NUM_PAGES);
    }
}

#[test]
fn continuous_pages_first_fit() {
    let mut alloc = PageAllocator::new();
    alloc.mark(2, true);
    let a = alloc_continuous_pages(&mut alloc, 3);
    assert_eq!(a, KERNEL_OFFSET + 3 * PAGE_SIZE);
    let b = alloc_continuous_pages(&mut alloc, 2);
    assert_eq!(b, KERNEL_OFFSET);
    assert!(alloc.is_used(0) && alloc.is_used(1) && alloc.is_used(5) && !alloc.is_used(6));
    assert_eq!(alloc_continuous_pages(&mut alloc, 0), KERNEL_OFFSET);
}

#[test]
fn page_table_entries() {
    let addr = 0x8020_3000u64;
    let e = create_page_table_entry(addr);
    assert_eq!(e, ((addr >> 12) << 10) | 1);
    assert_eq!(get_entry_addr(e), Some(addr));
    assert!(is_entry_table(e));
    assert!(!is_entry_table(e | 2));
    assert_eq!(get_entry_addr(0), None);
}

#[test]
fn heap_region_grows_and_reuses() {
    let mut pages = Vec::new();
    let mut r = HeapRegion::new(0x1000_0000, 16);
    let a = r.allocate(&mut pages);
    assert_eq!(a, 0x1000_0000 + HEAP_REGION_SIZE);
    assert_eq!(pages, vec![0x1000_0000, 0x1000_0000 + HEAP_REGION_SIZE]);
    let b = r.allocate(&mut pages);
    assert_eq!(b, a + 16);
    assert_eq!(pages.len(), 2);
    r.free(a);
    let c = r.allocate(&mut pages);
    assert_eq!(c, a);
}

#[test]
fn test_malloc_free() {
    let mut pages = Vec::new();
    let mut released = Vec::new();
    let base = 0x10_0000_0000u64;
    let mut heap = init_malloc(base, &mut pages);
    assert_eq!(pages, vec![base + 18 * HEAP_REGION_SIZE]);
    let mut rng = Rng::new(5674382);
    let mut ptrs = Vec::new();
    for _ in 0..1024 {
        let len = rng.get(0, 100) as usize;
        let p = malloc(&mut heap, len, &mut pages);
        let class = (p - base) / (2 * HEAP_REGION_SIZE);
        let block = 8u64 << class;
        assert!(block >= len as u64);
        assert!(class == 0 || (block / 2) < len as u64);
        ptrs.push(p);
    }
    let mut sorted = ptrs.clone();
    sorted.sort();
    sorted.dedup();
    assert_eq!(sorted.len(), ptrs.len());
    for p in ptrs {
        free(&mut heap, p, &mut released);
    }
    assert!(released.is_empty());
}

#[test]
fn test_malloc_big() {
    let mut pages = Vec::new();
    let mut released = Vec::new();
    let base = 0x10_0000_0000u64;
    let mut heap = init_malloc(base, &mut pages);
    let mega_heap = base + 18 * HEAP_REGION_SIZE + 4096;
    let p = malloc(&mut heap, 3 * 4096 + 1, &mut pages);
    assert_eq!(p, mega_heap);
    assert_eq!(&pages[1..], &[mega_heap, mega_heap + 4096, mega_heap + 8192, mega_heap + 12288]);
    let q = malloc(&mut heap, 5000, &mut pages);
    assert_eq!(q, mega_heap + 4 * 4096);
    free(&mut heap, p, &mut released);
    assert_eq!(released, vec![mega_heap, mega_heap + 4096, mega_heap + 8192, mega_heap + 12288]);
    let r = malloc(&mut heap, 4096, &mut pages);
    assert_eq!(r, mega_heap + 6 * 4096);
}

#[test]
fn malloc_blocks_do_not_overlap() {
    let mut pages = Vec::new();
    let base = 0x10_0000_0000u64;
    let mut heap = init_malloc(base, &mut pages);
    let sizes = [1usize, 8, 9, 100, 2048, 2049, 4096, 3, 5000, 64, 65, 12000, 7];
    let mut blocks: Vec<(u64, u64)> = Vec::new();
    for &size in sizes.iter() {
        let p = malloc(&mut heap, size, &mut pages);
        for &(q, len) in &blocks {
            assert!(p + size as u64 <= q || q + len <= p);
        }
        blocks.push((p, size as u64));
    }
}
