use kernel_core::program_runner::{run_program, USER_CONTEXT, USER_STACK};
use kernel_core::scheduler::ProcTable;
use bootloader_api::info::{MemoryRegion, MemoryRegionKind};
use kernel_core::memory::heap_tree::HeapTree;
use kernel_core::memory::page_table::{map_page_auto, PageTables};
use kernel_core::memory::paging::PageAllocator;
use kernel_core::memory::regions::{check_regions, init_memory, is_free_region, plan_memory, Region, RegionKind};

#[test]
fn heap_tree_aligned_and_disjoint() {
    let mut tree = HeapTree::new();
    assert_eq!(tree.capacity(), 1024);
    let mut taken: Vec<(u32, u32)> = Vec::new();
    for i in 0..200u32 {
        let order = i % 8;
        let pos = tree.allocate(order);
        assert_eq!(pos % (1 << order), 0);
        for &(p, o) in &taken {
            assert!(p + (1 << o) <= pos || pos + (1 << order) <= p);
        }
        taken.push((pos, order));
    }
    assert!(tree.capacity() >= 1024);
    for &(p, _) in &taken {
        tree.free(p);
    }
    assert_eq!(tree.allocate(3), 0);
}

#[test]
fn heap_tree_grows() {
    let mut tree = HeapTree::new();
    assert_eq!(tree.allocate(10), 0);
    assert_eq!(tree.allocate(0), 1024);
    assert_eq!(tree.capacity(), 2048);
    assert_eq!(tree.allocate(12), 4096);
    assert_eq!(tree.capacity(), 8192);
    let p = tree.allocate(5);
    tree.free(p);
    assert_eq!(tree.allocate(5), p);
}

#[test]
fn memory_plan() {
    let rs = vec![
        Region { start: 0, end: 0x1000, kind: RegionKind::Usable },
        Region { start: 0x1000, end: 0x9000, kind: RegionKind::Bootloader },
        Region { start: 0x10000, end: 0x100000, kind: RegionKind::Usable },
    ];
    assert!(check_regions(&rs));
    let plan = plan_memory(&rs).unwrap();
    assert_eq!(plan.num_pages, 0x100);
    assert_eq!(plan.bitset_pages, 1);
    assert_eq!(plan.bitset_addr, 0x10000);
    assert_eq!(plan.used.len(), 0x100);
    assert!(plan.used[0x10]);
    assert!(!plan.used[0x11]);
    assert!(plan.used[1] && plan.used[8] && !plan.used[9]);
    assert!(plan.used[0]);
    let tiny = vec![Region { start: 0x1000, end: 0x1000, kind: RegionKind::Usable }];
    assert!(plan_memory(&tiny).is_none());
    let regions = [
        MemoryRegion { start: 0x1000, end: 0x9000, kind: MemoryRegionKind::Bootloader },
        MemoryRegion { start: 0x10000, end: 0x100000, kind: MemoryRegionKind::Usable },
    ];
    let plan = init_memory(&regions).unwrap();
    assert_eq!(plan.bitset_addr, 0x10000);
    assert!(plan.used[2]);
}

#[test]
fn only_usable_regions_are_free() {
    assert!(is_free_region(&Region { start: 0x1000, end: 0x2000, kind: RegionKind::Usable }));
    assert!(!is_free_region(&Region { start: 0, end: 0x2000, kind: RegionKind::Usable }));
    assert!(!is_free_region(&Region { start: 0x1000, end: 0x2000, kind: RegionKind::Bootloader }));
    assert!(!is_free_region(&Region { start: 0x1000, end: 0x2000, kind: RegionKind::UnknownUefi(7) }));
    assert!(!is_free_region(&Region { start: 0x1000, end: 0x2000, kind: RegionKind::UnknownBios(2) }));
    let regions = [
        MemoryRegion { start: 0x10000, end: 0x20000, kind: MemoryRegionKind::UnknownUefi(7) },
        MemoryRegion { start: 0x20000, end: 0x100000, kind: MemoryRegionKind::UnknownBios(2) },
        MemoryRegion { start: 0x100000, end: 0x200000, kind: MemoryRegionKind::Usable },
    ];
    let plan = init_memory(&regions).unwrap();
    assert_eq!(plan.bitset_addr, 0x100000);
    assert!(plan.used[0x10] && plan.used[0x20] && plan.used[0xff]);
    assert!(plan.used[0x100] && !plan.used[0x101]);
    let none_usable = [MemoryRegion { start: 0x10000, end: 0x20000, kind: MemoryRegionKind::Bootloader }];
    assert!(init_memory(&none_usable).is_none());
}

#[test]
fn page_tables_map_and_unmap() {
    let mut alloc = PageAllocator::new();
    let mut pt = PageTables::create_page_table(&mut alloc);
    let va = 0x1_0000_5000u64;
    assert_eq!(pt.virt_to_phys(&mut alloc, va), None);
    pt.map_page(&mut alloc, va, 0x8020_0000, false, true, false, false);
    assert_eq!(pt.virt_to_phys(&mut alloc, va), Some(0x8020_0000));
    assert_eq!(pt.virt_to_phys(&mut alloc, va + 0x1000), None);
    assert_eq!(pt.virt_to_phys(&mut alloc, 0x1234), Some(0x1234));
    pt.map_page(&mut alloc, va, 0x8030_0000, true, true, false, false);
    assert_eq!(pt.virt_to_phys(&mut alloc, va), Some(0x8020_0000));
    map_page_auto(&mut pt, &mut alloc, va + 0x1000, false, true, true, false);
    assert!(pt.virt_to_phys(&mut alloc, va + 0x1000).is_some());
    pt.unmap_page(&mut alloc, va);
    assert_eq!(pt.virt_to_phys(&mut alloc, va), None);
    assert!(pt.get_address_page_table_entry(&mut alloc, va).is_some());
}

#[test]
fn mapping_sets_the_permission_bits() {
    let mut alloc = PageAllocator::new();
    let mut pt = PageTables::create_page_table(&mut alloc);
    let va = 0x1_0000_5000u64;
    assert_eq!(pt.leaf_entry(&alloc, va), Some(None));
    pt.map_page(&mut alloc, va, 0x8020_0000, false, true, false, false);
    assert_eq!(pt.leaf_entry(&alloc, va), Some(Some(((0x8020_0000u64 >> 12) << 10) | 0x07)));
    let free = kernel_core::memory::paging::get_num_free_pages(&alloc);
    pt.map_page(&mut alloc, va + 0x1000, 0x8030_0000, false, false, true, true);
    assert_eq!(kernel_core::memory::paging::get_num_free_pages(&alloc), free);
    assert_eq!(pt.leaf_entry(&alloc, va + 0x1000), Some(Some(((0x8030_0000u64 >> 12) << 10) | 0x1b)));
    map_page_auto(&mut pt, &mut alloc, va + 0x2000, false, true, true, false);
    assert_eq!(kernel_core::memory::paging::get_num_free_pages(&alloc), free - 1);
    assert_eq!(pt.leaf_entry(&alloc, va + 0x2000).unwrap().unwrap() & 0x1f, 0x17);
    pt.map_page(&mut alloc, va, 0x8040_0000, true, false, true, true);
    assert_eq!(pt.leaf_entry(&alloc, va), Some(Some(((0x8020_0000u64 >> 12) << 10) | 0x07)));
    pt.unmap_page(&mut alloc, va);
    assert_eq!(pt.leaf_entry(&alloc, va), Some(None));
}

#[test]
fn unmapping_takes_no_page() {
    let mut alloc = PageAllocator::new();
    let mut pt = PageTables::create_page_table(&mut alloc);
    let va = 0x1_0000_5000u64;
    pt.map_page(&mut alloc, va, 0x8020_0000, false, true, false, false);
    let free = kernel_core::memory::paging::get_num_free_pages(&alloc);
    pt.unmap_page(&mut alloc, va);
    assert_eq!(kernel_core::memory::paging::get_num_free_pages(&alloc), free);
    assert_eq!(pt.virt_to_phys(&mut alloc, 0x10), Some(0x10));
    assert_eq!(kernel_core::memory::paging::get_num_free_pages(&alloc), free);
}

fn runnable_program() -> Vec<u8> {
    let mut p = vec![0u8; 64 + 56 + 8];
    p[0..4].copy_from_slice(&[0x7f, 0x45, 0x4c, 0x46]);
    p[4] = 2;
    p[5] = 1;
    p[6] = 1;
    p[16] = 2;
    p[18] = 0xf3;
    p[20] = 1;
    p[24..32].copy_from_slice(&0x1_0000_1000u64.to_le_bytes());
    p[32..40].copy_from_slice(&64u64.to_le_bytes());
    p[56] = 1;
    p[64] = 1;
    p[64 + 8..64 + 16].copy_from_slice(&120u64.to_le_bytes());
    p[64 + 16..64 + 24].copy_from_slice(&0x1_0000_0ff8u64.to_le_bytes());
    p[64 + 32..64 + 40].copy_from_slice(&8u64.to_le_bytes());
    p[64 + 40..64 + 48].copy_from_slice(&16u64.to_le_bytes());
    p[120..128].copy_from_slice(&[1, 2, 3, 4, 5, 6, 7, 8]);
    p
}

#[test]
fn running_a_program_maps_and_readies_it() {
    let mut alloc = PageAllocator::new();
    let mut pt = PageTables::create_page_table(&mut alloc);
    let mut table = ProcTable::new();
    let load = run_program(&mut table, &mut pt, &mut alloc, &runnable_program(), 2 * 4096).unwrap();
    assert_eq!(load.pid, 0);
    assert_eq!(load.segments.len(), 1);
    assert_eq!(load.segments[0].0, 0x1_0000_0ff8);
    assert_eq!(load.segments[0].1, vec![1, 2, 3, 4, 5, 6, 7, 8, 0, 0, 0, 0, 0, 0, 0, 0]);
    assert_eq!(load.context.pc, 0x1_0000_1000);
    assert_eq!(load.context.sp, USER_STACK + 2 * 4096);
    assert_eq!(load.context.a0, 0);
    assert!(pt.virt_to_phys(&mut alloc, 0x1_0000_0000).is_some());
    assert!(pt.virt_to_phys(&mut alloc, 0x1_0000_1000).is_some());
    assert!(pt.virt_to_phys(&mut alloc, 0x1_0000_2000).is_none());
    assert!(pt.virt_to_phys(&mut alloc, USER_STACK + 4096).is_some());
    assert!(pt.virt_to_phys(&mut alloc, USER_CONTEXT).is_some());
    assert_eq!(table.get_num_processes(), 1);
    assert!(table.try_schedule(0, 0));
    let segment = pt.leaf_entry(&alloc, 0x1_0000_0000).unwrap().unwrap();
    assert_eq!(segment & 0x1f, 0x1f);
    let stack = pt.leaf_entry(&alloc, USER_STACK).unwrap().unwrap();
    assert_eq!(stack & 0x1f, 0x17);
    let context = pt.leaf_entry(&alloc, USER_CONTEXT).unwrap().unwrap();
    assert_eq!(context & 0x1f, 0x07);
    let mut bad = runnable_program();
    bad[4] = 1;
    assert!(run_program(&mut table, &mut pt, &mut alloc, &bad, 4096).is_none());
    assert_eq!(table.get_num_processes(), 1);
}

#[test]
fn heap_tree_takes_the_first_free_region() {
    let mut tree = HeapTree::new();
    assert_eq!(tree.allocate(3), 0);
    assert_eq!(tree.allocate(3), 8);
    assert_eq!(tree.allocate(3), 16);
    tree.free(8);
    assert_eq!(tree.allocate(2), 8);
    assert_eq!(tree.allocate(2), 12);
    assert_eq!(tree.allocate(2), 24);
    assert_eq!(tree.capacity(), 1024);
}
