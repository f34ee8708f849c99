use aris::error::KError;
use aris::loader::image::MemoryRegion;
use aris::mem::block::{NO_ALLOC, PageDescriptor, USER, VIRTUAL};
use aris::mem::fixed_allocator::{FixedAllocator, FixedHeap, Regions};
use aris::mem::fixed_list::FixedList;
use aris::mem::frame_allocator;
use aris::mem::frame_allocator::{MemType, MemoryDesc, PhyMemConBlk};
use aris::mem::heap_allocator::{LinkedListAllocator, heap_alloc_impl, heap_dealloc_impl};
use aris::mem::manager;
use aris::mem::manager::{FaultOutcome, MemoryManager, StackLayout};
use aris::mem::physical_allocator::PhysMemConBlk;
use aris::mem::pool_allocator::PoolControlBlock;
use aris::mem::virtual_allocator::{KERNEL_HALF_OFFSET, MapFetchType, PageOp, VirtMemConBlk};

const PAGE: u64 = 4096;

#[derive(Debug)]
struct Sample {
    a: i32,
    b: u32,
}

fn block(num_pages: u64, start_phy_address: u64) -> PageDescriptor {
    PageDescriptor { num_pages, start_phy_address, start_virt_address: 0, flags: 0, is_mapped: false }
}

#[test]
fn fixed_allocator_test() {
    let allocator = FixedAllocator { region: Regions::Region0, slot_size: 8 };
    let allocator1 = FixedAllocator { region: Regions::Region1, slot_size: 8 };
    let mut heap = FixedHeap::new(0x100000);
    heap.clear_heap();
    let (base, r0_bm) = heap.get_heap(Regions::Region0);

    let ptr1 = allocator.alloc_slots(&mut heap, 3 * 8).unwrap();
    assert_eq!(ptr1, base);
    assert_eq!(heap.bitmap[r0_bm], 0x07);

    let ptr2 = allocator.alloc_slots(&mut heap, 3 * 8).unwrap();
    assert_eq!(ptr2, base + 8 * 3);
    assert_eq!(heap.bitmap[r0_bm], 0x3f);
    allocator.dealloc_slots(&mut heap, ptr1, 3 * 8);
    assert_eq!(heap.bitmap[r0_bm], 0x38);

    let ptr3 = allocator.alloc_slots(&mut heap, 4 * 8).unwrap();
    assert_eq!(ptr3, base + 8 * 6);
    assert_eq!(heap.bitmap[r0_bm], 0xf8);
    assert_eq!(heap.bitmap[r0_bm + 1], 0x03);

    let ptr1 = allocator1.alloc_slots(&mut heap, 4 * 8).unwrap();
    let (base1, r1_bm) = heap.get_heap(Regions::Region1);
    assert_eq!(ptr1, base1);
    assert_eq!(heap.bitmap[r1_bm], 0x0f);

    heap.clear_heap();
    assert_eq!(heap.bitmap[r1_bm], 0);
}

#[test]
fn list_alloc_test() {
    let mut heap = FixedHeap::new(0x100000);
    let mut structure: FixedList<Sample> = FixedList::new(FixedAllocator { region: Regions::Region0, slot_size: 24 });
    heap.clear_heap();
    let (_, r0_bm) = heap.get_heap(Regions::Region0);

    structure.add_node(&mut heap, Sample { a: 52, b: 12 }).unwrap();
    structure.add_node(&mut heap, Sample { a: 32, b: 13 }).unwrap();
    structure.add_node(&mut heap, Sample { a: 38, b: 1000 }).unwrap();
    structure.add_node(&mut heap, Sample { a: -12035, b: 2 }).unwrap();
    assert_eq!(structure.get_nodes(), 4);

    let mut i = 0;
    while i < structure.get_nodes() {
        if structure.nodes[i].value.a == -12035 || structure.nodes[i].value.a == 52 {
            let _ = structure.remove_node(&mut heap, i);
        } else {
            i += 1;
        }
    }
    assert_eq!(structure.get_nodes(), 2);

    structure.add_node(&mut heap, Sample { a: -1232, b: 34 }).unwrap();
    for node in structure.nodes.iter_mut() {
        node.value.a += 2;
    }
    assert_eq!(structure.get_nodes(), 3);
    let left: Vec<(i32, u32)> = structure.nodes.iter().map(|n| (n.value.a, n.value.b)).collect();
    assert_eq!(left, vec![(34, 13), (40, 1000), (-1230, 34)]);

    assert_eq!(heap.bitmap[r0_bm], 0x7);
}

#[test]
fn queue_alloc_test() {
    let mut heap = FixedHeap::new(0x100000);
    let mut structure: FixedList<Sample> = FixedList::new(FixedAllocator { region: Regions::Region0, slot_size: 24 });
    heap.clear_heap();
    let (_, r0_bm) = heap.get_heap(Regions::Region0);

    structure.add_node(&mut heap, Sample { a: 14, b: 23 }).unwrap();
    structure.add_node(&mut heap, Sample { a: 214, b: 223 }).unwrap();
    structure.add_node(&mut heap, Sample { a: -1024, b: 90 }).unwrap();

    assert_eq!(heap.bitmap[r0_bm], 0x7);

    let mut seen: Vec<i32> = Vec::new();
    while let Some(node) = structure.pop_node() {
        seen.push(structure.free_node(&mut heap, node).a);
    }
    assert_eq!(seen, vec![14, 214, -1024]);
    assert_eq!(heap.bitmap[r0_bm], 0x0);

    structure.add_node(&mut heap, Sample { a: 55, b: 11 }).unwrap();
    let data = structure.pop_node().unwrap();
    assert_eq!(heap.bitmap[r0_bm], 0x1);
    structure.push_node(data);
    assert_eq!(heap.bitmap[r0_bm], 0x1);
    let data = structure.pop_node().unwrap();
    let _ = structure.free_node(&mut heap, data);
    assert_eq!(heap.bitmap[r0_bm], 0x0);
}

#[test]
fn phy_alloc_test() {
    let mut cb = PhysMemConBlk {
        total_memory: 17 * PAGE,
        avl_memory: 17 * PAGE,
        free_block_list: vec![block(10, 0), block(2, 0x10), block(5, 0x20)],
        alloc_block_list: Vec::new(),
        node_limit: 1000,
    };

    assert_eq!(cb.allocate_memory(8192, 4096), Ok(0x10));
    assert_eq!(cb.allocate_memory(5 * PAGE + 32, 4096), Ok(0x0));
    assert_eq!(cb.allocate_memory(PAGE + 32, 4096), Ok(6 * PAGE));
    assert_eq!(cb.allocate_memory(5 * PAGE + 16, 4096), Err(KError::OutOfMemory));
    assert_eq!(cb.allocate_memory(4 * PAGE, 8192), Err(KError::InvalidArgument));
    assert_eq!(cb.allocate_memory(4 * PAGE, 4096), Ok(0x20));
    cb.deallocate_memory(0x20, 4 * PAGE, 4096).unwrap();

    let free: Vec<u64> = cb.free_block_list.iter().map(|b| b.num_pages).collect();
    let taken: Vec<u64> = cb.alloc_block_list.iter().map(|b| b.num_pages).collect();
    assert_eq!(free, vec![2, 5]);
    assert_eq!(taken, vec![2, 6, 2]);
    // What came back is handed out again.
    assert_eq!(cb.allocate_memory(5 * PAGE, 4096), Ok(0x20));
    assert_eq!(cb.deallocate_memory(0x20, 4 * PAGE, 4096), Err(KError::InvalidArgument));
    cb.deallocate_memory(0x20, 5 * PAGE, 4096).unwrap();
}

#[test]
fn pages_are_mapped_to_their_end() {
    let mut mm = manager_with(None);
    let at = mm.map_to_kernel(0x700000, PAGE + 1).unwrap();
    assert_eq!(mm.get_physical_address(at + 2 * PAGE - 1, 0), Some(0x700000 + 2 * PAGE - 1));
    assert_eq!(mm.get_physical_address(at + 2 * PAGE, 0), None);
}

#[test]
fn frame_alloc_test() {
    let mut cb = PhyMemConBlk {
        total_memory: 18 * PAGE,
        avl_memory: 18 * PAGE,
        hard_limit: u64::MAX,
        lower_limit: 0,
        free_block_list: vec![block(10, 0), block(2, 20 * PAGE), block(6, 40 * PAGE)],
        alloc_block_list: Vec::new(),
        node_limit: 1000,
    };
    assert_eq!(cb.get_available_memory(), 18 * PAGE);
    assert_eq!(cb.allocate(2 * PAGE, 4096), Ok(20 * PAGE));
    assert_eq!(cb.allocate(5 * PAGE + 32, 4096), Ok(40 * PAGE));
    assert_eq!(cb.allocate(PAGE + 32, 4096), Ok(0));
    let free: Vec<u64> = cb.free_block_list.iter().map(|b| b.num_pages).collect();
    let taken: Vec<u64> = cb.alloc_block_list.iter().map(|b| b.num_pages).collect();
    assert_eq!(free, vec![8]);
    assert_eq!(taken, vec![2, 6, 2]);
    assert_eq!(cb.get_available_memory(), 8 * PAGE);
    assert_eq!(cb.allocate(9 * PAGE, 4096), Err(KError::OutOfMemory));
    assert_eq!(cb.allocate(PAGE, 8192), Err(KError::InvalidArgument));
    assert_eq!(cb.deallocate(12345, PAGE, 4096), Err(KError::InvalidArgument));

    // A freed block joins its neighbour.
    cb.deallocate(0, 2 * PAGE, 4096).unwrap();
    let free: Vec<(u64, u64)> = cb.free_block_list.iter().map(|b| (b.start_phy_address, b.num_pages)).collect();
    assert_eq!(free, vec![(0, 10)]);
    assert_eq!(cb.get_available_memory(), 10 * PAGE);

    // Limits keep allocations out of the rest.
    cb.configure_lower_limit(4 * PAGE);
    let low = cb.allocate(PAGE, 4096);
    assert!(low.is_err() || low.unwrap() >= 4 * PAGE);
    cb.disable_limits();
}

#[test]
fn boot_map_is_sorted_by_use() {
    let region = |base_address: u64, pages: u64| MemoryRegion { base_address, size: pages * PAGE };
    let map = vec![
        MemoryDesc { val: region(0x100000, 16), mem_type: MemType::Free },
        MemoryDesc { val: region(0x200000, 4), mem_type: MemType::Allocated },
        MemoryDesc { val: region(0x300000, 2), mem_type: MemType::Identity },
        MemoryDesc { val: region(0x400000, 8), mem_type: MemType::BootloaderData },
    ];
    let mut init = frame_allocator::frame_allocator_init(&map, 100);
    assert_eq!(init.cb.free_block_list.len(), 1);
    assert_eq!(init.cb.free_block_list[0].num_pages, 16);
    assert_eq!(init.identity.len(), 1);
    assert_eq!(init.identity[0].base_address, 0x300000);
    assert_eq!(init.bootloader_regions.len(), 1);
    assert_eq!(init.cb.get_available_memory(), 16 * PAGE);

    frame_allocator::reclaim_pages(&mut init.cb, &mut init.bootloader_regions);
    assert_eq!(init.cb.get_available_memory(), 24 * PAGE);
    assert_eq!(init.bootloader_regions.len(), 0);
    assert_eq!(init.cb.free_block_list.len(), 2);
}

#[test]
fn virtual_allocator_test() {
    let starts = |a: &VirtMemConBlk| -> Vec<u64> { a.free_block_list.iter().map(|b| b.start_virt_address).collect() };
    let size = 10 * PAGE;
    let mut allocator = VirtMemConBlk::new(1);

    let ptr = allocator.allocate(size, 4096, true).unwrap();
    assert_eq!(ptr, 4096);
    assert_eq!(allocator.free_block_list.len(), 2);
    assert_eq!(allocator.free_block_list[0].start_virt_address, 11 * PAGE);

    let ptr1 = allocator.allocate(size, 4096, true).unwrap();
    assert_eq!(ptr1, 11 * PAGE);

    let ptr2 = allocator.allocate(size, 4096, true).unwrap();
    assert_eq!(ptr2, 21 * PAGE);

    allocator.deallocate(ptr1, size, 4096).unwrap();
    assert_eq!(starts(&allocator), vec![31 * PAGE, KERNEL_HALF_OFFSET, 11 * PAGE]);

    allocator.deallocate(ptr, size, 4096).unwrap();
    assert_eq!(starts(&allocator), vec![31 * PAGE, KERNEL_HALF_OFFSET, PAGE]);

    assert_eq!(allocator.deallocate(ptr1, size, 4096), Err(KError::InvalidArgument));

    allocator.deallocate(ptr2, size, 4096).unwrap();
    assert_eq!(starts(&allocator), vec![KERNEL_HALF_OFFSET, PAGE]);

    let ptr = allocator.allocate(size, 4096, false).unwrap();
    assert_eq!(ptr, KERNEL_HALF_OFFSET);

    let ptr1 = allocator.allocate(size, 4096, false).unwrap();
    assert_eq!(ptr1, KERNEL_HALF_OFFSET + 10 * PAGE);
    assert_eq!(starts(&allocator), vec![KERNEL_HALF_OFFSET + 20 * PAGE, PAGE]);

    allocator.deallocate(ptr, size, 4096).unwrap();
    assert_eq!(starts(&allocator), vec![KERNEL_HALF_OFFSET + 20 * PAGE, PAGE, KERNEL_HALF_OFFSET]);

    allocator.deallocate(ptr1, size, 4096).unwrap();
    assert_eq!(starts(&allocator), vec![PAGE, KERNEL_HALF_OFFSET]);
}

fn manager_with(process: Option<VirtMemConBlk>) -> MemoryManager {
    MemoryManager {
        is_init: true,
        phys: PhyMemConBlk {
            total_memory: 64 * PAGE,
            avl_memory: 64 * PAGE,
            hard_limit: u64::MAX,
            lower_limit: 0,
            free_block_list: vec![block(64, 0x100000)],
            alloc_block_list: Vec::new(),
            node_limit: 1000,
        },
        kernel: VirtMemConBlk::new(0),
        process,
        invalidated: Vec::new(),
    }
}

#[test]
fn kernel_memory_is_mapped_and_given_back() {
    let mut mm = manager_with(None);
    let a = mm.allocate_memory(3 * PAGE, 4096, VIRTUAL).unwrap();
    assert_eq!(a, KERNEL_HALF_OFFSET);
    assert_eq!(mm.phys.get_available_memory(), 61 * PAGE);
    let phys = mm.get_physical_address(a + 5, 0).unwrap();
    assert_eq!(phys, 0x100000 + 5);
    assert_eq!(mm.get_virtual_address(0x100000, 0, MapFetchType::Any), Some(a));
    assert_eq!(mm.get_virtual_address(0x100000, 0, MapFetchType::Kernel), Some(a));
    assert_eq!(mm.backing_address(a + 5, false), Some(0x100005));
    mm.deallocate_memory(a, 3 * PAGE, 4096, VIRTUAL).unwrap();
    assert_eq!(mm.phys.get_available_memory(), 64 * PAGE);
    assert_eq!(mm.get_physical_address(a + 5, 0), None);
    assert_eq!(mm.allocate_memory(100 * PAGE, 4096, VIRTUAL), Err(KError::OutOfMemory));
}

#[test]
fn reserved_space_is_mapped_later() {
    let mut mm = manager_with(None);
    let a = mm.allocate_memory(2 * PAGE, 4096, VIRTUAL | NO_ALLOC).unwrap();
    assert_eq!(mm.phys.get_available_memory(), 64 * PAGE);
    assert_eq!(mm.get_physical_address(a, 0), None);
    mm.map_memory(0xb8000, a, 2 * PAGE, VIRTUAL).unwrap();
    assert_eq!(mm.get_physical_address(a + PAGE, 0), Some(0xb9000));
    mm.unmap_memory(a, 2 * PAGE).unwrap();
    assert_eq!(mm.get_physical_address(a + PAGE, 0), None);
    assert_eq!(mm.map_memory(0xb8001, a, PAGE, VIRTUAL), Err(KError::InvalidArgument));
    assert_eq!(mm.unmap_memory(a + 1, PAGE), Err(KError::InvalidArgument));

    let b = mm.map_to_kernel(0xfee00000, PAGE).unwrap();
    assert_eq!(mm.get_physical_address(b, 0), Some(0xfee00000));
    mm.unmap_from_kernel(b, PAGE).unwrap();
    assert_eq!(mm.get_physical_address(b, 0), None);

    let c = KERNEL_HALF_OFFSET + 0x10_0000;
    mm.reserve_virtual_memory(c, PAGE).unwrap();
    assert_eq!(mm.reserve_virtual_memory(c, PAGE), Err(KError::OutOfMemory));
}

#[test]
fn user_memory_belongs_to_the_process() {
    let mut mm = manager_with(None);
    let space = mm.clone_address_space(7).unwrap();
    assert_eq!(space.proc_id, 7);
    assert!(mm.set_address_space(Some(space)).is_none());
    let a = mm.allocate_memory(2 * PAGE, 4096, VIRTUAL | USER).unwrap();
    assert_eq!(a, PAGE);
    assert_eq!(mm.copy_from_user(a, 2 * PAGE), Ok(()));
    assert!(mm.copy_from_user(a, 2 * PAGE + 1).is_err());
    assert!(mm.copy_to_user(KERNEL_HALF_OFFSET, 8).is_err());
    assert_eq!(mm.get_physical_address(a, USER), Some(0x100000));
    assert_eq!(mm.get_physical_address(a, 0), None);
    mm.deallocate_memory(a, 2 * PAGE, 4096, VIRTUAL | USER).unwrap();
    assert_eq!(mm.phys.get_available_memory(), 64 * PAGE);
    assert!(mm.copy_to_user(a, 1).is_err());

    assert_eq!(mm.map_page_table(KERNEL_HALF_OFFSET, 0x5000, 7), Ok(()));
    match &mm.process {
        Some(p) => {
            assert_eq!(
                p.page_ops[p.page_ops.len() - 1],
                PageOp::MapPages { virt_addr: KERNEL_HALF_OFFSET, phys_addr: 0x5000, size: PAGE, flags: 0 }
            );
        }
        None => panic!("the space of the process is active"),
    }
    assert_eq!(mm.unmap_page_table(KERNEL_HALF_OFFSET, 7), Ok(()));

    let before = mm.kernel.avl_memory;
    let space = mm.set_address_space(None).unwrap();
    mm.destroy_address_space(space);
    assert_eq!(mm.kernel.avl_memory, before);
}

#[test]
fn regions_are_freed_up_to_the_first_failure() {
    let mut mm = manager_with(None);
    let a = mm.allocate_memory(2 * PAGE, 4096, 0).unwrap();
    let b = mm.allocate_memory(3 * PAGE, 4096, 0).unwrap();
    assert_eq!(mm.phys.get_available_memory(), 59 * PAGE);
    let bad = vec![
        MemoryRegion { base_address: a, size: 2 * PAGE },
        MemoryRegion { base_address: 1, size: PAGE },
        MemoryRegion { base_address: b, size: 3 * PAGE },
    ];
    assert_eq!(mm.free_regions(&bad), Err(KError::InvalidArgument));
    assert_eq!(mm.phys.get_available_memory(), 61 * PAGE);
    assert_eq!(mm.free_regions(&vec![MemoryRegion { base_address: b, size: 3 * PAGE }]), Ok(()));
    assert_eq!(mm.phys.get_available_memory(), 64 * PAGE);
}

#[test]
fn memory_comes_up() {
    let map = vec![
        MemoryDesc { val: MemoryRegion { base_address: 0x200000, size: 64 * PAGE }, mem_type: MemType::Free },
        MemoryDesc { val: MemoryRegion { base_address: 0x900000, size: 2 * PAGE }, mem_type: MemType::Identity },
    ];
    let st = StackLayout { total_size: 6 * PAGE, stack_size: 4 * PAGE, guard_size: PAGE };
    let boot = manager::init(&map, 1000, Vec::new(), st);
    assert!(boot.memory.is_init);
    assert_eq!(boot.memory.phys.get_available_memory(), 60 * PAGE);
    assert_eq!(boot.memory.get_physical_address(0x900000 + 17, 0), Some(0x900000 + 17));
    assert_eq!(boot.stack, KERNEL_HALF_OFFSET);
    assert_eq!(boot.memory.get_physical_address(boot.stack + PAGE, 0), Some(0x200000));
    assert_eq!(boot.memory.get_physical_address(boot.stack, 0), None);
}

#[test]
fn a_fault_ends_the_process_or_the_kernel() {
    assert_eq!(manager::on_page_fault(0x1000, true), FaultOutcome::ProcessKilled);
    assert_eq!(manager::on_page_fault(0x1000, false), FaultOutcome::KernelPanic(0x1000));
}

#[test]
fn heap_hands_out_and_takes_back() {
    let mut mm = manager_with(None);
    let mut heap = LinkedListAllocator::new();
    let a = heap_alloc_impl(&mut heap, &mut mm, 100, 8).unwrap();
    let b = heap_alloc_impl(&mut heap, &mut mm, 100, 8).unwrap();
    assert!(b >= a + 100 || a >= b + 100);
    let backing = heap.backing_memory;
    heap_dealloc_impl(&mut heap, a, 100);
    assert_eq!(heap.backing_memory, backing + 100);
    // The block freed last is served first.
    let c = heap_alloc_impl(&mut heap, &mut mm, 100, 8).unwrap();
    assert_eq!(c, a);
}

#[test]
fn pool_reuses_the_block_freed_last() {
    let mut mm = manager_with(None);
    let mut pools = PoolControlBlock { pools: Vec::new(), limit: 10 };
    let a = pools.allocate_block(&mut mm, 64).unwrap();
    let b = pools.allocate_block(&mut mm, 64).unwrap();
    assert_ne!(a, b);
    let used = mm.phys.get_available_memory();
    pools.deallocate_block(a, 64);
    assert_eq!(pools.allocate_block(&mut mm, 64), Ok(a));
    assert_eq!(mm.phys.get_available_memory(), used);
}

#[test]
fn a_node_keeps_its_slot_until_it_is_freed() {
    let mut heap = FixedHeap::new(0x100000);
    heap.clear_heap();
    heap.setup_heap();
    assert_eq!(heap.old_base, heap.base);
    let (_, bm) = heap.get_heap(Regions::Region0);
    let mut list: FixedList<Sample> = FixedList::new(FixedAllocator { region: Regions::Region0, slot_size: 24 });
    list.add_node(&mut heap, Sample { a: 1, b: 2 }).unwrap();
    list.add_node(&mut heap, Sample { a: 3, b: 4 }).unwrap();
    let node = list.take_node(0);
    assert_eq!(list.get_nodes(), 1);
    assert_eq!(heap.bitmap[bm], 0x3);
    let value = list.free_node(&mut heap, node);
    assert_eq!((value.a, value.b), (1, 2));
    assert_eq!(heap.bitmap[bm], 0x2);
}

#[test]
fn given_back_memory_is_as_before() {
    let mut mm = manager_with(None);
    let space = mm.clone_address_space(7).unwrap();
    let _ = mm.set_address_space(Some(space));
    let free = mm.phys.get_available_memory();
    let blocks = mm.kernel.alloc_block_list.len();
    for flags in [VIRTUAL, VIRTUAL | USER] {
        let a = mm.allocate_memory(3 * PAGE, 4096, flags).unwrap();
        assert_eq!(mm.get_physical_address(a + 2 * PAGE, flags & USER).map(|p| p % PAGE), Some(0));
        assert_eq!(mm.phys.get_available_memory(), free - 3 * PAGE);
        mm.deallocate_memory(a, 3 * PAGE, 4096, flags).unwrap();
        assert_eq!(mm.phys.get_available_memory(), free);
        assert_eq!(mm.kernel.alloc_block_list.len(), blocks);
    }
}
