use allocators::heap::block::{Block, BlockMetaInfo};
use allocators::heap::explicit_free_list::{HeapAlloc, Layout};
use allocators::memory::Memory;

const START: usize = 0x1000;

fn layout(size: usize) -> Layout {
    Layout { size, align: 8 }
}

#[test]
fn block_meta_info() {
    let mut meta_info = BlockMetaInfo::new(128, true);
    assert!(meta_info.is_used());
    assert_eq!(meta_info.payload_size(), 128);
    meta_info.set_used(false);
    assert!(!meta_info.is_used());
    meta_info.set_payload_size(1024);
    assert_eq!(meta_info.payload_size(), 1024);
}

#[test]
fn block() {
    let mut space = [0u8; 64];
    let mut memory = Memory::new(START, &mut space);
    let mem = &mut memory;
    let block1 = Block::new_free_block(mem, START, 48, 0, 0);

    assert_eq!(block1.payload_size(mem), 48);
    assert_eq!(
        block1.size(mem),
        block1.payload_size(mem) + BlockMetaInfo::SIZE * 2
    );
    assert_eq!(block1.logical_prev(mem), 0);
    assert_eq!(block1.logical_next(mem), 0);
    let prev = 8;
    block1.set_logical_prev(mem, prev);
    assert_eq!(block1.logical_prev(mem), prev);
    block1.set_logical_prev(mem, 0);
    let next = 8;
    block1.set_logical_next(mem, next);
    assert_eq!(block1.logical_next(mem), next);
    block1.set_logical_next(mem, 0);

    assert_eq!(block1.allocate(mem, 42), 0); // no split
    assert!(block1.is_used(mem));
    assert_eq!(block1.payload_size(mem), 48);
    block1.set_used(mem, false);

    let block2_addr = block1.allocate(mem, 16);
    assert_ne!(block2_addr, 0);
    let block2 = Block { addr: block2_addr };
    assert_eq!(block1.physical_next(mem), block2);
    assert_eq!(block2.physical_prev(mem), block1);
    assert!(block1.is_used(mem));
    assert!(!block2.is_used(mem));
    assert_eq!(block1.payload_size(mem), 16);
    assert_eq!(block2.payload_size(mem), 16);

    block1.unsplit(mem, block2, false);
    assert_eq!(block1.payload_size(mem), 48);
}

#[test]
fn heap_allocator() {
    let mut space = [0u8; 1024];
    let mut allocator = HeapAlloc::new();
    allocator.init(START, &mut space);
    assert_eq!(allocator.stats_total_bytes(), 1024);
    let layout = Layout {
        size: core::mem::size_of::<usize>(),
        align: core::mem::align_of::<usize>(),
    };
    let data = allocator.allocate(layout);
    assert_ne!(data, 0);
    assert_eq!(allocator.stats_alloc_user(), layout.size);
    assert_eq!(
        allocator.stats_alloc_real(),
        layout.size + BlockMetaInfo::SIZE * 2
    );
    allocator.dealloc(data, layout);
    assert_eq!(allocator.stats_alloc_user(), 0);
    assert_eq!(allocator.stats_alloc_real(), 0);
}

#[test]
fn an_empty_heap_has_nothing() {
    let mut heap = HeapAlloc::new();
    assert_eq!(heap.heap(), 0..0);
    assert_eq!(heap.stats_total_bytes(), 0);
    assert_eq!(heap.allocate(layout(1)), 0);
}

#[test]
fn the_first_block_that_fits_is_taken() {
    let mut space = [0u8; 256];
    let mut heap = HeapAlloc::new();
    heap.init(START, &mut space);
    assert_eq!(heap.heap(), START..START + 256);
    assert_eq!(heap.allocate(layout(16)), 0x1008);
    assert_eq!(heap.allocate(layout(32)), 0x1028);
    assert_eq!(heap.allocate(layout(161)), 0);
    assert_eq!(heap.allocate(layout(160)), 0x1058);
    assert_eq!(heap.stats_alloc_user(), 208);
    assert_eq!(heap.stats_alloc_real(), 256);
    assert_eq!(heap.allocate(layout(16)), 0);
    heap.dealloc(0x1028, layout(32));
    assert_eq!(heap.stats_alloc_user(), 176);
    assert_eq!(heap.allocate(layout(32)), 0x1028);
}

#[test]
fn a_block_is_joined_to_the_free_one_behind_it() {
    let mut space = [0u8; 256];
    let mut heap = HeapAlloc::new();
    heap.init(START, &mut space);
    assert_eq!(heap.allocate(layout(16)), 0x1008);
    assert_eq!(heap.allocate(layout(32)), 0x1028);
    assert_eq!(heap.allocate(layout(160)), 0x1058);
    heap.dealloc(0x1028, layout(32));
    heap.dealloc(0x1008, layout(16));
    assert_eq!(heap.allocate(layout(64)), 0x1008);
    assert_eq!(heap.allocate(layout(1)), 0);
    heap.dealloc(0x1058, layout(160));
    assert_eq!(heap.allocate(layout(160)), 0x1058);
}

#[test]
fn blocks_are_joined_to_the_free_ones_before_them() {
    let mut space = [0u8; 256];
    let mut heap = HeapAlloc::new();
    heap.init(START, &mut space);
    let a = heap.allocate(layout(16));
    let b = heap.allocate(layout(32));
    let c = heap.allocate(layout(16));
    assert_eq!((a, b, c), (0x1008, 0x1028, 0x1058));
    heap.dealloc(a, layout(16));
    heap.dealloc(b, layout(32));
    heap.dealloc(c, layout(16));
    assert_eq!(heap.allocate(layout(240)), 0x1008);
}

#[test]
fn giving_back_at_once_restores_the_heap() {
    let mut space = [0u8; 128];
    let mut heap = HeapAlloc::new();
    heap.init(START, &mut space);
    for size in [1, 16, 17, 40, 112] {
        let data = heap.allocate(layout(size));
        assert_eq!(data, 0x1008);
        heap.dealloc(data, layout(size));
    }
    assert_eq!(heap.stats_alloc_user(), 0);
    assert_eq!(heap.stats_alloc_real(), 0);
}

#[test]
fn sizes_are_rounded_up() {
    let mut space = [0u8; 512];
    let mut heap = HeapAlloc::new();
    heap.init(START, &mut space);
    assert_eq!(heap.allocate(Layout { size: 17, align: 1 }), 0x1008);
    assert_eq!(heap.stats_alloc_user(), 17);
    // the next block starts at 0x1022, what is before the aligned place stays free
    assert_eq!(heap.allocate(Layout { size: 8, align: 64 }), 0x1080);
    assert_eq!(heap.allocate(Layout { size: 0, align: 1 }), 0x102a);
    assert_eq!(heap.allocate(Layout { size: 0, align: 1 }), 0x104a);
    // behind 64 bytes and a footer
    assert_eq!(heap.allocate(Layout { size: 100, align: 1 }), 0x1080 + 64 + 16);
}

#[test]
fn payloads_are_aligned() {
    let mut space = [0u8; 1024];
    let mut heap = HeapAlloc::new();
    heap.init(START, &mut space);
    let mut live = Vec::new();
    for align in [1usize, 2, 4, 8, 16, 32, 64, 128] {
        let request = Layout { size: 6, align };
        let data = heap.allocate(request);
        assert_ne!(data, 0);
        assert_eq!(data % align, 0);
        assert!(START <= data && data + 6 <= START + 1024);
        live.push((data, request));
    }
    for (i, (a, r)) in live.iter().enumerate() {
        for (b, s) in &live[i + 1..] {
            assert!(a + r.size <= *b || b + s.size <= *a);
        }
    }
    for (data, request) in live {
        heap.dealloc(data, request);
    }
    assert_eq!(heap.stats_alloc_user(), 0);
    assert_eq!(heap.stats_alloc_real(), 0);
}

#[test]
fn a_block_between_used_ones_stays_out_of_the_list() {
    let mut space = [0u8; 256];
    let mut heap = HeapAlloc::new();
    heap.init(START, &mut space);
    let a = heap.allocate(layout(16));
    let b = heap.allocate(layout(16));
    let c = heap.allocate(layout(16));
    let d = heap.allocate(layout(16));
    assert_eq!((a, b, c, d), (0x1008, 0x1028, 0x1048, 0x1068));
    heap.dealloc(a, layout(16));
    heap.dealloc(c, layout(16));
    assert_eq!(heap.allocate(layout(16)), 0x1088);
    heap.dealloc(b, layout(16));
    assert_eq!(heap.allocate(layout(80)), 0x10a8);
    // the three blocks are one now, but in no list
    assert_eq!(heap.allocate(layout(16)), 0);
    // the first block that comes back to an empty list is the list, by itself
    heap.dealloc(d, layout(16));
    assert_eq!(heap.allocate(layout(17)), 0);
    assert_eq!(heap.allocate(layout(16)), d);
}

#[test]
fn a_block_beside_a_listed_one_comes_back() {
    let mut space = [0u8; 256];
    let mut heap = HeapAlloc::new();
    heap.init(START, &mut space);
    let a = heap.allocate(layout(16));
    let b = heap.allocate(layout(16));
    assert_eq!((a, b), (0x1008, 0x1028));
    // in front of the listed block it takes that one's place
    heap.dealloc(b, layout(16));
    assert_eq!(heap.allocate(layout(208)), b);
    assert_eq!(heap.allocate(layout(16)), 0);
    heap.dealloc(b, layout(208));
    heap.dealloc(a, layout(16));
    assert_eq!(heap.allocate(layout(240)), a);
}

#[test]
fn statistics_count_what_users_hold() {
    let mut space = [0u8; 512];
    let mut heap = HeapAlloc::new();
    heap.init(START, &mut space);
    let sizes = [16, 17, 3, 0, 40];
    let mut live = Vec::new();
    for size in sizes {
        live.push((heap.allocate(layout(size)), layout(size)));
        let user: usize = live.iter().map(|(_, l)| l.size).sum();
        assert_eq!(heap.stats_alloc_user(), user);
        assert_eq!(heap.stats_alloc_real(), user + 16 * live.len());
        assert!(heap.stats_alloc_real() <= heap.stats_total_bytes());
    }
    while let Some((data, request)) = live.pop() {
        heap.dealloc(data, request);
        let user: usize = live.iter().map(|(_, l)| l.size).sum();
        assert_eq!(heap.stats_alloc_user(), user);
        assert_eq!(heap.stats_alloc_real(), user + 16 * live.len());
    }
    // a second range of memory is counted besides
    let kept = heap.allocate(layout(24));
    assert_ne!(kept, 0);
    let mut more = [0u8; 64];
    heap.init(0x9000, &mut more);
    assert_eq!(heap.allocate(layout(48)), 0x9008);
    assert_eq!(heap.stats_alloc_user(), 72);
}

#[test]
fn payloads_are_kept() {
    let mut space = [0u8; 256];
    let base = START;
    let a;
    {
        let mut heap = HeapAlloc::new();
        heap.init(base, &mut space);
        a = heap.allocate(layout(32));
    }
    assert_eq!(a, 0x1008);
    // header and footer of the block
    assert_eq!(space[0], 33);
    assert_eq!(space[40], 33);
    assert!(space[8..40].iter().all(|b| *b == 0));
}

#[test]
fn words_are_little_endian() {
    let mut space = [0u8; 24];
    {
        let mut mem = Memory::new(START, &mut space);
        assert_eq!(mem.start(), START);
        assert_eq!(mem.len(), 24);
        mem.write(START + 8, 0x0102);
        assert_eq!(mem.read(START + 8), 0x0102);
        assert_eq!(mem.read(START), 0);
        assert!(!mem.is_odd(START + 8));
        mem.write(START + 16, 3);
        assert!(mem.is_odd(START + 16));
    }
    assert_eq!(space[8], 2);
    assert_eq!(space[9], 1);
    assert_eq!(space[10], 0);
}
