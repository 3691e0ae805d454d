use allocators::memory::Memory;
use allocators::new_slab::SlabAlloc;
use allocators::slab::cache::MemCache;
use allocators::slab::cpu::MemCacheCpu;
use allocators::slab::flags::SlabFlags;
use allocators::slab::list::{Slab, SlabList, SlabTable};
use allocators::slab::objects::FreeList;
use allocators::slab::std_impl::StdEnv;
use allocators::slab::tid::{Registration, Registry, Tid};
use allocators::slab::Env;
use std::sync::{Arc, Barrier, Mutex};
use threadpool::ThreadPool;

const CHUNK: usize = 0x10_0000;

fn mem_cache(cpu_count: usize) -> MemCache<StdEnv> {
    let utils = StdEnv::new(CHUNK, 1024, Tid::new(0));
    MemCache::new(cpu_count, 16, 4, 8, utils)
}

fn space(pages: usize) -> Vec<u8> {
    vec![0u8; pages * 4096]
}

#[test]
fn usages() {
    let bytes: &'static mut [u8] = Box::leak(space(1024).into_boxed_slice());
    let memory = Memory::new(CHUNK, bytes);
    let slab = Arc::new(Mutex::new((mem_cache(8), memory)));
    let registry = Arc::new(Mutex::new(Registry::new()));
    let pool = ThreadPool::new(4);
    let start = Arc::new(Barrier::new(5));
    let end = Arc::new(Barrier::new(5));
    for _ in 0..4 {
        let slab = slab.clone();
        let registry = registry.clone();
        let start = start.clone();
        let end = end.clone();
        pool.execute(move || {
            start.wait();
            let mut registration = Registration::new();
            let tid = Tid::current(&mut registration, &mut registry.lock().unwrap());
            let cpu = StdEnv::cpu_of(tid);
            let v: Vec<_> = (0..100)
                .map(|_| {
                    let (slab, memory) = &mut *slab.lock().unwrap();
                    slab.allocate_on(memory, cpu)
                })
                .collect();
            for obj in v {
                let (slab, memory) = &mut *slab.lock().unwrap();
                slab.deallocate_on(memory, cpu, obj)
            }
            registration.release(&mut registry.lock().unwrap());
            end.wait();
        });
    }
    start.wait();
    end.wait();
    println!("done");
}

#[test]
fn flags_have_fields() {
    let flags = SlabFlags::new(true, 0x7fff_0001, 0xffff_0002);
    assert!(flags.is_frozen());
    assert_eq!(flags.objects(), 0x7fff_0001);
    assert_eq!(flags.inuse(), 0xffff_0002);
    assert_eq!(flags.as_u64(), 0xffff_0001_ffff_0002);
    let flags = flags.set_frozen(false).set_objects(5).set_inuse(1);
    assert!(!flags.is_frozen());
    assert_eq!(flags.objects(), 5);
    assert_eq!(flags.inuse(), 1);
    assert_eq!(flags.as_u64(), 0x5_0000_0001);
    let flags = flags.minus_one();
    assert_eq!((flags.objects(), flags.inuse()), (5, 0));
    let flags = flags.minus_one();
    assert_eq!((flags.objects(), flags.inuse()), (4, 0xffff_ffff));
    assert_eq!(SlabFlags::new(false, 0, 0).minus_one().as_u64(), u64::MAX);
}

#[test]
fn what_exceeds_a_field_reaches_into_the_next() {
    let flags = SlabFlags::new(false, 0x8000_0003, 0);
    assert!(flags.is_frozen());
    assert_eq!((flags.objects(), flags.inuse()), (3, 0));
    let flags = SlabFlags::new(false, 2, 0x5_0000_0001);
    assert_eq!((flags.objects(), flags.inuse()), (7, 1));
    assert_eq!(flags.set_inuse(0x8_0000_0000).as_u64(), 0xf_0000_0000);
    assert!(flags.set_objects(0x8000_0000).is_frozen());
}

fn all_of(list: &mut FreeList, mem: &Memory<'_>) -> Vec<usize> {
    let mut objects = Vec::new();
    while let Some(object) = list.pop(mem) {
        objects.push(object);
    }
    objects
}

#[test]
fn objects_are_linked_through_memory() {
    let mut bytes = [0xffu8; 64];
    let mut mem = Memory::new(0x100, &mut bytes);
    let mut list = FreeList::new();
    assert!(list.is_empty());
    assert_eq!(list.pop(&mem), None);
    list.push(&mut mem, 0x110);
    list.push(&mut mem, 0x130);
    list.push(&mut mem, 0x120);
    assert_eq!(mem.read(0x110), 0);
    assert_eq!(mem.read(0x130), 0x110);
    assert_eq!(mem.read(0x120), 0x130);
    assert_eq!(list.pop(&mem), Some(0x120));
    let mut taken = list.take();
    assert!(list.is_empty());
    assert_eq!(all_of(&mut taken, &mem), vec![0x130, 0x110]);
}

#[test]
fn objects_stay_in_their_pages() {
    let mut bytes = space(2);
    let mut mem = Memory::new(0x1000, &mut bytes);
    let mut slab = Slab::new(&mut mem, 0x1000, 2, 1000);
    assert_eq!(slab.page_start(), 0x1000);
    assert!(slab.is_empty());
    assert!(!slab.is_full());
    assert!(slab.has_free());
    let mut objects = slab.take_freelist(true);
    assert_eq!(mem.read(0x1000), 0x1000 + 1000);
    assert_eq!(
        all_of(&mut objects, &mem),
        vec![4096, 5096, 6096, 7096, 8192, 9192, 10192, 11192]
    );
    assert!(!slab.has_free());
    assert!(slab.take_freelist(false).is_empty());
    assert!(!slab.is_full());
    assert!(slab.thaw_if_full());
    assert!(slab.is_full());
    assert_eq!(slab.push_object(&mut mem, 5096), (true, false));
    assert!(!slab.is_full());
    assert!(!slab.thaw_if_full());
    for o in [4096, 6096, 7096, 8192, 9192, 10192] {
        assert_eq!(slab.push_object(&mut mem, o), (false, false));
    }
    assert_eq!(slab.push_object(&mut mem, 11192), (false, true));
    assert!(slab.is_empty());
    assert_eq!(mem.read(11192), 10192);
}

#[test]
fn lists_of_slabs() {
    let mut bytes = space(3);
    let mut mem = Memory::new(0x1000, &mut bytes);
    let mut table = SlabTable::new();
    for i in 0..3 {
        let slab = Slab::new(&mut mem, 0x1000 * (i + 1), 1, 1024);
        assert_eq!(table.add_slab(slab), i);
    }
    assert_eq!(table.page_start(2), 0x3000);
    let mut list = SlabList::new();
    assert_eq!(list.pop(&mut table), None);
    list.push(&mut table, 0);
    list.push(&mut table, 1);
    list.push(&mut table, 2);
    assert_eq!(list.len(), 3);
    assert_eq!(list.head(), Some(2));
    list.remove(&mut table, 2);
    assert_eq!(list.len(), 2);
    assert_eq!(list.pop(&mut table), Some(1));
    assert_eq!(list.len(), 1);
    // the slabs behind the first have left, too
    assert_eq!(list.pop(&mut table), None);
    list.push(&mut table, 0);
    list.push(&mut table, 2);
    list.remove(&mut table, 0);
    assert_eq!(list.pop(&mut table), Some(2));
    assert_eq!(SlabList::default().len(), 0);
}

#[test]
fn a_cpu_takes_objects_from_its_slab() {
    let mut bytes = space(2);
    let mut mem = Memory::new(0x1000, &mut bytes);
    let mut table = SlabTable::new();
    table.add_slab(Slab::new(&mut mem, 0x1000, 1, 2048));
    table.add_slab(Slab::new(&mut mem, 0x2000, 1, 2048));
    let mut cpu = MemCacheCpu::new();
    assert_eq!(cpu.freelist_pop(&mem), None);
    cpu.replace_slab(&mut table, 0);
    assert_eq!(cpu.slab(), Some(0));
    assert!(cpu.has_free());
    assert_eq!(cpu.freelist_pop(&mem), Some(0x1000));
    assert_eq!(cpu.freelist_pop(&mem), Some(0x1800));
    assert_eq!(cpu.freelist_pop(&mem), None);
    // an object of the active slab comes back from elsewhere
    assert_eq!(table.push_object(&mut mem, 0, 0x1800), (false, false));
    assert!(table.has_free(0));
    cpu.replace_slab(&mut table, 1);
    assert_eq!(cpu.freelist_pop(&mem), Some(0x2000));
    assert_eq!(cpu.first_partial(), Some(0));
    assert_eq!(cpu.pop_partial(&mut table), Some(0));
    assert_eq!(cpu.pop_partial(&mut table), None);
    cpu.freelist_push(&mut mem, 0x2000);
    assert_eq!(cpu.freelist_pop(&mem), Some(0x2000));
    assert_eq!(cpu.take_slab(), Some(1));
    assert_eq!(cpu.slab(), None);
    assert!(!table.is_full(0));
    assert!(!table.is_empty(0));
}

#[test]
fn slabs_are_taken_in_turn() {
    let mut bytes = space(16);
    let mut memory = Memory::new(CHUNK, &mut bytes);
    let mem = &mut memory;
    let env = StdEnv::new(CHUNK, 16, Tid::new(5));
    assert_eq!(Env::cpu_id(&env), 1);
    let mut cache = MemCache::new(2, 1024, 1, 8, env);
    assert!(cache.needs_pages(1));
    let objects: Vec<usize> = (0..5).map(|_| cache.allocate(mem)).collect();
    assert_eq!(
        objects,
        vec![CHUNK, CHUNK + 0x400, CHUNK + 0x800, CHUNK + 0xc00, CHUNK + 0x1000]
    );
    // to the active slab: last in, first out
    cache.deallocate(mem, CHUNK + 0x1000);
    assert_eq!(cache.allocate(mem), CHUNK + 0x1000);
    // to a full slab, which is listed and taken once the active one is used up
    cache.deallocate(mem, CHUNK + 0x800);
    cache.deallocate(mem, CHUNK);
    assert_eq!(cache.allocate(mem), CHUNK + 0x1400);
    assert_eq!(cache.allocate(mem), CHUNK + 0x1800);
    assert_eq!(cache.allocate(mem), CHUNK + 0x1c00);
    assert!(!cache.needs_pages(1));
    assert_eq!(cache.allocate(mem), CHUNK);
    assert_eq!(cache.allocate(mem), CHUNK + 0x800);
    assert!(cache.needs_pages(1));
    assert_eq!(cache.allocate(mem), CHUNK + 0x2000);
}

#[test]
fn objects_of_the_first_slab_come_in_order() {
    let mut bytes = space(16);
    let mut memory = Memory::new(CHUNK, &mut bytes);
    let mem = &mut memory;
    let mut cache = MemCache::new(1, 1000, 2, 8, StdEnv::new(CHUNK, 16, Tid::new(0)));
    let objects: Vec<usize> = (0..8).map(|_| cache.allocate_on(mem, 0)).collect();
    let offsets = [0, 1000, 2000, 3000, 4096, 5096, 6096, 7096];
    assert_eq!(objects, offsets.map(|o| CHUNK + o).to_vec());
    // all of them lie in one run of pages
    assert!(cache.needs_pages(0));
    assert!(cache.env().has_pages(8));
    assert!(!cache.env().has_pages(16));
    cache.deallocate_on(mem, 0, CHUNK + 4096);
    assert_eq!(cache.allocate_on(mem, 0), CHUNK + 4096);
}

#[test]
fn the_first_slab_of_the_list_is_taken() {
    let mut bytes = space(16);
    let mut memory = Memory::new(CHUNK, &mut bytes);
    let mem = &mut memory;
    let mut cache = MemCache::new(1, 2048, 1, 8, StdEnv::new(CHUNK, 16, Tid::new(0)));
    let objects: Vec<usize> = (0..8).map(|_| cache.allocate_on(mem, 0)).collect();
    assert!(cache.needs_pages(0));
    // one object of each of the three slabs that are not active
    let mut back = Vec::new();
    for i in [0, 2, 4] {
        cache.deallocate_on(mem, 0, objects[i]);
        back.push(objects[i]);
    }
    assert!(!cache.needs_pages(0));
    // the first of the list is taken, the ones behind it leave the list
    assert_eq!(cache.allocate_on(mem, 0), back[2]);
    assert!(cache.needs_pages(0));
    let fresh = cache.allocate_on(mem, 0);
    assert!(!objects.contains(&fresh));
}

#[test]
fn cpus_have_slabs_of_their_own() {
    let mut bytes = space(16);
    let mut memory = Memory::new(CHUNK, &mut bytes);
    let mem = &mut memory;
    let env = StdEnv::new(CHUNK, 16, Tid::new(0));
    let mut cache = MemCache::new(2, 2048, 1, 8, env);
    let a = cache.allocate_on(mem, 0);
    let b = cache.allocate_on(mem, 1);
    assert_eq!((a, b), (CHUNK, CHUNK + 0x1000));
    assert_eq!(cache.allocate_on(mem, 0), CHUNK + 0x800);
    // an object of the other cpu's slab goes back to that slab
    cache.deallocate_on(mem, 1, a);
    assert_eq!(cache.allocate_on(mem, 1), CHUNK + 0x1800);
    assert_eq!(cache.allocate_on(mem, 0), CHUNK);
}

#[test]
fn no_object_is_handed_out_twice() {
    let mut bytes = space(1024);
    let mut memory = Memory::new(CHUNK, &mut bytes);
    let mem = &mut memory;
    let mut cache = mem_cache(3);
    let mut live: Vec<usize> = Vec::new();
    for round in 0..2000usize {
        let cpu = round % 3;
        if round % 5 < 3 {
            let object = cache.allocate_on(mem, cpu);
            assert!(!live.contains(&object));
            assert_eq!(object % 16, 0);
            // fill the object: what is handed out keeps its bytes
            mem.write(object, !object);
            mem.write(object + 8, object);
            live.push(object);
        } else {
            let object = live.swap_remove((round * 7) % live.len());
            assert_eq!(mem.read(object), !object);
            cache.deallocate_on(mem, cpu, object);
        }
    }
    assert_eq!(live.len(), 400);
    for object in live {
        assert_eq!(mem.read(object), !object);
        assert_eq!(mem.read(object + 8), object);
    }
}

#[test]
fn pages_come_back() {
    let mut bytes = space(16);
    let mut mem = Memory::new(CHUNK, &mut bytes);
    let env = StdEnv::new(CHUNK, 16, Tid::new(0));
    let mut cache = MemCache::new(1, 64, 1, 8, env);
    assert!(cache.env().has_pages(16));
    cache.allocate(&mut mem);
    assert!(!cache.env().has_pages(16));
    assert!(cache.env().has_pages(8));
    assert!(cache.can_list(0));
    assert!(cache.can_release());
    cache.release();
    assert!(cache.env().has_pages(16));
}

#[test]
fn objects_loaded_from_the_active_slab_are_not_counted_again() {
    let mut bytes = space(1);
    let mut mem = Memory::new(0x1000, &mut bytes);
    let mut slab = Slab::new(&mut mem, 0x1000, 1, 2048);
    assert!(!slab.take_freelist(true).is_empty());
    assert!(slab.thaw_if_full());
    assert_eq!(slab.push_object(&mut mem, 0x1000), (true, false));
    assert!(!slab.take_freelist(false).is_empty());
    // one of two objects counts as in use
    assert!(!slab.is_full());
    assert_eq!(slab.push_object(&mut mem, 0x1800), (false, true));
    assert!(slab.is_empty());
}

#[test]
fn pages_know_their_slab() {
    let mut env = StdEnv::new(CHUNK, 8, Tid::new(6));
    assert_eq!(Env::cpu_id(&env), 2);
    env.set_current(Tid::new(3));
    assert_eq!(Env::cpu_id(&env), 3);
    assert_eq!(Env::allocate_pages(&mut env, 2), CHUNK);
    let p = Env::allocate_pages(&mut env, 3);
    assert_eq!(p, CHUNK + 4 * 4096);
    env.set_pages_slab(p, 3, 17);
    assert_eq!(env.find_slab_by_page(p), 17);
    assert_eq!(env.find_slab_by_page(p + 2 * 4096), 17);
    Env::deallocate_pages(&mut env, CHUNK, 2);
    assert_eq!(env.find_slab_by_page(p + 4096), 17);
    // only pages whose index is below the number of pages forget their slab
    Env::deallocate_pages(&mut env, p, 3);
    assert_eq!(env.find_slab_by_page(p), 17);
    assert_eq!(Env::allocate_pages(&mut env, 1), CHUNK);
}

#[test]
fn slabs_of_a_fixed_size() {
    let env = StdEnv::new(CHUNK, 8, Tid::new(0));
    let mut slabs = SlabAlloc::<StdEnv, 64, 2, 16, 8, 4>::new(env);
    assert_eq!(slabs.new_slab(), CHUNK);
    assert_eq!(slabs.new_slab(), CHUNK + 2 * 4096);
}
