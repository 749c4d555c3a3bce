use rslab::{init_slab_system, FrameLedger, FrameSource, MemCache, SlabError, SlabState, SlabSystem, FREE_LIST_MAX};

/// Hands out frames from an address range that nothing else uses; the slab
/// system never touches the memory behind an address.
struct TestFrames {
    next: usize,
    budget: usize,
    freed: usize,
}

impl TestFrames {
    fn new() -> Self {
        TestFrames { next: 0x1000_0000, budget: usize::MAX, freed: 0 }
    }
}

impl FrameSource for TestFrames {
    fn alloc_frames(&mut self, num: usize) -> usize {
        if self.budget < num {
            return 0;
        }
        self.budget -= num;
        let addr = self.next;
        self.next += num * 4096;
        addr
    }

    fn free_frames(&mut self, _addr: usize, num: usize) {
        self.freed += num;
    }

    fn current_cpu_id(&self) -> usize {
        0
    }
}

fn system() -> SlabSystem<TestFrames> {
    init_slab_system(TestFrames::new(), 4096, 64).unwrap()
}

#[test]
fn test_create_cache() {
    let mut sys = system();
    // an object of 56 bytes with byte alignment
    let cache = sys.create_mem_cache("mycache0", 56, 1).unwrap();
    let cache_info = sys.get_cache_info(cache);
    assert_eq!(cache_info.cache_name, "mycache0");
    assert_eq!(cache_info.align, 8);
    assert_eq!(cache_info.per_frames, 0);
    assert_eq!(cache_info.per_objects, 67);
    assert_eq!(cache_info.total_objects, 0);
    assert_eq!(cache_info.used_objects, 0);
    assert_eq!(cache_info.local_objects, 0);
    assert_eq!(cache_info.shared_objects, 0);
    let t = sys.alloc_object(cache);
    assert_eq!(t.is_err(), false);
    let cache_info = sys.get_cache_info(cache);
    assert_eq!(cache_info.total_objects, 67);
    assert_eq!(cache_info.used_objects, 1);
    assert_eq!(cache_info.local_objects, cache_info.batch_count - 1);
    assert_eq!(cache_info.shared_objects, 0);
    assert!(sys.dealloc(cache, t.unwrap()).is_ok());
    let cache_info = sys.get_cache_info(cache);
    assert_eq!(cache_info.used_objects, 0);
    assert_eq!(cache_info.local_objects, cache_info.batch_count);
    assert_eq!(cache_info.shared_objects, 0);
    for _ in 0..cache_info.limit + 1 {
        let t = sys.alloc_object(cache);
        assert_eq!(t.is_err(), false);
    }
    let cache_info = sys.get_cache_info(cache);
    assert_eq!(cache_info.used_objects, (cache_info.limit + 1) as u64);
    assert_eq!(cache_info.local_objects, cache_info.batch_count - 1);
    sys.destroy(cache)
}

#[test]
fn duplicate_name_is_refused() {
    let mut sys = system();
    assert!(sys.create_mem_cache("dup", 64, 8).is_ok());
    assert_eq!(sys.create_mem_cache("dup", 32, 8), Err(SlabError::NameDuplicate));
    assert_eq!(sys.create_mem_cache("kmem_cache", 32, 8), Err(SlabError::NameDuplicate));
    assert_eq!(sys.create_mem_cache("malloc-64", 32, 8), Err(SlabError::NameDuplicate));
}

#[test]
fn name_free_again_after_destroy() {
    let mut sys = system();
    let c = sys.create_mem_cache("again", 64, 8).unwrap();
    sys.destroy(c);
    assert!(sys.create_mem_cache("again", 64, 8).is_ok());
}

#[test]
fn long_name_is_refused() {
    let mut sys = system();
    assert_eq!(
        sys.create_mem_cache("abcdefghijklmnopqrstu", 64, 8),
        Err(SlabError::NameTooLong)
    );
    assert!(sys.create_mem_cache("abcdefghijklmnopqrst", 64, 8).is_ok());
}

#[test]
fn oversized_object_is_refused() {
    let mut sys = system();
    assert_eq!(
        sys.create_mem_cache("huge", u32::MAX, 8),
        Err(SlabError::SizeTooLarge)
    );
}

#[test]
fn init_creates_reserved_caches_and_size_classes() {
    let sys = system();
    let ids = sys.cache_ids();
    assert_eq!(ids.len(), 23);
    assert_eq!(sys.get_cache_info(0).cache_name, "kmem_cache");
    assert_eq!(sys.get_cache_info(1).cache_name, "array_cache");
    assert_eq!(sys.get_cache_info(2).cache_name, "malloc-8");
    assert_eq!(sys.get_cache_info(2).object_size, 8);
    assert_eq!(sys.get_cache_info(13).cache_name, "malloc_16384");
    assert_eq!(sys.get_cache_info(22).cache_name, "malloc_8388608");
    assert_eq!(sys.get_cache_info(22).object_size, 8388608);
}

#[test]
fn addresses_are_unique_and_aligned() {
    let mut sys = system();
    let c = sys.create_mem_cache("uniq", 24, 8).unwrap();
    let mut seen = std::collections::HashSet::new();
    for _ in 0..1000 {
        let a = sys.alloc_object(c).unwrap();
        assert_eq!(a % 8, 0);
        assert!(seen.insert(a));
    }
    assert_eq!(sys.get_cache_info(c).used_objects, 1000);
}

#[test]
fn wide_alignment_is_kept() {
    let mut sys = system();
    let c = sys.create_mem_cache("wide", 100, 64).unwrap();
    let info = sys.get_cache_info(c);
    assert_eq!(info.align, 64);
    assert_eq!(info.object_size, 128);
    for _ in 0..200 {
        let a = sys.alloc_object(c).unwrap();
        assert_eq!(a % 64, 0);
    }
}

#[test]
fn round_trip_restores_live_objects() {
    let mut sys = system();
    let c = sys.create_mem_cache("trip", 40, 8).unwrap();
    let mut held = Vec::new();
    for _ in 0..300 {
        held.push(sys.alloc_object(c).unwrap());
    }
    for a in held.iter().step_by(2) {
        assert!(sys.dealloc(c, *a).is_ok());
    }
    assert_eq!(sys.get_cache_info(c).used_objects, 150);
    for a in held.iter().skip(1).step_by(2) {
        assert!(sys.dealloc(c, *a).is_ok());
    }
    assert_eq!(sys.get_cache_info(c).used_objects, 0);
}

#[test]
fn foreign_and_double_frees_are_refused() {
    let mut sys = system();
    let c = sys.create_mem_cache("own", 40, 8).unwrap();
    let d = sys.create_mem_cache("other", 40, 8).unwrap();
    let a = sys.alloc_object(c).unwrap();
    let b = sys.alloc_object(d).unwrap();
    assert_eq!(sys.dealloc(c, b), Err(SlabError::NotInCache));
    assert_eq!(sys.dealloc(c, 12345), Err(SlabError::NotInCache));
    assert_eq!(sys.dealloc(c, a + 1), Err(SlabError::NotInCache));
    assert!(sys.dealloc(c, a).is_ok());
    assert_eq!(sys.dealloc(c, a), Err(SlabError::NotInCache));
    assert_eq!(sys.get_cache_info(d).used_objects, 1);
}

#[test]
fn accounting_follows_operations() {
    let mut sys = system();
    let c = sys.create_mem_cache("acct", 56, 8).unwrap();
    let mut held = Vec::new();
    for _ in 0..100 {
        held.push(sys.alloc_object(c).unwrap());
    }
    let per = sys.entries[c].cache.per_objects;
    for slab in sys.entries[c].cache.mem_cache_node.slabs.iter() {
        let expected = if slab.used_object == 0 {
            SlabState::Free
        } else if slab.used_object == per {
            SlabState::Full
        } else {
            SlabState::Partial
        };
        assert_eq!(slab.state, expected);
    }
    let info = sys.get_cache_info(c);
    assert_eq!(info.total_objects % info.per_objects as u64, 0);
    assert_eq!(info.total_objects, 2 * 67);
    assert_eq!(info.used_objects, 100);
    assert_eq!(info.local_objects, 4);
    assert_eq!(info.shared_objects, 0);
    for a in held.drain(..) {
        sys.dealloc(c, a).unwrap();
    }
    let info = sys.get_cache_info(c);
    assert_eq!(info.used_objects, 0);
    assert_eq!(info.local_objects + info.shared_objects <= 32, true);
}

#[test]
fn free_slabs_beyond_bound_go_back() {
    let mut sys = system();
    let c = sys.create_mem_cache("bulk", 2048, 8).unwrap();
    let mut held = Vec::new();
    for _ in 0..200 {
        held.push(sys.alloc_object(c).unwrap());
    }
    let slabs_before = sys.get_cache_info(c).total_objects;
    assert_eq!(slabs_before, 200);
    for a in held.drain(..) {
        sys.dealloc(c, a).unwrap();
    }
    let node = &sys.entries[c].cache.mem_cache_node;
    assert!(node.free_len as usize <= FREE_LIST_MAX);
    let free = node.slabs.iter().filter(|s| s.state == SlabState::Free).count();
    assert_eq!(free, node.free_len as usize);
    let info = sys.get_cache_info(c);
    // at most 32 objects wait in the array caches, two per slab, beside the free list
    assert!(info.total_objects / info.per_objects as u64 <= 16 + 16);
    assert!(sys.frames.source.freed > 0);
}

#[test]
fn size_classes_serve_requests() {
    let mut sys = system();
    let before = sys.get_cache_info(6).used_objects;
    let a = sys.alloc_from_slab(100, 8).unwrap();
    assert_eq!(sys.get_cache_info(6).cache_name, "malloc-128");
    assert_eq!(sys.get_cache_info(6).used_objects, before + 1);
    assert_eq!(a % 8, 0);
    assert!(sys.dealloc_to_slab(a).is_ok());
    assert_eq!(sys.get_cache_info(6).used_objects, before);
    assert_eq!(sys.dealloc_to_slab(a), Err(SlabError::NotInCache));
    let big = sys.alloc_from_slab(8 * 1024 * 1024, 8).unwrap();
    assert!(sys.dealloc_to_slab(big).is_ok());
    assert_eq!(sys.alloc_from_slab(8 * 1024 * 1024 + 1, 8), Err(SlabError::SizeTooLarge));
    let one = sys.alloc_from_slab(1, 1).unwrap();
    assert_eq!(sys.get_cache_info(2).used_objects >= 1, true);
    assert!(sys.dealloc_to_slab(one).is_ok());
}

#[test]
fn missing_frames_are_reported() {
    let mut sys = system();
    let c = sys.create_mem_cache("starved", 512, 8).unwrap();
    sys.frames.source.budget = 0;
    assert_eq!(sys.alloc_object(c), Err(SlabError::CantAllocFrame));
    let info = sys.get_cache_info(c);
    assert_eq!(info.used_objects, 0);
    assert_eq!(info.total_objects, 0);
}

#[test]
fn failed_refill_gives_objects_back() {
    let mut sys = system();
    // a slab of this cache holds fewer objects than one batch
    let c = sys.create_mem_cache("thin", 1024, 8).unwrap();
    sys.frames.source.budget = 1;
    assert_eq!(sys.alloc_object(c), Err(SlabError::CantAllocFrame));
    let info = sys.get_cache_info(c);
    assert_eq!(info.used_objects, 0);
    assert_eq!(info.local_objects, 0);
}

#[test]
fn exhausted_array_caches_are_reported() {
    let mut seen_array_error = false;
    for budget in 0..64 {
        let mut sys = system();
        sys.frames.source.budget = budget;
        for k in 0..64 {
            let name = format!("c{}", k);
            match sys.create_mem_cache(&name, 64, 8) {
                Ok(_) => {}
                Err(SlabError::ArrayCacheAllocError) => {
                    seen_array_error = true;
                    assert!(sys.create_mem_cache(&name, 64, 8).is_err());
                    break;
                }
                Err(e) => {
                    assert_eq!(e, SlabError::CantAllocFrame);
                    break;
                }
            }
        }
    }
    assert!(seen_array_error);
}

#[test]
fn destroy_returns_frames() {
    let mut sys = system();
    let c = sys.create_mem_cache("gone", 256, 8).unwrap();
    for _ in 0..100 {
        sys.alloc_object(c).unwrap();
    }
    let freed = sys.frames.source.freed;
    sys.destroy(c);
    assert!(sys.frames.source.freed > freed);
    let info = sys.get_cache_info(c);
    assert_eq!(info.total_objects, 0);
    assert_eq!(info.used_objects, 0);
    assert_eq!(sys.cache_ids().contains(&c), false);
}

#[test]
fn last_freed_is_reused_first() {
    let mut sys = system();
    let c = sys.create_mem_cache("lifo", 64, 8).unwrap();
    let a = sys.alloc_object(c).unwrap();
    let b = sys.alloc_object(c).unwrap();
    sys.dealloc(c, a).unwrap();
    assert_eq!(sys.alloc_object(c).unwrap(), a);
    sys.dealloc(c, b).unwrap();
    assert_eq!(sys.alloc_object(c).unwrap(), b);
}

#[test]
fn full_cpu_cache_spills_oldest_batch() {
    let mut sys = system();
    let c = sys.create_mem_cache("spill", 64, 8).unwrap();
    let mut held = Vec::new();
    for _ in 0..24 {
        held.push(sys.alloc_object(c).unwrap());
    }
    assert_eq!(sys.get_cache_info(c).local_objects, 0);
    for a in held.iter().take(16) {
        sys.dealloc(c, *a).unwrap();
    }
    let info = sys.get_cache_info(c);
    assert_eq!(info.local_objects, 16);
    assert_eq!(info.shared_objects, 0);
    sys.dealloc(c, held[16]).unwrap();
    let info = sys.get_cache_info(c);
    assert_eq!(info.local_objects, 9);
    assert_eq!(info.shared_objects, 8);
    let per_cpu: Vec<usize> = sys.entries[c].cache.array_cache[0].entries[0..9].to_vec();
    let mut expected: Vec<usize> = held[8..16].to_vec();
    expected.push(held[16]);
    assert_eq!(per_cpu, expected);
    // an empty per-CPU cache refills from the shared array first
    for _ in 0..9 {
        sys.alloc_object(c).unwrap();
    }
    let before = sys.get_cache_info(c);
    assert_eq!(before.local_objects, 0);
    let a = sys.alloc_object(c).unwrap();
    assert_eq!(a, held[7]);
    let info = sys.get_cache_info(c);
    assert_eq!(info.local_objects, 7);
    assert_eq!(info.shared_objects, 0);
    assert_eq!(info.total_objects, before.total_objects);
}

#[test]
fn per_cpu_caches_are_separate() {
    let mut frames = FrameLedger::new(TestFrames::new());
    let mut cache = MemCache::with_frames(4096, 64);
    cache.init("cpus", 32, 8).unwrap();
    let a = cache.alloc_on(&mut frames, 3).unwrap();
    assert_ne!(a, 0);
    assert_eq!(cache.array_cache[3].avail, 7);
    assert_eq!(cache.array_cache[0].avail, 0);
    assert!(cache.dealloc_on(&mut frames, 5, a).is_ok());
    assert_eq!(cache.array_cache[5].avail, 1);
    assert_eq!(cache.alloc_on(&mut frames, 5).unwrap(), a);
    assert_eq!(cache.dealloc_on(&mut frames, 5, a + 32 * 1000), Err(SlabError::NotInCache));
}

#[test]
fn frame_runs_are_checked() {
    let mut cache = MemCache::with_frames(4096, 64);
    cache.init("frames", 32, 8).unwrap();
    let geo = rslab::slab::SlabGeometry {
        object_size: cache.object_size as usize,
        per_objects: cache.per_objects as usize,
        slab_bytes: cache.slab_bytes,
        frames: cache.frames,
        frame_size: cache.frame_size,
        desc_bytes: cache.desc_bytes,
        align: cache.align as usize,
        cache_line: cache.color_off as usize,
        color: cache.color as usize,
    };
    let node = &cache.mem_cache_node;
    assert!(!node.frames_usable(geo, 0));
    assert!(!node.frames_usable(geo, 4097));
    assert!(!node.frames_usable(geo, usize::MAX - 4095));
    assert!(node.frames_usable(geo, 0x1000_0000));
}

#[test]
fn start_up_classes_are_empty_powers_of_two() {
    let sys = system();
    for i in 0..21 {
        let info = sys.get_cache_info(2 + i);
        assert_eq!(info.object_size, 1u32 << (i + 3));
        assert_eq!(info.align, 8);
        assert_eq!(info.total_objects, 0);
        assert_eq!(info.used_objects, 0);
    }
}
