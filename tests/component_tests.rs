use rslab::{ArrayCache, CacheNode, LayoutMode, MemCache, PER_CPU_OBJECTS};

#[test]
fn test_push_pop() {
    let mut inner = ArrayCache::new();
    assert_eq!(inner.is_empty(), true);
    assert_eq!(inner.batch_count as usize, PER_CPU_OBJECTS / 2);
    assert_eq!(inner.limit as usize, PER_CPU_OBJECTS);
    let data = [0; PER_CPU_OBJECTS];
    let batch = inner.batch_count as usize;
    inner.push(&data[0..batch]);
    inner.push(&data[0..batch]);
    assert_eq!(inner.is_empty(), false);
    assert_eq!(inner.avail as usize, PER_CPU_OBJECTS);
    let _ = inner.pop();
    assert_eq!(inner.avail, PER_CPU_OBJECTS as u32 / 2);
}

#[test]
fn test_get_put() {
    let mut inner = ArrayCache::new();
    let data = [10; PER_CPU_OBJECTS];
    let batch = inner.batch_count as usize;
    inner.push(&data[0..batch]);
    let t = inner.get();
    assert_eq!(10, t as usize);
    assert_eq!(inner.avail as usize, batch - 1);
}

#[test]
fn array_cache_spills_oldest_and_refills_newest() {
    let mut inner = ArrayCache::new();
    let data: Vec<usize> = (1..=16).collect();
    inner.push(&data[0..8]);
    inner.push(&data[8..16]);
    assert!(inner.is_full());
    let oldest = inner.pop();
    assert_eq!(oldest, vec![1, 2, 3, 4, 5, 6, 7, 8]);
    inner.put(99);
    assert_eq!(inner.get(), 99);
    assert!(inner.contains(16));
    assert!(!inner.contains(1));
    let newest = inner.pop_back();
    assert_eq!(newest, vec![9, 10, 11, 12, 13, 14, 15, 16]);
    assert!(inner.is_empty());
}

#[test]
fn test_init_cache_small_obj() {
    let mut cache = MemCache::new();
    cache.init("test_cache", 128, 7).unwrap();
    assert_eq!(cache.align, 8);
    assert_eq!(cache.cache_name, "test_cache");
    assert_eq!(cache.object_size, 128);
    assert_eq!(cache.layout_mode, LayoutMode::On);
    assert_eq!(cache.per_frames, 0);
    assert_eq!(cache.per_objects, 30);
    assert_eq!(cache.color, 5);
    cache.init("test_cache", 127, 7).unwrap();
    assert_eq!(cache.object_size, 128);
}

#[test]
fn test_init_cache_big_obj() {
    let mut cache = MemCache::new();
    cache.init("test_cache", 512, 7).unwrap();
    assert_eq!(cache.layout_mode, LayoutMode::Off);
    assert_eq!(cache.color, 0);
    assert_eq!(cache.per_frames, 0);
    assert_eq!(cache.per_objects, 8);
}

#[test]
fn test_cache_node() {
    let mut node = CacheNode::new();
    node.init();
    let x = node.total_slabs();
    assert_eq!(x, 0);
    assert_eq!(node.used_objects(10), 0);
}

#[test]
fn sizing_wastes_under_an_eighth() {
    for &page in &[4096usize, 8192] {
        for shift in 0..7 {
            let align = 1u32 << shift;
            let mut size = 1u32;
            while (size as usize) < page * 8 {
                let mut cache = MemCache::with_frames(page, 64);
                cache.init("sizing", size, align).unwrap();
                assert!(cache.align >= 8);
                assert_eq!(cache.align, align.max(8));
                assert_eq!(cache.object_size % cache.align, 0);
                let total = cache.slab_bytes;
                let used = cache.per_objects as usize * cache.object_size as usize + cache.desc_bytes;
                assert!(used <= total);
                assert!((total - used) * 8 < total);
                assert_eq!(total, page << cache.per_frames);
                size += 7;
            }
        }
    }
}

#[test]
fn large_objects_keep_descriptors_apart() {
    let mut cache = MemCache::with_frames(4096, 64);
    cache.init("big", 3000, 8).unwrap();
    assert_eq!(cache.layout_mode, LayoutMode::Off);
    assert_eq!(cache.desc_bytes, 0);
    assert_eq!(cache.object_size, 3000);
    // one frame wastes 1096 bytes, two waste 2192 of 8192, four 1384 of 16384
    assert_eq!(cache.per_frames, 2);
    assert_eq!(cache.per_objects, 5);
}

#[test]
fn embedded_descriptor_layout() {
    let mut cache = MemCache::with_frames(4096, 64);
    cache.init("c0", 56, 8).unwrap();
    assert_eq!(cache.layout_mode, LayoutMode::On);
    assert_eq!(cache.per_objects, 67);
    assert_eq!(cache.per_frames, 0);
    assert_eq!(cache.desc_bytes, 328);
    assert_eq!(cache.color, 0);
}

#[test]
fn odd_alignment_falls_back_to_a_word() {
    let mut cache = MemCache::with_frames(4096, 64);
    cache.init("odd", 20, 12).unwrap();
    assert_eq!(cache.align, 8);
    assert_eq!(cache.object_size, 24);
}
