use wordchipper::concurrency::pool_toy::PoolToy;
use wordchipper::disk_cache::{
    pick_dir, resolve_cache_dir, resolve_data_dir, DiskDownloadCache, DiskDownloadCacheOptions,
    ResolveError, WORDCHIPPER_CACHE_DIR, WORDCHIPPER_DATA_DIR,
};
use wordchipper::encoders::span_encoders::merge_heap::{HeapEntry, MergeHeap};

fn s(text: &str) -> Option<String> {
    Some(text.to_string())
}

#[test]
fn pool_size_is_capped_by_the_system() {
    assert_eq!(PoolToy::init(7u32, None, 4).len(), 4);
    assert_eq!(PoolToy::init(7u32, Some(2), 4).len(), 2);
    assert_eq!(PoolToy::init(7u32, Some(9), 4).len(), 4);
    assert_eq!(PoolToy::init(7u32, Some(4), 4).len(), 4);
    assert_eq!(PoolToy::init(7u32, Some(1), 1).len(), 1);
}

#[test]
fn pool_slot_is_the_hash_modulo_the_size() {
    let pool = PoolToy::new(vec![10u32, 11, 12]);
    assert_eq!(pool.len(), 3);
    assert_eq!(*pool.get(0), 10);
    assert_eq!(*pool.get(1), 11);
    assert_eq!(*pool.get(2), 12);
    assert_eq!(*pool.get(3), 10);
    assert_eq!(*pool.get(usize::MAX), [10u32, 11, 12][usize::MAX % 3]);
    let cloned = pool.clone();
    assert_eq!(*cloned.get(5), 12);
    let same = PoolToy::init(String::from("x"), Some(3), 8);
    assert_eq!(same.get(0), "x");
    assert_eq!(same.get(2), "x");
}

#[test]
fn heap_pops_by_rank_then_position_then_generation() {
    let mut heap = MergeHeap::new();
    assert_eq!(heap.pop(), None);
    let entries = [
        (5u32, 3u32, 0u8),
        (2, 9, 1),
        (5, 1, 7),
        (2, 9, 0),
        (9, 0, 0),
        (2, 4, 3),
        (5, 1, 7),
        (0, 100, 255),
    ];
    for (rank, pos, generation) in entries {
        heap.push(HeapEntry { rank, pos, generation });
    }
    assert_eq!(heap.len(), 8);
    let mut popped = Vec::new();
    while let Some(e) = heap.pop() {
        popped.push((e.rank, e.pos, e.generation));
    }
    let mut sorted = entries.to_vec();
    sorted.sort();
    assert_eq!(popped, sorted);
    assert_eq!(heap.len(), 0);
    heap.push(HeapEntry { rank: 1, pos: 1, generation: 1 });
    heap.clear();
    assert_eq!(heap.pop(), None);
    let a = HeapEntry { rank: 1, pos: 2, generation: 3 };
    assert!(a.is_before(&a));
    assert!(a.is_before(&HeapEntry { rank: 1, pos: 2, generation: 4 }));
    assert!(a.is_before(&HeapEntry { rank: 1, pos: 3, generation: 0 }));
    assert!(!a.is_before(&HeapEntry { rank: 0, pos: 9, generation: 9 }));
}

#[test]
fn heap_keeps_order_under_many_entries() {
    let mut heap = MergeHeap::new();
    let mut expected = Vec::new();
    let mut x: u32 = 12345;
    for i in 0..500u32 {
        x = x.wrapping_mul(1103515245).wrapping_add(12345);
        let entry = (x % 50, i % 7, (x >> 8) as u8);
        expected.push(entry);
        heap.push(HeapEntry { rank: entry.0, pos: entry.1, generation: entry.2 });
    }
    expected.sort();
    let mut popped = Vec::new();
    while let Some(e) = heap.pop() {
        popped.push((e.rank, e.pos, e.generation));
    }
    assert_eq!(popped, expected);
}

#[test]
fn directory_is_the_first_that_is_there() {
    assert_eq!(pick_dir(s("p"), s("e"), s("d")), s("p"));
    assert_eq!(pick_dir(None, s("e"), s("d")), s("e"));
    assert_eq!(pick_dir(None, None, s("d")), s("d"));
    assert_eq!(pick_dir(None, None, None), None);
    assert_eq!(resolve_cache_dir(s("/tmp/wordchipper"), None), s("/tmp/wordchipper"));
    assert_eq!(
        resolve_cache_dir(s("/tmp/wordchipper"), s("/tmp/wordchipper-cache")),
        s("/tmp/wordchipper")
    );
    assert_eq!(
        resolve_cache_dir(None, s("/tmp/wordchipper-cache")),
        s("/tmp/wordchipper-cache")
    );
    assert_eq!(resolve_data_dir(s("/tmp/wordchipper"), None), s("/tmp/wordchipper"));
    assert_eq!(
        resolve_data_dir(None, s("/tmp/wordchipper-data")),
        s("/tmp/wordchipper-data")
    );
    assert_eq!(WORDCHIPPER_CACHE_DIR, "WORDCHIPPER_CACHE_DIR");
    assert_eq!(WORDCHIPPER_DATA_DIR, "WORDCHIPPER_DATA_DIR");
}

#[test]
fn options_resolve_against_what_is_given() {
    let user = DiskDownloadCacheOptions {
        cache_dir: s("/tmp/wordchipper/cache"),
        data_dir: s("/tmp/wordchipper/data"),
    };
    let cache = DiskDownloadCache::init(
        user,
        s("/tmp/wordchipper/env_cache"),
        s("/tmp/wordchipper/env_data"),
    )
    .ok()
    .unwrap();
    assert_eq!(cache.options().cache_dir, s("/tmp/wordchipper/cache"));
    assert_eq!(cache.options().data_dir, s("/tmp/wordchipper/data"));

    let cache = DiskDownloadCache::init(
        DiskDownloadCacheOptions::default(),
        s("/tmp/wordchipper/env_cache"),
        s("/tmp/wordchipper/env_data"),
    )
    .ok()
    .unwrap();
    assert_eq!(cache.options().cache_dir, s("/tmp/wordchipper/env_cache"));
    assert_eq!(cache.options().data_dir, s("/tmp/wordchipper/env_data"));

    let resolved = DiskDownloadCacheOptions { cache_dir: None, data_dir: s("d") }
        .resolve_with(s("c"), None)
        .ok()
        .unwrap();
    assert_eq!(resolved.cache_dir, s("c"));
    assert_eq!(resolved.data_dir, s("d"));
    assert_eq!(
        DiskDownloadCacheOptions::default().resolve_with(None, s("d")).err(),
        Some(ResolveError::CacheDir)
    );
    assert_eq!(
        DiskDownloadCacheOptions::default().resolve_with(s("c"), None).err(),
        Some(ResolveError::DataDir)
    );
    assert_eq!(ResolveError::CacheDir.message(), "Unable to resolve cache dir.");
    assert_eq!(ResolveError::DataDir.message(), "Unable to resolve data dir.");
}
