use hakodb::memory::page_cache::{BlockKey, PageCache};

fn k(seg: u64, off: u64) -> BlockKey {
    BlockKey { segment_id: seg, offset: off }
}

#[test]
fn hit_returns_data() {
    let mut c = PageCache::new(1024);
    c.put(k(0, 0), vec![1u8; 32]);
    let arc = c.get(&k(0, 0)).expect("hit");
    assert_eq!(arc.len(), 32);
}

#[test]
fn miss_returns_none() {
    let mut c = PageCache::new(1024);
    assert!(c.get(&k(0, 0)).is_none());
}

#[test]
fn eviction_removes_oldest() {
    let mut c = PageCache::new(64);
    c.put(k(0, 0), vec![1u8; 32]);
    c.put(k(0, 1), vec![2u8; 32]);
    c.put(k(0, 2), vec![3u8; 32]);
    assert!(c.get(&k(0, 0)).is_none(), "oldest evicted");
    assert!(c.get(&k(0, 1)).is_some(), "second survives");
    assert!(c.get(&k(0, 2)).is_some(), "newest lives");
}

#[test]
fn block_bigger_than_cache_is_dropped() {
    let mut c = PageCache::new(16);
    c.put(k(0, 0), vec![1u8; 32]);
    assert!(c.get(&k(0, 0)).is_none());
    assert_eq!(c.len(), 0);
}

#[test]
fn positions_and_blocks_stay_consistent_under_repeated_hits() {
    let mut c = PageCache::new(1024);
    for i in 0..50 {
        c.put(k(0, i), vec![i as u8; 16]);
    }
    for i in 0..50 {
        assert!(c.get(&k(0, i)).is_some());
    }
    assert_eq!(c.order().len(), c.len());
    for (i, key) in c.order().iter().enumerate() {
        assert_eq!(c.position(key), Some(i));
    }
    assert_eq!(c.order().len(), 50);
}

#[test]
fn repeated_hit_on_same_key_stays_at_back() {
    let mut c = PageCache::new(1024);
    for i in 0..5 {
        c.put(k(0, i), vec![i as u8; 16]);
    }
    for _ in 0..3 {
        assert!(c.get(&k(0, 0)).is_some());
    }
    assert_eq!(c.order().last(), Some(&k(0, 0)));
    assert_eq!(c.position(&k(0, 0)), Some(c.order().len() - 1));
}

#[test]
fn a_hit_hands_out_the_bytes_that_were_put() {
    let mut c = PageCache::new(1024);
    c.put(k(3, 7), vec![1, 2, 3]);
    let a = c.get(&k(3, 7)).unwrap();
    assert_eq!(*a, vec![1u8, 2, 3]);
    let b = c.get(&k(3, 7)).unwrap();
    assert_eq!(*b, vec![1u8, 2, 3]);
    assert_eq!(c.len(), 1);
}
