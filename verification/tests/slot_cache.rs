//! Behaviour of the slot cache on concrete routes.

use freetoken::slot_cache::SlotCache;

#[test]
fn cold_lookup_is_all_misses_then_all_hits() {
    let mut c = SlotCache::new(8);
    let l = c.lookup(0, &[3, 1, 4]);
    assert_eq!(l.hits.len(), 0);
    assert_eq!(l.misses.len(), 3);
    let l = c.lookup(0, &[3, 1, 4]);
    assert_eq!(l.hits.len(), 3);
    assert_eq!(l.misses.len(), 0);
}

#[test]
fn lru_evicts_oldest_across_layers() {
    let mut c = SlotCache::new(2);
    c.lookup(0, &[10]); // slot A
    c.lookup(1, &[20]); // slot B
    c.lookup(0, &[10]); // touch A -> B is now the oldest
    let l = c.lookup(2, &[30]); // must evict (1, 20)
    assert_eq!(l.misses.len(), 1);
    let l = c.lookup(0, &[10]);
    assert_eq!(l.hits.len(), 1, "recently-touched expert survived");
    let l = c.lookup(1, &[20]);
    assert_eq!(l.misses.len(), 1, "LRU expert was evicted");
}

#[test]
fn step_hits_never_evicted_by_same_step_misses() {
    let mut c = SlotCache::new(2);
    c.lookup(0, &[1, 2]);
    // 1 hits, 3 misses; the miss must evict 2 (untouched), never 1.
    let l = c.lookup(0, &[1, 3]);
    assert_eq!(l.hits, vec![(1, 0)]);
    assert_eq!(l.misses.len(), 1);
    assert_eq!(c.lookup(0, &[1]).hits.len(), 1);
}

#[test]
fn forgotten_experts_miss_again() {
    let mut c = SlotCache::new(2);
    c.lookup(0, &[1, 2]);
    c.forget(0, 1);
    c.forget(5, 5);
    let l = c.lookup(0, &[2, 1]);
    assert_eq!(l.hits, vec![(2, 1)]);
    assert_eq!(l.misses, vec![(1, 0)]);
    assert_eq!((c.hits_total, c.misses_total), (1, 3));
    assert_eq!(c.capacity(), 2);
}

#[test]
fn distinct_experts_that_fit_all_become_resident() {
    let mut c = SlotCache::new(4);
    c.lookup(1, &[1, 2, 3, 4]);
    c.lookup(2, &[9, 8, 7]);
    assert_eq!(c.lookup(2, &[9, 8, 7]).hits.len(), 3);
}

#[test]
fn more_misses_than_slots_share_slots() {
    let mut c = SlotCache::new(2);
    let l = c.lookup(0, &[1, 2, 3]);
    assert_eq!(l.misses, vec![(1, 0), (2, 1), (3, 0)]);
    assert_eq!(c.lookup(0, &[1]).hits.len(), 0);
    // a hit gives way where every slot is the slot of a hit
    let mut c = SlotCache::new(1);
    c.lookup(0, &[1]);
    let l = c.lookup(0, &[1, 2]);
    assert_eq!((l.hits, l.misses), (vec![(1, 0)], vec![(2, 0)]));
}

#[test]
fn hits_stay_when_misses_share_slots() {
    let mut c = SlotCache::new(2);
    c.lookup(0, &[1]);
    let l = c.lookup(0, &[1, 2, 3]);
    assert_eq!(l.hits, vec![(1, 0)]);
    assert_eq!(l.misses, vec![(2, 1), (3, 1)]);
    assert_eq!(c.lookup(0, &[1]).hits, vec![(1, 0)]);
}

#[test]
fn a_second_lookup_finds_the_same_slots() {
    let mut c = SlotCache::new(4);
    c.lookup(0, &[1, 2, 3]);
    let l = c.lookup(0, &[5, 2, 6]);
    assert_eq!(l.hits, vec![(2, 1)]);
    // one free slot and the oldest one
    assert_eq!(l.misses, vec![(5, 3), (6, 0)]);
    let again = c.lookup(0, &[5, 2, 6]);
    assert_eq!(again.hits, vec![(5, 3), (2, 1), (6, 0)]);
    assert!(again.misses.is_empty());
    // only the oldest expert had to leave
    assert_eq!(c.lookup(0, &[3]).hits, vec![(3, 2)]);
    assert!(c.lookup(0, &[1]).hits.is_empty());
}

#[test]
fn misses_spare_the_slots_of_hits() {
    let mut c = SlotCache::new(3);
    c.lookup(0, &[1, 2, 3]);
    let l = c.lookup(0, &[4, 1, 5]);
    assert_eq!(l.hits, vec![(1, 0)]);
    assert_eq!(l.misses, vec![(4, 1), (5, 2)]);
}
