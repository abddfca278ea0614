use freetoken::dispatch::{dispatch, Fetch, HostPair, Memory, Pair, Source};
use freetoken::slot_cache::SlotCache;

#[test]
fn misses_are_shared_out() {
    let mut cache = SlotCache::new(4);
    cache.lookup(3, &[7]);
    let quota = [0, 0, 1, 1];
    let d = dispatch(&mut cache, 3, &vec![vec![5, 7, 9]], &quota);
    assert_eq!(d.fetches, vec![Fetch { expert: 5, slot: 1 }]);
    assert_eq!(
        d.pairs,
        vec![
            Pair { seq: 0, choice: 1, source: Source::Slot(0) },
            Pair { seq: 0, choice: 0, source: Source::Bank(5) },
        ]
    );
    assert_eq!(d.host, vec![HostPair { seq: 0, choice: 2, expert: 9 }]);
    // the fetched expert stays, the one on the host does not
    assert_eq!(cache.lookup(3, &[5, 9]).hits, vec![(5, 1)]);
}

#[test]
fn sequences_are_planned_in_order() {
    let mut cache = SlotCache::new(8);
    let quota = [0, 1, 2];
    let d = dispatch(&mut cache, 0, &vec![vec![1, 2], vec![2, 3]], &quota);
    assert_eq!(
        d.pairs,
        vec![
            Pair { seq: 0, choice: 0, source: Source::Bank(1) },
            Pair { seq: 0, choice: 1, source: Source::Bank(2) },
            Pair { seq: 1, choice: 0, source: Source::Bank(2) },
            Pair { seq: 1, choice: 1, source: Source::Bank(3) },
        ]
    );
    assert_eq!(d.fetches.len(), 3);
    assert!(d.host.is_empty());
    // the shared expert is a hit for the second sequence
    assert_eq!((cache.hits_total, cache.misses_total), (1, 3));
    // in the next step it is read from its slot
    let d = dispatch(&mut cache, 0, &vec![vec![2], vec![2]], &quota);
    assert!(d.fetches.is_empty());
    assert!(d.pairs.iter().all(|p| p.source == Source::Slot(1)));
    assert_eq!((cache.hits_total, cache.misses_total), (3, 3));
}

#[test]
fn a_shared_expert_is_read_from_the_bank_while_it_is_fetched() {
    let mut cache = SlotCache::new(2);
    let d = dispatch(&mut cache, 0, &vec![vec![5], vec![5]], &[0, 1]);
    assert_eq!(d.fetches, vec![Fetch { expert: 5, slot: 0 }]);
    assert_eq!(
        d.pairs,
        vec![
            Pair { seq: 0, choice: 0, source: Source::Bank(5) },
            Pair { seq: 1, choice: 0, source: Source::Bank(5) },
        ]
    );
}

#[test]
fn no_sequence_reads_what_another_one_fills() {
    let mut cache = SlotCache::new(6);
    for step in 0..40u32 {
        let routed: Vec<Vec<u32>> =
            (0..3).map(|s| vec![(step + s * 4) % 9, (step * 2 + s * 4 + 1) % 9 + 9]).collect();
        let d = dispatch(&mut cache, 0, &routed, &[0, 1, 1]);
        for (i, f) in d.fetches.iter().enumerate() {
            assert!(d.pairs.iter().all(|p| p.source != Source::Slot(f.slot)));
            assert!(d.fetches[..i].iter().all(|g| g.slot != f.slot));
        }
    }
}

#[test]
fn nothing_is_fetched_without_a_quota() {
    let mut cache = SlotCache::new(2);
    let d = dispatch(&mut cache, 0, &vec![vec![1, 2, 3]], &[0, 0, 0, 0]);
    assert!(d.fetches.is_empty() && d.pairs.is_empty());
    assert_eq!(d.host.len(), 3);
    assert!(cache.lookup(0, &[1, 2]).hits.is_empty());
}

#[test]
fn every_choice_is_computed_once() {
    let mut cache = SlotCache::new(5);
    for step in 0..20u32 {
        let ids: Vec<u32> = (0..4).map(|i| (step * 3 + i * 5) % 11).collect();
        let d = dispatch(&mut cache, 1, &vec![ids], &[0, 1, 1, 2, 2]);
        let mut seen: Vec<u32> = d.pairs.iter().map(|p| p.choice).collect();
        seen.extend(d.host.iter().map(|h| h.choice));
        seen.sort();
        assert_eq!(seen, vec![0, 1, 2, 3]);
    }
}

#[test]
fn sources_have_addresses() {
    let m = Memory { bank_base: 1000, cache_base: 50, n_experts: 8, size: 10 };
    assert_eq!(m.bank_offset(2, 3), 190);
    assert_eq!(m.slot_offset(4), 40);
    assert_eq!(m.base(2, Source::Bank(3)), 1190);
    assert_eq!(m.base(2, Source::Slot(4)), 90);
}

#[test]
fn fetches_spare_the_slots_that_are_read() {
    let mut cache = SlotCache::new(4);
    for step in 0..30u32 {
        let ids: Vec<u32> = (0..4).map(|i| (step * 2 + i * 3) % 13).collect();
        let d = dispatch(&mut cache, 0, &vec![ids], &[0, 1, 2, 3, 4]);
        for f in &d.fetches {
            assert!(d.pairs.iter().all(|p| p.source != Source::Slot(f.slot)));
            assert_eq!(cache.lookup(0, &[f.expert]).hits, vec![(f.expert, f.slot)]);
        }
    }
}
