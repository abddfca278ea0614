//! What holds of every plan of a layer's work.

use crate::dispatch::{
    bank_list, experts_of, fetch_list, forget_all, host_list, is_fetched, place_of, routed_total,
    shares, slot_list, slot_of, with_sequence, work_for, HostPair, Memory, Pair, Source, Work,
};
use crate::slot_cache::CacheState;
use crate::slot_cache_laws::{recent, recent_occupied};
use vstd::prelude::*;

verus! {

/// The source is where the expert is kept: the host bank, or its slot by the cache.
pub open spec fn reads(cache: CacheState, layer: u32, source: Source, expert: u32) -> bool {
    match source {
        Source::Bank(e) => e == expert,
        Source::Slot(s) => cache.map.contains_key((layer, expert)) && cache.map[(layer, expert)]
            == s,
    }
}

/// The device computes choice `c` of the sequence: one of the pairs from `start`
/// on reads the weights of that expert.
pub open spec fn on_device(
    cache: CacheState,
    layer: u32,
    pairs: Seq<Pair>,
    start: int,
    seq: u32,
    c: int,
    expert: u32,
) -> bool {
    exists|j: int|
        start <= j < pairs.len() && (#[trigger] pairs[j]).seq == seq && pairs[j].choice == c && reads(
            cache,
            layer,
            pairs[j].source,
            expert,
        )
}

/// The host computes choice `c` of the sequence.
pub open spec fn on_host(
    host: Seq<HostPair>,
    start: int,
    seq: u32,
    c: int,
    expert: u32,
) -> bool {
    exists|j: int|
        start <= j < host.len() && #[trigger] host[j] == (HostPair { seq, choice: c as u32, expert })
}

proof fn lemma_place_in_distinct(ids: Seq<u32>, c: int)
    requires
        0 <= c < ids.len(),
        ids.no_duplicates(),
    ensures
        place_of(ids, ids[c]) == c,
    decreases ids.len(),
{
    if c > 0 {
        assert(ids[0] != ids[c]);
        let rest = ids.drop_first();
        assert(rest[c - 1] == ids[c]);
        assert(rest.no_duplicates()) by {
            assert forall|i: int, j: int| 0 <= i < rest.len() && 0 <= j < rest.len() && i != j implies rest[i]
                != rest[j] by {
                assert(ids[i + 1] != ids[j + 1]);
            }
        }
        lemma_place_in_distinct(rest, c - 1);
    }
}

proof fn lemma_hit_or_missing(cache: CacheState, layer: u32, ids: Seq<u32>, c: int)
    requires
        0 <= c < ids.len(),
    ensures
        cache.map.contains_key((layer, ids[c])) ==> cache.hits(layer, ids).contains(
            (ids[c], cache.map[(layer, ids[c])]),
        ),
        !cache.map.contains_key((layer, ids[c])) ==> cache.missing(layer, ids).contains(ids[c]),
    decreases ids.len(),
{
    let rest = ids.drop_last();
    let e = ids[c];
    let hits = cache.hits(layer, ids);
    let missing = cache.missing(layer, ids);
    if c == ids.len() - 1 {
        if cache.map.contains_key((layer, e)) {
            assert(hits.last() == (e, cache.map[(layer, e)]));
            assert(hits[hits.len() - 1] == hits.last());
        } else {
            assert(missing[missing.len() - 1] == e);
        }
    } else {
        lemma_hit_or_missing(cache, layer, rest, c);
        if cache.map.contains_key((layer, e)) {
            let want = (e, cache.map[(layer, e)]);
            let j = choose|j: int|
                0 <= j < cache.hits(layer, rest).len() && cache.hits(layer, rest)[j] == want;
            assert(hits[j] == want);
        } else {
            let j = choose|j: int|
                0 <= j < cache.missing(layer, rest).len() && cache.missing(layer, rest)[j] == e;
            assert(missing[j] == e);
        }
    }
}

proof fn lemma_counts(cache: CacheState, layer: u32, ids: Seq<u32>)
    ensures
        cache.hits(layer, ids).len() + cache.missing(layer, ids).len() == ids.len(),
    decreases ids.len(),
{
    if ids.len() > 0 {
        lemma_counts(cache, layer, ids.drop_last());
    }
}

/// Every expert that a sequence is routed to is computed once: the plan for the
/// sequence has as many entries as there are routed experts, and for each of them
/// one, on the device, which reads the expert where it is kept, or on the host. That no
/// slot is read which is only being filled is `no_slot_is_read_while_it_is_filled`.
pub proof fn every_routed_expert_is_computed(
    work: Work,
    layer: u32,
    ids: Seq<u32>,
    seq: u32,
    quota: Seq<usize>,
)
    requires
        ids.no_duplicates(),
        ids.len() <= u32::MAX,
    ensures
        ({
            let after = with_sequence(work, layer, ids, seq, quota);
            &&& after.pairs.len() + after.host.len() == work.pairs.len() + work.host.len()
                + ids.len()
            &&& forall|c: int|
                0 <= c < ids.len() ==> on_device(
                    work.cache,
                    layer,
                    after.pairs,
                    work.pairs.len() as int,
                    seq,
                    c,
                    #[trigger] ids[c],
                ) || on_host(after.host, work.host.len() as int, seq, c, ids[c])
        }),
{
    let cache = work.cache;
    let after = with_sequence(work, layer, ids, seq, quota);
    let hits = cache.hits(layer, ids);
    let missing = cache.missing(layer, ids);
    let (fetch, host) = shares(cache, layer, ids, quota);
    crate::dispatch::misses_name_missing_experts(cache, layer, ids);
    lemma_counts(cache, layer, ids);
    let n = fetch.len() as int;
    assert(fetch.len() + host.len() == missing.len());
    assert forall|c: int| 0 <= c < ids.len() implies on_device(
        cache,
        layer,
        after.pairs,
        work.pairs.len() as int,
        seq,
        c,
        #[trigger] ids[c],
    ) || on_host(after.host, work.host.len() as int, seq, c, ids[c]) by {
        let e = ids[c];
        lemma_place_in_distinct(ids, c);
        lemma_hit_or_missing(cache, layer, ids, c);
        if cache.map.contains_key((layer, e)) {
            let want = (e, cache.map[(layer, e)]);
            let j = choose|j: int| 0 <= j < hits.len() && hits[j] == want;
            let p = after.pairs[work.pairs.len() + j];
            assert(p == slot_list(hits, ids, seq, work.fetches)[j]);
            assert(reads(cache, layer, p.source, e));
        } else {
            let j = choose|j: int| 0 <= j < missing.len() && missing[j] == e;
            if j < n {
                let p = after.pairs[work.pairs.len() + hits.len() + j];
                assert(p == bank_list(fetch, ids, seq)[j]);
                assert(fetch[j] == e);
                assert(reads(cache, layer, p.source, e));
            } else {
                let h = after.host[work.host.len() + (j - n)];
                assert(h == host_list(host, ids, seq)[j - n]);
                assert(host[j - n] == e);
            }
        }
    }
}

proof fn lemma_forgotten_stay_out(cache: CacheState, layer: u32, ids: Seq<u32>, k: (u32, u32))
    ensures
        forget_all(cache, layer, ids).map.contains_key(k) ==> cache.map.contains_key(k)
            && forget_all(cache, layer, ids).map[k] == cache.map[k] && !(k.0 == layer
            && ids.contains(k.1)),
        cache.map.contains_key(k) && !(k.0 == layer && ids.contains(k.1)) ==> forget_all(
            cache,
            layer,
            ids,
        ).map.contains_key(k),
    decreases ids.len(),
{
    if ids.len() > 0 {
        let rest = ids.drop_last();
        lemma_forgotten_stay_out(cache, layer, rest, k);
        if ids.contains(k.1) && !rest.contains(k.1) {
            let i = choose|i: int| 0 <= i < ids.len() && ids[i] == k.1;
            if i < rest.len() {
                assert(rest[i] == k.1);
            }
        }
        if rest.contains(k.1) {
            let i = choose|i: int| 0 <= i < rest.len() && rest[i] == k.1;
            assert(ids[i] == k.1);
        }
        if ids.last() == k.1 {
            assert(ids[ids.len() - 1] == k.1);
        }
    }
}

/// Experts that the host computes give their slots back: none of them is resident
/// after the step.
pub proof fn host_experts_are_not_resident(
    work: Work,
    layer: u32,
    ids: Seq<u32>,
    seq: u32,
    quota: Seq<usize>,
)
    ensures
        ({
            let after = with_sequence(work, layer, ids, seq, quota);
            let host = shares(work.cache, layer, ids, quota).1;
            forall|i: int|
                0 <= i < host.len() ==> !after.cache.map.contains_key((layer, #[trigger] host[i]))
        }),
{
    let looked = work.cache.after_lookup(layer, ids);
    let host = shares(work.cache, layer, ids, quota).1;
    assert forall|i: int| 0 <= i < host.len() implies !forget_all(
        looked,
        layer,
        host,
    ).map.contains_key((layer, #[trigger] host[i])) by {
        lemma_forgotten_stay_out(looked, layer, host, (layer, host[i]));
        assert(host.contains(host[i]));
    }
}

/// Fetched experts are resident after the step, each in the slot that it is copied
/// into, where the experts are distinct and fit into the cache.
pub proof fn fetched_experts_are_resident(
    work: Work,
    layer: u32,
    ids: Seq<u32>,
    seq: u32,
    quota: Seq<usize>,
)
    requires
        work.cache.wf(),
        work.cache.exact(),
        0 < work.cache.slots.len() <= u32::MAX,
        work.cache.tick < u64::MAX,
        ids.no_duplicates(),
        ids.len() <= work.cache.slots.len(),
    ensures
        ({
            let after = with_sequence(work, layer, ids, seq, quota);
            forall|j: int|
                work.fetches.len() <= j < after.fetches.len() ==> {
                    let f = #[trigger] after.fetches[j];
                    &&& after.cache.map.contains_key((layer, f.expert))
                    &&& after.cache.map[(layer, f.expert)] == f.slot
                }
        }),
{
    let cache = work.cache;
    let after = with_sequence(work, layer, ids, seq, quota);
    let misses = cache.misses(layer, ids);
    let missing = cache.missing(layer, ids);
    let looked = cache.after_lookup(layer, ids);
    let (fetch, host) = shares(cache, layer, ids, quota);
    let n = fetch.len() as int;
    crate::dispatch::misses_name_missing_experts(cache, layer, ids);
    crate::slot_cache_laws::misses_land_in_their_slots(cache, layer, ids);
    crate::slot_cache_laws::missing_experts_are_distinct(cache, layer, ids);
    assert forall|j: int| work.fetches.len() <= j < after.fetches.len() implies {
        let f = #[trigger] after.fetches[j];
        &&& after.cache.map.contains_key((layer, f.expert))
        &&& after.cache.map[(layer, f.expert)] == f.slot
    } by {
        let i = j - work.fetches.len();
        let f = after.fetches[j];
        assert(f == fetch_list(fetch, misses)[i]);
        assert(missing[i] == f.expert);
        assert(experts_of(misses)[i] == misses[i].0);
        lemma_place_in_distinct(missing, i);
        assert(slot_of(misses, f.expert) == misses[i].1);
        assert(!host.contains(f.expert)) by {
            if host.contains(f.expert) {
                let h = choose|h: int| 0 <= h < host.len() && host[h] == f.expert;
                assert(missing[n + h] == missing[i]);
            }
        }
        lemma_forgotten_stay_out(looked, layer, host, (layer, f.expert));
    }
}

/// What is copied for a sequence spares what is read for it: where its experts are
/// distinct and fit into the cache, no fetch goes into a slot that one of its pairs
/// reads.
pub proof fn fetches_spare_slots_in_use(
    work: Work,
    layer: u32,
    ids: Seq<u32>,
    seq: u32,
    quota: Seq<usize>,
)
    requires
        work.cache.wf(),
        work.cache.exact(),
        0 < work.cache.slots.len() <= u32::MAX,
        work.cache.tick < u64::MAX,
        ids.no_duplicates(),
        ids.len() <= work.cache.slots.len(),
    ensures
        ({
            let after = with_sequence(work, layer, ids, seq, quota);
            forall|i: int, j: int|
                work.fetches.len() <= i < after.fetches.len() && work.pairs.len() <= j
                    < after.pairs.len() ==> (#[trigger] after.pairs[j]).source != Source::Slot(
                    (#[trigger] after.fetches[i]).slot,
                )
        }),
{
    let cache = work.cache;
    let after = with_sequence(work, layer, ids, seq, quota);
    let hits = cache.hits(layer, ids);
    let misses = cache.misses(layer, ids);
    let missing = cache.missing(layer, ids);
    let (fetch, host) = shares(cache, layer, ids, quota);
    crate::dispatch::misses_name_missing_experts(cache, layer, ids);
    crate::slot_cache_laws::misses_spare_slots_in_use(cache, layer, ids);
    crate::slot_cache_laws::missing_experts_are_distinct(cache, layer, ids);
    assert forall|i: int, j: int|
        work.fetches.len() <= i < after.fetches.len() && work.pairs.len() <= j
            < after.pairs.len() implies (#[trigger] after.pairs[j]).source != Source::Slot(
        (#[trigger] after.fetches[i]).slot,
    ) by {
        let a = i - work.fetches.len();
        let b = j - work.pairs.len();
        assert(after.fetches[i] == fetch_list(fetch, misses)[a]);
        assert(fetch[a] == missing[a]);
        assert(experts_of(misses)[a] == misses[a].0);
        lemma_place_in_distinct(missing, a);
        assert(after.fetches[i].slot == misses[a].1);
        if b < hits.len() {
            assert(after.pairs[j] == slot_list(hits, ids, seq, work.fetches)[b]);
            assert(hits[b].1 != misses[a].1);
        } else {
            assert(after.pairs[j] == bank_list(fetch, ids, seq)[b - hits.len()]);
        }
    }
}

/// What a slot holds is one of the experts of a layer.
spec fn holds_one_of(slot: Option<(u32, u32)>, layer: u32, ids: Seq<u32>) -> bool {
    exists|i: int| 0 <= i < ids.len() && slot == Some((layer, #[trigger] ids[i]))
}

/// What forgetting experts does to each slot: those of the experts are free, and the
/// others as they were.
proof fn lemma_forget_all(cache: CacheState, layer: u32, ids: Seq<u32>)
    requires
        cache.wf(),
        cache.exact(),
    ensures
        ({
            let after = forget_all(cache, layer, ids);
            &&& after.wf()
            &&& after.exact()
            &&& after.tick == cache.tick
            &&& after.slots.len() == cache.slots.len()
            &&& forall|s: int|
                #![trigger after.slots[s]]
                #![trigger after.last_used[s]]
                0 <= s < cache.slots.len() ==> {
                    ||| after.slots[s] == cache.slots[s] && after.last_used[s] == cache.last_used[s]
                    ||| {
                        &&& after.slots[s] is None
                        &&& after.last_used[s] == 0
                        &&& holds_one_of(cache.slots[s], layer, ids)
                    }
                }
        }),
    decreases ids.len(),
{
    if ids.len() > 0 {
        let rest = ids.drop_last();
        lemma_forget_all(cache, layer, rest);
        let mid = forget_all(cache, layer, rest);
        let key = (layer, ids.last());
        crate::slot_cache_laws::forget_unmaps_one_key(mid, key);
        let after = mid.after_forget(key);
        assert forall|s: int|
            #![trigger after.slots[s]]
            #![trigger after.last_used[s]]
            0 <= s < cache.slots.len() implies {
            ||| after.slots[s] == cache.slots[s] && after.last_used[s] == cache.last_used[s]
            ||| {
                &&& after.slots[s] is None
                &&& after.last_used[s] == 0
                &&& holds_one_of(cache.slots[s], layer, ids)
            }
        } by {
            assert(mid.slots[s] == mid.slots[s]);
            if mid.map.contains_key(key) && mid.map[key] == s {
                assert(mid.slots[s] == Some(key));
                assert(ids[ids.len() - 1] == key.1);
            } else if holds_one_of(cache.slots[s], layer, rest) {
                let j = choose|j: int|
                    0 <= j < rest.len() && cache.slots[s] == Some((layer, #[trigger] rest[j]));
                assert(ids[j] == rest[j]);
            }
        }
    }
}

/// How the plan stands to the cache it leaves behind, since a tick: what is fetched
/// holds its slot, what is read keeps its slot, and no slot is both.
spec fn settled(work: Work, layer: u32, since: u64, total: nat) -> bool {
    &&& work.cache.wf()
    &&& work.cache.exact()
    &&& since <= work.cache.tick
    &&& recent_occupied(work.cache, since)
    &&& recent(work.cache, since).len() <= total
    &&& forall|i: int|
        0 <= i < work.fetches.len() ==> {
            let f = #[trigger] work.fetches[i];
            &&& recent(work.cache, since).contains(f.slot as int)
            &&& work.cache.slots[f.slot as int] == Some((layer, f.expert))
        }
    &&& forall|j: int|
        0 <= j < work.pairs.len() && (#[trigger] work.pairs[j]).source is Slot ==> recent(
            work.cache,
            since,
        ).contains(work.pairs[j].source->Slot_0 as int)
    &&& apart(work)
    &&& filled_once(work)
}

/// No two fetches go into the same slot.
pub open spec fn filled_once(work: Work) -> bool {
    forall|i: int, j: int|
        0 <= i < j < work.fetches.len() ==> (#[trigger] work.fetches[i]).slot != (
        #[trigger] work.fetches[j]).slot
}

/// No slot is read that the same plan fills.
pub open spec fn apart(work: Work) -> bool {
    forall|i: int, j: int|
        0 <= i < work.fetches.len() && 0 <= j < work.pairs.len() ==> (#[trigger] work.pairs[j]).source
            != Source::Slot((#[trigger] work.fetches[i]).slot)
}

proof fn lemma_sequence_settled(
    work: Work,
    layer: u32,
    ids: Seq<u32>,
    seq: u32,
    quota: Seq<usize>,
    since: u64,
    total: nat,
)
    requires
        settled(work, layer, since, total),
        0 < work.cache.slots.len() <= u32::MAX,
        work.cache.tick < u64::MAX,
        ids.no_duplicates(),
        total + ids.len() <= work.cache.slots.len(),
    ensures
        ({
            let after = with_sequence(work, layer, ids, seq, quota);
            &&& settled(after, layer, since, total + ids.len())
            &&& after.cache.slots.len() == work.cache.slots.len()
            &&& after.cache.tick == work.cache.tick + 1
        }),
{
    let c0 = work.cache;
    let after = with_sequence(work, layer, ids, seq, quota);
    let hits = c0.hits(layer, ids);
    let misses = c0.misses(layer, ids);
    let missing = c0.missing(layer, ids);
    let looked = c0.after_lookup(layer, ids);
    let (fetch, host) = shares(c0, layer, ids, quota);
    let n = fetch.len() as int;
    let c1 = after.cache;
    crate::dispatch::misses_name_missing_experts(c0, layer, ids);
    crate::slot_cache_laws::recent_slots_are_spared(c0, layer, ids, since);
    crate::slot_cache_laws::distinct_lookup_stays_exact(c0, layer, ids);
    crate::slot_cache_laws::misses_land_in_their_slots(c0, layer, ids);
    crate::slot_cache_laws::misses_spare_slots_in_use(c0, layer, ids);
    crate::slot_cache_laws::missing_experts_are_distinct(c0, layer, ids);
    crate::slot_cache_laws::second_lookup_finds_the_same(c0, layer, ids);
    lemma_forget_all(looked, layer, host);
    crate::slot_cache_laws::hits_keep_their_slots(c0, layer, ids);
    assert forall|h: u32| host.contains(h) implies !c0.map.contains_key((layer, h)) by {
        let i = choose|i: int| 0 <= i < host.len() && host[i] == h;
        assert(missing[n + i] == h);
        lemma_missing_not_resident(c0, layer, ids, n + i);
    }
    // slots that were recent before keep what they hold
    assert forall|s: int| #[trigger] recent(c0, since).contains(s) implies c1.slots[s]
        == c0.slots[s] && recent(c1, since).contains(s) by {
        assert(looked.slots[s] == c0.slots[s]);
        assert(recent(looked, since).contains(s));
        assert(c0.slots[s] is Some);
        assert(c0.map.contains_key(c0.slots[s]->0));
        assert(c1.slots[s] == c1.slots[s]);
    }
    assert(recent(c1, since).subset_of(recent(looked, since))) by {
        assert forall|s: int| recent(c1, since).contains(s) implies recent(looked, since).contains(
            s,
        ) by {
            assert(c1.last_used[s] == c1.last_used[s]);
        }
    }
    crate::slot_cache_laws::recent_is_finite(looked, since);
    vstd::set_lib::lemma_len_subset(recent(c1, since), recent(looked, since));
    assert(recent_occupied(c1, since)) by {
        assert forall|s: int| #[trigger] recent(c1, since).contains(s) implies c1.slots[s] is Some by {
            assert(recent(looked, since).contains(s));
            assert(c1.last_used[s] == c1.last_used[s]);
        }
    }
    // a key that is looked up and not left to the host stays
    assert forall|e: u32|
        #![trigger looked.map[(layer, e)]]
        looked.map.contains_key((layer, e)) && !host.contains(e) && recent(looked, since).contains(
            looked.map[(layer, e)] as int,
        ) implies c1.slots[looked.map[(layer, e)] as int] == Some((layer, e)) && recent(
        c1,
        since,
    ).contains(looked.map[(layer, e)] as int) by {
        let s = looked.map[(layer, e)] as int;
        assert(looked.slots[s] == Some((layer, e)));
        assert(c1.slots[s] == c1.slots[s]);
    }
    assert forall|i: int| 0 <= i < after.fetches.len() implies {
        let f = #[trigger] after.fetches[i];
        &&& recent(c1, since).contains(f.slot as int)
        &&& c1.slots[f.slot as int] == Some((layer, f.expert))
    } by {
        let f = after.fetches[i];
        if i < work.fetches.len() {
            assert(f == work.fetches[i]);
        } else {
            let a = i - work.fetches.len();
            lemma_new_fetch(work, layer, ids, seq, quota, a);
            assert(missing[a] == f.expert);
            assert(looked.map[(layer, misses[a].0)] == misses[a].1);
            assert(!host.contains(f.expert)) by {
                if host.contains(f.expert) {
                    let h = choose|h: int| 0 <= h < host.len() && host[h] == f.expert;
                    assert(missing[n + h] == missing[a]);
                }
            }
        }
    }
    assert forall|j: int| 0 <= j < after.pairs.len() && (#[trigger] after.pairs[j]).source is Slot implies recent(
        c1,
        since,
    ).contains(after.pairs[j].source->Slot_0 as int) && forall|i: int|
        0 <= i < after.fetches.len() ==> after.pairs[j].source != Source::Slot(
            (#[trigger] after.fetches[i]).slot,
        ) by {
        let p = after.pairs[j];
        let b = j - work.pairs.len();
        if j < work.pairs.len() {
            assert(p == work.pairs[j]);
            let s = p.source->Slot_0 as int;
            assert(recent(c0, since).contains(s));
            assert forall|i: int| 0 <= i < after.fetches.len() implies p.source != Source::Slot(
                (#[trigger] after.fetches[i]).slot,
            ) by {
                if i < work.fetches.len() {
                    assert(after.fetches[i] == work.fetches[i]);
                } else {
                    let a = i - work.fetches.len();
                    lemma_new_fetch(work, layer, ids, seq, quota, a);
                    assert(!recent(c0, since).contains(misses[a].1 as int));
                }
            }
        } else if b < hits.len() {
            assert(p == slot_list(hits, ids, seq, work.fetches)[b]);
            let s = hits[b].1;
            assert(p.source == Source::Slot(s));
            assert(looked.map.contains_key((layer, hits[b].0)) && looked.map[(layer, hits[b].0)]
                == s);
            assert(c0.map.contains_key((layer, hits[b].0)));
            assert(!host.contains(hits[b].0));
            assert(recent(c1, since).contains(s as int));
            assert forall|i: int| 0 <= i < after.fetches.len() implies p.source != Source::Slot(
                (#[trigger] after.fetches[i]).slot,
            ) by {
                if i < work.fetches.len() {
                    let f = work.fetches[i];
                    assert(after.fetches[i] == f);
                    if f.slot == s {
                        assert(c0.slots[s as int] == Some((layer, f.expert)));
                        assert(c0.slots[s as int] == Some((layer, hits[b].0)));
                        assert(is_fetched(work.fetches, hits[b].0));
                    }
                } else {
                    let a = i - work.fetches.len();
                    lemma_new_fetch(work, layer, ids, seq, quota, a);
                    assert(hits[b].1 != misses[a].1);
                }
            }
        } else {
            assert(p == bank_list(fetch, ids, seq)[b - hits.len()]);
        }
    }
    assert(filled_once(after)) by {
        assert forall|i: int, j: int| 0 <= i < j < after.fetches.len() implies (
        #[trigger] after.fetches[i]).slot != (#[trigger] after.fetches[j]).slot by {
            if j < work.fetches.len() {
                assert(work.fetches[i].slot != work.fetches[j].slot);
            } else {
                let b = j - work.fetches.len();
                lemma_new_fetch(work, layer, ids, seq, quota, b);
                if i < work.fetches.len() {
                    assert(recent(c0, since).contains(work.fetches[i].slot as int));
                    assert(!recent(c0, since).contains(misses[b].1 as int));
                } else {
                    let a = i - work.fetches.len();
                    lemma_new_fetch(work, layer, ids, seq, quota, a);
                    assert(missing[a] != missing[b]);
                }
            }
        }
    }
    assert(apart(after)) by {
        assert forall|i: int, j: int|
            0 <= i < after.fetches.len() && 0 <= j < after.pairs.len() implies (
        #[trigger] after.pairs[j]).source != Source::Slot((#[trigger] after.fetches[i]).slot) by {
            if after.pairs[j].source is Slot {
                assert(after.pairs[j].source != Source::Slot(after.fetches[i].slot));
            }
        }
    }
}

proof fn lemma_new_fetch(
    work: Work,
    layer: u32,
    ids: Seq<u32>,
    seq: u32,
    quota: Seq<usize>,
    a: int,
)
    requires
        work.cache.wf(),
        ids.no_duplicates(),
        0 <= a < shares(work.cache, layer, ids, quota).0.len(),
    ensures
        ({
            let after = with_sequence(work, layer, ids, seq, quota);
            let f = after.fetches[work.fetches.len() + a];
            let misses = work.cache.misses(layer, ids);
            &&& a < misses.len()
            &&& f.expert == misses[a].0
            &&& f.slot == misses[a].1
            &&& f.expert == work.cache.missing(layer, ids)[a]
        }),
{
    let cache = work.cache;
    let misses = cache.misses(layer, ids);
    let missing = cache.missing(layer, ids);
    let fetch = shares(cache, layer, ids, quota).0;
    crate::dispatch::misses_name_missing_experts(cache, layer, ids);
    crate::slot_cache_laws::missing_experts_are_distinct(cache, layer, ids);
    assert(fetch[a] == missing[a]);
    assert(experts_of(misses)[a] == misses[a].0);
    lemma_place_in_distinct(missing, a);
}

proof fn lemma_missing_not_resident(cache: CacheState, layer: u32, ids: Seq<u32>, i: int)
    requires
        0 <= i < cache.missing(layer, ids).len(),
    ensures
        !cache.map.contains_key((layer, cache.missing(layer, ids)[i])),
    decreases ids.len(),
{
    let rest = ids.drop_last();
    if cache.map.contains_key((layer, ids.last())) || i < cache.missing(layer, rest).len() {
        lemma_missing_not_resident(cache, layer, rest, i);
    }
}

proof fn lemma_work_settled(
    cache: CacheState,
    layer: u32,
    routed: Seq<Seq<u32>>,
    quota: Seq<usize>,
    n: int,
)
    requires
        cache.wf(),
        cache.exact(),
        0 < cache.slots.len() <= u32::MAX,
        0 <= n <= routed.len(),
        cache.tick + n <= u64::MAX,
        forall|i: int| 0 <= i < n ==> (#[trigger] routed[i]).no_duplicates(),
        routed_total(routed, n) <= cache.slots.len(),
    ensures
        ({
            let work = work_for(cache, layer, routed, quota, n);
            &&& settled(work, layer, cache.tick, routed_total(routed, n))
            &&& work.cache.slots.len() == cache.slots.len()
            &&& work.cache.tick == cache.tick + n
        }),
    decreases n,
{
    if n <= 0 {
        assert(recent(cache, cache.tick) =~= Set::empty()) by {
            assert forall|s: int| !recent(cache, cache.tick).contains(s) by {
                if 0 <= s < cache.last_used.len() {
                    assert(cache.last_used[s] <= cache.tick);
                }
            }
        }
    } else {
        crate::dispatch::routed_total_grows(routed, n - 1, n);
        lemma_work_settled(cache, layer, routed, quota, n - 1);
        lemma_sequence_settled(
            work_for(cache, layer, routed, quota, n - 1),
            layer,
            routed[n - 1],
            (n - 1) as u32,
            quota,
            cache.tick,
            routed_total(routed, n - 1),
        );
    }
}

/// No slot is read while it is filled: over all sequences of a step, where each is
/// routed to distinct experts and all these fit into the cache together, no pair reads
/// a slot that a fetch of the step goes into, and no two fetches go into the same slot.
pub proof fn no_slot_is_read_while_it_is_filled(
    cache: CacheState,
    layer: u32,
    routed: Seq<Seq<u32>>,
    quota: Seq<usize>,
)
    requires
        cache.wf(),
        cache.exact(),
        0 < cache.slots.len() <= u32::MAX,
        cache.tick + routed.len() <= u64::MAX,
        forall|i: int| 0 <= i < routed.len() ==> (#[trigger] routed[i]).no_duplicates(),
        routed_total(routed, routed.len() as int) <= cache.slots.len(),
    ensures
        apart(work_for(cache, layer, routed, quota, routed.len() as int)),
        filled_once(work_for(cache, layer, routed, quota, routed.len() as int)),
{
    lemma_work_settled(cache, layer, routed, quota, routed.len() as int);
}

/// Of the missing experts of a sequence the first are fetched, as many as the quota for
/// their number says, or all of them where there are fewer, and the others are left to the
/// host.
pub proof fn quota_shares_the_missing_experts_out(
    cache: CacheState,
    layer: u32,
    ids: Seq<u32>,
    quota: Seq<usize>,
)
    ensures
        ({
            let missing = cache.missing(layer, ids);
            let (fetch, host) = shares(cache, layer, ids, quota);
            let asked = quota[missing.len() as int] as nat;
            &&& fetch + host == missing
            &&& fetch.len() == if asked < missing.len() {
                asked
            } else {
                missing.len()
            }
        }),
{
    crate::dispatch::misses_name_missing_experts(cache, layer, ids);
    let (fetch, host) = shares(cache, layer, ids, quota);
    assert(fetch + host =~= cache.missing(layer, ids));
}

/// Each sequence is looked up in what the one before left of the cache, its entries stand
/// behind those of the ones before, and no two sequences share entries.
pub proof fn sequences_are_dispatched_in_order(
    cache: CacheState,
    layer: u32,
    routed: Seq<Seq<u32>>,
    quota: Seq<usize>,
    n: int,
)
    requires
        0 <= n < routed.len() <= u32::MAX,
    ensures
        ({
            let before = work_for(cache, layer, routed, quota, n);
            let after = work_for(cache, layer, routed, quota, n + 1);
            &&& n == 0 ==> before.cache == cache && before.fetches.len() == 0 && before.pairs.len()
                == 0 && before.host.len() == 0
            &&& after == with_sequence(before, layer, routed[n], n as u32, quota)
            &&& before.fetches.len() <= after.fetches.len() && after.fetches.take(
                before.fetches.len() as int,
            ) == before.fetches
            &&& before.pairs.len() <= after.pairs.len() && after.pairs.take(
                before.pairs.len() as int,
            ) == before.pairs
            &&& before.host.len() <= after.host.len() && after.host.take(before.host.len() as int)
                == before.host
            &&& forall|j: int|
                before.pairs.len() <= j < after.pairs.len() ==> (#[trigger] after.pairs[j]).seq == n
            &&& forall|j: int|
                before.host.len() <= j < after.host.len() ==> (#[trigger] after.host[j]).seq == n
        }),
{
    let before = work_for(cache, layer, routed, quota, n);
    let after = work_for(cache, layer, routed, quota, n + 1);
    assert(after.fetches.take(before.fetches.len() as int) =~= before.fetches);
    assert(after.pairs.take(before.pairs.len() as int) =~= before.pairs);
    assert(after.host.take(before.host.len() as int) =~= before.host);
}

/// The experts of all layers lie one after the other in the bank, and slots one after the
/// other in the cache: each where the one before ends.
pub proof fn experts_lie_one_after_the_other(m: Memory, layer: int, e: u32, s: u32)
    ensures
        m.address(0, Source::Bank(0)) == m.bank_base,
        e < u32::MAX ==> m.address(layer, Source::Bank((e + 1) as u32)) == m.address(
            layer,
            Source::Bank(e),
        ) + m.size,
        m.address(layer + 1, Source::Bank(0)) == m.address(layer, Source::Bank(0)) + m.n_experts
            * m.size,
        m.address(layer, Source::Slot(0)) == m.cache_base,
        s < u32::MAX ==> m.address(layer, Source::Slot((s + 1) as u32)) == m.address(
            layer,
            Source::Slot(s),
        ) + m.size,
        m.bank_position(layer, e as int) == m.address(layer, Source::Bank(e)) - m.bank_base,
{
    let (n, z) = (m.n_experts as int, m.size as int);
    let p = layer * n + e;
    assert((p + 1) * z == p * z + z) by (nonlinear_arith);
    assert((layer + 1) * n == layer * n + n) by (nonlinear_arith);
    assert((layer * n + n) * z == (layer * n) * z + n * z) by (nonlinear_arith);
    assert((s + 1) * z == s * z + z) by (nonlinear_arith);
    assert(0 * n == 0 && 0 * z == 0) by (nonlinear_arith);
}

/// Each sequence counts for the hits and misses that it has in what the ones before left
/// of the cache.
pub proof fn hits_and_misses_are_counted_by_sequence(
    cache: CacheState,
    layer: u32,
    routed: Seq<Seq<u32>>,
    quota: Seq<usize>,
    n: int,
)
    requires
        0 <= n,
    ensures
        ({
            let now = work_for(cache, layer, routed, quota, n).cache;
            &&& crate::dispatch::hits_for(cache, layer, routed, quota, 0) == 0
            &&& crate::dispatch::misses_for(cache, layer, routed, quota, 0) == 0
            &&& crate::dispatch::hits_for(cache, layer, routed, quota, n + 1)
                == crate::dispatch::hits_for(cache, layer, routed, quota, n) + now.hits(
                layer,
                routed[n],
            ).len()
            &&& crate::dispatch::misses_for(cache, layer, routed, quota, n + 1)
                == crate::dispatch::misses_for(cache, layer, routed, quota, n) + now.missing(
                layer,
                routed[n],
            ).len()
        }),
{
    let now = work_for(cache, layer, routed, quota, n).cache;
    crate::dispatch::misses_name_missing_experts(now, layer, routed[n]);
}

} // verus!
