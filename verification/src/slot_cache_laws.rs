//! Laws of the slot cache.

use crate::slot_cache::{holds_slot, CacheState, ExpertKey};
use vstd::prelude::*;
use vstd::set_lib::{lemma_int_range, lemma_len_subset, set_int_range};

verus! {

/// The slots that were touched at the current tick.
pub open spec fn fresh(st: CacheState) -> Set<int> {
    Set::new(|s: int| 0 <= s < st.last_used.len() && st.last_used[s] == st.tick)
}

/// The slots of the resident ones among `experts`.
pub open spec fn hit_slots(st: CacheState, layer: u32, experts: Seq<u32>) -> Set<int> {
    Set::new(
        |s: int| 0 <= s < st.slots.len() && holds_slot(st.hits(layer, experts), s),
    )
}

proof fn lemma_oldest(st: CacheState, hits: Seq<(u32, u32)>, n: int, w: int) -> (s: int)
    requires
        0 <= w < n <= st.slots.len(),
        st.spare(hits, w),
    ensures
        0 <= s < n,
        st.spare(hits, s),
        forall|t: int|
            0 <= t < n && #[trigger] st.spare(hits, t) ==> st.last_used[s] <= st.last_used[t],
        forall|t: int|
            0 <= t < s && #[trigger] st.spare(hits, t) ==> st.last_used[s] < st.last_used[t],
    decreases n,
{
    if exists|t: int| 0 <= t < n - 1 && st.spare(hits, t) {
        let t = choose|t: int| 0 <= t < n - 1 && st.spare(hits, t);
        let s = lemma_oldest(st, hits, n - 1, t);
        if st.spare(hits, n - 1) && st.last_used[n - 1] < st.last_used[s] {
            n - 1
        } else {
            s
        }
    } else {
        w
    }
}

proof fn lemma_first_free(st: CacheState, hits: Seq<(u32, u32)>, f: int) -> (s: int)
    requires
        st.spare(hits, f),
        st.slots[f] is None,
    ensures
        0 <= s <= f,
        st.spare(hits, s),
        st.slots[s] is None,
        forall|t: int| 0 <= t < s && #[trigger] st.spare(hits, t) ==> st.slots[t] is Some,
    decreases f,
{
    if forall|t: int| 0 <= t < f && #[trigger] st.spare(hits, t) ==> st.slots[t] is Some {
        f
    } else {
        let g = choose|t: int| 0 <= t < f && #[trigger] st.spare(hits, t) && !(st.slots[t] is Some);
        lemma_first_free(st, hits, g)
    }
}

/// A cache with at least one slot always has a slot to recycle.
pub proof fn victim_exists(st: CacheState, hits: Seq<(u32, u32)>)
    requires
        st.wf(),
        st.slots.len() > 0,
    ensures
        st.is_victim(hits, st.victim(hits)),
{
    let w = if st.all_hit(hits) {
        0
    } else {
        choose|t: int| 0 <= t < st.slots.len() && !#[trigger] holds_slot(hits, t)
    };
    assert(st.spare(hits, w));
    if exists|f: int| #[trigger] st.spare(hits, f) && st.slots[f] is None {
        let f = choose|f: int| #[trigger] st.spare(hits, f) && st.slots[f] is None;
        let s = lemma_first_free(st, hits, f);
        assert(st.is_victim(hits, s));
    } else {
        let s = lemma_oldest(st, hits, st.slots.len() as int, w);
        assert(st.is_victim(hits, s));
    }
}

/// There is one slot to recycle next at most: whatever slot is, is the victim.
pub proof fn victim_is_unique(st: CacheState, hits: Seq<(u32, u32)>, s: int)
    requires
        st.is_victim(hits, s),
    ensures
        st.victim(hits) == s,
{
    let v = st.victim(hits);
    assert(st.is_victim(hits, v));
    assert(st.spare(hits, s) && st.spare(hits, v));
}

/// What is evicted is the least recently touched resident that is not a hit of the
/// step: no other such slot was touched earlier, and nothing is evicted while one of
/// them is free.
pub proof fn eviction_is_least_recently_used(st: CacheState, hits: Seq<(u32, u32)>)
    requires
        st.wf(),
        st.slots.len() > 0,
        st.slots[st.victim(hits)] is Some,
    ensures
        forall|s: int| #[trigger]
            st.spare(hits, s) ==> st.slots[s] is Some && st.last_used[st.victim(hits)]
                <= st.last_used[s],
{
    victim_exists(st, hits);
}

spec fn fresh_occupied(st: CacheState) -> bool {
    forall|s: int| 0 <= s < st.slots.len() && st.last_used[s] == st.tick ==> (#[trigger] st.slots[s]) is Some
}

/// The slots of the hits were touched at the current tick.
spec fn stamped(st: CacheState, hits: Seq<(u32, u32)>) -> bool {
    forall|s: int|
        0 <= s < st.slots.len() && #[trigger] holds_slot(hits, s) ==> st.last_used[s] == st.tick
}

/// One placement keeps the cache well formed and recycles a slot that this step has
/// not touched, as long as there is one. The slots of hits are spared as long as
/// there is another.
proof fn lemma_place(st: CacheState, hits: Seq<(u32, u32)>, key: ExpertKey)
    requires
        st.wf(),
        0 < st.slots.len() <= u32::MAX,
        fresh_occupied(st),
        stamped(st, hits),
    ensures
        st.is_victim(hits, st.victim(hits)),
        st.place(hits, key).wf(),
        st.place(hits, key).slots.len() == st.slots.len(),
        st.place(hits, key).tick == st.tick,
        fresh_occupied(st.place(hits, key)),
        stamped(st.place(hits, key), hits),
        fresh(st.place(hits, key)) == fresh(st).insert(st.victim(hits)),
        fresh(st).finite(),
        fresh(st).len() < st.slots.len() ==> !fresh(st).contains(st.victim(hits)),
        !st.all_hit(hits) ==> !holds_slot(hits, st.victim(hits)),
{
    victim_exists(st, hits);
    let v = st.victim(hits);
    let all = set_int_range(0, st.slots.len() as int);
    lemma_int_range(0, st.slots.len() as int);
    assert(fresh(st).subset_of(all));
    lemma_len_subset(fresh(st), all);
    assert(fresh(st.place(hits, key)) =~= fresh(st).insert(v));
    if fresh(st).contains(v) && fresh(st).len() < st.slots.len() {
        assert(st.slots[v] is Some);
        assert forall|s: int| all.contains(s) implies fresh(st).contains(s) by {
            if !holds_slot(hits, s) {
                assert(st.spare(hits, s));
                assert(st.last_used[v] <= st.last_used[s]);
            }
        }
        assert(fresh(st) =~= all);
    }
}

proof fn lemma_touch(st: CacheState, layer: u32, experts: Seq<u32>)
    requires
        st.wf(),
        st.tick < u64::MAX,
    ensures
        st.touch(st.hits(layer, experts)).wf(),
        fresh_occupied(st.touch(st.hits(layer, experts))),
        stamped(st.touch(st.hits(layer, experts)), st.hits(layer, experts)),
        fresh(st.touch(st.hits(layer, experts))) == hit_slots(st, layer, experts),
{
    let hits = st.hits(layer, experts);
    let after = st.touch(hits);
    assert(fresh(after) =~= hit_slots(st, layer, experts)) by {
        assert forall|s: int| 0 <= s < st.slots.len() implies (after.last_used[s] == after.tick
            <==> holds_slot(hits, s)) by {
            assert(st.last_used[s] <= st.tick);
        }
    }
    lemma_hits(st, layer, experts);
    assert forall|s: int| 0 <= s < after.slots.len() && after.last_used[s] == after.tick implies (
    #[trigger] after.slots[s]) is Some by {
        assert(st.last_used[s] <= st.tick);
        let j = choose|j: int| 0 <= j < hits.len() && (#[trigger] hits[j]).1 == s;
        assert(st.map.contains_key((layer, hits[j].0)));
    }
}

/// The reported hits are exactly what the map says.
proof fn lemma_hits(st: CacheState, layer: u32, experts: Seq<u32>)
    requires
        st.wf(),
    ensures
        forall|j: int|
            0 <= j < st.hits(layer, experts).len() ==> {
                let p = #[trigger] st.hits(layer, experts)[j];
                &&& st.map.contains_key((layer, p.0))
                &&& st.map[(layer, p.0)] == p.1
                &&& p.1 < st.slots.len()
                &&& experts.contains(p.0)
            },
        forall|j: int|
            0 <= j < st.missing(layer, experts).len() ==> {
                let e = #[trigger] st.missing(layer, experts)[j];
                &&& !st.map.contains_key((layer, e))
                &&& experts.contains(e)
            },
        forall|i: int|
            0 <= i < experts.len() ==> (st.map.contains_key((layer, #[trigger] experts[i]))
                || st.missing(layer, experts).contains(experts[i])),
        st.hits(layer, experts).len() + st.missing(layer, experts).len() == experts.len(),
    decreases experts.len(),
{
    if experts.len() > 0 {
        let front = experts.drop_last();
        lemma_hits(st, layer, front);
        let hits = st.hits(layer, experts);
        let missing = st.missing(layer, experts);
        let e = experts.last();
        assert(experts[experts.len() - 1] == e);
        assert forall|j: int| 0 <= j < hits.len() implies {
            let p = #[trigger] hits[j];
            &&& st.map.contains_key((layer, p.0))
            &&& st.map[(layer, p.0)] == p.1
            &&& p.1 < st.slots.len()
            &&& experts.contains(p.0)
        } by {
            if j < st.hits(layer, front).len() {
                let p = st.hits(layer, front)[j];
                let i = choose|i: int| 0 <= i < front.len() && front[i] == p.0;
                assert(experts[i] == p.0);
            }
        }
        assert forall|j: int| 0 <= j < missing.len() implies {
            let m = #[trigger] missing[j];
            &&& !st.map.contains_key((layer, m))
            &&& experts.contains(m)
        } by {
            if j < st.missing(layer, front).len() {
                let m = st.missing(layer, front)[j];
                let i = choose|i: int| 0 <= i < front.len() && front[i] == m;
                assert(experts[i] == m);
            }
        }
        assert forall|i: int| 0 <= i < experts.len() implies (st.map.contains_key(
            (layer, #[trigger] experts[i]),
        ) || missing.contains(experts[i])) by {
            if i < front.len() {
                assert(front[i] == experts[i]);
                if !st.map.contains_key((layer, experts[i])) {
                    let before = st.missing(layer, front);
                    let j = choose|j: int| 0 <= j < before.len() && before[j] == front[i];
                    assert(missing[j] == experts[i]);
                }
            } else if !st.map.contains_key((layer, e)) {
                assert(missing[missing.len() - 1] == e);
            }
        }
    }
}

/// After placing `experts`, the mapped key `k` still sits at its slot, if that is the
/// slot of a hit, no other slot holds the key, and not every slot is that of a hit.
proof fn lemma_place_all_keeps(
    st: CacheState,
    hits: Seq<(u32, u32)>,
    layer: u32,
    experts: Seq<u32>,
    k: ExpertKey,
)
    requires
        st.wf(),
        0 < st.slots.len() <= u32::MAX,
        fresh_occupied(st),
        stamped(st, hits),
        st.map.contains_key(k),
        holds_slot(hits, st.map[k] as int),
        forall|s: int| 0 <= s < st.slots.len() && #[trigger] st.slots[s] == Some(k) ==> s == st.map[k],
        forall|i: int| 0 <= i < experts.len() ==> (layer, #[trigger] experts[i]) != k,
        !st.all_hit(hits) || experts.len() == 0,
    ensures
        ({
            let after = st.place_all(hits, layer, experts);
            &&& after.wf()
            &&& after.slots.len() == st.slots.len()
            &&& after.tick == st.tick
            &&& fresh_occupied(after)
            &&& stamped(after, hits)
            &&& after.map.contains_key(k)
            &&& after.map[k] == st.map[k]
            &&& forall|s: int| 0 <= s < after.slots.len() && #[trigger] after.slots[s] == Some(k) ==> s == st.map[k]
        }),
    decreases experts.len(),
{
    if experts.len() > 0 {
        let front = experts.drop_last();
        assert forall|i: int| 0 <= i < front.len() implies (layer, #[trigger] front[i]) != k by {
            assert(experts[i] == front[i]);
        }
        lemma_place_all_keeps(st, hits, layer, front, k);
        let mid = st.place_all(hits, layer, front);
        let key = (layer, experts.last());
        assert(experts[experts.len() - 1] == experts.last());
        assert(!mid.all_hit(hits));
        lemma_place(mid, hits, key);
        let v = mid.victim(hits);
        assert(v != st.map[k] as int);
        assert(mid.slots[v] != Some(k));
    }
}

/// A step's own hits are never evicted by its own misses, unless every slot is the
/// slot of a hit, so that there is no other one to give to a miss. No other slot may
/// hold a copy of a hit, as lookups of distinct experts leave none.
pub proof fn own_hits_survive(st: CacheState, layer: u32, experts: Seq<u32>)
    requires
        st.wf(),
        0 < st.slots.len() <= u32::MAX,
        st.tick < u64::MAX,
        forall|j: int, s: int|
            #![trigger st.hits(layer, experts)[j], st.slots[s]]
            0 <= j < st.hits(layer, experts).len() && 0 <= s < st.slots.len() && st.slots[s] == Some(
                (layer, st.hits(layer, experts)[j].0),
            ) ==> s == st.hits(layer, experts)[j].1,
        !st.all_hit(st.hits(layer, experts)) || st.missing(layer, experts).len() == 0,
    ensures
        forall|j: int|
            0 <= j < st.hits(layer, experts).len() ==> {
                let p = #[trigger] st.hits(layer, experts)[j];
                let after = st.after_lookup(layer, experts);
                &&& after.map.contains_key((layer, p.0))
                &&& after.map[(layer, p.0)] == p.1
            },
{
    let hits = st.hits(layer, experts);
    let missing = st.missing(layer, experts);
    let touched = st.touch(hits);
    lemma_touch(st, layer, experts);
    lemma_hits(st, layer, experts);
    assert forall|j: int| 0 <= j < hits.len() implies {
        let p = #[trigger] hits[j];
        let after = st.after_lookup(layer, experts);
        &&& after.map.contains_key((layer, p.0))
        &&& after.map[(layer, p.0)] == p.1
    } by {
        let p = hits[j];
        let k = (layer, p.0);
        assert(holds_slot(hits, p.1 as int));
        assert forall|i: int| 0 <= i < missing.len() implies (layer, #[trigger] missing[i]) != k by {
        }
        assert(touched.map[k] == p.1);
        assert(touched.all_hit(hits) == st.all_hit(hits));
        lemma_place_all_keeps(touched, hits, layer, missing, k);
    }
}

/// Where the experts of a step fit into the cache, its hits are in the slots of the map,
/// before and after.
pub proof fn hits_keep_their_slots(st: CacheState, layer: u32, experts: Seq<u32>)
    requires
        st.wf(),
        st.exact(),
        0 < st.slots.len() <= u32::MAX,
        st.tick < u64::MAX,
        experts.len() <= st.slots.len(),
    ensures
        forall|j: int|
            0 <= j < st.hits(layer, experts).len() ==> {
                let p = #[trigger] st.hits(layer, experts)[j];
                let after = st.after_lookup(layer, experts);
                &&& st.map.contains_key((layer, p.0))
                &&& st.map[(layer, p.0)] == p.1
                &&& after.map.contains_key((layer, p.0))
                &&& after.map[(layer, p.0)] == p.1
            },
{
    let hits = st.hits(layer, experts);
    lemma_hits(st, layer, experts);
    lemma_room_for_misses(st, layer, experts);
    assert forall|j: int, s: int|
        #![trigger hits[j], st.slots[s]]
        0 <= j < hits.len() && 0 <= s < st.slots.len() && st.slots[s] == Some(
            (layer, hits[j].0),
        ) implies s == hits[j].1 by {
        assert(st.map[st.slots[s]->0] == s);
    }
    own_hits_survive(st, layer, experts);
}

/// Hits that are looked up again at once hit again, in the same slots: after lookups
/// of distinct experts no hit of a step is evicted by the step's misses, as long as
/// there is a slot that is not the slot of a hit.
pub proof fn hits_hit_again(st: CacheState, layer: u32, experts: Seq<u32>, j: int)
    requires
        st.wf(),
        st.exact(),
        0 < st.slots.len() <= u32::MAX,
        st.tick < u64::MAX,
        !st.all_hit(st.hits(layer, experts)) || st.missing(layer, experts).len() == 0,
        0 <= j < st.hits(layer, experts).len(),
    ensures
        ({
            let p = st.hits(layer, experts)[j];
            st.after_lookup(layer, experts).hits(layer, seq![p.0]) == seq![p]
        }),
{
    let hits = st.hits(layer, experts);
    let p = hits[j];
    let after = st.after_lookup(layer, experts);
    lemma_hits(st, layer, experts);
    assert forall|j: int, s: int|
        #![trigger hits[j], st.slots[s]]
        0 <= j < hits.len() && 0 <= s < st.slots.len() && st.slots[s] == Some(
            (layer, hits[j].0),
        ) implies s == hits[j].1 by {
        assert(st.map[st.slots[s]->0] == s);
    }
    own_hits_survive(st, layer, experts);
    assert(seq![p.0].drop_last() =~= seq![]);
    assert(after.hits(layer, seq![]) =~= seq![]);
    assert(after.map[(layer, p.0)] == p.1);
    assert(after.hits(layer, seq![p.0]) =~= seq![p]);
}

/// What a lookup leaves behind when its experts are distinct.
proof fn lemma_place_all_distinct(
    st: CacheState,
    hits: Seq<(u32, u32)>,
    layer: u32,
    experts: Seq<u32>,
)
    requires
        st.wf(),
        st.exact(),
        0 < st.slots.len() <= u32::MAX,
        fresh_occupied(st),
        stamped(st, hits),
        experts.no_duplicates(),
        forall|i: int| 0 <= i < experts.len() ==> !st.map.contains_key((layer, #[trigger] experts[i])),
    ensures
        ({
            let after = st.place_all(hits, layer, experts);
            &&& after.wf()
            &&& after.exact()
            &&& after.slots.len() == st.slots.len()
            &&& after.tick == st.tick
            &&& fresh_occupied(after)
            &&& stamped(after, hits)
            &&& fresh(after).finite()
            &&& fresh(after).len() <= fresh(st).len() + experts.len()
            &&& forall|k: ExpertKey| #[trigger] after.map.contains_key(k) ==> st.map.contains_key(k) || (k.0
                == layer && experts.contains(k.1))
            &&& st.placements(hits, layer, experts).len() == experts.len()
            &&& fresh(st).len() + experts.len() <= st.slots.len() ==> forall|i: int|
                0 <= i < experts.len() ==> after.map.contains_key((layer, #[trigger] experts[i]))
                    && after.last_used[after.map[(layer, experts[i])] as int] == after.tick
                    && st.placements(hits, layer, experts)[i] == (
                    experts[i],
                    after.map[(layer, experts[i])],
                )
        }),
    decreases experts.len(),
{
    if experts.len() == 0 {
        lemma_place(st, hits, (0, 0));
    } else {
        let front = experts.drop_last();
        let e = experts.last();
        let key = (layer, e);
        assert(experts[experts.len() - 1] == e);
        assert forall|i: int| 0 <= i < front.len() implies !st.map.contains_key(
            (layer, #[trigger] front[i]),
        ) by {
            assert(front[i] == experts[i]);
        }
        lemma_place_all_distinct(st, hits, layer, front);
        let mid = st.place_all(hits, layer, front);
        lemma_place(mid, hits, key);
        let v = mid.victim(hits);
        let after = mid.place(hits, key);
        lemma_place(after, hits, key);
        assert(!mid.map.contains_key(key)) by {
            if mid.map.contains_key(key) {
                let i = choose|i: int| 0 <= i < front.len() && front[i] == e;
                assert(experts[i] == e);
            }
        }
        assert(after.exact()) by {
            assert forall|s: int| 0 <= s < after.slots.len() && (#[trigger] after.slots[s]) is Some implies after.map.contains_key(
            after.slots[s]->0) && after.map[after.slots[s]->0] == s by {
                if s != v {
                    assert(mid.slots[s] == after.slots[s]);
                    let k = mid.slots[s]->0;
                    assert(mid.map[k] == s);
                    if mid.slots[v] is Some {
                        assert(mid.map[mid.slots[v]->0] == v);
                    }
                }
            }
        }
        assert forall|k: ExpertKey| #[trigger] after.map.contains_key(k) implies st.map.contains_key(k)
            || (k.0 == layer && experts.contains(k.1)) by {
            if k != key {
                assert(mid.map.contains_key(k));
                if !st.map.contains_key(k) {
                    let i = choose|i: int| 0 <= i < front.len() && front[i] == k.1;
                    assert(experts[i] == k.1);
                }
            }
        }
        if fresh(st).len() + experts.len() <= st.slots.len() {
            assert forall|i: int| 0 <= i < experts.len() implies after.map.contains_key(
                (layer, #[trigger] experts[i]),
            ) && after.last_used[after.map[(layer, experts[i])] as int] == after.tick
                && st.placements(hits, layer, experts)[i] == (
                experts[i],
                after.map[(layer, experts[i])],
            ) by {
                if i < front.len() {
                    let k = (layer, experts[i]);
                    assert(front[i] == experts[i]);
                    assert(fresh(mid).contains(mid.map[k] as int));
                    assert(mid.map[k] != v);
                }
            }
        }
    }
}

/// Of distinct experts, the missing ones are distinct.
pub proof fn missing_experts_are_distinct(st: CacheState, layer: u32, experts: Seq<u32>)
    requires
        st.wf(),
        experts.no_duplicates(),
    ensures
        st.missing(layer, experts).no_duplicates(),
    decreases experts.len(),
{
    if experts.len() > 0 {
        let front = experts.drop_last();
        assert(front.no_duplicates()) by {
            assert forall|i: int, j: int| 0 <= i < front.len() && 0 <= j < front.len() && i != j implies front[i]
                != front[j] by {
                assert(experts[i] != experts[j]);
            }
        }
        missing_experts_are_distinct(st, layer, front);
        lemma_hits(st, layer, front);
        let before = st.missing(layer, front);
        let e = experts.last();
        assert(!before.contains(e)) by {
            if before.contains(e) {
                let j = choose|j: int| 0 <= j < before.len() && before[j] == e;
                assert(front.contains(before[j]));
                let i = choose|i: int| 0 <= i < front.len() && front[i] == e;
                assert(experts[i] != experts[experts.len() - 1]);
            }
        }
    }
}

/// A lookup of distinct experts keeps the slots and the map in agreement.
pub proof fn distinct_lookup_stays_exact(st: CacheState, layer: u32, experts: Seq<u32>)
    requires
        st.wf(),
        st.exact(),
        st.slots.len() <= u32::MAX,
        st.slots.len() > 0 || experts.len() == 0,
        st.tick < u64::MAX,
        experts.no_duplicates(),
    ensures
        st.after_lookup(layer, experts).wf(),
        st.after_lookup(layer, experts).exact(),
{
    lemma_touch(st, layer, experts);
    lemma_hits(st, layer, experts);
    missing_experts_are_distinct(st, layer, experts);
    let hits = st.hits(layer, experts);
    let touched = st.touch(hits);
    assert(touched.exact());
    if st.slots.len() > 0 {
        lemma_place_all_distinct(touched, hits, layer, st.missing(layer, experts));
    } else {
        assert(st.missing(layer, experts).len() == 0);
    }
}

/// Forgetting an entry keeps the slots and the map in agreement, unmaps that
/// key alone and frees its slot.
pub proof fn forget_unmaps_one_key(st: CacheState, key: ExpertKey)
    requires
        st.wf(),
        st.exact(),
    ensures
        st.after_forget(key).wf(),
        st.after_forget(key).exact(),
        st.after_forget(key).map == st.map.remove(key),
        st.map.contains_key(key) ==> st.after_forget(key).slots[st.map[key] as int] is None,
        forall|s: int|
            0 <= s < st.slots.len() && st.slots[s] != Some(key) ==> #[trigger] st.after_forget(
                key,
            ).slots[s] == st.slots[s],
{
    let after = st.after_forget(key);
    if st.map.contains_key(key) {
        assert forall|s: int| 0 <= s < after.slots.len() && (#[trigger] after.slots[s]) is Some implies after.map.contains_key(
        after.slots[s]->0) && after.map[after.slots[s]->0] == s by {
            assert(st.slots[s] == after.slots[s]);
        }
        assert forall|k: ExpertKey| #[trigger] after.map.contains_key(k) implies after.map[k]
            < after.slots.len() && after.slots[after.map[k] as int] == Some(k) by {
            assert(st.map.contains_key(k));
        }
    } else {
        assert(st.map.remove(key) =~= st.map);
    }
}

/// After forgetting an entry, routing that expert again is a miss.
pub proof fn forgotten_expert_misses(st: CacheState, layer: u32, expert: u32)
    requires
        st.wf(),
    ensures
        st.after_forget((layer, expert)).hits(layer, seq![expert]).len() == 0,
        st.after_forget((layer, expert)).missing(layer, seq![expert]) == seq![expert],
{
    let after = st.after_forget((layer, expert));
    assert(seq![expert].drop_last() =~= seq![]);
    assert(after.hits(layer, seq![]) =~= seq![]);
    assert(after.missing(layer, seq![]) =~= seq![]);
    assert(after.missing(layer, seq![expert]) =~= seq![expert]);
}

/// Distinct experts that fit into the cache are all resident after a lookup:
/// looking the same experts up again reports every one of them as a hit.
pub proof fn routed_experts_become_resident(st: CacheState, layer: u32, experts: Seq<u32>)
    requires
        st.wf(),
        st.exact(),
        0 < st.slots.len() <= u32::MAX,
        st.tick < u64::MAX,
        experts.no_duplicates(),
        experts.len() <= st.slots.len(),
    ensures
        forall|i: int|
            0 <= i < experts.len() ==> st.after_lookup(layer, experts).map.contains_key(
                (layer, #[trigger] experts[i]),
            ),
        st.after_lookup(layer, experts).hits(layer, experts).len() == experts.len(),
        st.after_lookup(layer, experts).missing(layer, experts).len() == 0,
{
    let hits = st.hits(layer, experts);
    let missing = st.missing(layer, experts);
    let touched = st.touch(hits);
    let after = st.after_lookup(layer, experts);
    lemma_touch(st, layer, experts);
    lemma_hits(st, layer, experts);
    missing_experts_are_distinct(st, layer, experts);
    assert(touched.exact());
    lemma_hit_slots_bound(st, layer, experts);
    lemma_room_for_misses(st, layer, experts);
    lemma_place_all_distinct(touched, hits, layer, missing);
    assert forall|i: int| 0 <= i < experts.len() implies after.map.contains_key(
        (layer, #[trigger] experts[i]),
    ) by {
        let k = (layer, experts[i]);
        if st.map.contains_key(k) {
            lemma_resident_is_hit(st, layer, experts, i);
            assert forall|j: int| 0 <= j < missing.len() implies (layer, #[trigger] missing[j]) != k by {
            }
            assert forall|s: int| 0 <= s < touched.slots.len() && #[trigger] touched.slots[s] == Some(k) implies s
                == touched.map[k] by {
                assert(st.map[st.slots[s]->0] == s);
            }
            lemma_place_all_keeps(touched, hits, layer, missing, k);
        } else {
            let j = choose|j: int| 0 <= j < missing.len() && missing[j] == experts[i];
            assert(missing[j] == experts[i]);
        }
    }
    lemma_all_resident(after, layer, experts);
}

/// Missing experts land in the slots that a lookup gives for them: where the
/// experts are distinct and fit into the cache, each miss is mapped to its slot.
pub proof fn misses_land_in_their_slots(st: CacheState, layer: u32, experts: Seq<u32>)
    requires
        st.wf(),
        st.exact(),
        0 < st.slots.len() <= u32::MAX,
        st.tick < u64::MAX,
        experts.no_duplicates(),
        experts.len() <= st.slots.len(),
    ensures
        forall|j: int|
            0 <= j < st.misses(layer, experts).len() ==> {
                let p = #[trigger] st.misses(layer, experts)[j];
                let after = st.after_lookup(layer, experts);
                &&& after.map.contains_key((layer, p.0))
                &&& after.map[(layer, p.0)] == p.1
            },
{
    let missing = st.missing(layer, experts);
    let hits = st.hits(layer, experts);
    let touched = st.touch(hits);
    lemma_touch(st, layer, experts);
    lemma_hits(st, layer, experts);
    missing_experts_are_distinct(st, layer, experts);
    assert(touched.exact());
    lemma_hit_slots_bound(st, layer, experts);
    lemma_room_for_misses(st, layer, experts);
    lemma_place_all_distinct(touched, hits, layer, missing);
    assert forall|j: int| 0 <= j < st.misses(layer, experts).len() implies {
        let p = #[trigger] st.misses(layer, experts)[j];
        let after = st.after_lookup(layer, experts);
        &&& after.map.contains_key((layer, p.0))
        &&& after.map[(layer, p.0)] == p.1
    } by {
        assert(touched.place_all(hits, layer, missing).map.contains_key((layer, missing[j])));
    }
}

/// Where the experts of a step are distinct and fit into the cache, no miss is given
/// the slot of a hit, and no two misses are given the same slot.
pub proof fn misses_spare_slots_in_use(st: CacheState, layer: u32, experts: Seq<u32>)
    requires
        st.wf(),
        st.exact(),
        0 < st.slots.len() <= u32::MAX,
        st.tick < u64::MAX,
        experts.no_duplicates(),
        experts.len() <= st.slots.len(),
    ensures
        forall|i: int, j: int|
            0 <= i < st.hits(layer, experts).len() && 0 <= j < st.misses(layer, experts).len() ==> (
            #[trigger] st.hits(layer, experts)[i]).1 != (#[trigger] st.misses(layer, experts)[j]).1,
        forall|i: int, j: int|
            0 <= i < j < st.misses(layer, experts).len() ==> (#[trigger] st.misses(
                layer,
                experts,
            )[i]).1 != (#[trigger] st.misses(layer, experts)[j]).1,
{
    let hits = st.hits(layer, experts);
    let misses = st.misses(layer, experts);
    let missing = st.missing(layer, experts);
    let after = st.after_lookup(layer, experts);
    lemma_hits(st, layer, experts);
    lemma_hit_slots_bound(st, layer, experts);
    lemma_room_for_misses(st, layer, experts);
    assert forall|j: int, s: int|
        #![trigger hits[j], st.slots[s]]
        0 <= j < hits.len() && 0 <= s < st.slots.len() && st.slots[s] == Some(
            (layer, hits[j].0),
        ) implies s == hits[j].1 by {
        assert(st.map[st.slots[s]->0] == s);
    }
    own_hits_survive(st, layer, experts);
    misses_land_in_their_slots(st, layer, experts);
    distinct_lookup_stays_exact(st, layer, experts);
    missing_experts_are_distinct(st, layer, experts);
    crate::dispatch::misses_name_missing_experts(st, layer, experts);
    assert(crate::dispatch::experts_of(misses) == missing);
    assert forall|j: int| 0 <= j < misses.len() implies (#[trigger] misses[j]).0 == missing[j] by {
        assert(crate::dispatch::experts_of(misses)[j] == misses[j].0);
    }
    assert forall|i: int, j: int| 0 <= i < hits.len() && 0 <= j < misses.len() implies (
    #[trigger] hits[i]).1 != (#[trigger] misses[j]).1 by {
        assert(after.map[(layer, hits[i].0)] == hits[i].1);
        assert(after.map[(layer, misses[j].0)] == misses[j].1);
        assert(st.map.contains_key((layer, hits[i].0)));
        assert(!st.map.contains_key((layer, missing[j])));
        assert(after.slots[hits[i].1 as int] == Some((layer, hits[i].0)));
        assert(after.slots[misses[j].1 as int] == Some((layer, misses[j].0)));
    }
    assert forall|i: int, j: int| 0 <= i < j < misses.len() implies (#[trigger] misses[i]).1 != (
    #[trigger] misses[j]).1 by {
        assert(missing[i] != missing[j]);
        assert(after.slots[misses[i].1 as int] == Some((layer, misses[i].0)));
        assert(after.slots[misses[j].1 as int] == Some((layer, misses[j].0)));
    }
}

/// Where the experts of a step fit into the cache, there is a slot that is not the
/// slot of a hit, or nothing is missing.
proof fn lemma_room_for_misses(st: CacheState, layer: u32, experts: Seq<u32>)
    requires
        st.wf(),
        experts.len() <= st.slots.len(),
    ensures
        !st.all_hit(st.hits(layer, experts)) || st.missing(layer, experts).len() == 0,
{
    let hits = st.hits(layer, experts);
    lemma_hits(st, layer, experts);
    lemma_hit_slots_bound(st, layer, experts);
    if st.all_hit(hits) {
        let all = set_int_range(0, st.slots.len() as int);
        lemma_int_range(0, st.slots.len() as int);
        assert forall|s: int| all.contains(s) implies hit_slots(st, layer, experts).contains(s) by {
            assert(holds_slot(hits, s));
        }
        assert(hit_slots(st, layer, experts) =~= all);
    }
}

proof fn lemma_hit_slots_bound(st: CacheState, layer: u32, experts: Seq<u32>)
    requires
        st.wf(),
    ensures
        hit_slots(st, layer, experts).finite(),
        hit_slots(st, layer, experts).len() <= st.hits(layer, experts).len(),
    decreases experts.len(),
{
    let now = hit_slots(st, layer, experts);
    if experts.len() == 0 {
        assert(now =~= Set::empty());
    } else {
        let front = experts.drop_last();
        lemma_hit_slots_bound(st, layer, front);
        let before = hit_slots(st, layer, front);
        let hits = st.hits(layer, experts);
        let old_hits = st.hits(layer, front);
        if st.map.contains_key((layer, experts.last())) {
            let s = st.map[(layer, experts.last())] as int;
            assert forall|t: int| now.contains(t) implies before.insert(s).contains(t) by {
                let j = choose|j: int| 0 <= j < hits.len() && (#[trigger] hits[j]).1 == t;
                if j < old_hits.len() {
                    assert(old_hits[j].1 == t);
                }
            }
            lemma_len_subset(now, before.insert(s));
        } else {
            assert(now =~= before);
        }
    }
}

proof fn lemma_resident_is_hit(st: CacheState, layer: u32, experts: Seq<u32>, i: int)
    requires
        st.wf(),
        0 <= i < experts.len(),
        st.map.contains_key((layer, experts[i])),
    ensures
        holds_slot(st.hits(layer, experts), st.map[(layer, experts[i])] as int),
    decreases experts.len(),
{
    let hits = st.hits(layer, experts);
    let front = experts.drop_last();
    let s = st.map[(layer, experts[i])] as int;
    if i == experts.len() - 1 {
        assert(hits[hits.len() - 1].1 == s);
    } else {
        assert(front[i] == experts[i]);
        lemma_resident_is_hit(st, layer, front, i);
        let before = st.hits(layer, front);
        let j = choose|j: int| 0 <= j < before.len() && (#[trigger] before[j]).1 == s;
        assert(hits[j].1 == s);
    }
}

proof fn lemma_all_resident(st: CacheState, layer: u32, experts: Seq<u32>)
    requires
        forall|i: int|
            0 <= i < experts.len() ==> st.map.contains_key((layer, #[trigger] experts[i])),
    ensures
        st.hits(layer, experts).len() == experts.len(),
        st.missing(layer, experts).len() == 0,
    decreases experts.len(),
{
    if experts.len() > 0 {
        let front = experts.drop_last();
        assert(experts[experts.len() - 1] == experts.last());
        assert forall|i: int| 0 <= i < front.len() implies st.map.contains_key(
            (layer, #[trigger] front[i]),
        ) by {
            assert(front[i] == experts[i]);
        }
        lemma_all_resident(st, layer, front);
    }
}

/// The slots that hold nothing.
pub open spec fn free_slots(st: CacheState) -> Set<int> {
    Set::new(|s: int| 0 <= s < st.slots.len() && st.slots[s] is None)
}

/// The keys that are resident before, but not after.
pub open spec fn leaving(before: CacheState, after: CacheState) -> Set<ExpertKey> {
    Set::new(|k: ExpertKey| before.map.contains_key(k) && !after.map.contains_key(k))
}

/// The key is among the experts that are looked up.
pub open spec fn looked_up(layer: u32, experts: Seq<u32>, k: ExpertKey) -> bool {
    k.0 == layer && experts.contains(k.1)
}

/// How many are left of `a` once `b` are taken away.
pub open spec fn excess(a: nat, b: nat) -> nat {
    if a > b {
        (a - b) as nat
    } else {
        0
    }
}

/// Slot `s` is as it was, or holds one of the experts since this tick, and was not
/// touched at this tick before.
spec fn kept_or_filled(
    st: CacheState,
    after: CacheState,
    layer: u32,
    experts: Seq<u32>,
    s: int,
) -> bool {
    ||| after.slots[s] == st.slots[s] && after.last_used[s] == st.last_used[s]
    ||| {
        &&& after.last_used[s] == st.tick
        &&& st.last_used[s] != st.tick
        &&& after.slots[s] is Some
        &&& looked_up(layer, experts, after.slots[s]->0)
    }
}

/// What leaves was touched no later than what stays, slots of this tick aside.
spec fn oldest_leave(st: CacheState, after: CacheState) -> bool {
    forall|k: ExpertKey, j: ExpertKey|
        #![trigger leaving(st, after).contains(k), after.map.contains_key(j)]
        leaving(st, after).contains(k) && st.map.contains_key(j) && after.map.contains_key(j)
            && st.last_used[st.map[j] as int] != st.tick ==> st.last_used[st.map[k] as int]
            <= st.last_used[st.map[j] as int]
}

proof fn lemma_free_slots_finite(st: CacheState)
    ensures
        free_slots(st).finite(),
{
    let all = set_int_range(0, st.slots.len() as int);
    lemma_int_range(0, st.slots.len() as int);
    assert(free_slots(st).subset_of(all));
    lemma_len_subset(free_slots(st), all);
}

proof fn lemma_place_all_evicts(
    st: CacheState,
    hits: Seq<(u32, u32)>,
    layer: u32,
    experts: Seq<u32>,
)
    requires
        st.wf(),
        st.exact(),
        0 < st.slots.len() <= u32::MAX,
        fresh_occupied(st),
        stamped(st, hits),
        experts.no_duplicates(),
        forall|i: int| 0 <= i < experts.len() ==> !st.map.contains_key((layer, #[trigger] experts[i])),
        fresh(st).len() + experts.len() <= st.slots.len(),
    ensures
        ({
            let after = st.place_all(hits, layer, experts);
            &&& free_slots(after).len() == excess(free_slots(st).len(), experts.len())
            &&& leaving(st, after).finite()
            &&& leaving(st, after).len() == excess(experts.len(), free_slots(st).len())
            &&& forall|s: int|
                0 <= s < st.slots.len() ==> #[trigger] kept_or_filled(st, after, layer, experts, s)
            &&& forall|j: ExpertKey|
                st.map.contains_key(j) && #[trigger] after.map.contains_key(j) ==> after.map[j]
                    == st.map[j]
            &&& oldest_leave(st, after)
        }),
    decreases experts.len(),
{
    let after = st.place_all(hits, layer, experts);
    lemma_free_slots_finite(st);
    if experts.len() == 0 {
        assert(leaving(st, after) =~= Set::empty());
        assert forall|s: int| 0 <= s < st.slots.len() implies #[trigger] kept_or_filled(
            st,
            after,
            layer,
            experts,
            s,
        ) by {}
    } else {
        let front = experts.drop_last();
        let e = experts.last();
        let key = (layer, e);
        let n = front.len();
        let f = free_slots(st).len();
        assert(experts[experts.len() - 1] == e);
        assert forall|i: int| 0 <= i < front.len() implies !st.map.contains_key(
            (layer, #[trigger] front[i]),
        ) by {
            assert(front[i] == experts[i]);
        }
        assert(front.no_duplicates()) by {
            assert forall|i: int, j: int| 0 <= i < front.len() && 0 <= j < front.len() && i != j implies front[i]
                != front[j] by {
                assert(experts[i] != experts[j]);
            }
        }
        lemma_place_all_evicts(st, hits, layer, front);
        lemma_place_all_distinct(st, hits, layer, front);
        let mid = st.place_all(hits, layer, front);
        lemma_place(mid, hits, key);
        lemma_free_slots_finite(mid);
        let v = mid.victim(hits);
        assert(!fresh(mid).contains(v));
        assert(mid.spare(hits, v));
        assert(kept_or_filled(st, mid, layer, front, v));
        assert(mid.slots[v] == st.slots[v] && mid.last_used[v] == st.last_used[v]);
        assert(!st.map.contains_key(key));
        assert forall|k: u32| front.contains(k) implies experts.contains(k) by {
            let i = choose|i: int| 0 <= i < front.len() && front[i] == k;
            assert(experts[i] == k);
        }
        assert forall|s: int| 0 <= s < st.slots.len() implies #[trigger] kept_or_filled(
            st,
            after,
            layer,
            experts,
            s,
        ) by {
            assert(kept_or_filled(st, mid, layer, front, s));
            if s == v {
                assert(experts.contains(e));
            }
        }
        if mid.slots[v] is None {
            assert(free_slots(mid).contains(v));
            assert(free_slots(after) =~= free_slots(mid).remove(v));
            assert(free_slots(mid).len() > 0);
            assert(leaving(st, after) =~= leaving(st, mid));
            assert forall|k: ExpertKey, j: ExpertKey|
                #![trigger leaving(st, after).contains(k), after.map.contains_key(j)]
                leaving(st, after).contains(k) && st.map.contains_key(j) && after.map.contains_key(
                    j,
                ) && st.last_used[st.map[j] as int] != st.tick implies st.last_used[st.map[k] as int]
                <= st.last_used[st.map[j] as int] by {
                assert(leaving(st, mid).contains(k));
                assert(mid.map.contains_key(j));
            }
        } else {
            let kv = mid.slots[v]->0;
            assert(free_slots(mid) =~= Set::empty()) by {
                assert forall|s: int| !free_slots(mid).contains(s) by {
                    if free_slots(mid).contains(s) {
                        assert(!holds_slot(hits, s)) by {
                            if holds_slot(hits, s) {
                                assert(mid.last_used[s] == mid.tick);
                                assert(mid.slots[s] is Some);
                            }
                        }
                        assert(mid.spare(hits, s));
                    }
                }
            }
            assert(free_slots(after) =~= Set::empty()) by {
                assert forall|s: int| !free_slots(after).contains(s) by {
                    assert(!free_slots(mid).contains(s));
                }
            }
            assert(st.map.contains_key(kv) && st.map[kv] == v);
            assert(mid.map.contains_key(kv) && mid.map[kv] == v);
            assert(leaving(st, after) =~= leaving(st, mid).insert(kv));
            assert(!leaving(st, mid).contains(kv));
            assert forall|k: ExpertKey, j: ExpertKey|
                #![trigger leaving(st, after).contains(k), after.map.contains_key(j)]
                leaving(st, after).contains(k) && st.map.contains_key(j) && after.map.contains_key(
                    j,
                ) && st.last_used[st.map[j] as int] != st.tick implies st.last_used[st.map[k] as int]
                <= st.last_used[st.map[j] as int] by {
                assert(mid.map.contains_key(j));
                let t = st.map[j] as int;
                assert(mid.map[j] == st.map[j]);
                if k == kv {
                    assert(kept_or_filled(st, mid, layer, front, t));
                    assert(mid.slots[t] == Some(j));
                    if looked_up(layer, front, j) {
                        let i = choose|i: int| 0 <= i < front.len() && front[i] == j.1;
                        assert(!st.map.contains_key((layer, front[i])));
                    }
                    assert(mid.last_used[t] == st.last_used[t]);
                    assert(!holds_slot(hits, t)) by {
                        if holds_slot(hits, t) {
                            assert(mid.last_used[t] == mid.tick);
                        }
                    }
                    assert(mid.spare(hits, t));
                } else {
                    assert(leaving(st, mid).contains(k));
                }
            }
        }
    }
}

/// A whole lookup evicts the least recently used residents, and no more than it has
/// to. Where the experts are distinct and fit into the cache, as many residents leave
/// as there are more misses than free slots. None of those that leave is looked up,
/// and each was touched no later than every resident that stays and is not looked up.
/// What stays keeps its slot.
pub proof fn lookup_evicts_the_least_recently_used(st: CacheState, layer: u32, experts: Seq<u32>)
    requires
        st.wf(),
        st.exact(),
        0 < st.slots.len() <= u32::MAX,
        st.tick < u64::MAX,
        experts.no_duplicates(),
        experts.len() <= st.slots.len(),
    ensures
        ({
            let after = st.after_lookup(layer, experts);
            let left = leaving(st, after);
            &&& left.finite()
            &&& left.len() == excess(st.misses(layer, experts).len(), free_slots(st).len())
            &&& forall|k: ExpertKey| #[trigger] left.contains(k) ==> !looked_up(layer, experts, k)
            &&& forall|k: ExpertKey, j: ExpertKey|
                #![trigger left.contains(k), after.map.contains_key(j)]
                left.contains(k) && st.map.contains_key(j) && after.map.contains_key(j)
                    && !looked_up(layer, experts, j) ==> st.last_used[st.map[k] as int]
                    <= st.last_used[st.map[j] as int]
            &&& forall|j: ExpertKey|
                st.map.contains_key(j) && #[trigger] after.map.contains_key(j) ==> after.map[j]
                    == st.map[j]
        }),
{
    let hits = st.hits(layer, experts);
    let missing = st.missing(layer, experts);
    let touched = st.touch(hits);
    let after = st.after_lookup(layer, experts);
    let left = leaving(st, after);
    lemma_touch(st, layer, experts);
    lemma_hits(st, layer, experts);
    missing_experts_are_distinct(st, layer, experts);
    lemma_hit_slots_bound(st, layer, experts);
    assert(touched.exact());
    lemma_place_all_evicts(touched, hits, layer, missing);
    lemma_place_all_distinct(touched, hits, layer, missing);
    routed_experts_become_resident(st, layer, experts);
    assert(free_slots(touched) =~= free_slots(st));
    assert(left =~= leaving(touched, after));
    assert forall|k: ExpertKey| #[trigger] left.contains(k) implies !looked_up(layer, experts, k) by {
        if looked_up(layer, experts, k) {
            let i = choose|i: int| 0 <= i < experts.len() && experts[i] == k.1;
            assert(after.map.contains_key((layer, experts[i])));
        }
    }
    assert forall|k: ExpertKey|
        st.map.contains_key(k) && !looked_up(layer, experts, k) implies touched.last_used[#[trigger] st.map[k] as int]
        == st.last_used[st.map[k] as int] by {
        lemma_not_a_hit(st, layer, experts, k);
    }
    assert forall|k: ExpertKey, j: ExpertKey|
        #![trigger left.contains(k), after.map.contains_key(j)]
        left.contains(k) && st.map.contains_key(j) && after.map.contains_key(j) && !looked_up(
            layer,
            experts,
            j,
        ) implies st.last_used[st.map[k] as int] <= st.last_used[st.map[j] as int] by {
        assert(leaving(touched, after).contains(k));
        assert(st.last_used[st.map[j] as int] <= st.tick);
        assert(touched.map.contains_key(j));
        assert(touched.last_used[st.map[j] as int] != touched.tick);
    }
}

proof fn lemma_not_a_hit(st: CacheState, layer: u32, experts: Seq<u32>, k: ExpertKey)
    requires
        st.wf(),
        st.map.contains_key(k),
        !looked_up(layer, experts, k),
    ensures
        !holds_slot(st.hits(layer, experts), st.map[k] as int),
{
    let hits = st.hits(layer, experts);
    lemma_hits(st, layer, experts);
    if holds_slot(hits, st.map[k] as int) {
        let i = choose|i: int| 0 <= i < hits.len() && (#[trigger] hits[i]).1 == st.map[k] as int;
        assert(st.slots[hits[i].1 as int] == Some((layer, hits[i].0)));
    }
}

/// A lookup stamps what it returns with its tick, and nothing else: a slot's stamp is
/// the tick of the last lookup that returned its key. The experts are distinct and fit
/// into the cache.
pub proof fn lookup_stamps_what_it_returns(st: CacheState, layer: u32, experts: Seq<u32>, k: ExpertKey)
    requires
        st.wf(),
        st.exact(),
        0 < st.slots.len() <= u32::MAX,
        st.tick < u64::MAX,
        experts.no_duplicates(),
        experts.len() <= st.slots.len(),
        st.after_lookup(layer, experts).map.contains_key(k),
    ensures
        ({
            let after = st.after_lookup(layer, experts);
            &&& after.tick == st.tick + 1
            &&& after.last_used[after.map[k] as int] == if looked_up(layer, experts, k) {
                after.tick
            } else {
                st.last_used[st.map[k] as int]
            }
        }),
{
    let hits = st.hits(layer, experts);
    let missing = st.missing(layer, experts);
    let touched = st.touch(hits);
    let after = st.after_lookup(layer, experts);
    lemma_touch(st, layer, experts);
    lemma_hits(st, layer, experts);
    missing_experts_are_distinct(st, layer, experts);
    lemma_hit_slots_bound(st, layer, experts);
    assert(touched.exact());
    lemma_place_all_evicts(touched, hits, layer, missing);
    lemma_place_all_distinct(touched, hits, layer, missing);
    let s = after.map[k] as int;
    assert(kept_or_filled(touched, after, layer, missing, s));
    if looked_up(layer, experts, k) {
        let i = choose|i: int| 0 <= i < experts.len() && experts[i] == k.1;
        if st.map.contains_key(k) {
            lemma_resident_is_hit(st, layer, experts, i);
            assert(after.map[k] == st.map[k]);
        } else {
            let j = choose|j: int| 0 <= j < missing.len() && missing[j] == experts[i];
            assert(after.map.contains_key((layer, missing[j])));
        }
    } else {
        assert(!missing.contains(k.1) || k.0 != layer) by {
            if missing.contains(k.1) {
                let j = choose|j: int| 0 <= j < missing.len() && missing[j] == k.1;
                assert(experts.contains(missing[j]));
            }
        }
        assert(st.map.contains_key(k));
        lemma_not_a_hit(st, layer, experts, k);
    }
}

proof fn lemma_hits_by_place(st: CacheState, layer: u32, experts: Seq<u32>)
    requires
        forall|i: int|
            0 <= i < experts.len() ==> st.map.contains_key((layer, #[trigger] experts[i])),
    ensures
        st.hits(layer, experts) == Seq::new(
            experts.len(),
            |i: int| (experts[i], st.map[(layer, experts[i])]),
        ),
    decreases experts.len(),
{
    let want = Seq::new(experts.len(), |i: int| (experts[i], st.map[(layer, experts[i])]));
    if experts.len() > 0 {
        let front = experts.drop_last();
        assert(experts[experts.len() - 1] == experts.last());
        assert forall|i: int| 0 <= i < front.len() implies st.map.contains_key(
            (layer, #[trigger] front[i]),
        ) by {
            assert(front[i] == experts[i]);
        }
        lemma_hits_by_place(st, layer, front);
        assert(st.hits(layer, experts) =~= want);
    } else {
        assert(st.hits(layer, experts) =~= want);
    }
}

/// Looking the same experts up again at once finds every one of them, each in the slot
/// that the first lookup gave for it. All these slots exist and are distinct, and every
/// resident has a slot of its own. The experts are distinct and fit into the cache.
pub proof fn second_lookup_finds_the_same(st: CacheState, layer: u32, experts: Seq<u32>)
    requires
        st.wf(),
        st.exact(),
        0 < st.slots.len() <= u32::MAX,
        st.tick < u64::MAX,
        experts.no_duplicates(),
        experts.len() <= st.slots.len(),
    ensures
        ({
            let given = st.hits(layer, experts) + st.misses(layer, experts);
            let after = st.after_lookup(layer, experts);
            &&& given.len() == experts.len()
            &&& forall|i: int| 0 <= i < given.len() ==> (#[trigger] given[i]).1 < st.slots.len()
            &&& forall|i: int, j: int|
                0 <= i < j < given.len() ==> (#[trigger] given[i]).1 != (#[trigger] given[j]).1
            &&& after.misses(layer, experts).len() == 0
            &&& after.hits(layer, experts).len() == experts.len()
            &&& forall|i: int|
                0 <= i < given.len() ==> after.hits(layer, experts).contains(#[trigger] given[i])
            &&& forall|k: ExpertKey, j: ExpertKey|
                #![trigger after.map[k], after.map[j]]
                after.map.contains_key(k) && after.map.contains_key(j) && k != j ==> after.map[k]
                    != after.map[j]
        }),
{
    let hits = st.hits(layer, experts);
    let misses = st.misses(layer, experts);
    let missing = st.missing(layer, experts);
    let given = hits + misses;
    let after = st.after_lookup(layer, experts);
    lemma_hits(st, layer, experts);
    lemma_room_for_misses(st, layer, experts);
    crate::dispatch::misses_name_missing_experts(st, layer, experts);
    misses_land_in_their_slots(st, layer, experts);
    misses_spare_slots_in_use(st, layer, experts);
    distinct_lookup_stays_exact(st, layer, experts);
    routed_experts_become_resident(st, layer, experts);
    lemma_hits_by_place(after, layer, experts);
    assert(crate::dispatch::experts_of(misses).len() == missing.len());
    assert(after.touch(after.hits(layer, experts)).placements(
        after.hits(layer, experts),
        layer,
        seq![],
    ).len() == 0);
    assert(after.missing(layer, experts) =~= seq![]);
    assert(st.slots.len() == after.slots.len()) by {
        lemma_touch(st, layer, experts);
        missing_experts_are_distinct(st, layer, experts);
        assert(st.touch(hits).exact());
        lemma_place_all_distinct(st.touch(hits), hits, layer, missing);
    }
    assert forall|j: int, s: int|
        #![trigger hits[j], st.slots[s]]
        0 <= j < hits.len() && 0 <= s < st.slots.len() && st.slots[s] == Some(
            (layer, hits[j].0),
        ) implies s == hits[j].1 by {
        assert(st.map[st.slots[s]->0] == s);
    }
    own_hits_survive(st, layer, experts);
    assert forall|i: int| 0 <= i < given.len() implies after.map.contains_key(
        (layer, (#[trigger] given[i]).0),
    ) && after.map[(layer, given[i].0)] == given[i].1 && experts.contains(given[i].0) by {
        if i < hits.len() {
            assert(given[i] == hits[i]);
        } else {
            let j = i - hits.len();
            assert(given[i] == misses[j]);
            assert(crate::dispatch::experts_of(misses)[j] == misses[j].0);
            assert(experts.contains(missing[j]));
        }
    }
    assert forall|i: int| 0 <= i < given.len() implies after.hits(layer, experts).contains(
        #[trigger] given[i],
    ) by {
        let e = given[i].0;
        let c = choose|c: int| 0 <= c < experts.len() && experts[c] == e;
        assert(after.hits(layer, experts)[c] == given[i]);
    }
    lemma_hits_distinct(st, layer, experts);
    assert forall|i: int, j: int| 0 <= i < j < given.len() implies (#[trigger] given[i]).1 != (
    #[trigger] given[j]).1 by {
        if j < hits.len() {
            assert(given[i] == hits[i] && given[j] == hits[j]);
            assert(hits[i].0 != hits[j].0);
            assert(st.slots[hits[i].1 as int] == Some((layer, hits[i].0)));
            assert(st.slots[hits[j].1 as int] == Some((layer, hits[j].0)));
        } else if i < hits.len() {
            assert(given[i] == hits[i] && given[j] == misses[j - hits.len()]);
        } else {
            assert(given[i] == misses[i - hits.len()] && given[j] == misses[j - hits.len()]);
        }
    }
}

proof fn lemma_hits_distinct(st: CacheState, layer: u32, experts: Seq<u32>)
    requires
        st.wf(),
        experts.no_duplicates(),
    ensures
        forall|i: int, j: int|
            0 <= i < j < st.hits(layer, experts).len() ==> (#[trigger] st.hits(layer, experts)[i]).0
                != (#[trigger] st.hits(layer, experts)[j]).0,
    decreases experts.len(),
{
    if experts.len() > 0 {
        let front = experts.drop_last();
        assert(front.no_duplicates()) by {
            assert forall|i: int, j: int| 0 <= i < front.len() && 0 <= j < front.len() && i != j implies front[i]
                != front[j] by {
                assert(experts[i] != experts[j]);
            }
        }
        lemma_hits_distinct(st, layer, front);
        lemma_hits(st, layer, front);
        let before = st.hits(layer, front);
        let now = st.hits(layer, experts);
        assert forall|i: int, j: int| 0 <= i < j < now.len() implies (#[trigger] now[i]).0 != (
        #[trigger] now[j]).0 by {
            if j < before.len() {
                assert(now[i] == before[i] && now[j] == before[j]);
            } else {
                assert(now[i] == before[i]);
                assert(front.contains(before[i].0));
                let c = choose|c: int| 0 <= c < front.len() && front[c] == before[i].0;
                assert(experts[c] != experts[experts.len() - 1]);
            }
        }
    }
}

/// In a cache of free slots, the slots and the map agree in both directions.
pub proof fn empty_cache_is_exact(st: CacheState)
    requires
        forall|s: int| 0 <= s < st.slots.len() ==> (#[trigger] st.slots[s]) is None,
    ensures
        st.exact(),
{
}

/// The slots that were touched after the given tick.
pub open spec fn recent(st: CacheState, since: u64) -> Set<int> {
    Set::new(|s: int| 0 <= s < st.last_used.len() && st.last_used[s] > since)
}

/// The slots that were touched after the given tick hold something.
pub open spec fn recent_occupied(st: CacheState, since: u64) -> bool {
    forall|s: int| #[trigger] recent(st, since).contains(s) ==> st.slots[s] is Some
}

/// No more slots were touched after a tick than there are.
pub proof fn recent_is_finite(st: CacheState, since: u64)
    requires
        st.wf(),
    ensures
        recent(st, since).finite(),
        recent(st, since).len() <= st.slots.len(),
{
    let all = set_int_range(0, st.slots.len() as int);
    lemma_int_range(0, st.slots.len() as int);
    assert(recent(st, since).subset_of(all));
    lemma_len_subset(recent(st, since), all);
}

proof fn lemma_place_all_spares_recent(
    st: CacheState,
    hits: Seq<(u32, u32)>,
    layer: u32,
    experts: Seq<u32>,
    since: u64,
)
    requires
        st.wf(),
        0 < st.slots.len() <= u32::MAX,
        since < st.tick,
        fresh_occupied(st),
        stamped(st, hits),
        recent_occupied(st, since),
        recent(st, since).len() + experts.len() <= st.slots.len(),
    ensures
        ({
            let after = st.place_all(hits, layer, experts);
            let given = st.placements(hits, layer, experts);
            &&& after.wf()
            &&& after.slots.len() == st.slots.len()
            &&& after.tick == st.tick
            &&& fresh_occupied(after)
            &&& stamped(after, hits)
            &&& recent_occupied(after, since)
            &&& recent(after, since).len() <= recent(st, since).len() + experts.len()
            &&& given.len() == experts.len()
            &&& forall|j: int|
                0 <= j < given.len() ==> !recent(st, since).contains(
                    (#[trigger] given[j]).1 as int,
                ) && recent(after, since).contains(given[j].1 as int)
            &&& forall|s: int| #[trigger]
                recent(st, since).contains(s) ==> after.slots[s] == st.slots[s]
                    && after.last_used[s] == st.last_used[s] && recent(after, since).contains(s)
        }),
    decreases experts.len(),
{
    if experts.len() > 0 {
        let front = experts.drop_last();
        let key = (layer, experts.last());
        lemma_place_all_spares_recent(st, hits, layer, front, since);
        let mid = st.place_all(hits, layer, front);
        let after = st.place_all(hits, layer, experts);
        lemma_place(mid, hits, key);
        recent_is_finite(mid, since);
        recent_is_finite(after, since);
        let v = mid.victim(hits);
        assert(!recent(mid, since).contains(v)) by {
            if recent(mid, since).contains(v) {
                assert(mid.slots[v] is Some);
                let all = set_int_range(0, mid.slots.len() as int);
                lemma_int_range(0, mid.slots.len() as int);
                assert forall|s: int| all.contains(s) implies recent(mid, since).contains(s) by {
                    if holds_slot(hits, s) {
                        assert(mid.last_used[s] == mid.tick);
                    } else {
                        assert(mid.spare(hits, s));
                        assert(mid.last_used[v] <= mid.last_used[s]);
                    }
                }
                assert(recent(mid, since) =~= all);
            }
        }
        assert(recent(after, since) =~= recent(mid, since).insert(v));
        assert forall|s: int| #[trigger] recent(after, since).contains(s) implies after.slots[s] is Some by {
            if s != v {
                assert(recent(mid, since).contains(s));
            }
        }
        let given = st.placements(hits, layer, experts);
        let before = st.placements(hits, layer, front);
        assert forall|j: int| 0 <= j < given.len() implies !recent(st, since).contains(
            (#[trigger] given[j]).1 as int,
        ) && recent(after, since).contains(given[j].1 as int) by {
            if j < before.len() {
                assert(given[j] == before[j]);
                assert(recent(mid, since).contains(before[j].1 as int));
            } else {
                assert(given[j].1 as int == v);
                if recent(st, since).contains(v) {
                    assert(recent(mid, since).contains(v));
                }
            }
        }
        assert forall|s: int| #[trigger] recent(st, since).contains(s) implies after.slots[s]
            == st.slots[s] && after.last_used[s] == st.last_used[s] && recent(
            after,
            since,
        ).contains(s) by {
            assert(recent(mid, since).contains(s));
        }
    }
}

/// A lookup spares the slots of the lookups shortly before it: as long as the slots
/// touched after some tick and the experts fit into the cache together, none of these
/// slots is given to a miss.
pub proof fn recent_slots_are_spared(
    st: CacheState,
    layer: u32,
    experts: Seq<u32>,
    since: u64,
)
    requires
        st.wf(),
        0 < st.slots.len() <= u32::MAX,
        st.tick < u64::MAX,
        since <= st.tick,
        recent_occupied(st, since),
        recent(st, since).len() + experts.len() <= st.slots.len(),
    ensures
        ({
            let after = st.after_lookup(layer, experts);
            let hits = st.hits(layer, experts);
            let misses = st.misses(layer, experts);
            &&& after.slots.len() == st.slots.len()
            &&& after.tick == st.tick + 1
            &&& recent_occupied(after, since)
            &&& recent(after, since).len() <= recent(st, since).len() + experts.len()
            &&& forall|j: int|
                0 <= j < misses.len() ==> !recent(st, since).contains(
                    (#[trigger] misses[j]).1 as int,
                ) && recent(after, since).contains(misses[j].1 as int)
            &&& forall|j: int|
                0 <= j < hits.len() ==> recent(after, since).contains(
                    (#[trigger] hits[j]).1 as int,
                )
            &&& forall|s: int| #[trigger]
                recent(st, since).contains(s) ==> after.slots[s] == st.slots[s] && recent(
                    after,
                    since,
                ).contains(s)
        }),
{
    let hits = st.hits(layer, experts);
    let missing = st.missing(layer, experts);
    let touched = st.touch(hits);
    lemma_touch(st, layer, experts);
    lemma_hits(st, layer, experts);
    lemma_hit_slots_bound(st, layer, experts);
    recent_is_finite(st, since);
    recent_is_finite(touched, since);
    let slots = hit_slots(st, layer, experts);
    assert forall|s: int| recent(touched, since).contains(s) implies recent(st, since).union(
        slots,
    ).contains(s) by {}
    vstd::set_lib::lemma_len_union(recent(st, since), slots);
    lemma_len_subset(recent(touched, since), recent(st, since).union(slots));
    assert(recent_occupied(touched, since)) by {
        assert forall|s: int| #[trigger] recent(touched, since).contains(s) implies touched.slots[s] is Some by {
            if touched.last_used[s] == touched.tick {
                assert(touched.slots[s] is Some);
            } else {
                assert(recent(st, since).contains(s));
            }
        }
    }
    lemma_place_all_spares_recent(touched, hits, layer, missing, since);
    let after = st.after_lookup(layer, experts);
    assert forall|s: int| #[trigger] recent(st, since).contains(s) implies after.slots[s]
        == st.slots[s] && recent(after, since).contains(s) by {
        assert(recent(touched, since).contains(s));
    }
    let misses = st.misses(layer, experts);
    assert forall|j: int| 0 <= j < misses.len() implies !recent(st, since).contains(
        (#[trigger] misses[j]).1 as int,
    ) && recent(after, since).contains(misses[j].1 as int) by {
        if recent(st, since).contains(misses[j].1 as int) {
            assert(recent(touched, since).contains(misses[j].1 as int));
        }
    }
    assert forall|j: int| 0 <= j < hits.len() implies recent(after, since).contains(
        (#[trigger] hits[j]).1 as int,
    ) by {
        assert(holds_slot(hits, hits[j].1 as int));
        assert(recent(touched, since).contains(hits[j].1 as int));
    }
}

/// Each expert of a step is a hit or missing by itself, and both are listed in the order
/// of the step: a resident expert is a hit in its slot, and any other is missing.
pub proof fn experts_are_looked_up_one_by_one(st: CacheState, layer: u32, experts: Seq<u32>, e: u32)
    ensures
        st.hits(layer, seq![]) == Seq::<(u32, u32)>::empty(),
        st.missing(layer, seq![]) == Seq::<u32>::empty(),
        st.map.contains_key((layer, e)) ==> st.hits(layer, experts.push(e)) == st.hits(
            layer,
            experts,
        ).push((e, st.map[(layer, e)])) && st.missing(layer, experts.push(e)) == st.missing(
            layer,
            experts,
        ),
        !st.map.contains_key((layer, e)) ==> st.hits(layer, experts.push(e)) == st.hits(
            layer,
            experts,
        ) && st.missing(layer, experts.push(e)) == st.missing(layer, experts).push(e),
{
    assert(experts.push(e).drop_last() =~= experts);
}

/// The slot that is recycled next is no slot of a hit while there is another one. While
/// there are free ones it is the first of these, and otherwise the first of those that
/// were touched longest ago.
pub proof fn next_slot_is_free_or_oldest(st: CacheState, hits: Seq<(u32, u32)>, t: int, j: int)
    requires
        st.wf(),
        st.slots.len() > 0,
        0 <= t < st.slots.len(),
        forall|i: int| 0 <= i < hits.len() ==> (#[trigger] hits[i]).1 != t,
    ensures
        ({
            let v = st.victim(hits);
            &&& 0 <= v < st.slots.len()
            &&& 0 <= j < hits.len() ==> hits[j].1 != v
            &&& st.slots[t] is None ==> st.slots[v] is None && v <= t
            &&& st.slots[v] is Some ==> st.last_used[v] < st.last_used[t] || (st.last_used[v]
                == st.last_used[t] && v <= t)
        }),
{
    victim_exists(st, hits);
    let v = st.victim(hits);
    assert(!holds_slot(hits, t));
    assert(st.spare(hits, t));
    assert(st.spare(hits, v));
    assert(st.is_victim(hits, v));
    if 0 <= j < hits.len() && hits[j].1 == v {
        assert(holds_slot(hits, v));
    }
}

/// The missing experts of a step are placed one by one, each in the slot that is recycled
/// next: the slot holds it and is stamped with the step, what held the slot is no longer
/// resident, and nothing else changes.
pub proof fn misses_are_placed_one_by_one(
    st: CacheState,
    hits: Seq<(u32, u32)>,
    layer: u32,
    experts: Seq<u32>,
    e: u32,
    k: ExpertKey,
    t: int,
)
    requires
        st.wf(),
        0 < st.slots.len() <= u32::MAX,
    ensures
        ({
            let before = st.place_all(hits, layer, experts);
            let after = st.place_all(hits, layer, experts.push(e));
            let v = before.victim(hits);
            &&& st.place_all(hits, layer, seq![]) == st
            &&& st.placements(hits, layer, seq![]) == Seq::<(u32, u32)>::empty()
            &&& st.placements(hits, layer, experts.push(e)) == st.placements(
                hits,
                layer,
                experts,
            ).push((e, v as u32))
            &&& 0 <= v < before.slots.len()
            &&& after.slots.len() == before.slots.len()
            &&& after.tick == before.tick
            &&& after.slots[v] == Some((layer, e))
            &&& after.last_used[v] == before.tick
            &&& after.map.contains_key((layer, e)) && after.map[(layer, e)] == v
            &&& 0 <= t < before.slots.len() && t != v ==> after.slots[t] == before.slots[t]
                && after.last_used[t] == before.last_used[t]
            &&& k != (layer, e) && before.slots[v] == Some(k) ==> !after.map.contains_key(k)
            &&& k != (layer, e) && before.slots[v] != Some(k) ==> (after.map.contains_key(k)
                <==> before.map.contains_key(k)) && (before.map.contains_key(k) ==> after.map[k]
                == before.map[k])
        }),
{
    assert(experts.push(e).drop_last() =~= experts);
    lemma_place_all_is_well_formed(st, hits, layer, experts);
    victim_exists(st.place_all(hits, layer, experts), hits);
    let before = st.place_all(hits, layer, experts);
    assert(before.spare(hits, before.victim(hits)));
}

proof fn lemma_place_all_is_well_formed(
    st: CacheState,
    hits: Seq<(u32, u32)>,
    layer: u32,
    experts: Seq<u32>,
)
    requires
        st.wf(),
        0 < st.slots.len() <= u32::MAX,
    ensures
        st.place_all(hits, layer, experts).wf(),
        st.place_all(hits, layer, experts).slots.len() == st.slots.len(),
    decreases experts.len(),
{
    if experts.len() > 0 {
        let front = experts.drop_last();
        lemma_place_all_is_well_formed(st, hits, layer, front);
        let mid = st.place_all(hits, layer, front);
        let key = (layer, experts.last());
        victim_exists(mid, hits);
        assert(mid.spare(hits, mid.victim(hits)));
        let after = mid.place(hits, key);
        assert forall|x: ExpertKey| #[trigger] after.map.contains_key(x) implies after.map[x]
            < after.slots.len() && after.slots[after.map[x] as int] == Some(x) by {
            if x != key {
                assert(mid.map.contains_key(x));
            }
        }
    }
}

} // verus!
