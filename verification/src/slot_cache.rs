//! Global cache of device slots for routed experts.
//!
//! Experts of all layers share one pool of slots. A lookup touches the
//! resident experts of a step first and only then hands slots to the missing
//! ones, always recycling the least recently used slot. The slots of a step's
//! hits are spared as long as there is another slot.

use std::collections::HashMap;
use vstd::prelude::*;

verus! {

broadcast use vstd::std_specs::hash::group_hash_axioms;

/// Key of a cached expert: layer, then expert within the layer.
pub type ExpertKey = (u32, u32);

/// Result of looking up one layer's routed experts.
#[derive(Debug, PartialEq, Eq)]
pub struct Lookup {
    /// (expert, slot) pairs that were already resident.
    pub hits: Vec<(u32, u32)>,
    /// (expert, slot) pairs that must be filled; the slot is already assigned.
    pub misses: Vec<(u32, u32)>,
}

/// What a cache holds: which slot a key is mapped to, what occupies each slot,
/// when each slot was last touched, and the clock.
#[verifier::ext_equal]
pub ghost struct CacheState {
    pub map: Map<ExpertKey, u32>,
    pub slots: Seq<Option<ExpertKey>>,
    pub last_used: Seq<u64>,
    pub tick: u64,
}

impl CacheState {
    /// Every mapped key occupies the slot it is mapped to, and no slot was
    /// touched in the future.
    pub open spec fn wf(self) -> bool {
        &&& self.slots.len() == self.last_used.len()
        &&& forall|k: ExpertKey| #[trigger]
            self.map.contains_key(k) ==> self.map[k] < self.slots.len()
                && self.slots[self.map[k] as int] == Some(k)
        &&& forall|s: int| 0 <= s < self.last_used.len() ==> #[trigger] self.last_used[s] <= self.tick
    }

    /// The slots and the map agree in both directions.
    pub open spec fn exact(self) -> bool {
        forall|s: int|
            0 <= s < self.slots.len() && (#[trigger] self.slots[s]) is Some ==> self.map.contains_key(
                self.slots[s]->0,
            ) && self.map[self.slots[s]->0] == s
    }

    /// Slot `s` may be recycled: it is not the slot of a hit, or every slot is.
    pub open spec fn spare(self, hits: Seq<(u32, u32)>, s: int) -> bool {
        &&& 0 <= s < self.slots.len()
        &&& !holds_slot(hits, s) || self.all_hit(hits)
    }

    /// Every slot is the slot of a hit.
    pub open spec fn all_hit(self, hits: Seq<(u32, u32)>) -> bool {
        forall|t: int| 0 <= t < self.slots.len() ==> #[trigger] holds_slot(hits, t)
    }

    /// Slot `s` is the next one to recycle: among the slots that may be, the first
    /// free one if there is one, else the first of those with the oldest touch.
    pub open spec fn is_victim(self, hits: Seq<(u32, u32)>, s: int) -> bool {
        &&& self.spare(hits, s)
        &&& if self.slots[s] is None {
            forall|t: int| 0 <= t < s && #[trigger] self.spare(hits, t) ==> self.slots[t] is Some
        } else {
            &&& forall|t: int| #[trigger]
                self.spare(hits, t) ==> self.slots[t] is Some && self.last_used[s]
                    <= self.last_used[t]
            &&& forall|t: int|
                0 <= t < s && #[trigger] self.spare(hits, t) ==> self.last_used[s]
                    < self.last_used[t]
        }
    }

    /// The next slot to recycle, given the hits of the step.
    pub open spec fn victim(self, hits: Seq<(u32, u32)>) -> int {
        choose|s: int| self.is_victim(hits, s)
    }

    /// Gives the next slot to recycle to `key`, unmapping what held it.
    pub open spec fn place(self, hits: Seq<(u32, u32)>, key: ExpertKey) -> CacheState {
        let s = self.victim(hits);
        let kept = match self.slots[s] {
            Some(evicted) => self.map.remove(evicted),
            None => self.map,
        };
        CacheState {
            map: kept.insert(key, s as u32),
            slots: self.slots.update(s, Some(key)),
            last_used: self.last_used.update(s, self.tick),
            tick: self.tick,
        }
    }

    /// Places the experts of a layer one after the other.
    pub open spec fn place_all(
        self,
        hits: Seq<(u32, u32)>,
        layer: u32,
        experts: Seq<u32>,
    ) -> CacheState
        decreases experts.len(),
    {
        if experts.len() == 0 {
            self
        } else {
            self.place_all(hits, layer, experts.drop_last()).place(hits, (layer, experts.last()))
        }
    }

    /// The (expert, slot) pairs handed out by `place_all`.
    pub open spec fn placements(
        self,
        hits: Seq<(u32, u32)>,
        layer: u32,
        experts: Seq<u32>,
    ) -> Seq<(u32, u32)>
        decreases experts.len(),
    {
        if experts.len() == 0 {
            seq![]
        } else {
            self.placements(hits, layer, experts.drop_last()).push(
                (
                    experts.last(),
                    self.place_all(hits, layer, experts.drop_last()).victim(hits) as u32,
                ),
            )
        }
    }

    /// The resident ones among `experts`, each with its slot, in order.
    pub open spec fn hits(self, layer: u32, experts: Seq<u32>) -> Seq<(u32, u32)>
        decreases experts.len(),
    {
        if experts.len() == 0 {
            seq![]
        } else {
            let e = experts.last();
            let rest = self.hits(layer, experts.drop_last());
            if self.map.contains_key((layer, e)) {
                rest.push((e, self.map[(layer, e)]))
            } else {
                rest
            }
        }
    }

    /// The ones among `experts` that are not resident, in order.
    pub open spec fn missing(self, layer: u32, experts: Seq<u32>) -> Seq<u32>
        decreases experts.len(),
    {
        if experts.len() == 0 {
            seq![]
        } else {
            let e = experts.last();
            let rest = self.missing(layer, experts.drop_last());
            if self.map.contains_key((layer, e)) {
                rest
            } else {
                rest.push(e)
            }
        }
    }

    /// Advances the clock and stamps the slots of `hits` with the new time.
    pub open spec fn touch(self, hits: Seq<(u32, u32)>) -> CacheState {
        let tick = (self.tick + 1) as u64;
        CacheState {
            last_used: Seq::new(
                self.last_used.len(),
                |s: int|
                    if holds_slot(hits, s) {
                        tick
                    } else {
                        self.last_used[s]
                    },
            ),
            tick,
            ..self
        }
    }

    /// The state after a lookup.
    pub open spec fn after_lookup(self, layer: u32, experts: Seq<u32>) -> CacheState {
        let hits = self.hits(layer, experts);
        self.touch(hits).place_all(hits, layer, self.missing(layer, experts))
    }

    /// The pairs that a lookup reports as misses.
    pub open spec fn misses(self, layer: u32, experts: Seq<u32>) -> Seq<(u32, u32)> {
        let hits = self.hits(layer, experts);
        self.touch(hits).placements(hits, layer, self.missing(layer, experts))
    }

    /// The state after `key` was forgotten.
    pub open spec fn after_forget(self, key: ExpertKey) -> CacheState {
        if self.map.contains_key(key) {
            let s = self.map[key] as int;
            CacheState {
                map: self.map.remove(key),
                slots: self.slots.update(s, None),
                last_used: self.last_used.update(s, 0),
                tick: self.tick,
            }
        } else {
            self
        }
    }
}

/// Some pair of `pairs` names slot `s`.
pub open spec fn holds_slot(pairs: Seq<(u32, u32)>, s: int) -> bool {
    exists|j: int| 0 <= j < pairs.len() && (#[trigger] pairs[j]).1 == s
}

/// The number under which a key is filed.
spec fn code(k: ExpertKey) -> u64 {
    (k.0 * 0x1_0000_0000 + k.1) as u64
}

spec fn decoded(m: Map<u64, u32>) -> Map<ExpertKey, u32> {
    Map::new(|k: ExpertKey| m.contains_key(code(k)), |k: ExpertKey| m[code(k)])
}

fn key_code(layer: u32, expert: u32) -> (c: u64)
    ensures
        c == code((layer, expert)),
{
    layer as u64 * 0x1_0000_0000 + expert as u64
}

proof fn lemma_decoded_insert(m: Map<u64, u32>, k: ExpertKey, v: u32)
    ensures
        decoded(m.insert(code(k), v)) == decoded(m).insert(k, v),
        decoded(m.remove(code(k))) == decoded(m).remove(k),
{
    assert(decoded(m.insert(code(k), v)) =~= decoded(m).insert(k, v));
    assert(decoded(m.remove(code(k))) =~= decoded(m).remove(k));
}

/// Least recently used cache: a fixed number of expert slots shared by all
/// layers.
pub struct SlotCache {
    capacity: u32,
    map: HashMap<u64, u32>,
    /// What occupies each slot.
    slots: Vec<Option<ExpertKey>>,
    /// The tick at which each slot was last touched.
    last_used: Vec<u64>,
    tick: u64,
    pub hits_total: u64,
    pub misses_total: u64,
}

impl View for SlotCache {
    type V = CacheState;

    closed spec fn view(&self) -> CacheState {
        CacheState {
            map: decoded(self.map@),
            slots: self.slots@,
            last_used: self.last_used@,
            tick: self.tick,
        }
    }
}

impl SlotCache {
    /// The state is well formed, and the number of slots is the capacity.
    pub closed spec fn wf(&self) -> bool {
        &&& self@.wf()
        &&& self.slots@.len() == self.capacity
    }

    /// A well-formed cache is in a well-formed state, with no more slots than there
    /// are numbers for them.
    pub proof fn state_is_well_formed(&self)
        requires
            self.wf(),
        ensures
            self@.wf(),
            self@.slots.len() <= u32::MAX,
    {
    }

    /// The number of hits counted so far.
    pub closed spec fn hits_seen(&self) -> u64 {
        self.hits_total
    }

    /// The number of misses counted so far.
    pub closed spec fn misses_seen(&self) -> u64 {
        self.misses_total
    }

    /// A cache of `capacity` free slots.
    pub fn new(capacity: u32) -> (cache: Self)
        ensures
            cache.wf(),
            cache@.wf(),
            cache@.map == Map::<ExpertKey, u32>::empty(),
            cache@.slots == Seq::new(capacity as nat, |s: int| None::<ExpertKey>),
            cache@.last_used == Seq::new(capacity as nat, |s: int| 0u64),
            cache@.tick == 0,
            cache.hits_seen() == 0,
            cache.misses_seen() == 0,
    {
        let mut slots: Vec<Option<ExpertKey>> = Vec::new();
        let mut last_used: Vec<u64> = Vec::new();
        let mut s: u32 = 0;
        while s < capacity
            invariant
                s <= capacity,
                slots@ == Seq::new(s as nat, |t: int| None::<ExpertKey>),
                last_used@ == Seq::new(s as nat, |t: int| 0u64),
            decreases capacity - s,
        {
            slots.push(None);
            last_used.push(0);
            s = s + 1;
        }
        let cache = SlotCache {
            capacity,
            map: HashMap::new(),
            slots,
            last_used,
            tick: 0,
            hits_total: 0,
            misses_total: 0,
        };
        assert(cache@.map =~= Map::<ExpertKey, u32>::empty());
        cache
    }

    /// The number of slots.
    pub fn capacity(&self) -> (n: u32)
        requires
            self.wf(),
        ensures
            n == self@.slots.len(),
    {
        self.capacity
    }

    /// The slot to recycle next. `held` marks the slots of the step's hits, and
    /// `any_spare` says whether there is a slot that is not marked.
    fn take_lru_slot(&self, Ghost(hits): Ghost<Seq<(u32, u32)>>, held: &Vec<bool>, any_spare: bool) -> (slot:
        u32)
        requires
            self.wf(),
            self.capacity > 0,
            held@.len() == self.capacity,
            forall|s: int| 0 <= s < held@.len() ==> (#[trigger] held@[s] <==> holds_slot(hits, s)),
            any_spare <==> !self@.all_hit(hits),
        ensures
            self@.is_victim(hits, slot as int),
            slot == self@.victim(hits),
    {
        let mut best: Option<u32> = None;
        let mut i: u32 = 0;
        while i < self.capacity
            invariant
                self.wf(),
                i <= self.capacity,
                held@.len() == self.capacity,
                forall|s: int|
                    0 <= s < held@.len() ==> (#[trigger] held@[s] <==> holds_slot(hits, s)),
                any_spare <==> !self@.all_hit(hits),
                forall|t: int| 0 <= t < i && #[trigger] self@.spare(hits, t) ==> self@.slots[t] is Some,
                match best {
                    Some(b) => {
                        &&& b < i
                        &&& self@.spare(hits, b as int)
                        &&& forall|t: int|
                            0 <= t < i && #[trigger] self@.spare(hits, t) ==> self@.last_used[b as int]
                                <= self@.last_used[t]
                        &&& forall|t: int|
                            0 <= t < b && #[trigger] self@.spare(hits, t) ==> self@.last_used[b as int]
                                < self@.last_used[t]
                    },
                    None => forall|t: int| 0 <= t < i ==> !#[trigger] self@.spare(hits, t),
                },
            decreases self.capacity - i,
        {
            assert(held@[i as int] <==> holds_slot(hits, i as int));
            assert(self@.spare(hits, i as int) <==> !(any_spare && held@[i as int]));
            if !(any_spare && held[i as usize]) {
                if self.slots[i as usize].is_none() {
                    assert(self@.is_victim(hits, i as int));
                    proof {
                        crate::slot_cache_laws::victim_is_unique(self@, hits, i as int);
                    }
                    return i;
                }
                let older = match best {
                    Some(b) => self.last_used[i as usize] < self.last_used[b as usize],
                    None => true,
                };
                if older {
                    best = Some(i);
                }
            }
            i = i + 1;
        }
        proof {
            if best is None {
                if any_spare {
                    let t = choose|t: int| 0 <= t < self@.slots.len() && !#[trigger] holds_slot(hits, t);
                    assert(self@.spare(hits, t));
                } else {
                    assert(self@.spare(hits, 0));
                }
            }
        }
        let slot: u32 = match best {
            Some(b) => b,
            None => 0,
        };
        assert(self@.is_victim(hits, slot as int));
        proof {
            crate::slot_cache_laws::victim_is_unique(self@, hits, slot as int);
        }
        slot
    }

    /// Marks the slots of hits, and says whether a slot is not marked.
    fn mark_slots(&self, hits: &Vec<(u32, u32)>) -> (r: (Vec<bool>, bool))
        requires
            self.slots@.len() == self.capacity,
            forall|j: int| 0 <= j < hits@.len() ==> (#[trigger] hits@[j]).1 < self.capacity,
        ensures
            r.0@.len() == self.capacity,
            forall|s: int| 0 <= s < r.0@.len() ==> (#[trigger] r.0@[s] <==> holds_slot(hits@, s)),
            r.1 <==> !self@.all_hit(hits@),
    {
        let n: usize = self.capacity as usize;
        let mut held: Vec<bool> = vec![false; n];
        let mut j: usize = 0;
        assert forall|s: int| 0 <= s < n implies !holds_slot(hits@.take(0), s) by {}
        while j < hits.len()
            invariant
                j <= hits@.len(),
                held@.len() == n == self.capacity,
                forall|j: int| 0 <= j < hits@.len() ==> (#[trigger] hits@[j]).1 < self.capacity,
                forall|s: int|
                    0 <= s < n ==> (#[trigger] held@[s] <==> holds_slot(hits@.take(j as int), s)),
            decreases hits@.len() - j,
        {
            let ghost before = held@;
            let slot: u32 = hits[j].1;
            held.set(slot as usize, true);
            proof {
                let done = hits@.take(j as int);
                assert(hits@.take(j + 1) =~= done.push(hits@[j as int]));
                assert forall|s: int| 0 <= s < n implies (#[trigger] held@[s] <==> holds_slot(
                    hits@.take(j + 1),
                    s,
                )) by {
                    assert(before[s] <==> holds_slot(done, s));
                    lemma_holds_slot_push(done, hits@[j as int], s);
                }
            }
            j = j + 1;
        }
        assert(hits@.take(j as int) =~= hits@);
        let mut s: usize = 0;
        while s < n
            invariant
                s <= n,
                held@.len() == n == self.capacity,
                self.slots@.len() == self.capacity,
                forall|t: int| 0 <= t < n ==> (#[trigger] held@[t] <==> holds_slot(hits@, t)),
                forall|t: int| 0 <= t < s ==> #[trigger] held@[t],
            decreases n - s,
        {
            if !held[s] {
                assert(!holds_slot(hits@, s as int));
                return (held, true);
            }
            s = s + 1;
        }
        assert forall|t: int| 0 <= t < self@.slots.len() implies #[trigger] holds_slot(hits@, t) by {
            assert(held@[t]);
        }
        (held, false)
    }

    /// Looks up one layer's routed experts and assigns slots to the missing
    /// ones by evicting the least recently used residents. The resident ones
    /// are touched before any eviction, and their slots are not recycled while
    /// there is another: a step's own hits are not evicted by its own misses.
    pub fn lookup(&mut self, layer: u32, experts: &[u32]) -> (found: Lookup)
        requires
            old(self).wf(),
            old(self)@.slots.len() > 0 || experts@.len() == 0,
            old(self)@.tick < u64::MAX,
            old(self).hits_seen() + experts@.len() <= u64::MAX,
            old(self).misses_seen() + experts@.len() <= u64::MAX,
        ensures
            final(self).wf(),
            final(self)@.wf(),
            final(self)@ == old(self)@.after_lookup(layer, experts@),
            final(self)@.slots.len() == old(self)@.slots.len(),
            found.hits@ == old(self)@.hits(layer, experts@),
            found.misses@ == old(self)@.misses(layer, experts@),
            found.hits@.len() + found.misses@.len() == experts@.len(),
            final(self).hits_seen() == old(self).hits_seen() + found.hits@.len(),
            final(self).misses_seen() == old(self).misses_seen() + found.misses@.len(),
    {
        let ghost start = self@;
        self.tick = self.tick + 1;
        let mut hits: Vec<(u32, u32)> = Vec::new();
        let mut missing: Vec<u32> = Vec::new();
        let mut i: usize = 0;
        assert(self@ =~= start.touch(seq![]));
        while i < experts.len()
            invariant
                i <= experts@.len(),
                start.wf(),
                start.tick < u64::MAX,
                self.tick == start.tick + 1,
                self.slots@.len() == self.capacity,
                self@ == start.touch(hits@),
                hits@ == start.hits(layer, experts@.take(i as int)),
                missing@ == start.missing(layer, experts@.take(i as int)),
                hits@.len() + missing@.len() == i,
                self.hits_total == old(self).hits_total,
                self.misses_total == old(self).misses_total,
            decreases experts@.len() - i,
        {
            let e = experts[i];
            assert(experts@.take(i + 1).drop_last() =~= experts@.take(i as int));
            let ghost before = hits@;
            let ghost stamps = self@.last_used;
            match self.map.get(&key_code(layer, e)) {
                Some(slot) => {
                    let slot: u32 = *slot;
                    assert(start.map.contains_key((layer, e)));
                    self.last_used.set(slot as usize, self.tick);
                    hits.push((e, slot));
                    proof {
                        assert(hits@ == before.push((e, slot)));
                        assert(stamps == start.touch(before).last_used);
                        assert(self@.last_used == stamps.update(slot as int, self.tick));
                        let want = start.touch(hits@).last_used;
                        assert(self@.last_used.len() == want.len());
                        assert forall|s: int| 0 <= s < want.len() implies self@.last_used[s] == want[s] by {
                            lemma_holds_slot_push(before, (e, slot), s);
                        }
                        assert(self@.last_used =~= start.touch(hits@).last_used);
                    }
                },
                None => {
                    assert(!start.map.contains_key((layer, e)));
                    missing.push(e);
                },
            }
            i = i + 1;
        }
        assert(experts@.take(i as int) =~= experts@);
        let ghost touched = self@;
        proof {
            lemma_hits_in_range(start, layer, experts@);
        }
        assert(touched.wf());
        let (held, any_spare) = self.mark_slots(&hits);
        let mut misses: Vec<(u32, u32)> = Vec::new();
        let mut j: usize = 0;
        while j < missing.len()
            invariant
                j <= missing@.len(),
                missing@.len() <= experts@.len(),
                self.wf(),
                self.capacity > 0 || missing@.len() == 0,
                self.slots@.len() == start.slots.len(),
                touched.wf(),
                held@.len() == self.capacity,
                forall|s: int|
                    0 <= s < held@.len() ==> (#[trigger] held@[s] <==> holds_slot(hits@, s)),
                any_spare <==> !self@.all_hit(hits@),
                self@ == touched.place_all(hits@, layer, missing@.take(j as int)),
                misses@ == touched.placements(hits@, layer, missing@.take(j as int)),
                misses@.len() == j,
                self.hits_total == old(self).hits_total,
                self.misses_total == old(self).misses_total,
            decreases missing@.len() - j,
        {
            let e: u32 = missing[j];
            assert(missing@.take(j + 1).drop_last() =~= missing@.take(j as int));
            let ghost before = self@;
            let slot = self.take_lru_slot(Ghost(hits@), &held, any_spare);
            let evicted: Option<ExpertKey> = self.slots[slot as usize];
            let ghost filed = self.map@;
            if let Some(old_key) = evicted {
                let c = key_code(old_key.0, old_key.1);
                self.map.remove(&c);
            }
            let ghost kept = self.map@;
            let c = key_code(layer, e);
            self.slots.set(slot as usize, Some((layer, e)));
            self.last_used.set(slot as usize, self.tick);
            self.map.insert(c, slot);
            misses.push((e, slot));
            proof {
                if let Some(old_key) = evicted {
                    lemma_decoded_insert(filed, old_key, 0);
                }
                lemma_decoded_insert(kept, (layer, e), slot);
                assert(self@ =~= before.place(hits@, (layer, e)));
                lemma_place_wf(before, hits@, (layer, e));
            }
            j = j + 1;
        }
        assert(missing@.take(j as int) =~= missing@);
        self.hits_total = self.hits_total + hits.len() as u64;
        self.misses_total = self.misses_total + misses.len() as u64;
        Lookup { hits, misses }
    }

    /// Takes back an entry whose slot was assigned by `lookup` but whose
    /// weights were never copied in. Leaving it mapped would make the next
    /// route a false hit that reads whatever the slot last held.
    pub fn forget(&mut self, layer: u32, expert: u32)
        requires
            old(self).wf(),
        ensures
            final(self).wf(),
            final(self)@.wf(),
            final(self)@ == old(self)@.after_forget((layer, expert)),
            final(self)@.slots.len() == old(self)@.slots.len(),
            final(self).hits_seen() == old(self).hits_seen(),
            final(self).misses_seen() == old(self).misses_seen(),
    {
        let ghost before = self@;
        let c = key_code(layer, expert);
        proof {
            lemma_decoded_insert(self.map@, (layer, expert), 0);
        }
        if let Some(slot) = self.map.remove(&c) {
            assert(before.map.contains_key((layer, expert)));
            self.slots.set(slot as usize, None);
            self.last_used.set(slot as usize, 0);
        }
        assert(self@ =~= before.after_forget((layer, expert)));
    }
}

proof fn lemma_holds_slot_push(pairs: Seq<(u32, u32)>, p: (u32, u32), s: int)
    ensures
        holds_slot(pairs.push(p), s) <==> (holds_slot(pairs, s) || p.1 == s),
{
    let all = pairs.push(p);
    if holds_slot(pairs, s) {
        let j = choose|j: int| 0 <= j < pairs.len() && (#[trigger] pairs[j]).1 == s;
        assert(all[j].1 == s);
    }
    if p.1 == s {
        assert(all[pairs.len() as int].1 == s);
    }
    if holds_slot(all, s) {
        let j = choose|j: int| 0 <= j < all.len() && (#[trigger] all[j]).1 == s;
        if j < pairs.len() {
            assert(pairs[j].1 == s);
        }
    }
}

proof fn lemma_hits_in_range(st: CacheState, layer: u32, experts: Seq<u32>)
    requires
        st.wf(),
    ensures
        forall|j: int|
            0 <= j < st.hits(layer, experts).len() ==> {
                let p = #[trigger] st.hits(layer, experts)[j];
                p.1 < st.slots.len() && st.map.contains_key((layer, p.0)) && st.map[(layer, p.0)] == p.1
            },
    decreases experts.len(),
{
    if experts.len() > 0 {
        lemma_hits_in_range(st, layer, experts.drop_last());
    }
}

proof fn lemma_place_wf(st: CacheState, hits: Seq<(u32, u32)>, key: ExpertKey)
    requires
        st.wf(),
        st.slots.len() > 0,
        st.slots.len() <= u32::MAX,
        exists|s: int| st.is_victim(hits, s),
    ensures
        st.place(hits, key).wf(),
        st.place(hits, key).slots.len() == st.slots.len(),
{
    let s = st.victim(hits);
    assert(st.is_victim(hits, s));
}

} // verus!
