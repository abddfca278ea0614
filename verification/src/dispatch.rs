//! Where the routed experts of a layer are computed. Resident experts are read
//! from their slots. Of the missing ones a share is fetched into slots for later
//! steps, and read from the host bank in this one, by every sequence that is routed
//! to them; the others are computed on the host and given their slots back.

use crate::copy_plan::split_misses;
use crate::slot_cache::{CacheState, SlotCache};
use vstd::prelude::*;

verus! {

/// Where the weights of an expert are read.
#[derive(Clone, Copy, Debug, PartialEq, Eq)]
pub enum Source {
    /// The host bank, at this expert.
    Bank(u32),
    /// The slot cache, at this slot.
    Slot(u32),
}

/// An expert that the device computes for a sequence. `choice` is its place among
/// the experts that the sequence was routed to.
#[derive(Clone, Copy, Debug, PartialEq, Eq)]
pub struct Pair {
    pub seq: u32,
    pub choice: u32,
    pub source: Source,
}

/// An expert that the host computes for a sequence.
#[derive(Clone, Copy, Debug, PartialEq, Eq)]
pub struct HostPair {
    pub seq: u32,
    pub choice: u32,
    pub expert: u32,
}

/// An expert that is copied into a slot.
#[derive(Clone, Copy, Debug, PartialEq, Eq)]
pub struct Fetch {
    pub expert: u32,
    pub slot: u32,
}

/// The work of one layer.
pub struct Dispatch {
    pub fetches: Vec<Fetch>,
    pub pairs: Vec<Pair>,
    pub host: Vec<HostPair>,
}

/// The work of one layer, and the cache it leaves behind.
#[verifier::ext_equal]
pub ghost struct Work {
    pub cache: CacheState,
    pub fetches: Seq<Fetch>,
    pub pairs: Seq<Pair>,
    pub host: Seq<HostPair>,
}

/// The first place of an expert in a list.
pub open spec fn place_of(ids: Seq<u32>, e: u32) -> nat
    decreases ids.len(),
{
    if ids.len() == 0 {
        0
    } else if ids[0] == e {
        0
    } else {
        1 + place_of(ids.drop_first(), e)
    }
}

/// The experts of a list of experts and slots.
pub open spec fn experts_of(list: Seq<(u32, u32)>) -> Seq<u32> {
    Seq::new(list.len(), |i: int| list[i].0)
}

/// The slot of the first entry of an expert.
pub open spec fn slot_of(list: Seq<(u32, u32)>, e: u32) -> u32 {
    list[place_of(experts_of(list), e) as int].1
}

/// The cache without these experts of a layer.
pub open spec fn forget_all(cache: CacheState, layer: u32, ids: Seq<u32>) -> CacheState
    decreases ids.len(),
{
    if ids.len() == 0 {
        cache
    } else {
        forget_all(cache, layer, ids.drop_last()).after_forget((layer, ids.last()))
    }
}

/// The missing experts of a sequence that are fetched, and those that are not.
pub open spec fn shares(
    cache: CacheState,
    layer: u32,
    ids: Seq<u32>,
    quota: Seq<usize>,
) -> (Seq<u32>, Seq<u32>) {
    let missing = experts_of(cache.misses(layer, ids));
    let n = crate::copy_plan::fetched(missing.len(), quota[missing.len() as int] as nat) as int;
    (missing.take(n), missing.skip(n))
}

/// The fetches of missing experts into the slots that they were given.
pub open spec fn fetch_list(fetch: Seq<u32>, misses: Seq<(u32, u32)>) -> Seq<Fetch> {
    Seq::new(
        fetch.len(),
        |i: int| Fetch { expert: fetch[i], slot: slot_of(misses, fetch[i]) },
    )
}

/// The experts that the host computes for a sequence.
pub open spec fn host_list(host: Seq<u32>, ids: Seq<u32>, seq: u32) -> Seq<HostPair> {
    Seq::new(
        host.len(),
        |i: int| HostPair { seq, choice: place_of(ids, host[i]) as u32, expert: host[i] },
    )
}

/// The expert is fetched into a slot in this step.
pub open spec fn is_fetched(fetches: Seq<Fetch>, e: u32) -> bool {
    exists|i: int| 0 <= i < fetches.len() && (#[trigger] fetches[i]).expert == e
}

/// Where a resident expert is read: from its slot, unless it is only being fetched in
/// this step.
pub open spec fn hit_source(fetches: Seq<Fetch>, hit: (u32, u32)) -> Source {
    if is_fetched(fetches, hit.0) {
        Source::Bank(hit.0)
    } else {
        Source::Slot(hit.1)
    }
}

/// The resident experts of a sequence, given the fetches for those before it.
pub open spec fn slot_list(
    hits: Seq<(u32, u32)>,
    ids: Seq<u32>,
    seq: u32,
    fetches: Seq<Fetch>,
) -> Seq<Pair> {
    Seq::new(
        hits.len(),
        |i: int|
            Pair {
                seq,
                choice: place_of(ids, hits[i].0) as u32,
                source: hit_source(fetches, hits[i]),
            },
    )
}

/// The fetched experts of a sequence, read from the host bank.
pub open spec fn bank_list(fetch: Seq<u32>, ids: Seq<u32>, seq: u32) -> Seq<Pair> {
    Seq::new(
        fetch.len(),
        |i: int|
            Pair { seq, choice: place_of(ids, fetch[i]) as u32, source: Source::Bank(fetch[i]) },
    )
}

/// The work for one more sequence.
pub open spec fn with_sequence(
    work: Work,
    layer: u32,
    ids: Seq<u32>,
    seq: u32,
    quota: Seq<usize>,
) -> Work {
    let hits = work.cache.hits(layer, ids);
    let misses = work.cache.misses(layer, ids);
    let (fetch, host) = shares(work.cache, layer, ids, quota);
    Work {
        cache: forget_all(work.cache.after_lookup(layer, ids), layer, host),
        fetches: work.fetches + fetch_list(fetch, misses),
        pairs: work.pairs + slot_list(hits, ids, seq, work.fetches) + bank_list(fetch, ids, seq),
        host: work.host + host_list(host, ids, seq),
    }
}

/// The work for the first `n` sequences.
pub open spec fn work_for(
    cache: CacheState,
    layer: u32,
    routed: Seq<Seq<u32>>,
    quota: Seq<usize>,
    n: int,
) -> Work
    decreases n,
{
    if n <= 0 {
        Work { cache, fetches: seq![], pairs: seq![], host: seq![] }
    } else {
        with_sequence(
            work_for(cache, layer, routed, quota, n - 1),
            layer,
            routed[n - 1],
            (n - 1) as u32,
            quota,
        )
    }
}

/// How many of the experts that the first `n` sequences were routed to were resident
/// when they were looked up.
pub open spec fn hits_for(
    cache: CacheState,
    layer: u32,
    routed: Seq<Seq<u32>>,
    quota: Seq<usize>,
    n: int,
) -> nat
    decreases n,
{
    if n <= 0 {
        0
    } else {
        hits_for(cache, layer, routed, quota, n - 1) + work_for(
            cache,
            layer,
            routed,
            quota,
            n - 1,
        ).cache.hits(layer, routed[n - 1]).len()
    }
}

/// How many of them were not.
pub open spec fn misses_for(
    cache: CacheState,
    layer: u32,
    routed: Seq<Seq<u32>>,
    quota: Seq<usize>,
    n: int,
) -> nat
    decreases n,
{
    if n <= 0 {
        0
    } else {
        misses_for(cache, layer, routed, quota, n - 1) + work_for(
            cache,
            layer,
            routed,
            quota,
            n - 1,
        ).cache.misses(layer, routed[n - 1]).len()
    }
}

/// The lists behind each other, each as a sequence.
pub open spec fn lists(v: Seq<Vec<u32>>) -> Seq<Seq<u32>> {
    Seq::new(v.len(), |i: int| v[i]@)
}

/// How many experts the first `n` sequences were routed to.
pub open spec fn routed_total(routed: Seq<Seq<u32>>, n: int) -> nat
    decreases n,
{
    if n <= 0 {
        0
    } else {
        routed_total(routed, n - 1) + routed[n - 1].len()
    }
}

proof fn lemma_place_all_keeps(
    cache: CacheState,
    hits: Seq<(u32, u32)>,
    layer: u32,
    ids: Seq<u32>,
)
    ensures
        cache.place_all(hits, layer, ids).tick == cache.tick,
    decreases ids.len(),
{
    if ids.len() > 0 {
        lemma_place_all_keeps(cache, hits, layer, ids.drop_last());
    }
}

proof fn lemma_forget_all_keeps(cache: CacheState, layer: u32, ids: Seq<u32>)
    ensures
        forget_all(cache, layer, ids).tick == cache.tick,
    decreases ids.len(),
{
    if ids.len() > 0 {
        lemma_forget_all_keeps(cache, layer, ids.drop_last());
    }
}

proof fn lemma_place_of(ids: Seq<u32>, e: u32, i: int)
    requires
        0 <= i < ids.len(),
        ids[i] == e,
        forall|j: int| 0 <= j < i ==> ids[j] != e,
    ensures
        place_of(ids, e) == i,
    decreases ids.len(),
{
    if i > 0 {
        assert(ids[0] != e);
        lemma_place_of(ids.drop_first(), e, i - 1);
    }
}

proof fn lemma_hits_are_routed(cache: CacheState, layer: u32, ids: Seq<u32>, i: int)
    requires
        0 <= i < cache.hits(layer, ids).len(),
    ensures
        ids.contains(cache.hits(layer, ids)[i].0),
    decreases ids.len(),
{
    let rest = ids.drop_last();
    if cache.map.contains_key((layer, ids.last())) && i == cache.hits(layer, rest).len() {
        assert(ids[ids.len() - 1] == cache.hits(layer, ids)[i].0);
    } else {
        lemma_hits_are_routed(cache, layer, rest, i);
        let j = choose|j: int| 0 <= j < rest.len() && rest[j] == cache.hits(layer, rest)[i].0;
        assert(ids[j] == rest[j]);
    }
}

proof fn lemma_missing_are_routed(cache: CacheState, layer: u32, ids: Seq<u32>, i: int)
    requires
        0 <= i < cache.missing(layer, ids).len(),
    ensures
        ids.contains(cache.missing(layer, ids)[i]),
    decreases ids.len(),
{
    let rest = ids.drop_last();
    if !cache.map.contains_key((layer, ids.last())) && i == cache.missing(layer, rest).len() {
        assert(ids[ids.len() - 1] == cache.missing(layer, ids)[i]);
    } else {
        lemma_missing_are_routed(cache, layer, rest, i);
        let j = choose|j: int| 0 <= j < rest.len() && rest[j] == cache.missing(layer, rest)[i];
        assert(ids[j] == rest[j]);
    }
}

proof fn lemma_placements_name_experts(
    cache: CacheState,
    hits: Seq<(u32, u32)>,
    layer: u32,
    ids: Seq<u32>,
)
    ensures
        experts_of(cache.placements(hits, layer, ids)) == ids,
    decreases ids.len(),
{
    if ids.len() > 0 {
        lemma_placements_name_experts(cache, hits, layer, ids.drop_last());
        let list = cache.placements(hits, layer, ids);
        assert(experts_of(list) =~= experts_of(
            cache.placements(hits, layer, ids.drop_last()),
        ).push(ids.last()));
        assert(ids =~= ids.drop_last().push(ids.last()));
    } else {
        assert(experts_of(cache.placements(hits, layer, ids)) =~= ids);
    }
}

/// The misses of a lookup are the missing experts, in order.
pub proof fn misses_name_missing_experts(cache: CacheState, layer: u32, ids: Seq<u32>)
    ensures
        experts_of(cache.misses(layer, ids)) == cache.missing(layer, ids),
{
    lemma_placements_name_experts(
        cache.touch(cache.hits(layer, ids)),
        cache.hits(layer, ids),
        layer,
        cache.missing(layer, ids),
    );
}

/// The first place of an expert that is in the list.
fn find_place(ids: &[u32], e: u32) -> (i: usize)
    requires
        ids@.contains(e),
    ensures
        i < ids@.len(),
        i == place_of(ids@, e),
{
    let mut i: usize = 0;
    let ghost w = choose|w: int| 0 <= w < ids@.len() && ids@[w] == e;
    while ids[i] != e
        invariant
            0 <= w < ids@.len(),
            ids@[w] == e,
            i <= w,
            forall|j: int| 0 <= j < i ==> ids@[j] != e,
        decreases w - i,
    {
        i = i + 1;
    }
    proof {
        lemma_place_of(ids@, e, i as int);
    }
    i
}

/// The experts of a list of experts and slots.
fn experts(list: &Vec<(u32, u32)>) -> (r: Vec<u32>)
    ensures
        r@ == experts_of(list@),
{
    let mut r: Vec<u32> = Vec::new();
    let mut i: usize = 0;
    while i < list.len()
        invariant
            i <= list@.len(),
            r@ =~= experts_of(list@).take(i as int),
        decreases list@.len() - i,
    {
        r.push(list[i].0);
        i = i + 1;
    }
    r
}

/// The fetches of missing experts into the slots that they were given.
fn fetches_of(fetch: &Vec<u32>, misses: &Vec<(u32, u32)>, missing: &Vec<u32>) -> (r: Vec<Fetch>)
    requires
        missing@ == experts_of(misses@),
        forall|i: int| 0 <= i < fetch@.len() ==> missing@.contains(#[trigger] fetch@[i]),
    ensures
        r@ == fetch_list(fetch@, misses@),
{
    let mut r: Vec<Fetch> = Vec::new();
    let mut i: usize = 0;
    while i < fetch.len()
        invariant
            i <= fetch@.len(),
            missing@ == experts_of(misses@),
            forall|i: int| 0 <= i < fetch@.len() ==> missing@.contains(#[trigger] fetch@[i]),
            r@ =~= fetch_list(fetch@, misses@).take(i as int),
        decreases fetch@.len() - i,
    {
        let at: usize = find_place(missing.as_slice(), fetch[i]);
        r.push(Fetch { expert: fetch[i], slot: misses[at].1 });
        i = i + 1;
    }
    r
}

/// The experts that the host computes for a sequence.
fn host_pairs(host: &Vec<u32>, ids: &Vec<u32>, seq: u32) -> (r: Vec<HostPair>)
    requires
        ids@.len() <= u32::MAX,
        forall|i: int| 0 <= i < host@.len() ==> ids@.contains(#[trigger] host@[i]),
    ensures
        r@ == host_list(host@, ids@, seq),
{
    let mut r: Vec<HostPair> = Vec::new();
    let mut i: usize = 0;
    while i < host.len()
        invariant
            i <= host@.len(),
            ids@.len() <= u32::MAX,
            forall|i: int| 0 <= i < host@.len() ==> ids@.contains(#[trigger] host@[i]),
            r@ =~= host_list(host@, ids@, seq).take(i as int),
        decreases host@.len() - i,
    {
        let choice: usize = find_place(ids.as_slice(), host[i]);
        r.push(HostPair { seq, choice: choice as u32, expert: host[i] });
        i = i + 1;
    }
    r
}

/// Whether the expert is fetched into a slot in this step.
fn fetches_expert(fetches: &Vec<Fetch>, e: u32) -> (r: bool)
    ensures
        r <==> is_fetched(fetches@, e),
{
    let mut i: usize = 0;
    while i < fetches.len()
        invariant
            i <= fetches@.len(),
            forall|j: int| 0 <= j < i ==> (#[trigger] fetches@[j]).expert != e,
        decreases fetches@.len() - i,
    {
        if fetches[i].expert == e {
            assert(fetches@[i as int].expert == e);
            return true;
        }
        i = i + 1;
    }
    false
}

/// The resident experts of a sequence, given the fetches for those before it.
fn slot_pairs(hits: &Vec<(u32, u32)>, ids: &Vec<u32>, seq: u32, fetches: &Vec<Fetch>) -> (r: Vec<
    Pair,
>)
    requires
        ids@.len() <= u32::MAX,
        forall|i: int| 0 <= i < hits@.len() ==> ids@.contains((#[trigger] hits@[i]).0),
    ensures
        r@ == slot_list(hits@, ids@, seq, fetches@),
{
    let mut r: Vec<Pair> = Vec::new();
    let mut i: usize = 0;
    while i < hits.len()
        invariant
            i <= hits@.len(),
            ids@.len() <= u32::MAX,
            forall|i: int| 0 <= i < hits@.len() ==> ids@.contains((#[trigger] hits@[i]).0),
            r@ =~= slot_list(hits@, ids@, seq, fetches@).take(i as int),
        decreases hits@.len() - i,
    {
        let (e, slot) = hits[i];
        let choice: usize = find_place(ids.as_slice(), e);
        let source = if fetches_expert(fetches, e) {
            Source::Bank(e)
        } else {
            Source::Slot(slot)
        };
        r.push(Pair { seq, choice: choice as u32, source });
        i = i + 1;
    }
    r
}

/// The fetched experts of a sequence, read from the host bank.
fn bank_pairs(fetch: &Vec<u32>, ids: &Vec<u32>, seq: u32) -> (r: Vec<Pair>)
    requires
        ids@.len() <= u32::MAX,
        forall|i: int| 0 <= i < fetch@.len() ==> ids@.contains(#[trigger] fetch@[i]),
    ensures
        r@ == bank_list(fetch@, ids@, seq),
{
    let mut r: Vec<Pair> = Vec::new();
    let mut i: usize = 0;
    while i < fetch.len()
        invariant
            i <= fetch@.len(),
            ids@.len() <= u32::MAX,
            forall|i: int| 0 <= i < fetch@.len() ==> ids@.contains(#[trigger] fetch@[i]),
            r@ =~= bank_list(fetch@, ids@, seq).take(i as int),
        decreases fetch@.len() - i,
    {
        let choice: usize = find_place(ids.as_slice(), fetch[i]);
        r.push(Pair { seq, choice: choice as u32, source: Source::Bank(fetch[i]) });
        i = i + 1;
    }
    r
}

/// Takes experts of a layer out of the cache.
fn forget_experts(cache: &mut SlotCache, layer: u32, ids: &Vec<u32>)
    requires
        old(cache).wf(),
    ensures
        final(cache).wf(),
        final(cache)@ == forget_all(old(cache)@, layer, ids@),
        final(cache)@.slots.len() == old(cache)@.slots.len(),
        final(cache)@.tick == old(cache)@.tick,
        final(cache).hits_seen() == old(cache).hits_seen(),
        final(cache).misses_seen() == old(cache).misses_seen(),
{
    let mut i: usize = 0;
    assert(ids@.take(0) =~= seq![]);
    while i < ids.len()
        invariant
            i <= ids@.len(),
            cache.wf(),
            cache@ == forget_all(old(cache)@, layer, ids@.take(i as int)),
            cache@.slots.len() == old(cache)@.slots.len(),
            cache.hits_seen() == old(cache).hits_seen(),
            cache.misses_seen() == old(cache).misses_seen(),
        decreases ids@.len() - i,
    {
        assert(ids@.take(i + 1).drop_last() =~= ids@.take(i as int));
        cache.forget(layer, ids[i]);
        i = i + 1;
    }
    assert(ids@.take(i as int) =~= ids@);
    proof {
        lemma_forget_all_keeps(old(cache)@, layer, ids@);
    }
}

impl Dispatch {
    /// The work, with the cache it leaves behind.
    pub open spec fn work(&self, cache: CacheState) -> Work {
        Work { cache, fetches: self.fetches@, pairs: self.pairs@, host: self.host@ }
    }

    /// Adds the work for one more sequence.
    fn sequence(&mut self, cache: &mut SlotCache, layer: u32, ids: &Vec<u32>, seq: u32, quota: &[usize])
        requires
            old(cache).wf(),
            old(cache)@.slots.len() > 0 || ids@.len() == 0,
            old(cache)@.tick < u64::MAX,
            old(cache).hits_seen() + ids@.len() <= u64::MAX,
            old(cache).misses_seen() + ids@.len() <= u64::MAX,
            ids@.len() < quota@.len(),
            ids@.len() <= u32::MAX,
        ensures
            final(cache).wf(),
            final(cache)@.slots.len() == old(cache)@.slots.len(),
            final(cache)@.tick == old(cache)@.tick + 1,
            final(cache).hits_seen() == old(cache).hits_seen() + old(cache)@.hits(
                layer,
                ids@,
            ).len(),
            final(cache).misses_seen() == old(cache).misses_seen() + old(cache)@.misses(
                layer,
                ids@,
            ).len(),
            old(cache)@.hits(layer, ids@).len() + old(cache)@.misses(layer, ids@).len()
                == ids@.len(),
            final(self).work(final(cache)@) == with_sequence(
                old(self).work(old(cache)@),
                layer,
                ids@,
                seq,
                quota@,
            ),
    {
        let ghost start = cache@;
        let found = cache.lookup(layer, ids.as_slice());
        proof {
            misses_name_missing_experts(start, layer, ids@);
            lemma_place_all_keeps(
                start.touch(start.hits(layer, ids@)),
                start.hits(layer, ids@),
                layer,
                start.missing(layer, ids@),
            );
        }
        let missing = experts(&found.misses);
        let (fetch, host) = split_misses(missing.as_slice(), quota[missing.len()]);
        let ghost n = fetch@.len();
        proof {
            assert forall|i: int| 0 <= i < missing@.len() implies ids@.contains(
                #[trigger] missing@[i],
            ) by {
                lemma_missing_are_routed(start, layer, ids@, i);
            }
            assert forall|i: int| 0 <= i < found.hits@.len() implies ids@.contains(
                (#[trigger] found.hits@[i]).0,
            ) by {
                lemma_hits_are_routed(start, layer, ids@, i);
            }
            assert forall|i: int| 0 <= i < fetch@.len() implies ids@.contains(
                #[trigger] fetch@[i],
            ) && missing@.contains(fetch@[i]) by {
                assert(fetch@[i] == missing@[i]);
            }
            assert forall|i: int| 0 <= i < host@.len() implies ids@.contains(#[trigger] host@[i]) by {
                assert(host@[i] == missing@[n + i]);
            }
        }
        forget_experts(cache, layer, &host);
        let mut host_work = host_pairs(&host, ids, seq);
        self.host.append(&mut host_work);
        let mut slot_work = slot_pairs(&found.hits, ids, seq, &self.fetches);
        self.pairs.append(&mut slot_work);
        let mut fetch_work = fetches_of(&fetch, &found.misses, &missing);
        self.fetches.append(&mut fetch_work);
        let mut bank_work = bank_pairs(&fetch, ids, seq);
        self.pairs.append(&mut bank_work);
    }
}

/// Plans the work of a layer for the experts that each sequence was routed to.
/// `quota` says, for each number of missing experts, how many of them are fetched.
pub fn dispatch(cache: &mut SlotCache, layer: u32, routed: &Vec<Vec<u32>>, quota: &[usize]) -> (r: Dispatch)
    requires
        old(cache).wf(),
        old(cache)@.slots.len() > 0 || routed_total(lists(routed@), routed@.len() as int) == 0,
        routed@.len() <= u32::MAX,
        old(cache)@.tick + routed@.len() <= u64::MAX,
        old(cache).hits_seen() + routed_total(lists(routed@), routed@.len() as int) <= u64::MAX,
        old(cache).misses_seen() + routed_total(lists(routed@), routed@.len() as int) <= u64::MAX,
        forall|i: int|
            0 <= i < routed@.len() ==> (#[trigger] routed@[i])@.len() < quota@.len()
                && routed@[i]@.len() <= u32::MAX,
    ensures
        final(cache).wf(),
        final(cache)@.slots.len() == old(cache)@.slots.len(),
        final(cache)@.tick == old(cache)@.tick + routed@.len(),
        r.work(final(cache)@) == work_for(
            old(cache)@,
            layer,
            lists(routed@),
            quota@,
            routed@.len() as int,
        ),
        final(cache).hits_seen() == old(cache).hits_seen() + hits_for(
            old(cache)@,
            layer,
            lists(routed@),
            quota@,
            routed@.len() as int,
        ),
        final(cache).misses_seen() == old(cache).misses_seen() + misses_for(
            old(cache)@,
            layer,
            lists(routed@),
            quota@,
            routed@.len() as int,
        ),
        final(cache).hits_seen() + final(cache).misses_seen() == old(cache).hits_seen() + old(
            cache,
        ).misses_seen() + routed_total(lists(routed@), routed@.len() as int),
{
    let ghost start = cache@;
    let ghost all = lists(routed@);
    let mut r = Dispatch { fetches: Vec::new(), pairs: Vec::new(), host: Vec::new() };
    let n: u32 = routed.len() as u32;
    let mut i: u32 = 0;
    while i < n
        invariant
            i <= n == routed@.len(),
            all == lists(routed@),
            cache.wf(),
            start == old(cache)@,
            start.slots.len() > 0 || routed_total(all, n as int) == 0,
            cache@.slots.len() == start.slots.len(),
            start.tick + n <= u64::MAX,
            cache@.tick == start.tick + i,
            cache.hits_seen() == old(cache).hits_seen() + hits_for(
                start,
                layer,
                all,
                quota@,
                i as int,
            ),
            cache.misses_seen() == old(cache).misses_seen() + misses_for(
                start,
                layer,
                all,
                quota@,
                i as int,
            ),
            hits_for(start, layer, all, quota@, i as int) + misses_for(
                start,
                layer,
                all,
                quota@,
                i as int,
            ) == routed_total(all, i as int),
            old(cache).hits_seen() + routed_total(all, n as int) <= u64::MAX,
            old(cache).misses_seen() + routed_total(all, n as int) <= u64::MAX,
            forall|i: int|
                0 <= i < routed@.len() ==> (#[trigger] routed@[i])@.len() < quota@.len()
                    && routed@[i]@.len() <= u32::MAX,
            r.work(cache@) == work_for(start, layer, all, quota@, i as int),
        decreases n - i,
    {
        proof {
            routed_total_grows(all, i + 1, n as int);
        }
        assert(r.work(cache@).cache == cache@);
        r.sequence(cache, layer, &routed[i as usize], i, quota);
        i = i + 1;
    }
    r
}

/// The first sequences are routed to no more experts than all of them.
pub proof fn routed_total_grows(routed: Seq<Seq<u32>>, a: int, b: int)
    requires
        a <= b,
    ensures
        routed_total(routed, a) <= routed_total(routed, b),
    decreases b - a,
{
    if a < b {
        routed_total_grows(routed, a, b - 1);
    }
}

/// Where the experts lie: the host bank has `n_experts` experts of `size` bytes for
/// each layer, the slot cache one expert for each slot. The addresses are those
/// under which the device sees the two.
#[derive(Clone, Copy, Debug, PartialEq, Eq)]
pub struct Memory {
    pub bank_base: u64,
    pub cache_base: u64,
    pub n_experts: usize,
    pub size: usize,
}

impl Memory {
    /// How far into the bank an expert lies.
    pub open spec fn bank_position(self, layer: int, expert: int) -> int {
        (layer * self.n_experts + expert) * self.size
    }

    /// The address of a source.
    pub open spec fn address(self, layer: int, source: Source) -> int {
        match source {
            Source::Bank(e) => self.bank_base + self.bank_position(layer, e as int),
            Source::Slot(s) => self.cache_base + s * self.size,
        }
    }

    /// How far into the bank an expert lies.
    pub fn bank_offset(&self, layer: usize, expert: u32) -> (r: usize)
        requires
            self.bank_position(layer as int, expert as int) + self.size <= usize::MAX,
            self.size > 0,
        ensures
            r == self.bank_position(layer as int, expert as int),
    {
        proof {
            let a = layer * self.n_experts;
            let b = a + expert;
            assert(a >= 0) by (nonlinear_arith)
                requires
                    a == layer * self.n_experts,
            ;
            assert(a <= b <= b * self.size) by (nonlinear_arith)
                requires
                    0 <= a <= b,
                    self.size > 0,
            ;
        }
        (layer * self.n_experts + expert as usize) * self.size
    }

    /// How far into the slot cache a slot lies.
    pub fn slot_offset(&self, slot: u32) -> (r: usize)
        requires
            slot * self.size <= usize::MAX,
        ensures
            r == slot * self.size,
    {
        proof {
            assert(slot <= usize::MAX);
        }
        slot as usize * self.size
    }

    /// The address of a source.
    pub fn base(&self, layer: usize, source: Source) -> (r: u64)
        requires
            self.size > 0,
            source is Bank ==> self.bank_position(layer as int, source->Bank_0 as int) + self.size
                <= usize::MAX,
            source is Slot ==> source->Slot_0 * self.size <= usize::MAX,
            self.address(layer as int, source) <= u64::MAX,
        ensures
            r == self.address(layer as int, source),
    {
        match source {
            Source::Bank(e) => self.bank_base + self.bank_offset(layer, e) as u64,
            Source::Slot(s) => self.cache_base + self.slot_offset(s) as u64,
        }
    }
}

} // verus!
