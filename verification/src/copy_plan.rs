//! Planning of host-to-device copies: which misses are fetched, and how the
//! fetched experts coalesce into contiguous runs of the host bank.

use crate::order::sort_by_key;
use vstd::prelude::*;

verus! {

/// A contiguous run of experts in a host bank: `count` rows from expert
/// `start_expert` on are copied into the device slots `slots`.
#[derive(Debug, PartialEq, Eq)]
pub struct CopyRun {
    pub start_expert: u32,
    pub count: u32,
    pub slots: Vec<u32>,
}

impl CopyRun {
    /// The run holds one slot per expert, at least one, and its experts are
    /// numbered by `u32`.
    pub open spec fn wf(&self) -> bool {
        &&& self.count == self.slots@.len()
        &&& self.count > 0
        &&& self.start_expert + self.count <= u32::MAX + 1
    }

    /// The (expert, slot) pairs that the run covers.
    pub open spec fn pairs(&self) -> Seq<(u32, u32)> {
        Seq::new(
            self.slots@.len(),
            |i: int| ((self.start_expert + i) as u32, self.slots@[i]),
        )
    }
}

/// The (expert, slot) pairs that `runs` cover, run after run.
pub open spec fn covered(runs: Seq<CopyRun>) -> Seq<(u32, u32)>
    decreases runs.len(),
{
    if runs.len() == 0 {
        seq![]
    } else {
        covered(runs.drop_last()) + runs.last().pairs()
    }
}

/// No two neighbouring runs could have been one.
pub open spec fn maximal(runs: Seq<CopyRun>) -> bool {
    forall|i: int|
        0 < i < runs.len() ==> runs[i - 1].start_expert + runs[i - 1].count != (
        #[trigger] runs[i]).start_expert
}

/// The runs cover the misses by ascending expert, and no two neighbours could have
/// been one.
pub open spec fn is_plan(misses: Seq<(u32, u32)>, runs: Seq<CopyRun>) -> bool {
    &&& crate::order::is_stable_sort(misses, covered(runs))
    &&& forall|i: int| 0 <= i < runs.len() ==> (#[trigger] runs[i]).wf()
    &&& maximal(runs)
}

/// Coalesces the (expert, slot) misses of one layer into runs that are
/// contiguous in the host bank. Fewer, larger copies keep the bus at full
/// rate.
pub fn plan_runs(misses: Vec<(u32, u32)>) -> (runs: Vec<CopyRun>)
    requires
        misses@.len() <= u32::MAX,
    ensures
        is_plan(misses@, runs@),
{
    let sorted = sort_by_key(&misses);
    let mut runs: Vec<CopyRun> = Vec::new();
    let mut i: usize = 0;
    assert(sorted@.take(0) =~= covered(runs@));
    while i < sorted.len()
        invariant
            i <= sorted@.len() <= u32::MAX,
            covered(runs@) == sorted@.take(i as int),
            forall|j: int| 0 <= j < runs@.len() ==> (#[trigger] runs@[j]).wf(),
            maximal(runs@),
        decreases sorted@.len() - i,
    {
        let (e, s) = sorted[i];
        let ghost before = runs@;
        assert(sorted@.take(i + 1) =~= sorted@.take(i as int).push((e, s)));
        match runs.pop() {
            Some(mut r) => {
                assert(before.drop_last() =~= runs@);
                let ghost old_pairs = r.pairs();
                assert(r == before.last());
                assert(before[before.len() - 1].wf());
                if r.start_expert as u64 + r.count as u64 == e as u64 {
                    assert(old_pairs.len() <= covered(before).len());
                    r.count = r.count + 1;
                    r.slots.push(s);
                    assert(r.pairs() =~= old_pairs.push((e, s)));
                    runs.push(r);
                    assert(runs@.drop_last() =~= before.drop_last());
                    assert(covered(runs@) =~= covered(before).push((e, s)));
                    assert(maximal(runs@)) by {
                        assert forall|j: int| 0 < j < runs@.len() implies runs@[j - 1].start_expert
                            + runs@[j - 1].count != (#[trigger] runs@[j]).start_expert by {
                            assert(before[j].start_expert == runs@[j].start_expert);
                            assert(before[j - 1] == runs@[j - 1]);
                        }
                    }
                } else {
                    runs.push(r);
                    assert(runs@ =~= before);
                    let mut slots: Vec<u32> = Vec::new();
                    slots.push(s);
                    let fresh = CopyRun { start_expert: e, count: 1, slots };
                    assert(fresh.pairs() =~= seq![(e, s)]);
                    runs.push(fresh);
                    assert(runs@.drop_last() =~= before);
                    assert(covered(runs@) =~= covered(before).push((e, s)));
                    assert(maximal(runs@)) by {
                        assert forall|j: int| 0 < j < runs@.len() implies runs@[j - 1].start_expert
                            + runs@[j - 1].count != (#[trigger] runs@[j]).start_expert by {
                            assert(before[j - 1] == runs@[j - 1]);
                            if j < before.len() {
                                assert(before[j] == runs@[j]);
                            }
                        }
                    }
                }
            },
            None => {
                let mut slots: Vec<u32> = Vec::new();
                slots.push(s);
                let fresh = CopyRun { start_expert: e, count: 1, slots };
                assert(fresh.pairs() =~= seq![(e, s)]);
                runs.push(fresh);
                assert(runs@.drop_last() =~= before);
                assert(covered(runs@) =~= covered(before).push((e, s)));
            },
        }
        i = i + 1;
    }
    assert(sorted@.take(i as int) =~= sorted@);
    runs
}

/// How many of `n` misses are fetched when `fetch` are asked for.
pub open spec fn fetched(n: nat, fetch: nat) -> nat {
    if fetch <= n {
        fetch
    } else {
        n
    }
}

/// Splits one step's misses: the first `fetch` of them (all, if there are
/// fewer) are fetched over the bus, the host computes the rest.
pub fn split_misses(misses: &[u32], fetch: usize) -> (split: (Vec<u32>, Vec<u32>))
    ensures
        split.0@ == misses@.take(fetched(misses@.len(), fetch as nat) as int),
        split.1@ == misses@.skip(fetched(misses@.len(), fetch as nat) as int),
        split.0@ + split.1@ == misses@,
{
    let k: usize = if fetch <= misses.len() {
        fetch
    } else {
        misses.len()
    };
    let mut to_fetch: Vec<u32> = Vec::new();
    let mut on_host: Vec<u32> = Vec::new();
    let mut i: usize = 0;
    while i < k
        invariant
            i <= k <= misses@.len(),
            to_fetch@ == misses@.take(i as int),
        decreases k - i,
    {
        to_fetch.push(misses[i]);
        assert(misses@.take(i + 1) =~= misses@.take(i as int).push(misses@[i as int]));
        i = i + 1;
    }
    while i < misses.len()
        invariant
            k <= i <= misses@.len(),
            on_host@ == misses@.subrange(k as int, i as int),
        decreases misses@.len() - i,
    {
        on_host.push(misses[i]);
        assert(misses@.subrange(k as int, i + 1) =~= misses@.subrange(k as int, i as int).push(
            misses@[i as int],
        ));
        i = i + 1;
    }
    assert(misses@.take(k as int) + misses@.skip(k as int) =~= misses@);
    (to_fetch, on_host)
}

} // verus!
