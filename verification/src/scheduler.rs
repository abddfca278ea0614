//! Continuous batching: which requests hold a batch slot, what is decoded next, and
//! when a sequence ends. Requests are prefilled one at a time as they are taken in,
//! then all active sequences decode together, one step at a time.

use vstd::prelude::*;

verus! {

/// A sequence that is being decoded. The temperature is the bit pattern of a
/// single-precision number.
#[derive(Clone, Copy, Debug, PartialEq, Eq)]
pub struct ActiveSeq {
    pub slot: usize,
    pub temperature: u32,
    pub remaining: usize,
    pub next_token: u32,
}

/// How to look for the next request.
#[derive(Clone, Copy, Debug, PartialEq, Eq)]
pub enum Intake {
    /// Wait for one: there is nothing else to do.
    Wait,
    /// Take one if there is one, else decode.
    Poll,
    /// Take none: every batch slot is in use.
    Full,
}

/// The next decode step.
pub struct DecodeStep {
    /// The batch slots that take part, each with its next token.
    pub reqs: Vec<(usize, u32)>,
    /// Their temperatures.
    pub temps: Vec<u32>,
    /// The batch slots whose sequences have ended.
    pub ended: Vec<usize>,
}

/// The batch slots and the sequences that hold them.
pub struct Scheduler {
    pub max_batch: usize,
    pub max_seq: usize,
    pub eos: u32,
    pub eot: Option<u32>,
    pub active: Vec<ActiveSeq>,
    pub free: Vec<usize>,
    /// The batch slot whose request is being prefilled.
    pub prefilling: Option<usize>,
}

/// The batch slots of sequences.
pub open spec fn slots_of(active: Seq<ActiveSeq>) -> Seq<usize> {
    Seq::new(active.len(), |i: int| active[i].slot)
}

/// The sequence ends: its token is a stop token, or it may have no more.
pub open spec fn at_end(seq: ActiveSeq, eos: u32, eot: Option<u32>) -> bool {
    seq.next_token == eos || Some(seq.next_token) == eot || seq.remaining == 0
}

/// The sequences that go on, one token further, among the first `n`: those that do
/// not end, and whose token was delivered.
pub open spec fn going_on(
    active: Seq<ActiveSeq>,
    delivered: Seq<bool>,
    eos: u32,
    eot: Option<u32>,
    n: int,
) -> Seq<ActiveSeq>
    decreases n,
{
    if n <= 0 {
        seq![]
    } else {
        let rest = going_on(active, delivered, eos, eot, n - 1);
        let seq = active[n - 1];
        if at_end(seq, eos, eot) || !delivered[n - 1] {
            rest
        } else {
            rest.push(ActiveSeq { remaining: (seq.remaining - 1) as usize, ..seq })
        }
    }
}

/// The batch slots of the sequences among the first `n` that do not go on.
pub open spec fn ending(
    active: Seq<ActiveSeq>,
    delivered: Seq<bool>,
    eos: u32,
    eot: Option<u32>,
    n: int,
) -> Seq<usize>
    decreases n,
{
    if n <= 0 {
        seq![]
    } else {
        let rest = ending(active, delivered, eos, eot, n - 1);
        let seq = active[n - 1];
        if at_end(seq, eos, eot) || !delivered[n - 1] {
            rest.push(seq.slot)
        } else {
            rest
        }
    }
}

/// The entries of a decode step for these sequences.
pub open spec fn requests(active: Seq<ActiveSeq>) -> Seq<(usize, u32)> {
    Seq::new(active.len(), |i: int| (active[i].slot, active[i].next_token))
}

/// The temperatures of these sequences.
pub open spec fn temperatures(active: Seq<ActiveSeq>) -> Seq<u32> {
    Seq::new(active.len(), |i: int| active[i].temperature)
}

/// The batch slot that is being prefilled, as a list.
pub open spec fn one_slot(slot: Option<usize>) -> Seq<usize> {
    match slot {
        Some(s) => seq![s],
        None => seq![],
    }
}

impl Scheduler {
    /// Every batch slot is in use once or free once.
    pub open spec fn holdings(&self) -> Seq<usize> {
        self.free@ + one_slot(self.prefilling) + slots_of(self.active@)
    }

    /// Every batch slot is free, being prefilled or held by a sequence, and only
    /// one of these.
    pub open spec fn wf(&self) -> bool {
        &&& self.holdings().no_duplicates()
        &&& self.holdings().len() == self.max_batch
        &&& forall|i: int|
            0 <= i < self.holdings().len() ==> #[trigger] self.holdings()[i] < self.max_batch
    }

    /// What never changes is as it was.
    pub open spec fn same_limits(&self, other: &Scheduler) -> bool {
        &&& self.max_batch == other.max_batch
        &&& self.max_seq == other.max_seq
        &&& self.eos == other.eos
        &&& self.eot == other.eot
    }

    /// All batch slots free, the lowest first in line.
    pub fn new(max_batch: usize, max_seq: usize, eos: u32, eot: Option<u32>) -> (r: Scheduler)
        ensures
            r.wf(),
            r.max_batch == max_batch,
            r.max_seq == max_seq,
            r.eos == eos,
            r.eot == eot,
            r.active@.len() == 0,
            r.prefilling is None,
            r.free@ == Seq::new(max_batch as nat, |i: int| (max_batch - 1 - i) as usize),
            r.free@.len() == max_batch,
            forall|s: usize| s < max_batch ==> #[trigger] r.free@.contains(s),
            max_batch > 0 ==> r.free@.last() == 0,
    {
        let ghost goal = Seq::new(max_batch as nat, |i: int| (max_batch - 1 - i) as usize);
        let mut free: Vec<usize> = Vec::new();
        let mut i: usize = max_batch;
        while i > 0
            invariant
                i <= max_batch,
                goal == Seq::new(max_batch as nat, |i: int| (max_batch - 1 - i) as usize),
                free@ =~= goal.take(max_batch - i),
            decreases i,
        {
            i = i - 1;
            free.push(i);
        }
        let r = Scheduler {
            max_batch,
            max_seq,
            eos,
            eot,
            active: Vec::new(),
            free,
            prefilling: None,
        };
        assert(r.holdings() =~= goal);
        assert(r.free@ =~= goal);
        assert forall|s: usize| s < max_batch implies #[trigger] r.free@.contains(s) by {
            assert(r.free@[max_batch - 1 - s] == s);
        }
        r
    }

    /// How to look for the next request.
    pub fn intake(&self) -> (r: Intake)
        ensures
            r == if self.active@.len() == 0 {
                Intake::Wait
            } else if self.free@.len() == 0 {
                Intake::Full
            } else {
                Intake::Poll
            },
            r is Wait <==> self.active@.len() == 0,
            r is Poll ==> self.free@.len() > 0,
            r is Full ==> self.free@.len() == 0,
    {
        if self.active.len() == 0 {
            Intake::Wait
        } else if self.free.len() == 0 {
            Intake::Full
        } else {
            Intake::Poll
        }
    }

    /// Takes a request in: gives it a batch slot, and says how many tokens of its
    /// prompt are used, so that what may be generated still fits.
    pub fn take_in(&mut self, prompt_len: usize, max_new: usize) -> (r: (usize, usize))
        requires
            old(self).wf(),
            old(self).prefilling is None,
            old(self).free@.len() > 0,
        ensures
            final(self).wf(),
            final(self).same_limits(old(self)),
            final(self).active@ == old(self).active@,
            final(self).prefilling == Some(r.0),
            old(self).free@ == final(self).free@.push(r.0),
            r.0 < old(self).max_batch,
            r.1 == if max_new + 2 + prompt_len <= old(self).max_seq {
                prompt_len as int
            } else if max_new + 2 <= old(self).max_seq {
                old(self).max_seq - (max_new + 2)
            } else {
                0
            },
            r.1 > 0 ==> r.1 + max_new + 2 <= old(self).max_seq,
            r.1 <= prompt_len,
            r.1 == prompt_len || r.1 + max_new + 2 >= old(self).max_seq,
            !final(self).free@.contains(r.0),
    {
        let ghost all = self.holdings();
        let last: usize = self.free.len() - 1;
        let slot: usize = self.free[last];
        assert(all[last as int] == slot);
        self.free.truncate(last);
        self.prefilling = Some(slot);
        assert(self.holdings() =~= all);
        assert(old(self).free@ =~= self.free@.push(slot));
        proof {
            if self.free@.contains(slot) {
                let i = choose|i: int| 0 <= i < self.free@.len() && self.free@[i] == slot;
                assert(all[i] == slot && all[last as int] == slot);
            }
        }
        let budget: usize = if max_new <= usize::MAX - 2 {
            self.max_seq.saturating_sub(max_new + 2)
        } else {
            0
        };
        let used: usize = if prompt_len < budget {
            prompt_len
        } else {
            budget
        };
        (slot, used)
    }

    /// Ends a prefill. With the first token to deliver the sequence becomes active;
    /// without one, where the prompt was empty or a step failed, its batch slot is
    /// free again.
    pub fn prefilled(&mut self, first: Option<u32>, max_new: usize, temperature: u32)
        requires
            old(self).wf(),
            old(self).prefilling is Some,
        ensures
            final(self).wf(),
            final(self).same_limits(old(self)),
            final(self).prefilling is None,
            match first {
                Some(next_token) => {
                    &&& final(self).free@ == old(self).free@
                    &&& final(self).active@ == old(self).active@.push(
                        ActiveSeq {
                            slot: old(self).prefilling->0,
                            temperature,
                            remaining: max_new,
                            next_token,
                        },
                    )
                },
                None => {
                    &&& final(self).free@ == old(self).free@.push(old(self).prefilling->0)
                    &&& final(self).active@ == old(self).active@
                },
            },
            first is Some ==> {
                let n = old(self).active@.len() as int;
                &&& final(self).active@.len() == n + 1
                &&& final(self).active@[n].slot == old(self).prefilling->0
                &&& final(self).active@[n].remaining == max_new
                &&& final(self).active@[n].next_token == first->0
                &&& final(self).active@[n].temperature == temperature
                &&& forall|i: int|
                    0 <= i < n ==> #[trigger] final(self).active@[i] == old(self).active@[i]
            },
    {
        let ghost all = self.holdings();
        let slot: usize = match self.prefilling {
            Some(s) => s,
            None => 0,
        };
        self.prefilling = None;
        match first {
            Some(next_token) => {
                self.active.push(ActiveSeq { slot, temperature, remaining: max_new, next_token });
                proof {
                    lemma_moved(
                        all,
                        self.holdings(),
                        old(self).free@.len() as int,
                        all.len() - 1,
                    );
                }
            },
            None => {
                self.free.push(slot);
                assert(self.holdings() =~= all);
            },
        }
    }

    /// Whether the token of an active sequence is to be delivered. A sequence that
    /// ends delivers nothing more.
    pub fn delivers(&self, i: usize) -> (r: bool)
        requires
            i < self.active@.len(),
        ensures
            r == !at_end(self.active@[i as int], self.eos, self.eot),
            r ==> self.active@[i as int].next_token != self.eos && Some(
                self.active@[i as int].next_token,
            ) != self.eot && self.active@[i as int].remaining > 0,
            !r ==> self.active@[i as int].next_token == self.eos || Some(
                self.active@[i as int].next_token,
            ) == self.eot || self.active@[i as int].remaining == 0,
    {
        let seq = self.active[i];
        let stop = match self.eot {
            Some(t) => t == seq.next_token,
            None => false,
        };
        !(seq.next_token == self.eos || stop || seq.remaining == 0)
    }

    /// Plans the next decode step. `delivered` says of each active sequence whether
    /// its token could be delivered. Sequences that end give their batch slots back
    /// at once.
    pub fn step(&mut self, delivered: &[bool]) -> (r: DecodeStep)
        requires
            old(self).wf(),
            old(self).prefilling is None,
            delivered@.len() == old(self).active@.len(),
        ensures
            final(self).wf(),
            final(self).same_limits(old(self)),
            final(self).prefilling is None,
            ({
                let n = old(self).active@.len() as int;
                let eos = old(self).eos;
                let eot = old(self).eot;
                &&& final(self).active@ == going_on(old(self).active@, delivered@, eos, eot, n)
                &&& r.ended@ == ending(old(self).active@, delivered@, eos, eot, n)
                &&& final(self).free@ == old(self).free@ + r.ended@
                &&& r.reqs@ == requests(final(self).active@)
                &&& r.temps@ == temperatures(final(self).active@)
            }),
            r.reqs@.len() + r.ended@.len() == old(self).active@.len(),
            forall|i: int|
                0 <= i < r.reqs@.len() ==> {
                    &&& (#[trigger] r.reqs@[i]).0 == final(self).active@[i].slot
                    &&& r.reqs@[i].1 == final(self).active@[i].next_token
                    &&& r.temps@[i] == final(self).active@[i].temperature
                    &&& r.reqs@[i].1 != old(self).eos
                    &&& Some(r.reqs@[i].1) != old(self).eot
                },
    {
        let n: usize = self.active.len();
        let ghost before = self.active@;
        let ghost all = self.holdings();
        let mut reqs: Vec<(usize, u32)> = Vec::new();
        let mut temps: Vec<u32> = Vec::new();
        let mut ended: Vec<usize> = Vec::new();
        let mut kept: Vec<ActiveSeq> = Vec::new();
        let mut i: usize = 0;
        while i < n
            invariant
                i <= n == before.len() == delivered@.len(),
                self.active@ == before,
                self.free@ == old(self).free@,
                self.prefilling is None,
                self.same_limits(old(self)),
                kept@ == going_on(before, delivered@, self.eos, self.eot, i as int),
                ended@ == ending(before, delivered@, self.eos, self.eot, i as int),
                reqs@ =~= requests(kept@),
                temps@ =~= temperatures(kept@),
            decreases n - i,
        {
            let goes = self.delivers(i) && delivered[i];
            let seq = self.active[i];
            if goes {
                let next = ActiveSeq {
                    slot: seq.slot,
                    temperature: seq.temperature,
                    remaining: seq.remaining - 1,
                    next_token: seq.next_token,
                };
                kept.push(next);
                reqs.push((seq.slot, seq.next_token));
                temps.push(seq.temperature);
            } else {
                ended.push(seq.slot);
            }
            i = i + 1;
        }
        proof {
            lemma_split(before, delivered@, self.eos, self.eot, n as int);
        }
        let mut freed: Vec<usize> = ended.clone();
        assert(freed@ =~= ended@);
        self.free.append(&mut freed);
        self.active = kept;
        proof {
            lemma_redistributed(
                old(self).free@,
                slots_of(before),
                ended@,
                slots_of(self.active@),
                self.max_batch,
            );
            assert(all =~= old(self).free@ + slots_of(before));
            assert(self.holdings() =~= old(self).free@ + ended@ + slots_of(self.active@));
            assert forall|i: int| 0 <= i < reqs@.len() implies (#[trigger] reqs@[i]).1 != self.eos
                && Some(reqs@[i].1) != self.eot by {
                let j = going_on_uses_up_a_token(
                    before,
                    delivered@,
                    self.eos,
                    self.eot,
                    n as int,
                    i,
                );
            }
        }
        DecodeStep { reqs, temps, ended }
    }

    /// Ends a decode step that gave a token for each active sequence.
    pub fn decoded(&mut self, tokens: &[u32])
        requires
            old(self).wf(),
            tokens@.len() == old(self).active@.len(),
        ensures
            final(self).wf(),
            final(self).same_limits(old(self)),
            final(self).free@ == old(self).free@,
            final(self).prefilling == old(self).prefilling,
            final(self).active@ == Seq::new(
                old(self).active@.len(),
                |i: int| ActiveSeq { next_token: tokens@[i], ..old(self).active@[i] },
            ),
            forall|i: int|
                0 <= i < tokens@.len() ==> {
                    &&& (#[trigger] final(self).active@[i]).next_token == tokens@[i]
                    &&& final(self).active@[i].slot == old(self).active@[i].slot
                    &&& final(self).active@[i].temperature == old(self).active@[i].temperature
                    &&& final(self).active@[i].remaining == old(self).active@[i].remaining
                },
    {
        let ghost before = self.active@;
        let ghost goal = Seq::new(
            before.len(),
            |i: int| ActiveSeq { next_token: tokens@[i], ..before[i] },
        );
        let n: usize = self.active.len();
        let mut i: usize = 0;
        while i < n
            invariant
                i <= n == before.len() == tokens@.len(),
                self.same_limits(old(self)),
                self.free@ == old(self).free@,
                self.prefilling == old(self).prefilling,
                goal == Seq::new(
                    before.len(),
                    |i: int| ActiveSeq { next_token: tokens@[i], ..before[i] },
                ),
                self.active@.len() == n,
                forall|j: int| 0 <= j < i ==> #[trigger] self.active@[j] == goal[j],
                forall|j: int| i <= j < n ==> #[trigger] self.active@[j] == before[j],
            decreases n - i,
        {
            let seq = self.active[i];
            self.active.set(
                i,
                ActiveSeq {
                    slot: seq.slot,
                    temperature: seq.temperature,
                    remaining: seq.remaining,
                    next_token: tokens[i],
                },
            );
            i = i + 1;
        }
        assert(self.active@ =~= goal);
        assert(slots_of(self.active@) =~= slots_of(before));
    }

    /// Ends a decode step that failed: every sequence ends. Gives their batch slots.
    pub fn failed(&mut self) -> (ended: Vec<usize>)
        requires
            old(self).wf(),
            old(self).prefilling is None,
        ensures
            final(self).wf(),
            final(self).same_limits(old(self)),
            final(self).prefilling is None,
            final(self).active@.len() == 0,
            ended@ == slots_of(old(self).active@),
            final(self).free@ == old(self).free@ + ended@,
            final(self).free@.len() == old(self).max_batch,
            forall|i: int|
                0 <= i < old(self).active@.len() ==> ended@[i] == (
                #[trigger] old(self).active@[i]).slot,
    {
        let ghost all = self.holdings();
        let n: usize = self.active.len();
        let mut ended: Vec<usize> = Vec::new();
        let mut i: usize = 0;
        while i < n
            invariant
                i <= n == self.active@.len(),
                self.active@ == old(self).active@,
                ended@ =~= slots_of(self.active@).take(i as int),
            decreases n - i,
        {
            ended.push(self.active[i].slot);
            i = i + 1;
        }
        let mut freed: Vec<usize> = ended.clone();
        assert(freed@ =~= ended@);
        self.free.append(&mut freed);
        self.active = Vec::new();
        assert(self.holdings() =~= all);
        ended
    }
}

/// The entries of `a` with the one at `from` moved to the end at `to`.
proof fn lemma_moved(a: Seq<usize>, b: Seq<usize>, from: int, to: int)
    requires
        0 <= from <= to,
        to == a.len() - 1,
        a.no_duplicates(),
        b =~= a.remove(from).push(a[from]),
    ensures
        b.no_duplicates(),
        forall|i: int| 0 <= i < b.len() ==> a.contains(#[trigger] b[i]),
{
    let at = |i: int|
        if i < from {
            i
        } else if i < to {
            i + 1
        } else {
            from
        };
    assert forall|i: int| 0 <= i < b.len() implies a.contains(#[trigger] b[i]) by {
        assert(b[i] == a[at(i)]);
    }
    assert forall|i: int, j: int| 0 <= i < b.len() && 0 <= j < b.len() && i != j implies b[i]
        != b[j] by {
        assert(b[i] == a[at(i)]);
        assert(b[j] == a[at(j)]);
    }
}

proof fn lemma_split(
    active: Seq<ActiveSeq>,
    delivered: Seq<bool>,
    eos: u32,
    eot: Option<u32>,
    n: int,
)
    requires
        0 <= n <= active.len(),
    ensures
        ({
            let kept = slots_of(going_on(active, delivered, eos, eot, n));
            let ended = ending(active, delivered, eos, eot, n);
            (ended + kept).to_multiset() == slots_of(active).take(n).to_multiset()
        }),
    decreases n,
{
    let kept = slots_of(going_on(active, delivered, eos, eot, n));
    let ended = ending(active, delivered, eos, eot, n);
    let now = slots_of(active).take(n);
    if n > 0 {
        lemma_split(active, delivered, eos, eot, n - 1);
        let seq = active[n - 1];
        let old_kept = slots_of(going_on(active, delivered, eos, eot, n - 1));
        let old_ended = ending(active, delivered, eos, eot, n - 1);
        let before = slots_of(active).take(n - 1);
        assert(now =~= before.push(seq.slot));
        before.to_multiset_ensures();
        (old_ended + old_kept).to_multiset_ensures();
        if at_end(seq, eos, eot) || !delivered[n - 1] {
            assert(ended + kept =~= (old_ended + old_kept).insert(
                old_ended.len() as int,
                seq.slot,
            ));
            vstd::seq_lib::lemma_multiset_commutative(old_ended, old_kept);
            vstd::seq_lib::lemma_multiset_commutative(old_ended.push(seq.slot), old_kept);
            old_ended.to_multiset_ensures();
        } else {
            assert(kept =~= old_kept.push(seq.slot));
            assert(ended + kept =~= (old_ended + old_kept).push(seq.slot));
        }
    } else {
        assert(ended + kept =~= now);
    }
}

proof fn lemma_redistributed(
    free: Seq<usize>,
    held: Seq<usize>,
    ended: Seq<usize>,
    kept: Seq<usize>,
    max: usize,
)
    requires
        (ended + kept).to_multiset() == held.take(held.len() as int).to_multiset(),
        (free + held).no_duplicates(),
        (free + held).len() == max,
        forall|i: int| 0 <= i < (free + held).len() ==> #[trigger] (free + held)[i] < max,
    ensures
        (free + ended + kept).no_duplicates(),
        (free + ended + kept).len() == max,
        forall|i: int|
            0 <= i < (free + ended + kept).len() ==> #[trigger] (free + ended + kept)[i] < max,
{
    assert(held.take(held.len() as int) =~= held);
    let a = free + held;
    let b = free + ended + kept;
    assert(b =~= free + (ended + kept));
    vstd::seq_lib::lemma_multiset_commutative(free, held);
    vstd::seq_lib::lemma_multiset_commutative(free, ended + kept);
    assert(a.to_multiset() == b.to_multiset());
    a.to_multiset_ensures();
    b.to_multiset_ensures();
    a.lemma_multiset_has_no_duplicates();
    b.lemma_multiset_has_no_duplicates_conv();
    assert forall|i: int| 0 <= i < b.len() implies #[trigger] b[i] < max by {
        assert(b.contains(b[i]));
        assert(b.to_multiset().contains(b[i]));
        assert(a.to_multiset().contains(b[i]));
        assert(a.contains(b[i]));
    }
}

/// What goes on has used up a token: each sequence that goes on is one of the
/// active ones whose token is no stop token and was delivered, and may have one
/// token fewer than before. So no sequence delivers more tokens than it may have.
pub proof fn going_on_uses_up_a_token(
    active: Seq<ActiveSeq>,
    delivered: Seq<bool>,
    eos: u32,
    eot: Option<u32>,
    n: int,
    i: int,
) -> (j: int)
    requires
        0 <= n <= active.len(),
        0 <= i < going_on(active, delivered, eos, eot, n).len(),
    ensures
        0 <= j < n,
        delivered[j],
        active[j].next_token != eos,
        Some(active[j].next_token) != eot,
        active[j].remaining > 0,
        going_on(active, delivered, eos, eot, n)[i] == (ActiveSeq {
            remaining: (active[j].remaining - 1) as usize,
            ..active[j]
        }),
    decreases n,
{
    let rest = going_on(active, delivered, eos, eot, n - 1);
    if i < rest.len() {
        going_on_uses_up_a_token(active, delivered, eos, eot, n - 1, i)
    } else {
        n - 1
    }
}

/// A sequence that ends frees its batch slot at once, and only such a sequence.
pub proof fn ended_slots_are_freed(
    active: Seq<ActiveSeq>,
    delivered: Seq<bool>,
    eos: u32,
    eot: Option<u32>,
    slot: usize,
)
    ensures
        ending(active, delivered, eos, eot, active.len() as int).contains(slot) <==> exists|j: int|
            0 <= j < active.len() && (#[trigger] active[j]).slot == slot && (at_end(
                active[j],
                eos,
                eot,
            ) || !delivered[j]),
{
    lemma_ended(active, delivered, eos, eot, slot, active.len() as int);
}

proof fn lemma_ended(
    active: Seq<ActiveSeq>,
    delivered: Seq<bool>,
    eos: u32,
    eot: Option<u32>,
    slot: usize,
    n: int,
)
    requires
        0 <= n <= active.len(),
    ensures
        ending(active, delivered, eos, eot, n).contains(slot) <==> exists|j: int|
            0 <= j < n && (#[trigger] active[j]).slot == slot && (at_end(active[j], eos, eot)
                || !delivered[j]),
    decreases n,
{
    if n > 0 {
        lemma_ended(active, delivered, eos, eot, slot, n - 1);
        let rest = ending(active, delivered, eos, eot, n - 1);
        let now = ending(active, delivered, eos, eot, n);
        let seq = active[n - 1];
        if at_end(seq, eos, eot) || !delivered[n - 1] {
            assert(now =~= rest.push(seq.slot));
            assert(now[now.len() - 1] == seq.slot);
            if rest.contains(slot) {
                let k = choose|k: int| 0 <= k < rest.len() && rest[k] == slot;
                assert(now[k] == slot);
            }
        }
    }
}

/// Each sequence goes on or ends by what is known of it alone, in order: it ends where its
/// token is a stop token or it may have no more, or where its token was not delivered, and
/// otherwise goes on with one token fewer to come.
pub proof fn sequences_go_on_one_by_one(
    active: Seq<ActiveSeq>,
    delivered: Seq<bool>,
    eos: u32,
    eot: Option<u32>,
    seq: ActiveSeq,
    done: bool,
)
    requires
        delivered.len() == active.len(),
    ensures
        ({
            let n = active.len() as int;
            let on = going_on(active, delivered, eos, eot, n);
            let off = ending(active, delivered, eos, eot, n);
            let more_on = going_on(active.push(seq), delivered.push(done), eos, eot, n + 1);
            let more_off = ending(active.push(seq), delivered.push(done), eos, eot, n + 1);
            let stops = seq.next_token == eos || (eot is Some && seq.next_token == eot->0)
                || seq.remaining == 0;
            &&& n == 0 ==> on.len() == 0 && off.len() == 0
            &&& stops || !done ==> more_on == on && more_off == off.push(seq.slot)
            &&& !stops && done ==> more_off == off && more_on == on.push(
                ActiveSeq {
                    slot: seq.slot,
                    temperature: seq.temperature,
                    remaining: (seq.remaining - 1) as usize,
                    next_token: seq.next_token,
                },
            )
        }),
{
    lemma_prefix_goes_on(active, delivered, eos, eot, seq, done, active.len() as int);
}

proof fn lemma_prefix_goes_on(
    active: Seq<ActiveSeq>,
    delivered: Seq<bool>,
    eos: u32,
    eot: Option<u32>,
    seq: ActiveSeq,
    done: bool,
    n: int,
)
    requires
        delivered.len() == active.len(),
        n <= active.len(),
    ensures
        going_on(active.push(seq), delivered.push(done), eos, eot, n) == going_on(
            active,
            delivered,
            eos,
            eot,
            n,
        ),
        ending(active.push(seq), delivered.push(done), eos, eot, n) == ending(
            active,
            delivered,
            eos,
            eot,
            n,
        ),
    decreases n,
{
    if n > 0 {
        lemma_prefix_goes_on(active, delivered, eos, eot, seq, done, n - 1);
    }
}

/// A step has one entry for each sequence, of its batch slot and its token, and its
/// temperature.
pub proof fn steps_have_one_entry_per_sequence(active: Seq<ActiveSeq>, i: int)
    requires
        0 <= i < active.len(),
    ensures
        requests(active).len() == active.len(),
        requests(active)[i] == (active[i].slot, active[i].next_token),
        temperatures(active).len() == active.len(),
        temperatures(active)[i] == active[i].temperature,
        slots_of(active).len() == active.len(),
        slots_of(active)[i] == active[i].slot,
{
}

} // verus!
