//! The sequences that are decoded together, each in a batch slot with its own
//! position.

use vstd::prelude::*;

verus! {

/// Why a decode step is refused.
#[derive(Debug, Clone, Copy, PartialEq, Eq)]
pub enum BatchError {
    /// There is no entry, or there are more entries than batch slots.
    BadBatchSize,
    /// An entry names a batch slot that there is not.
    BadSlot,
    /// A sequence has no position left.
    ContextOverflow,
    /// An entry's token has no embedding.
    BadToken,
}

/// The batch slots and the position of each one's sequence. The tokens below `rows`
/// are those that have an embedding.
pub struct Batch {
    pub max_batch: usize,
    pub max_seq: usize,
    pub rows: usize,
    pub seq_pos: Vec<usize>,
}

/// What the device is told about a decode step: the position and the batch slot of
/// each entry, and the greatest position.
pub struct StepInputs {
    pub positions: Vec<i32>,
    pub slots: Vec<i32>,
    pub max_pos: usize,
}

/// How many entries up to `n` are for a batch slot.
pub open spec fn entries_for(reqs: Seq<(usize, u32)>, slot: int, n: int) -> nat
    decreases n,
{
    if n <= 0 {
        0
    } else {
        entries_for(reqs, slot, n - 1) + if reqs[n - 1].0 == slot {
            1nat
        } else {
            0nat
        }
    }
}

impl Batch {
    /// There is a position for every batch slot. Entries of one step for the same
    /// slot may take it past the last position, but no further than that.
    pub open spec fn wf(&self) -> bool {
        &&& self.seq_pos@.len() == self.max_batch
        &&& self.max_seq + self.max_batch <= i32::MAX
        &&& forall|s: int|
            0 <= s < self.max_batch ==> #[trigger] self.seq_pos@[s] <= self.max_seq + self.max_batch
    }

    /// What is wrong with an entry.
    pub open spec fn entry_error(&self, req: (usize, u32)) -> Option<BatchError> {
        if req.0 >= self.max_batch {
            Some(BatchError::BadSlot)
        } else if self.seq_pos@[req.0 as int] >= self.max_seq {
            Some(BatchError::ContextOverflow)
        } else if req.1 >= self.rows {
            Some(BatchError::BadToken)
        } else {
            None
        }
    }

    /// What is wrong with the first bad one of the first `n` entries.
    pub open spec fn first_error(&self, reqs: Seq<(usize, u32)>, n: int) -> Option<BatchError>
        decreases n,
    {
        if n <= 0 {
            None
        } else {
            match self.first_error(reqs, n - 1) {
                Some(e) => Some(e),
                None => self.entry_error(reqs[n - 1]),
            }
        }
    }

    /// Why a step is refused.
    pub open spec fn refusal(&self, reqs: Seq<(usize, u32)>) -> Option<BatchError> {
        if reqs.len() == 0 || reqs.len() > self.max_batch {
            Some(BatchError::BadBatchSize)
        } else {
            self.first_error(reqs, reqs.len() as int)
        }
    }

    /// A batch of `max_batch` empty sequences.
    pub fn new(max_batch: usize, max_seq: usize, rows: usize) -> (r: Batch)
        requires
            max_seq + max_batch <= i32::MAX,
        ensures
            r.wf(),
            r.max_batch == max_batch,
            r.max_seq == max_seq,
            r.rows == rows,
            r.seq_pos@ == Seq::new(max_batch as nat, |s: int| 0usize),
    {
        let seq_pos: Vec<usize> = vec![0usize; max_batch];
        assert(seq_pos@ =~= Seq::new(max_batch as nat, |s: int| 0usize));
        Batch { max_batch, max_seq, rows, seq_pos }
    }

    /// Starts a batch slot's sequence anew.
    pub fn reset_slot(&mut self, slot: usize)
        requires
            old(self).wf(),
            slot < old(self).max_batch,
        ensures
            final(self).wf(),
            final(self).max_batch == old(self).max_batch,
            final(self).max_seq == old(self).max_seq,
            final(self).rows == old(self).rows,
            final(self).seq_pos@ == old(self).seq_pos@.update(slot as int, 0),
    {
        self.seq_pos.set(slot, 0);
    }

    /// Checks the entries of a step, batch slots with their next tokens, and gives
    /// what the device is told about them.
    pub fn begin(&self, reqs: &[(usize, u32)]) -> (r: Result<StepInputs, BatchError>)
        requires
            self.wf(),
        ensures
            match self.refusal(reqs@) {
                Some(e) => r is Err && r->Err_0 == e,
                None => {
                    &&& r is Ok
                    &&& r->Ok_0.positions@ == Seq::new(
                        reqs@.len(),
                        |i: int| self.seq_pos@[reqs@[i].0 as int] as i32,
                    )
                    &&& r->Ok_0.slots@ == Seq::new(reqs@.len(), |i: int| reqs@[i].0 as i32)
                    &&& exists|i: int|
                        0 <= i < reqs@.len() && r->Ok_0.max_pos == self.seq_pos@[(
                            #[trigger] reqs@[i]).0 as int]
                    &&& forall|i: int|
                        0 <= i < reqs@.len() ==> self.seq_pos@[(#[trigger] reqs@[i]).0 as int]
                            <= r->Ok_0.max_pos
                },
            },
            r is Ok ==> forall|i: int|
                0 <= i < reqs@.len() ==> {
                    &&& 0 <= #[trigger] r->Ok_0.positions@[i] <= r->Ok_0.max_pos < self.max_seq
                    &&& r->Ok_0.positions@[i] == self.seq_pos@[r->Ok_0.slots@[i] as int]
                    &&& r->Ok_0.slots@[i] == reqs@[i].0
                },
    {
        let n: usize = reqs.len();
        if n == 0 || n > self.max_batch {
            return Err(BatchError::BadBatchSize);
        }
        let ghost all_positions = Seq::new(
            reqs@.len(),
            |i: int| self.seq_pos@[reqs@[i].0 as int] as i32,
        );
        let ghost all_slots = Seq::new(reqs@.len(), |i: int| reqs@[i].0 as i32);
        let mut positions: Vec<i32> = Vec::new();
        let mut slots: Vec<i32> = Vec::new();
        let mut max_pos: usize = 0;
        let mut i: usize = 0;
        while i < n
            invariant
                i <= n == reqs@.len(),
                0 < n <= self.max_batch,
                self.wf(),
                self.first_error(reqs@, i as int) is None,
                all_positions == Seq::new(
                    reqs@.len(),
                    |i: int| self.seq_pos@[reqs@[i].0 as int] as i32,
                ),
                all_slots == Seq::new(reqs@.len(), |i: int| reqs@[i].0 as i32),
                positions@ =~= all_positions.take(i as int),
                slots@ =~= all_slots.take(i as int),
                i == 0 ==> max_pos == 0,
                i > 0 ==> exists|j: int|
                    0 <= j < i && max_pos == self.seq_pos@[(#[trigger] reqs@[j]).0 as int],
                forall|j: int|
                    0 <= j < i ==> self.seq_pos@[(#[trigger] reqs@[j]).0 as int] <= max_pos,
            decreases n - i,
        {
            let (slot, token) = reqs[i];
            proof {
                if self.entry_error(reqs@[i as int]) is Some {
                    self.lemma_first_error(reqs@, i + 1, n as int);
                }
            }
            if slot >= self.max_batch {
                return Err(BatchError::BadSlot);
            }
            let pos: usize = self.seq_pos[slot];
            if pos >= self.max_seq {
                return Err(BatchError::ContextOverflow);
            }
            if token as usize >= self.rows {
                return Err(BatchError::BadToken);
            }
            positions.push(pos as i32);
            slots.push(slot as i32);
            if pos >= max_pos {
                max_pos = pos;
                assert(max_pos == self.seq_pos@[reqs@[i as int].0 as int]);
            }
            i = i + 1;
        }
        proof {
            assert forall|i: int| 0 <= i < reqs@.len() implies self.entry_error(
                #[trigger] reqs@[i],
            ) is None by {
                self.lemma_no_error(reqs@, i, n as int);
            }
            assert(positions@ =~= all_positions);
            assert(slots@ =~= all_slots);
            let j = choose|j: int|
                0 <= j < n && max_pos == self.seq_pos@[(#[trigger] reqs@[j]).0 as int];
            assert(self.entry_error(reqs@[j]) is None);
            assert forall|i: int| 0 <= i < reqs@.len() implies {
                &&& 0 <= #[trigger] positions@[i] <= max_pos < self.max_seq
                &&& positions@[i] == self.seq_pos@[slots@[i] as int]
                &&& slots@[i] == reqs@[i].0
            } by {
                assert(self.entry_error(reqs@[i]) is None);
            }
        }
        Ok(StepInputs { positions, slots, max_pos })
    }

    proof fn lemma_first_error(&self, reqs: Seq<(usize, u32)>, a: int, b: int)
        requires
            a <= b,
            self.first_error(reqs, a) is Some,
        ensures
            self.first_error(reqs, b) == self.first_error(reqs, a),
        decreases b - a,
    {
        if a < b {
            self.lemma_first_error(reqs, a, b - 1);
        }
    }

    proof fn lemma_no_error(&self, reqs: Seq<(usize, u32)>, i: int, n: int)
        requires
            0 <= i < n,
            self.first_error(reqs, n) is None,
        ensures
            self.entry_error(reqs[i]) is None,
        decreases n,
    {
        if i < n - 1 {
            self.lemma_no_error(reqs, i, n - 1);
        }
    }

    /// Ends a step: the sequence of each entry is one position further.
    pub fn advance(&mut self, reqs: &[(usize, u32)])
        requires
            old(self).wf(),
            old(self).refusal(reqs@) is None,
        ensures
            final(self).wf(),
            final(self).max_batch == old(self).max_batch,
            final(self).max_seq == old(self).max_seq,
            final(self).rows == old(self).rows,
            forall|s: int|
                0 <= s < old(self).max_batch ==> #[trigger] final(self).seq_pos@[s]
                    == old(self).seq_pos@[s] + entries_for(reqs@, s, reqs@.len() as int),
            forall|i: int|
                0 <= i < reqs@.len() ==> final(self).seq_pos@[(#[trigger] reqs@[i]).0 as int] > old(
                    self,
                ).seq_pos@[reqs@[i].0 as int],
    {
        let n: usize = reqs.len();
        let mut i: usize = 0;
        while i < n
            invariant
                i <= n == reqs@.len(),
                old(self).wf(),
                old(self).refusal(reqs@) is None,
                n <= old(self).max_batch,
                self.max_batch == old(self).max_batch,
                self.max_seq == old(self).max_seq,
                self.rows == old(self).rows,
                self.seq_pos@.len() == self.max_batch,
                forall|s: int|
                    0 <= s < self.max_batch ==> #[trigger] self.seq_pos@[s] == old(
                        self,
                    ).seq_pos@[s] + entries_for(reqs@, s, i as int),
                forall|s: int|
                    0 <= s < self.max_batch ==> #[trigger] self.seq_pos@[s] == old(
                        self,
                    ).seq_pos@[s] || self.seq_pos@[s] < self.max_seq + i,
            decreases n - i,
        {
            let (slot, _) = reqs[i];
            proof {
                old(self).lemma_no_error(reqs@, i as int, n as int);
            }
            let ghost before = self.seq_pos@;
            let pos: usize = self.seq_pos[slot];
            self.seq_pos.set(slot, pos + 1);
            assert forall|s: int| 0 <= s < self.max_batch implies #[trigger] self.seq_pos@[s]
                == old(self).seq_pos@[s] + entries_for(reqs@, s, i + 1) by {
                assert(before[s] == old(self).seq_pos@[s] + entries_for(reqs@, s, i as int));
            }
            assert forall|s: int| 0 <= s < self.max_batch implies #[trigger] self.seq_pos@[s]
                == old(self).seq_pos@[s] || self.seq_pos@[s] < self.max_seq + i + 1 by {
                assert(before[s] == old(self).seq_pos@[s] || before[s] < self.max_seq + i);
            }
            i = i + 1;
        }
        assert forall|i: int| 0 <= i < reqs@.len() implies self.seq_pos@[(
        #[trigger] reqs@[i]).0 as int] > old(self).seq_pos@[reqs@[i].0 as int] by {
            old(self).lemma_no_error(reqs@, i, n as int);
            lemma_entry_counts(reqs@, i, n as int);
        }
        assert forall|s: int| 0 <= s < self.max_batch implies #[trigger] self.seq_pos@[s]
            <= self.max_seq + self.max_batch by {
            assert(old(self).seq_pos@[s] <= self.max_seq + self.max_batch);
        }
    }
}

/// Entry `j` of those of sequence `s`, where each sequence has `topk`.
pub open spec fn pair_at(pairs: Seq<i32>, topk: int, s: int, j: int) -> int {
    pairs[s * topk + j] as int
}

/// The sequence of each pair of a step, in order: `topk` pairs for each sequence.
pub fn pair_sequences(n: usize, topk: usize) -> (r: Vec<i32>)
    requires
        n <= i32::MAX,
        n * topk <= usize::MAX,
    ensures
        r@ == Seq::new((n * topk) as nat, |p: int| (p / topk as int) as i32),
        forall|s: int, j: int|
            0 <= s < n && 0 <= j < topk ==> #[trigger] pair_at(r@, topk as int, s, j) == s,
{
    let ghost goal = Seq::new((n * topk) as nat, |p: int| (p / topk as int) as i32);
    let total: usize = n * topk;
    let mut r: Vec<i32> = Vec::new();
    let mut p: usize = 0;
    while p < total
        invariant
            p <= total == n * topk,
            n <= i32::MAX,
            goal == Seq::new((n * topk) as nat, |p: int| (p / topk as int) as i32),
            r@ =~= goal.take(p as int),
        decreases total - p,
    {
        assert(topk > 0) by (nonlinear_arith)
            requires
                0 < n * topk,
        ;
        proof {
            assert(p < topk * n) by (nonlinear_arith)
                requires
                    p < n * topk,
            ;
            vstd::arithmetic::div_mod::lemma_multiply_divide_lt(p as int, topk as int, n as int);
        }
        r.push((p / topk) as i32);
        p = p + 1;
    }
    proof {
        assert(r@ =~= goal);
        assert forall|s: int, j: int| 0 <= s < n && 0 <= j < topk implies #[trigger] pair_at(
            r@,
            topk as int,
            s,
            j,
        ) == s by {
            let k = topk as int;
            assert(0 <= s * k + j < n * k) by (nonlinear_arith)
                requires
                    0 <= s,
                    s + 1 <= n,
                    0 <= j < k,
            ;
            vstd::arithmetic::div_mod::lemma_fundamental_div_mod_converse(s * k + j, k, s, j);
        }
    }
    r
}

/// The numbers from 0 to `n - 1`.
pub fn indices(n: usize) -> (r: Vec<i32>)
    requires
        n <= i32::MAX,
    ensures
        r@ == Seq::new(n as nat, |p: int| p as i32),
{
    let ghost goal = Seq::new(n as nat, |p: int| p as i32);
    let mut r: Vec<i32> = Vec::new();
    let mut p: usize = 0;
    while p < n
        invariant
            p <= n <= i32::MAX,
            goal == Seq::new(n as nat, |p: int| p as i32),
            r@ =~= goal.take(p as int),
        decreases n - p,
    {
        r.push(p as i32);
        p = p + 1;
    }
    r
}

/// The seed of the random numbers of batch slot `i`: the slot's number, counted
/// from 1, times the golden ratio in 64 bits.
pub open spec fn seed(i: int) -> u64 {
    (0x9E37_79B9_7F4A_7C15 * (i + 1) % 0x1_0000_0000_0000_0000) as u64
}

/// The seeds of the batch slots.
pub fn seeds(n: usize) -> (r: Vec<u64>)
    ensures
        r@ == Seq::new(n as nat, |i: int| seed(i)),
{
    let mut r: Vec<u64> = Vec::new();
    let mut i: usize = 0;
    while i < n
        invariant
            i <= n,
            r@ =~= Seq::new(n as nat, |i: int| seed(i)).take(i as int),
        decreases n - i,
    {
        let factor: u64 = 0x9E37_79B9_7F4A_7C15;
        r.push(factor.wrapping_mul(i as u64 + 1));
        i = i + 1;
    }
    r
}

/// Where the entries of a step are for distinct batch slots, each of their
/// sequences is one position further, still within its limit, and the others stay
/// where they are.
pub proof fn distinct_entries_advance_by_one(
    before: Batch,
    after: Batch,
    reqs: Seq<(usize, u32)>,
    s: int,
)
    requires
        before.wf(),
        before.refusal(reqs) is None,
        0 <= s < before.max_batch,
        after.seq_pos@[s] == before.seq_pos@[s] + entries_for(reqs, s, reqs.len() as int),
        forall|i: int, j: int|
            0 <= i < j < reqs.len() ==> (#[trigger] reqs[i]).0 != (#[trigger] reqs[j]).0,
    ensures
        (exists|i: int| 0 <= i < reqs.len() && (#[trigger] reqs[i]).0 == s) ==> after.seq_pos@[s]
            == before.seq_pos@[s] + 1 && after.seq_pos@[s] <= before.max_seq,
        !(exists|i: int| 0 <= i < reqs.len() && (#[trigger] reqs[i]).0 == s) ==> after.seq_pos@[s]
            == before.seq_pos@[s],
{
    lemma_entries_for(reqs, s, reqs.len() as int);
    if exists|i: int| 0 <= i < reqs.len() && (#[trigger] reqs[i]).0 == s {
        let i = choose|i: int| 0 <= i < reqs.len() && (#[trigger] reqs[i]).0 == s;
        before.lemma_no_error(reqs, i, reqs.len() as int);
    }
}

proof fn lemma_entry_counts(reqs: Seq<(usize, u32)>, i: int, n: int)
    requires
        0 <= i < n <= reqs.len(),
    ensures
        entries_for(reqs, reqs[i].0 as int, n) > 0,
    decreases n,
{
    if i < n - 1 {
        lemma_entry_counts(reqs, i, n - 1);
    }
}

proof fn lemma_entries_for(reqs: Seq<(usize, u32)>, s: int, n: int)
    requires
        0 <= n <= reqs.len(),
        forall|i: int, j: int|
            0 <= i < j < reqs.len() ==> (#[trigger] reqs[i]).0 != (#[trigger] reqs[j]).0,
    ensures
        entries_for(reqs, s, n) == if exists|i: int| 0 <= i < n && (#[trigger] reqs[i]).0 == s {
            1nat
        } else {
            0nat
        },
    decreases n,
{
    if n > 0 {
        lemma_entries_for(reqs, s, n - 1);
        if reqs[n - 1].0 == s {
            if exists|i: int| 0 <= i < n - 1 && (#[trigger] reqs[i]).0 == s {
                let i = choose|i: int| 0 <= i < n - 1 && (#[trigger] reqs[i]).0 == s;
                assert(reqs[i].0 != reqs[n - 1].0);
            }
        } else if exists|i: int| 0 <= i < n && (#[trigger] reqs[i]).0 == s {
            let i = choose|i: int| 0 <= i < n && (#[trigger] reqs[i]).0 == s;
            assert(i < n - 1);
        }
    }
}

/// A step is accepted exactly where it has an entry and no more than there are batch
/// slots, and each entry is for a batch slot that there is, whose sequence has a position
/// left, and of a token that has an embedding.
pub proof fn steps_are_accepted_where_all_entries_are_good(b: Batch, reqs: Seq<(usize, u32)>)
    ensures
        b.refusal(reqs) is None <==> {
            &&& 0 < reqs.len() <= b.max_batch
            &&& forall|i: int|
                0 <= i < reqs.len() ==> (#[trigger] reqs[i]).0 < b.max_batch
                    && b.seq_pos@[reqs[i].0 as int] < b.max_seq && reqs[i].1 < b.rows
        },
{
    if b.refusal(reqs) is None {
        assert forall|i: int| 0 <= i < reqs.len() implies (#[trigger] reqs[i]).0 < b.max_batch
            && b.seq_pos@[reqs[i].0 as int] < b.max_seq && reqs[i].1 < b.rows by {
            b.lemma_no_error(reqs, i, reqs.len() as int);
        }
    }
    if forall|i: int|
        0 <= i < reqs.len() ==> (#[trigger] reqs[i]).0 < b.max_batch
            && b.seq_pos@[reqs[i].0 as int] < b.max_seq && reqs[i].1 < b.rows {
        lemma_good_entries(b, reqs, reqs.len() as int);
    }
}

proof fn lemma_good_entries(b: Batch, reqs: Seq<(usize, u32)>, n: int)
    requires
        0 <= n <= reqs.len(),
        forall|i: int|
            0 <= i < n ==> (#[trigger] reqs[i]).0 < b.max_batch && b.seq_pos@[reqs[i].0 as int]
                < b.max_seq && reqs[i].1 < b.rows,
    ensures
        b.first_error(reqs, n) is None,
    decreases n,
{
    if n > 0 {
        lemma_good_entries(b, reqs, n - 1);
        assert(reqs[n - 1].0 < b.max_batch);
    }
}

/// The first bad entry says why a step is refused: first by its batch slot, then by its
/// position, and last by its token.
pub proof fn first_bad_entry_decides(b: Batch, reqs: Seq<(usize, u32)>, i: int)
    requires
        0 <= i < reqs.len() <= b.max_batch,
        forall|j: int|
            0 <= j < i ==> (#[trigger] reqs[j]).0 < b.max_batch && b.seq_pos@[reqs[j].0 as int]
                < b.max_seq && reqs[j].1 < b.rows,
    ensures
        reqs[i].0 >= b.max_batch ==> b.refusal(reqs) == Some(BatchError::BadSlot),
        reqs[i].0 < b.max_batch && b.seq_pos@[reqs[i].0 as int] >= b.max_seq ==> b.refusal(reqs)
            == Some(BatchError::ContextOverflow),
        reqs[i].0 < b.max_batch && b.seq_pos@[reqs[i].0 as int] < b.max_seq && reqs[i].1 >= b.rows
            ==> b.refusal(reqs) == Some(BatchError::BadToken),
{
    lemma_good_entries(b, reqs, i);
    if b.first_error(reqs, i + 1) is Some {
        b.lemma_first_error(reqs, i + 1, reqs.len() as int);
    }
}

/// Each entry moves the sequence of its batch slot one position on, and no other.
pub proof fn each_entry_counts_for_its_slot(reqs: Seq<(usize, u32)>, e: (usize, u32), slot: int)
    ensures
        entries_for(seq![], slot, 0) == 0,
        entries_for(reqs.push(e), slot, reqs.len() as int + 1) == entries_for(
            reqs,
            slot,
            reqs.len() as int,
        ) + (if e.0 == slot {
            1nat
        } else {
            0nat
        }),
{
    lemma_entries_of_prefix(reqs, e, slot, reqs.len() as int);
}

proof fn lemma_entries_of_prefix(reqs: Seq<(usize, u32)>, e: (usize, u32), slot: int, n: int)
    requires
        n <= reqs.len(),
    ensures
        entries_for(reqs.push(e), slot, n) == entries_for(reqs, slot, n),
    decreases n,
{
    if n > 0 {
        lemma_entries_of_prefix(reqs, e, slot, n - 1);
    }
}

/// The seed of a batch slot is that of the one before and the golden ratio in 64 bits.
pub proof fn seeds_are_steps_of_the_golden_ratio(i: int)
    requires
        0 <= i,
    ensures
        seed(0) == 0x9E37_79B9_7F4A_7C15,
        seed(i + 1) == (seed(i) + 0x9E37_79B9_7F4A_7C15) % 0x1_0000_0000_0000_0000,
{
    let g = 0x9E37_79B9_7F4A_7C15int;
    let m = 0x1_0000_0000_0000_0000int;
    assert(g * (i + 2) == g * (i + 1) + g);
    vstd::arithmetic::div_mod::lemma_add_mod_noop(g * (i + 1), g, m);
    assert((g * (i + 1) % m + g % m) % m == (g * (i + 1) + g) % m);
    assert(g % m == g);
}

} // verus!
