//! The choice of experts and of tokens by their scores. Scores are bit patterns of
//! single-precision numbers.

use vstd::arithmetic::power2::{
    lemma_pow2_pos, lemma_pow2_strictly_increases, lemma_pow2_unfold, pow2,
};
use vstd::prelude::*;

verus! {

/// A number that orders bit patterns as the numbers they stand for: sign and
/// magnitude. Both zeros are 0.
pub open spec fn magnitude(bits: u32) -> int {
    if bits < 0x8000_0000 {
        bits as int
    } else {
        0x8000_0000 - bits
    }
}

/// The bit pattern stands for no number.
pub open spec fn is_nan(bits: u32) -> bool {
    bits as int % 0x8000_0000 > 0x7F80_0000
}

/// The scores can be compared with each other.
pub open spec fn comparable(scores: Seq<u32>) -> bool {
    scores.len() < 2 || forall|i: int| 0 <= i < scores.len() ==> !is_nan(#[trigger] scores[i])
}

/// The first score is less than the second.
fn less(a: u32, b: u32) -> (r: bool)
    ensures
        r <==> magnitude(a) < magnitude(b),
{
    let x: i64 = if a < 0x8000_0000 {
        a as i64
    } else {
        0x8000_0000 - a as i64
    };
    let y: i64 = if b < 0x8000_0000 {
        b as i64
    } else {
        0x8000_0000 - b as i64
    };
    x < y
}

/// Whether the scores can be compared with each other.
pub fn are_comparable(scores: &[u32]) -> (r: bool)
    ensures
        r <==> comparable(scores@),
{
    if scores.len() < 2 {
        return true;
    }
    let mut i: usize = 0;
    while i < scores.len()
        invariant
            i <= scores@.len(),
            scores@.len() >= 2,
            forall|j: int| 0 <= j < i ==> !is_nan(#[trigger] scores@[j]),
        decreases scores@.len() - i,
    {
        if scores[i] % 0x8000_0000 > 0x7F80_0000 {
            assert(is_nan(scores@[i as int]));
            return false;
        }
        i = i + 1;
    }
    true
}

/// Candidate `a` comes before candidate `b`: it has the higher score, or the same
/// score and the lower number.
pub open spec fn precedes(scores: Seq<u32>, a: u32, b: u32) -> bool {
    let x = magnitude(scores[a as int]);
    let y = magnitude(scores[b as int]);
    x > y || (x == y && a < b)
}

/// Each candidate in the list comes before those behind it.
pub open spec fn in_order(scores: Seq<u32>, list: Seq<u32>) -> bool {
    forall|i: int, j: int|
        0 <= i < j < list.len() ==> precedes(scores, #[trigger] list[i], #[trigger] list[j])
}

/// The list holds the best candidates, the best of all first: every candidate
/// that is not in it comes behind every one that is.
pub open spec fn is_top(scores: Seq<u32>, list: Seq<u32>) -> bool {
    &&& forall|i: int| 0 <= i < list.len() ==> #[trigger] list[i] < scores.len()
    &&& in_order(scores, list)
    &&& forall|i: int, e: u32|
        0 <= i < list.len() && e < scores.len() && !list.contains(e) ==> #[trigger] precedes(
            scores,
            list[i],
            e,
        )
}

/// All candidates, the best one first.
fn ranking(scores: &[u32]) -> (order: Vec<u32>)
    requires
        scores@.len() <= u32::MAX,
    ensures
        order@.len() == scores@.len(),
        forall|i: int| 0 <= i < order@.len() ==> #[trigger] order@[i] < scores@.len(),
        in_order(scores@, order@),
        forall|e: u32| e < scores@.len() ==> order@.contains(e),
{
    let mut order: Vec<u32> = Vec::new();
    let n: u32 = scores.len() as u32;
    let mut e: u32 = 0;
    while e < n
        invariant
            e <= n == scores@.len(),
            order@.len() == e,
            forall|i: int| 0 <= i < order@.len() ==> #[trigger] order@[i] < e,
            in_order(scores@, order@),
            forall|f: u32| f < e ==> order@.contains(f),
        decreases n - e,
    {
        let mut p: usize = order.len();
        while p > 0 && less(scores[order[p - 1] as usize], scores[e as usize])
            invariant
                p <= order@.len() == e,
                e < n == scores@.len(),
                forall|i: int| 0 <= i < order@.len() ==> #[trigger] order@[i] < e,
                forall|i: int|
                    p <= i < order@.len() ==> magnitude(scores@[#[trigger] order@[i] as int])
                        < magnitude(scores@[e as int]),
            decreases p,
        {
            p = p - 1;
        }
        let ghost before = order@;
        order.insert(p, e);
        proof {
            assert forall|i: int, j: int| 0 <= i < j < order@.len() implies precedes(
                scores@,
                #[trigger] order@[i],
                #[trigger] order@[j],
            ) by {
                if i < p && j == p {
                    if i < p - 1 {
                        assert(precedes(scores@, before[i], before[p - 1]));
                    }
                    assert(before[i] < e);
                } else if i == p {
                    assert(order@[j] == before[j - 1]);
                } else {
                    let a = if i < p {
                        i
                    } else {
                        i - 1
                    };
                    let b = if j < p {
                        j
                    } else {
                        j - 1
                    };
                    assert(precedes(scores@, before[a], before[b]));
                }
            }
            assert forall|f: u32| f < e + 1 implies order@.contains(f) by {
                if f == e {
                    assert(order@[p as int] == f);
                } else {
                    assert(before.contains(f));
                    let i = choose|i: int| 0 <= i < before.len() && before[i] == f;
                    if i < p {
                        assert(order@[i] == f);
                    } else {
                        assert(order@[i + 1] == f);
                    }
                }
            }
        }
        e = e + 1;
    }
    order
}

/// The `k` candidates with the highest scores, the highest first. Among equal
/// scores the lower number wins.
pub fn top_k(scores: &[u32], k: usize) -> (top: Vec<u32>)
    requires
        scores@.len() <= u32::MAX,
        comparable(scores@),
        k <= scores@.len(),
    ensures
        top@.len() == k,
        is_top(scores@, top@),
{
    let order = ranking(scores);
    let mut top = order;
    top.truncate(k);
    proof {
        let all = order@;
        assert forall|i: int, e: u32|
            0 <= i < top@.len() && e < scores@.len() && !top@.contains(e) implies #[trigger] precedes(
            scores@,
            top@[i],
            e,
        ) by {
            assert(all.contains(e));
            let j = choose|j: int| 0 <= j < all.len() && all[j] == e;
            if j < k {
                assert(top@[j] == e);
            }
            assert(precedes(scores@, all[i], all[j]));
        }
    }
    top
}

/// The candidates of the highest score, of which the last one counts.
pub open spec fn is_greatest(scores: Seq<u32>, e: int) -> bool {
    &&& 0 <= e < scores.len()
    &&& forall|f: int| 0 <= f <= e ==> magnitude(#[trigger] scores[f]) <= magnitude(scores[e])
    &&& forall|f: int| e < f < scores.len() ==> magnitude(#[trigger] scores[f]) < magnitude(scores[e])
}

/// The candidate with the highest score, the last one of these.
pub fn greatest(scores: &[u32]) -> (e: Option<usize>)
    requires
        comparable(scores@),
    ensures
        match e {
            Some(e) => is_greatest(scores@, e as int),
            None => scores@.len() == 0,
        },
{
    if scores.len() == 0 {
        return None;
    }
    let mut best: usize = 0;
    let mut i: usize = 1;
    while i < scores.len()
        invariant
            best < i <= scores@.len(),
            forall|f: int|
                0 <= f <= best ==> magnitude(#[trigger] scores@[f]) <= magnitude(
                    scores@[best as int],
                ),
            forall|f: int|
                best < f < i ==> magnitude(#[trigger] scores@[f]) < magnitude(
                    scores@[best as int],
                ),
        decreases scores@.len() - i,
    {
        if !less(scores[i], scores[best]) {
            best = i;
        }
        i = i + 1;
    }
    Some(best)
}

/// There is one list of the best candidates of each length.
pub proof fn top_is_unique(scores: Seq<u32>, a: Seq<u32>, b: Seq<u32>)
    requires
        is_top(scores, a),
        is_top(scores, b),
        a.len() == b.len(),
    ensures
        a == b,
{
    lemma_top_prefix(scores, a, b, a.len() as int);
    assert(a =~= b);
}

proof fn lemma_top_prefix(scores: Seq<u32>, a: Seq<u32>, b: Seq<u32>, n: int)
    requires
        is_top(scores, a),
        is_top(scores, b),
        a.len() == b.len(),
        0 <= n <= a.len(),
    ensures
        forall|i: int| 0 <= i < n ==> a[i] == b[i],
    decreases n,
{
    if n > 0 {
        lemma_top_prefix(scores, a, b, n - 1);
        let i = n - 1;
        let x = a[i];
        let y = b[i];
        if x != y {
            lemma_not_behind(scores, a, b, i);
            lemma_not_behind(scores, b, a, i);
        }
    }
}

proof fn lemma_not_behind(scores: Seq<u32>, a: Seq<u32>, b: Seq<u32>, i: int)
    requires
        is_top(scores, a),
        is_top(scores, b),
        a.len() == b.len(),
        0 <= i < a.len(),
        forall|j: int| 0 <= j < i ==> a[j] == b[j],
        a[i] != b[i],
    ensures
        precedes(scores, a[i], b[i]),
{
    let y = b[i];
    if a.contains(y) {
        let j = choose|j: int| 0 <= j < a.len() && a[j] == y;
        if j < i {
            assert(b[j] == y);
            assert(precedes(scores, b[j], b[i]));
        } else {
            assert(precedes(scores, a[i], a[j]));
        }
    } else {
        assert(precedes(scores, a[i], y));
    }
}

/// The number that a bit pattern stands for, in units of the least positive one. An
/// infinite one is larger than all others.
pub open spec fn float_value(bits: u32) -> int {
    let exponent = bits as int % 0x8000_0000 / 0x80_0000;
    let fraction = bits as int % 0x80_0000;
    let size = if exponent == 0 {
        fraction
    } else {
        (fraction + 0x80_0000) * (pow2((exponent - 1) as nat) as int)
    };
    if bits < 0x8000_0000 {
        size
    } else {
        -size
    }
}

/// The bit pattern stands for a number.
pub open spec fn is_number(bits: u32) -> bool {
    bits as int % 0x8000_0000 / 0x80_0000 < 255 || bits as int % 0x80_0000 == 0
}

proof fn lemma_sizes_ascend(a: u32, b: u32)
    requires
        a < b < 0x8000_0000,
    ensures
        0 <= float_value(a) < float_value(b),
{
    let (e, f) = (a as int / 0x80_0000, b as int / 0x80_0000);
    let (m, n) = (a as int % 0x80_0000, b as int % 0x80_0000);
    assert(a as int == 0x80_0000 * e + m && b as int == 0x80_0000 * f + n);
    assert(e <= f);
    if e > 0 {
        lemma_pow2_pos((e - 1) as nat);
        let p = pow2((e - 1) as nat) as int;
        assert(0 <= (m + 0x80_0000) * p) by (nonlinear_arith)
            requires
                0 <= m,
                0 < p,
        ;
    }
    if e == f {
        if e > 0 {
            let p = pow2((e - 1) as nat) as int;
            assert((m + 0x80_0000) * p < (n + 0x80_0000) * p) by (nonlinear_arith)
                requires
                    m < n,
                    0 < p,
            ;
        }
    } else {
        let q = pow2((f - 1) as nat) as int;
        lemma_pow2_pos((f - 1) as nat);
        assert(0x80_0000 * q <= (n + 0x80_0000) * q) by (nonlinear_arith)
            requires
                0 <= n,
                0 < q,
        ;
        if e > 0 {
            let p = pow2((e - 1) as nat) as int;
            lemma_pow2_unfold(e as nat);
            if e < f - 1 {
                lemma_pow2_strictly_increases(e as nat, (f - 1) as nat);
            }
            assert(2 * p <= q);
            assert((m + 0x80_0000) * p < 0x80_0000 * q) by (nonlinear_arith)
                requires
                    0 <= m < 0x80_0000,
                    0 < p,
                    2 * p <= q,
            ;
        }
    }
}

/// Bit patterns are ordered as the numbers they stand for.
pub proof fn order_is_that_of_the_numbers(a: u32, b: u32)
    ensures
        magnitude(a) < magnitude(b) <==> float_value(a) < float_value(b),
        magnitude(a) == magnitude(b) <==> float_value(a) == float_value(b),
        is_nan(a) <==> !is_number(a),
{
    let x = (a as int % 0x8000_0000) as u32;
    let y = (b as int % 0x8000_0000) as u32;
    assert(x as int / 0x80_0000 == a as int % 0x8000_0000 / 0x80_0000);
    assert(y as int / 0x80_0000 == b as int % 0x8000_0000 / 0x80_0000);
    assert(x as int % 0x80_0000 == a as int % 0x80_0000);
    assert(y as int % 0x80_0000 == b as int % 0x80_0000);
    assert(float_value(0) == 0);
    if x < y {
        lemma_sizes_ascend(x, y);
    }
    if y < x {
        lemma_sizes_ascend(y, x);
    }
    if 0 < x {
        lemma_sizes_ascend(0, x);
    }
    if 0 < y {
        lemma_sizes_ascend(0, y);
    }
}

/// What is chosen are the highest scores, in descending order: none that is left out is
/// higher than one that is chosen. Of equal scores the lower number goes first.
pub proof fn chosen_scores_are_the_highest(scores: Seq<u32>, list: Seq<u32>, i: int, e: u32)
    requires
        is_top(scores, list),
        0 <= i < list.len(),
        e < scores.len(),
        e != list[i],
        forall|j: int| 0 <= j < i ==> list[j] != e,
    ensures
        list[i] < scores.len(),
        float_value(scores[list[i] as int]) >= float_value(scores[e as int]),
        float_value(scores[list[i] as int]) == float_value(scores[e as int]) ==> list[i] < e,
{
    order_is_that_of_the_numbers(scores[list[i] as int], scores[e as int]);
    if list.contains(e) {
        let j = choose|j: int| 0 <= j < list.len() && list[j] == e;
        assert(precedes(scores, list[i], list[j]));
    } else {
        assert(precedes(scores, list[i], e));
    }
}

/// The greatest score is no lower than any, and higher than those behind it.
pub proof fn greatest_score_is_the_last_highest(scores: Seq<u32>, e: int, f: int)
    requires
        is_greatest(scores, e),
        0 <= f < scores.len(),
    ensures
        0 <= e < scores.len(),
        float_value(scores[e]) >= float_value(scores[f]),
        e < f ==> float_value(scores[e]) > float_value(scores[f]),
{
    order_is_that_of_the_numbers(scores[e], scores[f]);
    order_is_that_of_the_numbers(scores[f], scores[e]);
}

/// Scores can be compared where there are none or one, or all of them are numbers.
pub proof fn numbers_can_be_compared(scores: Seq<u32>)
    ensures
        comparable(scores) <==> scores.len() <= 1 || forall|i: int|
            0 <= i < scores.len() ==> is_number(#[trigger] scores[i]),
{
    assert forall|i: int| 0 <= i < scores.len() implies is_number(#[trigger] scores[i]) != is_nan(
        scores[i],
    ) by {
        order_is_that_of_the_numbers(scores[i], scores[i]);
    }
}

} // verus!
