//! What holds of every plan of copies.

use crate::copy_plan::{covered, is_plan, maximal, CopyRun};
use crate::order::{ascending, is_stable_sort, with_key};
use vstd::prelude::*;

verus! {

/// No expert occurs twice.
pub open spec fn distinct(misses: Seq<(u32, u32)>) -> bool {
    forall|i: int, j: int|
        0 <= i < j < misses.len() ==> (#[trigger] misses[i]).0 != (#[trigger] misses[j]).0
}

/// An expert is among the pairs.
pub open spec fn has_expert(pairs: Seq<(u32, u32)>, e: int) -> bool {
    exists|i: int| 0 <= i < pairs.len() && (#[trigger] pairs[i]).0 == e
}

/// Two runs copy the same experts into the same slots.
pub open spec fn same_run(a: CopyRun, b: CopyRun) -> bool {
    a.start_expert == b.start_expert && a.count == b.count && a.slots@ == b.slots@
}

/// Two lists of runs are the same.
pub open spec fn same_runs(a: Seq<CopyRun>, b: Seq<CopyRun>) -> bool {
    a.len() == b.len() && forall|i: int| 0 <= i < a.len() ==> same_run(#[trigger] a[i], b[i])
}

spec fn all_wf(runs: Seq<CopyRun>) -> bool {
    forall|i: int| 0 <= i < runs.len() ==> (#[trigger] runs[i]).wf()
}

/// A pair of the list is among those of its key.
proof fn lemma_with_key_has(s: Seq<(u32, u32)>, i: int)
    requires
        0 <= i < s.len(),
    ensures
        with_key(s, s[i].0).contains(s[i]),
    decreases s.len(),
{
    let key = s[i].0;
    let rest = s.drop_last();
    if i == s.len() - 1 {
        let all = with_key(s, key);
        assert(all[all.len() - 1] == s[i]);
    } else {
        lemma_with_key_has(rest, i);
        let before = with_key(rest, key);
        let j = choose|j: int| 0 <= j < before.len() && before[j] == s[i];
        assert(with_key(s, key)[j] == s[i]);
    }
}

/// What is found by a key is a pair of the list with that key.
proof fn lemma_with_key_from(s: Seq<(u32, u32)>, key: u32, j: int)
    requires
        0 <= j < with_key(s, key).len(),
    ensures
        with_key(s, key)[j].0 == key,
        s.contains(with_key(s, key)[j]),
    decreases s.len(),
{
    let rest = s.drop_last();
    if s.last().0 == key && j == with_key(rest, key).len() {
        assert(s[s.len() - 1] == s.last());
    } else {
        lemma_with_key_from(rest, key, j);
        let i = choose|i: int| 0 <= i < rest.len() && rest[i] == with_key(rest, key)[j];
        assert(s[i] == rest[i]);
    }
}

proof fn lemma_with_key_distinct(s: Seq<(u32, u32)>, key: u32)
    requires
        distinct(s),
    ensures
        with_key(s, key).len() <= 1,
    decreases s.len(),
{
    if s.len() > 0 {
        let rest = s.drop_last();
        assert(distinct(rest)) by {
            assert forall|i: int, j: int| 0 <= i < j < rest.len() implies (#[trigger] rest[i]).0 != (
            #[trigger] rest[j]).0 by {
                assert(s[i].0 != s[j].0);
            }
        }
        lemma_with_key_distinct(rest, key);
        if s.last().0 == key && with_key(rest, key).len() > 0 {
            lemma_with_key_from(rest, key, 0);
            let i = choose|i: int| 0 <= i < rest.len() && rest[i] == with_key(rest, key)[0];
            assert(s[i].0 != s[s.len() - 1].0);
        }
    }
}

/// Two pairs of one key are both found by it.
proof fn lemma_with_key_two(s: Seq<(u32, u32)>, i: int, j: int)
    requires
        0 <= i < j < s.len(),
        s[i].0 == s[j].0,
    ensures
        with_key(s, s[i].0).len() >= 2,
    decreases s.len(),
{
    let rest = s.drop_last();
    if j == s.len() - 1 {
        assert(rest[i] == s[i]);
        lemma_with_key_has(rest, i);
    } else {
        lemma_with_key_two(rest, i, j);
    }
}

/// A stable sort of distinct experts ascends strictly.
proof fn lemma_sorted_strictly(s: Seq<(u32, u32)>, sorted: Seq<(u32, u32)>)
    requires
        is_stable_sort(s, sorted),
        distinct(s),
    ensures
        forall|i: int, j: int|
            0 <= i < j < sorted.len() ==> (#[trigger] sorted[i]).0 < (#[trigger] sorted[j]).0,
{
    assert forall|i: int, j: int| 0 <= i < j < sorted.len() implies (#[trigger] sorted[i]).0 < (
    #[trigger] sorted[j]).0 by {
        if sorted[i].0 == sorted[j].0 {
            lemma_with_key_two(sorted, i, j);
            lemma_with_key_distinct(s, sorted[i].0);
            assert(with_key(sorted, sorted[i].0) == with_key(s, sorted[i].0));
        }
    }
}

/// A list that ascends is fixed by what is found in it by each key.
proof fn lemma_sort_is_unique(s: Seq<(u32, u32)>, t: Seq<(u32, u32)>)
    requires
        ascending(s),
        ascending(t),
        s.len() == t.len(),
        forall|key: u32| #[trigger] with_key(s, key) == with_key(t, key),
    ensures
        s == t,
    decreases s.len(),
{
    if s.len() == 0 {
        assert(s =~= t);
    } else {
        lemma_last_key(s, t);
        lemma_last_key(t, s);
        let x = s.last();
        let y = t.last();
        assert(with_key(s, x.0).last() == x);
        assert(with_key(t, y.0).last() == y);
        let a = s.drop_last();
        let b = t.drop_last();
        assert(ascending(a)) by {
            assert forall|i: int, j: int| 0 <= i <= j < a.len() implies (#[trigger] a[i]).0 <= (
            #[trigger] a[j]).0 by {
                assert(s[i].0 <= s[j].0);
            }
        }
        assert(ascending(b)) by {
            assert forall|i: int, j: int| 0 <= i <= j < b.len() implies (#[trigger] b[i]).0 <= (
            #[trigger] b[j]).0 by {
                assert(t[i].0 <= t[j].0);
            }
        }
        assert forall|key: u32| #[trigger] with_key(a, key) == with_key(b, key) by {
            assert(with_key(s, key) == with_key(t, key));
            if key == x.0 {
                assert(with_key(a, key) =~= with_key(s, key).drop_last());
                assert(with_key(b, key) =~= with_key(t, key).drop_last());
            }
        }
        lemma_sort_is_unique(a, b);
        assert(s =~= a.push(x));
        assert(t =~= b.push(y));
    }
}

proof fn lemma_last_key(s: Seq<(u32, u32)>, t: Seq<(u32, u32)>)
    requires
        ascending(s),
        s.len() > 0,
        t.len() > 0,
        forall|key: u32| #[trigger] with_key(s, key) == with_key(t, key),
    ensures
        t.last().0 <= s.last().0,
{
    let y = t.last();
    lemma_with_key_has(t, t.len() - 1);
    let found = with_key(t, y.0);
    assert(found.len() > 0);
    assert(with_key(s, y.0) == found);
    lemma_with_key_from(s, y.0, 0);
    let i = choose|i: int| 0 <= i < s.len() && s[i] == with_key(s, y.0)[0];
    assert(s[i].0 <= s[s.len() - 1].0);
}

/// What neighbouring runs cover stands side by side.
proof fn lemma_neighbours(runs: Seq<CopyRun>, i: int) -> (at: int)
    requires
        all_wf(runs),
        0 <= i < runs.len() - 1,
    ensures
        0 <= at < covered(runs).len() - 1,
        covered(runs)[at].0 == runs[i].start_expert + runs[i].count - 1,
        covered(runs)[at + 1].0 == runs[i + 1].start_expert,
    decreases runs.len(),
{
    let front = runs.drop_last();
    assert forall|j: int| 0 <= j < front.len() implies (#[trigger] front[j]).wf() by {
        assert(front[j] == runs[j]);
    }
    let c = covered(front);
    assert(runs[runs.len() - 1].wf());
    if i < runs.len() - 2 {
        let at = lemma_neighbours(front, i);
        assert(covered(runs)[at] == c[at]);
        assert(covered(runs)[at + 1] == c[at + 1]);
        at
    } else {
        let r = front.last();
        assert(r == runs[i] && runs[i].wf());
        assert(covered(front) == covered(front.drop_last()) + r.pairs());
        assert(c[c.len() - 1] == r.pairs()[r.count - 1]);
        assert(covered(runs)[c.len() as int] == runs.last().pairs()[0]);
        c.len() - 1
    }
}

/// The runs of distinct experts ascend, with a gap before each next one.
pub proof fn runs_ascend_with_gaps(misses: Seq<(u32, u32)>, runs: Seq<CopyRun>, i: int)
    requires
        is_plan(misses, runs),
        distinct(misses),
        0 <= i < runs.len() - 1,
    ensures
        runs[i].start_expert + runs[i].count < runs[i + 1].start_expert,
{
    lemma_sorted_strictly(misses, covered(runs));
    let at = lemma_neighbours(runs, i);
    assert(covered(runs)[at].0 < covered(runs)[at + 1].0);
    assert(runs[i + 1 - 1].start_expert + runs[i + 1 - 1].count != runs[i + 1].start_expert);
}

proof fn lemma_last_pairs(runs: Seq<CopyRun>)
    requires
        all_wf(runs),
        runs.len() > 0,
    ensures
        covered(runs).len() >= runs.last().count,
        forall|j: int|
            0 <= j < runs.last().count ==> #[trigger] covered(runs)[covered(runs).len()
                - runs.last().count + j] == runs.last().pairs()[j],
{
    assert(runs[runs.len() - 1].wf());
}

/// What a list of runs covers, with no two neighbours that could have been one, fixes
/// the runs.
proof fn lemma_runs_are_unique(a: Seq<CopyRun>, b: Seq<CopyRun>)
    requires
        all_wf(a),
        all_wf(b),
        maximal(a),
        maximal(b),
        covered(a) == covered(b),
    ensures
        same_runs(a, b),
    decreases a.len(),
{
    if a.len() == 0 {
        if b.len() > 0 {
            lemma_last_pairs(b);
            assert(b[b.len() - 1].wf());
        }
    } else if b.len() == 0 {
        lemma_last_pairs(a);
        assert(a[a.len() - 1].wf());
    } else {
        let x = a.last();
        let y = b.last();
        assert(a[a.len() - 1].wf() && b[b.len() - 1].wf());
        lemma_last_pairs(a);
        lemma_last_pairs(b);
        if x.count < y.count {
            lemma_no_shorter_last(a, b);
        }
        if y.count < x.count {
            lemma_no_shorter_last(b, a);
        }
        let c = covered(a);
        let n = c.len() - x.count;
        assert(c[n + 0] == x.pairs()[0]);
        assert(c[n + 0] == y.pairs()[0]);
        assert forall|j: int| 0 <= j < x.count implies x.slots@[j] == y.slots@[j] by {
            assert(c[n + j] == x.pairs()[j]);
            assert(c[n + j] == y.pairs()[j]);
        }
        assert(x.slots@ =~= y.slots@);
        let fa = a.drop_last();
        let fb = b.drop_last();
        assert(covered(fa) =~= c.take(n));
        assert(covered(fb) =~= c.take(n));
        lemma_front(a);
        lemma_front(b);
        lemma_runs_are_unique(fa, fb);
        assert forall|i: int| 0 <= i < a.len() implies same_run(#[trigger] a[i], b[i]) by {
            if i < fa.len() {
                assert(same_run(fa[i], fb[i]));
            }
        }
    }
}

proof fn lemma_front(runs: Seq<CopyRun>)
    requires
        all_wf(runs),
        maximal(runs),
        runs.len() > 0,
    ensures
        all_wf(runs.drop_last()),
        maximal(runs.drop_last()),
{
    let front = runs.drop_last();
    assert forall|j: int| 0 <= j < front.len() implies (#[trigger] front[j]).wf() by {
        assert(front[j] == runs[j]);
    }
    assert forall|i: int| 0 < i < front.len() implies front[i - 1].start_expert + front[i - 1].count
        != (#[trigger] front[i]).start_expert by {
        assert(runs[i - 1] == front[i - 1] && runs[i] == front[i]);
    }
}

proof fn lemma_no_shorter_last(a: Seq<CopyRun>, b: Seq<CopyRun>)
    requires
        all_wf(a),
        all_wf(b),
        maximal(a),
        covered(a) == covered(b),
        a.len() > 0,
        b.len() > 0,
    ensures
        a.last().count >= b.last().count,
{
    let x = a.last();
    let y = b.last();
    assert(a[a.len() - 1].wf() && b[b.len() - 1].wf());
    lemma_last_pairs(a);
    lemma_last_pairs(b);
    if x.count < y.count {
        let c = covered(a);
        let n = c.len() - x.count;
        let front = a.drop_last();
        assert(covered(front) =~= c.take(n));
        assert(front.len() > 0) by {
            if front.len() == 0 {
                assert(covered(front).len() == 0);
            }
        }
        let at = lemma_neighbours(a, a.len() - 2);
        lemma_front(a);
        let w = front.last();
        assert(w == a[a.len() - 2] && w.wf());
        lemma_last_pairs(front);
        assert(covered(front)[covered(front).len() - w.count + (w.count - 1)] == w.pairs()[w.count
            - 1]);
        let m = c.len() - y.count;
        let j = y.count - x.count;
        assert(c[m + j] == y.pairs()[j]);
        assert(c[m + (j - 1)] == y.pairs()[j - 1]);
        assert(c[n + 0] == x.pairs()[0]);
        assert(c[n - 1] == c.take(n)[n - 1]);
        assert(a[a.len() - 1 - 1].start_expert + a[a.len() - 1 - 1].count != a[a.len()
            - 1].start_expert);
    }
}

proof fn lemma_with_key_reordered(a: Seq<(u32, u32)>, b: Seq<(u32, u32)>, key: u32)
    requires
        distinct(a),
        distinct(b),
        a.to_multiset() == b.to_multiset(),
    ensures
        with_key(a, key) == with_key(b, key),
{
    lemma_with_key_distinct(a, key);
    lemma_with_key_distinct(b, key);
    if with_key(a, key).len() > 0 {
        lemma_with_key_moves(a, b, key);
    }
    if with_key(b, key).len() > 0 {
        lemma_with_key_moves(b, a, key);
    }
    assert(with_key(a, key) =~= with_key(b, key));
}

proof fn lemma_with_key_moves(a: Seq<(u32, u32)>, b: Seq<(u32, u32)>, key: u32)
    requires
        a.to_multiset() == b.to_multiset(),
        with_key(a, key).len() > 0,
    ensures
        with_key(b, key).contains(with_key(a, key)[0]),
{
    let p = with_key(a, key)[0];
    lemma_with_key_from(a, key, 0);
    a.to_multiset_ensures();
    b.to_multiset_ensures();
    assert(a.to_multiset().count(p) > 0);
    assert(b.contains(p));
    let i = choose|i: int| 0 <= i < b.len() && b[i] == p;
    lemma_with_key_has(b, i);
}

proof fn lemma_distinct_reordered(a: Seq<(u32, u32)>, b: Seq<(u32, u32)>)
    requires
        distinct(a),
        a.to_multiset() == b.to_multiset(),
    ensures
        distinct(b),
{
    a.to_multiset_ensures();
    b.to_multiset_ensures();
    assert(a.no_duplicates());
    a.lemma_multiset_has_no_duplicates();
    b.lemma_multiset_has_no_duplicates_conv();
    assert forall|i: int, j: int| 0 <= i < j < b.len() implies (#[trigger] b[i]).0 != (
    #[trigger] b[j]).0 by {
        assert(b[i] != b[j]);
        assert(b.contains(b[i]) && b.contains(b[j]));
        assert(a.to_multiset().count(b[i]) > 0 && a.to_multiset().count(b[j]) > 0);
        assert(a.contains(b[i]) && a.contains(b[j]));
        let k = choose|k: int| 0 <= k < a.len() && a[k] == b[i];
        let l = choose|l: int| 0 <= l < a.len() && a[l] == b[j];
        if k < l {
            assert(a[k].0 != a[l].0);
        } else if l < k {
            assert(a[l].0 != a[k].0);
        }
    }
}

/// The order of the misses does not matter: misses of distinct experts have the same
/// runs in whatever order they come.
pub proof fn reordered_misses_have_the_same_runs(
    a: Seq<(u32, u32)>,
    a_runs: Seq<CopyRun>,
    b: Seq<(u32, u32)>,
    b_runs: Seq<CopyRun>,
)
    requires
        is_plan(a, a_runs),
        is_plan(b, b_runs),
        distinct(a),
        a.to_multiset() == b.to_multiset(),
    ensures
        same_runs(a_runs, b_runs),
{
    lemma_distinct_reordered(a, b);
    a.to_multiset_ensures();
    b.to_multiset_ensures();
    assert forall|key: u32| #[trigger] with_key(covered(a_runs), key) == with_key(
        covered(b_runs),
        key,
    ) by {
        lemma_with_key_reordered(a, b, key);
        assert(with_key(covered(a_runs), key) == with_key(a, key));
        assert(with_key(covered(b_runs), key) == with_key(b, key));
    }
    lemma_sort_is_unique(covered(a_runs), covered(b_runs));
    lemma_runs_are_unique(a_runs, b_runs);
}

/// One set of misses has one plan.
pub proof fn plan_is_unique(misses: Seq<(u32, u32)>, a: Seq<CopyRun>, b: Seq<CopyRun>)
    requires
        is_plan(misses, a),
        is_plan(misses, b),
    ensures
        same_runs(a, b),
{
    assert forall|key: u32| #[trigger] with_key(covered(a), key) == with_key(covered(b), key) by {
        assert(with_key(covered(a), key) == with_key(misses, key));
        assert(with_key(covered(b), key) == with_key(misses, key));
    }
    lemma_sort_is_unique(covered(a), covered(b));
    lemma_runs_are_unique(a, b);
}

/// What is covered is covered by one of the runs.
proof fn lemma_covering_run(runs: Seq<CopyRun>, e: int) -> (i: int)
    requires
        all_wf(runs),
        has_expert(covered(runs), e),
    ensures
        0 <= i < runs.len(),
        runs[i].start_expert <= e < runs[i].start_expert + runs[i].count,
    decreases runs.len(),
{
    let c = covered(runs);
    let at = choose|at: int| 0 <= at < c.len() && (#[trigger] c[at]).0 == e;
    assert(runs.len() > 0);
    let front = runs.drop_last();
    let n = covered(front).len();
    assert(runs[runs.len() - 1].wf());
    if at < n {
        assert(covered(front)[at].0 == e);
        assert forall|j: int| 0 <= j < front.len() implies (#[trigger] front[j]).wf() by {
            assert(front[j] == runs[j]);
        }
        let i = lemma_covering_run(front, e);
        assert(front[i] == runs[i]);
        i
    } else {
        assert(c[at] == runs.last().pairs()[at - n]);
        runs.len() - 1
    }
}

/// Every expert of a run is covered.
proof fn lemma_run_is_covered(runs: Seq<CopyRun>, i: int, e: int)
    requires
        all_wf(runs),
        0 <= i < runs.len(),
        runs[i].start_expert <= e < runs[i].start_expert + runs[i].count,
    ensures
        has_expert(covered(runs), e),
    decreases runs.len(),
{
    let c = covered(runs);
    let front = runs.drop_last();
    let n = covered(front).len() as int;
    assert(runs[i].wf());
    if i == runs.len() - 1 {
        let j = e - runs[i].start_expert;
        assert(c[n + j] == runs.last().pairs()[j]);
        assert(c[n + j].0 == e);
    } else {
        assert forall|j: int| 0 <= j < front.len() implies (#[trigger] front[j]).wf() by {
            assert(front[j] == runs[j]);
        }
        assert(front[i] == runs[i]);
        lemma_run_is_covered(front, i, e);
        let at = choose|at: int|
            0 <= at < covered(front).len() && (#[trigger] covered(front)[at]).0 == e;
        assert(c[at].0 == e);
    }
}

proof fn lemma_same_experts(s: Seq<(u32, u32)>, sorted: Seq<(u32, u32)>, e: int)
    requires
        is_stable_sort(s, sorted),
    ensures
        has_expert(s, e) <==> has_expert(sorted, e),
{
    if has_expert(s, e) {
        lemma_found_in(s, sorted, e);
    }
    if has_expert(sorted, e) {
        lemma_found_in(sorted, s, e);
    }
}

proof fn lemma_found_in(s: Seq<(u32, u32)>, t: Seq<(u32, u32)>, e: int)
    requires
        forall|key: u32| #[trigger] with_key(s, key) == with_key(t, key),
        has_expert(s, e),
    ensures
        has_expert(t, e),
{
    let i = choose|i: int| 0 <= i < s.len() && (#[trigger] s[i]).0 == e;
    lemma_with_key_has(s, i);
    assert(with_key(t, s[i].0) == with_key(s, s[i].0));
    lemma_with_key_from(t, s[i].0, 0);
    let j = choose|j: int| 0 <= j < t.len() && t[j] == with_key(t, s[i].0)[0];
    assert(t[j].0 == e);
}

spec fn starts(runs: Seq<CopyRun>) -> Seq<int> {
    Seq::new(runs.len(), |i: int| runs[i].start_expert as int)
}

proof fn lemma_starts_ascend(misses: Seq<(u32, u32)>, runs: Seq<CopyRun>, i: int, j: int)
    requires
        is_plan(misses, runs),
        distinct(misses),
        0 <= i < j < runs.len(),
    ensures
        runs[i].start_expert + runs[i].count < runs[j].start_expert,
    decreases j - i,
{
    runs_ascend_with_gaps(misses, runs, j - 1);
    if i < j - 1 {
        lemma_starts_ascend(misses, runs, i, j - 1);
    }
}

/// There is no shorter plan: any list of runs that covers the same distinct experts is
/// at least as long.
pub proof fn no_shorter_plan(misses: Seq<(u32, u32)>, runs: Seq<CopyRun>, other: Seq<CopyRun>)
    requires
        is_plan(misses, runs),
        distinct(misses),
        forall|i: int| 0 <= i < other.len() ==> (#[trigger] other[i]).wf(),
        forall|e: int| #[trigger] has_expert(covered(other), e) <==> has_expert(misses, e),
    ensures
        runs.len() <= other.len(),
{
    let a = starts(runs);
    let b = starts(other);
    assert forall|e: int| #[trigger] has_expert(misses, e) <==> has_expert(covered(runs), e) by {
        lemma_same_experts(misses, covered(runs), e);
    }
    assert(a.no_duplicates()) by {
        assert forall|i: int, j: int| 0 <= i < a.len() && 0 <= j < a.len() && i != j implies a[i]
            != a[j] by {
            if i < j {
                lemma_starts_ascend(misses, runs, i, j);
            } else {
                lemma_starts_ascend(misses, runs, j, i);
            }
        }
    }
    assert forall|s: int| a.to_set().contains(s) implies b.to_set().contains(s) by {
        let i = choose|i: int| 0 <= i < a.len() && a[i] == s;
        assert(runs[i].wf());
        lemma_run_is_covered(runs, i, s);
        assert(has_expert(covered(other), s));
        let k = lemma_covering_run(other, s);
        if other[k].start_expert < s {
            lemma_run_is_covered(other, k, s - 1);
            assert(has_expert(covered(runs), s - 1));
            let h = lemma_covering_run(runs, s - 1);
            if h < i {
                lemma_starts_ascend(misses, runs, h, i);
            } else if i < h {
                assert(runs[i].wf());
                lemma_starts_ascend(misses, runs, i, h);
            }
        }
        assert(b[k] == s);
    }
    a.unique_seq_to_set();
    b.lemma_cardinality_of_set();
    vstd::seq_lib::seq_to_set_is_finite(b);
    vstd::set_lib::lemma_len_subset(a.to_set(), b.to_set());
}

/// Every miss is copied from its expert into its slot, and nothing else is copied.
pub proof fn every_miss_is_copied_into_its_slot(
    misses: Seq<(u32, u32)>,
    runs: Seq<CopyRun>,
    e: u32,
    s: u32,
)
    requires
        is_plan(misses, runs),
    ensures
        misses.contains((e, s)) <==> exists|i: int, j: int|
            0 <= i < runs.len() && 0 <= j < runs[i].count && runs[i].start_expert + j == e
                && #[trigger] runs[i].slots@[j] == s,
{
    let all = covered(runs);
    assert(with_key(all, e) == with_key(misses, e));
    if misses.contains((e, s)) {
        let m = choose|m: int| 0 <= m < misses.len() && misses[m] == (e, s);
        lemma_with_key_has(misses, m);
        let k = choose|k: int| 0 <= k < with_key(misses, e).len() && with_key(misses, e)[k] == (e, s);
        lemma_with_key_from(all, e, k);
        let c = choose|c: int| 0 <= c < all.len() && all[c] == (e, s);
        let (i, j) = lemma_in_a_run(runs, c);
        assert(runs[i].slots@[j] == s);
    }
    if exists|i: int, j: int|
        0 <= i < runs.len() && 0 <= j < runs[i].count && runs[i].start_expert + j == e
            && #[trigger] runs[i].slots@[j] == s {
        let (i, j) = choose|i: int, j: int|
            0 <= i < runs.len() && 0 <= j < runs[i].count && runs[i].start_expert + j == e
                && #[trigger] runs[i].slots@[j] == s;
        assert(runs[i].wf());
        let c = lemma_from_a_run(runs, i, j);
        assert(all[c] == (e, s));
        lemma_with_key_has(all, c);
        let k = choose|k: int| 0 <= k < with_key(all, e).len() && with_key(all, e)[k] == (e, s);
        lemma_with_key_from(misses, e, k);
    }
}

proof fn lemma_in_a_run(runs: Seq<CopyRun>, c: int) -> (r: (int, int))
    requires
        0 <= c < covered(runs).len(),
        forall|i: int| 0 <= i < runs.len() ==> (#[trigger] runs[i]).wf(),
    ensures
        0 <= r.0 < runs.len(),
        0 <= r.1 < runs[r.0].count,
        runs[r.0].start_expert + r.1 == covered(runs)[c].0,
        runs[r.0].slots@[r.1] == covered(runs)[c].1,
    decreases runs.len(),
{
    let front = covered(runs.drop_last());
    if c < front.len() {
        assert forall|i: int| 0 <= i < runs.drop_last().len() implies (
        #[trigger] runs.drop_last()[i]).wf() by {
            assert(runs[i].wf());
        }
        lemma_in_a_run(runs.drop_last(), c)
    } else {
        assert(runs[runs.len() - 1].wf());
        (runs.len() - 1, c - front.len())
    }
}

proof fn lemma_from_a_run(runs: Seq<CopyRun>, i: int, j: int) -> (c: int)
    requires
        0 <= i < runs.len(),
        forall|i: int| 0 <= i < runs.len() ==> (#[trigger] runs[i]).wf(),
        0 <= j < runs[i].count,
    ensures
        0 <= c < covered(runs).len(),
        covered(runs)[c] == ((runs[i].start_expert + j) as u32, runs[i].slots@[j]),
    decreases runs.len(),
{
    assert(runs[i].wf());
    let front = covered(runs.drop_last());
    if i == runs.len() - 1 {
        front.len() + j
    } else {
        assert forall|k: int| 0 <= k < runs.drop_last().len() implies (
        #[trigger] runs.drop_last()[k]).wf() by {
            assert(runs[k].wf());
        }
        lemma_from_a_run(runs.drop_last(), i, j)
    }
}

} // verus!
