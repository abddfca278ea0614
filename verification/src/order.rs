//! Stable ordering of (key, payload) pairs.

use vstd::prelude::*;

verus! {

/// The pairs of `s` with key `key`, in order.
pub open spec fn with_key(s: Seq<(u32, u32)>, key: u32) -> Seq<(u32, u32)>
    decreases s.len(),
{
    if s.len() == 0 {
        seq![]
    } else if s.last().0 == key {
        with_key(s.drop_last(), key).push(s.last())
    } else {
        with_key(s.drop_last(), key)
    }
}

/// The keys never decrease.
pub open spec fn ascending(s: Seq<(u32, u32)>) -> bool {
    forall|i: int, j: int| 0 <= i <= j < s.len() ==> (#[trigger] s[i]).0 <= (#[trigger] s[j]).0
}

/// `sorted` holds the pairs of `s` by ascending key, and pairs of equal keys
/// in the order they have in `s`.
pub open spec fn is_stable_sort(s: Seq<(u32, u32)>, sorted: Seq<(u32, u32)>) -> bool {
    &&& sorted.len() == s.len()
    &&& ascending(sorted)
    &&& forall|key: u32| #[trigger] with_key(sorted, key) == with_key(s, key)
}

proof fn lemma_with_key_add(a: Seq<(u32, u32)>, b: Seq<(u32, u32)>, key: u32)
    ensures
        with_key(a + b, key) == with_key(a, key) + with_key(b, key),
    decreases b.len(),
{
    if b.len() == 0 {
        assert(a + b =~= a);
        assert(with_key(b, key) =~= seq![]);
        assert(with_key(a, key) + with_key(b, key) =~= with_key(a, key));
    } else {
        lemma_with_key_add(a, b.drop_last(), key);
        assert((a + b).drop_last() =~= a + b.drop_last());
        assert((a + b).last() == b.last());
        if b.last().0 == key {
            assert(with_key(a, key) + with_key(b.drop_last(), key).push(b.last()) =~= (with_key(
                a,
                key,
            ) + with_key(b.drop_last(), key)).push(b.last()));
        }
    }
}

proof fn lemma_with_key_above(s: Seq<(u32, u32)>, key: u32)
    requires
        forall|i: int| 0 <= i < s.len() ==> (#[trigger] s[i]).0 != key,
    ensures
        with_key(s, key) == Seq::<(u32, u32)>::empty(),
    decreases s.len(),
{
    if s.len() > 0 {
        assert(s[s.len() - 1] == s.last());
        assert forall|i: int| 0 <= i < s.drop_last().len() implies (#[trigger] s.drop_last()[i]).0
            != key by {
            assert(s.drop_last()[i] == s[i]);
        }
        lemma_with_key_above(s.drop_last(), key);
    }
}

proof fn lemma_with_key_insert(s: Seq<(u32, u32)>, i: int, x: (u32, u32), key: u32)
    requires
        0 <= i <= s.len(),
        forall|j: int| i <= j < s.len() ==> x.0 < (#[trigger] s[j]).0,
    ensures
        with_key(s.insert(i, x), key) == with_key(s.push(x), key),
{
    let a = s.take(i);
    let b = s.skip(i);
    let one = seq![x];
    assert(s.insert(i, x) =~= (a + one) + b);
    assert(s.push(x) =~= (a + b) + one);
    lemma_with_key_add(a + one, b, key);
    lemma_with_key_add(a, one, key);
    lemma_with_key_add(a + b, one, key);
    lemma_with_key_add(a, b, key);
    assert(one.drop_last() =~= seq![]);
    if x.0 == key {
        assert forall|j: int| 0 <= j < b.len() implies (#[trigger] b[j]).0 != key by {
            assert(b[j] == s[i + j]);
        }
        lemma_with_key_above(b, key);
        assert(with_key(a + one, key) + with_key(b, key) =~= with_key(a + b, key) + with_key(
            one,
            key,
        ));
    } else {
        assert forall|j: int| 0 <= j < one.len() implies (#[trigger] one[j]).0 != key by {
        }
        lemma_with_key_above(one, key);
        assert(with_key(a + one, key) =~= with_key(a, key));
        assert(with_key(a + b, key) + with_key(one, key) =~= with_key(a + b, key));
    }
}

/// Sorts pairs by ascending key; pairs of equal keys keep their order.
pub fn sort_by_key(pairs: &Vec<(u32, u32)>) -> (sorted: Vec<(u32, u32)>)
    ensures
        is_stable_sort(pairs@, sorted@),
{
    let mut sorted: Vec<(u32, u32)> = Vec::new();
    let mut i: usize = 0;
    assert(pairs@.take(0) =~= seq![]);
    while i < pairs.len()
        invariant
            i <= pairs@.len(),
            is_stable_sort(pairs@.take(i as int), sorted@),
        decreases pairs@.len() - i,
    {
        let x = pairs[i];
        let mut at: usize = sorted.len();
        while at > 0 && sorted[at - 1].0 > x.0
            invariant
                at <= sorted@.len(),
                forall|j: int| at <= j < sorted@.len() ==> x.0 < (#[trigger] sorted@[j]).0,
            decreases at,
        {
            at = at - 1;
        }
        let ghost before = sorted@;
        sorted.insert(at, x);
        proof {
            let taken = pairs@.take(i + 1);
            assert(taken =~= pairs@.take(i as int).push(x));
            assert(taken.drop_last() =~= pairs@.take(i as int));
            assert forall|key: u32| #[trigger] with_key(sorted@, key) == with_key(taken, key) by {
                lemma_with_key_insert(before, at as int, x, key);
                assert(before.push(x).drop_last() =~= before);
                assert(with_key(before, key) == with_key(pairs@.take(i as int), key));
            }
            assert forall|a: int, b: int| 0 <= a <= b < sorted@.len() implies (#[trigger] sorted@[a]).0
                <= (#[trigger] sorted@[b]).0 by {
                let p = if a < at {
                    a
                } else {
                    a - 1
                };
                let q = if b < at {
                    b
                } else {
                    b - 1
                };
                if a < at {
                    assert(before[a].0 <= before[at - 1].0);
                }
                if a != at && b != at {
                    assert(before[p].0 <= before[q].0);
                }
            }
        }
        i = i + 1;
    }
    assert(pairs@.take(i as int) =~= pairs@);
    sorted
}

} // verus!
