//! Stable ascending order of a sequence of keys, as a permutation of its
//! positions.
//!
//! Position `a` comes before position `b` when its key is smaller, or when
//! the keys are equal and `a` is the earlier position. That is a strict total
//! order on positions, so a sequence has exactly one arrangement of its
//! positions that follows it.

use vstd::prelude::*;
use crate::numeric::lemma_distinct_in_range;

verus! {

/// Position `a` is placed before position `b`.
pub open spec fn precedes(keys: Seq<int>, a: int, b: int) -> bool {
    keys[a] < keys[b] || (keys[a] == keys[b] && a < b)
}

/// `ord` lists every position of `keys` once, each before all that it
/// precedes.
pub open spec fn is_stable_order(keys: Seq<int>, ord: Seq<usize>) -> bool {
    &&& ord.len() == keys.len()
    &&& forall|i: int| 0 <= i < ord.len() ==> 0 <= #[trigger] ord[i] < keys.len()
    &&& forall|i: int, j: int|
        0 <= i < j < ord.len() ==> precedes(keys, #[trigger] ord[i] as int, #[trigger] ord[j] as int)
}

/// The stable ascending order of `keys`.
pub open spec fn stable_order(keys: Seq<int>) -> Seq<usize> {
    choose|ord: Seq<usize>| is_stable_order(keys, ord)
}

/// `sorted` holds the keys in ascending order.
pub open spec fn ascending(sorted: Seq<int>) -> bool {
    forall|i: int, j: int| 0 <= i <= j < sorted.len() ==> sorted[i] <= sorted[j]
}

/// The keys read in the order `ord`.
pub open spec fn arranged(keys: Seq<int>, ord: Seq<usize>) -> Seq<int> {
    Seq::new(ord.len(), |i: int| keys[ord[i] as int])
}

/// Every position occurs in a stable order.
pub proof fn lemma_stable_order_covers(keys: Seq<int>, ord: Seq<usize>, x: int)
    requires
        is_stable_order(keys, ord),
        0 <= x < keys.len(),
    ensures
        exists|i: int| 0 <= i < ord.len() && ord[i] == x,
{
    let s = Seq::new(ord.len(), |i: int| ord[i] as int);
    assert(s.no_duplicates()) by {
        assert forall|i: int, j: int| 0 <= i < s.len() && 0 <= j < s.len() && i != j implies s[i]
            != s[j] by {
            if i < j {
                assert(precedes(keys, ord[i] as int, ord[j] as int));
            } else {
                assert(precedes(keys, ord[j] as int, ord[i] as int));
            }
        }
    }
    assert forall|i: int| 0 <= i < s.len() implies 0 <= #[trigger] s[i] < keys.len() by {
        assert(0 <= ord[i] < keys.len());
    }
    lemma_distinct_in_range(s, 0, keys.len() as int);
    assert(s.contains(x));
    let i = choose|i: int| 0 <= i < s.len() && s[i] == x;
    assert(ord[i] == x);
}

/// Two stable orders of the same keys are the same sequence.
pub proof fn lemma_stable_order_unique(keys: Seq<int>, o1: Seq<usize>, o2: Seq<usize>)
    requires
        is_stable_order(keys, o1),
        is_stable_order(keys, o2),
    ensures
        o1 == o2,
{
    assert forall|i: int| 0 <= i < o1.len() implies o1[i] == o2[i] by {
        lemma_agree_up_to(keys, o1, o2, i);
    }
    assert(o1 =~= o2);
}

proof fn lemma_agree_up_to(keys: Seq<int>, o1: Seq<usize>, o2: Seq<usize>, i: int)
    requires
        is_stable_order(keys, o1),
        is_stable_order(keys, o2),
        0 <= i < o1.len(),
    ensures
        forall|m: int| 0 <= m <= i ==> o1[m] == o2[m],
    decreases i,
{
    if i > 0 {
        lemma_agree_up_to(keys, o1, o2, i - 1);
    }
    let x = o1[i] as int;
    let y = o2[i] as int;
    assert(0 <= o1[i] < keys.len());
    assert(0 <= o2[i] < keys.len());
    lemma_stable_order_covers(keys, o1, y);
    lemma_stable_order_covers(keys, o2, x);
    let j1 = choose|j: int| 0 <= j < o1.len() && o1[j] == y;
    let j2 = choose|j: int| 0 <= j < o2.len() && o2[j] == x;
    if j1 < i {
        assert(o2[j1] == o1[j1]);
        assert(precedes(keys, o2[j1] as int, o2[i] as int));
    }
    if j2 < i {
        assert(o1[j2] == o2[j2]);
        assert(precedes(keys, o1[j2] as int, o1[i] as int));
    }
    if j1 > i {
        assert(precedes(keys, o1[i] as int, o1[j1] as int));
    }
    if j2 > i {
        assert(precedes(keys, o2[i] as int, o2[j2] as int));
    }
}

/// What the executable sort builds is the stable order.
pub proof fn lemma_is_the_stable_order(keys: Seq<int>, ord: Seq<usize>)
    requires
        is_stable_order(keys, ord),
    ensures
        ord == stable_order(keys),
{
    lemma_stable_order_unique(keys, ord, stable_order(keys));
}

/// Read in stable order, the keys ascend.
pub proof fn lemma_arranged_ascending(keys: Seq<int>, ord: Seq<usize>)
    requires
        is_stable_order(keys, ord),
    ensures
        ascending(arranged(keys, ord)),
{
    let sorted = arranged(keys, ord);
    assert forall|i: int, j: int| 0 <= i <= j < sorted.len() implies sorted[i] <= sorted[j] by {
        if i < j {
            assert(precedes(keys, ord[i] as int, ord[j] as int));
        }
    }
}

/// Sorts the positions of `keys` into stable ascending order.
pub fn sort_positions(keys: &Vec<i128>) -> (ord: Vec<usize>)
    ensures
        is_stable_order(keys@.map_values(|k: i128| k as int), ord@),
        ord@ == stable_order(keys@.map_values(|k: i128| k as int)),
{
    let ghost ks = keys@.map_values(|k: i128| k as int);
    let n: usize = keys.len();
    let mut ord: Vec<usize> = Vec::new();
    let mut i: usize = 0;
    while i < n
        invariant
            i <= n,
            n == keys.len(),
            ks == keys@.map_values(|k: i128| k as int),
            ord.len() == i,
            forall|a: int| 0 <= a < i ==> 0 <= #[trigger] ord[a] < i,
            forall|a: int, b: int|
                0 <= a < b < i ==> precedes(ks, #[trigger] ord[a] as int, #[trigger] ord[b] as int),
        decreases n - i,
    {
        let key: i128 = keys[i];
        let mut p: usize = i;
        while p > 0 && key < keys[ord[p - 1]]
            invariant
                p <= i < n,
                n == keys.len(),
                ks == keys@.map_values(|k: i128| k as int),
                key == keys[i as int],
                ord.len() == i,
                forall|a: int| 0 <= a < i ==> 0 <= #[trigger] ord[a] < i,
                forall|a: int| p <= a < i ==> precedes(ks, i as int, #[trigger] ord[a] as int),
            decreases p,
        {
            p = p - 1;
        }
        let ghost before = ord@;
        ord.insert(p, i);
        proof {
            assert forall|a: int| 0 <= a < i + 1 implies 0 <= #[trigger] ord[a] < i + 1 by {
                if a < p {
                    assert(ord[a] == before[a]);
                } else if a > p {
                    assert(ord[a] == before[a - 1]);
                }
            }
            assert forall|a: int, b: int| 0 <= a < b < i + 1 implies precedes(
                ks,
                #[trigger] ord[a] as int,
                #[trigger] ord[b] as int,
            ) by {
                if b < p {
                    assert(ord[a] == before[a] && ord[b] == before[b]);
                } else if b == p {
                    assert(ord[a] == before[a]);
                    assert(0 <= before[p - 1] < i);
                    assert(0 <= before[a] < i);
                    if a < p - 1 {
                        assert(precedes(ks, before[a] as int, before[p - 1] as int));
                    }
                } else if a < p {
                    assert(ord[a] == before[a] && ord[b] == before[b - 1]);
                } else if a == p {
                    assert(ord[b] == before[b - 1]);
                } else {
                    assert(ord[a] == before[a - 1] && ord[b] == before[b - 1]);
                }
            }
        }
        i = i + 1;
    }
    proof {
        lemma_is_the_stable_order(ks, ord@);
    }
    ord
}

} // verus!
