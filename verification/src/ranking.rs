//! Ranking of records by a key, largest first, ties in their original order
//! ("worst first").
use vstd::prelude::*;

verus! {

/// Index `i` comes before index `j` in a worst-first ranking of `keys`: its
/// key is larger, or the keys are equal and `i` comes first.
pub open spec fn ranks_before(keys: Seq<u64>, i: int, j: int) -> bool {
    keys[j] < keys[i] || (keys[i] == keys[j] && i < j)
}

/// `order` lists every index of `keys` exactly once, the largest key first,
/// and indices with equal keys in their original order.
pub open spec fn is_worst_first(keys: Seq<u64>, order: Seq<usize>) -> bool {
    &&& order.len() == keys.len()
    &&& forall|k: int| 0 <= k < order.len() ==> #[trigger] order[k] < keys.len()
    &&& forall|x: usize| x < keys.len() ==> #[trigger] order.contains(x)
    &&& forall|a: int, b: int|
        0 <= a < b < order.len() ==> ranks_before(keys, #[trigger] order[a] as int, #[trigger] order[b] as int)
}

/// The worst-first ranking of `keys` (see `lemma_worst_first_unique`).
pub open spec fn worst_first(keys: Seq<u64>) -> Seq<usize> {
    choose|order: Seq<usize>| is_worst_first(keys, order)
}

/// Ranking before is transitive.
pub proof fn lemma_ranks_before_transitive(keys: Seq<u64>, a: int, b: int, c: int)
    requires
        ranks_before(keys, a, b),
        ranks_before(keys, b, c),
    ensures
        ranks_before(keys, a, c),
{
}

/// No two indices rank before each other.
pub proof fn lemma_ranks_before_asymmetric(keys: Seq<u64>, a: int, b: int)
    ensures
        !(ranks_before(keys, a, b) && ranks_before(keys, b, a)),
{
}

proof fn lemma_worst_first_agree(keys: Seq<u64>, o1: Seq<usize>, o2: Seq<usize>, k: int)
    requires
        is_worst_first(keys, o1),
        is_worst_first(keys, o2),
        0 <= k <= o1.len(),
    ensures
        forall|m: int| 0 <= m < k ==> o1[m] == o2[m],
    decreases k,
{
    if k > 0 {
        lemma_worst_first_agree(keys, o1, o2, k - 1);
        let m = k - 1;
        let a = o1[m];
        let b = o2[m];
        if a != b {
            assert(o2.contains(a));
            let j = choose|j: int| 0 <= j < o2.len() && o2[j] == a;
            assert(o1.contains(b));
            let i = choose|i: int| 0 <= i < o1.len() && o1[i] == b;
            if j < m {
                assert(o1[j] == a);
                assert(ranks_before(keys, o1[j] as int, o1[m] as int));
            }
            if i < m {
                assert(o2[i] == o1[i]);
                assert(ranks_before(keys, o2[i] as int, o2[m] as int));
            }
            assert(ranks_before(keys, o1[m] as int, o1[i] as int));
            assert(ranks_before(keys, o2[m] as int, o2[j] as int));
            lemma_ranks_before_asymmetric(keys, a as int, b as int);
        }
    }
}

/// There is at most one worst-first ranking of a sequence of keys.
pub proof fn lemma_worst_first_unique(keys: Seq<u64>, o1: Seq<usize>, o2: Seq<usize>)
    requires
        is_worst_first(keys, o1),
        is_worst_first(keys, o2),
    ensures
        o1 == o2,
{
    lemma_worst_first_agree(keys, o1, o2, o1.len() as int);
    assert(o1 =~= o2);
}

/// Where index `x` goes in the ranked prefix `o`: scanning back from `p`
/// past every index whose key is smaller than that of `x`.
pub open spec fn insertion_point(keys: Seq<u64>, o: Seq<usize>, x: int, p: int) -> int
    decreases p,
{
    if p > 0 && keys[o[p - 1] as int] < keys[x] {
        insertion_point(keys, o, x, p - 1)
    } else {
        p
    }
}

proof fn lemma_insertion_point(keys: Seq<u64>, o: Seq<usize>, x: int, p: int)
    requires
        0 <= p <= o.len(),
        forall|k: int| 0 <= k < o.len() ==> #[trigger] o[k] < keys.len(),
        0 <= x < keys.len(),
        forall|k: int| p <= k < o.len() ==> keys[#[trigger] o[k] as int] < keys[x],
    ensures
        0 <= insertion_point(keys, o, x, p) <= p,
        forall|k: int|
            insertion_point(keys, o, x, p) <= k < o.len() ==> keys[#[trigger] o[k] as int] < keys[x],
        insertion_point(keys, o, x, p) == 0 || !(keys[o[insertion_point(keys, o, x, p) - 1] as int]
            < keys[x]),
    decreases p,
{
    if p > 0 && keys[o[p - 1] as int] < keys[x] {
        lemma_insertion_point(keys, o, x, p - 1);
    }
}

proof fn lemma_ranked_prefix(keys: Seq<u64>, m: int) -> (o: Seq<usize>)
    requires
        0 <= m <= keys.len(),
        keys.len() <= usize::MAX,
    ensures
        o.len() == m,
        forall|k: int| 0 <= k < o.len() ==> #[trigger] o[k] < m,
        forall|x: usize| x < m ==> #[trigger] o.contains(x),
        forall|a: int, b: int|
            0 <= a < b < o.len() ==> ranks_before(keys, #[trigger] o[a] as int, #[trigger] o[b] as int),
    decreases m,
{
    if m == 0 {
        Seq::empty()
    } else {
        let prev = lemma_ranked_prefix(keys, m - 1);
        let i = (m - 1) as usize;
        assert forall|k: int| 0 <= k < prev.len() implies #[trigger] prev[k] < keys.len() by {}
        lemma_insertion_point(keys, prev, i as int, prev.len() as int);
        let pos = insertion_point(keys, prev, i as int, prev.len() as int);
        if pos > 0 {
            let p = prev[pos - 1] as int;
            assert(ranks_before(keys, p, i as int));
            assert forall|k: int| 0 <= k < pos implies ranks_before(keys, #[trigger] prev[k] as int, i as int) by {
                if k < pos - 1 {
                    assert(ranks_before(keys, prev[k] as int, prev[pos - 1] as int));
                    lemma_ranks_before_transitive(keys, prev[k] as int, p, i as int);
                }
            }
        }
        let o = prev.insert(pos, i);
        assert forall|a: int, b: int| 0 <= a < b < o.len() implies ranks_before(
            keys,
            #[trigger] o[a] as int,
            #[trigger] o[b] as int,
        ) by {
            if b < pos {
                assert(o[a] == prev[a] && o[b] == prev[b]);
            } else if b == pos {
                assert(o[a] == prev[a]);
            } else if a == pos {
                assert(o[b] == prev[b - 1]);
                assert(keys[prev[b - 1] as int] < keys[i as int]);
            } else if a < pos {
                assert(o[a] == prev[a] && o[b] == prev[b - 1]);
            } else {
                assert(o[a] == prev[a - 1] && o[b] == prev[b - 1]);
            }
        }
        assert forall|x: usize| x < m implies #[trigger] o.contains(x) by {
            if x == i {
                assert(o[pos] == i);
            } else {
                assert(prev.contains(x));
                let k = choose|k: int| 0 <= k < prev.len() && prev[k] == x;
                if k < pos {
                    assert(o[k] == x);
                } else {
                    assert(o[k + 1] == x);
                }
            }
        }
        assert forall|k: int| 0 <= k < o.len() implies #[trigger] o[k] < m by {
            if k < pos {
                assert(o[k] == prev[k]);
            } else if k > pos {
                assert(o[k] == prev[k - 1]);
            }
        }
        o
    }
}

/// Every sequence of keys (that a vector can hold) has a worst-first
/// ranking, so `worst_first` is one.
pub proof fn lemma_worst_first_exists(keys: Seq<u64>)
    requires
        keys.len() <= usize::MAX,
    ensures
        is_worst_first(keys, worst_first(keys)),
{
    let o = lemma_ranked_prefix(keys, keys.len() as int);
    assert(is_worst_first(keys, o));
}

/// The worst-first ranking of `keys`: every index once, the largest key
/// first, and indices with equal keys in their original order (a stable sort
/// by key, descending).
pub fn rank_worst_first(keys: &Vec<u64>) -> (order: Vec<usize>)
    ensures
        is_worst_first(keys@, order@),
        order@ == worst_first(keys@),
{
    let n = keys.len();
    let mut order: Vec<usize> = Vec::new();
    for i in 0..n
        invariant
            n == keys.len(),
            order.len() == i,
            forall|k: int| 0 <= k < order.len() ==> #[trigger] order[k] < i,
            forall|x: usize| x < i ==> #[trigger] order@.contains(x),
            forall|a: int, b: int|
                0 <= a < b < order.len() ==> ranks_before(keys@, #[trigger] order[a] as int, #[trigger] order[b] as int),
    {
        let mut pos = order.len();
        while pos > 0 && keys[order[pos - 1]] < keys[i]
            invariant
                n == keys.len(),
                i < n,
                order.len() == i,
                pos <= order.len(),
                forall|k: int| 0 <= k < order.len() ==> #[trigger] order[k] < i,
                forall|k: int| pos <= k < order.len() ==> keys@[#[trigger] order[k] as int] < keys@[i as int],
            decreases pos,
        {
            pos = pos - 1;
        }
        proof {
            if pos > 0 {
                let p = order[pos - 1] as int;
                assert(ranks_before(keys@, p, i as int));
                assert forall|k: int| 0 <= k < pos implies ranks_before(keys@, #[trigger] order[k] as int, i as int) by {
                    if k < pos - 1 {
                        assert(ranks_before(keys@, order[k] as int, order[pos - 1] as int));
                        lemma_ranks_before_transitive(keys@, order[k] as int, p, i as int);
                    }
                }
            }
        }
        let ghost old_order = order@;
        order.insert(pos, i);
        proof {
            assert(order@ == old_order.insert(pos as int, i));
            assert forall|a: int, b: int| 0 <= a < b < order.len() implies ranks_before(
                keys@,
                #[trigger] order[a] as int,
                #[trigger] order[b] as int,
            ) by {
                if b < pos {
                    assert(order[a] == old_order[a] && order[b] == old_order[b]);
                } else if b == pos {
                    assert(order[a] == old_order[a]);
                } else if a == pos {
                    assert(order[b] == old_order[b - 1]);
                    assert(keys@[old_order[b - 1] as int] < keys@[i as int]);
                } else if a < pos {
                    assert(order[a] == old_order[a] && order[b] == old_order[b - 1]);
                } else {
                    assert(order[a] == old_order[a - 1] && order[b] == old_order[b - 1]);
                }
            }
            assert forall|x: usize| x < i + 1 implies #[trigger] order@.contains(x) by {
                if x == i {
                    assert(order@[pos as int] == i);
                } else {
                    assert(old_order.contains(x));
                    let k = choose|k: int| 0 <= k < old_order.len() && old_order[k] == x;
                    if k < pos {
                        assert(order@[k] == x);
                    } else {
                        assert(order@[k + 1] == x);
                    }
                }
            }
            assert forall|k: int| 0 <= k < order.len() implies #[trigger] order[k] < i + 1 by {
                if k < pos {
                    assert(order[k] == old_order[k]);
                } else if k > pos {
                    assert(order[k] == old_order[k - 1]);
                }
            }
        }
    }
    proof {
        assert(is_worst_first(keys@, order@));
        lemma_worst_first_unique(keys@, order@, worst_first(keys@));
    }
    order
}

} // verus!
