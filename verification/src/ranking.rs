//! Ranking: the order in which a row of keys is listed, equal keys in the order
//! in which they stand.

use vstd::prelude::*;

verus! {

/// Keys that can be ranked.
pub trait Ranked: Sized {
    /// Whether this key may be listed before another.
    spec fn leads(self, other: Self) -> bool;

    proof fn lemma_leads_total(a: Self, b: Self)
        ensures
            a.leads(b) || b.leads(a),
    ;

    proof fn lemma_leads_transitive(a: Self, b: Self, c: Self)
        requires
            a.leads(b),
            b.leads(c),
        ensures
            a.leads(c),
    ;

    /// Whether this key may be listed before another.
    fn may_lead(&self, other: &Self) -> (ok: bool)
        ensures
            ok == self.leads(*other),
    ;
}

/// A ranking with the key at `i` put in: behind every key that may lead it.
pub open spec fn put_in<K: Ranked>(order: Seq<int>, keys: Seq<K>, i: int) -> Seq<int>
    decreases order.len(),
{
    if order.len() == 0 || keys[order.last()].leads(keys[i]) {
        order.push(i)
    } else {
        put_in(order.drop_last(), keys, i).push(order.last())
    }
}

/// The ranking of the first `n` keys.
pub open spec fn ranking<K: Ranked>(keys: Seq<K>, n: nat) -> Seq<int>
    decreases n,
{
    if n == 0 {
        Seq::empty()
    } else {
        put_in(ranking(keys, (n - 1) as nat), keys, n - 1)
    }
}

/// `order` as integers.
pub open spec fn as_ints(order: Seq<usize>) -> Seq<int> {
    order.map_values(|i: usize| i as int)
}

proof fn lemma_put_in_is_insert<K: Ranked>(order: Seq<int>, keys: Seq<K>, i: int, p: int)
    requires
        0 <= p <= order.len(),
        p > 0 ==> keys[order[p - 1]].leads(keys[i]),
        forall|k: int| p <= k < order.len() ==> !keys[#[trigger] order[k]].leads(keys[i]),
    ensures
        put_in(order, keys, i) == order.insert(p, i),
    decreases order.len(),
{
    if p == order.len() {
        assert(order.insert(p, i) =~= order.push(i));
        assert(p > 0 ==> order.last() == order[p - 1]);
    } else {
        assert(!keys[order[order.len() - 1]].leads(keys[i]));
        let shorter = order.drop_last();
        assert forall|k: int| p <= k < shorter.len() implies !keys[#[trigger] shorter[k]].leads(
            keys[i],
        ) by {
            assert(shorter[k] == order[k]);
        }
        lemma_put_in_is_insert(shorter, keys, i, p);
        assert(shorter.insert(p, i).push(order.last()) =~= order.insert(p, i));
    }
}

/// Ranks a row of keys.
pub fn rank<K: Ranked>(keys: &Vec<K>) -> (order: Vec<usize>)
    ensures
        as_ints(order@) == ranking(keys@, keys@.len()),
        order@.len() == keys@.len(),
        forall|k: int| 0 <= k < order@.len() ==> #[trigger] order@[k] < keys@.len(),
{
    let mut order: Vec<usize> = Vec::with_capacity(keys.len());
    assert(as_ints(order@) =~= ranking(keys@, 0));
    for i in 0..keys.len()
        invariant
            order@.len() == i,
            as_ints(order@) == ranking(keys@, i as nat),
            forall|k: int| 0 <= k < i ==> #[trigger] order@[k] < i,
    {
        let ghost before = order@;
        let mut p: usize = i;
        while p > 0 && !keys[order[p - 1]].may_lead(&keys[i])
            invariant
                p <= i,
                i < keys@.len(),
                order@ == before,
                before.len() == i,
                forall|k: int| 0 <= k < i ==> #[trigger] before[k] < i,
                forall|k: int|
                    p <= k < i ==> !keys@[#[trigger] before[k] as int].leads(keys@[i as int]),
            decreases p,
        {
            p = p - 1;
        }
        order.insert(p, i);
        proof {
            let old_order = as_ints(before);
            assert forall|k: int| p <= k < old_order.len() implies !keys@[#[trigger] old_order[k]].leads(
            keys@[i as int]) by {
                assert(old_order[k] == before[k]);
            }
            lemma_put_in_is_insert(old_order, keys@, i as int, p as int);
            assert(as_ints(order@) =~= old_order.insert(p as int, i as int));
        }
    }
    order
}

/// Each of the first `n` positions stands in the ranking exactly once.
pub open spec fn is_permutation(order: Seq<int>, n: nat) -> bool {
    &&& order.len() == n
    &&& order.no_duplicates()
    &&& forall|k: int| 0 <= k < n ==> 0 <= #[trigger] order[k] < n
}

/// Earlier keys may lead later ones, and equal keys keep their order.
pub open spec fn is_ranked<K: Ranked>(order: Seq<int>, keys: Seq<K>) -> bool {
    forall|a: int, b: int|
        0 <= a < b < order.len() ==> {
            let (i, j) = (#[trigger] order[a], #[trigger] order[b]);
            keys[i].leads(keys[j]) && (keys[j].leads(keys[i]) ==> i < j)
        }
}

/// Everything that is put in stands somewhere.
proof fn lemma_put_in_at<K: Ranked>(order: Seq<int>, keys: Seq<K>, i: int) -> (p: int)
    ensures
        0 <= p <= order.len(),
        p > 0 ==> keys[order[p - 1]].leads(keys[i]),
        forall|k: int| p <= k < order.len() ==> !keys[#[trigger] order[k]].leads(keys[i]),
        put_in(order, keys, i) == order.insert(p, i),
    decreases order.len(),
{
    if order.len() == 0 || keys[order.last()].leads(keys[i]) {
        let p = order.len() as int;
        lemma_put_in_is_insert(order, keys, i, p);
        p
    } else {
        let shorter = order.drop_last();
        let p = lemma_put_in_at(shorter, keys, i);
        assert forall|k: int| p <= k < order.len() implies !keys[#[trigger] order[k]].leads(
            keys[i],
        ) by {
            if k < shorter.len() {
                assert(shorter[k] == order[k]);
            }
        }
        lemma_put_in_is_insert(order, keys, i, p);
        p
    }
}

/// A ranking lists every key once, no key before one that has to lead it, and
/// equal keys in the order in which they stand.
pub proof fn lemma_ranking_is_stable<K: Ranked>(keys: Seq<K>, n: nat)
    requires
        n <= keys.len(),
    ensures
        is_permutation(ranking(keys, n), n),
        is_ranked(ranking(keys, n), keys),
    decreases n,
{
    if n > 0 {
        let m = (n - 1) as nat;
        lemma_ranking_is_stable(keys, m);
        let order = ranking(keys, m);
        let new = m as int;
        let p = lemma_put_in_at(order, keys, new);
        let next = order.insert(p, new);
        assert forall|k: int| 0 <= k < n implies 0 <= #[trigger] next[k] < n by {
            if k < p {
                assert(next[k] == order[k]);
            } else if k > p {
                assert(next[k] == order[k - 1]);
            }
        }
        assert forall|a: int, b: int| 0 <= a < next.len() && 0 <= b < next.len() && a
            != b implies next[a] != next[b] by {
            let ia = if a < p {
                a
            } else {
                a - 1
            };
            let ib = if b < p {
                b
            } else {
                b - 1
            };
            if a != p {
                assert(next[a] == order[ia]);
                assert(order[ia] < m);
            }
            if b != p {
                assert(next[b] == order[ib]);
                assert(order[ib] < m);
            }
        }
        assert forall|a: int, b: int| 0 <= a < b < next.len() implies ({
            let (i, j) = (#[trigger] next[a], #[trigger] next[b]);
            keys[i].leads(keys[j]) && (keys[j].leads(keys[i]) ==> i < j)
        }) by {
            let (i, j) = (next[a], next[b]);
            if a != p && b != p {
                let ia = if a < p {
                    a
                } else {
                    a - 1
                };
                let ib = if b < p {
                    b
                } else {
                    b - 1
                };
                assert(i == order[ia] && j == order[ib]);
            } else if b == p {
                // an earlier key, and the new one
                assert(i == order[a] && j == new);
                assert(keys[order[p - 1]].leads(keys[new]));
                if a < p - 1 {
                    assert(keys[order[a]].leads(keys[order[p - 1]]));
                    K::lemma_leads_transitive(keys[order[a]], keys[order[p - 1]], keys[new]);
                }
                assert(order[a] < m);
            } else {
                // the new key, and a later one
                assert(i == new && j == order[b - 1]);
                assert(!keys[order[b - 1]].leads(keys[new]));
                K::lemma_leads_total(keys[order[b - 1]], keys[new]);
            }
        }
    }
}

} // verus!
