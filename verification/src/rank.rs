//! Stable ordering by a key, largest first.

use crate::types::{item_views, MemoryItem};
use vstd::prelude::*;

verus! {

/// Position `a` goes before position `b`: a larger key first, and the earlier
/// position first where the keys are equal.
pub open spec fn before(keys: Seq<i128>, a: int, b: int) -> bool {
    keys[a] > keys[b] || (keys[a] == keys[b] && a < b)
}

/// The positions with `k` put behind the last one whose key is not smaller.
pub open spec fn insert_rank(keys: Seq<i128>, p: Seq<int>, k: int) -> Seq<int>
    decreases p.len(),
{
    if p.len() == 0 || keys[p.last()] >= keys[k] {
        p.push(k)
    } else {
        insert_rank(keys, p.drop_last(), k).push(p.last())
    }
}

/// The first `n` positions in order.
pub open spec fn order_upto(keys: Seq<i128>, n: nat) -> Seq<int>
    decreases n,
{
    if n == 0 {
        Seq::<int>::empty()
    } else {
        insert_rank(keys, order_upto(keys, (n - 1) as nat), n - 1)
    }
}

/// All positions in order: largest key first, equal keys in the order in which
/// they stand.
pub open spec fn order_of(keys: Seq<i128>) -> Seq<int> {
    order_upto(keys, keys.len())
}

/// The first `limit` of the items in the order of their keys.
pub open spec fn ranked<T>(items: Seq<T>, keys: Seq<i128>, limit: int) -> Seq<T> {
    let p = order_of(keys);
    Seq::new(
        if limit < p.len() {
            limit as nat
        } else {
            p.len()
        },
        |i: int| items[p[i]],
    )
}

proof fn lemma_insert_rank(keys: Seq<i128>, p: Seq<int>, k: int, j: int)
    requires
        0 <= j <= p.len(),
        j > 0 ==> keys[p[j - 1]] >= keys[k],
        forall|i: int| j <= i < p.len() ==> keys[#[trigger] p[i]] < keys[k],
    ensures
        insert_rank(keys, p, k) == p.insert(j, k),
    decreases p.len(),
{
    if j < p.len() {
        assert(keys[p[p.len() - 1]] < keys[k]);
        let q = p.drop_last();
        assert forall|i: int| j <= i < q.len() implies keys[#[trigger] q[i]] < keys[k] by {
            assert(q[i] == p[i]);
        }
        lemma_insert_rank(keys, q, k, j);
        assert(insert_rank(keys, p, k) =~= p.insert(j, k));
    } else {
        assert(p.insert(j, k) =~= p.push(k));
    }
}

proof fn lemma_insert_keeps(keys: Seq<i128>, p: Seq<int>, k: int)
    requires
        0 <= k,
        forall|i: int| 0 <= i < p.len() ==> 0 <= #[trigger] p[i] < k,
        forall|i: int, j: int| 0 <= i < j < p.len() ==> before(keys, #[trigger] p[i], #[trigger] p[j]),
    ensures
        insert_rank(keys, p, k).len() == p.len() + 1,
        forall|i: int| 0 <= i < p.len() + 1 ==> 0 <= #[trigger] insert_rank(keys, p, k)[i] <= k,
        forall|i: int, j: int|
            0 <= i < j < p.len() + 1 ==> before(
                keys,
                #[trigger] insert_rank(keys, p, k)[i],
                #[trigger] insert_rank(keys, p, k)[j],
            ),
        insert_rank(keys, p, k).contains(k),
        forall|x: int| #[trigger] p.contains(x) ==> insert_rank(keys, p, k).contains(x),
    decreases p.len(),
{
    let r = insert_rank(keys, p, k);
    if p.len() == 0 || keys[p.last()] >= keys[k] {
        assert(r == p.push(k));
        assert(r[p.len() as int] == k);
        assert forall|i: int, j: int| 0 <= i < j < r.len() implies before(
            keys,
            #[trigger] r[i],
            #[trigger] r[j],
        ) by {
            if j == p.len() {
                assert(r[i] == p[i]);
                if i < p.len() - 1 {
                    assert(before(keys, p[i], p[p.len() - 1]));
                }
            } else {
                assert(r[i] == p[i] && r[j] == p[j]);
            }
        }
        assert forall|x: int| #[trigger] p.contains(x) implies r.contains(x) by {
            assert(r[p.index_of(x)] == x);
        }
    } else {
        let q = p.drop_last();
        assert forall|i: int| 0 <= i < q.len() implies 0 <= #[trigger] q[i] < k by {
            assert(q[i] == p[i]);
        }
        assert forall|i: int, j: int| 0 <= i < j < q.len() implies before(
            keys,
            #[trigger] q[i],
            #[trigger] q[j],
        ) by {
            assert(q[i] == p[i] && q[j] == p[j]);
        }
        lemma_insert_keeps(keys, q, k);
        let s = insert_rank(keys, q, k);
        assert(r == s.push(p.last()));
        assert(p[p.len() - 1] == p.last());
        lemma_insert_members(keys, q, k);
        assert forall|i: int, j: int| 0 <= i < j < r.len() implies before(
            keys,
            #[trigger] r[i],
            #[trigger] r[j],
        ) by {
            assert(r[i] == s[i]);
            if j == s.len() {
                assert(r[j] == p.last());
                assert(s.contains(s[i]));
                if s[i] != k {
                    let w = q.index_of(s[i]);
                    assert(q[w] == p[w]);
                    assert(before(keys, p[w], p[p.len() - 1]));
                }
            } else {
                assert(r[j] == s[j]);
            }
        }
        let at = s.index_of(k);
        assert(r[at] == k);
        assert forall|x: int| #[trigger] p.contains(x) implies r.contains(x) by {
            let w = p.index_of(x);
            if w < q.len() {
                assert(q[w] == x);
                assert(q.contains(x));
                let v = s.index_of(x);
                assert(r[v] == x);
            } else {
                assert(r[s.len() as int] == x);
            }
        }
    }
}

proof fn lemma_insert_members(keys: Seq<i128>, p: Seq<int>, k: int)
    ensures
        forall|x: int| #[trigger] insert_rank(keys, p, k).contains(x) ==> x == k || p.contains(x),
    decreases p.len(),
{
    let r = insert_rank(keys, p, k);
    assert forall|x: int| #[trigger] r.contains(x) implies x == k || p.contains(x) by {
        let i = r.index_of(x);
        if p.len() == 0 || keys[p.last()] >= keys[k] {
            if i < p.len() {
                assert(p[i] == x);
            }
        } else {
            lemma_insert_members(keys, p.drop_last(), k);
            let s = insert_rank(keys, p.drop_last(), k);
            if i < s.len() {
                assert(s[i] == x);
                assert(s.contains(x));
                if x != k {
                    let w = p.drop_last().index_of(x);
                    assert(p[w] == x);
                }
            } else {
                assert(p[p.len() - 1] == x);
            }
        }
    }
}

proof fn lemma_order_upto(keys: Seq<i128>, n: nat)
    requires
        n <= keys.len(),
    ensures
        order_upto(keys, n).len() == n,
        forall|i: int| 0 <= i < n ==> 0 <= #[trigger] order_upto(keys, n)[i] < n,
        forall|i: int, j: int|
            0 <= i < j < n ==> before(
                keys,
                #[trigger] order_upto(keys, n)[i],
                #[trigger] order_upto(keys, n)[j],
            ),
        forall|x: int| 0 <= x < n ==> #[trigger] order_upto(keys, n).contains(x),
    decreases n,
{
    if n > 0 {
        let m = (n - 1) as nat;
        lemma_order_upto(keys, m);
        lemma_insert_keeps(keys, order_upto(keys, m), m as int);
        assert forall|x: int| 0 <= x < n implies #[trigger] order_upto(keys, n).contains(x) by {
            if x < m {
                assert(order_upto(keys, m).contains(x));
            }
        }
    }
}

/// The order holds every position once, and of two positions the one with the
/// larger key comes first; positions with equal keys keep their order.
pub proof fn order_sorts(keys: Seq<i128>)
    ensures
        order_of(keys).len() == keys.len(),
        forall|i: int| 0 <= i < keys.len() ==> 0 <= #[trigger] order_of(keys)[i] < keys.len(),
        forall|i: int, j: int|
            0 <= i < j < keys.len() ==> before(
                keys,
                #[trigger] order_of(keys)[i],
                #[trigger] order_of(keys)[j],
            ),
        forall|x: int| 0 <= x < keys.len() ==> #[trigger] order_of(keys).contains(x),
{
    lemma_order_upto(keys, keys.len());
}

/// Ranking items by a worth gives items of the list, those of larger worth first; one that
/// the limit leaves out is worth no more than any that is given.
pub proof fn ranking_gives_the_best<T>(items: Seq<T>, keys: Seq<i128>, limit: int, worth: spec_fn(T) -> int)
    requires
        keys.len() == items.len(),
        forall|i: int| 0 <= i < items.len() ==> #[trigger] keys[i] == worth(items[i]),
        0 <= limit,
    ensures
        ranked(items, keys, limit).len() == (if limit < items.len() {
            limit
        } else {
            items.len() as int
        }),
        forall|i: int, j: int|
            0 <= i < j < ranked(items, keys, limit).len() ==> worth(
                #[trigger] ranked(items, keys, limit)[i],
            ) >= worth(#[trigger] ranked(items, keys, limit)[j]),
        forall|i: int|
            0 <= i < ranked(items, keys, limit).len() ==> items.contains(
                #[trigger] ranked(items, keys, limit)[i],
            ),
        forall|x: int, i: int|
            0 <= x < items.len() && 0 <= i < ranked(items, keys, limit).len() && !ranked(
                items,
                keys,
                limit,
            ).contains(#[trigger] items[x]) ==> worth(#[trigger] ranked(items, keys, limit)[i])
                >= worth(items[x]),
        limit >= items.len() ==> forall|x: int|
            0 <= x < items.len() ==> ranked(items, keys, limit).contains(#[trigger] items[x]),
{
    order_sorts(keys);
    let p = order_of(keys);
    let out = ranked(items, keys, limit);
    assert forall|i: int, j: int| 0 <= i < j < out.len() implies worth(#[trigger] out[i]) >= worth(
        #[trigger] out[j],
    ) by {
        assert(keys[p[i]] == worth(items[p[i]]) && keys[p[j]] == worth(items[p[j]]));
        assert(before(keys, p[i], p[j]));
    }
    assert forall|i: int| 0 <= i < out.len() implies items.contains(#[trigger] out[i]) by {
        assert(items[p[i]] == out[i]);
    }
    assert forall|x: int, i: int|
        0 <= x < items.len() && 0 <= i < out.len() && !out.contains(
            #[trigger] items[x],
        ) implies worth(#[trigger] out[i]) >= worth(items[x]) by {
        assert(p.contains(x));
        let k = p.index_of(x);
        if k < out.len() {
            assert(out[k] == items[x]);
        }
        assert(keys[p[i]] == worth(items[p[i]]) && keys[p[k]] == worth(items[p[k]]));
        assert(before(keys, p[i], p[k]));
    }
    if limit >= items.len() {
        assert forall|x: int| 0 <= x < items.len() implies out.contains(#[trigger] items[x]) by {
            assert(p.contains(x));
            assert(out[p.index_of(x)] == items[x]);
        }
    }
}

/// Ranking keeps the order of two items of the same worth.
pub proof fn ranking_is_stable<T>(items: Seq<T>, keys: Seq<i128>, limit: int, a: int, b: int, i: int, j: int)
    requires
        keys.len() == items.len(),
        items.no_duplicates(),
        0 <= limit,
        0 <= a < b < items.len(),
        keys[a] == keys[b],
        0 <= i < ranked(items, keys, limit).len(),
        0 <= j < ranked(items, keys, limit).len(),
        ranked(items, keys, limit)[i] == items[a],
        ranked(items, keys, limit)[j] == items[b],
    ensures
        i < j,
{
    order_sorts(keys);
    let p = order_of(keys);
    assert(p[i] == a && p[j] == b);
    if j < i {
        assert(before(keys, p[j], p[i]));
    }
}

/// The positions of a vector of indices.
pub open spec fn positions(v: Seq<usize>) -> Seq<int> {
    v.map_values(|i: usize| i as int)
}

/// The positions in the order of their keys, largest first.
pub fn order_desc(keys: &Vec<i128>) -> (out: Vec<usize>)
    ensures
        positions(out@) == order_of(keys@),
        out@.len() == keys@.len(),
        forall|i: int| 0 <= i < out@.len() ==> (#[trigger] out@[i]) < keys@.len(),
{
    let mut out: Vec<usize> = Vec::new();
    let mut k: usize = 0;
    assert(positions(out@) =~= order_upto(keys@, 0));
    while k < keys.len()
        invariant
            k <= keys@.len(),
            out@.len() == k,
            positions(out@) == order_upto(keys@, k as nat),
            forall|i: int| 0 <= i < out@.len() ==> (#[trigger] out@[i]) < k,
        decreases keys@.len() - k,
    {
        let mut j: usize = k;
        while j > 0 && keys[out[j - 1]] < keys[k]
            invariant
                j <= k < keys@.len(),
                out@.len() == k,
                forall|i: int| 0 <= i < out@.len() ==> (#[trigger] out@[i]) < k,
                forall|i: int| j <= i < k ==> keys@[(#[trigger] out@[i]) as int] < keys@[k as int],
            decreases j,
        {
            j -= 1;
        }
        proof {
            let p = positions(out@);
            assert forall|i: int| j <= i < p.len() implies keys@[#[trigger] p[i]]
                < keys@[k as int] by {
                assert(p[i] == out@[i] as int);
            }
            if j > 0 {
                assert(p[j - 1] == out@[j - 1] as int);
            }
            lemma_insert_rank(keys@, p, k as int, j as int);
        }
        let ghost prev = out@;
        out.insert(j, k);
        assert(positions(out@) =~= positions(prev).insert(j as int, k as int));
        k += 1;
        assert forall|i: int| 0 <= i < out@.len() implies (#[trigger] out@[i]) < k by {
            if i < j {
                assert(out@[i] == prev[i]);
            } else if i > j {
                assert(out@[i] == prev[i - 1]);
            }
        }
    }
    out
}

/// Copies of the first `limit` memories in the order of their keys.
pub fn rank_items(items: &[MemoryItem], keys: &Vec<i128>, limit: usize) -> (out: Vec<MemoryItem>)
    requires
        items@.len() == keys@.len(),
    ensures
        item_views(out@) == ranked(item_views(items@), keys@, limit as int),
{
    let p = order_desc(keys);
    let n: usize = if limit < p.len() {
        limit
    } else {
        p.len()
    };
    let ghost want = ranked(item_views(items@), keys@, limit as int);
    let mut out: Vec<MemoryItem> = Vec::new();
    let mut i: usize = 0;
    assert(item_views(out@) =~= want.take(0));
    while i < n
        invariant
            i <= n <= p@.len(),
            n == want.len(),
            items@.len() == keys@.len(),
            want == ranked(item_views(items@), keys@, limit as int),
            positions(p@) == order_of(keys@),
            p@.len() == keys@.len(),
            forall|k: int| 0 <= k < p@.len() ==> (#[trigger] p@[k]) < keys@.len(),
            item_views(out@) == want.take(i as int),
        decreases n - i,
    {
        let ghost prev = item_views(out@);
        let at: usize = p[i];
        out.push(items[at].clone());
        assert(positions(p@)[i as int] == at as int);
        assert(item_views(items@)[at as int] == items@[at as int]@);
        assert(want[i as int] == items@[at as int]@);
        assert(item_views(out@) =~= prev.push(want[i as int]));
        i += 1;
        assert(want.take(i as int) =~= want.take(i - 1).push(want[i - 1]));
    }
    assert(want.take(i as int) =~= want);
    out
}

} // verus!
