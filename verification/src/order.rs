//! Stable ordering by a numeric key.
//!
//! A stable sort by key places element `i` before element `j` exactly when
//! `key[i] < key[j]`, or the keys are equal and `i < j`.  That relation is a
//! strict total order on positions, so the sorted arrangement is unique; it
//! is computed here as a permutation of positions by a merge sort.

use vstd::prelude::*;
use vstd::set_lib::*;

verus! {

/// Position `i` comes before position `j` in the stable order by `keys`.
pub open spec fn key_before(keys: Seq<u128>, i: int, j: int) -> bool {
    keys[i] < keys[j] || (keys[i] == keys[j] && i < j)
}

/// `p` lists positions of `keys`, strictly increasing in the stable order.
pub open spec fn sorted_positions(keys: Seq<u128>, p: Seq<usize>) -> bool {
    &&& forall|i: int| 0 <= i < p.len() ==> #[trigger] p[i] < keys.len()
    &&& forall|i: int, j: int|
        0 <= i < j < p.len() ==> key_before(keys, #[trigger] p[i] as int, #[trigger] p[j] as int)
}

/// `p` is the stable order of all positions of `keys`.
pub open spec fn is_stable_order(keys: Seq<u128>, p: Seq<usize>) -> bool {
    &&& p.len() == keys.len()
    &&& sorted_positions(keys, p)
}

/// The stable order of the positions of `keys` (unique, see
/// [`lemma_stable_order_unique`]).
pub open spec fn stable_order_of(keys: Seq<u128>) -> Seq<usize> {
    choose|p: Seq<usize>| is_stable_order(keys, p)
}

/// `s` rearranged so that its `i`-th element is `s[p[i]]`.
pub open spec fn arrange<A>(s: Seq<A>, p: Seq<usize>) -> Seq<A> {
    Seq::new(p.len(), |i: int| s[p[i] as int])
}

/// `s` stably sorted by `keys` (one key per element).
pub open spec fn stably_sorted<A>(s: Seq<A>, keys: Seq<u128>) -> Seq<A> {
    arrange(s, stable_order_of(keys))
}

/// A stable order lists every position exactly once.
pub proof fn lemma_stable_order_covers(keys: Seq<u128>, p: Seq<usize>, x: int)
    requires
        is_stable_order(keys, p),
        0 <= x < keys.len(),
    ensures
        exists|i: int| 0 <= i < p.len() && p[i] == x,
{
    let q = p.map_values(|v: usize| v as int);
    assert forall|i: int, j: int| 0 <= i < q.len() && 0 <= j < q.len() && i != j implies q[i]
        != q[j] by {
        if i < j {
            assert(key_before(keys, p[i] as int, p[j] as int));
        } else {
            assert(key_before(keys, p[j] as int, p[i] as int));
        }
    }
    assert(q.no_duplicates());
    q.unique_seq_to_set();
    lemma_int_range(0, keys.len() as int);
    assert(q.to_set().subset_of(set_int_range(0, keys.len() as int))) by {
        assert forall|v: int| q.to_set().contains(v) implies set_int_range(
            0,
            keys.len() as int,
        ).contains(v) by {
            let k = choose|k: int| 0 <= k < q.len() && q[k] == v;
            assert(p[k] < keys.len());
        }
    }
    lemma_subset_equality(q.to_set(), set_int_range(0, keys.len() as int));
    assert(set_int_range(0, keys.len() as int).contains(x));
    assert(q.to_set().contains(x));
    let k = choose|k: int| 0 <= k < q.len() && q[k] == x;
    assert(p[k] == x);
}

/// There is only one stable order of a key sequence.
pub proof fn lemma_stable_order_unique(keys: Seq<u128>, p: Seq<usize>, q: Seq<usize>)
    requires
        is_stable_order(keys, p),
        is_stable_order(keys, q),
    ensures
        p == q,
{
    if p != q {
        assert(exists|m: int| 0 <= m < p.len() && p[m] != q[m]) by {
            if forall|m: int| 0 <= m < p.len() ==> p[m] == q[m] {
                assert(p =~= q);
            }
        }
        let m0 = choose|m: int| 0 <= m < p.len() && p[m] != q[m];
        lemma_first_difference(p, q, m0);
        let m = choose|m: int|
            0 <= m < p.len() && p[m] != q[m] && forall|k: int| 0 <= k < m ==> p[k] == q[k];
        let a = p[m] as int;
        let b = q[m] as int;
        if key_before(keys, a, b) {
            lemma_stable_order_covers(keys, q, a);
            let r = choose|r: int| 0 <= r < q.len() && q[r] == a;
            if r < m {
                assert(p[r] == q[r]);
                assert(key_before(keys, p[r] as int, p[m] as int));
            } else {
                assert(key_before(keys, q[m] as int, q[r] as int));
            }
        } else {
            assert(key_before(keys, b, a));
            lemma_stable_order_covers(keys, p, b);
            let r = choose|r: int| 0 <= r < p.len() && p[r] == b;
            if r < m {
                assert(p[r] == q[r]);
                assert(key_before(keys, q[r] as int, q[m] as int));
            } else {
                assert(key_before(keys, p[m] as int, p[r] as int));
            }
        }
    }
}

proof fn lemma_first_difference(p: Seq<usize>, q: Seq<usize>, m0: int)
    requires
        p.len() == q.len(),
        0 <= m0 < p.len(),
        p[m0] != q[m0],
    ensures
        exists|m: int|
            0 <= m < p.len() && p[m] != q[m] && forall|k: int| 0 <= k < m ==> p[k] == q[k],
    decreases m0,
{
    if exists|k: int| 0 <= k < m0 && p[k] != q[k] {
        let k = choose|k: int| 0 <= k < m0 && p[k] != q[k];
        lemma_first_difference(p, q, k);
    } else {
        assert(forall|k: int| 0 <= k < m0 ==> p[k] == q[k]);
    }
}

/// Any stable order is the one that [`stable_order_of`] names.
pub proof fn lemma_stable_order_is_chosen(keys: Seq<u128>, p: Seq<usize>)
    requires
        is_stable_order(keys, p),
    ensures
        stable_order_of(keys) == p,
{
    let c = stable_order_of(keys);
    assert(is_stable_order(keys, c));
    lemma_stable_order_unique(keys, p, c);
}

/// The first place in `p` whose key is above `k` (or the end).
spec fn first_above(keys: Seq<u128>, p: Seq<usize>, k: u128) -> int
    decreases p.len(),
{
    if p.len() == 0 {
        0
    } else if keys[p[0] as int] > k {
        0
    } else {
        first_above(keys, p.drop_first(), k) + 1
    }
}

proof fn lemma_first_above(keys: Seq<u128>, p: Seq<usize>, k: u128)
    requires
        forall|i: int| 0 <= i < p.len() ==> #[trigger] p[i] < keys.len(),
        forall|i: int, j: int| 0 <= i < j < p.len() ==> #[trigger] keys[p[i] as int] <= #[trigger] keys[p[j] as int],
    ensures
        0 <= first_above(keys, p, k) <= p.len(),
        forall|i: int| 0 <= i < first_above(keys, p, k) ==> #[trigger] keys[p[i] as int] <= k,
        forall|i: int| first_above(keys, p, k) <= i < p.len() ==> #[trigger] keys[p[i] as int] > k,
    decreases p.len(),
{
    if p.len() > 0 {
        let d = p.drop_first();
        assert forall|i: int, j: int| 0 <= i < j < d.len() implies #[trigger] keys[d[i] as int]
            <= #[trigger] keys[d[j] as int] by {
            assert(d[i] == p[i + 1] && d[j] == p[j + 1]);
        }
        lemma_first_above(keys, d, k);
        if keys[p[0] as int] > k {
            assert forall|i: int| 0 <= i < p.len() implies #[trigger] keys[p[i] as int] > k by {
                if i > 0 {
                    assert(keys[p[0] as int] <= keys[p[i] as int]);
                }
            }
        } else {
            assert forall|i: int| 0 <= i < first_above(keys, p, k) implies #[trigger] keys[p[i] as int]
                <= k by {
                if i > 0 {
                    assert(p[i] == d[i - 1]);
                }
            }
            assert forall|i: int| first_above(keys, p, k) <= i < p.len() implies #[trigger] keys[p[i] as int]
                > k by {
                assert(p[i] == d[i - 1]);
            }
        }
    }
}

/// Every key sequence has a stable order.
pub proof fn lemma_stable_order_exists(keys: Seq<u128>)
    requires
        keys.len() <= usize::MAX,
    ensures
        exists|p: Seq<usize>| is_stable_order(keys, p),
    decreases keys.len(),
{
    if keys.len() == 0 {
        assert(is_stable_order(keys, Seq::<usize>::empty()));
    } else {
        let n = keys.len() - 1;
        let front = keys.drop_last();
        lemma_stable_order_exists(front);
        let p0 = choose|p: Seq<usize>| is_stable_order(front, p);
        assert forall|i: int, j: int| 0 <= i < j < p0.len() implies #[trigger] keys[p0[i] as int]
            <= #[trigger] keys[p0[j] as int] by {
            assert(key_before(front, p0[i] as int, p0[j] as int));
        }
        assert(forall|i: int| 0 <= i < p0.len() ==> #[trigger] p0[i] < keys.len());
        let q = first_above(keys, p0, keys[n]);
        lemma_first_above(keys, p0, keys[n]);
        let p = p0.insert(q, n as usize);
        assert forall|i: int, j: int| 0 <= i < j < p.len() implies key_before(
            keys,
            #[trigger] p[i] as int,
            #[trigger] p[j] as int,
        ) by {
            if j < q {
                assert(key_before(front, p0[i] as int, p0[j] as int));
            } else if j == q {
                assert(p[j] == n);
                assert(keys[p0[i] as int] <= keys[n]);
                assert(p0[i] < n);
            } else if i < q {
                assert(p[j] == p0[j - 1]);
                assert(key_before(front, p0[i] as int, p0[j - 1] as int));
            } else if i == q {
                assert(p[j] == p0[j - 1]);
                assert(keys[p0[j - 1] as int] > keys[n]);
            } else {
                assert(key_before(front, p0[i - 1] as int, p0[j - 1] as int));
            }
        }
        assert(is_stable_order(keys, p));
    }
}

/// The chosen stable order of a key sequence is a stable order.
pub proof fn lemma_stable_order_of(keys: Seq<u128>)
    requires
        keys.len() <= usize::MAX,
    ensures
        is_stable_order(keys, stable_order_of(keys)),
{
    lemma_stable_order_exists(keys);
}

/// Merges two lists of positions, each in stable order, where every
/// position of the first list is smaller than every position of the second.
fn merge_positions(keys: &Vec<u128>, a: Vec<usize>, b: Vec<usize>, mid: usize) -> (r: Vec<usize>)
    requires
        sorted_positions(keys@, a@),
        sorted_positions(keys@, b@),
        forall|i: int| 0 <= i < a.len() ==> #[trigger] a[i] < mid,
        forall|i: int| 0 <= i < b.len() ==> #[trigger] b[i] >= mid,
        a.len() + b.len() <= usize::MAX,
    ensures
        sorted_positions(keys@, r@),
        r.len() == a.len() + b.len(),
        forall|x: usize| #[trigger] r@.contains(x) ==> a@.contains(x) || b@.contains(x),
{
    let mut r: Vec<usize> = Vec::new();
    let mut i: usize = 0;
    let mut j: usize = 0;
    while i < a.len() || j < b.len()
        invariant
            sorted_positions(keys@, a@),
            sorted_positions(keys@, b@),
            forall|k: int| 0 <= k < a.len() ==> #[trigger] a[k] < mid,
            forall|k: int| 0 <= k < b.len() ==> #[trigger] b[k] >= mid,
            a.len() + b.len() <= usize::MAX,
            i <= a.len(),
            j <= b.len(),
            r.len() == i + j,
            sorted_positions(keys@, r@),
            forall|u: int, w: int|
                0 <= u < r.len() && i <= w < a.len() ==> key_before(
                    keys@,
                    #[trigger] r[u] as int,
                    #[trigger] a[w] as int,
                ),
            forall|u: int, w: int|
                0 <= u < r.len() && j <= w < b.len() ==> key_before(
                    keys@,
                    #[trigger] r[u] as int,
                    #[trigger] b[w] as int,
                ),
            forall|x: usize| #[trigger]
                r@.contains(x) ==> a@.subrange(0, i as int).contains(x) || b@.subrange(
                    0,
                    j as int,
                ).contains(x),
        decreases a.len() + b.len() - i - j,
    {
        let take_a = if j >= b.len() {
            true
        } else if i >= a.len() {
            false
        } else {
            keys[a[i]] <= keys[b[j]]
        };
        let ghost old_r = r@;
        if take_a {
            let x = a[i];
            if j < b.len() {
                assert(key_before(keys@, x as int, b[j as int] as int));
            }
            assert forall|w: int| j <= w < b.len() implies key_before(
                keys@,
                x as int,
                #[trigger] b[w] as int,
            ) by {
                if w > j {
                    assert(key_before(keys@, b[j as int] as int, b[w] as int));
                }
            }
            r.push(x);
            assert(a@.subrange(0, i + 1) =~= a@.subrange(0, i as int).push(x));
            i = i + 1;
        } else {
            let x = b[j];
            if i < a.len() {
                assert(key_before(keys@, x as int, a[i as int] as int));
            }
            assert forall|w: int| i <= w < a.len() implies key_before(
                keys@,
                x as int,
                #[trigger] a[w] as int,
            ) by {
                if w > i {
                    assert(key_before(keys@, a[i as int] as int, a[w] as int));
                }
            }
            r.push(x);
            assert(b@.subrange(0, j + 1) =~= b@.subrange(0, j as int).push(x));
            j = j + 1;
        }
        assert forall|u: int, v: int| 0 <= u < v < r.len() implies key_before(
            keys@,
            #[trigger] r[u] as int,
            #[trigger] r[v] as int,
        ) by {
            if v < old_r.len() {
                assert(r[u] == old_r[u] && r[v] == old_r[v]);
            }
        }
        assert forall|x: usize| #[trigger]
            r@.contains(x) implies a@.subrange(0, i as int).contains(x) || b@.subrange(
                0,
                j as int,
            ).contains(x) by {
            let k = choose|k: int| 0 <= k < r.len() && r[k] == x;
            if k < old_r.len() {
                assert(old_r[k] == x);
                assert(old_r.contains(x));
            } else if take_a {
                assert(a@.subrange(0, i as int)[i - 1] == x);
            } else {
                assert(b@.subrange(0, j as int)[j - 1] == x);
            }
        }
    }
    assert(a@.subrange(0, i as int) =~= a@);
    assert(b@.subrange(0, j as int) =~= b@);
    r
}

/// The positions `lo..hi` of `keys`, in stable order.
fn sort_positions(keys: &Vec<u128>, lo: usize, hi: usize) -> (r: Vec<usize>)
    requires
        lo <= hi <= keys.len(),
    ensures
        sorted_positions(keys@, r@),
        r.len() == hi - lo,
        forall|i: int| 0 <= i < r.len() ==> lo <= #[trigger] r[i] < hi,
    decreases hi - lo,
{
    if hi - lo == 0 {
        Vec::new()
    } else if hi - lo == 1 {
        let mut r = Vec::new();
        r.push(lo);
        r
    } else {
        let mid = lo + (hi - lo) / 2;
        let a = sort_positions(keys, lo, mid);
        let b = sort_positions(keys, mid, hi);
        let ghost ga = a@;
        let ghost gb = b@;
        let r = merge_positions(keys, a, b, mid);
        assert forall|i: int| 0 <= i < r.len() implies lo <= #[trigger] r[i] < hi by {
            assert(r@.contains(r[i]));
            if ga.contains(r[i]) {
                let k = choose|k: int| 0 <= k < ga.len() && ga[k] == r[i];
                assert(lo <= ga[k] < mid);
            } else {
                let k = choose|k: int| 0 <= k < gb.len() && gb[k] == r[i];
                assert(mid <= gb[k] < hi);
            }
        }
        r
    }
}

/// The stable order of all positions of `keys`: position `i` comes before
/// position `j` when `keys[i] < keys[j]`, or the keys are equal and `i < j`.
pub fn stable_order(keys: &Vec<u128>) -> (r: Vec<usize>)
    ensures
        is_stable_order(keys@, r@),
        r@ == stable_order_of(keys@),
{
    let r = sort_positions(keys, 0, keys.len());
    proof {
        lemma_stable_order_is_chosen(keys@, r@);
    }
    r
}

} // verus!
