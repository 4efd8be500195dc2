//! Classic sorting routines — bubble sort, merge sort and quicksort with an
//! explicit partition step — together with three ways of computing Fibonacci
//! numbers. Each sort returns a non-decreasing rearrangement of its input:
//! the output holds exactly the input's elements, multiplicity included.

use vstd::prelude::*;
use vstd::seq_lib::group_to_multiset_ensures;
use vstd::seq_lib::lemma_multiset_commutative;
use vstd::seq_lib::to_multiset_update;

verus! {

/// A sequence is sorted when no earlier element exceeds a later one.
pub open spec fn sorted(s: Seq<i32>) -> bool {
    forall|i: int, j: int| 0 <= i <= j < s.len() ==> s[i] <= s[j]
}

/// The part of a sequence from `lo` up to (excluding) `hi` is sorted.
pub open spec fn sorted_between(s: Seq<i32>, lo: int, hi: int) -> bool {
    forall|i: int, j: int| lo <= i <= j < hi ==> s[i] <= s[j]
}

/// Exchanging two distinct positions of a sequence leaves its multiset of
/// elements unchanged.
proof fn lemma_swap_keeps_multiset(s: Seq<i32>, i: int, j: int)
    requires
        0 <= i < s.len(),
        0 <= j < s.len(),
        i != j,
    ensures
        s.update(i, s[j]).update(j, s[i]).to_multiset() == s.to_multiset(),
{
    broadcast use to_multiset_update;
    broadcast use vstd::multiset::group_multiset_axioms;
    broadcast use vstd::multiset::group_multiset_properties;
    broadcast use group_to_multiset_ensures;

    let s1 = s.update(i, s[j]);
    assert(s1[j] == s[j]);
    assert(s.contains(s[i]));
    assert(s1.contains(s1[j]));
    assert(s1.update(j, s[i]).to_multiset() =~= s.to_multiset());
}

/// Sorts the vector in place by repeatedly sweeping it and exchanging
/// adjacent elements that are out of order.
pub fn bubble_sort(v: &mut Vec<i32>)
    ensures
        sorted(final(v)@),
        final(v)@.to_multiset() == old(v)@.to_multiset(),
        final(v)@.len() == old(v)@.len(),
{
    let n = v.len();
    let mut pass: usize = 0;
    while pass < n
        invariant
            pass <= n,
            n == v@.len(),
            v@.to_multiset() == old(v)@.to_multiset(),
            sorted_between(v@, n - pass, n as int),
            forall|a: int, b: int| 0 <= a < n - pass <= b < n ==> v@[a] <= v@[b],
        decreases n - pass,
    {
        let m = n - pass;
        let mut i: usize = 1;
        while i < m
            invariant
                1 <= i,
                i <= m || m <= 1,
                m == n - pass,
                pass < n,
                n == v@.len(),
                v@.to_multiset() == old(v)@.to_multiset(),
                sorted_between(v@, m as int, n as int),
                forall|a: int, b: int| 0 <= a < m <= b < n ==> v@[a] <= v@[b],
                forall|k: int| 0 <= k < i ==> (#[trigger] v@[k]) <= v@[i - 1],
            decreases m - i,
        {
            let x = v[i - 1];
            let y = v[i];
            if x > y {
                let ghost before = v@;
                v[i - 1] = y;
                v[i] = x;
                proof {
                    lemma_swap_keeps_multiset(before, i - 1, i as int);
                }
            }
            i = i + 1;
        }
        pass = pass + 1;
    }
}

/// Joins two sorted vectors into one sorted vector holding the elements of
/// both, always taking the smaller of the two pending heads.
fn merge(left: Vec<i32>, right: Vec<i32>) -> (r: Vec<i32>)
    requires
        sorted(left@),
        sorted(right@),
    ensures
        sorted(r@),
        r@.to_multiset() == left@.to_multiset().add(right@.to_multiset()),
        r@.len() == left@.len() + right@.len(),
{
    broadcast use group_to_multiset_ensures;
    broadcast use vstd::multiset::group_multiset_axioms;
    broadcast use vstd::multiset::group_multiset_properties;

    let mut r: Vec<i32> = Vec::new();
    let mut i: usize = 0;
    let mut j: usize = 0;
    proof {
        assert(left@.subrange(0, 0) =~= Seq::<i32>::empty());
        assert(right@.subrange(0, 0) =~= Seq::<i32>::empty());
        assert(r@.to_multiset() =~= left@.subrange(0, 0).to_multiset().add(
            right@.subrange(0, 0).to_multiset(),
        ));
    }
    while i < left.len() || j < right.len()
        invariant
            i <= left@.len(),
            j <= right@.len(),
            sorted(left@),
            sorted(right@),
            sorted(r@),
            r@.len() == i + j,
            r@.to_multiset() == left@.subrange(0, i as int).to_multiset().add(
                right@.subrange(0, j as int).to_multiset(),
            ),
            forall|k: int, l: int|
                0 <= k < r@.len() && i <= l < left@.len() ==> (#[trigger] r@[k])
                    <= #[trigger] left@[l],
            forall|k: int, l: int|
                0 <= k < r@.len() && j <= l < right@.len() ==> (#[trigger] r@[k])
                    <= #[trigger] right@[l],
        decreases left@.len() + right@.len() - i - j,
    {
        let ghost r_prev = r@;
        if i < left.len() && (j >= right.len() || left[i] <= right[j]) {
            r.push(left[i]);
            proof {
                assert(left@.subrange(0, i + 1) =~= left@.subrange(0, i as int).push(
                    left@[i as int],
                ));
                vstd::seq_lib::to_multiset_build(r_prev, left@[i as int]);
                vstd::seq_lib::to_multiset_build(left@.subrange(0, i as int), left@[i as int]);
                assert(r@.to_multiset() =~= left@.subrange(0, i + 1).to_multiset().add(
                    right@.subrange(0, j as int).to_multiset(),
                ));
            }
            i = i + 1;
        } else {
            r.push(right[j]);
            proof {
                assert(right@.subrange(0, j + 1) =~= right@.subrange(0, j as int).push(
                    right@[j as int],
                ));
                vstd::seq_lib::to_multiset_build(r_prev, right@[j as int]);
                vstd::seq_lib::to_multiset_build(right@.subrange(0, j as int), right@[j as int]);
                assert(r@.to_multiset() =~= left@.subrange(0, i as int).to_multiset().add(
                    right@.subrange(0, j + 1).to_multiset(),
                ));
            }
            j = j + 1;
        }
    }
    proof {
        assert(left@.subrange(0, left@.len() as int) =~= left@);
        assert(right@.subrange(0, right@.len() as int) =~= right@);
    }
    r
}

/// Sorts by splitting the vector in half, sorting each half and merging the
/// two sorted halves.
pub fn merge_sort(v: Vec<i32>) -> (r: Vec<i32>)
    ensures
        sorted(r@),
        r@.to_multiset() == v@.to_multiset(),
        r@.len() == v@.len(),
    decreases v@.len(),
{
    if v.len() <= 1 {
        return v;
    }
    let ghost whole = v@;
    let mut l_half = v;
    let half = l_half.len() / 2;
    let r_half = l_half.split_off(half);
    proof {
        assert(whole =~= l_half@ + r_half@);
        lemma_multiset_commutative(l_half@, r_half@);
    }
    let l_sorted = merge_sort(l_half);
    let r_sorted = merge_sort(r_half);
    merge(l_sorted, r_sorted)
}

/// A part of a sequence splits at any interior point into two parts whose
/// multisets add up to the multiset of the whole part.
proof fn lemma_subrange_split_multiset(s: Seq<i32>, a: int, b: int, c: int)
    requires
        0 <= a <= b <= c <= s.len(),
    ensures
        s.subrange(a, c).to_multiset() == s.subrange(a, b).to_multiset().add(
            s.subrange(b, c).to_multiset(),
        ),
{
    assert(s.subrange(a, c) =~= s.subrange(a, b) + s.subrange(b, c));
    lemma_multiset_commutative(s.subrange(a, b), s.subrange(b, c));
}

/// Updating a position inside a window of a sequence is the same as taking
/// the window first and updating the corresponding position in it.
proof fn lemma_update_inside_subrange(s: Seq<i32>, lo: int, hi: int, x: int, a: i32)
    requires
        0 <= lo <= x < hi <= s.len(),
    ensures
        s.update(x, a).subrange(lo, hi) == s.subrange(lo, hi).update(x - lo, a),
{
    assert(s.update(x, a).subrange(lo, hi) =~= s.subrange(lo, hi).update(x - lo, a));
}

/// An upper bound on every element of a sequence carries over to any
/// sequence holding the same elements with the same multiplicities.
proof fn lemma_multiset_keeps_upper_bound(s1: Seq<i32>, s2: Seq<i32>, x: i32)
    requires
        s1.to_multiset() == s2.to_multiset(),
        forall|k: int| 0 <= k < s1.len() ==> s1[k] <= x,
    ensures
        forall|k: int| 0 <= k < s2.len() ==> s2[k] <= x,
{
    broadcast use group_to_multiset_ensures;

    assert forall|k: int| 0 <= k < s2.len() implies s2[k] <= x by {
        assert(s2.contains(s2[k]));
        vstd::seq_lib::to_multiset_contains(s2, s2[k]);
        vstd::seq_lib::to_multiset_contains(s1, s2[k]);
        assert(s1.contains(s2[k]));
        let w = choose|i: int| 0 <= i < s1.len() && s1[i] == s2[k];
        assert(s1[w] <= x);
    }
}

/// A lower bound on every element of a sequence carries over to any
/// sequence holding the same elements with the same multiplicities.
proof fn lemma_multiset_keeps_lower_bound(s1: Seq<i32>, s2: Seq<i32>, x: i32)
    requires
        s1.to_multiset() == s2.to_multiset(),
        forall|k: int| 0 <= k < s1.len() ==> s1[k] >= x,
    ensures
        forall|k: int| 0 <= k < s2.len() ==> s2[k] >= x,
{
    broadcast use group_to_multiset_ensures;

    assert forall|k: int| 0 <= k < s2.len() implies s2[k] >= x by {
        assert(s2.contains(s2[k]));
        vstd::seq_lib::to_multiset_contains(s2, s2[k]);
        vstd::seq_lib::to_multiset_contains(s1, s2[k]);
        assert(s1.contains(s2[k]));
        let w = choose|i: int| 0 <= i < s1.len() && s1[i] == s2[k];
        assert(s1[w] >= x);
    }
}

/// Partitions the window from `lo` up to `hi` around its first element:
/// smaller elements move in front of the pivot, the rest stay behind it.
/// Returns the pivot's final position, which then holds the window's
/// original first element.
fn pivot_range(v: &mut Vec<i32>, lo: usize, hi: usize) -> (p: usize)
    requires
        lo < hi <= old(v)@.len(),
    ensures
        lo <= p < hi,
        final(v)@.len() == old(v)@.len(),
        forall|k: int| 0 <= k < lo ==> final(v)@[k] == old(v)@[k],
        forall|k: int| hi <= k < old(v)@.len() ==> final(v)@[k] == old(v)@[k],
        final(v)@.subrange(lo as int, hi as int).to_multiset() == old(v)@.subrange(
            lo as int,
            hi as int,
        ).to_multiset(),
        final(v)@[p as int] == old(v)@[lo as int],
        forall|k: int| lo <= k < p ==> final(v)@[k] <= final(v)@[p as int],
        forall|k: int| p <= k < hi ==> final(v)@[k] >= final(v)@[p as int],
{
    let mut p: usize = lo;
    let mut i: usize = lo + 1;
    while i < hi
        invariant
            lo <= p < i <= hi <= v@.len(),
            v@.len() == old(v)@.len(),
            forall|k: int| 0 <= k < lo ==> v@[k] == old(v)@[k],
            forall|k: int| hi <= k < old(v)@.len() ==> v@[k] == old(v)@[k],
            v@.subrange(lo as int, hi as int).to_multiset() == old(v)@.subrange(
                lo as int,
                hi as int,
            ).to_multiset(),
            v@[p as int] == old(v)@[lo as int],
            forall|k: int| lo <= k < p ==> v@[k] <= v@[p as int],
            forall|k: int| p < k < i ==> v@[k] >= v@[p as int],
        decreases hi - i,
    {
        if v[i] < v[p] {
            let ghost s0 = v@;
            let b = v[p + 1];
            let c = v[i];
            v[p + 1] = c;
            v[i] = b;
            proof {
                lemma_update_inside_subrange(s0, lo as int, hi as int, p + 1, c);
                lemma_update_inside_subrange(
                    s0.update(p + 1, c),
                    lo as int,
                    hi as int,
                    i as int,
                    b,
                );
                if i > p + 1 {
                    lemma_swap_keeps_multiset(s0.subrange(lo as int, hi as int), p + 1 - lo, i - lo);
                } else {
                    assert(v@.subrange(lo as int, hi as int) =~= s0.subrange(lo as int, hi as int));
                }
            }
            let ghost s1 = v@;
            let a = v[p];
            let c2 = v[p + 1];
            v[p] = c2;
            v[p + 1] = a;
            proof {
                lemma_update_inside_subrange(s1, lo as int, hi as int, p as int, c2);
                lemma_update_inside_subrange(
                    s1.update(p as int, c2),
                    lo as int,
                    hi as int,
                    p + 1,
                    a,
                );
                lemma_swap_keeps_multiset(s1.subrange(lo as int, hi as int), p - lo, p + 1 - lo);
            }
            p = p + 1;
        }
        i = i + 1;
    }
    p
}

/// Partitions the whole vector around its first element and returns the
/// pivot's final position, which then holds that original first element:
/// every element in front of it is at most the pivot value and every element
/// at or behind it is at least the pivot value. An empty vector is left
/// untouched and the returned position is zero.
pub fn pivot(v: &mut Vec<i32>) -> (p: usize)
    ensures
        final(v)@.len() == old(v)@.len(),
        final(v)@.to_multiset() == old(v)@.to_multiset(),
        old(v)@.len() == 0 ==> p == 0 && final(v)@ == old(v)@,
        old(v)@.len() > 0 ==> p < old(v)@.len() && final(v)@[p as int] == old(v)@[0],
        forall|k: int| 0 <= k < p ==> final(v)@[k] <= final(v)@[p as int],
        forall|k: int| p <= k < final(v)@.len() ==> final(v)@[k] >= final(v)@[p as int],
{
    let n = v.len();
    if n == 0 {
        return 0;
    }
    let p = pivot_range(v, 0, n);
    proof {
        assert(old(v)@.subrange(0, n as int) =~= old(v)@);
        assert(v@.subrange(0, n as int) =~= v@);
    }
    p
}

/// Sorts the window from `lo` up to `hi` in place, leaving everything
/// outside the window untouched.
fn quick_sort_range(v: &mut Vec<i32>, lo: usize, hi: usize)
    requires
        lo <= hi <= old(v)@.len(),
    ensures
        final(v)@.len() == old(v)@.len(),
        forall|k: int| 0 <= k < lo ==> final(v)@[k] == old(v)@[k],
        forall|k: int| hi <= k < old(v)@.len() ==> final(v)@[k] == old(v)@[k],
        final(v)@.subrange(lo as int, hi as int).to_multiset() == old(v)@.subrange(
            lo as int,
            hi as int,
        ).to_multiset(),
        sorted_between(final(v)@, lo as int, hi as int),
    decreases hi - lo,
{
    if hi - lo <= 1 {
        return ;
    }
    let p = pivot_range(v, lo, hi);
    let ghost v1 = v@;
    quick_sort_range(v, lo, p);
    let ghost v2 = v@;
    quick_sort_range(v, p + 1, hi);
    proof {
        let l = lo as int;
        let h = hi as int;
        let q = p as int;
        // The pivot and the right part were untouched by the first recursive
        // call; the left part and the pivot were untouched by the second.
        assert(v2.subrange(q, h) =~= v1.subrange(q, h));
        assert(v@.subrange(l, q) =~= v2.subrange(l, q));
        assert(v2.subrange(q + 1, h) =~= v1.subrange(q + 1, h));
        assert(v@[q] == v1[q]);

        // The window's multiset is carried through both calls.
        lemma_subrange_split_multiset(v1, l, q, h);
        lemma_subrange_split_multiset(v2, l, q, h);
        lemma_subrange_split_multiset(v@, l, q, h);
        lemma_subrange_split_multiset(v2, q, q + 1, h);
        lemma_subrange_split_multiset(v@, q, q + 1, h);
        assert(v@.subrange(q, q + 1) =~= v2.subrange(q, q + 1));

        // Bounds against the pivot value survive rearrangement.
        assert(forall|k: int| l <= k < q ==> v1[k] <= v1[q]);
        assert(v1.subrange(l, q).to_multiset() == v2.subrange(l, q).to_multiset());
        assert(forall|k: int| 0 <= k < v1.subrange(l, q).len() ==> v1.subrange(l, q)[k] <= v1[q]);
        lemma_multiset_keeps_upper_bound(v1.subrange(l, q), v@.subrange(l, q), v1[q]);
        assert(forall|k: int|
            0 <= k < v1.subrange(q + 1, h).len() ==> (#[trigger] v1.subrange(q + 1, h)[k])
                >= v1[q]);
        assert(v@.subrange(q + 1, h).to_multiset() == v1.subrange(q + 1, h).to_multiset());
        lemma_multiset_keeps_lower_bound(v1.subrange(q + 1, h), v@.subrange(q + 1, h), v1[q]);

        assert forall|a: int, b: int| l <= a <= b < h implies v@[a] <= v@[b] by {
            if a < q {
                assert(v@.subrange(l, q)[a - l] == v@[a]);
                assert(v@[a] <= v1[q]);
            }
            if b > q {
                assert(v@.subrange(q + 1, h)[b - q - 1] == v@[b]);
                assert(v@[b] >= v1[q]);
            }
            if a < q && b < q {
                assert(sorted_between(v2, l, q));
                assert(v@[a] <= v@[b]);
            }
        }
    }
}

/// Sorts the vector in place: partition around a pivot, then sort the two
/// sides recursively.
pub fn quick_sort(v: &mut Vec<i32>)
    ensures
        sorted(final(v)@),
        final(v)@.to_multiset() == old(v)@.to_multiset(),
        final(v)@.len() == old(v)@.len(),
{
    let n = v.len();
    quick_sort_range(v, 0, n);
    proof {
        assert(old(v)@.subrange(0, n as int) =~= old(v)@);
        assert(v@.subrange(0, n as int) =~= v@);
    }
}

/// The value the Fibonacci routines compute: the sequence starting 1, 1, 2,
/// 3, 5, ..., taken as 1 everywhere at and below the first position.
pub open spec fn fib(n: int) -> nat
    decreases n,
{
    if n <= 1 {
        1
    } else {
        fib(n - 1) + fib(n - 2)
    }
}

/// Later Fibonacci numbers are never smaller than earlier ones.
pub proof fn lemma_fib_is_monotonic(a: int, b: int)
    requires
        a <= b,
    ensures
        fib(a) <= fib(b),
    decreases b - a,
{
    if a < b && b > 1 {
        lemma_fib_is_monotonic(a, b - 1);
        assert(fib(b) == fib(b - 1) + fib(b - 2));
    }
}

/// Computes the `n`-th Fibonacci number by plain double recursion; every
/// argument at or below one gives 1.
pub fn fibonaci(n: i32) -> (r: i32)
    requires
        fib(n as int) <= i32::MAX as int,
    ensures
        r as int == fib(n as int),
    decreases n,
{
    if n <= 1 {
        return 1;
    }
    proof {
        lemma_fib_is_monotonic(n as int - 1, n as int);
        lemma_fib_is_monotonic(n as int - 2, n as int);
    }
    fibonaci(n - 1) + fibonaci(n - 2)
}

/// Computes the `n`-th Fibonacci number iteratively; every argument at or
/// below one gives 1.
pub fn fibonaci_iter(n: i32) -> (r: i32)
    requires
        fib(n as int) <= i32::MAX as int,
    ensures
        r as int == fib(n as int),
{
    let mut a: i32 = 1;
    let mut b: i32 = 1;
    let mut res: i32 = 1;
    let mut i: i32 = 1;
    while i < n
        invariant
            1 <= i,
            i <= n || i == 1,
            fib(n as int) <= i32::MAX as int,
            a as int == fib(i as int - 1),
            b as int == fib(i as int),
            res as int == (if i == 1 {
                1int
            } else {
                fib(i as int) as int
            }),
        decreases n - i,
    {
        proof {
            lemma_fib_is_monotonic(i as int + 1, n as int);
        }
        res = a + b;
        a = b;
        b = res;
        i = i + 1;
    }
    res
}

/// Computes the pair of the `n`-th Fibonacci number and its predecessor in
/// the sequence (the predecessor of the first entry being 0), by a single
/// recursion that carries the pair along.
pub fn fibonacci_dynamic(n: i32) -> (r: (i32, i32))
    requires
        0 <= n,
        fib(n as int) <= i32::MAX as int,
    ensures
        r.0 as int == fib(n as int),
        r.1 as int == (if n == 0 {
            0int
        } else {
            fib(n as int - 1) as int
        }),
    decreases n,
{
    if n == 0 {
        return (1, 0);
    }
    proof {
        lemma_fib_is_monotonic(n as int - 1, n as int);
    }
    let (a, b) = fibonacci_dynamic(n - 1);
    (a + b, a)
}

} // verus!
