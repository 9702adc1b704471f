//! Stable sorting of a range of item numbers by key.

use vstd::prelude::*;
use crate::vec3::Scalar;

verus! {

/// Whether the item at place `a` of `out` comes before the item at place `b`:
/// by key first, and among equal keys by the place it came from.
pub open spec fn comes_before(
    keys: Seq<Scalar>,
    out: Seq<usize>,
    from: Seq<int>,
    a: int,
    b: int,
) -> bool {
    keys[out[a] as int] < keys[out[b] as int] || (keys[out[a] as int] == keys[out[b] as int]
        && from[a] < from[b])
}

/// Whether `out` holds the items of `items`, the item at place `a` taken from
/// place `from[a]` and the item of place `i` sent to place `to[i]`, in
/// ascending order of key, items of equal key in the order they had.
pub open spec fn arranges(
    from: Seq<int>,
    to: Seq<int>,
    out: Seq<usize>,
    items: Seq<usize>,
    keys: Seq<Scalar>,
) -> bool {
    let n = items.len() as int;
    &&& out.len() == n
    &&& from.len() == n
    &&& to.len() == n
    &&& forall|a: int| 0 <= a < n ==> 0 <= #[trigger] from[a] < n && out[a] == items[from[a]]
    &&& forall|i: int| 0 <= i < n ==> 0 <= #[trigger] to[i] < n && from[to[i]] == i
    &&& forall|a: int, b: int| 0 <= a < b < n ==> comes_before(keys, out, from, a, b)
}

/// Whether `out` is `items` sorted by key, stably.
pub open spec fn is_stable_sort(out: Seq<usize>, items: Seq<usize>, keys: Seq<Scalar>) -> bool {
    exists|from: Seq<int>, to: Seq<int>| arranges(from, to, out, items, keys)
}

/// Whether every item of `items` has a key.
pub open spec fn all_keyed(items: Seq<usize>, keys: Seq<Scalar>) -> bool {
    forall|i: int| 0 <= i < items.len() ==> #[trigger] items[i] < keys.len()
}

/// Whether the keys of `items` ascend.
pub open spec fn ascends(items: Seq<usize>, keys: Seq<Scalar>) -> bool {
    forall|a: int, b: int|
        0 <= a <= b < items.len() ==> keys[items[a] as int] <= keys[items[b] as int]
}

/// A stable sort keeps the items: each item of the input is in the output, and
/// each of the output was in the input.
pub proof fn lemma_sort_keeps_items(out: Seq<usize>, items: Seq<usize>, keys: Seq<Scalar>)
    requires
        is_stable_sort(out, items, keys),
    ensures
        out.len() == items.len(),
        forall|i: int| 0 <= i < items.len() ==> out.contains(#[trigger] items[i]),
        forall|a: int| 0 <= a < out.len() ==> items.contains(#[trigger] out[a]),
{
    let (from, to) = choose|from: Seq<int>, to: Seq<int>| arranges(from, to, out, items, keys);
    assert forall|i: int| 0 <= i < items.len() implies out.contains(#[trigger] items[i]) by {
        assert(from[to[i]] == i);
        assert(out[to[i]] == items[i]);
    }
    assert forall|a: int| 0 <= a < out.len() implies items.contains(#[trigger] out[a]) by {
        assert(out[a] == items[from[a]]);
    }
}

/// A stable sort leaves its output in ascending order of key.
pub proof fn lemma_sort_ascends(out: Seq<usize>, items: Seq<usize>, keys: Seq<Scalar>)
    requires
        is_stable_sort(out, items, keys),
    ensures
        ascends(out, keys),
{
    let (from, to) = choose|from: Seq<int>, to: Seq<int>| arranges(from, to, out, items, keys);
    assert forall|a: int, b: int| 0 <= a <= b < out.len() implies keys[out[a] as int]
        <= keys[out[b] as int] by {
        if a < b {
            assert(comes_before(keys, out, from, a, b));
        }
    }
}

/// Two stable arrangements of the same items that take their first `k` items
/// from the same places take the next one from the same place too.
proof fn lemma_next_place_is_same(
    fa: Seq<int>,
    ta: Seq<int>,
    a: Seq<usize>,
    fb: Seq<int>,
    tb: Seq<int>,
    b: Seq<usize>,
    items: Seq<usize>,
    keys: Seq<Scalar>,
    k: int,
)
    requires
        arranges(fa, ta, a, items, keys),
        arranges(fb, tb, b, items, keys),
        0 <= k < items.len(),
        forall|j: int| 0 <= j < k ==> fa[j] == fb[j],
    ensures
        fa[k] == fb[k],
{
    let p = fa[k];
    let q = fb[k];
    if p != q {
        let c = tb[p];
        let d = ta[q];
        assert(fb[c] == p && fa[d] == q);
        assert(a[k] == items[p] && b[k] == items[q]);
        assert(b[c] == items[fb[c]] && a[d] == items[fa[d]]);
        if c < k {
            assert(fa[c] == fb[c]);
            assert(a[c] == items[fa[c]]);
            assert(comes_before(keys, a, fa, c, k));
        } else if d < k {
            assert(fa[d] == fb[d]);
            assert(b[d] == items[fb[d]]);
            assert(comes_before(keys, b, fb, d, k));
        } else {
            assert(comes_before(keys, b, fb, k, c));
            assert(comes_before(keys, a, fa, k, d));
        }
    }
}

/// Two stable arrangements of the same items take their first `k` items from
/// the same places.
proof fn lemma_places_are_same(
    fa: Seq<int>,
    ta: Seq<int>,
    a: Seq<usize>,
    fb: Seq<int>,
    tb: Seq<int>,
    b: Seq<usize>,
    items: Seq<usize>,
    keys: Seq<Scalar>,
    k: int,
)
    requires
        arranges(fa, ta, a, items, keys),
        arranges(fb, tb, b, items, keys),
        0 <= k <= items.len(),
    ensures
        forall|j: int| 0 <= j < k ==> fa[j] == fb[j],
    decreases k,
{
    if k > 0 {
        lemma_places_are_same(fa, ta, a, fb, tb, b, items, keys, k - 1);
        lemma_next_place_is_same(fa, ta, a, fb, tb, b, items, keys, k - 1);
    }
}

/// There is one way to sort items stably: two stable sorts of the same items
/// by the same keys are the same.
pub proof fn lemma_stable_sort_is_unique(
    a: Seq<usize>,
    b: Seq<usize>,
    items: Seq<usize>,
    keys: Seq<Scalar>,
)
    requires
        is_stable_sort(a, items, keys),
        is_stable_sort(b, items, keys),
    ensures
        a == b,
{
    let (fa, ta) = choose|from: Seq<int>, to: Seq<int>| arranges(from, to, a, items, keys);
    let (fb, tb) = choose|from: Seq<int>, to: Seq<int>| arranges(from, to, b, items, keys);
    lemma_places_are_same(fa, ta, a, fb, tb, b, items, keys, items.len() as int);
    assert forall|j: int| 0 <= j < a.len() implies a[j] == b[j] by {
        assert(a[j] == items[fa[j]]);
        assert(b[j] == items[fb[j]]);
    }
    assert(a =~= b);
}

/// Whether some place of the output was filled from place `p`.
pub open spec fn filled_from(from: Seq<int>, p: int) -> bool {
    exists|a: int| 0 <= a < from.len() && #[trigger] from[a] == p
}

/// Sorting two runs stably, and then the two sorted runs put end to end, sorts
/// the two runs put end to end.
pub proof fn lemma_sort_of_sorted_halves(
    out: Seq<usize>,
    left: Seq<usize>,
    right: Seq<usize>,
    first: Seq<usize>,
    second: Seq<usize>,
    keys: Seq<Scalar>,
)
    requires
        is_stable_sort(left, first, keys),
        is_stable_sort(right, second, keys),
        is_stable_sort(out, left + right, keys),
    ensures
        is_stable_sort(out, first + second, keys),
{
    let (from_l, to_l) = choose|from: Seq<int>, to: Seq<int>| arranges(from, to, left, first, keys);
    let (from_r, to_r) = choose|from: Seq<int>, to: Seq<int>|
        arranges(from, to, right, second, keys);
    let (from_m, to_m) = choose|from: Seq<int>, to: Seq<int>|
        arranges(from, to, out, left + right, keys);
    let h = first.len() as int;
    let n = h + second.len();
    let mid = left + right;
    let items = first + second;
    let from = Seq::new(
        n as nat,
        |a: int|
            if from_m[a] < h {
                from_l[from_m[a]]
            } else {
                h + from_r[from_m[a] - h]
            },
    );
    let to = Seq::new(
        n as nat,
        |i: int|
            if i < h {
                to_m[to_l[i]]
            } else {
                to_m[h + to_r[i - h]]
            },
    );
    assert forall|a: int| 0 <= a < n implies 0 <= #[trigger] from[a] < n && out[a] == items[from[a]] by {
        let c = from_m[a];
        assert(out[a] == mid[c]);
        if c < h {
            assert(mid[c] == left[c]);
            assert(left[c] == first[from_l[c]]);
        } else {
            assert(mid[c] == right[c - h]);
            assert(right[c - h] == second[from_r[c - h]]);
        }
    }
    assert forall|i: int| 0 <= i < n implies 0 <= #[trigger] to[i] < n && from[to[i]] == i by {
        if i < h {
            let c = to_l[i];
            assert(from_l[c] == i);
            assert(from_m[to_m[c]] == c);
        } else {
            let c = to_r[i - h];
            assert(from_r[c] == i - h);
            assert(from_m[to_m[h + c]] == h + c);
        }
    }
    assert forall|a: int, b: int| 0 <= a < b < n implies comes_before(keys, out, from, a, b) by {
        assert(comes_before(keys, out, from_m, a, b));
        let ca = from_m[a];
        let cb = from_m[b];
        assert(out[a] == mid[ca] && out[b] == mid[cb]);
        if keys[out[a] as int] == keys[out[b] as int] {
            if cb < h {
                assert(mid[ca] == left[ca] && mid[cb] == left[cb]);
                assert(comes_before(keys, left, from_l, ca, cb));
            } else if ca >= h {
                assert(mid[ca] == right[ca - h] && mid[cb] == right[cb - h]);
                assert(comes_before(keys, right, from_r, ca - h, cb - h));
            } else {
                assert(from_l[ca] < h);
                assert(from_r[cb - h] >= 0);
            }
        }
    }
    assert(arranges(from, to, out, items, keys));
}

/// A run of at most one item is sorted.
pub proof fn lemma_short_is_sorted(items: Seq<usize>, keys: Seq<Scalar>)
    requires
        items.len() <= 1,
    ensures
        is_stable_sort(items, items, keys),
{
    let same = Seq::new(items.len(), |a: int| a);
    assert(arranges(same, same, items, items, keys));
}

/// Merges the runs `order[start..mid]` and `order[mid..end]`, whose keys
/// ascend, into one run in their place: in ascending order of key, and of two
/// items with the same key the one that stood first comes first.
pub fn merge(order: &mut Vec<usize>, keys: &Vec<Scalar>, start: usize, mid: usize, end: usize)
    requires
        start <= mid <= end <= old(order).len(),
        all_keyed(old(order)@.subrange(start as int, end as int), keys@),
        ascends(old(order)@.subrange(start as int, mid as int), keys@),
        ascends(old(order)@.subrange(mid as int, end as int), keys@),
    ensures
        final(order).len() == old(order).len(),
        forall|i: int|
            0 <= i < start || end <= i < old(order).len() ==> final(order)[i] == old(order)[i],
        is_stable_sort(
            final(order)@.subrange(start as int, end as int),
            old(order)@.subrange(start as int, end as int),
            keys@,
        ),
{
    let ghost items = order@.subrange(start as int, end as int);
    let ghost left = order@.subrange(start as int, mid as int);
    let ghost right = order@.subrange(mid as int, end as int);
    let ghost h = mid - start;
    let ghost n = end - start;
    let ghost mut from: Seq<int> = Seq::empty();
    let mut merged: Vec<usize> = Vec::new();
    let mut i: usize = start;
    let mut j: usize = mid;
    proof {
        assert(forall|a: int| 0 <= a < h ==> left[a] == items[a]);
        assert(forall|a: int| 0 <= a < n - h ==> right[a] == items[h + a]);
    }
    while i < mid || j < end
        invariant
            start <= i <= mid <= j <= end <= order.len(),
            order@ == old(order)@,
            items == order@.subrange(start as int, end as int),
            left == order@.subrange(start as int, mid as int),
            right == order@.subrange(mid as int, end as int),
            h == mid - start,
            n == end - start,
            all_keyed(items, keys@),
            ascends(left, keys@),
            ascends(right, keys@),
            merged.len() == (i - start) + (j - mid),
            from.len() == merged.len(),
            forall|a: int|
                0 <= a < merged.len() ==> 0 <= #[trigger] from[a] < n && merged[a]
                    == items[from[a]],
            // what was taken: the first `i - start` of the left run and the
            // first `j - mid` of the right run
            forall|a: int|
                0 <= a < merged.len() ==> (#[trigger] from[a] < i - start) || (h <= from[a] < h + (j
                    - mid)),
            forall|p: int|
                0 <= p < i - start || h <= p < h + (j - mid) ==> #[trigger] filled_from(from, p),
            forall|a: int, b: int|
                0 <= a < b < merged.len() ==> comes_before(keys@, merged@, from, a, b),
            // what was taken from one run does not belong behind what is
            // next in the other
            i < mid ==> forall|a: int|
                0 <= a < merged.len() && #[trigger] from[a] >= h ==> keys[merged[a] as int]
                    < keys[order[i as int] as int],
            j < end ==> forall|a: int|
                0 <= a < merged.len() && #[trigger] from[a] < h ==> keys[merged[a] as int]
                    <= keys[order[j as int] as int],
        decreases (mid - i) + (end - j),
    {
        proof {
            if i < mid {
                assert(items[i - start] == order[i as int]);
                assert(left[i - start] == order[i as int]);
            }
            if j < end {
                assert(items[j - start] == order[j as int]);
                assert(right[j - mid] == order[j as int]);
            }
        }
        let take_left = if i >= mid {
            false
        } else if j >= end {
            true
        } else {
            keys[order[i]] <= keys[order[j]]
        };
        let ghost before = merged@;
        let ghost from_before = from;
        if take_left {
            let x = order[i];
            merged.push(x);
            proof {
                let p = i - start;
                from = from.push(p);
                assert forall|a: int, b: int| 0 <= a < b < merged.len() implies comes_before(
                    keys@,
                    merged@,
                    from,
                    a,
                    b,
                ) by {
                    if b == merged.len() - 1 {
                        assert(merged[a] == before[a] && from[a] == from_before[a]);
                        if from_before[a] < h {
                            assert(left[from_before[a]] == items[from_before[a]]);
                        }
                    } else {
                        assert(comes_before(keys@, before, from_before, a, b));
                    }
                }
                assert forall|q: int|
                    0 <= q < i + 1 - start || h <= q < h + (j - mid) implies #[trigger] filled_from(
                    from,
                    q,
                ) by {
                    if q == p {
                        assert(from[merged.len() - 1] == p);
                    } else {
                        assert(filled_from(from_before, q));
                        let a = choose|a: int|
                            0 <= a < from_before.len() && #[trigger] from_before[a] == q;
                        assert(from[a] == q);
                    }
                }
                if i + 1 < mid {
                    assert(left[i + 1 - start] == order[i + 1]);
                    assert forall|a: int|
                        0 <= a < merged.len() && #[trigger] from[a] >= h implies keys[merged[a] as int]
                        < keys[order[i + 1] as int] by {
                        assert(from_before[a] == from[a]);
                    }
                }
                if j < end {
                    assert forall|a: int|
                        0 <= a < merged.len() && #[trigger] from[a] < h implies keys[merged[a] as int]
                        <= keys[order[j as int] as int] by {
                        if a < before.len() {
                            assert(from_before[a] == from[a]);
                        }
                    }
                }
            }
            i = i + 1;
        } else {
            let x = order[j];
            merged.push(x);
            proof {
                let p = h + (j - mid);
                from = from.push(p);
                assert forall|a: int, b: int| 0 <= a < b < merged.len() implies comes_before(
                    keys@,
                    merged@,
                    from,
                    a,
                    b,
                ) by {
                    if b == merged.len() - 1 {
                        assert(merged[a] == before[a] && from[a] == from_before[a]);
                        if from_before[a] >= h {
                            assert(right[from_before[a] - h] == items[from_before[a]]);
                        }
                    } else {
                        assert(comes_before(keys@, before, from_before, a, b));
                    }
                }
                assert forall|q: int|
                    0 <= q < i - start || h <= q < h + (j + 1 - mid) implies #[trigger] filled_from(
                    from,
                    q,
                ) by {
                    if q == p {
                        assert(from[merged.len() - 1] == p);
                    } else {
                        assert(filled_from(from_before, q));
                        let a = choose|a: int|
                            0 <= a < from_before.len() && #[trigger] from_before[a] == q;
                        assert(from[a] == q);
                    }
                }
                if j + 1 < end {
                    assert(right[j + 1 - mid] == order[j + 1]);
                    assert forall|a: int|
                        0 <= a < merged.len() && #[trigger] from[a] < h implies keys[merged[a] as int]
                        <= keys[order[j + 1] as int] by {
                        assert(from_before[a] == from[a]);
                    }
                }
                if i < mid {
                    assert forall|a: int|
                        0 <= a < merged.len() && #[trigger] from[a] >= h implies keys[merged[a] as int]
                        < keys[order[i as int] as int] by {
                        if a < before.len() {
                            assert(from_before[a] == from[a]);
                        }
                    }
                }
            }
            j = j + 1;
        }
    }
    proof {
        let to = Seq::new(n as nat, |p: int| choose|a: int| 0 <= a < n && #[trigger] from[a] == p);
        assert forall|p: int| 0 <= p < n implies 0 <= #[trigger] to[p] < n && from[to[p]] == p by {
            assert(0 <= p < i - start || h <= p < h + (j - mid));
            assert(filled_from(from, p));
        }
        assert(arranges(from, to, merged@, items, keys@));
    }
    let mut k: usize = 0;
    while k < end - start
        invariant
            start <= end <= order.len(),
            order.len() == old(order).len(),
            merged.len() == end - start,
            k <= end - start,
            forall|a: int|
                0 <= a < start || start + k <= a < order.len() ==> order[a] == old(order)[a],
            forall|a: int| 0 <= a < k ==> order[start + a] == merged[a],
        decreases end - start - k,
    {
        order.set(start + k, merged[k]);
        k = k + 1;
    }
    proof {
        assert(order@.subrange(start as int, end as int) =~= merged@);
    }
}

/// Sorts `order[start..end]` by key, stably, and leaves the rest of `order`
/// as it was: each half is sorted, and the two are merged.
pub fn sort_range(order: &mut Vec<usize>, keys: &Vec<Scalar>, start: usize, end: usize)
    requires
        start <= end <= old(order).len(),
        all_keyed(old(order)@.subrange(start as int, end as int), keys@),
    ensures
        final(order).len() == old(order).len(),
        forall|i: int|
            0 <= i < start || end <= i < old(order).len() ==> final(order)[i] == old(order)[i],
        is_stable_sort(
            final(order)@.subrange(start as int, end as int),
            old(order)@.subrange(start as int, end as int),
            keys@,
        ),
    decreases end - start,
{
    let ghost items = order@.subrange(start as int, end as int);
    if end - start <= 1 {
        proof {
            lemma_short_is_sorted(items, keys@);
        }
        return ;
    }
    let mid = start + (end - start) / 2;
    let ghost first = order@.subrange(start as int, mid as int);
    let ghost second = order@.subrange(mid as int, end as int);
    proof {
        assert forall|i: int| 0 <= i < first.len() implies #[trigger] first[i] < keys@.len() by {
            assert(first[i] == items[i]);
        }
        assert forall|i: int| 0 <= i < second.len() implies #[trigger] second[i] < keys@.len() by {
            assert(second[i] == items[mid - start + i]);
        }
    }
    sort_range(order, keys, start, mid);
    let ghost left = order@.subrange(start as int, mid as int);
    proof {
        assert(order@.subrange(mid as int, end as int) =~= second);
    }
    sort_range(order, keys, mid, end);
    let ghost right = order@.subrange(mid as int, end as int);
    let ghost halves = order@.subrange(start as int, end as int);
    proof {
        assert(order@.subrange(start as int, mid as int) =~= left);
        lemma_sort_ascends(left, first, keys@);
        lemma_sort_ascends(right, second, keys@);
        lemma_sort_keeps_items(left, first, keys@);
        lemma_sort_keeps_items(right, second, keys@);
        assert(halves =~= left + right);
        assert(items =~= first + second);
        assert forall|i: int| 0 <= i < halves.len() implies #[trigger] halves[i] < keys@.len() by {
            if i < left.len() {
                assert(first.contains(left[i]));
            } else {
                assert(second.contains(right[i - left.len()]));
            }
        }
    }
    merge(order, keys, start, mid, end);
    proof {
        lemma_sort_of_sorted_halves(
            order@.subrange(start as int, end as int),
            left,
            right,
            first,
            second,
            keys@,
        );
    }
}

} // verus!
