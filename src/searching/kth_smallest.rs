use vstd::multiset::Multiset;
use vstd::prelude::*;
use vstd::relations::{sorted_by, total_ordering};
use vstd::std_specs::cmp::PartialOrdSpec;
use core::cmp::Ordering;

verus! {

broadcast use {vstd::seq_lib::group_to_multiset_ensures, vstd::multiset::group_multiset_axioms};

/// `a` is at most `b` under the element type's comparison.
pub open spec fn leq<T: PartialOrd>(a: T, b: T) -> bool {
    a.partial_cmp_spec(&b) matches Some(Ordering::Less | Ordering::Equal)
}

/// The comparison of the element type, as a relation.
pub open spec fn order<T: PartialOrd>() -> spec_fn(T, T) -> bool {
    |a: T, b: T| leq(a, b)
}

/// `<=` on `T` agrees with `partial_cmp_spec`, any two elements are
/// comparable, and the order is transitive.
pub open spec fn is_total_preorder<T: PartialOrd>() -> bool {
    &&& T::obeys_partial_cmp_spec()
    &&& forall|a: T, b: T| #[trigger] leq(a, b) || #[trigger] leq(b, a)
    &&& forall|a: T, b: T, c: T| #[trigger] leq(a, b) && #[trigger] leq(b, c) ==> leq(a, c)
}

/// As `is_total_preorder`, and elements that compare both ways are the same value.
pub open spec fn is_total_order<T: PartialOrd>() -> bool {
    &&& T::obeys_partial_cmp_spec()
    &&& total_ordering(order::<T>())
}

/// Inside `[left, right]`, every element before `p` is at most `s[p]` and
/// every element after `p` is at least `s[p]`.
pub open spec fn partitioned_at<T: PartialOrd>(s: Seq<T>, left: int, p: int, right: int) -> bool {
    &&& forall|x: int| left <= x < p ==> leq(#[trigger] s[x], s[p])
    &&& forall|x: int| p < x <= right ==> leq(s[p], #[trigger] s[x])
}

/// `after` holds the elements of `before` with those of `[left, right]`
/// reordered among themselves and all others in place.
pub open spec fn permutes_range<T>(before: Seq<T>, after: Seq<T>, left: int, right: int) -> bool {
    &&& after.len() == before.len()
    &&& after.subrange(left, right + 1).to_multiset() =~= before.subrange(left, right + 1).to_multiset()
    &&& forall|x: int|
        0 <= x < before.len() && !(left <= x <= right) ==> after[x] == before[x]
}

proof fn lemma_total_order_is_total_preorder<T: PartialOrd>()
    requires
        is_total_order::<T>(),
    ensures
        is_total_preorder::<T>(),
{
    assert forall|a: T, b: T| #[trigger] leq(a, b) || #[trigger] leq(b, a) by {
        assert(order::<T>()(a, b) || order::<T>()(b, a));
    }
    assert forall|a: T, b: T, c: T| #[trigger] leq(a, b) && #[trigger] leq(b, c) implies leq(a, c) by {
        assert(order::<T>()(a, b) && order::<T>()(b, c) ==> order::<T>()(a, c));
    }
}

/// Exchanging two elements of `[left, right]` reorders that range and nothing else.
proof fn lemma_swap_permutes<T>(s: Seq<T>, i: int, j: int, left: int, right: int)
    requires
        0 <= left <= i <= right < s.len(),
        left <= j <= right,
    ensures
        permutes_range(s, s.update(i, s[j]).update(j, s[i]), left, right),
{
    let t = s.update(i, s[j]);
    let u = t.update(j, s[i]);
    let sub = s.subrange(left, right + 1);
    assert(t.subrange(left, right + 1) =~= sub.update(i - left, s[j]));
    assert(u.subrange(left, right + 1) =~= t.subrange(left, right + 1).update(j - left, s[i]));
}

/// A range's reordering is also one of any range that contains it.
proof fn lemma_permutes_widen<T>(a: Seq<T>, b: Seq<T>, l2: int, r2: int, left: int, right: int)
    requires
        permutes_range(a, b, l2, r2),
        0 <= left <= l2,
        l2 <= r2 + 1,
        r2 <= right < a.len(),
    ensures
        permutes_range(a, b, left, right),
{
    let a1 = a.subrange(left, l2);
    let a2 = a.subrange(l2, r2 + 1);
    let a3 = a.subrange(r2 + 1, right + 1);
    let b1 = b.subrange(left, l2);
    let b2 = b.subrange(l2, r2 + 1);
    let b3 = b.subrange(r2 + 1, right + 1);
    assert(a1 =~= b1);
    assert(a3 =~= b3);
    assert(a.subrange(left, right + 1) =~= a1 + a2 + a3);
    assert(b.subrange(left, right + 1) =~= b1 + b2 + b3);
    vstd::seq_lib::lemma_multiset_commutative(a1 + a2, a3);
    vstd::seq_lib::lemma_multiset_commutative(a1, a2);
    vstd::seq_lib::lemma_multiset_commutative(b1 + b2, b3);
    vstd::seq_lib::lemma_multiset_commutative(b1, b2);
}

/// An element of a reordered range was somewhere in that range before.
proof fn lemma_permuted_member<T>(a: Seq<T>, b: Seq<T>, left: int, right: int, x: int) -> (y: int)
    requires
        permutes_range(a, b, left, right),
        0 <= left <= x <= right < a.len(),
    ensures
        left <= y <= right,
        b[x] == a[y],
{
    let sa = a.subrange(left, right + 1);
    let sb = b.subrange(left, right + 1);
    assert(sb[x - left] == b[x]);
    assert(sb.contains(b[x]));
    assert(sb.to_multiset().count(b[x]) > 0);
    assert(sa.contains(b[x]));
    let z = choose|z: int| 0 <= z < sa.len() && sa[z] == b[x];
    left + z
}

/// How many elements of `s` satisfy `f`.
pub open spec fn count_where<T>(s: Seq<T>, f: spec_fn(T) -> bool) -> nat
    decreases s.len(),
{
    if s.len() == 0 {
        0
    } else {
        count_where(s.drop_last(), f) + if f(s.last()) {
            1nat
        } else {
            0nat
        }
    }
}

proof fn lemma_count_concat<T>(a: Seq<T>, b: Seq<T>, f: spec_fn(T) -> bool)
    ensures
        count_where(a + b, f) == count_where(a, f) + count_where(b, f),
    decreases b.len(),
{
    if b.len() == 0 {
        assert(a + b =~= a);
    } else {
        assert((a + b).drop_last() =~= a + b.drop_last());
        lemma_count_concat(a, b.drop_last(), f);
    }
}

proof fn lemma_count_bounds<T>(s: Seq<T>, f: spec_fn(T) -> bool)
    ensures
        count_where(s, f) <= s.len(),
        (forall|i: int| 0 <= i < s.len() ==> f(#[trigger] s[i])) ==> count_where(s, f) == s.len(),
        (forall|i: int| 0 <= i < s.len() ==> !f(#[trigger] s[i])) ==> count_where(s, f) == 0,
    decreases s.len(),
{
    if s.len() > 0 {
        lemma_count_bounds(s.drop_last(), f);
        if forall|i: int| 0 <= i < s.len() ==> f(#[trigger] s[i]) {
            assert(f(s[s.len() - 1]));
            assert forall|i: int| 0 <= i < s.drop_last().len() implies f(#[trigger] s.drop_last()[i]) by {
                assert(f(s[i]));
            }
        }
        if forall|i: int| 0 <= i < s.len() ==> !f(#[trigger] s[i]) {
            assert(!f(s[s.len() - 1]));
            assert forall|i: int| 0 <= i < s.drop_last().len() implies !f(#[trigger] s.drop_last()[i]) by {
                assert(!f(s[i]));
            }
        }
    }
}

/// The count depends on the multiset of elements alone.
proof fn lemma_count_multiset<T>(s: Seq<T>, f: spec_fn(T) -> bool)
    ensures
        count_where(s, f) == s.to_multiset().filter(f).len(),
    decreases s.len(),
{
    if s.len() == 0 {
        assert(s.to_multiset().filter(f) =~= Multiset::empty());
    } else {
        let init = s.drop_last();
        let x = s.last();
        lemma_count_multiset(init, f);
        assert(s =~= init.push(x));
        if f(x) {
            assert(s.to_multiset().filter(f) =~= init.to_multiset().filter(f).insert(x));
        } else {
            assert(s.to_multiset().filter(f) =~= init.to_multiset().filter(f));
        }
    }
}

/// A sorted sequence and a sequence partitioned at `m`, holding the same
/// elements, agree at `m`.
proof fn lemma_sorted_agrees_at_partition<T: PartialOrd>(t: Seq<T>, u: Seq<T>, m: int)
    requires
        total_ordering(order::<T>()),
        sorted_by(t, order::<T>()),
        t.to_multiset() =~= u.to_multiset(),
        0 <= m < u.len(),
        partitioned_at(u, 0, m, u.len() - 1),
    ensures
        t.len() == u.len(),
        t[m] == u[m],
{
    let n = u.len() as int;
    assert(t.len() == t.to_multiset().len());
    let r = u[m];
    let y = t[m];
    assert(order::<T>()(r, r));
    if y != r {
        if !leq(r, y) {
            let f = |x: T| !leq(r, x);
            assert(t =~= t.subrange(0, m + 1) + t.subrange(m + 1, n));
            lemma_count_concat(t.subrange(0, m + 1), t.subrange(m + 1, n), f);
            assert forall|i: int| 0 <= i < m + 1 implies f(#[trigger] t.subrange(0, m + 1)[i]) by {
                let ti = t[i];
                if i < m {
                    assert(order::<T>()(ti, y));
                } else {
                    assert(order::<T>()(y, y));
                }
                if leq(r, ti) {
                    assert(order::<T>()(r, ti) && order::<T>()(ti, y));
                }
            }
            lemma_count_bounds(t.subrange(0, m + 1), f);
            assert(u =~= u.subrange(0, m) + u.subrange(m, n));
            lemma_count_concat(u.subrange(0, m), u.subrange(m, n), f);
            assert forall|i: int| 0 <= i < n - m implies !f(#[trigger] u.subrange(m, n)[i]) by {
                if i > 0 {
                    assert(leq(r, u[m + i]));
                }
            }
            lemma_count_bounds(u.subrange(0, m), f);
            lemma_count_bounds(u.subrange(m, n), f);
            lemma_count_multiset(t, f);
            lemma_count_multiset(u, f);
        } else {
            assert(!leq(y, r)) by {
                assert(order::<T>()(r, y) && order::<T>()(y, r) ==> r == y);
            }
            let f = |x: T| leq(x, r);
            assert(t =~= t.subrange(0, m) + t.subrange(m, n));
            lemma_count_concat(t.subrange(0, m), t.subrange(m, n), f);
            assert forall|i: int| 0 <= i < n - m implies !f(#[trigger] t.subrange(m, n)[i]) by {
                let ti = t[m + i];
                if i > 0 {
                    assert(order::<T>()(y, ti));
                }
                if leq(ti, r) {
                    assert(order::<T>()(y, ti) && order::<T>()(ti, r));
                }
            }
            lemma_count_bounds(t.subrange(0, m), f);
            lemma_count_bounds(t.subrange(m, n), f);
            assert(u =~= u.subrange(0, m + 1) + u.subrange(m + 1, n));
            lemma_count_concat(u.subrange(0, m + 1), u.subrange(m + 1, n), f);
            assert forall|i: int| 0 <= i < m + 1 implies f(#[trigger] u.subrange(0, m + 1)[i]) by {
                if i < m {
                    assert(leq(u[i], r));
                }
            }
            lemma_count_bounds(u.subrange(0, m + 1), f);
            lemma_count_multiset(t, f);
            lemma_count_multiset(u, f);
        }
    }
}

fn swap_elements<T: Copy>(arr: &mut [T], i: usize, j: usize)
    requires
        i < old(arr)@.len(),
        j < old(arr)@.len(),
    ensures
        final(arr)@ == old(arr)@.update(i as int, old(arr)@[j as int]).update(
            j as int,
            old(arr)@[i as int],
        ),
{
    let a = arr[i];
    let b = arr[j];
    arr[i] = b;
    arr[j] = a;
}

/// Rearranges `arr[left..=right]` around its first element, the pivot, and
/// returns the pivot's new position: elements at most the pivot come before
/// it, the others after it.
pub fn partition<T: PartialOrd + Copy>(arr: &mut [T], left: usize, right: usize) -> (p: usize)
    requires
        left < right < old(arr)@.len(),
    ensures
        left <= p <= right,
        permutes_range(old(arr)@, final(arr)@, left as int, right as int),
        final(arr)@[p as int] == old(arr)@[left as int],
        T::obeys_partial_cmp_spec() ==> forall|x: int|
            left <= x < p ==> leq(#[trigger] final(arr)@[x], final(arr)@[p as int]),
        T::obeys_partial_cmp_spec() ==> forall|x: int|
            p < x <= right ==> !leq(#[trigger] final(arr)@[x], final(arr)@[p as int]),
        is_total_preorder::<T>() ==> partitioned_at(final(arr)@, left as int, p as int, right as int),
{
    let ghost pivot = arr@[left as int];
    let mut i: usize = left;
    let mut j: usize = left + 1;
    while j <= right
        invariant
            left <= i < j <= right + 1,
            right < arr@.len(),
            arr@[left as int] == pivot,
            pivot == old(arr)@[left as int],
            permutes_range(old(arr)@, arr@, left as int, right as int),
            T::obeys_partial_cmp_spec() ==> forall|x: int|
                left < x <= i ==> leq(#[trigger] arr@[x], pivot),
            T::obeys_partial_cmp_spec() ==> forall|x: int|
                i < x < j ==> !leq(#[trigger] arr@[x], pivot),
        decreases right + 1 - j,
    {
        if arr[j] <= arr[left] {
            i = i + 1;
            proof {
                lemma_swap_permutes(arr@, i as int, j as int, left as int, right as int);
            }
            swap_elements(arr, i, j);
        }
        j = j + 1;
    }
    proof {
        lemma_swap_permutes(arr@, i as int, left as int, left as int, right as int);
    }
    swap_elements(arr, i, left);
    i
}

/// The element of rank `k` (1-based) among `arr[left..=right]`. The range is
/// reordered so that this element lands at position `left + k - 1`, with the
/// range partitioned around it.
fn find_kth_smallest<T: PartialOrd + Copy>(arr: &mut [T], k: usize, left: usize, right: usize) -> (r: T)
    requires
        left <= right < old(arr)@.len(),
        1 <= k <= right - left + 1,
    ensures
        permutes_range(old(arr)@, final(arr)@, left as int, right as int),
        r == final(arr)@[left + k - 1],
        is_total_preorder::<T>() ==> partitioned_at(
            final(arr)@,
            left as int,
            left + k - 1,
            right as int,
        ),
    decreases right - left,
{
    if left == right {
        return arr[left];
    }
    let pivot = partition(arr, left, right);
    let ghost mid = arr@;
    // the pivot's 1-based rank within the range is `before + 1`
    let before: usize = pivot - left;
    if k - 1 == before {
        arr[pivot]
    } else if k - 1 < before {
        let r = find_kth_smallest(arr, k, left, pivot - 1);
        proof {
            lemma_permutes_widen(mid, arr@, left as int, pivot - 1, left as int, right as int);
            if is_total_preorder::<T>() {
                let m = left + k - 1;
                let y = lemma_permuted_member(mid, arr@, left as int, pivot - 1, m);
                assert(leq(arr@[m], mid[pivot as int]));
                assert forall|x: int| m < x <= right implies leq(arr@[m], #[trigger] arr@[x]) by {
                    if x >= pivot {
                        assert(arr@[x] == mid[x]);
                        if x > pivot {
                            assert(leq(mid[pivot as int], mid[x]));
                        }
                    }
                }
            }
        }
        r
    } else {
        let r = find_kth_smallest(arr, k - 1 - before, pivot + 1, right);
        proof {
            lemma_permutes_widen(mid, arr@, pivot + 1, right as int, left as int, right as int);
            if is_total_preorder::<T>() {
                let m = left + k - 1;
                let y = lemma_permuted_member(mid, arr@, pivot + 1, right as int, m);
                assert(leq(mid[pivot as int], arr@[m]));
                assert forall|x: int| left <= x < m implies leq(#[trigger] arr@[x], arr@[m]) by {
                    if x <= pivot {
                        assert(arr@[x] == mid[x]);
                        if x < pivot {
                            assert(leq(mid[x], mid[pivot as int]));
                        }
                    }
                }
            }
        }
        r
    }
}

/// The `k`-th smallest element of `arr` (`k == 1` is the minimum), found by
/// partitioning one side at a time; `None` when `k` is 0 or exceeds the length.
/// `arr` is left reordered, with that element at position `k - 1` and the
/// rest partitioned around it. Where the order is total, the result is the
/// element at position `k - 1` of a sorted copy of the original `arr`.
pub fn kth_smallest<T: PartialOrd + Copy>(k: usize, arr: &mut [T]) -> (r: Option<T>)
    ensures
        final(arr)@.to_multiset() =~= old(arr)@.to_multiset(),
        final(arr)@.len() == old(arr)@.len(),
        r is None <==> (k == 0 || k > old(arr)@.len()),
        r is None ==> final(arr)@ == old(arr)@,
        r matches Some(v) ==> v == final(arr)@[k - 1],
        r is Some && is_total_preorder::<T>() ==> partitioned_at(
            final(arr)@,
            0,
            k - 1,
            final(arr)@.len() - 1,
        ),
        r is Some && is_total_order::<T>() ==> r == Some(old(arr)@.sort_by(order::<T>())[k - 1]),
{
    if k == 0 || k > arr.len() {
        return None;
    }
    let n = arr.len();
    let r = find_kth_smallest(arr, k, 0, n - 1);
    proof {
        assert(arr@.subrange(0, n as int) =~= arr@);
        assert(old(arr)@.subrange(0, n as int) =~= old(arr)@);
        if is_total_order::<T>() {
            lemma_total_order_is_total_preorder::<T>();
            old(arr)@.lemma_sort_by_ensures(order::<T>());
            lemma_sorted_agrees_at_partition(old(arr)@.sort_by(order::<T>()), arr@, k - 1);
        }
    }
    Some(r)
}

/// Reordering a sequence does not change its sorted copy: two sequences that
/// hold the same elements, each as often, sort to the same sequence.
pub proof fn lemma_reordering_keeps_sorted_copy<T: PartialOrd>(a: Seq<T>, b: Seq<T>)
    requires
        total_ordering(order::<T>()),
        a.to_multiset() =~= b.to_multiset(),
    ensures
        a.sort_by(order::<T>()) == b.sort_by(order::<T>()),
{
    let t = a.sort_by(order::<T>());
    let u = b.sort_by(order::<T>());
    a.lemma_sort_by_ensures(order::<T>());
    b.lemma_sort_by_ensures(order::<T>());
    assert(u.len() == u.to_multiset().len());
    assert(t.len() == t.to_multiset().len());
    assert forall|m: int| 0 <= m < u.len() implies t[m] == u[m] by {
        assert forall|x: int| 0 <= x < m implies leq(#[trigger] u[x], u[m]) by {
            assert(order::<T>()(u[x], u[m]));
        }
        assert forall|x: int| m < x <= u.len() - 1 implies leq(u[m], #[trigger] u[x]) by {
            assert(order::<T>()(u[m], u[x]));
        }
        lemma_sorted_agrees_at_partition(t, u, m);
    }
    assert(t =~= u);
}

} // verus!
