//! The order on elements and what it means for a sequence to be sorted.

use core::cmp::Ordering;
use vstd::prelude::*;
use vstd::std_specs::cmp::PartialOrdSpec;

verus! {

/// `a` comes before `b` or ranks together with it.
pub open spec fn le<T: PartialOrd>(a: T, b: T) -> bool {
    a.partial_cmp_spec(&b) == Some(Ordering::Less) || a.partial_cmp_spec(&b) == Some(
        Ordering::Equal,
    )
}

/// `a` and `b` rank together: neither comes strictly before the other.
pub open spec fn equiv<T: PartialOrd>(a: T, b: T) -> bool {
    le(a, b) && le(b, a)
}

/// The comparison operators of `T` compute `le`, any two elements are
/// comparable, and `le` is transitive.
pub open spec fn total_order<T: PartialOrd>() -> bool {
    &&& T::obeys_partial_cmp_spec()
    &&& forall|a: T, b: T| #[trigger] le(a, b) || le(b, a)
    &&& forall|a: T, b: T, c: T| #[trigger] le(a, b) && #[trigger] le(b, c) ==> le(a, c)
}

/// No element of `s` comes strictly before an earlier one.
pub open spec fn sorted<T: PartialOrd>(s: Seq<T>) -> bool {
    forall|i: int, j: int| 0 <= i < j < s.len() ==> le(#[trigger] s[i], #[trigger] s[j])
}

/// The predicate that holds of the elements ranking together with `k`.
pub open spec fn same_key<T: PartialOrd>(k: T) -> spec_fn(T) -> bool {
    |x: T| equiv(x, k)
}

/// `output` holds, for every key, the elements of `input` with that key in
/// the order in which `input` holds them.
pub open spec fn keeps_order_of_equals<T: PartialOrd>(input: Seq<T>, output: Seq<T>) -> bool {
    forall|k: T| #[trigger] output.filter(same_key(k)) == input.filter(same_key(k))
}

/// Whether `a` comes before `b` or ranks together with it, computed with
/// the comparison of `T`.
pub fn le_exec<T: PartialOrd>(a: &T, b: &T) -> (r: bool)
    requires
        T::obeys_partial_cmp_spec(),
    ensures
        r == le(*a, *b),
{
    *a <= *b
}

/// Every element of `s` but the last comes before its successor or ranks
/// together with it.
pub open spec fn adjacent_in_order<T: PartialOrd>(s: Seq<T>) -> bool {
    forall|i: int| 0 <= i && i + 1 < s.len() ==> le(#[trigger] s[i], s[i + 1])
}

/// Under a total order, a sequence whose adjacent pairs are in order has
/// every pair in order.
proof fn lemma_adjacent_reaches<T: PartialOrd>(s: Seq<T>, i: int, j: int)
    requires
        total_order::<T>(),
        adjacent_in_order(s),
        0 <= i < j < s.len(),
    ensures
        le(s[i], s[j]),
    decreases j - i,
{
    assert(le(s[j - 1], s[j - 1 + 1]));
    if i < j - 1 {
        lemma_adjacent_reaches(s, i, j - 1);
    }
}

/// Under a total order, to be sorted is to have every adjacent pair in
/// order.
pub proof fn lemma_sorted_iff_adjacent_in_order<T: PartialOrd>(s: Seq<T>)
    requires
        total_order::<T>(),
    ensures
        sorted(s) <==> adjacent_in_order(s),
{
    if adjacent_in_order(s) {
        assert forall|i: int, j: int| 0 <= i < j < s.len() implies le(
            #[trigger] s[i],
            #[trigger] s[j],
        ) by {
            lemma_adjacent_reaches(s, i, j);
        }
    }
}

/// A sequence none of whose elements has the key `k` holds nothing under
/// that key.
pub proof fn lemma_filter_without_key<T: PartialOrd>(s: Seq<T>, k: T)
    requires
        forall|t: int| 0 <= t < s.len() ==> !equiv(#[trigger] s[t], k),
    ensures
        s.filter(same_key(k)) == Seq::<T>::empty(),
    decreases s.len(),
{
    reveal(Seq::filter);
    if s.len() > 0 {
        lemma_filter_without_key(s.drop_last(), k);
    }
}

/// Under a total order the sorted sequence that keeps the elements of each
/// key in a given order is unique: two sorted sequences that hold the same
/// elements under every key are the same sequence.
pub proof fn lemma_sorted_and_stable_is_unique<T: PartialOrd>(a: Seq<T>, b: Seq<T>)
    requires
        total_order::<T>(),
        sorted(a),
        sorted(b),
        keeps_order_of_equals(a, b),
    ensures
        a == b,
    decreases a.len(),
{
    if a.len() == 0 {
        if b.len() > 0 {
            let y = b[0];
            assert(le(y, y) || le(y, y));
            b.lemma_filter_contains(same_key(y), 0);
            lemma_filter_without_key(a, y);
            assert(b.filter(same_key(y)) == a.filter(same_key(y)));
        }
        assert(a =~= b);
    } else {
        let x = a.last();
        let front_a = a.drop_last();
        assert(a =~= front_a.push(x));
        assert(le(x, x) || le(x, x));
        a.lemma_filter_contains(same_key(x), a.len() - 1);
        assert(b.filter(same_key(x)) == a.filter(same_key(x)));
        b.lemma_filter_contains_rev(same_key(x), x);
        let u = choose|u: int| 0 <= u < b.len() && b[u] == x;
        let y = b.last();
        let front_b = b.drop_last();
        assert(b =~= front_b.push(y));
        assert(le(y, y) || le(y, y));
        assert(le(x, y)) by {
            if u < b.len() - 1 {
                assert(le(b[u], b[b.len() - 1]));
            }
        }
        b.lemma_filter_contains(same_key(y), b.len() - 1);
        assert(b.filter(same_key(y)) == a.filter(same_key(y)));
        a.lemma_filter_contains_rev(same_key(y), y);
        let v = choose|v: int| 0 <= v < a.len() && a[v] == y;
        assert(le(y, x)) by {
            if v < a.len() - 1 {
                assert(le(a[v], a[a.len() - 1]));
            }
        }
        front_a.lemma_filter_push(x, same_key(x));
        front_b.lemma_filter_push(y, same_key(x));
        assert(a.filter(same_key(x)).last() == x);
        assert(b.filter(same_key(x)).last() == y);
        assert(x == y);
        assert forall|k: T| #[trigger]
            front_b.filter(same_key(k)) == front_a.filter(same_key(k)) by {
            front_a.lemma_filter_push(x, same_key(k));
            front_b.lemma_filter_push(x, same_key(k));
            assert(b.filter(same_key(k)) == a.filter(same_key(k)));
            if equiv(x, k) {
                assert(front_a.filter(same_key(k)) =~= front_a.filter(same_key(k)).push(
                    x,
                ).drop_last());
                assert(front_b.filter(same_key(k)) =~= front_b.filter(same_key(k)).push(
                    x,
                ).drop_last());
            }
        }
        assert forall|i: int, j: int| 0 <= i < j < front_a.len() implies le(
            #[trigger] front_a[i],
            #[trigger] front_a[j],
        ) by {
            assert(le(a[i], a[j]));
        }
        assert forall|i: int, j: int| 0 <= i < j < front_b.len() implies le(
            #[trigger] front_b[i],
            #[trigger] front_b[j],
        ) by {
            assert(le(b[i], b[j]));
        }
        lemma_sorted_and_stable_is_unique(front_a, front_b);
    }
}

} // verus!
