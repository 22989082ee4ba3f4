//! Partition sort: the first element is the pivot, the others are parted
//! around it and each part is sorted in turn.

use crate::order::{le, le_exec, sorted, total_order};
use crate::stack::reversed;
use vstd::prelude::*;

verus! {

/// The predicate that holds of the elements that are not greater than `p`.
pub open spec fn not_above<T: PartialOrd>(p: T) -> spec_fn(T) -> bool {
    |x: T| le(x, p)
}

/// The predicate that holds of the elements that are greater than `p`.
pub open spec fn above<T: PartialOrd>(p: T) -> spec_fn(T) -> bool {
    |x: T| !le(x, p)
}

/// The sequence that partition sort makes of `s`: with the first element as
/// pivot, the sorted elements not greater than it, the pivot, and the sorted
/// elements greater than it. Both groups keep the order they had in `s`
/// before they are sorted in turn.
pub open spec fn partition_sorted<T: PartialOrd>(s: Seq<T>) -> Seq<T>
    decreases s.len(),
    via partition_sorted_decreases::<T>
{
    if s.len() <= 1 {
        s
    } else {
        let rest = s.subrange(1, s.len() as int);
        partition_sorted(rest.filter(not_above(s[0]))).push(s[0]) + partition_sorted(
            rest.filter(above(s[0])),
        )
    }
}

#[via_fn]
proof fn partition_sorted_decreases<T: PartialOrd>(s: Seq<T>) {
    if s.len() > 1 {
        let rest = s.subrange(1, s.len() as int);
        rest.lemma_filter_len(not_above(s[0]));
        rest.lemma_filter_len(above(s[0]));
    }
}

/// Two sorted sequences with a pivot between them, the first holding nothing
/// greater than the pivot and the second only what is greater, make a sorted
/// sequence.
proof fn lemma_sorted_around_pivot<T: PartialOrd>(lo: Seq<T>, p: T, hi: Seq<T>)
    requires
        total_order::<T>(),
        sorted(lo),
        sorted(hi),
        forall|t: int| 0 <= t < lo.len() ==> le(#[trigger] lo[t], p),
        forall|t: int| 0 <= t < hi.len() ==> !le(#[trigger] hi[t], p),
    ensures
        sorted(lo.push(p) + hi),
{
    let out = lo.push(p) + hi;
    assert forall|a: int, b: int| 0 <= a < b < out.len() implies le(
        #[trigger] out[a],
        #[trigger] out[b],
    ) by {
        if b < lo.len() {
            assert(le(lo[a], lo[b]));
        } else if b == lo.len() {
            assert(le(lo[a], p));
        } else {
            let y = hi[b - lo.len() - 1];
            assert(out[b] == y);
            assert(!le(y, p));
            assert(le(y, p) || le(p, y));
            if a < lo.len() {
                assert(le(lo[a], p));
            } else if a > lo.len() {
                assert(le(hi[a - lo.len() - 1], y));
            }
        }
    }
}

/// Every element of a sequence with the elements of `s.filter(pred)`
/// satisfies `pred`.
proof fn lemma_same_elements_satisfy<T>(s: Seq<T>, pred: spec_fn(T) -> bool, other: Seq<T>)
    requires
        other.to_multiset() == s.filter(pred).to_multiset(),
    ensures
        forall|t: int| 0 <= t < other.len() ==> pred(#[trigger] other[t]),
{
    let kept = s.filter(pred);
    assert forall|t: int| 0 <= t < other.len() implies pred(#[trigger] other[t]) by {
        vstd::seq_lib::to_multiset_contains(other, other[t]);
        vstd::seq_lib::to_multiset_contains(kept, other[t]);
        assert(other.contains(other[t]));
        let u = choose|u: int| 0 <= u < kept.len() && kept[u] == other[t];
        s.lemma_filter_pred(pred, u);
    }
}

/// Sorts `words` by partition sort.
///
/// A sequence of at most one element is handed back as it is. Of a longer
/// one the first element is the pivot; the others go, in their order, to the
/// group of those not greater than the pivot or to the group of those
/// greater; the result is the first group sorted, the pivot, the second
/// group sorted. On input that is already sorted the work grows with the
/// square of the length, and the depth of recursion with the length.
pub fn quick_sort<T: PartialOrd>(words: Vec<T>) -> (out: Vec<T>)
    requires
        total_order::<T>(),
    ensures
        out@ == partition_sorted(words@),
        sorted(out@),
        out@.to_multiset() == words@.to_multiset(),
    decreases words@.len(),
{
    if words.len() <= 1 {
        return words;
    }
    let ghost input = words@;
    let ghost rest = input.subrange(1, input.len() as int);
    let mut stack = reversed(words);
    let pivot = stack.pop().unwrap();
    let ghost p = pivot;
    assert(p == input[0]);
    let mut left: Vec<T> = Vec::new();
    let mut right: Vec<T> = Vec::new();
    let ghost mut i: int = 0;
    proof {
        reveal(Seq::filter);
        assert(rest.subrange(0, 0) =~= Seq::<T>::empty());
        assert(left@ =~= rest.subrange(0, 0).filter(not_above(p)));
        assert(right@ =~= rest.subrange(0, 0).filter(above(p)));
        vstd::seq_lib::lemma_multiset_commutative(left@, right@);
        assert(left@ + right@ =~= rest.subrange(0, 0));
    }
    while stack.len() > 0
        invariant
            total_order::<T>(),
            p == pivot,
            0 <= i <= rest.len(),
            stack@.len() == rest.len() - i,
            forall|t: int| 0 <= t < stack@.len() ==> stack@[t] == rest[rest.len() - 1 - t],
            left@ == rest.subrange(0, i).filter(not_above(p)),
            right@ == rest.subrange(0, i).filter(above(p)),
            left@.to_multiset().add(right@.to_multiset()) == rest.subrange(0, i).to_multiset(),
        decreases stack@.len(),
    {
        let item = stack.pop().unwrap();
        proof {
            let seen = rest.subrange(0, i);
            assert(item == rest[i]);
            assert(rest.subrange(0, i + 1) =~= seen.push(item));
            seen.lemma_filter_push(item, not_above(p));
            seen.lemma_filter_push(item, above(p));
            vstd::seq_lib::to_multiset_build(seen, item);
            vstd::seq_lib::to_multiset_build(left@, item);
            vstd::seq_lib::to_multiset_build(right@, item);
            assert(left@.push(item).to_multiset().add(right@.to_multiset()) =~= seen.push(
                item,
            ).to_multiset());
            assert(left@.to_multiset().add(right@.push(item).to_multiset()) =~= seen.push(
                item,
            ).to_multiset());
            i = i + 1;
        }
        if le_exec(&item, &pivot) {
            left.push(item);
        } else {
            right.push(item);
        }
    }
    proof {
        assert(rest.subrange(0, i) =~= rest);
        rest.lemma_filter_len(not_above(p));
        rest.lemma_filter_len(above(p));
    }
    let ghost lo_in = left@;
    let ghost hi_in = right@;
    let mut sorted_left = quick_sort(left);
    let mut sorted_right = quick_sort(right);
    let ghost lo = sorted_left@;
    let ghost hi = sorted_right@;
    sorted_left.push(pivot);
    sorted_left.append(&mut sorted_right);
    proof {
        lemma_same_elements_satisfy(rest, not_above(p), lo);
        lemma_same_elements_satisfy(rest, above(p), hi);
        lemma_sorted_around_pivot(lo, p, hi);
        vstd::seq_lib::lemma_multiset_commutative(lo.push(p), hi);
        vstd::seq_lib::to_multiset_build(lo, p);
        vstd::seq_lib::to_multiset_build(Seq::<T>::empty(), p);
        vstd::seq_lib::lemma_multiset_commutative(Seq::<T>::empty().push(p), rest);
        assert(input =~= Seq::<T>::empty().push(p) + rest);
        assert(Seq::<T>::empty().to_multiset() =~= vstd::multiset::Multiset::<T>::empty()) by {
            vstd::seq_lib::to_multiset_len(Seq::<T>::empty());
        }
        assert(sorted_left@.to_multiset() =~= input.to_multiset());
    }
    sorted_left
}

} // verus!
