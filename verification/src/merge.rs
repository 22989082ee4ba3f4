//! Merge sort: split, sort each half, merge with ties going to the left half.

use crate::order::{
    equiv, keeps_order_of_equals, le, le_exec, lemma_filter_without_key, same_key, sorted,
    total_order,
};
use crate::stack::reversed;
use vstd::prelude::*;

verus! {

/// What holds of the output of a merge that has taken the first `i`
/// elements of `l` and the first `j` of `r`.
spec fn merging<T: PartialOrd>(out: Seq<T>, l: Seq<T>, r: Seq<T>, i: int, j: int) -> bool {
    &&& out.len() == i + j
    &&& sorted(out)
    &&& forall|t: int| 0 <= t < out.len() && i < l.len() ==> le(#[trigger] out[t], l[i])
    &&& forall|t: int| 0 <= t < out.len() && j < r.len() ==> le(#[trigger] out[t], r[j])
    &&& forall|t: int| 0 <= t < j && i < l.len() ==> !le(l[i], #[trigger] r[t])
    &&& out.to_multiset() == l.subrange(0, i).to_multiset().add(r.subrange(0, j).to_multiset())
    &&& forall|k: T| #[trigger]
        out.filter(same_key(k)) == l.subrange(0, i).filter(same_key(k)) + r.subrange(0, j).filter(
            same_key(k),
        )
}

/// One step of a merge that takes the next element of the left run.
proof fn lemma_take_left<T: PartialOrd>(out: Seq<T>, l: Seq<T>, r: Seq<T>, i: int, j: int)
    requires
        total_order::<T>(),
        sorted(l),
        sorted(r),
        0 <= i < l.len(),
        0 <= j <= r.len(),
        j < r.len() ==> le(l[i], r[j]),
        merging(out, l, r, i, j),
    ensures
        merging(out.push(l[i]), l, r, i + 1, j),
{
    let x = l[i];
    let next = out.push(x);
    let lp = l.subrange(0, i);
    let rp = r.subrange(0, j);
    assert(l.subrange(0, i + 1) =~= lp.push(x));
    assert forall|a: int, b: int| 0 <= a < b < next.len() implies le(
        #[trigger] next[a],
        #[trigger] next[b],
    ) by {
        if b == out.len() {
            assert(le(out[a], l[i]));
        }
    }
    assert forall|t: int| 0 <= t < next.len() && i + 1 < l.len() implies le(
        #[trigger] next[t],
        l[i + 1],
    ) by {
        assert(le(l[i], l[i + 1]));
        if t < out.len() {
            assert(le(out[t], l[i]));
        }
    }
    assert forall|t: int| 0 <= t < next.len() && j < r.len() implies le(
        #[trigger] next[t],
        r[j],
    ) by {
        if t < out.len() {
            assert(le(out[t], r[j]));
        }
    }
    assert forall|t: int| 0 <= t < j && i + 1 < l.len() implies !le(l[i + 1], #[trigger] r[t]) by {
        assert(le(l[i], l[i + 1]));
        assert(!le(l[i], r[t]));
    }
    assert(next.to_multiset() =~= l.subrange(0, i + 1).to_multiset().add(rp.to_multiset())) by {
        vstd::seq_lib::to_multiset_build(out, x);
        vstd::seq_lib::to_multiset_build(lp, x);
    }
    assert forall|k: T| #[trigger]
        next.filter(same_key(k)) == l.subrange(0, i + 1).filter(same_key(k)) + rp.filter(
            same_key(k),
        ) by {
        out.lemma_filter_push(x, same_key(k));
        lp.lemma_filter_push(x, same_key(k));
        assert(out.filter(same_key(k)) == lp.filter(same_key(k)) + rp.filter(same_key(k)));
        if equiv(x, k) {
            assert forall|t: int| 0 <= t < rp.len() implies !equiv(#[trigger] rp[t], k) by {
                assert(!le(l[i], r[t]));
                if equiv(rp[t], k) {
                    assert(le(x, k) && le(k, r[t]));
                }
            }
            lemma_filter_without_key(rp, k);
            assert(lp.filter(same_key(k)).push(x) + Seq::<T>::empty() =~= (lp.filter(same_key(k))
                + Seq::<T>::empty()).push(x));
        }
    }
}

/// One step of a merge that takes the next element of the right run.
proof fn lemma_take_right<T: PartialOrd>(out: Seq<T>, l: Seq<T>, r: Seq<T>, i: int, j: int)
    requires
        total_order::<T>(),
        sorted(l),
        sorted(r),
        0 <= i <= l.len(),
        0 <= j < r.len(),
        i < l.len() ==> !le(l[i], r[j]),
        merging(out, l, r, i, j),
    ensures
        merging(out.push(r[j]), l, r, i, j + 1),
{
    let x = r[j];
    let next = out.push(x);
    let lp = l.subrange(0, i);
    let rp = r.subrange(0, j);
    assert(r.subrange(0, j + 1) =~= rp.push(x));
    assert forall|a: int, b: int| 0 <= a < b < next.len() implies le(
        #[trigger] next[a],
        #[trigger] next[b],
    ) by {
        if b == out.len() {
            assert(le(out[a], r[j]));
        }
    }
    assert forall|t: int| 0 <= t < next.len() && j + 1 < r.len() implies le(
        #[trigger] next[t],
        r[j + 1],
    ) by {
        assert(le(r[j], r[j + 1]));
        if t < out.len() {
            assert(le(out[t], r[j]));
        }
    }
    assert forall|t: int| 0 <= t < next.len() && i < l.len() implies le(
        #[trigger] next[t],
        l[i],
    ) by {
        if t < out.len() {
            assert(le(out[t], l[i]));
        } else {
            assert(le(l[i], r[j]) || le(r[j], l[i]));
        }
    }
    assert(next.to_multiset() =~= lp.to_multiset().add(r.subrange(0, j + 1).to_multiset())) by {
        vstd::seq_lib::to_multiset_build(out, x);
        vstd::seq_lib::to_multiset_build(rp, x);
    }
    assert forall|k: T| #[trigger]
        next.filter(same_key(k)) == lp.filter(same_key(k)) + r.subrange(0, j + 1).filter(
            same_key(k),
        ) by {
        out.lemma_filter_push(x, same_key(k));
        rp.lemma_filter_push(x, same_key(k));
        assert(out.filter(same_key(k)) == lp.filter(same_key(k)) + rp.filter(same_key(k)));
        if equiv(x, k) {
            assert(lp.filter(same_key(k)) + rp.filter(same_key(k)).push(x) =~= (lp.filter(
                same_key(k),
            ) + rp.filter(same_key(k))).push(x));
        }
    }
}

/// Merges two sorted runs into one. The front elements are compared and the
/// one that is not greater leaves its run; on a tie the left one does, so
/// that equal elements stay in the order left run, then right run.
pub fn merge<T: PartialOrd>(left: Vec<T>, right: Vec<T>) -> (out: Vec<T>)
    requires
        total_order::<T>(),
        sorted(left@),
        sorted(right@),
    ensures
        sorted(out@),
        out@.len() == left@.len() + right@.len(),
        out@.to_multiset() == left@.to_multiset().add(right@.to_multiset()),
        forall|k: T| #[trigger]
            out@.filter(same_key(k)) == left@.filter(same_key(k)) + right@.filter(same_key(k)),
{
    let ghost l = left@;
    let ghost r = right@;
    let mut ls = reversed(left);
    let mut rs = reversed(right);
    let mut out: Vec<T> = Vec::new();
    let ghost mut i: int = 0;
    let ghost mut j: int = 0;
    proof {
        assert(l.subrange(0, 0) =~= Seq::<T>::empty());
        assert(r.subrange(0, 0) =~= Seq::<T>::empty());
        assert(out@ =~= l.subrange(0, 0) + r.subrange(0, 0));
        vstd::seq_lib::lemma_multiset_commutative(l.subrange(0, 0), r.subrange(0, 0));
        assert forall|k: T| #[trigger]
            out@.filter(same_key(k)) == l.subrange(0, 0).filter(same_key(k)) + r.subrange(
                0,
                0,
            ).filter(same_key(k)) by {
            reveal(Seq::filter);
            assert(out@.filter(same_key(k)) =~= Seq::<T>::empty());
            assert(Seq::<T>::empty() + Seq::<T>::empty() =~= Seq::<T>::empty());
        }
    }
    while ls.len() > 0 || rs.len() > 0
        invariant
            total_order::<T>(),
            sorted(l),
            sorted(r),
            0 <= i <= l.len(),
            0 <= j <= r.len(),
            ls@.len() == l.len() - i,
            rs@.len() == r.len() - j,
            forall|t: int| 0 <= t < ls@.len() ==> ls@[t] == l[l.len() - 1 - t],
            forall|t: int| 0 <= t < rs@.len() ==> rs@[t] == r[r.len() - 1 - t],
            merging(out@, l, r, i, j),
        decreases ls@.len() + rs@.len(),
    {
        let take_left = if rs.len() == 0 {
            true
        } else if ls.len() == 0 {
            false
        } else {
            le_exec(&ls[ls.len() - 1], &rs[rs.len() - 1])
        };
        if take_left {
            proof {
                lemma_take_left(out@, l, r, i, j);
                i = i + 1;
            }
            let x = ls.pop().unwrap();
            out.push(x);
        } else {
            proof {
                lemma_take_right(out@, l, r, i, j);
                j = j + 1;
            }
            let x = rs.pop().unwrap();
            out.push(x);
        }
    }
    proof {
        assert(l.subrange(0, i) =~= l);
        assert(r.subrange(0, j) =~= r);
    }
    out
}

/// Sorts the elements of `words` by merge sort and leaves `words` empty.
///
/// A sequence of at most one element is handed back as it is. A longer one
/// is split into its leading half, the longer one where the length is odd,
/// and the rest; each is sorted by itself and the two are merged. Elements
/// that rank together come out in the order in which they went in.
pub fn merge_sort<T: PartialOrd>(words: &mut Vec<T>) -> (out: Vec<T>)
    requires
        total_order::<T>(),
    ensures
        sorted(out@),
        out@.to_multiset() == old(words)@.to_multiset(),
        keeps_order_of_equals(old(words)@, out@),
        final(words)@.len() == 0,
    decreases old(words)@.len(),
{
    let ghost input = words@;
    let n = words.len();
    if n <= 1 {
        let out = words.split_off(0);
        assert(out@ =~= input);
        return out;
    }
    let half = n - n / 2;
    let mut tail = words.split_off(half);
    let ghost head_in = words@;
    let ghost tail_in = tail@;
    let left = merge_sort(words);
    let right = merge_sort(&mut tail);
    let out = merge(left, right);
    proof {
        assert(input =~= head_in + tail_in);
        vstd::seq_lib::lemma_multiset_commutative(head_in, tail_in);
        assert forall|k: T| #[trigger]
            out@.filter(same_key(k)) == input.filter(same_key(k)) by {
            Seq::filter_distributes_over_add(head_in, tail_in, same_key(k));
        }
    }
    out
}

} // verus!
