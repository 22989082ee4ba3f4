//! Collapsing runs of equal elements.

use crate::order::{equiv, le, lemma_filter_without_key, same_key, sorted, total_order};
use crate::stack::reversed;
use vstd::prelude::*;
use vstd::std_specs::cmp::PartialEqSpec;

verus! {

/// `s` without the elements that equal the one kept before them: of every
/// run of equal elements the first stays.
pub open spec fn deduplicated<T: PartialEq>(s: Seq<T>) -> Seq<T>
    decreases s.len(),
{
    if s.len() == 0 {
        s
    } else {
        let kept = deduplicated(s.drop_last());
        if kept.len() > 0 && s.last().eq_spec(&kept.last()) {
            kept
        } else {
            kept.push(s.last())
        }
    }
}

/// No element of `s` equals the one before it.
pub open spec fn no_adjacent_equals<T: PartialEq>(s: Seq<T>) -> bool {
    forall|i: int| 0 < i < s.len() ==> !(#[trigger] s[i]).eq_spec(&s[i - 1])
}

/// What deduplication leaves holds no element equal to the one before it.
pub proof fn lemma_deduplicated_no_adjacent_equals<T: PartialEq>(s: Seq<T>)
    ensures
        no_adjacent_equals(deduplicated(s)),
    decreases s.len(),
{
    if s.len() > 0 {
        lemma_deduplicated_no_adjacent_equals(s.drop_last());
    }
}

/// A sequence in which no element equals the one before it is left as it
/// is.
pub proof fn lemma_deduplicated_fixed<T: PartialEq>(s: Seq<T>)
    requires
        no_adjacent_equals(s),
    ensures
        deduplicated(s) == s,
    decreases s.len(),
{
    if s.len() > 0 {
        let front = s.drop_last();
        assert forall|i: int| 0 < i < front.len() implies !(#[trigger] front[i]).eq_spec(
            &front[i - 1],
        ) by {
            assert(front[i] == s[i]);
        }
        lemma_deduplicated_fixed(front);
        if front.len() > 0 {
            assert(s.last() == s[s.len() - 1]);
            assert(front.last() == s[s.len() - 1 - 1]);
        }
        assert(front.push(s.last()) =~= s);
    }
}

/// Deduplication is idempotent: a second pass removes nothing.
pub proof fn lemma_deduplicated_idempotent<T: PartialEq>(s: Seq<T>)
    ensures
        deduplicated(deduplicated(s)) == deduplicated(s),
{
    lemma_deduplicated_no_adjacent_equals(s);
    lemma_deduplicated_fixed(deduplicated(s));
}

/// What deduplication leaves is no longer than what it was given, and is
/// empty only if that was.
pub proof fn lemma_deduplicated_len<T: PartialEq>(s: Seq<T>)
    ensures
        deduplicated(s).len() <= s.len(),
        s.len() > 0 ==> deduplicated(s).len() > 0,
        s.len() > 0 ==> deduplicated(s)[0] == s[0],
    decreases s.len(),
{
    if s.len() > 0 {
        lemma_deduplicated_len(s.drop_last());
    }
}

/// The equality of `T` holds of two elements exactly when they rank together
/// in its order.
pub open spec fn eq_agrees_with_order<T: PartialOrd>() -> bool {
    forall|a: T, b: T| #[trigger] a.eq_spec(&b) <==> equiv(a, b)
}

/// Every element of `s` comes strictly after the ones before it.
pub open spec fn strictly_sorted<T: PartialOrd>(s: Seq<T>) -> bool {
    forall|i: int, j: int| 0 <= i < j < s.len() ==> !le(#[trigger] s[j], #[trigger] s[i])
}

/// The first element of `s`, as a sequence of its own; nothing where `s` is
/// empty.
pub open spec fn first_of<T>(s: Seq<T>) -> Seq<T> {
    if s.len() > 0 {
        seq![s[0]]
    } else {
        s
    }
}

/// The last element that deduplication keeps ranks together with the last
/// element that it was given.
pub proof fn lemma_deduplicated_last<T: PartialOrd>(s: Seq<T>)
    requires
        total_order::<T>(),
        eq_agrees_with_order::<T>(),
        s.len() > 0,
    ensures
        deduplicated(s).len() > 0,
        equiv(deduplicated(s).last(), s.last()),
{
    let kept = deduplicated(s.drop_last());
    let x = s.last();
    assert(le(x, x) || le(x, x));
    if kept.len() > 0 && x.eq_spec(&kept.last()) {
        assert(equiv(x, kept.last()));
    }
}

/// Of a sorted sequence deduplication leaves a strictly sorted one: no two
/// of the elements that stay rank together.
pub proof fn lemma_deduplicated_strictly_sorted<T: PartialOrd>(s: Seq<T>)
    requires
        total_order::<T>(),
        eq_agrees_with_order::<T>(),
        sorted(s),
    ensures
        strictly_sorted(deduplicated(s)),
    decreases s.len(),
{
    if s.len() > 0 {
        let front = s.drop_last();
        let kept = deduplicated(front);
        let x = s.last();
        assert forall|i: int, j: int| 0 <= i < j < front.len() implies le(
            #[trigger] front[i],
            #[trigger] front[j],
        ) by {
            assert(le(s[i], s[j]));
        }
        lemma_deduplicated_strictly_sorted(front);
        if kept.len() > 0 && !x.eq_spec(&kept.last()) {
            lemma_deduplicated_last(front);
            let out = kept.push(x);
            let top = kept.last();
            assert(le(front.last(), x)) by {
                assert(le(s[s.len() - 2], s[s.len() - 1]));
            }
            assert(le(top, x));
            assert(!equiv(x, top));
            assert forall|i: int, j: int| 0 <= i < j < out.len() implies !le(
                #[trigger] out[j],
                #[trigger] out[i],
            ) by {
                if j == kept.len() {
                    if i < kept.len() - 1 {
                        assert(!le(kept[kept.len() - 1], kept[i]));
                        assert(le(kept[kept.len() - 1], kept[i]) || le(kept[i], top));
                    }
                    if le(x, kept[i]) {
                        assert(le(kept[i], top));
                        assert(le(x, top));
                    }
                } else {
                    assert(!le(kept[j], kept[i]));
                }
            }
        }
    }
}

/// Of a sorted sequence deduplication keeps, for every key, the first
/// element with that key and no other.
pub proof fn lemma_deduplicated_first_of_key<T: PartialOrd>(s: Seq<T>, k: T)
    requires
        total_order::<T>(),
        eq_agrees_with_order::<T>(),
        sorted(s),
    ensures
        deduplicated(s).filter(same_key(k)) == first_of(s.filter(same_key(k))),
    decreases s.len(),
{
    reveal(Seq::filter);
    if s.len() > 0 {
        let front = s.drop_last();
        let kept = deduplicated(front);
        let x = s.last();
        assert forall|i: int, j: int| 0 <= i < j < front.len() implies le(
            #[trigger] front[i],
            #[trigger] front[j],
        ) by {
            assert(le(s[i], s[j]));
        }
        lemma_deduplicated_first_of_key(front, k);
        assert(s =~= front.push(x));
        front.lemma_filter_push(x, same_key(k));
        kept.lemma_filter_push(x, same_key(k));
        if front.len() > 0 {
            lemma_deduplicated_last(front);
        }
        if equiv(x, k) {
            if kept.len() > 0 && x.eq_spec(&kept.last()) {
                assert(equiv(kept.last(), k));
                kept.lemma_filter_contains(same_key(k), kept.len() - 1);
                assert(kept.filter(same_key(k)).len() > 0);
                assert(first_of(front.filter(same_key(k)).push(x)) =~= first_of(
                    front.filter(same_key(k)),
                ));
            } else {
                assert forall|t: int| 0 <= t < front.len() implies !equiv(
                    #[trigger] front[t],
                    k,
                ) by {
                    if equiv(front[t], k) {
                        let top = kept.last();
                        assert(le(s[t], s[s.len() - 1]));
                        assert(le(front[t], front.last())) by {
                            if t < front.len() - 1 {
                                assert(le(s[t], s[s.len() - 2]));
                            } else {
                                assert(le(front[t], front[t]) || le(front[t], front[t]));
                            }
                        }
                        assert(le(front.last(), x)) by {
                            assert(le(s[s.len() - 2], s[s.len() - 1]));
                        }
                        assert(le(x, k) && le(k, front[t]));
                        assert(le(x, front[t]));
                        assert(le(x, front.last()));
                        assert(equiv(x, front.last()));
                        assert(equiv(x, top));
                    }
                }
                lemma_filter_without_key(front, k);
                assert(kept.filter(same_key(k)) =~= Seq::<T>::empty());
                assert(Seq::<T>::empty().push(x) =~= first_of(Seq::<T>::empty().push(x)));
            }
        }
    }
}

/// Removes from `elements` every element that equals the one kept before
/// it, so that the first of each run of equal elements stays.
///
/// Only neighbours are compared: equal elements that do not stand together
/// both stay. To remove every duplicate, hand in a sorted sequence.
pub fn deduplicate<T: PartialEq>(elements: Vec<T>) -> (out: Vec<T>)
    requires
        T::obeys_eq_spec(),
    ensures
        out@ == deduplicated(elements@),
{
    let ghost input = elements@;
    let mut stack = reversed(elements);
    let mut out: Vec<T> = Vec::new();
    let ghost mut i: int = 0;
    assert(input.subrange(0, 0) =~= Seq::<T>::empty());
    while stack.len() > 0
        invariant
            T::obeys_eq_spec(),
            0 <= i <= input.len(),
            stack@.len() == input.len() - i,
            forall|t: int| 0 <= t < stack@.len() ==> stack@[t] == input[input.len() - 1 - t],
            out@ == deduplicated(input.subrange(0, i)),
        decreases stack@.len(),
    {
        let item = stack.pop().unwrap();
        proof {
            assert(item == input[i]);
            assert(input.subrange(0, i + 1).drop_last() =~= input.subrange(0, i));
            assert(input.subrange(0, i + 1).last() == item);
            i = i + 1;
        }
        let repeated = out.len() > 0 && item == out[out.len() - 1];
        if !repeated {
            out.push(item);
        }
    }
    assert(input.subrange(0, i) =~= input);
    out
}

} // verus!
