//! The selector of an algorithm and the dispatch on it.

use crate::dedup::{deduplicate, deduplicated};
use crate::merge::merge_sort;
use crate::order::{keeps_order_of_equals, sorted, total_order};
use crate::quick::{partition_sorted, quick_sort};
use crate::shuffle::random_sort;
use vstd::prelude::*;
use vstd::std_specs::cmp::PartialEqSpec;

verus! {

/// The algorithms that can be asked for. The last three have a name and no
/// implementation: asking for one of them is an error.
#[derive(Clone, Copy, Debug, PartialEq, Eq, Structural)]
pub enum Algorithm {
    Merge,
    Quick,
    Random,
    Heap,
    Radix,
    Counting,
}

/// Why the engine did not run.
#[derive(Clone, Copy, Debug, PartialEq, Eq, Structural)]
pub enum EngineError {
    /// The algorithm asked for has no implementation.
    Unimplemented(Algorithm),
}

/// The algorithm that goes by the name `name`, if there is one.
pub open spec fn named(name: Seq<char>) -> Option<Algorithm> {
    if name == "mergesort"@ {
        Some(Algorithm::Merge)
    } else if name == "quicksort"@ {
        Some(Algorithm::Quick)
    } else if name == "randomsort"@ {
        Some(Algorithm::Random)
    } else if name == "heapsort"@ {
        Some(Algorithm::Heap)
    } else if name == "radixsort"@ {
        Some(Algorithm::Radix)
    } else if name == "countingsort"@ {
        Some(Algorithm::Counting)
    } else {
        None
    }
}

impl Algorithm {
    /// Whether the algorithm has an implementation.
    pub open spec fn supported(self) -> bool {
        self == Algorithm::Merge || self == Algorithm::Quick || self == Algorithm::Random
    }

    /// Whether the algorithm needs the comparison to be a total order.
    pub open spec fn compares(self) -> bool {
        self == Algorithm::Merge || self == Algorithm::Quick
    }

    /// Whether the algorithm has an implementation.
    pub fn is_supported(&self) -> (r: bool)
        ensures
            r == self.supported(),
    {
        match self {
            Algorithm::Merge | Algorithm::Quick | Algorithm::Random => true,
            Algorithm::Heap | Algorithm::Radix | Algorithm::Counting => false,
        }
    }

    /// The name by which the algorithm is asked for.
    pub fn name(&self) -> (r: &'static str)
        ensures
            named(r@) == Some(*self),
    {
        proof {
            lemma_names_differ();
        }
        match self {
            Algorithm::Merge => "mergesort",
            Algorithm::Quick => "quicksort",
            Algorithm::Random => "randomsort",
            Algorithm::Heap => "heapsort",
            Algorithm::Radix => "radixsort",
            Algorithm::Counting => "countingsort",
        }
    }

    /// The algorithm that goes by `name`; `None` where `name` is the name of
    /// none.
    pub fn from_name(name: &str) -> (r: Option<Algorithm>)
        ensures
            r == named(name@),
    {
        let owned = name.to_owned();
        if owned == "mergesort".to_owned() {
            Some(Algorithm::Merge)
        } else if owned == "quicksort".to_owned() {
            Some(Algorithm::Quick)
        } else if owned == "randomsort".to_owned() {
            Some(Algorithm::Random)
        } else if owned == "heapsort".to_owned() {
            Some(Algorithm::Heap)
        } else if owned == "radixsort".to_owned() {
            Some(Algorithm::Radix)
        } else if owned == "countingsort".to_owned() {
            Some(Algorithm::Counting)
        } else {
            None
        }
    }
}

/// The six names are six different strings.
pub proof fn lemma_names_differ()
    ensures
        named("mergesort"@) == Some(Algorithm::Merge),
        named("quicksort"@) == Some(Algorithm::Quick),
        named("randomsort"@) == Some(Algorithm::Random),
        named("heapsort"@) == Some(Algorithm::Heap),
        named("radixsort"@) == Some(Algorithm::Radix),
        named("countingsort"@) == Some(Algorithm::Counting),
{
    reveal_strlit("mergesort");
    reveal_strlit("quicksort");
    reveal_strlit("randomsort");
    reveal_strlit("heapsort");
    reveal_strlit("radixsort");
    reveal_strlit("countingsort");
    assert("mergesort"@.len() == 9);
    assert("quicksort"@[0] == 'q');
    assert("radixsort"@[0] == 'r');
    assert("heapsort"@.len() == 8);
    assert("randomsort"@.len() == 10);
    assert("countingsort"@.len() == 12);
}

/// What `out` has to be for `selector` to have made it of `input`.
pub open spec fn sorts<T: PartialOrd>(selector: Algorithm, input: Seq<T>, out: Seq<T>) -> bool {
    match selector {
        Algorithm::Merge => {
            &&& sorted(out)
            &&& out.to_multiset() == input.to_multiset()
            &&& keeps_order_of_equals(input, out)
        },
        Algorithm::Quick => {
            &&& out == partition_sorted(input)
            &&& sorted(out)
            &&& out.to_multiset() == input.to_multiset()
        },
        Algorithm::Random => out.to_multiset() == input.to_multiset(),
        _ => false,
    }
}

/// Runs the algorithm that `selector` names on `elements`.
///
/// A selector without an implementation is refused before anything is done,
/// with the selector in the error.
pub fn sort<T: PartialOrd>(selector: Algorithm, elements: Vec<T>) -> (res: Result<
    Vec<T>,
    EngineError,
>)
    requires
        selector.compares() ==> total_order::<T>(),
    ensures
        selector.supported() ==> (res matches Ok(out) && sorts(selector, elements@, out@)),
        !selector.supported() ==> (res matches Err(e) && e == EngineError::Unimplemented(selector)),
{
    match selector {
        Algorithm::Merge => {
            let mut elements = elements;
            Ok(merge_sort(&mut elements))
        },
        Algorithm::Quick => Ok(quick_sort(elements)),
        Algorithm::Random => Ok(random_sort(elements)),
        Algorithm::Heap | Algorithm::Radix | Algorithm::Counting => Err(
            EngineError::Unimplemented(selector),
        ),
    }
}

/// What is written out of the sorted sequence `s`: `s` itself, or `s`
/// without its repeated elements where only unique ones are wanted.
pub open spec fn finished<T: PartialEq>(s: Seq<T>, unique: bool) -> Seq<T> {
    if unique {
        deduplicated(s)
    } else {
        s
    }
}

/// The pass after the sort: removes repeated elements where `unique` is
/// set, and changes nothing where it is not.
pub fn finish<T: PartialEq>(elements: Vec<T>, unique: bool) -> (out: Vec<T>)
    requires
        unique ==> T::obeys_eq_spec(),
    ensures
        out@ == finished(elements@, unique),
{
    if unique {
        deduplicate(elements)
    } else {
        elements
    }
}

/// One run of the engine: sorts `elements` as `selector` says, then removes
/// repeated elements where `unique` is set.
pub fn run<T: PartialOrd>(selector: Algorithm, elements: Vec<T>, unique: bool) -> (res: Result<
    Vec<T>,
    EngineError,
>)
    requires
        selector.compares() ==> total_order::<T>(),
        unique ==> T::obeys_eq_spec(),
    ensures
        selector.supported() ==> (res matches Ok(out) && exists|mid: Seq<T>| #[trigger]
            sorts(selector, elements@, mid) && out@ == finished(mid, unique)),
        !selector.supported() ==> (res matches Err(e) && e == EngineError::Unimplemented(selector)),
{
    match sort(selector, elements) {
        Ok(ordered) => {
            let ghost mid = ordered@;
            let out = finish(ordered, unique);
            assert(sorts(selector, elements@, mid) && out@ == finished(mid, unique));
            Ok(out)
        },
        Err(e) => Err(e),
    }
}

} // verus!
