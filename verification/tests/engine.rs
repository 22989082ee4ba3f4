use sort_engine::dedup::deduplicate;
use sort_engine::engine::{finish, run, sort, Algorithm, EngineError};

fn words(list: &[&str]) -> Vec<String> {
    list.iter().map(|w| w.to_string()).collect()
}

#[test]
fn dispatch_merge() {
    let out = sort(Algorithm::Merge, words(&["banana", "apple", "cherry"]));
    assert_eq!(out, Ok(words(&["apple", "banana", "cherry"])));
}

#[test]
fn dispatch_quick_then_unique() {
    let sorted = sort(Algorithm::Quick, words(&["b", "a", "a", "c"])).unwrap();
    assert_eq!(sorted, words(&["a", "a", "b", "c"]));
    assert_eq!(deduplicate(sorted), words(&["a", "b", "c"]));
}

#[test]
fn run_quick_unique() {
    let out = run(Algorithm::Quick, words(&["b", "a", "a", "c"]), true);
    assert_eq!(out, Ok(words(&["a", "b", "c"])));
}

#[test]
fn run_merge_keeps_duplicates_without_unique() {
    let out = run(Algorithm::Merge, words(&["b", "a", "a", "c"]), false);
    assert_eq!(out, Ok(words(&["a", "a", "b", "c"])));
}

#[test]
fn dispatch_merge_on_empty_input() {
    assert_eq!(sort(Algorithm::Merge, Vec::<String>::new()), Ok(Vec::new()));
}

#[test]
fn folded_case_then_unique() {
    let folded: Vec<String> = words(&["X", "x"]).iter().map(|w| w.to_lowercase()).collect();
    assert_eq!(folded, words(&["x", "x"]));
    let sorted = sort(Algorithm::Merge, folded).unwrap();
    assert_eq!(sorted, words(&["x", "x"]));
    assert_eq!(finish(sorted, true), words(&["x"]));
}

#[test]
fn dispatch_heap_is_refused() {
    let out = sort(Algorithm::Heap, words(&["b", "a"]));
    assert_eq!(out, Err(EngineError::Unimplemented(Algorithm::Heap)));
}

#[test]
fn every_selector_without_implementation_is_refused() {
    for selector in [Algorithm::Heap, Algorithm::Radix, Algorithm::Counting] {
        assert!(!selector.is_supported());
        assert_eq!(
            sort(selector, vec![3u8, 1, 2]),
            Err(EngineError::Unimplemented(selector))
        );
        assert_eq!(
            sort(selector, Vec::<u8>::new()),
            Err(EngineError::Unimplemented(selector))
        );
        assert_eq!(
            run(selector, vec![3u8, 1, 2], true),
            Err(EngineError::Unimplemented(selector))
        );
    }
}

#[test]
fn every_selector_with_implementation_runs() {
    for selector in [Algorithm::Merge, Algorithm::Quick, Algorithm::Random] {
        assert!(selector.is_supported());
        let mut out = sort(selector, vec![3u8, 1, 2]).unwrap();
        out.sort();
        assert_eq!(out, vec![1, 2, 3]);
    }
}

#[test]
fn dispatch_random_is_a_permutation() {
    let input: Vec<u16> = (0..100).collect();
    let mut out = sort(Algorithm::Random, input.clone()).unwrap();
    out.sort();
    assert_eq!(out, input);
}

#[test]
fn names_of_the_selectors() {
    assert_eq!(Algorithm::Merge.name(), "mergesort");
    assert_eq!(Algorithm::Quick.name(), "quicksort");
    assert_eq!(Algorithm::Random.name(), "randomsort");
    assert_eq!(Algorithm::Heap.name(), "heapsort");
    assert_eq!(Algorithm::Radix.name(), "radixsort");
    assert_eq!(Algorithm::Counting.name(), "countingsort");
}

#[test]
fn selectors_by_name() {
    assert_eq!(Algorithm::from_name("mergesort"), Some(Algorithm::Merge));
    assert_eq!(Algorithm::from_name("quicksort"), Some(Algorithm::Quick));
    assert_eq!(Algorithm::from_name("randomsort"), Some(Algorithm::Random));
    assert_eq!(Algorithm::from_name("heapsort"), Some(Algorithm::Heap));
    assert_eq!(Algorithm::from_name("radixsort"), Some(Algorithm::Radix));
    assert_eq!(Algorithm::from_name("countingsort"), Some(Algorithm::Counting));
    assert_eq!(Algorithm::from_name("bubblesort"), None);
    assert_eq!(Algorithm::from_name("MergeSort"), None);
    assert_eq!(Algorithm::from_name(""), None);
}

#[test]
fn name_and_from_name_agree() {
    for selector in [
        Algorithm::Merge,
        Algorithm::Quick,
        Algorithm::Random,
        Algorithm::Heap,
        Algorithm::Radix,
        Algorithm::Counting,
    ] {
        assert_eq!(Algorithm::from_name(selector.name()), Some(selector));
    }
}

#[test]
fn deduplicate_keeps_the_first_of_each_run() {
    assert_eq!(deduplicate(vec![1, 1, 2, 3, 3, 3, 4]), vec![1, 2, 3, 4]);
    assert_eq!(deduplicate(Vec::<u8>::new()), Vec::<u8>::new());
    assert_eq!(deduplicate(vec![5]), vec![5]);
    assert_eq!(deduplicate(vec![5, 5, 5]), vec![5]);
}

#[test]
fn deduplicate_compares_neighbours_only() {
    assert_eq!(deduplicate(vec![1, 1, 2, 1, 1]), vec![1, 2, 1]);
}

#[test]
fn deduplicate_twice_is_deduplicate_once() {
    let input = vec![0, 0, 1, 2, 2, 2, 5, 5, 9];
    let once = deduplicate(input);
    assert_eq!(once, vec![0, 1, 2, 5, 9]);
    assert_eq!(deduplicate(once.clone()), once);
    let unsorted = vec![3, 3, 1, 3, 3, 1, 1];
    let once = deduplicate(unsorted);
    assert_eq!(deduplicate(once.clone()), once);
}

#[test]
fn deduplicate_agrees_with_std() {
    let input = vec![4, 4, 4, 2, 2, 7, 4, 4, 0, 0, 0, 0, 1];
    let mut expected = input.clone();
    expected.dedup();
    assert_eq!(deduplicate(input), expected);
}

#[test]
fn finish_without_unique_changes_nothing() {
    assert_eq!(finish(vec![1, 1, 2], false), vec![1, 1, 2]);
    assert_eq!(finish(vec![1, 1, 2], true), vec![1, 2]);
}
