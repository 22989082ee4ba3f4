use sort_engine::merge::{merge, merge_sort};
use sort_engine::order::le_exec;
use sort_engine::quick::quick_sort;
use sort_engine::shuffle::random_sort;
use sort_engine::stack::reversed;
use std::cmp::Ordering;

/// A record that is ordered by its key alone; the tag tells equal keys apart.
#[derive(Debug, Clone, Copy)]
struct Tagged {
    key: u32,
    tag: char,
}

impl PartialEq for Tagged {
    fn eq(&self, other: &Self) -> bool {
        self.key == other.key
    }
}

impl PartialOrd for Tagged {
    fn partial_cmp(&self, other: &Self) -> Option<Ordering> {
        self.key.partial_cmp(&other.key)
    }
}

fn tagged(pairs: &[(u32, char)]) -> Vec<Tagged> {
    pairs.iter().map(|&(key, tag)| Tagged { key, tag }).collect()
}

fn pairs(records: &[Tagged]) -> Vec<(u32, char)> {
    records.iter().map(|r| (r.key, r.tag)).collect()
}

fn words(list: &[&str]) -> Vec<String> {
    list.iter().map(|w| w.to_string()).collect()
}

fn in_order<T: PartialOrd>(v: &[T]) -> bool {
    v.windows(2).all(|w| w[0] <= w[1])
}

#[test]
fn merge_sort_orders_three_words() {
    let mut input = words(&["banana", "apple", "cherry"]);
    let out = merge_sort(&mut input);
    assert_eq!(out, words(&["apple", "banana", "cherry"]));
}

#[test]
fn merge_sort_leaves_its_argument_empty() {
    let mut input = vec![4u64, 2, 9];
    let out = merge_sort(&mut input);
    assert_eq!(out, vec![2, 4, 9]);
    assert!(input.is_empty());
}

#[test]
fn merge_sort_of_nothing_is_nothing() {
    let mut input: Vec<String> = Vec::new();
    let out = merge_sort(&mut input);
    assert_eq!(out, Vec::<String>::new());
}

#[test]
fn merge_sort_of_one_element_is_that_element() {
    let mut input = vec![7i32];
    assert_eq!(merge_sort(&mut input), vec![7]);
    assert!(input.is_empty());
}

#[test]
fn merge_sort_odd_length() {
    let mut input = vec![5u8, 4, 3, 2, 1];
    assert_eq!(merge_sort(&mut input), vec![1, 2, 3, 4, 5]);
}

#[test]
fn merge_sort_is_sorted_and_keeps_every_element() {
    let input: Vec<i64> = vec![9, -3, 7, 7, 0, 12, -3, 5, 1, 1, 8, -20, 33, 2];
    let mut work = input.clone();
    let out = merge_sort(&mut work);
    assert!(in_order(&out));
    let mut expected = input.clone();
    expected.sort();
    assert_eq!(out, expected);
}

#[test]
fn merge_sort_byte_order_puts_capitals_first() {
    let mut input = words(&["b", "a", "B", "A"]);
    assert_eq!(merge_sort(&mut input), words(&["A", "B", "a", "b"]));
}

#[test]
fn merge_sort_keeps_equal_keys_in_their_order() {
    let mut input = tagged(&[(2, 'a'), (1, 'b'), (2, 'c'), (1, 'd'), (2, 'e'), (0, 'f'), (1, 'g')]);
    let out = merge_sort(&mut input);
    assert_eq!(
        pairs(&out),
        vec![(0, 'f'), (1, 'b'), (1, 'd'), (1, 'g'), (2, 'a'), (2, 'c'), (2, 'e')]
    );
}

#[test]
fn merge_takes_the_left_run_first_on_a_tie() {
    let left = tagged(&[(1, 'l'), (3, 'l')]);
    let right = tagged(&[(1, 'r'), (2, 'r'), (3, 'r')]);
    let out = merge(left, right);
    assert_eq!(pairs(&out), vec![(1, 'l'), (1, 'r'), (2, 'r'), (3, 'l'), (3, 'r')]);
}

#[test]
fn merge_appends_what_is_left_of_the_other_run() {
    assert_eq!(merge(vec![1, 2], vec![3, 4, 5]), vec![1, 2, 3, 4, 5]);
    assert_eq!(merge(vec![6, 7], vec![1]), vec![1, 6, 7]);
    assert_eq!(merge(Vec::<u8>::new(), vec![1]), vec![1]);
    assert_eq!(merge(vec![1u8], Vec::new()), vec![1]);
}

#[test]
fn quick_sort_orders_words() {
    let out = quick_sort(words(&["b", "a", "a", "c"]));
    assert_eq!(out, words(&["a", "a", "b", "c"]));
}

#[test]
fn quick_sort_short_inputs_come_back_unchanged() {
    assert_eq!(quick_sort(Vec::<u32>::new()), Vec::<u32>::new());
    assert_eq!(quick_sort(vec![3u32]), vec![3]);
}

#[test]
fn quick_sort_is_sorted_and_keeps_every_element() {
    let input: Vec<i64> = vec![9, -3, 7, 7, 0, 12, -3, 5, 1, 1, 8, -20, 33, 2];
    let out = quick_sort(input.clone());
    assert!(in_order(&out));
    let mut expected = input.clone();
    expected.sort();
    assert_eq!(out, expected);
}

#[test]
fn quick_sort_on_sorted_input() {
    let input: Vec<u32> = (0..200).collect();
    assert_eq!(quick_sort(input.clone()), input);
}

#[test]
fn quick_sort_puts_what_equals_the_pivot_before_it() {
    let out = quick_sort(tagged(&[(1, 'a'), (1, 'b'), (0, 'c'), (2, 'd'), (1, 'e')]));
    assert_eq!(pairs(&out), vec![(0, 'c'), (1, 'e'), (1, 'b'), (1, 'a'), (2, 'd')]);
}

#[test]
fn random_sort_keeps_every_element() {
    let input: Vec<u32> = vec![5, 1, 5, 9, 2, 2, 2, 7];
    for _ in 0..50 {
        let mut out = random_sort(input.clone());
        assert_eq!(out.len(), input.len());
        out.sort();
        assert_eq!(out, vec![1, 2, 2, 2, 5, 5, 7, 9]);
    }
}

#[test]
fn random_sort_changes_the_order() {
    let input: Vec<u32> = (0..50).collect();
    let mut changed = 0;
    let mut distinct = std::collections::HashSet::new();
    for _ in 0..20 {
        let out = random_sort(input.clone());
        if out != input {
            changed += 1;
        }
        distinct.insert(out);
    }
    assert!(changed >= 1);
    assert!(distinct.len() >= 2);
}

#[test]
fn random_sort_of_short_inputs() {
    assert_eq!(random_sort(Vec::<u8>::new()), Vec::<u8>::new());
    assert_eq!(random_sort(vec![4u8]), vec![4]);
}

#[test]
fn reversed_turns_a_vector_over() {
    assert_eq!(reversed(vec![1, 2, 3]), vec![3, 2, 1]);
    assert_eq!(reversed(Vec::<i8>::new()), Vec::<i8>::new());
}

#[test]
fn le_exec_is_the_comparison() {
    assert!(le_exec(&1, &2));
    assert!(le_exec(&2, &2));
    assert!(!le_exec(&3, &2));
    assert!(le_exec(&"X".to_string(), &"x".to_string()));
}

#[test]
fn merge_sort_agrees_with_a_stable_sort() {
    let tags = ['a', 'b', 'c', 'd', 'e', 'f', 'g', 'h', 'i', 'j', 'k', 'l', 'm'];
    let mut input: Vec<Tagged> = Vec::new();
    let mut seed: u32 = 12345;
    for n in 0..200usize {
        seed = seed.wrapping_mul(1103515245).wrapping_add(12345);
        input.push(Tagged { key: (seed >> 16) % 7, tag: tags[n % tags.len()] });
    }
    let mut expected = input.clone();
    expected.sort_by_key(|r| r.key);
    let mut work = input.clone();
    let out = merge_sort(&mut work);
    assert_eq!(pairs(&out), pairs(&expected));
}

#[test]
fn quick_sort_agrees_with_std_on_keys() {
    let mut input: Vec<u32> = Vec::new();
    let mut seed: u32 = 99;
    for _ in 0..300 {
        seed = seed.wrapping_mul(1103515245).wrapping_add(12345);
        input.push((seed >> 16) % 50);
    }
    let mut expected = input.clone();
    expected.sort();
    assert_eq!(quick_sort(input), expected);
}
