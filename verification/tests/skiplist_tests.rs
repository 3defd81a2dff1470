use skiplist::random::Random;
use skiplist::skiplist::{SkipList, DEFAULT_BRANCHING, DEFAULT_MAX_LEVEL, DEFAULT_SEED};
use std::cmp::Ordering;
use std::collections::BTreeSet;

#[test]
fn skip_list_test() {
    let mut list = SkipList::<i32>::new();
    assert!(list.max_level() == DEFAULT_MAX_LEVEL);

    for i in 1..100 {
        list.insert(i);
        assert!(list.len() == i as usize);
    }

    for i in 1..100 {
        assert!(list.find(&i) == Some(&i));
    }

    for i in 100..200 {
        assert!(list.find(&i) == None)
    }

    for i in 1..100 {
        assert!(list.delete(&i));
    }

    assert!(list.is_empty());
}

/// A key with a payload that the order does not look at.
#[derive(Debug, Clone)]
struct Entry {
    id: i32,
    payload: &'static str,
}

impl PartialEq for Entry {
    fn eq(&self, other: &Self) -> bool {
        self.id == other.id
    }
}

impl Eq for Entry {}

impl PartialOrd for Entry {
    fn partial_cmp(&self, other: &Self) -> Option<Ordering> {
        Some(self.cmp(other))
    }
}

impl Ord for Entry {
    fn cmp(&self, other: &Self) -> Ordering {
        self.id.cmp(&other.id)
    }
}

fn scrambled(n: i32) -> Vec<i32> {
    // 37 is a unit modulo every n used here, so this is a permutation of 0..n.
    (0..n).map(|i| (i * 37 + 11) % n).collect()
}

fn keys_of(list: &SkipList<i32>) -> Vec<i32> {
    list.keys().into_iter().copied().collect()
}

#[test]
fn a_new_list_is_empty() {
    let list = SkipList::<i32>::new();
    assert_eq!(list.len(), 0);
    assert!(list.is_empty());
    assert_eq!(list.find(&0), None);
    assert!(list.keys().is_empty());
}

#[test]
fn the_defaults() {
    assert_eq!(DEFAULT_MAX_LEVEL, 12);
    assert_eq!(DEFAULT_BRANCHING, 4);
    assert_eq!(DEFAULT_SEED, 0xdeadbeef);
    let list = SkipList::<u8>::new();
    assert_eq!(list.max_level(), 12);
    assert_eq!(list.branching(), 4);
}

#[test]
fn one_to_a_hundred() {
    let mut list = SkipList::<i32>::new();
    for i in 1..100 {
        list.insert(i);
    }
    assert_eq!(list.len(), 99);
    assert_eq!(list.find(&50), Some(&50));
    assert_eq!(list.find(&150), None);
    for i in 1..100 {
        list.delete(&i);
    }
    assert!(list.is_empty());
}

#[test]
fn distinct_keys_are_all_counted_and_found() {
    let mut list = SkipList::<i32>::new();
    let keys = scrambled(1000);
    for (n, key) in keys.iter().enumerate() {
        list.insert(*key);
        assert_eq!(list.len(), n + 1);
    }
    assert_eq!(list.len(), 1000);
    for key in &keys {
        assert_eq!(list.find(key), Some(key));
    }
}

#[test]
fn inserting_a_present_key_keeps_the_length() {
    let mut list = SkipList::<i32>::new();
    for key in [4, 8, 15, 16, 23, 42] {
        list.insert(key);
    }
    for key in [15, 4, 42, 15] {
        list.insert(key);
        assert_eq!(list.len(), 6);
        assert_eq!(list.find(&key), Some(&key));
    }
    assert_eq!(keys_of(&list), vec![4, 8, 15, 16, 23, 42]);
}

#[test]
fn a_second_insert_replaces_the_payload() {
    let mut list = SkipList::<Entry>::new();
    list.insert(Entry { id: 5, payload: "first" });
    assert_eq!(list.len(), 1);
    assert_eq!(list.find(&Entry { id: 5, payload: "" }).unwrap().payload, "first");
    list.insert(Entry { id: 5, payload: "second" });
    assert_eq!(list.len(), 1);
    assert_eq!(list.find(&Entry { id: 5, payload: "" }).unwrap().payload, "second");
    assert_eq!(list.keys().len(), 1);
}

#[test]
fn replacing_leaves_the_other_payloads_alone() {
    let mut list = SkipList::<Entry>::new();
    for (id, payload) in [(3, "c"), (1, "a"), (2, "b")] {
        list.insert(Entry { id, payload });
    }
    list.insert(Entry { id: 2, payload: "B" });
    let payloads: Vec<&str> = list.keys().iter().map(|e| e.payload).collect();
    assert_eq!(payloads, vec!["a", "B", "c"]);
}

#[test]
fn deleting_by_an_equivalent_key_takes_the_stored_one_out() {
    let mut list = SkipList::<Entry>::new();
    list.insert(Entry { id: 1, payload: "one" });
    list.insert(Entry { id: 2, payload: "two" });
    assert!(list.delete(&Entry { id: 1, payload: "whatever" }));
    assert_eq!(list.len(), 1);
    assert!(list.find(&Entry { id: 1, payload: "" }).is_none());
    assert!(!list.delete(&Entry { id: 1, payload: "one" }));
}

#[test]
fn keys_never_inserted_are_absent() {
    let mut list = SkipList::<i32>::new();
    for key in (0..200).step_by(2) {
        list.insert(key);
    }
    for key in (1..200).step_by(2) {
        assert_eq!(list.find(&key), None);
    }
    assert_eq!(list.find(&-1), None);
    assert_eq!(list.find(&200), None);
    assert_eq!(list.find(&i32::MIN), None);
    assert_eq!(list.find(&i32::MAX), None);
}

#[test]
fn a_deleted_key_is_absent() {
    let mut list = SkipList::<i32>::new();
    for key in 0..50 {
        list.insert(key);
    }
    assert!(list.delete(&20));
    assert_eq!(list.find(&20), None);
    assert_eq!(list.find(&19), Some(&19));
    assert_eq!(list.find(&21), Some(&21));
    assert_eq!(list.len(), 49);
}

#[test]
fn after_deleting_every_key_the_list_is_empty() {
    let mut list = SkipList::<i32>::new();
    let keys = scrambled(500);
    for key in &keys {
        list.insert(*key);
    }
    for key in keys.iter().rev() {
        assert!(list.delete(key));
    }
    assert!(list.is_empty());
    assert_eq!(list.len(), 0);
    for key in &keys {
        assert_eq!(list.find(key), None);
    }
    assert!(list.keys().is_empty());
}

#[test]
fn keys_come_out_strictly_increasing() {
    let mut list = SkipList::<i32>::new();
    for key in scrambled(300) {
        list.insert(key);
        list.insert((key * 7) % 300);
        if key % 3 == 0 {
            list.delete(&((key + 100) % 300));
        }
        let keys = keys_of(&list);
        assert_eq!(keys.len(), list.len());
        assert!(keys.windows(2).all(|w| w[0] < w[1]));
    }
}

#[test]
fn keys_are_the_inserted_keys_in_order() {
    let mut list = SkipList::<i32>::new();
    for key in [5, 1, 4, 2, 3, 9, 0] {
        list.insert(key);
    }
    assert_eq!(keys_of(&list), vec![0, 1, 2, 3, 4, 5, 9]);
    list.delete(&4);
    list.delete(&0);
    list.delete(&9);
    assert_eq!(keys_of(&list), vec![1, 2, 3, 5]);
}

#[test]
fn deleting_an_absent_key_changes_nothing() {
    let mut list = SkipList::<i32>::new();
    assert!(!list.delete(&1));
    assert!(list.is_empty());
    for key in [10, 20, 30] {
        list.insert(key);
    }
    for key in [5, 15, 25, 35] {
        assert!(!list.delete(&key));
        assert_eq!(list.len(), 3);
        assert_eq!(keys_of(&list), vec![10, 20, 30]);
    }
}

#[test]
fn deleting_twice_succeeds_once() {
    let mut list = SkipList::<i32>::new();
    list.insert(1);
    assert!(list.delete(&1));
    assert!(!list.delete(&1));
    assert!(list.is_empty());
}

#[test]
fn first_and_last_keys_can_be_deleted() {
    let mut list = SkipList::<i32>::new();
    for key in 0..20 {
        list.insert(key);
    }
    assert!(list.delete(&0));
    assert!(list.delete(&19));
    assert_eq!(keys_of(&list), (1..19).collect::<Vec<i32>>());
    list.insert(-5);
    list.insert(100);
    assert_eq!(keys_of(&list).first(), Some(&-5));
    assert_eq!(keys_of(&list).last(), Some(&100));
}

#[test]
fn a_key_can_come_back() {
    let mut list = SkipList::<i32>::new();
    for round in 0..50 {
        list.insert(7);
        list.insert(round + 100);
        assert_eq!(list.find(&7), Some(&7));
        assert!(list.delete(&7));
        assert_eq!(list.find(&7), None);
        assert_eq!(list.len(), round as usize + 1);
    }
}

#[test]
fn a_list_agrees_with_an_ordered_set() {
    let mut list = SkipList::<u32>::new();
    let mut model = BTreeSet::new();
    let mut rand = Random::new(2024);
    for _ in 0..20000 {
        let key = rand.uniform(500);
        match rand.uniform(3) {
            0 => {
                assert_eq!(list.delete(&key), model.remove(&key));
            }
            1 => {
                assert_eq!(list.find(&key), model.get(&key));
            }
            _ => {
                list.insert(key);
                model.insert(key);
            }
        }
        assert_eq!(list.len(), model.len());
        assert_eq!(list.is_empty(), model.is_empty());
    }
    let keys: Vec<u32> = list.keys().into_iter().copied().collect();
    let expected: Vec<u32> = model.into_iter().collect();
    assert_eq!(keys, expected);
}

#[test]
fn a_list_of_strings() {
    let mut list = SkipList::<String>::new();
    for word in ["pear", "apple", "fig", "apple", "kiwi"] {
        list.insert(word.to_string());
    }
    assert_eq!(list.len(), 4);
    let keys: Vec<&str> = list.keys().iter().map(|k| k.as_str()).collect();
    assert_eq!(keys, vec!["apple", "fig", "kiwi", "pear"]);
    assert!(list.delete(&"fig".to_string()));
    assert_eq!(list.find(&"fig".to_string()), None);
}

#[test]
fn with_config_sets_levels_and_branching() {
    let list = SkipList::<i32>::with_config(5, 2, 99);
    assert_eq!(list.max_level(), 5);
    assert_eq!(list.branching(), 2);
    assert!(list.is_empty());
}

#[test]
fn a_list_of_one_level_is_a_plain_sorted_list() {
    let mut list = SkipList::<i32>::with_config(1, 4, 1);
    for key in scrambled(200) {
        list.insert(key);
    }
    assert_eq!(keys_of(&list), (0..200).collect::<Vec<i32>>());
    for key in (0..200).step_by(2) {
        assert!(list.delete(&key));
    }
    assert_eq!(keys_of(&list), (1..200).step_by(2).collect::<Vec<i32>>());
}

#[test]
fn a_list_whose_nodes_are_all_of_full_height() {
    let mut list = SkipList::<i32>::with_config(6, 1, 1);
    for key in scrambled(200) {
        list.insert(key);
    }
    assert_eq!(keys_of(&list), (0..200).collect::<Vec<i32>>());
    for key in scrambled(200) {
        assert_eq!(list.find(&key), Some(&key));
        assert!(list.delete(&key));
    }
    assert!(list.is_empty());
}

#[test]
fn the_seed_does_not_change_what_the_list_holds() {
    for seed in [0u32, 1, 16, 0xdeadbeef, u32::MAX] {
        let mut list = SkipList::<i32>::with_config(8, 4, seed);
        for key in scrambled(100) {
            list.insert(key);
        }
        assert_eq!(keys_of(&list), (0..100).collect::<Vec<i32>>());
    }
}

#[test]
fn random_level_draws_from_the_list_s_generator() {
    let mut list = SkipList::<i32>::new();
    let mut rand = Random::new(DEFAULT_SEED);
    for _ in 0..40 {
        assert_eq!(list.random_level(), rand.random_level(DEFAULT_MAX_LEVEL, DEFAULT_BRANCHING));
    }
    assert!(list.is_empty());
}

#[test]
fn the_first_levels_of_a_default_list() {
    let mut list = SkipList::<i32>::new();
    let drawn: Vec<usize> = (0..17).map(|_| list.random_level()).collect();
    assert_eq!(drawn, vec![2, 1, 1, 1, 1, 1, 1, 1, 2, 1, 1, 1, 1, 1, 2, 1, 3]);
}

#[test]
fn the_levels_of_a_list_stay_within_its_levels() {
    let mut list = SkipList::<i32>::with_config(3, 2, 5);
    for _ in 0..2000 {
        let level = list.random_level();
        assert!(1 <= level && level <= 3);
    }
}

#[test]
fn clear_empties_the_list() {
    let mut list = SkipList::<i32>::new();
    for key in scrambled(300) {
        list.insert(key);
    }
    list.clear();
    assert!(list.is_empty());
    assert_eq!(list.len(), 0);
    assert!(list.keys().is_empty());
    assert_eq!(list.find(&5), None);
    assert_eq!(list.max_level(), DEFAULT_MAX_LEVEL);
}

#[test]
fn a_cleared_list_can_be_filled_again() {
    let mut list = SkipList::<i32>::new();
    list.clear();
    assert!(list.is_empty());
    for round in 0..3 {
        for key in scrambled(100) {
            list.insert(key + round);
        }
        assert_eq!(keys_of(&list), (round..100 + round).collect::<Vec<i32>>());
        list.clear();
        assert!(list.is_empty());
    }
}

#[test]
fn a_long_list_is_torn_down_without_deep_recursion() {
    let mut list = SkipList::<u32>::new();
    for key in 0..200_000 {
        list.insert(key);
    }
    assert_eq!(list.len(), 200_000);
    assert_eq!(list.find(&123_456), Some(&123_456));
    drop(list);
    let mut list = SkipList::<u32>::new();
    for key in (0..200_000).rev() {
        list.insert(key);
    }
    list.clear();
    assert!(list.is_empty());
}
