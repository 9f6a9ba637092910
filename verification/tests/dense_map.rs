use shadow::storage::dense::{DenseMap, DenseSet};

fn map_of(items: &[(u64, &'static str)]) -> DenseMap<u64, &'static str> {
    let mut map = DenseMap::new();
    for (k, v) in items {
        map.insert(*k, *v);
    }
    map
}

#[test]
fn insert_then_get_reads_back_the_value() {
    let mut map = map_of(&[(1, "a"), (2, "b")]);
    assert_eq!(map.insert(3, "c"), None);
    assert_eq!(map.get(&3), Some(&"c"));
    assert_eq!(map.get(&1), Some(&"a"));
    assert_eq!(map.get(&2), Some(&"b"));
    assert_eq!(map.keys(), &[1, 2, 3]);
}

#[test]
fn insert_existing_key_replaces_in_place() {
    let mut map = map_of(&[(1, "a"), (2, "b")]);
    assert_eq!(map.insert(1, "z"), Some("a"));
    assert_eq!(map.keys(), &[1, 2]);
    assert_eq!(map.values(), &["z", "b"]);
    assert_eq!(map.len(), 2);
}

#[test]
fn get_of_missing_key_is_none() {
    let map = map_of(&[(1, "a")]);
    assert_eq!(map.get(&9), None);
    assert!(!map.contains(&9));
    assert!(map.contains(&1));
}

#[test]
fn remove_shifts_later_entries() {
    let mut map = map_of(&[(1, "a"), (2, "b"), (3, "c")]);
    assert_eq!(map.remove(&2), Some("b"));
    assert_eq!(map.keys(), &[1, 3]);
    assert_eq!(map.get(&3), Some(&"c"));
    assert!(!map.contains(&2));
    assert_eq!(map.remove(&2), None);
}

#[test]
fn swap_remove_moves_the_last_entry_in() {
    let mut map = map_of(&[(1, "a"), (2, "b"), (3, "c")]);
    assert_eq!(map.swap_remove(&1), Some("a"));
    assert_eq!(map.keys(), &[3, 2]);
    assert_eq!(map.get(&3), Some(&"c"));
    assert_eq!(map.get(&2), Some(&"b"));
}

#[test]
fn insert_before_and_after_place_next_to_the_anchor() {
    let mut map = map_of(&[(1, "a"), (3, "c")]);
    assert_eq!(map.insert_before(2, "b", &3), None);
    assert_eq!(map.keys(), &[1, 2, 3]);
    assert_eq!(map.get(&3), Some(&"c"));
    assert_eq!(map.insert_after(4, "d", &1), None);
    assert_eq!(map.keys(), &[1, 4, 2, 3]);
    assert_eq!(map.values(), &["a", "d", "b", "c"]);
    assert_eq!(map.get(&4), Some(&"d"));
    assert_eq!(map.get(&3), Some(&"c"));
}

#[test]
fn insert_before_a_missing_anchor_appends() {
    let mut map = map_of(&[(1, "a")]);
    assert_eq!(map.insert_before(2, "b", &7), None);
    assert_eq!(map.keys(), &[1, 2]);
    assert_eq!(map.get(&2), Some(&"b"));
}

#[test]
fn retain_keeps_what_the_test_accepts_in_order() {
    let mut map = map_of(&[(1, "a"), (2, "b"), (3, "c"), (4, "d")]);
    map.retain(|k, _| k % 2 == 0);
    assert_eq!(map.keys(), &[2, 4]);
    assert_eq!(map.values(), &["b", "d"]);
}

#[test]
fn sort_orders_the_keys_and_leaves_the_values() {
    let mut map = map_of(&[(3, "c"), (1, "a"), (2, "b")]);
    map.sort();
    assert_eq!(map.keys(), &[1, 2, 3]);
    assert_eq!(map.values(), &["c", "a", "b"]);
}

#[test]
fn drain_empties_the_map_in_order() {
    let mut map = map_of(&[(5, "x"), (6, "y")]);
    let items = map.drain();
    assert_eq!(items, vec![(5, "x"), (6, "y")]);
    assert_eq!(map.len(), 0);
    assert!(map.is_empty());
    assert!(!map.contains(&5));
}

#[test]
fn get_mut_changes_the_value_in_place() {
    let mut map = map_of(&[(1, "a")]);
    *map.get_mut(&1).unwrap() = "q";
    assert_eq!(map.get(&1), Some(&"q"));
    assert!(map.get_mut(&2).is_none());
}

#[test]
fn set_insert_index_and_remove() {
    let mut set: DenseSet<u64> = DenseSet::new();
    assert_eq!(set.insert(10), 0);
    assert_eq!(set.insert(20), 1);
    assert_eq!(set.insert(30), 2);
    assert_eq!(set.index(&20), Some(1));
    assert!(set.contains(&30));
    assert_eq!(set.remove(&10), Some(10));
    assert_eq!(set.keys(), &[20, 30]);
    assert_eq!(set.index(&30), Some(1));
    assert!(!set.contains(&10));
    assert_eq!(set.remove(&10), None);
}

#[test]
fn set_sort_orders_the_keys() {
    let mut set: DenseSet<u64> = DenseSet::new();
    set.insert(3);
    set.insert(1);
    set.insert(2);
    set.sort();
    assert_eq!(set.keys(), &[1, 2, 3]);
    assert_eq!(set.index(&3), Some(2));
}

#[test]
fn insert_unique_keeps_one_copy() {
    let mut set: DenseSet<u64> = DenseSet::new();
    set.insert_unique(4);
    set.insert_unique(7);
    set.insert_unique(4);
    assert_eq!(set.keys(), &[4, 7]);
    assert_eq!(set.len(), 2);
}

#[test]
fn insert_before_index_shifts_the_others() {
    let mut map = map_of(&[(1, "a"), (2, "b")]);
    map.insert_before_index(0, 3, "c");
    assert_eq!(map.keys(), &[3, 1, 2]);
    assert_eq!(map.values(), &["c", "a", "b"]);
    assert_eq!(map.get(&3), Some(&"c"));
    assert_eq!(map.get(&1), Some(&"a"));
    assert_eq!(map.get(&2), Some(&"b"));
}

#[test]
fn insert_before_index_of_a_listed_key_lists_it_twice() {
    let mut map = map_of(&[(1, "a"), (2, "b"), (3, "c")]);
    map.insert_before_index(0, 3, "z");
    assert_eq!(map.keys(), &[3, 1, 2, 3]);
    assert_eq!(map.values(), &["z", "a", "b", "c"]);
    assert_eq!(map.get(&3), Some(&"c"));
    assert_eq!(map.get(&1), Some(&"a"));
}

#[test]
fn insert_after_index_puts_the_key_next() {
    let mut map = map_of(&[(1, "a"), (2, "b")]);
    map.insert_after_index(0, 9, "x");
    assert_eq!(map.keys(), &[1, 9, 2]);
    assert_eq!(map.get(&9), Some(&"x"));
    assert_eq!(map.get(&2), Some(&"b"));
    map.insert_after_index(2, 5, "y");
    assert_eq!(map.keys(), &[1, 9, 2, 5]);
    assert_eq!(map.get(&5), Some(&"y"));
}

#[test]
fn insert_moving_takes_a_listed_key_to_the_end() {
    let mut map = map_of(&[(1, "a"), (2, "b"), (3, "c")]);
    assert_eq!(map.insert_moving(1, "z"), Some("a"));
    assert_eq!(map.keys(), &[3, 2, 1]);
    assert_eq!(map.values(), &["c", "b", "z"]);
    assert_eq!(map.get(&3), Some(&"c"));
    assert_eq!(map.get(&2), Some(&"b"));
    assert_eq!(map.insert_moving(4, "d"), None);
    assert_eq!(map.keys(), &[3, 2, 1, 4]);
}

#[test]
fn retain_reindexed_records_the_kept_positions() {
    let mut map = map_of(&[(1, "a"), (2, "b"), (3, "c")]);
    map.retain_reindexed(|k: &u64, _v: &&str| *k != 2);
    assert_eq!(map.keys(), &[1, 3]);
    assert_eq!(map.values(), &["a", "c"]);
    assert_eq!(map.get(&1), Some(&"a"));
    assert_eq!(map.get(&3), Some(&"c"));
}

#[test]
fn swap_remove_reindexed_takes_the_last_key_too() {
    let mut map = map_of(&[(1, "a"), (2, "b"), (3, "c")]);
    assert_eq!(map.swap_remove_reindexed(&1), Some("a"));
    assert_eq!(map.keys(), &[3, 2]);
    assert_eq!(map.get(&3), Some(&"c"));
    assert_eq!(map.get(&2), Some(&"b"));
    assert_eq!(map.swap_remove_reindexed(&2), Some("b"));
    assert_eq!(map.keys(), &[3]);
    assert_eq!(map.get(&3), Some(&"c"));
    assert_eq!(map.swap_remove_reindexed(&9), None);
}

#[test]
fn append_keeps_the_values_of_the_other_map() {
    let mut map = map_of(&[(1, "a"), (2, "b")]);
    let mut other = map_of(&[(2, "x"), (5, "y")]);
    map.append(&mut other);
    assert_eq!(map.get(&1), Some(&"a"));
    assert_eq!(map.get(&2), Some(&"x"));
    assert_eq!(map.get(&5), Some(&"y"));
    assert!(other.keys().is_empty());
}

#[test]
fn sort_by_follows_the_given_order() {
    let mut map = map_of(&[(3, "c"), (1, "a"), (2, "b"), (4, "d")]);
    map.sort_by(|a, b| b.cmp(a));
    assert_eq!(map.keys(), &[4, 3, 2, 1]);
    assert_eq!(map.values(), &["c", "a", "b", "d"]);
    assert_eq!(map.get(&4), Some(&"c"));
    assert_eq!(map.get(&1), Some(&"d"));
}

#[test]
fn sort_by_keeps_equal_keys_in_their_order() {
    let mut map = map_of(&[(21, "x"), (10, "y"), (11, "z"), (20, "w")]);
    map.sort_by(|a, b| (a / 10).cmp(&(b / 10)));
    assert_eq!(map.keys(), &[10, 11, 21, 20]);
}

#[test]
fn set_sort_by_follows_the_given_order() {
    let mut set: DenseSet<u64> = DenseSet::new();
    set.insert(1);
    set.insert(3);
    set.insert(2);
    set.sort_by(|a, b| b.cmp(a));
    assert_eq!(set.keys(), &[3, 2, 1]);
    assert_eq!(set.index(&3), Some(0));
    assert_eq!(set.index(&1), Some(2));
}

#[test]
fn remove_index_drops_the_entry_and_keeps_the_keys() {
    let mut set: DenseSet<u64> = DenseSet::new();
    set.insert(10);
    set.insert(20);
    set.insert(30);
    assert_eq!(set.remove_index(&20), Some(1));
    assert_eq!(set.keys(), &[10, 20, 30]);
    assert_eq!(set.index(&20), Some(1));
    assert_eq!(set.index(&30), Some(2));
    assert_eq!(set.remove_index(&99), None);
}

#[test]
fn swap_remove_found_tells_whether_the_key_was_there() {
    let mut set: DenseSet<u64> = DenseSet::new();
    set.insert(10);
    set.insert(20);
    set.insert(30);
    assert!(set.swap_remove_found(&10));
    assert_eq!(set.keys(), &[30, 20]);
    assert_eq!(set.index(&30), Some(0));
    assert!(!set.contains(&10));
    assert!(!set.swap_remove_found(&10));
}
