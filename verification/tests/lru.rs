use lru::List;
use lru::LRU;

#[test]
fn it_works() {
    let mut list = List::new();
    let item = list.push_front("k1", "v1");
    list.push_front("k2", "v2");
    list.push_front("k3", "v3");

    list.move_to_front(item);

    let mut popped = list.pop_back();
    assert_eq!("k2", popped.unwrap().0);

    popped = list.pop_back();
    assert_eq!("k3", popped.unwrap().0);

    popped = list.pop_back();
    assert_eq!("k1", popped.unwrap().0);

    assert_eq!(None, list.pop_back());

    let mut lru = LRU::new(3);
    lru.put("key1", "val1");
    lru.put("key2", "val2");
    lru.put("key3", "val3");

    assert_eq!(3, lru.count());

    assert_eq!(Some(&"val1"), lru.get(&"key1"));
    assert_eq!(Some(&"val2"), lru.get(&"key2"));
    assert_eq!(Some(&"val3"), lru.get(&"key3"));
    assert_eq!(None, lru.get(&"key4"));

    assert_eq!(Some(&mut "val1"), lru.get_mut(&"key1"));
    assert_eq!(Some(&mut "val2"), lru.get_mut(&"key2"));
    assert_eq!(Some(&mut "val3"), lru.get_mut(&"key3"));
    assert_eq!(None, lru.get_mut(&"key4"));

    lru.put("key4", "val4");
    assert_eq!(3, lru.count());
    assert_eq!(Some(&"val2"), lru.get(&"key2"));
    assert_eq!(Some(&"val3"), lru.get(&"key3"));
    assert_eq!(Some(&"val4"), lru.get(&"key4"));

    lru = LRU::new(0);
    lru.put("key1", "val1");
    lru.put("key2", "val2");

    assert_eq!(1, lru.count());
    assert_eq!(None, lru.get(&"key1"));
    assert_eq!(Some(&"val2"), lru.get(&"key2"));
}

#[test]
fn capacity_holds_after_every_put() {
    let mut lru = LRU::new(2);
    let keys: Vec<u64> = vec![1, 2, 3, 2, 4, 5, 1, 5, 6];
    for (n, k) in keys.into_iter().enumerate() {
        lru.put(k, n);
        assert!(lru.count() <= 2);
    }
}

#[test]
fn accessed_key_is_evicted_last() {
    let mut lru = LRU::new(2);
    lru.put(1u32, "one");
    lru.put(2u32, "two");
    assert_eq!(Some(&"one"), lru.get(&1));
    lru.put(3u32, "three");
    assert_eq!(Some(&"one"), lru.get(&1));
    assert_eq!(None, lru.get(&2));
    assert_eq!(Some(&"three"), lru.get(&3));
}

#[test]
fn eviction_takes_least_recently_used() {
    let mut lru = LRU::new(3);
    lru.put(1u64, 10u64);
    lru.put(2u64, 20u64);
    lru.put(3u64, 30u64);
    lru.put(4u64, 40u64);
    assert_eq!(3, lru.count());
    assert_eq!(None, lru.get(&1));
    assert_eq!(Some(&20), lru.get(&2));
    assert_eq!(Some(&30), lru.get(&3));
    assert_eq!(Some(&40), lru.get(&4));
}

#[test]
fn update_returns_previous_and_keeps_count() {
    let mut lru = LRU::new(2);
    lru.put("a", 1);
    lru.put("b", 2);
    assert_eq!(2, lru.count());
    let prev = lru.put("a", 10);
    assert_eq!(Some(1), prev);
    assert_eq!(2, lru.count());
    assert_eq!(Some(&10), lru.get(&"a"));
    assert_eq!(Some(&2), lru.get(&"b"));
}

#[test]
fn zero_capacity_keeps_one_transient_entry() {
    let mut lru = LRU::new(0);
    assert_eq!(None, lru.put("a", 1));
    assert_eq!(None, lru.put("b", 2));
    assert_eq!(1, lru.count());
    assert_eq!(None, lru.get(&"a"));
    assert_eq!(Some(&2), lru.get(&"b"));
}

#[test]
fn single_capacity_replaces_the_only_entry() {
    let mut lru = LRU::new(1);
    lru.put("a", 1);
    assert_eq!(1, lru.count());
    lru.put("b", 2);
    assert_eq!(1, lru.count());
    assert_eq!(None, lru.get(&"a"));
    assert_eq!(Some(&2), lru.get(&"b"));
    lru.put("c", 3);
    assert_eq!(1, lru.count());
    assert_eq!(None, lru.get(&"b"));
    assert_eq!(Some(&3), lru.get(&"c"));
}

#[test]
fn get_mut_edits_the_stored_value() {
    let mut lru = LRU::new(2);
    lru.put(7u64, String::from("seven"));
    if let Some(v) = lru.get_mut(&7) {
        v.push_str(" of nine");
    } else {
        panic!("key must be present");
    }
    assert_eq!(Some(&String::from("seven of nine")), lru.get(&7));
    assert_eq!(None, lru.get_mut(&8));
}

#[test]
fn new_cache_is_empty() {
    let lru: LRU<u64, u64> = LRU::new(4);
    assert_eq!(0, lru.count());
    let mut lru2: LRU<u64, u64> = LRU::new(4);
    assert_eq!(None, lru2.get(&0));
}

#[test]
fn string_keys_round_trip() {
    let mut lru = LRU::new(2);
    lru.put(String::from("alpha"), 1u64);
    lru.put(String::from("beta"), 2u64);
    lru.put(String::from("gamma"), 3u64);
    assert_eq!(2, lru.count());
    assert_eq!(None, lru.get(&String::from("alpha")));
    assert_eq!(Some(&2), lru.get(&String::from("beta")));
    assert_eq!(Some(&3), lru.get(&String::from("gamma")));
}

#[test]
fn slots_are_reused_across_many_evictions() {
    let mut lru = LRU::new(2);
    for k in 0u64..100 {
        lru.put(k, k * 2);
        assert!(lru.count() <= 2);
    }
    assert_eq!(2, lru.count());
    assert_eq!(Some(&198), lru.get(&99));
    assert_eq!(Some(&196), lru.get(&98));
    assert_eq!(None, lru.get(&97));
}

#[test]
fn get_refreshes_recency_repeatedly() {
    let mut lru = LRU::new(3);
    lru.put(1u8, 'a');
    lru.put(2u8, 'b');
    lru.put(3u8, 'c');
    assert_eq!(Some(&'a'), lru.get(&1));
    assert_eq!(Some(&'b'), lru.get(&2));
    lru.put(4u8, 'd');
    assert_eq!(None, lru.get(&3));
    assert_eq!(Some(&'a'), lru.get(&1));
    assert_eq!(Some(&'b'), lru.get(&2));
    assert_eq!(Some(&'d'), lru.get(&4));
}

#[test]
fn chain_handles_single_entry_moves() {
    let mut list = List::new();
    let only = list.push_front(1u64, "one");
    list.move_to_front(only);
    let popped = list.pop_back();
    assert_eq!(Some((1, "one")), popped);
    assert_eq!(None, list.pop_back());
    let again = list.push_front(2u64, "two");
    list.move_to_front(again);
    assert_eq!(Some((2, "two")), list.pop_back());
}

#[test]
fn chain_front_move_is_a_noop() {
    let mut list = List::new();
    list.push_front("x", 1);
    let front = list.push_front("y", 2);
    list.move_to_front(front);
    assert_eq!(Some(("x", 1)), list.pop_back());
    assert_eq!(Some(("y", 2)), list.pop_back());
    assert_eq!(None, list.pop_back());
}

#[test]
fn chain_moves_middle_entry_to_front() {
    let mut list = List::new();
    list.push_front("a", 1);
    let mid = list.push_front("b", 2);
    list.push_front("c", 3);
    list.move_to_front(mid);
    assert_eq!(Some(("a", 1)), list.pop_back());
    assert_eq!(Some(("c", 3)), list.pop_back());
    assert_eq!(Some(("b", 2)), list.pop_back());
    assert_eq!(None, list.pop_back());
}
