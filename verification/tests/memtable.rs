use kleestor::memtable::btree::{BTree, BTreeImpl};
use kleestor::memtable::MemTable;
use kleestor::order::{lower_bound, KeyOrder, Order};
use kleestor::record::bytestream::ByteStream;
use std::cell::Cell;
use std::collections::BTreeMap;
use std::rc::Rc;

fn expect_ok<const N: usize>(at: u64) {
    let n = N as u64;
    let mut mp = BTreeImpl::<u64, u64, N>::new();
    for i in 0u64..=n * 2 {
        if i != at {
            mp.insert(i, i * 233 + 2333);
        }
    }
    mp.insert(at as u64, at * 233 + 2333 as u64);
    for key in 0u64..=n * 2 {
        let value = match mp.get(&key) {
            Some(&mut x) => x,
            None => 11,
        };
        assert_eq!(value, key * 233 + 2333);
    }
}

#[test]
fn left_insert() {
    for i in 0..=6 {
        expect_ok::<7>(i);
    }
}

#[test]
fn median_insert() {
    expect_ok::<7>(7);
}

#[test]
fn right_insert() {
    for i in 8..=14 {
        expect_ok::<7>(i);
    }
}

/// Memory leak testing utilities
struct DroppableI64 {
    value: i64,
    counter: Rc<Cell<i64>>,
}

impl Drop for DroppableI64 {
    fn drop(&mut self) {
        self.counter.set(self.counter.get() + self.value);
        let v = self.value;
        println!("dropping {v}");
    }
}

impl DroppableI64 {
    fn from(value: i64, counter_ref: &Rc<Cell<i64>>) -> Self {
        Self { value, counter: counter_ref.clone() }
    }
}

#[test]
fn no_memory_leak() {
    // counter for drop references
    let drop_counter = Rc::new(Cell::new(0i64));
    let ctr_ref = &drop_counter;

    // ensure that the drop counter is working properly
    {
        let mut mp = BTreeMap::<u64, DroppableI64>::new();
        mp.insert(10, DroppableI64::from(1, ctr_ref));
        mp.insert(20, DroppableI64::from(3, ctr_ref));
        mp.insert(30, DroppableI64::from(7, ctr_ref));
        mp.insert(40, DroppableI64::from(15, ctr_ref));
        mp.insert(50, DroppableI64::from(31, ctr_ref));
    }
    assert_eq!(drop_counter.get(), 57);

    // check validity on tree
    {
        let mut mp = BTreeImpl::<u64, DroppableI64, 2>::new();
        mp.insert(10, DroppableI64::from(1000, ctr_ref));
        mp.insert(20, DroppableI64::from(3000, ctr_ref));
        mp.insert(30, DroppableI64::from(7000, ctr_ref));
        mp.insert(40, DroppableI64::from(15000, ctr_ref));
        mp.insert(50, DroppableI64::from(31000, ctr_ref));
    }
    assert_eq!(drop_counter.get(), 57057);
}

#[test]
fn stress_test() {
    // ensure it works on big data
    let loops: u64 = 23333;
    let mut mp = BTreeImpl::<u64, u64, 5>::new();
    for key in 1..=loops {
        mp.insert(key, key * 2 + 1);
    }
    for key in 1..=loops {
        let value = match mp.get(&key) {
            Some(&mut x) => x,
            None => 0,
        };
        assert_eq!(value, key * 2 + 1);
    }
}

#[test]
fn every_value_is_dropped_once_through_splits_and_replacements() {
    let drop_counter = Rc::new(Cell::new(0i64));
    {
        let mut mp = BTreeImpl::<u64, DroppableI64, 2>::new();
        for key in 0..200_u64 {
            mp.insert((key * 37) % 200, DroppableI64::from(1, &drop_counter));
        }
        assert_eq!(drop_counter.get(), 0);
        for key in 0..50_u64 {
            mp.insert(key, DroppableI64::from(1000, &drop_counter));
        }
        assert_eq!(drop_counter.get(), 50);
    }
    assert_eq!(drop_counter.get(), 200 + 50 * 1000);
}

fn permutations(items: &mut Vec<u64>, k: usize, out: &mut Vec<Vec<u64>>) {
    if k == items.len() {
        out.push(items.clone());
        return;
    }
    for i in k..items.len() {
        items.swap(k, i);
        permutations(items, k + 1, out);
        items.swap(k, i);
    }
}

#[test]
fn every_insertion_order_of_five_keys_round_trips() {
    let mut orders = Vec::new();
    permutations(&mut (0..5).collect(), 0, &mut orders);
    assert_eq!(orders.len(), 120);
    for order in orders {
        let mut mp = BTreeImpl::<u64, u64, 2>::new();
        for key in &order {
            assert_eq!(mp.insert(*key, key * 10), None);
        }
        for key in 0..5_u64 {
            assert_eq!(mp.get(&key), Some(&mut (key * 10)));
            assert_eq!(mp.lookup(&key), Some(&(key * 10)));
        }
        assert_eq!(mp.get(&5), None);
        let listed: Vec<(u64, u64)> = mp.entries().iter().map(|(k, v)| (**k, **v)).collect();
        assert_eq!(listed, vec![(0, 0), (1, 10), (2, 20), (3, 30), (4, 40)]);
    }
}

#[test]
fn insert_says_whether_the_key_was_there() {
    let mut mp = BTree::<u64, &str>::new();
    assert_eq!(mp.insert(1, "a"), None);
    assert_eq!(mp.insert(2, "b"), None);
    assert_eq!(mp.insert(1, "c"), Some(()));
    assert_eq!(mp.lookup(&1), Some(&"c"));
    assert_eq!(mp.lookup(&2), Some(&"b"));
    assert_eq!(mp.lookup(&3), None);
}

#[test]
fn get_hands_out_the_value_for_change() {
    let mut mp = BTreeImpl::<u64, u64, 2>::new();
    for key in 0..100_u64 {
        mp.insert(key, key);
    }
    for key in 0..100_u64 {
        match mp.get(&key) {
            Some(value) => *value += 1000,
            None => panic!("key {key} is missing"),
        }
    }
    for key in 0..100_u64 {
        assert_eq!(mp.lookup(&key), Some(&(key + 1000)));
    }
}

#[test]
fn remove_is_a_stub_that_removes_nothing() {
    let mut mp = BTreeImpl::<u64, u64, 2>::new();
    mp.insert(1, 10);
    assert_eq!(mp.remove(&1), Err(()));
    assert_eq!(mp.remove(&2), Err(()));
    assert_eq!(mp.lookup(&1), Some(&10));
}

#[test]
fn entries_come_in_key_order_from_a_deep_tree() {
    let mut mp = BTreeImpl::<u64, u64, 2>::new();
    let mut expect = BTreeMap::new();
    let mut x = 12345_u64;
    for _ in 0..5000 {
        x = x.wrapping_mul(6364136223846793005).wrapping_add(1442695040888963407);
        let key = (x >> 33) % 3000;
        let was_there = expect.insert(key, x).is_some();
        assert_eq!(mp.insert(key, x).is_some(), was_there);
    }
    let listed: Vec<(u64, u64)> = mp.entries().iter().map(|(k, v)| (**k, **v)).collect();
    let wanted: Vec<(u64, u64)> = expect.iter().map(|(k, v)| (*k, *v)).collect();
    assert_eq!(listed, wanted);
}

#[test]
fn byte_string_keys_are_ordered_lexicographically() {
    let mut mp = BTree::<ByteStream, u64>::new();
    let words = ["pear", "apple", "fig", "apples", "", "banana", "app", "figs", "peach"];
    for (i, word) in words.iter().enumerate() {
        mp.insert(ByteStream::from_slice(word.as_bytes()), i as u64);
    }
    let listed: Vec<Vec<u8>> = mp.entries().iter().map(|(k, _)| k.as_ref().to_vec()).collect();
    let mut wanted: Vec<Vec<u8>> = words.iter().map(|w| w.as_bytes().to_vec()).collect();
    wanted.sort();
    assert_eq!(listed, wanted);
    for (i, word) in words.iter().enumerate() {
        assert_eq!(mp.lookup(&ByteStream::from_slice(word.as_bytes())), Some(&(i as u64)));
    }
    assert_eq!(mp.lookup(&ByteStream::from_slice(b"grape")), None);
}

#[test]
fn lower_bound_finds_the_last_key_that_is_not_above() {
    let keys: Vec<u64> = vec![10, 20, 30, 40, 50];
    assert_eq!(lower_bound(&keys, 5), -1);
    assert_eq!(lower_bound(&keys, 10), 0);
    assert_eq!(lower_bound(&keys, 11), 0);
    assert_eq!(lower_bound(&keys, 30), 2);
    assert_eq!(lower_bound(&keys, 49), 3);
    assert_eq!(lower_bound(&keys, 50), 4);
    assert_eq!(lower_bound(&keys, 51), 4);
    assert_eq!(lower_bound(&Vec::<u64>::new(), 1), -1);
    let words: Vec<ByteStream> =
        ["a", "ab", "b"].iter().map(|w| ByteStream::from_slice(w.as_bytes())).collect();
    assert_eq!(lower_bound(&words, ByteStream::from_slice(b"aa")), 0);
    assert_eq!(lower_bound(&words, ByteStream::from_slice(b"abc")), 1);
    assert_eq!(lower_bound(&words, ByteStream::from_slice(b"")), -1);
}

#[test]
fn keys_compare_and_copy() {
    assert_eq!(3_u64.compare(&4), Order::Less);
    assert_eq!(4_u64.compare(&4), Order::Equal);
    assert_eq!(5_u64.compare(&4), Order::Greater);
    assert_eq!(7_u64.duplicate(), 7);
    let a = ByteStream::from_slice(b"abc");
    assert_eq!(a.compare(&ByteStream::from_slice(b"abd")), Order::Less);
    assert_eq!(a.duplicate().as_ref(), b"abc");
}
