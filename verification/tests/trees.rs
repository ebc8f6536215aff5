use kleestor::memtable::rbtree::{RBTree, RBTreePointer};
use kleestor::memtable::splay::SplayTree;
use kleestor::memtable::MemTable;
use kleestor::record::bytestream::ByteStream;
use kleestor::record::iterator::{KvPointer, KvSource};
use kleestor::record::kventry::{KvData, KvDataRef, KvEntry};
use std::cell::Cell;
use std::collections::BTreeMap;
use std::rc::Rc;

/// Counts the values that have been dropped.
struct Counted {
    value: i64,
    dropped: Rc<Cell<i64>>,
}

impl Drop for Counted {
    fn drop(&mut self) {
        self.dropped.set(self.dropped.get() + self.value);
    }
}

/// A sequence of keys that visits every residue of a prime once.
fn scattered(count: u64) -> Vec<u64> {
    (0..count).map(|i| (i * 7919 + 13) % 10007).collect()
}

fn entry(value: &str) -> KvEntry {
    KvEntry::new(KvData::Value { cached: false, value: ByteStream::from_slice(value.as_bytes()) })
}

fn tree_of(keys: &[&str]) -> RBTree<ByteStream, KvEntry> {
    let mut tree = RBTree::<ByteStream, KvEntry>::new();
    for key in keys {
        tree.insert(ByteStream::from_slice(key.as_bytes()), entry(&format!("value of {key}")));
    }
    tree
}

fn drained(mut pairs: kleestor::memtable::rbtree::RBTreeIterator) -> Vec<(String, String)> {
    let mut out = Vec::new();
    while let Some(item) = pairs.next() {
        let item: RBTreePointer = item;
        let key = String::from_utf8(item.key().to_vec()).unwrap();
        match item.value() {
            KvDataRef::Value { cached: false, value } => {
                out.push((key, String::from_utf8(value.to_vec()).unwrap()))
            }
            other => panic!("unexpected record {other:?}"),
        }
    }
    out
}

#[test]
fn red_black_tree_gives_back_what_was_inserted() {
    let mut tree = RBTree::<u64, u64>::new();
    let mut model = BTreeMap::new();
    for key in scattered(5000) {
        assert_eq!(tree.insert(key, key * 3 + 1), None);
        model.insert(key, key * 3 + 1);
    }
    for key in 0..10007u64 {
        assert_eq!(tree.get(&key).map(|v| *v), model.get(&key).copied());
        assert_eq!(tree.lookup(&key), model.get(&key));
    }
}

#[test]
fn red_black_tree_takes_ascending_and_descending_keys() {
    let mut up = RBTree::<u64, u64>::new();
    let mut down = RBTree::<u64, u64>::new();
    for key in 0..4096u64 {
        assert_eq!(up.insert(key, key + 7), None);
        assert_eq!(down.insert(4095 - key, key + 7), None);
    }
    for key in 0..4096u64 {
        assert_eq!(up.lookup(&key), Some(&(key + 7)));
        assert_eq!(down.lookup(&(4095 - key)), Some(&(key + 7)));
    }
    assert_eq!(up.lookup(&4096), None);
    let listed: Vec<u64> = up.entries().iter().map(|(k, _)| **k).collect();
    assert_eq!(listed, (0..4096u64).collect::<Vec<u64>>());
}

#[test]
fn red_black_tree_replaces_the_value_of_a_key_it_holds() {
    let mut tree = RBTree::<u64, &str>::new();
    assert_eq!(tree.insert(5, "a"), None);
    assert_eq!(tree.insert(3, "b"), None);
    assert_eq!(tree.insert(5, "c"), Some(()));
    assert_eq!(tree.lookup(&5), Some(&"c"));
    assert_eq!(tree.lookup(&3), Some(&"b"));
    assert_eq!(tree.entries().len(), 2);
}

#[test]
fn red_black_tree_hands_out_values_for_change() {
    let mut tree = RBTree::<u64, u64>::new();
    for key in scattered(100) {
        tree.insert(key, 0);
    }
    for key in scattered(100) {
        *tree.get(&key).unwrap() = key + 1;
    }
    for key in scattered(100) {
        assert_eq!(tree.lookup(&key), Some(&(key + 1)));
    }
    assert!(tree.get(&10008).is_none());
}

#[test]
fn red_black_tree_lists_its_pairs_in_key_order() {
    let mut tree = RBTree::<u64, u64>::new();
    let mut model = BTreeMap::new();
    for key in scattered(3000) {
        tree.insert(key, key ^ 0x55);
        model.insert(key, key ^ 0x55);
    }
    let listed: Vec<(u64, u64)> = tree.entries().iter().map(|(k, v)| (**k, **v)).collect();
    let wanted: Vec<(u64, u64)> = model.into_iter().collect();
    assert_eq!(listed, wanted);
}

#[test]
fn red_black_tree_removes_nothing() {
    let mut tree = RBTree::<u64, u64>::new();
    tree.insert(1, 2);
    assert_eq!(tree.remove(&1), Err(()));
    assert_eq!(tree.lookup(&1), Some(&2));
}

#[test]
fn red_black_tree_drops_every_value_once() {
    let dropped = Rc::new(Cell::new(0));
    {
        let mut tree = RBTree::<u64, Counted>::new();
        for key in 1..=1000u64 {
            tree.insert(key, Counted { value: key as i64, dropped: dropped.clone() });
        }
        assert_eq!(dropped.get(), 0);
        // the value that is replaced leaves at once
        tree.insert(1000, Counted { value: 5, dropped: dropped.clone() });
        assert_eq!(dropped.get(), 1000);
    }
    assert_eq!(dropped.get(), 500500 + 5);
}

#[test]
fn full_scan_of_a_red_black_tree_yields_every_pair_in_order() {
    let tree = tree_of(&["pear", "apple", "fig", "cherry", "banana"]);
    let seen = drained(tree.iter_mut().unwrap());
    let keys: Vec<&str> = seen.iter().map(|(k, _)| k.as_str()).collect();
    assert_eq!(keys, ["apple", "banana", "cherry", "fig", "pear"]);
    for (key, value) in &seen {
        assert_eq!(value, &format!("value of {key}"));
    }
}

#[test]
fn full_scan_of_an_empty_red_black_tree_yields_nothing() {
    let tree = tree_of(&[]);
    assert!(drained(tree.iter_mut().unwrap()).is_empty());
}

#[test]
fn scan_of_a_red_black_tree_from_a_key_starts_at_that_key() {
    let tree = tree_of(&["pear", "apple", "fig", "cherry", "banana"]);
    let seen = drained(tree.get_iter(&ByteStream::from_slice(b"cherry")).unwrap());
    let keys: Vec<&str> = seen.iter().map(|(k, _)| k.as_str()).collect();
    assert_eq!(keys, ["cherry", "fig", "pear"]);
    let last = drained(tree.get_iter(&ByteStream::from_slice(b"pear")).unwrap());
    assert_eq!(last, [("pear".to_string(), "value of pear".to_string())]);
}

#[test]
fn scan_of_a_red_black_tree_from_a_missing_key_is_refused() {
    let tree = tree_of(&["pear", "apple"]);
    assert!(tree.get_iter(&ByteStream::from_slice(b"banana")).is_none());
    assert!(tree_of(&[]).get_iter(&ByteStream::from_slice(b"banana")).is_none());
}

#[test]
fn splay_tree_gives_back_what_was_inserted() {
    let mut tree = SplayTree::<u64, u64>::new();
    let mut model = BTreeMap::new();
    for key in scattered(5000) {
        assert_eq!(tree.insert(key, key * 3 + 1), None);
        model.insert(key, key * 3 + 1);
    }
    for key in 0..10007u64 {
        assert_eq!(tree.lookup(&key), model.get(&key));
        assert_eq!(tree.get(&key).map(|v| *v), model.get(&key).copied());
        assert_eq!(tree.lookup(&key), model.get(&key));
    }
}

#[test]
fn splay_tree_takes_ascending_and_descending_keys() {
    let mut up = SplayTree::<u64, u64>::new();
    let mut down = SplayTree::<u64, u64>::new();
    for key in 0..2000u64 {
        assert_eq!(up.insert(key, key + 7), None);
        assert_eq!(down.insert(1999 - key, key + 7), None);
    }
    for key in (0..2000u64).rev() {
        assert_eq!(up.get(&key).map(|v| *v), Some(key + 7));
        assert_eq!(down.get(&(1999 - key)).map(|v| *v), Some(key + 7));
    }
    assert!(up.get(&2000).is_none());
}

#[test]
fn splay_tree_replaces_the_value_of_a_key_it_holds() {
    let mut tree = SplayTree::<u64, &str>::new();
    assert_eq!(tree.insert(5, "a"), None);
    assert_eq!(tree.insert(3, "b"), None);
    assert_eq!(tree.insert(8, "d"), None);
    assert_eq!(tree.insert(5, "c"), Some(()));
    assert_eq!(tree.lookup(&5), Some(&"c"));
    assert_eq!(tree.lookup(&3), Some(&"b"));
    assert_eq!(tree.lookup(&8), Some(&"d"));
    assert_eq!(tree.lookup(&4), None);
}

#[test]
fn splay_tree_hands_out_values_for_change() {
    let mut tree = SplayTree::<u64, u64>::new();
    for key in scattered(100) {
        tree.insert(key, 0);
    }
    for key in scattered(100) {
        *tree.get(&key).unwrap() = key + 1;
    }
    for key in scattered(100) {
        assert_eq!(tree.lookup(&key), Some(&(key + 1)));
    }
}

#[test]
fn splay_tree_removes_nothing() {
    let mut tree = SplayTree::<u64, u64>::new();
    tree.insert(1, 2);
    assert_eq!(tree.remove(&1), Err(()));
    assert_eq!(tree.lookup(&1), Some(&2));
}

#[test]
fn splay_tree_drops_every_value_once() {
    let dropped = Rc::new(Cell::new(0));
    {
        let mut tree = SplayTree::<u64, Counted>::new();
        for key in 1..=1000u64 {
            tree.insert(key, Counted { value: key as i64, dropped: dropped.clone() });
        }
        for key in (1..=1000u64).step_by(7) {
            assert!(tree.get(&key).is_some());
        }
        assert_eq!(dropped.get(), 0);
        tree.insert(1000, Counted { value: 5, dropped: dropped.clone() });
        assert_eq!(dropped.get(), 1000);
    }
    assert_eq!(dropped.get(), 500500 + 5);
}
