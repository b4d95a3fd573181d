use nightfall::bitmap::Bitmap;
use nightfall::cbuf::CircularBuffer;
use nightfall::error::CollectionError;
use nightfall::map::RBTreeMap;
use nightfall::rbtree::RBTree;
use nightfall::set::RBTreeSet;

fn set_of(keys: &[u64]) -> RBTreeSet<u64> {
    let mut s = RBTreeSet::new();
    for &k in keys {
        s.insert(k);
    }
    s
}

fn collect_keys(tree: &RBTree<u64, i64>) -> Vec<u64> {
    let mut it = tree.iter();
    let mut keys = Vec::new();
    while let Some(p) = it.next_inner() {
        keys.push(*p.0);
    }
    keys
}

#[test]
fn tree_ordered_iteration() {
    let mut tree: RBTree<u64, i64> = RBTree::new();
    for (i, k) in [5u64, 1, 7, 3, 9, 1].iter().enumerate() {
        tree.insert(*k, i as i64);
    }
    assert_eq!(collect_keys(&tree), vec![1, 3, 5, 7, 9]);
    assert_eq!(tree.len(), 5);
    assert_eq!(tree.get(&1), Some(&5), "the second insert of key 1 overwrote the first");
}

#[test]
fn tree_insert_remove_mixed() {
    let mut tree: RBTree<u64, i64> = RBTree::new();
    for k in 0u64..64 {
        tree.insert(k, k as i64 * 10);
    }
    assert_eq!(tree.len(), 64);
    for k in (0u64..64).step_by(2) {
        assert_eq!(tree.remove(&k), Some(k as i64 * 10));
    }
    assert_eq!(tree.len(), 32);
    assert_eq!(tree.remove(&2), None);
    for k in 0u64..64 {
        assert_eq!(tree.contains(&k), k % 2 == 1);
    }
    let keys = collect_keys(&tree);
    assert_eq!(keys.len(), 32);
    for w in keys.windows(2) {
        assert!(w[0] < w[1], "iteration stays sorted after removals");
    }
    assert_eq!(tree.minimum(), Some(&10));
    assert_eq!(tree.maximum(), Some(&630));
    tree.clear();
    assert!(tree.is_clear());
    assert_eq!(tree.len(), 0);
    assert_eq!(tree.minimum(), None);
}

#[test]
fn tree_search_next_greater() {
    let mut tree: RBTree<u64, &'static str> = RBTree::new();
    tree.insert(10, "ten");
    tree.insert(20, "twenty");
    tree.insert(30, "thirty");
    tree.insert(40, "forty");
    assert_eq!(tree.search(&25), Err(Some(&"thirty")));
    assert_eq!(tree.search(&45), Err(None));
    assert_eq!(tree.search(&30), Ok(&"thirty"));
    assert_eq!(tree.search(&5), Err(Some(&"ten")));
}

#[test]
fn tree_search_and_remove() {
    let mut tree: RBTree<u64, u64> = RBTree::new();
    for k in [10u64, 20, 30, 40] {
        tree.insert(k, k + 1);
    }
    assert_eq!(tree.search_and_remove(&30), Ok(31));
    assert_eq!(tree.len(), 3);
    assert_eq!(tree.search_and_remove(&25), Err(Some(41)), "next greater is removed");
    assert_eq!(tree.len(), 2);
    assert_eq!(tree.search_and_remove(&45), Err(None));
    assert_eq!(tree.len(), 2);
}

#[test]
fn map_insert_get_round_trip() {
    let mut map: RBTreeMap<u64, &'static str> = RBTreeMap::new();
    assert_eq!(map.insert(7, "seven"), None);
    assert_eq!(map.get(&7), Some(&"seven"));
    assert_eq!(map.insert(7, "newer"), Some("seven"), "a second insert returns the previous value");
    assert_eq!(map.get(&7), Some(&"newer"));
    assert_eq!(map.get_key_value(&7), Some((&7, &"newer")));
    assert_eq!(map.len(), 1);
    assert_eq!(map.remove(&7), Some("newer"));
    assert_eq!(map.remove(&7), None);
    assert!(map.is_clear());
}

#[test]
fn map_iterators() {
    let mut map: RBTreeMap<u64, u64> = RBTreeMap::new();
    for k in [3u64, 1, 2] {
        map.insert(k, k * 100);
    }
    let mut keys = map.keys();
    let mut got_keys = Vec::new();
    while let Some(k) = keys.next_inner() {
        got_keys.push(*k);
    }
    assert_eq!(got_keys, vec![1, 2, 3]);
    let mut values = map.values();
    let mut got_values = Vec::new();
    while let Some(v) = values.next_inner() {
        got_values.push(*v);
    }
    assert_eq!(got_values, vec![100, 200, 300]);
    map.clear();
    assert_eq!(map.len(), 0);
}

#[test]
fn set_algebra() {
    let a = set_of(&[1, 2, 3, 4]);
    let b = set_of(&[4, 5, 6]);

    let mut d = a.difference(&b);
    let mut got = Vec::new();
    while let Some(k) = d.next_inner() {
        got.push(*k);
    }
    assert_eq!(got, vec![1, 2, 3]);

    let mut i = a.intersection(&b);
    let mut got = Vec::new();
    while let Some(k) = i.next_inner() {
        got.push(*k);
    }
    assert_eq!(got, vec![4]);

    let mut u = a.union(&b);
    let mut got = Vec::new();
    while let Some(k) = u.next_inner() {
        got.push(*k);
    }
    assert_eq!(got, vec![1, 2, 3, 4, 5, 6]);

    let mut s = a.symmetric_difference(&b);
    let mut got = Vec::new();
    while let Some(k) = s.next_inner() {
        got.push(*k);
    }
    assert_eq!(got, vec![1, 2, 3, 5, 6]);
}

#[test]
fn set_basic_operations() {
    let mut s: RBTreeSet<u64> = RBTreeSet::new_in();
    assert!(!s.insert(9), "a fresh key was not already present");
    assert!(s.insert(9), "the second insert reports the key as present");
    assert_eq!(s.len(), 1);
    assert_eq!(s.get(&9), Some(&9));
    assert!(s.contains(&9));
    assert!(s.contains_key(&9));
    assert!(s.remove(&9));
    assert!(!s.remove(&9));
    assert!(s.is_clear());
    s.insert(1);
    let mut it = s.iter();
    assert_eq!(it.next_inner(), Some(&1));
    assert_eq!(it.next_inner(), None);
    s.clear();
    assert!(s.is_clear());
}

#[test]
fn set_union_commutes_as_set() {
    let a = set_of(&[1, 3, 5]);
    let b = set_of(&[2, 3, 8, 9]);
    let mut u1 = a.union(&b);
    let mut got1 = Vec::new();
    while let Some(k) = u1.next_inner() {
        got1.push(*k);
    }
    let mut u2 = b.union(&a);
    let mut got2 = Vec::new();
    while let Some(k) = u2.next_inner() {
        got2.push(*k);
    }
    got1.sort();
    got2.sort();
    assert_eq!(got1, got2);
    assert_eq!(got1, vec![1, 2, 3, 5, 8, 9]);
}

#[test]
fn signed_and_small_keys() {
    let mut tree: RBTree<i64, u8> = RBTree::new();
    tree.insert(-5, 1);
    tree.insert(3, 2);
    tree.insert(-40, 3);
    assert_eq!(tree.minimum(), Some(&3));
    assert_eq!(tree.maximum(), Some(&2));

    let mut bytes: RBTree<u8, u8> = RBTree::new_in();
    bytes.insert(200, 1);
    bytes.insert(100, 2);
    assert_eq!(bytes.len(), 2);
    assert_eq!(bytes.get(&200), Some(&1));
}

#[test]
fn circular_buffer_fifo() {
    let mut buf: CircularBuffer<u64> = CircularBuffer::new(3);
    assert!(buf.empty());
    assert!(!buf.full());
    assert_eq!(buf.capacity(), 3);
    assert_eq!(buf.get(), None);
    buf.push(10).unwrap();
    buf.push(20).unwrap();
    buf.push(30).unwrap();
    assert!(buf.full());
    assert!(!buf.empty());
    assert_eq!(buf.push(40), Err(CollectionError::CapacityFull));
    assert_eq!(buf.get(), Some(10));
    assert_eq!(buf.len(), 2);
    buf.push(40).unwrap();
    assert_eq!(buf.get(), Some(20));
    assert_eq!(buf.get(), Some(30));
    assert_eq!(buf.get(), Some(40));
    assert!(buf.empty());
}

#[test]
fn bitmap_flip_and_read() {
    let mut bm = Bitmap::new(100, 3);
    assert!(!bm.active(0, 0));
    assert!(!bm.active(99, 2));
    bm.flip(5, 1, true);
    bm.flip(99, 2, true);
    assert!(bm.active(5, 1));
    assert!(bm.active(99, 2));
    assert!(!bm.active(5, 0));
    assert!(!bm.active(6, 1));
    bm.flip(5, 1, false);
    assert!(!bm.active(5, 1));
    assert!(bm.active(99, 2), "clearing one cell leaves others alone");
}
