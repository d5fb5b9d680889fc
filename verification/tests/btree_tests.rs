use learned_index_structures::btree::BTree;
use learned_index_structures::model::Model;
use rand::distributions::{Distribution, LogNormal};
use rand::{FromEntropy, XorShiftRng};

#[test]
fn t() {
    let mut b: BTree<f32, u32> = Default::default();
    for i in 0..500 {
        b.insert(i as f32, i as u32);
    }
    for i in 0..500 {
        assert_eq!(b.search(i as f32).unwrap(), i as u32);
    }
}

#[test]
fn lib_f() {
    let count = 10000;
    let mut rng = XorShiftRng::from_entropy();
    let lognormal = LogNormal::new(0.0, 0.25);
    let mut data: Vec<f32> = Vec::with_capacity(count);
    for _ in 0..count {
        data.push(lognormal.sample(&mut rng) as f32);
    }
    data.sort_by(|a, b| a.partial_cmp(b).unwrap());
    let mut b: BTree<f32, u32> = Default::default();

    for (i, &v) in data.iter().enumerate() {
        b.insert(v, i as u32);
    }

    for &v in data.iter() {
        // we may not have the same index, in the case of duplicate values,
        // but the value at that index will be the same
        assert_eq!(data[b.search(v).unwrap() as usize], v);
    }
}

#[test]
fn empty_tree_finds_nothing() {
    let b: BTree<u32, u32> = BTree::new();
    assert_eq!(b.search(0), None);
    assert_eq!(b.search(7), None);
    let d: BTree<f32, u32> = Default::default();
    assert_eq!(d.search(0.0), None);
}

#[test]
fn five_hundred_floats_then_a_hit_and_a_miss() {
    let mut b: BTree<f32, u32> = BTree::new();
    for i in 0..500 {
        b.insert(i as f32, i as u32);
    }
    assert_eq!(b.search(250.0), Some(250));
    assert_eq!(b.search(10000.0), None);
    assert_eq!(b.search(-1.0), None);
    assert_eq!(b.search(249.5), None);
}

#[test]
fn shuffled_inserts_are_all_found() {
    let mut b: BTree<u32, u32> = BTree::new();
    let n: u32 = 5000;
    // a permutation of 0..n: an affine map with a multiplier prime to n
    for i in 0..n {
        let k = (i * 1237 + 17) % n;
        b.insert(k, k + 1);
    }
    for k in 0..n {
        assert_eq!(b.search(k), Some(k + 1));
    }
    assert_eq!(b.search(n), None);
    assert_eq!(b.search(u32::MAX), None);
}

#[test]
fn descending_inserts_are_all_found() {
    let mut d: BTree<i64, usize> = BTree::new();
    for i in (0..2000).rev() {
        d.insert(i as i64 - 1000, i);
    }
    for i in 0..2000 {
        assert_eq!(d.search(i as i64 - 1000), Some(i));
    }
    assert_eq!(d.search(1000), None);
    assert_eq!(d.search(-1001), None);
}

#[test]
fn inserts_in_the_middle_split_inner_children() {
    // keys arrive in an order that makes full children appear at every
    // slot of their parents, not only at the right edge
    let mut b: BTree<u32, u32> = BTree::new();
    let n: u32 = 20000;
    let mut inserted = vec![false; n as usize];
    let mut k: u32 = 0;
    for _ in 0..n {
        k = (k + 7919) % n;
        assert!(!inserted[k as usize]);
        inserted[k as usize] = true;
        b.insert(k, n - k);
    }
    for k in 0..n {
        assert_eq!(b.search(k), Some(n - k));
    }
}

#[test]
fn equal_keys_give_one_of_their_positions() {
    let mut b: BTree<u32, u32> = BTree::new();
    for round in 0..40 {
        for key in 0..25 {
            b.insert(key, round * 100 + key);
        }
    }
    for key in 0..25 {
        let found = b.search(key).unwrap();
        assert_eq!(found % 100, key);
        assert!(found / 100 < 40);
    }
    assert_eq!(b.search(25), None);
}

#[test]
fn a_key_that_equals_nothing_is_stored_and_not_found() {
    let mut b: BTree<f32, u32> = BTree::new();
    for i in 0..100 {
        b.insert(i as f32, i);
    }
    b.insert(f32::NAN, 1000);
    for i in 0..100 {
        assert_eq!(b.search(i as f32), Some(i));
    }
    assert_eq!(b.search(f32::NAN), None);
}

#[test]
fn a_tree_answers_as_a_model() {
    let mut b: BTree<u32, u32> = BTree::new();
    for i in 0..64 {
        b.insert(2 * i, i);
    }
    assert_eq!(b.eval(10), Some(5));
    assert_eq!(b.eval(11), None);
    let keys = [0u32, 1, 2, 126, 127, 128];
    let mut indices = [Some(77u32); 8];
    b.eval_many(&keys, &mut indices);
    assert_eq!(
        indices,
        [Some(0), None, Some(1), Some(63), None, None, Some(77), Some(77)]
    );
}

#[test]
fn a_copy_of_a_tree_is_a_tree_of_its_own() {
    let mut b: BTree<u32, u32> = BTree::new();
    for i in 0..100 {
        b.insert(i, i);
    }
    let mut c = b.clone();
    c.insert(100, 100);
    assert_eq!(b.search(100), None);
    assert_eq!(c.search(100), Some(100));
    assert_eq!(c.search(50), Some(50));
}

#[test]
fn the_entries_come_out_in_order() {
    let mut b: BTree<u32, u32> = BTree::new();
    assert_eq!(b.entries(), vec![]);
    let n: u32 = 3000;
    for i in 0..n {
        let k = (i * 1013 + 5) % n;
        b.insert(k / 3, k);
    }
    let entries = b.entries();
    assert_eq!(entries.len(), n as usize);
    for w in entries.windows(2) {
        assert!(w[0].0 <= w[1].0);
    }
    // every entry that went in comes out, once
    let mut positions: Vec<u32> = entries.iter().map(|e| e.1).collect();
    positions.sort();
    assert_eq!(positions, (0..n).collect::<Vec<u32>>());
    for e in entries.iter() {
        assert_eq!(e.0, e.1 / 3);
    }
}

#[test]
fn ascending_inserts_come_out_as_they_went_in() {
    let mut b: BTree<f32, u32> = BTree::new();
    for i in 0..500 {
        b.insert(i as f32, i as u32);
    }
    let expected: Vec<(f32, u32)> = (0..500).map(|i| (i as f32, i as u32)).collect();
    assert_eq!(b.entries(), expected);
}

#[test]
fn nodes_are_neither_too_few_nor_too_many_for_their_keys() {
    // no node holds more than 15 keys, and none but the root fewer than 7
    let mut b: BTree<u32, u32> = BTree::new();
    assert_eq!(b.node_count(), 1);
    for i in 0..15 {
        b.insert(i, i);
    }
    assert_eq!(b.node_count(), 1);
    b.insert(15, 15);
    // the full root was split into two nodes below a new root
    assert_eq!(b.node_count(), 3);
    let n: usize = 10000;
    for i in 16..n {
        b.insert(((i * 7) % n) as u32, i as u32);
    }
    let nodes = b.node_count();
    assert!(15 * nodes >= n);
    assert!(7 * (nodes - 1) <= n);
}

#[test]
fn the_tree_grows_in_height_by_splitting_its_root() {
    let mut b: BTree<u32, u32> = BTree::new();
    assert_eq!(b.height(), 0);
    for i in 0..15 {
        b.insert(i, i);
    }
    assert_eq!(b.height(), 0);
    b.insert(15, 15);
    assert_eq!(b.height(), 1);
    // a tree of height 3 holds 2 * 8 * 8 * 8 - 1 keys at the least
    for i in 16..127 {
        b.insert(i, i);
    }
    assert!(b.height() <= 2);
    for i in 127..100000 {
        b.insert(i, i);
    }
    // a tree of height h holds between 2 * 8^h - 1 and 16^(h + 1) - 1 keys
    assert!(b.height() <= 5);
    assert!(b.height() >= 4);
}
