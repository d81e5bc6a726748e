use oof::hash::hash;
use oof::{Error, Oof};
use std::collections::{BTreeMap, BTreeSet};

fn build_value(n: u8) -> [u8; 32] {
    let mut tmp = [0u8; 32];
    tmp[0] = n;
    tmp
}

fn full_tree() -> Oof {
    Oof::new(
        &[4, 5, 6, 7],
        &[build_value(4), build_value(5), build_value(6), build_value(7)],
    )
}

#[test]
fn root() {
    let mut keys = [2, 6, 7];
    let mut values = [build_value(2), build_value(6), build_value(7)];
    let mut oof = Oof::new(&mut keys, &mut values);

    let three = hash(&values[1], &values[2]);
    let one = hash(&values[0], &three);

    assert_eq!(oof.root(), Ok(&one));
}

#[test]
fn from_blob() {
    let count: u32 = 3;

    let keys: [u128; 3] = [1, 2, 3];
    let values: [[u8; 32]; 3] = [build_value(1), build_value(2), build_value(3)];

    let mut key_bytes = [0u8; 48];
    let mut value_bytes = [0u8; 96];
    for i in 0..3 {
        key_bytes[16 * i..16 * (i + 1)].copy_from_slice(&keys[i].to_le_bytes());
        value_bytes[32 * i..32 * (i + 1)].copy_from_slice(&values[i]);
    }

    let mut blob = [0u8; (4 + 48 + 96)];
    blob[0..4].copy_from_slice(&count.to_le_bytes());
    blob[4..52].copy_from_slice(&key_bytes[..]);
    blob[52..148].copy_from_slice(&value_bytes[..]);

    let oof = Oof::from_raw(&blob[..]);

    assert_eq!(oof.get(&1), Some(&build_value(1)));
    assert_eq!(oof.get(&2), Some(&build_value(2)));
    assert_eq!(oof.get(&3), Some(&build_value(3)));
    assert_eq!(oof.get(&4), None);
}

#[test]
fn root_has_the_expected_bytes() {
    let mut oof = Oof::new(&[2, 6, 7], &[build_value(2), build_value(6), build_value(7)]);
    let expected: [u8; 32] = [
        0xe9, 0x6d, 0x60, 0x81, 0x25, 0xb6, 0xc8, 0x62, 0x68, 0x50, 0xa7, 0x30, 0xf5, 0x21, 0xfa,
        0x2a, 0x6d, 0x3b, 0xd8, 0x22, 0x98, 0x83, 0xf6, 0xba, 0x5e, 0xe5, 0x59, 0xc2, 0xea, 0x50,
        0xf6, 0xf0,
    ];
    assert_eq!(oof.root(), Ok(&expected));
}

#[test]
fn root_derives_every_missing_parent() {
    let mut oof = full_tree();
    let two = hash(&build_value(4), &build_value(5));
    let three = hash(&build_value(6), &build_value(7));
    let one = hash(&two, &three);
    assert_eq!(oof.root(), Ok(&one));
    assert_eq!(oof.get(&2), Some(&two));
    assert_eq!(oof.get(&3), Some(&three));
    assert_eq!(oof.get(&1), Some(&one));
    assert_eq!(oof.keys(), BTreeSet::from([1, 2, 3, 4, 5, 6, 7]));
}

#[test]
fn root_of_empty_tree_is_missing() {
    let mut oof = Oof::new(&[], &[]);
    assert_eq!(oof.root(), Err(Error::EntryNotFound(1)));
    assert!(oof.keys().is_empty());
}

#[test]
fn root_of_tree_with_index_zero_only_is_missing() {
    let mut oof = Oof::new(&[0], &[build_value(9)]);
    assert_eq!(oof.root(), Err(Error::EntryNotFound(1)));
    assert_eq!(oof.keys(), BTreeSet::from([0]));
}

#[test]
fn root_alone_is_its_own_value() {
    let mut oof = Oof::new(&[1], &[build_value(1)]);
    assert_eq!(oof.root(), Ok(&build_value(1)));
}

#[test]
fn missing_leaf_is_named() {
    let mut without_left = Oof::new(&[2, 7], &[build_value(2), build_value(7)]);
    assert_eq!(without_left.root(), Err(Error::EntryNotFound(6)));

    let mut without_right = Oof::new(&[2, 6], &[build_value(2), build_value(6)]);
    assert_eq!(without_right.root(), Err(Error::EntryNotFound(7)));

    let mut without_upper = Oof::new(&[6, 7], &[build_value(6), build_value(7)]);
    assert_eq!(without_upper.root(), Err(Error::EntryNotFound(2)));
}

#[test]
fn removing_a_needed_leaf_names_it() {
    for gone in [4u128, 5, 6, 7] {
        let mut map = full_tree().to_map();
        map.remove(&gone);
        let mut oof = Oof::from_map(map);
        assert_eq!(oof.root(), Err(Error::EntryNotFound(gone)));
    }
}

#[test]
fn the_gap_with_the_largest_index_is_named() {
    let mut oof = Oof::new(&[4, 7], &[build_value(4), build_value(7)]);
    assert_eq!(oof.root(), Err(Error::EntryNotFound(6)));
    assert_eq!(oof.keys(), BTreeSet::from([4, 7]));
}

#[test]
fn parents_derived_before_the_gap_are_kept() {
    let mut oof = Oof::new(
        &[4, 12, 13, 14, 15],
        &[
            build_value(4),
            build_value(12),
            build_value(13),
            build_value(14),
            build_value(15),
        ],
    );
    assert_eq!(oof.root(), Err(Error::EntryNotFound(5)));
    let six = hash(&build_value(12), &build_value(13));
    let seven = hash(&build_value(14), &build_value(15));
    assert_eq!(oof.get(&6), Some(&six));
    assert_eq!(oof.get(&7), Some(&seven));
    assert_eq!(oof.get(&3), Some(&hash(&six, &seven)));
    assert_eq!(oof.get(&2), None);
    assert_eq!(oof.get(&1), None);
}

#[test]
fn a_held_parent_is_trusted() {
    let mut oof = Oof::new(&[1, 2], &[build_value(1), build_value(2)]);
    assert_eq!(oof.root(), Ok(&build_value(1)));
    assert_eq!(oof.keys(), BTreeSet::from([1, 2]));

    let mut lower = Oof::new(&[1, 4], &[build_value(1), build_value(4)]);
    assert_eq!(lower.root(), Err(Error::EntryNotFound(5)));
}

#[test]
fn a_held_grandparent_is_kept_when_the_parent_is_derived() {
    let mut oof = Oof::new(
        &[1, 4, 5],
        &[build_value(1), build_value(4), build_value(5)],
    );
    assert_eq!(oof.root(), Ok(&build_value(1)));
    assert_eq!(oof.get(&2), Some(&hash(&build_value(4), &build_value(5))));
}

#[test]
fn root_twice_is_the_same() {
    let mut oof = full_tree();
    let first = oof.root().map(|value| *value);
    let keys = oof.keys();
    let second = oof.root().map(|value| *value);
    assert_eq!(first, second);
    assert_eq!(oof.keys(), keys);
}

#[test]
fn root_twice_names_the_same_gap() {
    let mut oof = Oof::new(
        &[4, 12, 13, 14, 15],
        &[
            build_value(4),
            build_value(12),
            build_value(13),
            build_value(14),
            build_value(15),
        ],
    );
    assert_eq!(oof.root(), Err(Error::EntryNotFound(5)));
    let keys = oof.keys();
    assert_eq!(oof.root(), Err(Error::EntryNotFound(5)));
    assert_eq!(oof.keys(), keys);
}

#[test]
fn a_written_leaf_reaches_the_root() {
    let mut oof = full_tree();
    let stale = *oof.root().unwrap();

    assert_eq!(oof.set(4, build_value(40)), Some(build_value(4)));
    assert_eq!(oof.keys(), BTreeSet::from([3, 4, 5, 6, 7]));

    let two = hash(&build_value(40), &build_value(5));
    let three = hash(&build_value(6), &build_value(7));
    let one = hash(&two, &three);
    assert_eq!(oof.root(), Ok(&one));
    assert_ne!(one, stale);
}

#[test]
fn a_written_right_leaf_reaches_the_root() {
    let mut oof = full_tree();
    oof.root().unwrap();
    oof.set(7, build_value(70));
    let two = hash(&build_value(4), &build_value(5));
    let three = hash(&build_value(6), &build_value(70));
    assert_eq!(oof.root(), Ok(&hash(&two, &three)));
}

#[test]
fn set_forgets_up_to_the_first_missing_node() {
    let mut oof = Oof::new(
        &[1, 4, 8, 9],
        &[build_value(1), build_value(4), build_value(8), build_value(9)],
    );
    assert_eq!(oof.set(8, build_value(80)), Some(build_value(8)));
    assert_eq!(oof.keys(), BTreeSet::from([1, 8, 9]));
    assert_eq!(oof.get(&8), Some(&build_value(80)));

    assert_eq!(oof.set(16, build_value(16)), None);
    assert_eq!(oof.keys(), BTreeSet::from([1, 9, 16]));
}

#[test]
fn set_of_a_new_node_returns_nothing() {
    let mut oof = Oof::new(&[], &[]);
    assert_eq!(oof.set(5, build_value(5)), None);
    assert_eq!(oof.get(&5), Some(&build_value(5)));
    assert_eq!(oof.set(5, build_value(6)), Some(build_value(5)));
    assert_eq!(oof.get(&5), Some(&build_value(6)));
}

#[test]
fn set_of_the_root_forgets_nothing() {
    let mut oof = full_tree();
    oof.root().unwrap();
    assert!(oof.set(1, build_value(1)).is_some());
    assert_eq!(oof.keys(), BTreeSet::from([1, 2, 3, 4, 5, 6, 7]));
    assert_eq!(oof.root(), Ok(&build_value(1)));
}

#[test]
fn set_of_index_zero_forgets_nothing() {
    let mut oof = Oof::new(&[0, 1], &[build_value(0), build_value(1)]);
    assert_eq!(oof.set(0, build_value(9)), Some(build_value(0)));
    assert_eq!(oof.keys(), BTreeSet::from([0, 1]));
}

#[test]
fn set_without_the_sibling_leaves_a_gap() {
    let mut oof = Oof::new(&[1, 2], &[build_value(1), build_value(2)]);
    oof.root().unwrap();
    oof.set(2, build_value(20));
    assert_eq!(oof.root(), Err(Error::EntryNotFound(3)));
}

#[test]
fn new_takes_the_last_value_of_a_key() {
    let oof = Oof::new(&[3, 3], &[build_value(1), build_value(2)]);
    assert_eq!(oof.get(&3), Some(&build_value(2)));
    assert_eq!(oof.keys(), BTreeSet::from([3]));
}

#[test]
fn new_ignores_values_without_a_key() {
    let oof = Oof::new(&[3], &[build_value(1), build_value(2)]);
    assert_eq!(oof.get(&3), Some(&build_value(1)));
    assert_eq!(oof.keys().len(), 1);
}

#[test]
fn map_in_and_out() {
    let mut map = BTreeMap::new();
    map.insert(9u128, build_value(9));
    map.insert(2u128, build_value(2));
    let oof = Oof::from_map(map.clone());
    assert_eq!(oof.get(&9), Some(&build_value(9)));
    assert_eq!(oof.get(&3), None);
    assert_eq!(oof.keys(), BTreeSet::from([2, 9]));
    assert_eq!(oof.to_map(), map);
}

#[test]
fn the_largest_indices_are_handled() {
    let last = u128::MAX;
    let mut oof = Oof::new(&[last - 1, last], &[build_value(1), build_value(2)]);
    assert_eq!(oof.root(), Err(Error::EntryNotFound(last / 2 - 1)));
    assert_eq!(
        oof.get(&(last / 2)),
        Some(&hash(&build_value(1), &build_value(2)))
    );
}

#[test]
fn root_follows_the_leaves_through_writes() {
    let mut leaves: Vec<[u8; 32]> = (8u8..16).map(build_value).collect();
    let keys: Vec<u128> = (8u128..16).collect();
    let mut oof = Oof::new(&keys, &leaves);
    oof.root().unwrap();

    let writes: [(u128, u8); 6] = [(8, 80), (15, 150), (11, 110), (8, 81), (12, 120), (15, 151)];
    for (step, (key, byte)) in writes.iter().enumerate() {
        let value = build_value(*byte);
        oof.set(*key, value);
        leaves[(*key - 8) as usize] = value;
        if step % 2 == 1 {
            let mut fresh = Oof::new(&keys, &leaves);
            let expected = *fresh.root().unwrap();
            assert_eq!(oof.root(), Ok(&expected));
        }
    }
    let mut fresh = Oof::new(&keys, &leaves);
    let expected = *fresh.root().unwrap();
    assert_eq!(oof.root(), Ok(&expected));
    assert_eq!(oof, fresh);
}
