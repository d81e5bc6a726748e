use oof::hash::{hash, zero_hash};
use oof::generate::Generate;
use oof::Oof;
use std::collections::BTreeSet;

fn build_value(n: u8) -> [u8; 32] {
    let mut tmp = [0u8; 32];
    tmp[0] = n;
    tmp
}

#[test]
fn fill_invents_the_missing_siblings() {
    let default = build_value(0xdd);
    let mut oof = Oof::new(&[4], &[build_value(4)]);
    oof.fill_with_default(&default);

    assert_eq!(oof.keys(), BTreeSet::from([1, 2, 3, 4, 5]));
    assert_eq!(oof.get(&4), Some(&build_value(4)));
    assert_eq!(oof.get(&5), Some(&default));
    let two = hash(&build_value(4), &default);
    let three = hash(&default, &default);
    assert_eq!(oof.get(&2), Some(&two));
    assert_eq!(oof.get(&3), Some(&three));
    assert_eq!(oof.get(&3), Some(&zero_hash(&default, 1)));
    assert_eq!(oof.get(&1), Some(&hash(&two, &three)));
}

#[test]
fn fill_measures_the_height_from_the_lowest_level() {
    let default = [0u8; 32];
    let mut oof = Oof::new(&[2, 15], &[build_value(2), build_value(15)]);
    oof.fill_with_default(&default);

    assert_eq!(oof.keys(), BTreeSet::from([1, 2, 3, 6, 7, 14, 15]));
    assert_eq!(oof.get(&14), Some(&zero_hash(&default, 0)));
    assert_eq!(oof.get(&6), Some(&zero_hash(&default, 1)));
    let seven = hash(&default, &build_value(15));
    let three = hash(&zero_hash(&default, 1), &seven);
    assert_eq!(oof.get(&7), Some(&seven));
    assert_eq!(oof.get(&3), Some(&three));
    assert_eq!(oof.get(&1), Some(&hash(&build_value(2), &three)));
}

#[test]
fn fill_gives_the_root_that_is_then_found() {
    let mut oof = Oof::new(&[9], &[build_value(9)]);
    oof.fill_with_default(&[0u8; 32]);
    let held = *oof.get(&1).unwrap();
    assert_eq!(oof.root(), Ok(&held));
}

#[test]
fn fill_does_not_overwrite_a_held_parent() {
    let mut oof = Oof::new(
        &[1, 2, 4],
        &[build_value(1), build_value(2), build_value(4)],
    );
    oof.fill_with_default(&[0u8; 32]);
    assert_eq!(oof.keys(), BTreeSet::from([1, 2, 4]));
    assert_eq!(oof.get(&1), Some(&build_value(1)));
    assert_eq!(oof.get(&2), Some(&build_value(2)));
}

#[test]
fn fill_of_a_complete_level_invents_nothing() {
    let mut filled = Oof::new(
        &[4, 5, 6, 7],
        &[build_value(4), build_value(5), build_value(6), build_value(7)],
    );
    filled.fill_with_default(&build_value(0xdd));
    let mut rooted = Oof::new(
        &[4, 5, 6, 7],
        &[build_value(4), build_value(5), build_value(6), build_value(7)],
    );
    rooted.root().unwrap();
    assert_eq!(filled, rooted);
}

#[test]
fn fill_of_the_empty_tree_adds_nothing() {
    let mut oof = Oof::new(&[], &[]);
    oof.fill_with_default(&[0u8; 32]);
    assert!(oof.keys().is_empty());
    let mut zero = Oof::new(&[0], &[build_value(1)]);
    zero.fill_with_default(&[0u8; 32]);
    assert_eq!(zero.keys(), BTreeSet::from([0]));
}

#[test]
fn branch_drops_what_can_be_derived() {
    let mut oof = Oof::new(
        &[4, 5, 6, 7],
        &[build_value(4), build_value(5), build_value(6), build_value(7)],
    );
    oof.root().unwrap();
    let branch = oof.into_branch();
    assert_eq!(branch.keys(), BTreeSet::from([4, 5, 6, 7]));
    assert_eq!(branch.get(&6), Some(&build_value(6)));
}

#[test]
fn branch_keeps_a_node_without_both_children() {
    let oof = Oof::new(
        &[1, 2, 3, 6],
        &[build_value(1), build_value(2), build_value(3), build_value(6)],
    );
    let branch = oof.into_branch();
    assert_eq!(branch.keys(), BTreeSet::from([2, 3, 6]));
}

#[test]
fn branch_judges_by_the_tree_as_it_was() {
    let oof = Oof::new(
        &[1, 2, 3, 4, 5],
        &[
            build_value(1),
            build_value(2),
            build_value(3),
            build_value(4),
            build_value(5),
        ],
    );
    let branch = oof.into_branch();
    assert_eq!(branch.keys(), BTreeSet::from([3, 4, 5]));
}

#[test]
fn branch_keeps_the_last_level() {
    let last = u128::MAX;
    let oof = Oof::new(&[0, last / 2, last], &[build_value(0), build_value(1), build_value(2)]);
    let branch = oof.into_branch();
    assert_eq!(branch.keys(), BTreeSet::from([0, last / 2, last]));
}

#[test]
fn fill_then_branch_gives_the_leaves_back() {
    let leaves = Oof::new(&[2, 6, 7], &[build_value(2), build_value(6), build_value(7)]);
    let mut oof = leaves.clone();
    oof.fill_with_default(&build_value(0xdd));
    assert_eq!(oof.keys(), BTreeSet::from([1, 2, 3, 6, 7]));
    assert_eq!(oof.into_branch(), leaves);
}

#[test]
fn fill_then_branch_keeps_what_was_invented() {
    let mut oof = Oof::new(&[4], &[build_value(4)]);
    oof.fill_with_default(&build_value(0xdd));
    assert_eq!(oof.into_branch().keys(), BTreeSet::from([3, 4, 5]));
}

#[test]
fn subtree_is_moved_under_the_anchor() {
    let mut oof = Oof::new(
        &[1, 2, 3],
        &[build_value(1), build_value(2), build_value(3)],
    );
    oof.to_subtree(5);

    let expected = BTreeSet::from([
        5,
        bonsai::subtree_index_to_general(5, 2),
        bonsai::subtree_index_to_general(5, 3),
    ]);
    assert_eq!(oof.keys(), expected);
    assert_eq!(oof.keys(), BTreeSet::from([5, 10, 11]));
    assert_eq!(oof.get(&1), None);
    assert_eq!(oof.get(&2), None);
    assert_eq!(oof.get(&3), None);
    assert_eq!(oof.get(&5), Some(&build_value(1)));
    assert_eq!(oof.get(&10), Some(&build_value(2)));
    assert_eq!(oof.get(&11), Some(&build_value(3)));
}

#[test]
fn subtree_under_the_root_stays() {
    let mut oof = Oof::new(&[1, 6, 13], &[build_value(1), build_value(6), build_value(13)]);
    let before = oof.clone();
    oof.to_subtree(1);
    assert_eq!(oof, before);
}

#[test]
fn subtree_nodes_keep_their_place_in_the_level() {
    let mut oof = Oof::new(
        &[7, 12, 17],
        &[build_value(7), build_value(12), build_value(17)],
    );
    oof.to_subtree(26);
    assert_eq!(oof.keys(), BTreeSet::from([107, 212, 417]));
    assert_eq!(oof.get(&107), Some(&build_value(7)));
    assert_eq!(oof.get(&212), Some(&build_value(12)));
    assert_eq!(oof.get(&417), Some(&build_value(17)));
}

#[test]
fn subtree_root_is_derived_in_the_larger_tree() {
    let mut sub = Oof::new(&[2, 3], &[build_value(2), build_value(3)]);
    sub.to_subtree(3);
    let mut oof = sub;
    oof.set(2, build_value(9));
    let three = hash(&build_value(2), &build_value(3));
    assert_eq!(oof.root(), Ok(&hash(&build_value(9), &three)));
}
