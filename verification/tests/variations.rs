use conversion_planner::variations::Variations;
use std::collections::BTreeSet;

fn set(items: &[u64]) -> Variations {
    Variations::from_vec(items.to_vec())
}

#[test]
fn from_vec_sorts_and_drops_duplicates() {
    assert_eq!(set(&[3, 1, 2, 3, 1]).to_vec(), vec![1, 2, 3]);
    assert_eq!(set(&[]).to_vec(), Vec::<u64>::new());
}

#[test]
fn insert_says_whether_the_item_was_new() {
    let mut s = Variations::new();
    assert!(s.insert(5));
    assert!(s.insert(2));
    assert!(!s.insert(5));
    assert!(s.insert(9));
    assert_eq!(s.to_vec(), vec![2, 5, 9]);
    assert_eq!(s.len(), 3);
}

#[test]
fn contains_finds_items_only() {
    let s = set(&[4, 8]);
    assert!(s.contains(4));
    assert!(s.contains(8));
    assert!(!s.contains(6));
    assert!(!Variations::new().contains(0));
}

#[test]
fn subset_and_superset() {
    assert!(set(&[]).is_subset(&set(&[])));
    assert!(set(&[]).is_subset(&set(&[1])));
    assert!(set(&[1, 3]).is_subset(&set(&[1, 2, 3])));
    assert!(!set(&[1, 4]).is_subset(&set(&[1, 2, 3])));
    assert!(set(&[1, 2, 3]).is_superset(&set(&[2])));
    assert!(!set(&[2]).is_superset(&set(&[1, 2, 3])));
}

#[test]
fn difference_keeps_what_the_other_lacks() {
    assert_eq!(set(&[1, 2, 3, 4]).difference(&set(&[2, 4, 6])).to_vec(), vec![1, 3]);
    assert_eq!(set(&[1, 2]).difference(&set(&[])).to_vec(), vec![1, 2]);
    assert_eq!(set(&[1, 2]).difference(&set(&[1, 2])).to_vec(), Vec::<u64>::new());
}

#[test]
fn union_holds_the_items_of_both() {
    assert_eq!(set(&[1, 5]).union(&set(&[3, 5, 0])).to_vec(), vec![0, 1, 3, 5]);
    assert_eq!(set(&[]).union(&set(&[])).to_vec(), Vec::<u64>::new());
}

#[test]
fn intersection_count_counts_common_items() {
    assert_eq!(set(&[1, 2, 3]).intersection_count(&set(&[2, 3, 4])), 2);
    assert_eq!(set(&[1, 2, 3]).intersection_count(&set(&[])), 0);
    assert_eq!(set(&[]).intersection_count(&set(&[7])), 0);
}

#[test]
fn equals_compares_items() {
    assert!(set(&[2, 1]).equals(&set(&[1, 2, 2])));
    assert!(!set(&[1]).equals(&set(&[1, 2])));
    assert!(!set(&[1, 3]).equals(&set(&[1, 2])));
    assert!(set(&[]).equals(&Variations::new()));
}

#[test]
fn order_is_that_of_the_ascending_listings() {
    assert_eq!(set(&[]).order(&set(&[])), 0);
    assert_eq!(set(&[]).order(&set(&[0])), -1);
    assert_eq!(set(&[0]).order(&set(&[])), 1);
    assert_eq!(set(&[1, 2]).order(&set(&[1, 2, 3])), -1);
    assert_eq!(set(&[1, 3]).order(&set(&[1, 2, 9])), 1);
    assert_eq!(set(&[1, 2]).order(&set(&[3])), -1);
    assert_eq!(set(&[4, 2]).order(&set(&[2, 4])), 0);
}

#[test]
fn clone_keeps_the_items() {
    let s = set(&[9, 7]);
    assert_eq!(s.clone().to_vec(), vec![7, 9]);
}

#[test]
fn from_set_takes_the_items_of_a_set() {
    let mut set = BTreeSet::new();
    set.insert(8);
    set.insert(3);
    set.insert(8);
    assert_eq!(Variations::from_set(&set).to_vec(), vec![3, 8]);
    assert_eq!(Variations::from_set(&BTreeSet::new()).to_vec(), Vec::<u64>::new());
}
