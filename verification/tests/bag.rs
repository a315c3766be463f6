use hindexed::bag::HIBag;

use std::collections::hash_map::DefaultHasher;
use std::hash::Hash;
use std::hash::Hasher;

#[test]
fn bag_insert_1() {
    let mut bag = HIBag::new();

    bag.insert(1);

    assert_eq!(1, *bag.get_index(0));
}

#[test]
fn can_contain_duplicates() {
    let mut bag = HIBag::new();

    bag.insert(1);
    bag.insert(1);

    assert_eq!(2, bag.len());
    assert_eq!(1, *bag.get_index(0));
    assert_eq!(1, *bag.get_index(1));
}

#[test]
fn bag_iteration_order_is_ord() {
    let mut bag = HIBag::new();

    bag.insert(3);
    bag.insert(1);
    bag.insert(2);

    let items = bag.iter();
    let mut iter = items.iter();

    assert_eq!(Some(&1), iter.next());
    assert_eq!(Some(&2), iter.next());
    assert_eq!(Some(&3), iter.next());
    assert_eq!(None, iter.next());
}

#[test]
fn bag_can_contain_different_values() {
    let mut bag = HIBag::new();

    bag.insert(1);
    bag.insert(2);

    assert_eq!(2, bag.len());
    assert_eq!(true, bag.contains(&1));
    assert_eq!(true, bag.contains(&2));
}

#[test]
fn bag_can_remove_items() {
    let mut bag = HIBag::new();

    bag.insert(1);
    bag.insert(2);
    bag.remove(&1);

    assert_eq!(1, bag.len());
    assert_eq!(false, bag.contains(&1));
}

#[test]
fn bag_multiplicity_grows_and_shrinks_one_at_a_time() {
    let mut bag = HIBag::new();

    bag.insert(1);
    bag.insert(1);

    assert_eq!(2, bag.len());
    assert_eq!(1, *bag.get_index(0));
    assert_eq!(1, *bag.get_index(1));

    assert_eq!(Some(1), bag.remove(&1));
    assert_eq!(1, bag.len());
    assert_eq!(true, bag.contains(&1));

    assert_eq!(Some(1), bag.remove(&1));
    assert_eq!(0, bag.len());
    assert_eq!(false, bag.contains(&1));
}

#[test]
fn bag_remove_absent_leaves_unchanged() {
    let mut bag = HIBag::from_vec(vec![1, 2]);

    assert_eq!(None, bag.remove(&5));

    assert_eq!(2, bag.len());
    assert_eq!(true, bag.contains(&1));
    assert_eq!(true, bag.contains(&2));
}

#[test]
fn bag_sorted_after_each_insert() {
    let mut bag = HIBag::new();

    for x in [5, 3, 9, 1, 7, 3] {
        bag.insert(x);
        let items = bag.iter();
        for i in 1..items.len() {
            assert!(items[i - 1] <= items[i]);
        }
    }
}

#[test]
fn bag_indexing_matches_iteration() {
    let bag = HIBag::from_vec(vec![4, 2, 8, 6, 2]);

    let items = bag.iter();
    for i in 0..bag.len() {
        assert_eq!(items[i], *bag.get_index(i));
    }
}

#[test]
fn bag_equal_and_same_hash_regardless_of_insertion_order() {
    let a = HIBag::from_vec(vec![1, 2, 2, 3]);
    let b = HIBag::from_vec(vec![3, 2, 1, 2]);

    assert_eq!(a, b);

    let mut ha = DefaultHasher::new();
    a.hash(&mut ha);
    let mut hb = DefaultHasher::new();
    b.hash(&mut hb);
    assert_eq!(ha.finish(), hb.finish());
}

#[test]
fn bag_from_vec_keeps_duplicates() {
    let bag = HIBag::from_vec(vec![2, 1, 2]);

    assert_eq!(3, bag.len());
    assert_eq!(1, *bag.get_index(0));
    assert_eq!(2, *bag.get_index(1));
    assert_eq!(2, *bag.get_index(2));
}

#[test]
fn bag_remove_index_takes_positional_element() {
    let mut bag = HIBag::from_vec(vec![3, 1, 2]);

    assert_eq!(2, bag.remove_index(1));

    assert_eq!(2, bag.len());
    assert_eq!(1, *bag.get_index(0));
    assert_eq!(3, *bag.get_index(1));
}

#[test]
fn bag_clear_empties() {
    let mut bag = HIBag::from_vec(vec![1, 1, 2]);

    bag.clear();

    assert_eq!(0, bag.len());
    assert_eq!(false, bag.contains(&1));

    bag.insert(4);
    assert_eq!(1, bag.len());
}

#[test]
fn bag_remove_from_empty_is_none() {
    let mut bag = HIBag::<i32>::new();

    assert_eq!(None, bag.remove(&1));
    assert_eq!(0, bag.len());
}

#[test]
fn bag_from_vec_of_nothing_is_empty() {
    let bag = HIBag::<i32>::from_vec(vec![]);

    assert_eq!(0, bag.len());
    assert_eq!(false, bag.contains(&0));
}

#[test]
fn bag_into_vec_is_sorted_contents() {
    let bag = HIBag::from_vec(vec![3, 1, 2, 1]);

    assert_eq!(vec![1, 1, 2, 3], bag.into_vec());
}
