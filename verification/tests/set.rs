use hindexed::set::HISet;

use std::collections::hash_map::DefaultHasher;
use std::hash::Hash;
use std::hash::Hasher;

#[test]
fn set_insert_1() {
    let mut bag = HISet::new();

    bag.insert(1);

    assert_eq!(1, *bag.get_index(0));
}

#[test]
fn cant_contain_duplicates() {
    let mut bag = HISet::new();

    bag.insert(1);
    bag.insert(1);

    assert_eq!(1, bag.len());
    assert_eq!(1, *bag.get_index(0));
}

#[test]
fn set_iteration_order_is_ord() {
    let mut bag = HISet::new();

    bag.insert(3);
    bag.insert(1);
    bag.insert(2);

    let items = bag.iter();
    let mut iter = items.iter();

    assert_eq!(Some(&1), iter.next());
    assert_eq!(Some(&2), iter.next());
    assert_eq!(Some(&3), iter.next());
    assert_eq!(None, iter.next());
}

#[test]
fn set_can_contain_different_values() {
    let mut bag = HISet::new();

    bag.insert(1);
    bag.insert(2);

    assert_eq!(2, bag.len());
    assert_eq!(true, bag.contains(&1));
    assert_eq!(true, bag.contains(&2));
}

#[test]
fn set_can_remove_items() {
    let mut bag = HISet::new();

    bag.insert(1);
    bag.insert(2);
    bag.remove(&1);

    assert_eq!(1, bag.len());
    assert_eq!(false, bag.contains(&1));
}

#[test]
fn set_insert_three_one_two() {
    let mut set = HISet::new();

    set.insert(3);
    set.insert(1);
    set.insert(2);

    assert_eq!(3, set.len());
    assert_eq!(1, *set.get_index(0));
    assert_eq!(2, *set.get_index(1));
    assert_eq!(3, *set.get_index(2));
}

#[test]
fn set_insert_reports_prior_presence() {
    let mut set = HISet::new();

    assert_eq!(false, set.insert(1));
    assert_eq!(true, set.insert(1));
    assert_eq!(1, set.len());
    assert_eq!(true, set.contains(&1));
}

#[test]
fn set_sorted_after_each_insert() {
    let mut set = HISet::new();

    for x in [5, 3, 9, 1, 7, 3] {
        set.insert(x);
        let items = set.iter();
        for i in 1..items.len() {
            assert!(items[i - 1] <= items[i]);
        }
    }
}

#[test]
fn set_remove_round_trip() {
    let mut set = HISet::from_vec(vec![1, 2]);

    assert_eq!(Some(1), set.remove(&1));

    assert_eq!(1, set.len());
    assert_eq!(false, set.contains(&1));
    assert_eq!(true, set.contains(&2));
}

#[test]
fn set_remove_absent_leaves_unchanged() {
    let mut set = HISet::from_vec(vec![1, 2]);

    assert_eq!(None, set.remove(&5));

    assert_eq!(2, set.len());
    assert_eq!(true, set.contains(&1));
    assert_eq!(true, set.contains(&2));
}

#[test]
fn set_indexing_matches_iteration() {
    let set = HISet::from_vec(vec![4, 2, 8, 6]);

    let items = set.iter();
    for i in 0..set.len() {
        assert_eq!(items[i], *set.get_index(i));
    }
}

#[test]
fn set_equal_and_same_hash_regardless_of_insertion_order() {
    let a = HISet::from_vec(vec![1, 2, 3]);
    let b = HISet::from_vec(vec![3, 2, 1]);

    assert_eq!(a, b);

    let mut ha = DefaultHasher::new();
    a.hash(&mut ha);
    let mut hb = DefaultHasher::new();
    b.hash(&mut hb);
    assert_eq!(ha.finish(), hb.finish());
}

#[test]
fn set_from_vec_drops_duplicates() {
    let set = HISet::from_vec(vec![2, 1, 2, 1]);

    assert_eq!(2, set.len());
    assert_eq!(1, *set.get_index(0));
    assert_eq!(2, *set.get_index(1));
}

#[test]
fn set_remove_index_takes_positional_element() {
    let mut set = HISet::from_vec(vec![3, 1, 2]);

    assert_eq!(2, set.remove_index(1));

    assert_eq!(2, set.len());
    assert_eq!(1, *set.get_index(0));
    assert_eq!(3, *set.get_index(1));
}

#[test]
fn set_get_index_mut_reads_in_place() {
    let mut set = HISet::from_vec(vec![2, 1]);

    assert_eq!(1, *set.get_index_mut(0));
    assert_eq!(2, *set.get_index_mut(1));
    assert_eq!(2, set.len());
}

#[test]
fn set_clear_empties() {
    let mut set = HISet::from_vec(vec![1, 2, 3]);

    set.clear();

    assert_eq!(0, set.len());
    assert_eq!(false, set.contains(&1));

    set.insert(4);
    assert_eq!(1, set.len());
}

#[test]
fn set_remove_from_empty_is_none() {
    let mut set = HISet::<i32>::new();

    assert_eq!(None, set.remove(&1));
    assert_eq!(0, set.len());
}

#[test]
fn set_from_vec_of_nothing_is_empty() {
    let set = HISet::<i32>::from_vec(vec![]);

    assert_eq!(0, set.len());
    assert_eq!(false, set.contains(&0));
}

#[test]
fn set_into_vec_is_sorted_contents() {
    let set = HISet::from_vec(vec![3, 1, 2]);

    assert_eq!(vec![1, 2, 3], set.into_vec());
}
