use bounded_max_heap::Heap;

#[test]
fn t_insert() {
    let mut h = Heap::new(3);
    h.insert(10).unwrap();
    assert_eq!(h.size, 1);
    h.insert(20).unwrap();
    assert_eq!(h.size, 2);
    h.insert(30).unwrap();
    assert_eq!(h.size, 3);

    assert!(h.insert(40).is_err());
}

#[test]
fn t_remove_key() {
    let mut h = Heap::new(2);
    h.insert(10).unwrap();
    h.insert(20).unwrap();
    assert_eq!(h.size, 2);

    h.remove_key(1);
    assert_eq!(h.size, 1);
}

#[test]
fn t_extract_max() {
    let mut h = Heap::new(2);
    h.insert(10).unwrap();
    let max = h.extract_max();
    assert_eq!(max, Some(10));
    h.insert(20).unwrap();

    let max = h.extract_max();
    assert_eq!(max, Some(20));
}

#[test]
fn new_heap_is_empty_and_zero_filled() {
    let h = Heap::new(4);
    assert_eq!(h.size, 0);
    assert_eq!(h.capacity, 4);
    assert_eq!(h.array, vec![0, 0, 0, 0]);
}

#[test]
fn extract_from_empty_returns_none() {
    let mut h = Heap::new(3);
    assert_eq!(h.extract_max(), None);
    assert_eq!(h.size, 0);

    h.insert(5).unwrap();
    assert_eq!(h.extract_max(), Some(5));
    assert_eq!(h.extract_max(), None);
    assert_eq!(h.size, 0);
}

#[test]
fn full_heap_rejects_insert_and_keeps_elements() {
    let mut h = Heap::new(3);
    h.insert(10).unwrap();
    h.insert(20).unwrap();
    h.insert(30).unwrap();
    assert_eq!(h.size, 3);

    let err = h.insert(40).unwrap_err();
    assert_eq!(err, "Heap Overflow!");
    assert_eq!(h.size, 3);

    assert_eq!(h.extract_max(), Some(30));
    assert_eq!(h.extract_max(), Some(20));
    assert_eq!(h.extract_max(), Some(10));
}

#[test]
fn permutation_extracts_in_descending_order() {
    let mut h = Heap::new(5);
    for v in [30, 10, 50, 20, 40] {
        h.insert(v).unwrap();
    }
    assert_eq!(h.extract_max(), Some(50));
    assert_eq!(h.extract_max(), Some(40));
    assert_eq!(h.extract_max(), Some(30));
    assert_eq!(h.extract_max(), Some(20));
    assert_eq!(h.extract_max(), Some(10));
    assert_eq!(h.extract_max(), None);
}

#[test]
fn duplicate_keys_all_come_out() {
    let mut h = Heap::new(3);
    h.insert(7).unwrap();
    h.insert(7).unwrap();
    h.insert(7).unwrap();
    assert_eq!(h.extract_max(), Some(7));
    assert_eq!(h.extract_max(), Some(7));
    assert_eq!(h.extract_max(), Some(7));
    assert_eq!(h.extract_max(), None);
}

#[test]
fn extreme_values_are_ordinary_keys() {
    let mut h = Heap::new(3);
    h.insert(i64::MIN).unwrap();
    h.insert(0).unwrap();
    h.insert(i64::MAX).unwrap();
    assert_eq!(h.extract_max(), Some(i64::MAX));
    assert_eq!(h.extract_max(), Some(0));
    assert_eq!(h.extract_max(), Some(i64::MIN));
    assert_eq!(h.extract_max(), None);
}

#[test]
fn remove_key_of_non_max_keeps_max() {
    let mut h = Heap::new(2);
    h.insert(10).unwrap();
    h.insert(20).unwrap();
    h.remove_key(1);
    assert_eq!(h.size, 1);
    assert_eq!(h.extract_max(), Some(20));
}

#[test]
fn remove_key_of_last_slot() {
    let mut h = Heap::new(3);
    h.insert(10).unwrap();
    h.insert(20).unwrap();
    h.insert(30).unwrap();
    h.remove_key(2);
    assert_eq!(h.size, 2);
    assert_eq!(h.extract_max(), Some(30));
    assert_eq!(h.extract_max(), Some(10));
}

#[test]
fn remove_key_of_root() {
    let mut h = Heap::new(4);
    h.insert(10).unwrap();
    h.insert(40).unwrap();
    h.insert(30).unwrap();
    h.insert(20).unwrap();
    h.remove_key(0);
    assert_eq!(h.size, 3);
    assert_eq!(h.extract_max(), Some(30));
    assert_eq!(h.extract_max(), Some(20));
    assert_eq!(h.extract_max(), Some(10));
}

#[test]
fn increase_key_can_raise_a_leaf_to_the_top() {
    let mut h = Heap::new(4);
    h.insert(5).unwrap();
    h.insert(1).unwrap();
    h.insert(3).unwrap();
    h.increase_key(2, 50);
    assert_eq!(h.size, 3);
    assert_eq!(h.extract_max(), Some(50));
    assert_eq!(h.extract_max(), Some(5));
    assert_eq!(h.extract_max(), Some(1));
}

#[test]
fn increase_key_to_the_same_value_changes_nothing() {
    let mut h = Heap::new(2);
    h.insert(9).unwrap();
    h.insert(4).unwrap();
    h.increase_key(1, 4);
    assert_eq!(h.extract_max(), Some(9));
    assert_eq!(h.extract_max(), Some(4));
}

#[test]
fn swap_exchanges_two_slots() {
    let mut h = Heap::new(2);
    h.insert(1).unwrap();
    h.insert(2).unwrap();
    assert_eq!(h.array, vec![2, 1]);
    h.swap(0, 1);
    assert_eq!(h.array, vec![1, 2]);
}

#[test]
fn heapify_repairs_a_small_root() {
    let mut h = Heap::new(3);
    h.array[0] = 1;
    h.array[1] = 5;
    h.array[2] = 3;
    h.size = 3;
    h.heapify(0);
    assert_eq!(h.extract_max(), Some(5));
    assert_eq!(h.extract_max(), Some(3));
    assert_eq!(h.extract_max(), Some(1));
}

#[test]
fn build_heap_orders_a_bulk_loaded_prefix() {
    let mut h = Heap::new(7);
    let raw = [2, 9, 4, 7, 1, 8];
    for (k, v) in raw.iter().enumerate() {
        h.array[k] = *v;
    }
    h.size = raw.len();
    h.build_heap();
    assert_eq!(h.extract_max(), Some(9));
    assert_eq!(h.extract_max(), Some(8));
    assert_eq!(h.extract_max(), Some(7));
    assert_eq!(h.extract_max(), Some(4));
    assert_eq!(h.extract_max(), Some(2));
    assert_eq!(h.extract_max(), Some(1));
    assert_eq!(h.extract_max(), None);
}

#[test]
fn build_heap_on_empty_prefix_is_a_no_op() {
    let mut h = Heap::new(2);
    h.build_heap();
    assert_eq!(h.size, 0);
    assert_eq!(h.extract_max(), None);
}

#[test]
fn interleaved_operations_keep_order() {
    let mut h = Heap::new(6);
    h.insert(12).unwrap();
    h.insert(3).unwrap();
    h.insert(25).unwrap();
    assert_eq!(h.extract_max(), Some(25));
    h.insert(18).unwrap();
    h.insert(7).unwrap();
    h.remove_key(1);
    h.increase_key(0, 40);
    assert_eq!(h.extract_max(), Some(40));
    assert_eq!(h.extract_max(), Some(12));
    assert_eq!(h.extract_max(), Some(3));
    assert_eq!(h.extract_max(), None);
}
