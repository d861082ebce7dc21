use algorithms::collections::doubly_linked_list::DoublyLinkedList;

#[test]
fn doubly_linked_list_new_list() {
    let mut list = DoublyLinkedList::new();

    assert_eq!(list.insert_by_index(0, 3), Ok(()));
    assert_eq!(list.insert_first(2), Ok(()));
    assert_eq!(list.insert_by_index(0, 1), Ok(()));

    assert_eq!(list.insert_by_index(3, 4), Ok(()));
    assert_eq!(list.insert_last(5), Ok(()));
    assert_eq!(list.insert_by_index(5, 6), Ok(()));

    assert_eq!(list.get_length(), 6);

    assert_eq!(list.insert_by_index(-1, 8), Ok(()));
    assert_eq!(list.insert_by_index(-2, 7), Ok(()));

    assert_eq!(list.get_length(), 8);

    assert_eq!(list.get_by_index(0).unwrap(), 1);
    assert_eq!(list.get_by_index(1).unwrap(), 3);
    assert_eq!(list.get_first().unwrap(), 2);

    assert_eq!(list.get_length(), 5);

    assert_eq!(list.get_by_index(-1).unwrap(), 8);
    assert_eq!(list.get_by_index(-2).unwrap(), 6);

    assert_eq!(list.get_length(), 3);

    assert_eq!(list.get_by_index(-3).unwrap(), 4);
    assert_eq!(list.get_by_index(2).unwrap(), 7);
    assert_eq!(list.get_by_index(0).unwrap(), 5);

    assert_eq!(list.get_length(), 0);

    assert!(list.get_first().is_none());

    assert_eq!(list.insert_by_index(0, 3), Ok(()));
    assert_eq!(list.insert_first(2), Ok(()));
    assert_eq!(list.insert_by_index(0, 1), Ok(()));

    drop(list);
}

#[test]
fn new_list_reserve() {
    let mut list = DoublyLinkedList::new();

    assert_eq!(list.insert_by_index(-1, 1), Ok(()));
    assert_eq!(list.insert_by_index(-1, 2), Ok(()));
    assert_eq!(list.insert_by_index(-1, 4), Ok(()));
    assert_eq!(list.insert_by_index(-2, 3), Ok(()));
    assert_eq!(list.insert_by_index(4, 7), Ok(()));
    assert_eq!(list.insert_by_index(4, 6), Ok(()));
    assert_eq!(list.insert_by_index(-3, 5), Ok(()));
    assert_eq!(list.insert_by_index(-8, 0), Ok(()));
    assert_eq!(list.insert_by_index(-9, -1), Ok(()));
    assert_eq!(list.insert_by_index(-10, -2), Ok(()));
    assert_eq!(list.insert_by_index(10, 8), Ok(()));
    assert_eq!(list.insert_by_index(-19, 8), Err(()));
    assert_eq!(list.insert_by_index(19, 8), Err(()));

    assert_eq!(list.get_first().unwrap(), -2);
    assert_eq!(list.get_first().unwrap(), -1);
    assert_eq!(list.get_last().unwrap(), 8);
    assert_eq!(list.get_last().unwrap(), 7);

    assert_eq!(list.get_by_index(-7).unwrap(), 0);
    assert_eq!(list.get_by_index(6).unwrap(), 6);

    assert_eq!(list.get_by_index(2).unwrap(), 3);
    assert_eq!(list.get_by_index(-3).unwrap(), 2);
    assert_eq!(list.get_by_index(1).unwrap(), 4);
    assert_eq!(list.get_by_index(-2).unwrap(), 1);
    assert_eq!(list.get_by_index(0).unwrap(), 5);
}

#[test]
fn places_out_of_range() {
    let mut list: DoublyLinkedList<u8> = DoublyLinkedList::new();
    assert_eq!(list.get_by_index(0), None);
    assert_eq!(list.get_by_index(-1), None);
    assert_eq!(list.get_last(), None);
    assert_eq!(list.insert_by_index(1, 9), Err(()));
    assert_eq!(list.insert_by_index(-2, 9), Err(()));
    assert_eq!(list.insert_by_index(i32::MIN, 9), Err(()));
    assert_eq!(list.insert_by_index(i32::MAX, 9), Err(()));
    assert_eq!(list.insert_by_index(-1, 1), Ok(()));
    assert_eq!(list.insert_by_index(-1, 2), Ok(()));
    assert_eq!(list.insert_by_index(-1, 3), Ok(()));
    assert_eq!(list.get_by_index(4), None);
    assert_eq!(list.get_by_index(-4), None);
    assert_eq!(list.get_by_index(i32::MIN), None);
    assert_eq!(list.get_length(), 3);
    // the last value answers to its own place and to the length
    assert_eq!(list.get_by_index(2), Some(3));
    assert_eq!(list.get_by_index(2), Some(2));
    assert_eq!(list.get_by_index(-1), Some(1));
    assert_eq!(list.get_length(), 0);
}
