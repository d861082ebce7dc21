use algorithms::collections::list::List;
use algorithms::collections::list::QueueStackMix;

#[test]
fn list_new_list() {
    let mut l: List<u32> = List::new();
    assert_eq!(l.get_length(), 0);
    assert_eq!(l.pop_from_beginning(), None);
    assert_eq!(l.pop_from_end(), None);
    assert_eq!(l.peek_beginning(), None);
    assert_eq!(l.peek_last(), None);
    assert_eq!(l.peek_mut_beginning(), None);
    assert_eq!(l.peek_mut_last(), None);
}

#[test]
fn push_pop_beginning() {
    let mut l: List<u32> = List::new();
    assert!(l.push_to_beginning(4).is_ok());
    assert!(l.push_to_beginning(3).is_ok());
    assert!(l.push_to_beginning(2).is_ok());
    assert!(l.push_to_beginning(1).is_ok());
    assert_eq!(l.get_length(), 4);
    assert_eq!(l.pop_from_beginning(), Some(1));
    assert_eq!(l.pop_from_beginning(), Some(2));
    assert_eq!(l.pop_from_beginning(), Some(3));
    assert_eq!(l.pop_from_beginning(), Some(4));
    assert_eq!(l.pop_from_beginning(), None);
    assert_eq!(l.get_length(), 0);
    assert!(l.push_to_beginning(5).is_ok());
    assert!(l.push_to_beginning(6).is_ok());
    assert_eq!(l.get_length(), 2);
    assert_eq!(l.pop_from_beginning(), Some(6));
    assert_eq!(l.pop_from_beginning(), Some(5));
    assert_eq!(l.pop_from_beginning(), None);
    assert_eq!(l.get_length(), 0);
}

#[test]
fn push_pop_end() {
    let mut l: List<u32> = List::new();
    assert!(l.push_to_end(4).is_ok());
    assert!(l.push_to_end(3).is_ok());
    assert!(l.push_to_end(2).is_ok());
    assert!(l.push_to_end(1).is_ok());
    assert_eq!(l.get_length(), 4);
    assert_eq!(l.pop_from_end(), Some(1));
    assert_eq!(l.pop_from_end(), Some(2));
    assert_eq!(l.pop_from_end(), Some(3));
    assert_eq!(l.pop_from_end(), Some(4));
    assert_eq!(l.pop_from_end(), None);
    assert_eq!(l.get_length(), 0);
    assert!(l.push_to_beginning(5).is_ok());
    assert!(l.push_to_beginning(6).is_ok());
    assert_eq!(l.get_length(), 2);
    assert_eq!(l.pop_from_beginning(), Some(6));
    assert_eq!(l.pop_from_beginning(), Some(5));
    assert_eq!(l.pop_from_beginning(), None);
    assert_eq!(l.get_length(), 0);
}

#[test]
fn mixed_push_pop_end_beginning() {
    let mut l: List<u32> = List::new();
    assert!(l.push_to_beginning(2).is_ok());
    assert!(l.push_to_beginning(1).is_ok());
    assert!(l.push_to_end(3).is_ok());
    assert!(l.push_to_end(4).is_ok());
    assert_eq!(l.get_length(), 4);
    assert_eq!(l.pop_from_end(), Some(4));
    assert_eq!(l.pop_from_beginning(), Some(1));
    assert_eq!(l.pop_from_end(), Some(3));
    assert_eq!(l.pop_from_beginning(), Some(2));
    assert_eq!(l.pop_from_end(), None);
    assert_eq!(l.get_length(), 0);
    assert!(l.push_to_beginning(5).is_ok());
    assert!(l.push_to_end(6).is_ok());
    assert_eq!(l.get_length(), 2);
    assert_eq!(l.pop_from_beginning(), Some(5));
    assert_eq!(l.pop_from_beginning(), Some(6));
    assert_eq!(l.pop_from_beginning(), None);
    assert_eq!(l.get_length(), 0);
}

#[test]
fn mixed_get_insert() {
    let mut l: List<u32> = List::new();
    assert!(l.insert_by_index(0, 4).is_ok());
    assert!(l.insert_by_index(0, 1).is_ok());
    assert!(l.insert_by_index(1, 3).is_ok());
    assert!(l.insert_by_index(1, 2).is_ok());
    assert!(l.insert_by_index(4, 5).is_ok());
    assert_eq!(l.get_length(), 5);
    assert_eq!(l.get_by_index(2), Some(3));
    assert_eq!(l.get_by_index(2), Some(4));
    assert_eq!(l.get_by_index(2), Some(5));
    assert_eq!(l.get_by_index(0), Some(1));
    assert_eq!(l.get_by_index(0), Some(2));
    assert_eq!(l.pop_from_end(), None);
    assert_eq!(l.get_length(), 0);
    assert_eq!(l.insert_by_index(5, 0), Err(()));
    assert_eq!(l.get_length(), 0);

    assert!(l.insert_by_index(0, 6).is_ok());
    assert!(l.insert_by_index(0, 7).is_ok());
    assert_eq!(l.get_length(), 2);
    assert_eq!(l.pop_from_beginning(), Some(7));
    assert_eq!(l.pop_from_beginning(), Some(6));
    assert_eq!(l.pop_from_beginning(), None);
    assert_eq!(l.get_length(), 0);
}

#[test]
fn iter() {
    let mut l: List<u32> = List::new();
    assert!(l.push_to_beginning(2).is_ok());
    assert!(l.push_to_beginning(1).is_ok());
    assert!(l.push_to_end(4).is_ok());
    assert!(l.push_to_end(5).is_ok());
    assert!(l.insert_by_index(2, 3).is_ok());

    let mut values = l.into_iter();
    let mut sum: u32 = 0;
    while let Some(value) = values.next() {
        sum += value;
    }
    assert_eq!(sum, 15);
}

#[test]
fn peak() {
    let mut l: List<u32> = List::new();
    assert!(l.push_to_beginning(2).is_ok());
    assert!(l.push_to_beginning(1).is_ok());
    assert!(l.push_to_end(4).is_ok());
    assert!(l.push_to_end(5).is_ok());
    assert!(l.insert_by_index(2, 3).is_ok());

    assert_eq!(l.peek_beginning(), Some(&1));
    assert_eq!(l.peek_last(), Some(&5));
    assert_eq!(l.peek_by_index(1), Some(&2));
    assert_eq!(l.peek_by_index(2), Some(&3));
    assert_eq!(l.peek_by_index(3), Some(&4));
}

#[test]
fn peak_mut() {
    let mut l: List<u32> = List::new();
    assert!(l.push_to_beginning(2).is_ok());
    assert!(l.push_to_beginning(1).is_ok());
    assert!(l.push_to_end(4).is_ok());
    assert!(l.push_to_end(5).is_ok());
    assert!(l.insert_by_index(2, 3).is_ok());
    assert_eq!(l.get_length(), 5);

    l.peek_mut_last().map(|v| *v = 10);
    l.peek_mut_beginning().map(|v| *v = 6);
    l.peek_mut_by_index(1).map(|v| *v = 7);
    l.peek_mut_by_index(2).map(|v| *v = 8);
    l.peek_mut_by_index(3).map(|v| *v = 9);
    assert_eq!(l.get_length(), 5);

    assert_eq!(l.pop_from_beginning(), Some(6));
    assert_eq!(l.pop_from_end(), Some(10));
    assert_eq!(l.get_by_index(1), Some(8));
    assert_eq!(l.get_by_index(1), Some(9));
    assert_eq!(l.get_by_index(0), Some(7));
    assert_eq!(l.get_length(), 0);
}

#[test]
fn index_past_the_end_is_refused() {
    let mut l: List<u32> = List::new();
    assert_eq!(l.insert_by_index(1, 9), Err(()));
    assert!(l.push_to_end(1).is_ok());
    assert!(l.push_to_end(2).is_ok());
    assert_eq!(l.insert_by_index(3, 9), Err(()));
    assert_eq!(l.insert_by_index(2, 3), Ok(()));
    assert_eq!(l.get_by_index(3), None);
    assert_eq!(l.peek_by_index(3), None);
    assert!(l.peek_mut_by_index(3).is_none());
    assert_eq!(l.get_length(), 3);
    assert_eq!(l.peek_by_index(2), Some(&3));
    assert_eq!(l.get_by_index(2), Some(3));
    assert_eq!(l.get_by_index(1), Some(2));
    assert_eq!(l.get_by_index(0), Some(1));
    assert_eq!(l.get_by_index(0), None);
}

#[test]
fn handing_out_stops_at_the_end() {
    let mut l: List<u32> = List::new();
    assert!(l.push_to_end(7).is_ok());
    assert!(l.push_to_end(8).is_ok());
    let mut values = l.into_iter();
    assert_eq!(values.next(), Some(7));
    assert_eq!(values.next(), Some(8));
    assert_eq!(values.next(), None);
    assert_eq!(values.next(), None);
}

#[test]
fn long_list_is_given_up_without_nesting() {
    let mut l: List<u32> = List::new();
    for i in 0..200_000u32 {
        assert!(l.push_to_beginning(i).is_ok());
    }
    assert_eq!(l.get_length(), 200_000);
    assert_eq!(l.peek_beginning(), Some(&199_999));
}
