use node_link_store::linked_list::LinkedList;
use node_link_store::linked_list::ListError;

#[test]
fn test_push_head() {
    let mut list = LinkedList::<i32>::new();
    list.push_front(2);
    list.push_front(3);
    list.push_front(12);
    assert_eq!(list.to_vec(), vec![12, 3, 2]);
    assert_eq!(list.len(), 3);
}

#[test]
fn test_push_at() {
    let mut list = LinkedList::<i32>::new();
    list.push_front(12);
    list.push_back(13);
    list.push_back(14);
    list.push_at(2, 2);
    assert_eq!(list.to_vec(), vec![12, 13, 2, 14]);
    assert_eq!(list.len(), 4);
}

#[test]
fn test_pop_at_index() {
    let mut list = LinkedList::<i32>::new();
    list.push_at(12, 0);
    list.push_back(11);
    list.push_front(13);
    assert_eq!(list.to_vec(), vec![13, 12, 11]);
    let popped = list.pop_at(2);
    assert_eq!(popped, Some(11));
    assert_eq!(list.to_vec(), vec![13, 12]);
    assert_eq!(list.len(), 2);
}

#[test]
fn fifo_round_trip() {
    let mut list = LinkedList::<i32>::new();
    list.push_back(1);
    list.push_back(2);
    list.push_back(3);
    assert_eq!(list.pop_front(), Some(1));
    assert_eq!(list.pop_front(), Some(2));
    assert_eq!(list.pop_front(), Some(3));
    assert_eq!(list.pop_front(), None);
    assert!(list.is_empty());
}

#[test]
fn lifo_round_trip() {
    let mut list = LinkedList::<i32>::new();
    list.push_front(1);
    list.push_front(2);
    list.push_front(3);
    assert_eq!(list.pop_front(), Some(3));
    assert_eq!(list.pop_front(), Some(2));
    assert_eq!(list.pop_front(), Some(1));
    assert!(list.is_empty());
}

#[test]
fn push_at_then_pop_at_restores_the_list() {
    let mut list = LinkedList::<i32>::new();
    list.push_back(10);
    list.push_back(20);
    list.push_back(30);
    list.push_at(99, 2);
    assert_eq!(list.to_vec(), vec![10, 20, 99, 30]);
    assert_eq!(list.pop_at(2), Some(99));
    assert_eq!(list.to_vec(), vec![10, 20, 30]);
    assert_eq!(list.len(), 3);
}

#[test]
fn pops_on_an_empty_list_signal_empty() {
    let mut list = LinkedList::<i32>::new();
    assert_eq!(list.pop_front(), None);
    assert_eq!(list.pop_back(), None);
    assert_eq!(list.len(), 0);
    assert!(list.is_empty());
}

#[test]
fn out_of_bounds_index_is_reported() {
    let mut list = LinkedList::<i32>::new();
    list.push_back(1);
    assert_eq!(list.try_push_at(7, 2), Err(ListError::IndexOutOfBounds));
    assert_eq!(list.to_vec(), vec![1]);
    assert_eq!(list.try_pop_at(2), Err(ListError::IndexOutOfBounds));
    assert_eq!(list.to_vec(), vec![1]);
    assert_eq!(list.try_push_at(7, 1), Ok(()));
    assert_eq!(list.to_vec(), vec![1, 7]);
    assert_eq!(list.try_pop_at(0), Ok(Some(1)));
    assert_eq!(list.to_vec(), vec![7]);
}

#[test]
fn pop_at_the_length_takes_the_last_element() {
    let mut list = LinkedList::<i32>::new();
    list.push_back(5);
    list.push_back(6);
    list.push_back(7);
    assert_eq!(list.pop_at(3), Some(7));
    assert_eq!(list.to_vec(), vec![5, 6]);
}

#[test]
fn pop_back_reverses_push_front() {
    let mut list = LinkedList::<i32>::new();
    list.push_front(1);
    list.push_front(2);
    list.push_front(3);
    assert_eq!(list.pop_back(), Some(1));
    assert_eq!(list.pop_back(), Some(2));
    assert_eq!(list.pop_back(), Some(3));
    assert_eq!(list.pop_back(), None);
}

#[test]
fn slots_are_reused_after_pops() {
    let mut list = LinkedList::<i32>::new();
    for k in 0..8 {
        list.push_back(k);
    }
    for _ in 0..8 {
        list.pop_front();
    }
    assert!(list.is_empty());
    for k in 0..8 {
        list.push_front(k);
    }
    assert_eq!(list.to_vec(), vec![7, 6, 5, 4, 3, 2, 1, 0]);
    assert_eq!(list.len(), 8);
}

#[test]
fn interleaved_operations_keep_the_order() {
    let mut list = LinkedList::<i32>::new();
    list.push_back(2);
    list.push_front(1);
    list.push_back(3);
    assert_eq!(list.to_vec(), vec![1, 2, 3]);
    assert_eq!(list.pop_at(1), Some(2));
    list.push_at(9, 1);
    assert_eq!(list.to_vec(), vec![1, 9, 3]);
    assert_eq!(list.pop_front(), Some(1));
    assert_eq!(list.pop_back(), Some(3));
    assert_eq!(list.pop_front(), Some(9));
    assert!(list.is_empty());
}

#[test]
fn to_vec_of_an_empty_list_is_empty() {
    let list = LinkedList::<i32>::new();
    assert_eq!(list.to_vec(), Vec::<i32>::new());
}
