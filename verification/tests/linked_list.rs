use containers::linked_list::LinkedList;

fn values(list: &LinkedList<i32>) -> Vec<i32> {
    let mut out = Vec::new();
    let mut current = list.get_node(0).unwrap();
    while let Some(node) = current.next() {
        out.push(*node.value().unwrap());
        current = node;
    }
    out
}

fn list_of(items: &[i32]) -> LinkedList<i32> {
    let mut list = LinkedList::new();
    for v in items {
        list.add_node(*v);
    }
    list
}

#[test]
fn test_new_linked_list() {
    let mut list: LinkedList<i32> = LinkedList::new();
    list.add_node(1);
    let head = list.get_node(0).unwrap();
    assert_eq!(*head.next().unwrap().value().unwrap(), 1);
}

#[test]
fn test_add_node_to_linked_list() {
    let mut list: LinkedList<i32> = LinkedList::new();
    list.add_node(1);
    list.add_node(2);
    list.add_node(3);
    let head = list.get_node(0).unwrap();
    let mut current_node = head.next().unwrap();
    assert_eq!(*current_node.value().unwrap(), 1);
    current_node = current_node.next().unwrap();
    assert_eq!(*current_node.value().unwrap(), 2);
    current_node = current_node.next().unwrap();
    assert_eq!(*current_node.value().unwrap(), 3);
}

#[test]
fn test_empty_linked_list() {
    let list: LinkedList<i32> = LinkedList::new();
    let head = list.get_node(0).unwrap();
    assert!(head.value().is_none() && head.next().is_none());
}

#[test]
fn test_remove_node_from_linked_list() {
    let mut list: LinkedList<i32> = LinkedList::new();
    list.add_node(1);
    list.add_node(2);
    list.add_node(3);
    list.remove_node(&2);
    let head = list.get_node(0).unwrap();
    let mut current_node = head.next().unwrap();
    assert_eq!(*current_node.value().unwrap(), 1);
    current_node = current_node.next().unwrap();
    assert_eq!(*current_node.value().unwrap(), 3);
}

#[test]
fn test_get_node_by_index_out_of_bounds() {
    let list: LinkedList<i32> = LinkedList::new();
    assert_eq!(list.get_node(1), None);
}

#[test]
fn list_traversal_yields_the_values_in_order() {
    let list = list_of(&[1, 2, 3]);
    assert_eq!(values(&list), vec![1, 2, 3]);
    assert_eq!(values(&LinkedList::new()), Vec::<i32>::new());
}

#[test]
fn list_get_node_counts_from_the_sentinel() {
    let list = list_of(&[1, 2, 3]);
    assert!(list.get_node(0).unwrap().value().is_none());
    assert_eq!(list.get_node(1).unwrap().value(), Some(&1));
    assert_eq!(list.get_node(2).unwrap().value(), Some(&2));
    assert_eq!(list.get_node(3).unwrap().value(), Some(&3));
    assert!(list.get_node(3).unwrap().next().is_none());
    assert!(list.get_node(4).is_none());
    assert!(list.get_node(i16::MAX).is_none());
}

#[test]
fn list_get_node_is_followed_by_the_later_nodes() {
    let list = list_of(&[1, 2, 3]);
    let node = list.get_node(1).unwrap();
    assert_eq!(node.next().unwrap().value(), Some(&2));
    assert_eq!(node.next().unwrap().next().unwrap().value(), Some(&3));
}

#[test]
fn list_get_node_with_negative_index() {
    let list = list_of(&[1, 2, 3]);
    assert!(list.get_node(-1).is_none());
    assert!(list.get_node(i16::MIN).is_none());
}

#[test]
fn list_remove_first_value() {
    let mut list = list_of(&[1, 2, 3]);
    list.remove_node(&1);
    assert_eq!(values(&list), vec![2, 3]);
}

#[test]
fn list_remove_last_value() {
    let mut list = list_of(&[1, 2, 3]);
    list.remove_node(&3);
    assert_eq!(values(&list), vec![1, 2]);
    list.add_node(4);
    assert_eq!(values(&list), vec![1, 2, 4]);
}

#[test]
fn list_remove_deep_in_the_list() {
    let mut list = list_of(&[10, 20, 30, 40, 50, 60]);
    list.remove_node(&50);
    assert_eq!(values(&list), vec![10, 20, 30, 40, 60]);
}

#[test]
fn list_remove_takes_only_the_first_match() {
    let mut list = list_of(&[7, 4, 7, 4, 7]);
    list.remove_node(&4);
    assert_eq!(values(&list), vec![7, 7, 4, 7]);
    list.remove_node(&7);
    assert_eq!(values(&list), vec![7, 4, 7]);
}

#[test]
fn list_remove_of_a_missing_value_changes_nothing() {
    let mut list = list_of(&[1, 2, 3]);
    list.remove_node(&9);
    assert_eq!(values(&list), vec![1, 2, 3]);
    let mut empty: LinkedList<i32> = LinkedList::new();
    empty.remove_node(&1);
    assert_eq!(values(&empty), Vec::<i32>::new());
    assert!(empty.get_node(0).is_some());
}

#[test]
fn list_remove_down_to_the_sentinel() {
    let mut list = list_of(&[5]);
    list.remove_node(&5);
    assert_eq!(values(&list), Vec::<i32>::new());
    assert!(list.get_node(0).unwrap().value().is_none());
    assert!(list.get_node(1).is_none());
    list.add_node(6);
    assert_eq!(values(&list), vec![6]);
}
