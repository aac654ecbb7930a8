use fast_estimate::double_linked_list::{DoublyLinkedList, NodeLink};

fn list_as_string(list: &DoublyLinkedList<&str>, separator: &str) -> String {
    let mut parts: Vec<String> = Vec::new();
    let mut walk = list.iter();
    while let Some(item) = walk.next() {
        parts.push(item.to_string());
    }
    parts.join(separator).to_string()
}

fn assert_empty(list: &mut DoublyLinkedList<&str>) {
    assert_eq!(0, list.len());
    assert_eq!(None, list.pop_front());
    assert_eq!(None, list.pop_back());
    assert!(list.head().is_none());
    assert!(list.tail().is_none());
}

/// How many links lead to the node: the handle in hand, the head and the
/// tail of the list where they are this node, and the forward link of the
/// node before it.
fn strong_links(list: &DoublyLinkedList<&str>, node: &NodeLink<&str>) -> usize {
    let mut links = 1;
    if node.ptr_eq_and_present(&list.head()) {
        links += 1;
    }
    if node.ptr_eq_and_present(&list.tail()) {
        links += 1;
    }
    if let Some(prev) = list.upgrade_prev(node) {
        if node.ptr_eq_and_present(&list.next_link(&prev)) {
            links += 1;
        }
    }
    links
}

#[test]
fn empty_size() {
    let mut list = DoublyLinkedList::new();
    assert_empty(&mut list);
}

#[test]
fn one_element_get_head_and_tail() {
    let mut list = DoublyLinkedList::new();
    let node = list.push_back(&"hello");
    assert!(node.ptr_eq_and_present(&list.head()));
    assert!(node.ptr_eq_and_present(&list.tail()));
}

#[test]
fn push_after_updates_tail() {
    let mut list = DoublyLinkedList::new();
    let head = list.push_back(&"hello");
    let tail = list.push_after(&head, &"world");
    assert!(tail.ptr_eq_and_present(&list.tail()));
}

#[test]
fn push_before_updates_head() {
    let mut list = DoublyLinkedList::new();
    let tail = list.push_back(&"hello");
    let head = list.push_before(&tail, &"world");
    assert!(head.ptr_eq_and_present(&list.head()));
}

#[test]
fn one_element_push_back_size() {
    let mut list = DoublyLinkedList::new();
    list.push_back(&"Hello");
    assert_eq!(1, list.len());
}

#[test]
fn two_element_push_back_size() {
    let mut list = DoublyLinkedList::new();
    list.push_back(&"Hello");
    list.push_back(&"World");
    assert_eq!(2, list.len());
}

#[test]
fn two_element_push_front_size() {
    let mut list = DoublyLinkedList::new();
    list.push_front(&"World");
    list.push_front(&"Hello");
    assert_eq!(2, list.len());
}

#[test]
fn two_element_push_back_collect() {
    let mut list = DoublyLinkedList::new();
    list.push_back(&"Hello");
    list.push_back(&"world");
    let vector: Vec<&str> = list.to_vec().into_iter().map(|item| *item).collect();
    assert_eq!("Hello, world", vector.join(", "));
}

#[test]
fn two_element_push_front_collect() {
    let mut list = DoublyLinkedList::new();
    list.push_front(&"world");
    list.push_front(&"Hello");
    assert_eq!("Hello, world", list_as_string(&list, ", "));
}

#[test]
fn empty_pop_front() {
    let mut list: DoublyLinkedList<&str> = DoublyLinkedList::new();
    assert_eq!(None, list.pop_front());
}

#[test]
fn one_element_pop_front() {
    let mut list = DoublyLinkedList::new();
    list.push_back(&"hello");
    assert_eq!("hello", list.pop_front().unwrap());
    assert_empty(&mut list);
}

#[test]
fn two_element_pop_front() {
    let mut list = DoublyLinkedList::new();
    list.push_back(&"hello");
    list.push_back(&"world");
    assert_eq!("hello", list.pop_front().unwrap());
    assert_eq!("world", list.pop_front().unwrap());
    assert_empty(&mut list);
}

#[test]
fn one_element_pop_back() {
    let mut list = DoublyLinkedList::new();
    list.push_back(&"hello");
    assert_eq!("hello", list.pop_back().unwrap());
    assert_empty(&mut list);
}

#[test]
fn can_store_node() {
    let mut list = DoublyLinkedList::new();
    let node = list.push_front(&"hello");
    assert_eq!("hello", *list.get(&node));

    let node = list.push_back(&"world");
    assert_eq!("world", *list.get(&node));
}

#[test]
fn links_should_be_updated() {
    let mut list = DoublyLinkedList::new();
    let head = list.push_front(&"hello");

    assert!(list.next_link(&head).is_none());
    let tail = list.push_back(&"world");

    assert!(tail.ptr_eq_and_present(&list.next_link(&head)));
}

#[test]
fn push_after() {
    let mut list = DoublyLinkedList::new();
    list.push_back(&"world");
    let head = list.push_front(&"Brave");
    list.push_after(&head, &"new");

    assert_eq!("Brave new world", list_as_string(&list, " "));
}

#[test]
fn push_before() {
    let mut list = DoublyLinkedList::new();
    let tail = list.push_back(&"world");
    list.push_front(&"Brave");
    list.push_before(&tail, &"new");

    assert_eq!("Brave new world", list_as_string(&list, " "));
}

#[test]
fn remove_node() {
    let mut list = DoublyLinkedList::new();
    list.push_back(&"foo");
    let target = list.push_back(&"bar");
    list.push_back(&"baz");

    list.remove(&target);
    assert_eq!(2, list.len());
    assert_eq!("foo, baz", list_as_string(&list, ", "));

    assert_eq!(Some("foo"), list.pop_front());
    assert_eq!(Some("baz"), list.pop_back());
}

#[test]
fn check_rc_links_count() {
    let mut list = DoublyLinkedList::new();
    let node = list.push_back(&"first");

    // We shold have 3 references at this point: head, tail and returned one (node)
    assert_eq!(3, strong_links(&list, &node));

    // We still should have 3 refs: first element, tail of the list and "node"-binding
    list.push_front(&"second");
    assert_eq!(3, strong_links(&list, &node));

    // At this point tail reference is moved to another element. So we're expecting
    // 2 refs here: first element referencing second and "node" binding itself.
    list.push_back(&"third");
    assert_eq!(2, strong_links(&list, &node));
}

#[test]
fn append_then_iterate_gives_the_same_sequence() {
    let values = vec!["a", "b", "c", "d", "e", "a", "b"];
    let mut list = DoublyLinkedList::new();
    for value in values.iter() {
        list.push_back(value);
        assert!(!list.empty());
    }
    assert_eq!(values.len(), list.len());
    let walked: Vec<&str> = list.to_vec().into_iter().map(|item| *item).collect();
    assert_eq!(values, walked);
    assert_eq!("a b c d e a b", list_as_string(&list, " "));

    let empty: DoublyLinkedList<&str> = DoublyLinkedList::new();
    assert!(empty.empty());
    assert_eq!(0, empty.to_vec().len());
    assert!(empty.iter().next().is_none());
}

#[test]
fn removing_all_handles_in_any_order_empties_the_list() {
    let orders: Vec<Vec<usize>> = vec![
        vec![0, 1, 2, 3],
        vec![3, 2, 1, 0],
        vec![1, 3, 0, 2],
        vec![2, 0, 3, 1],
        vec![0, 3, 1, 2],
    ];
    for order in orders {
        let mut list = DoublyLinkedList::new();
        let mut handles = Vec::new();
        for value in ["w", "x", "y", "z"].iter() {
            handles.push(list.push_back(value));
        }
        let mut left = 4;
        for i in order {
            assert!(list.contains(&handles[i]));
            list.remove(&handles[i]);
            left -= 1;
            assert!(!list.contains(&handles[i]));
            assert_eq!(left, list.len());
        }
        assert_empty(&mut list);
    }
}

#[test]
fn removing_the_only_node_leaves_no_head_and_no_tail() {
    let mut list = DoublyLinkedList::new();
    let only = list.push_back(&"only");
    list.remove(&only);
    assert_empty(&mut list);

    let head = list.push_front(&"again");
    assert!(head.ptr_eq_and_present(&list.head()));
    assert!(head.ptr_eq_and_present(&list.tail()));
    assert_eq!(1, list.len());
}

#[test]
fn removing_the_ends_moves_head_and_tail() {
    let mut list = DoublyLinkedList::new();
    let a = list.push_back(&"a");
    let b = list.push_back(&"b");
    let c = list.push_back(&"c");
    list.remove(&a);
    assert!(b.ptr_eq_and_present(&list.head()));
    assert!(list.upgrade_prev(&b).is_none());
    list.remove(&c);
    assert!(b.ptr_eq_and_present(&list.tail()));
    assert!(list.next_link(&b).is_none());
    assert_eq!("b", list_as_string(&list, ", "));
}

#[test]
fn handle_stays_good_while_other_nodes_come_and_go() {
    let mut list = DoublyLinkedList::new();
    let a = list.push_back(&"a");
    let kept = list.push_back(&"kept");
    let c = list.push_back(&"c");
    list.push_front(&"front");
    list.remove(&a);
    list.push_back(&"d");
    assert_eq!(Some("front"), list.pop_front());
    assert_eq!(Some("d"), list.pop_back());
    list.remove(&c);
    list.push_front(&"e");
    list.push_back(&"f");

    assert!(list.contains(&kept));
    assert_eq!("kept", *list.get(&kept));
    assert_eq!("e kept f", list_as_string(&list, " "));
    list.remove(&kept);
    assert!(!list.contains(&kept));
    assert_eq!("e f", list_as_string(&list, " "));
}

#[test]
fn spent_handle_is_not_taken_for_a_later_node() {
    let mut list = DoublyLinkedList::new();
    let first = list.push_back(&"first");
    list.remove(&first);
    let second = list.push_back(&"second");
    assert!(!list.contains(&first));
    assert!(list.contains(&second));
    assert!(!first.ptr_eq_and_present(&list.head()));
    assert!(second.ptr_eq_and_present(&list.head()));
    assert!(!second.ptr_eq_and_present(&None));
}

#[test]
fn neighbours_by_handle() {
    let mut list = DoublyLinkedList::new();
    let a = list.push_back(&"a");
    let b = list.push_back(&"b");
    let c = list.push_back(&"c");
    assert!(list.upgrade_prev(&a).is_none());
    assert!(a.ptr_eq_and_present(&list.upgrade_prev(&b)));
    assert!(b.ptr_eq_and_present(&list.upgrade_prev(&c)));
    assert!(b.ptr_eq_and_present(&list.next_link(&a)));
    assert!(c.ptr_eq_and_present(&list.next_link(&b)));
    assert!(list.next_link(&c).is_none());

    let copy = b.clone();
    list.remove(&copy);
    assert!(c.ptr_eq_and_present(&list.next_link(&a)));
    assert!(a.ptr_eq_and_present(&list.upgrade_prev(&c)));
}

#[test]
fn push_after_and_before_in_the_middle() {
    let mut list = DoublyLinkedList::new();
    let a = list.push_back(&"a");
    let d = list.push_back(&"d");
    let b = list.push_after(&a, &"b");
    let c = list.push_before(&d, &"c");
    assert_eq!("a b c d", list_as_string(&list, " "));
    assert!(a.ptr_eq_and_present(&list.head()));
    assert!(d.ptr_eq_and_present(&list.tail()));
    assert!(c.ptr_eq_and_present(&list.next_link(&b)));
    assert_eq!(Some("d"), list.pop_back());
    assert_eq!(Some("c"), list.pop_back());
    assert_eq!(Some("a"), list.pop_front());
    assert_eq!(Some("b"), list.pop_front());
    assert_empty(&mut list);
}

#[test]
fn list_of_owned_strings() {
    let mut list: DoublyLinkedList<String> = DoublyLinkedList::new();
    let one = list.push_back(&"one".to_string());
    list.push_back(&"two".to_string());
    assert_eq!("one", list.get(&one).as_str());
    assert_eq!(Some("one".to_string()), list.pop_front());
    assert_eq!(Some("two".to_string()), list.pop_front());
    assert_eq!(None, list.pop_front());
}
