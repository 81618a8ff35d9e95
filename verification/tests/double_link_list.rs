use linked_lists::arena::NodeId;
use linked_lists::double_link_list::{DoubleLinkIterator, LinkedList, Node};
use std::collections::VecDeque;

fn walk_forward(list: &LinkedList<i32>) -> (Vec<i32>, usize, Option<NodeId>) {
    let mut values = Vec::new();
    let mut visited = 0;
    let mut last = None;
    let mut current = list.head();
    while let Some(id) = current {
        let node = list.get(id).expect("a link of the list names a node of the list");
        values.push(node.data);
        visited += 1;
        last = Some(id);
        current = node.next;
    }
    (values, visited, last)
}

fn walk_backward(list: &LinkedList<i32>) -> (Vec<i32>, usize, Option<NodeId>) {
    let mut values = Vec::new();
    let mut visited = 0;
    let mut last = None;
    let mut current = list.tail();
    while let Some(id) = current {
        let node = list.get(id).expect("a link of the list names a node of the list");
        values.push(node.data);
        visited += 1;
        last = Some(id);
        current = node.prev;
    }
    (values, visited, last)
}

fn list_of(values: &[i32]) -> LinkedList<i32> {
    let mut list = LinkedList::new();
    for value in values {
        list.append(*value);
    }
    list
}

#[test]
fn double_node_new_is_unlinked() {
    let node = Node::new('x');
    assert_eq!(node.data, 'x');
    assert_eq!(node.next, None);
    assert_eq!(node.prev, None);
}

#[test]
fn double_new_list_is_empty() {
    let list: LinkedList<i32> = LinkedList::new();
    assert_eq!(list.length(), 0);
    assert_eq!(list.head(), None);
    assert_eq!(list.tail(), None);
    assert_eq!(list.to_vec(), Vec::<i32>::new());
}

#[test]
fn double_appends_pop_in_fifo_order() {
    let mut list = LinkedList::new();
    let items = [4, 8, 15, 16, 23, 42];
    for (count, item) in items.iter().enumerate() {
        list.append(*item);
        assert_eq!(list.length(), count + 1);
    }
    for item in items {
        assert_eq!(list.pop(), Some(item));
    }
    assert_eq!(list.length(), 0);
    assert_eq!(list.head(), None);
    assert_eq!(list.tail(), None);
    assert_eq!(list.pop(), None);
}

#[test]
fn double_prepends_pop_in_lifo_order() {
    let mut list = LinkedList::new();
    let items = [4, 8, 15, 16, 23, 42];
    for item in items {
        list.prepend(item);
    }
    assert_eq!(list.length(), items.len());
    for item in items.iter().rev() {
        assert_eq!(list.pop(), Some(*item));
    }
    assert_eq!(list.length(), 0);
    assert_eq!(list.pop(), None);
}

#[test]
fn double_mixed_operations_follow_a_deque() {
    let mut list = LinkedList::new();
    let mut deque = VecDeque::new();
    let script: [(u8, i32); 14] = [
        (1, 1), (0, 2), (1, 3), (2, 0), (0, 4), (1, 5), (0, 6),
        (2, 0), (2, 0), (1, 7), (2, 0), (2, 0), (2, 0), (2, 0),
    ];
    for (op, value) in script {
        match op {
            0 => {
                list.append(value);
                deque.push_back(value);
            }
            1 => {
                list.prepend(value);
                deque.push_front(value);
            }
            _ => {
                assert_eq!(list.pop(), deque.pop_front());
            }
        }
        assert_eq!(list.length(), deque.len());
        assert_eq!(list.to_vec(), deque.iter().copied().collect::<Vec<i32>>());
    }
    assert_eq!(list.length(), 0);
}

#[test]
fn double_append_append_prepend_pop_leaves_two_three() {
    let mut list = LinkedList::new();
    list.append(2);
    list.append(3);
    assert_eq!(list.length(), 2);
    list.prepend(1);
    assert_eq!(list.to_vec(), vec![1, 2, 3]);
    assert_eq!(list.pop(), Some(1));
    assert_eq!(list.to_vec(), vec![2, 3]);
    assert_eq!(list.length(), 2);
}

#[test]
fn double_pop_on_empty_list_returns_none_and_keeps_length() {
    let mut list: LinkedList<String> = LinkedList::new();
    assert_eq!(list.pop(), None);
    assert_eq!(list.length(), 0);
    assert_eq!(list.pop(), None);
    assert_eq!(list.length(), 0);
    list.prepend(String::from("a"));
    assert_eq!(list.pop(), Some(String::from("a")));
    assert_eq!(list.pop(), None);
    assert_eq!(list.length(), 0);
}

#[test]
fn double_traversal_visits_length_nodes_and_ends_at_tail() {
    let mut list = LinkedList::new();
    let script: [(u8, i32); 12] = [
        (0, 1), (0, 2), (1, 3), (2, 0), (1, 4), (0, 5),
        (2, 0), (2, 0), (1, 6), (2, 0), (2, 0), (2, 0),
    ];
    for (op, value) in script {
        match op {
            0 => list.append(value),
            1 => list.prepend(value),
            _ => {
                list.pop();
            }
        }
        let (values, visited, last) = walk_forward(&list);
        assert_eq!(visited, list.length());
        assert_eq!(last, list.tail());
        assert_eq!(values, list.to_vec());
        assert_eq!(list.length() == 0, list.head().is_none());
        assert_eq!(list.length() == 0, list.tail().is_none());

        let (mut reversed, visited, first) = walk_backward(&list);
        reversed.reverse();
        assert_eq!(visited, list.length());
        assert_eq!(first, list.head());
        assert_eq!(reversed, list.to_vec());
    }
}

#[test]
fn double_back_links_mirror_next_links() {
    let mut list = LinkedList::new();
    list.append(2);
    list.prepend(1);
    list.append(3);
    list.prepend(0);
    list.pop();
    let head = list.head().expect("the list has a head");
    assert_eq!(list.get(head).expect("the head is a node").prev, None);
    let mut current = Some(head);
    while let Some(id) = current {
        let node = list.get(id).expect("a link names a node");
        if let Some(next) = node.next {
            assert_eq!(list.get(next).expect("a link names a node").prev, Some(id));
        } else {
            assert_eq!(list.tail(), Some(id));
        }
        current = node.next;
    }
}

#[test]
fn double_pop_clears_the_new_heads_back_link() {
    let mut list = list_of(&[1, 2, 3]);
    let first = list.head().expect("the list has a head");
    let second = list.get(first).expect("the head is a node").next.expect("the head has a next");
    assert_eq!(list.get(second).expect("a link names a node").prev, Some(first));
    assert_eq!(list.pop(), Some(1));
    assert_eq!(list.head(), Some(second));
    assert_eq!(list.get(second).expect("a link names a node").prev, None);
}

#[test]
fn double_pop_of_last_node_clears_head_and_tail() {
    let mut list = list_of(&[1]);
    assert_eq!(list.head(), list.tail());
    assert_eq!(list.pop(), Some(1));
    assert_eq!(list.head(), None);
    assert_eq!(list.tail(), None);
    list.append(2);
    assert_eq!(list.to_vec(), vec![2]);
    assert_eq!(list.head(), list.tail());
}

#[test]
fn cursor_next_next_prev_next_on_one_two_three() {
    let list = list_of(&[1, 2, 3]);
    let mut cursor = DoubleLinkIterator::new(list.head());
    assert_eq!(cursor.next(&list), Some(1));
    assert_eq!(cursor.next(&list), Some(2));
    assert_eq!(cursor.prev(&list), Some(3));
    assert_eq!(cursor.next(&list), Some(2));
}

#[test]
fn cursor_next_then_prev_reads_the_node_it_is_at() {
    let list = list_of(&[1, 2, 3]);
    let mut cursor = DoubleLinkIterator::new(list.head());
    assert_eq!(cursor.next(&list), Some(1));
    assert_eq!(cursor.prev(&list), Some(2));
    assert_eq!(cursor.prev(&list), Some(1));
    assert_eq!(cursor.prev(&list), None);
    assert_eq!(cursor.next(&list), None);
}

#[test]
fn cursor_on_two_three_next_next_prev_next() {
    let mut list = LinkedList::new();
    list.append(2);
    list.append(3);
    list.prepend(1);
    list.pop();
    let mut cursor = DoubleLinkIterator::new(list.head());
    assert_eq!(cursor.next(&list), Some(2));
    assert_eq!(cursor.next(&list), Some(3));
    assert_eq!(cursor.prev(&list), None);
    assert_eq!(cursor.next(&list), None);
}

#[test]
fn cursor_stays_exhausted() {
    let list = list_of(&[1]);
    let mut cursor = DoubleLinkIterator::new(list.head());
    assert_eq!(cursor.next(&list), Some(1));
    for _ in 0..5 {
        assert_eq!(cursor.next(&list), None);
        assert_eq!(cursor.prev(&list), None);
    }
    let mut empty: DoubleLinkIterator<i32> = DoubleLinkIterator::new(None);
    assert_eq!(empty.next(&list), None);
    assert_eq!(empty.prev(&list), None);
}

#[test]
fn cursor_from_tail_walks_backward() {
    let list = list_of(&[1, 2, 3]);
    let mut cursor = DoubleLinkIterator::new(list.tail());
    assert_eq!(cursor.prev(&list), Some(3));
    assert_eq!(cursor.prev(&list), Some(2));
    assert_eq!(cursor.prev(&list), Some(1));
    assert_eq!(cursor.prev(&list), None);
}

#[test]
fn cursor_does_not_change_the_list() {
    let list = list_of(&[1, 2, 3]);
    let mut cursor = DoubleLinkIterator::new(list.head());
    cursor.next(&list);
    cursor.next(&list);
    cursor.prev(&list);
    assert_eq!(list.length(), 3);
    assert_eq!(list.to_vec(), vec![1, 2, 3]);
}

#[test]
fn cursor_sees_later_changes_of_the_list() {
    let mut list = list_of(&[1, 2]);
    let mut cursor = DoubleLinkIterator::new(list.head());
    assert_eq!(cursor.next(&list), Some(1));
    list.append(3);
    assert_eq!(cursor.next(&list), Some(2));
    assert_eq!(cursor.next(&list), Some(3));
    assert_eq!(cursor.next(&list), None);
}

#[test]
fn cursor_behind_a_popped_node_has_no_previous() {
    let mut list = list_of(&[1, 2, 3]);
    let mut cursor = DoubleLinkIterator::new(list.head());
    assert_eq!(cursor.next(&list), Some(1));
    assert_eq!(list.pop(), Some(1));
    assert_eq!(cursor.prev(&list), Some(2));
    assert_eq!(cursor.prev(&list), None);
}

#[test]
fn cursor_at_a_popped_node_is_stale() {
    let mut list = list_of(&[1, 2]);
    let mut cursor = DoubleLinkIterator::new(list.head());
    assert_eq!(list.pop(), Some(1));
    list.append(3);
    list.prepend(4);
    assert_eq!(cursor.next(&list), None);
    assert_eq!(cursor.next(&list), None);
    assert_eq!(list.to_vec(), vec![4, 2, 3]);
}

#[test]
fn double_popped_handle_names_no_node_again() {
    let mut list = list_of(&[1, 2]);
    let first = list.head().expect("the list has a head");
    assert_eq!(list.pop(), Some(1));
    assert!(list.get(first).is_none());
    for value in 0..10 {
        list.append(value);
        list.prepend(value);
        list.pop();
        assert!(list.get(first).is_none());
        assert_ne!(list.head(), Some(first));
        assert_ne!(list.tail(), Some(first));
    }
}

#[test]
fn double_list_holds_values_that_are_not_copy() {
    let mut list = LinkedList::new();
    list.append(String::from("b"));
    list.prepend(String::from("a"));
    let mut cursor = DoubleLinkIterator::new(list.head());
    assert_eq!(cursor.next(&list), Some(String::from("a")));
    assert_eq!(cursor.prev(&list), Some(String::from("b")));
    assert_eq!(list.pop(), Some(String::from("a")));
    assert_eq!(list.pop(), Some(String::from("b")));
}

#[test]
fn double_long_run_agrees_with_a_deque() {
    let mut list = LinkedList::new();
    let mut deque = VecDeque::new();
    let mut state: u32 = 54321;
    for step in 0..2000 {
        state = state.wrapping_mul(1664525).wrapping_add(1013904223);
        match (state >> 16) % 4 {
            0 => {
                list.append(step);
                deque.push_back(step);
            }
            1 => {
                list.prepend(step);
                deque.push_front(step);
            }
            _ => {
                assert_eq!(list.pop(), deque.pop_front());
            }
        }
        assert_eq!(list.length(), deque.len());
        let (values, visited, last) = walk_forward(&list);
        assert_eq!(visited, deque.len());
        assert_eq!(last, list.tail());
        assert_eq!(values, deque.iter().copied().collect::<Vec<i32>>());
        let (mut reversed, visited, first) = walk_backward(&list);
        reversed.reverse();
        assert_eq!(visited, deque.len());
        assert_eq!(first, list.head());
        assert_eq!(reversed, values);
    }
}
