use std::cell::Cell;

use double_linked_list::{DoubleLinkedList, Node};

fn values(list: &DoubleLinkedList<i32>) -> Vec<i32> {
    let mut out = Vec::new();
    let mut iter = list.traverse(|_| true);
    while let Some(node) = iter.next() {
        out.push(node.value);
    }
    out
}

fn list_of(items: &[i32]) -> DoubleLinkedList<i32> {
    let mut list = DoubleLinkedList::new();
    for item in items {
        list.append(*item);
    }
    list
}

fn show(list: &DoubleLinkedList<i32>) -> String {
    let mut line = String::new();
    let mut iter = list.traverse(|_| true);
    while let Some(node) = iter.next() {
        line.push_str(&format!("{:?}-", node.value));
    }
    line
}

#[test]
fn test_double_linked_list() {
    let mut double_linked_list = DoubleLinkedList::new();

    println!("Add nodes 1,2,4:");
    double_linked_list.append(1);
    double_linked_list.append(2);
    double_linked_list.append(4);
    println!("{}", show(&double_linked_list));
    println!("\n");
    assert_eq!(show(&double_linked_list), "1-2-4-");

    println!("Insert 3 in index 2, and insert 5 in index 4:");
    double_linked_list.insert(3, 2);
    double_linked_list.insert(5, 4);
    println!("{}", show(&double_linked_list));
    println!("\n");
    assert_eq!(show(&double_linked_list), "1-2-3-4-5-");

    println!("Add 0 as head:");
    double_linked_list.add(0);
    println!("{}", show(&double_linked_list));
    println!("\n");
    assert_eq!(show(&double_linked_list), "0-1-2-3-4-5-");

    println!("Remove node 4:");
    double_linked_list.remove(4);
    println!("{}", show(&double_linked_list));
    println!("\n");
    assert_eq!(show(&double_linked_list), "0-1-2-3-5-");

    println!("Check that node 3 exists:");
    let has_node_3 = double_linked_list.search(3);
    println!("Has node 3->{:?}", has_node_3);
    println!();
    assert!(has_node_3);

    println!("The double-linked list length:");
    println!("{:?}", double_linked_list.length());
    assert_eq!(double_linked_list.length(), 5);
}

#[test]
fn new_list_is_empty() {
    let list: DoubleLinkedList<i32> = DoubleLinkedList::new();
    assert!(list.is_empty());
    assert_eq!(list.length(), 0);
    assert_eq!(values(&list), Vec::<i32>::new());
    assert!(list.traverse(|_| true).next().is_none());
}

#[test]
fn new_node_is_unlinked() {
    let node = Node::new(7);
    assert_eq!(node.value, 7);
    assert_eq!(node.prev, None);
    assert_eq!(node.next, None);
}

#[test]
fn appends_keep_call_order() {
    let mut list = DoubleLinkedList::new();
    for (calls, item) in [10, 20, 30, 40, 50, 60].iter().enumerate() {
        list.append(*item);
        assert_eq!(list.length(), calls + 1);
    }
    assert_eq!(values(&list), vec![10, 20, 30, 40, 50, 60]);
    assert!(!list.is_empty());
}

#[test]
fn adds_reverse_call_order() {
    let mut list = DoubleLinkedList::new();
    for (calls, item) in [10, 20, 30, 40, 50, 60].iter().enumerate() {
        list.add(*item);
        assert_eq!(list.length(), calls + 1);
    }
    assert_eq!(values(&list), vec![60, 50, 40, 30, 20, 10]);
}

#[test]
fn add_to_empty_list_makes_single_node() {
    let mut list = DoubleLinkedList::new();
    list.add(9);
    assert_eq!(list.length(), 1);
    let mut iter = list.traverse(|_| true);
    let only = iter.next().unwrap();
    assert_eq!(only.value, 9);
    assert_eq!(only.prev, None);
    assert_eq!(only.next, None);
    assert!(iter.next().is_none());
}

#[test]
fn append_to_empty_list_makes_single_node() {
    let mut list = DoubleLinkedList::new();
    list.append(9);
    assert_eq!(list.length(), 1);
    let mut iter = list.traverse(|_| true);
    let only = iter.next().unwrap();
    assert_eq!(only.value, 9);
    assert_eq!(only.prev, None);
    assert_eq!(only.next, None);
    assert!(iter.next().is_none());
}

#[test]
fn insert_at_zero_is_add() {
    for items in [vec![], vec![1], vec![1, 2, 3]] {
        let mut inserted = list_of(&items);
        let mut added = list_of(&items);
        inserted.insert(42, 0);
        added.add(42);
        assert_eq!(values(&inserted), values(&added));
        assert_eq!(inserted.length(), added.length());
        assert_eq!(values(&inserted)[0], 42);
    }
}

#[test]
fn insert_past_end_is_append() {
    for items in [vec![], vec![1], vec![1, 2, 3]] {
        for index in [items.len(), items.len() + 1, items.len() + 100, usize::MAX] {
            let mut inserted = list_of(&items);
            let mut appended = list_of(&items);
            inserted.insert(42, index);
            appended.append(42);
            assert_eq!(values(&inserted), values(&appended));
            assert_eq!(inserted.length(), items.len() + 1);
            assert_eq!(*values(&inserted).last().unwrap(), 42);
        }
    }
}

#[test]
fn insert_in_the_middle_goes_before_the_node_at_index() {
    let mut list = list_of(&[10, 20, 30, 40]);
    list.insert(15, 1);
    assert_eq!(values(&list), vec![10, 15, 20, 30, 40]);
    list.insert(35, 4);
    assert_eq!(values(&list), vec![10, 15, 20, 30, 35, 40]);
    list.insert(25, 3);
    assert_eq!(values(&list), vec![10, 15, 20, 25, 30, 35, 40]);
    assert_eq!(list.length(), 7);
}

#[test]
fn round_trip_of_appends_and_inserts() {
    let mut list = list_of(&[1, 2, 4]);
    list.insert(3, 2);
    list.insert(5, 4);
    assert_eq!(values(&list), vec![1, 2, 3, 4, 5]);
}

#[test]
fn round_trip_continued_with_add_remove_search() {
    let mut list = list_of(&[1, 2, 4]);
    list.insert(3, 2);
    list.insert(5, 4);
    list.add(0);
    assert_eq!(values(&list), vec![0, 1, 2, 3, 4, 5]);
    assert_eq!(list.remove(4), Some(4));
    assert_eq!(values(&list), vec![0, 1, 2, 3, 5]);
    assert!(list.search(3));
    assert_eq!(list.length(), 5);
}

#[test]
fn search_finds_present_values_only() {
    let list = list_of(&[4, 8, 15, 16, 23, 42]);
    for item in [4, 8, 15, 16, 23, 42] {
        assert!(list.search(item));
    }
    for item in [0, 5, 41, 43, -4] {
        assert!(!list.search(item));
    }
}

#[test]
fn search_on_empty_list_is_false() {
    let list: DoubleLinkedList<i32> = DoubleLinkedList::new();
    assert!(!list.search(1));
}

#[test]
fn remove_unique_value_makes_it_absent() {
    let mut list = list_of(&[1, 2, 3, 4]);
    assert!(list.search(3));
    assert_eq!(list.remove(3), Some(3));
    assert!(!list.search(3));
    assert_eq!(list.length(), 3);
    assert_eq!(values(&list), vec![1, 2, 4]);
}

#[test]
fn remove_takes_the_first_of_equal_values() {
    let mut list: DoubleLinkedList<(i32, char)> = DoubleLinkedList::new();
    list.append((1, 'a'));
    list.append((2, 'b'));
    list.append((2, 'b'));
    list.append((3, 'c'));
    assert_eq!(list.remove((2, 'b')), Some((2, 'b')));
    assert_eq!(list.length(), 3);
    assert!(list.search((2, 'b')));
    assert_eq!(list.remove((2, 'b')), Some((2, 'b')));
    assert!(!list.search((2, 'b')));
    assert_eq!(list.length(), 2);

    let mut numbers = list_of(&[5, 7, 5, 9, 5]);
    assert_eq!(numbers.remove(5), Some(5));
    assert_eq!(values(&numbers), vec![7, 5, 9, 5]);
    assert_eq!(numbers.remove(5), Some(5));
    assert_eq!(values(&numbers), vec![7, 9, 5]);
}

#[test]
fn remove_absent_value_changes_nothing() {
    let mut list = list_of(&[1, 2, 3]);
    assert_eq!(list.remove(7), None);
    assert_eq!(list.length(), 3);
    assert_eq!(values(&list), vec![1, 2, 3]);
}

#[test]
fn remove_from_empty_list_gives_nothing() {
    let mut list: DoubleLinkedList<i32> = DoubleLinkedList::new();
    assert_eq!(list.remove(1), None);
    assert!(list.is_empty());
}

#[test]
fn remove_only_element_empties_the_list() {
    let mut list = list_of(&[5]);
    assert_eq!(list.remove(5), Some(5));
    assert!(list.is_empty());
    assert_eq!(list.length(), 0);
    assert_eq!(list.remove(5), None);
    assert_eq!(list.remove(0), None);
    assert!(list.traverse(|_| true).next().is_none());
    list.append(6);
    list.add(4);
    assert_eq!(values(&list), vec![4, 6]);
}

#[test]
fn remove_head_tail_and_middle() {
    let mut list = list_of(&[1, 2, 3, 4, 5]);
    assert_eq!(list.remove(1), Some(1));
    assert_eq!(values(&list), vec![2, 3, 4, 5]);
    assert_eq!(list.remove(5), Some(5));
    assert_eq!(values(&list), vec![2, 3, 4]);
    assert_eq!(list.remove(3), Some(3));
    assert_eq!(values(&list), vec![2, 4]);
    list.add(0);
    list.append(6);
    list.insert(3, 2);
    assert_eq!(values(&list), vec![0, 2, 3, 4, 6]);
    assert_eq!(list.length(), 5);
}

#[test]
fn remove_gives_the_stored_value_back() {
    let mut list: DoubleLinkedList<String> = DoubleLinkedList::new();
    list.append(String::from("one"));
    list.append(String::from("two"));
    list.append(String::from("three"));
    assert_eq!(list.remove(String::from("two")), Some(String::from("two")));
    assert!(!list.search(String::from("two")));
    assert!(list.search(String::from("three")));
    assert_eq!(list.length(), 2);
}

#[test]
fn links_are_consistent_after_mutations() {
    let mut list = DoubleLinkedList::new();
    list.append(1);
    list.add(0);
    list.append(3);
    list.insert(2, 2);
    list.append(4);
    assert_eq!(list.remove(0), Some(0));
    list.add(-1);
    assert_eq!(list.remove(3), Some(3));
    list.insert(9, 1);
    assert_eq!(list.remove(4), Some(4));
    assert_eq!(values(&list), vec![-1, 9, 1, 2]);

    let mut nodes = Vec::new();
    let mut iter = list.traverse(|_| true);
    while let Some(node) = iter.next() {
        nodes.push(node);
    }
    assert_eq!(nodes.len(), list.length());
    assert_eq!(nodes[0].prev, None);
    assert_eq!(nodes[nodes.len() - 1].next, None);
    for at in 0..nodes.len() - 1 {
        assert!(nodes[at].next.is_some());
        assert!(nodes[at + 1].prev.is_some());
    }
    for at in 1..nodes.len() - 1 {
        assert_eq!(nodes[at - 1].next, nodes[at + 1].prev);
    }
    let mut slots: Vec<usize> = nodes.iter().filter_map(|node| node.next).collect();
    slots.push(nodes[1].prev.unwrap());
    slots.sort();
    slots.dedup();
    assert_eq!(slots.len(), nodes.len());
}

#[test]
fn traverse_yields_only_accepted_nodes() {
    let list = list_of(&[1, 2, 3, 4, 5, 6]);
    let mut even = Vec::new();
    let mut iter = list.traverse(|node| node.value % 2 == 0);
    while let Some(node) = iter.next() {
        even.push(node.value);
    }
    assert_eq!(even, vec![2, 4, 6]);
    assert!(iter.next().is_none());
    assert!(list.traverse(|node| node.value > 6).next().is_none());
    assert_eq!(list.traverse(|node| node.value > 4).next().unwrap().value, 5);
}

#[test]
fn traverse_is_lazy() {
    let list = list_of(&[1, 2, 3, 4, 5, 6]);
    let asked = Cell::new(0);
    let mut iter = list.traverse(|node| {
        asked.set(asked.get() + 1);
        node.value % 3 == 0
    });
    assert_eq!(asked.get(), 0);
    assert_eq!(iter.next().unwrap().value, 3);
    assert_eq!(asked.get(), 3);
    assert_eq!(iter.next().unwrap().value, 6);
    assert_eq!(asked.get(), 6);
    assert!(iter.next().is_none());
    assert_eq!(asked.get(), 6);
    assert!(iter.next().is_none());
    assert_eq!(asked.get(), 6);
}

#[test]
fn traversals_are_independent() {
    let list = list_of(&[1, 2, 3]);
    let mut first = list.traverse(|_| true);
    assert_eq!(first.next().unwrap().value, 1);
    assert_eq!(first.next().unwrap().value, 2);
    let mut second = list.traverse(|_| true);
    assert_eq!(second.next().unwrap().value, 1);
    assert_eq!(first.next().unwrap().value, 3);
    assert_eq!(second.next().unwrap().value, 2);
    assert!(first.next().is_none());
    assert_eq!(second.next().unwrap().value, 3);
    assert!(second.next().is_none());
    assert_eq!(list.length(), 3);
}

#[test]
fn many_mutations_agree_with_a_vector() {
    let mut list = DoubleLinkedList::new();
    let mut model: Vec<i32> = Vec::new();
    let mut seed: u32 = 12345;
    for _ in 0..2000 {
        seed = seed.wrapping_mul(1103515245).wrapping_add(12345);
        let choice = (seed >> 16) % 5;
        let item = ((seed >> 8) % 16) as i32;
        let index = ((seed >> 20) % 24) as usize;
        match choice {
            0 => {
                list.add(item);
                model.insert(0, item);
            }
            1 => {
                list.append(item);
                model.push(item);
            }
            2 => {
                list.insert(item, index);
                let at = if index >= model.len() { model.len() } else { index };
                model.insert(at, item);
            }
            3 => {
                let expected = model.iter().position(|held| *held == item).map(|at| model.remove(at));
                assert_eq!(list.remove(item), expected);
            }
            _ => {
                assert_eq!(list.search(item), model.contains(&item));
            }
        }
        assert_eq!(list.length(), model.len());
        assert_eq!(list.is_empty(), model.is_empty());
    }
    assert_eq!(values(&list), model);
}
