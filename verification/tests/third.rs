use linked_lists::third::List;

#[test]
fn third_iter() {
    let list = List::new().prepend(1).prepend(2);
    let mut iter = list.iter();
    assert_eq!(iter.next(), Some(&2));
    assert_eq!(iter.next(), Some(&1));
    assert_eq!(iter.next(), None);
}

#[test]
fn third_basics() {
    let l1 = List::new();
    assert_eq!(l1.head(), None);

    let l2 = l1.prepend(1).prepend(2).prepend(3);
    assert_eq!(l1.head(), None);
    assert_eq!(l2.head(), Some(&3));

    assert_eq!(l2.tail().head(), Some(&2));
}

#[test]
fn third_tail_of_empty_is_empty() {
    let list: List<i32> = List::new();
    assert_eq!(list.tail().head(), None);
    assert_eq!(list.tail().tail().head(), None);
}

#[test]
fn third_lists_share_their_tail() {
    let base = List::new().prepend(1).prepend(2);
    let left = base.prepend(10);
    let right = base.prepend(20);
    assert_eq!(left.head(), Some(&10));
    assert_eq!(right.head(), Some(&20));
    assert_eq!(left.tail().head(), Some(&2));
    assert_eq!(right.tail().head(), Some(&2));
    assert_eq!(right.tail().tail().head(), Some(&1));
    assert_eq!(base.head(), Some(&2));
}

#[test]
fn third_clear_leaves_shared_nodes_to_their_other_owners() {
    let base = List::new().prepend(1).prepend(2);
    let mut longer = base.prepend(3).prepend(4);
    longer.clear();
    assert_eq!(longer.head(), None);
    let mut iter = base.iter();
    assert_eq!(iter.next(), Some(&2));
    assert_eq!(iter.next(), Some(&1));
    assert_eq!(iter.next(), None);
}

#[test]
fn third_clear_frees_a_long_list_without_deep_recursion() {
    let mut list = List::new();
    for value in 0..1_000_000 {
        list = list.prepend(value);
    }
    assert_eq!(list.head(), Some(&999_999));
    list.clear();
    assert_eq!(list.head(), None);
}
