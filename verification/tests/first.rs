use linked_lists::first::List;

#[test]
fn first_basics() {
    let mut list = List::new();
    assert_eq!(list.pop(), None);

    list.push(1);
    list.push(2);
    list.push(3);

    assert_eq!(list.peek(), Some(3));
    assert_eq!(list.peek(), Some(3));
    assert_eq!(list.pop(), Some(3));

    assert_eq!(list.peek(), Some(2));
    assert_eq!(list.peek(), Some(2));
    assert_eq!(list.pop(), Some(2));

    list.push(4);
    assert_eq!(list.pop(), Some(4));
    assert_eq!(list.pop(), Some(1));
    assert_eq!(list.pop(), None);
}

#[test]
fn first_peek_on_empty_is_none() {
    let mut list = List::new();
    assert_eq!(list.peek(), None);
    assert_eq!(list.pop(), None);
    assert_eq!(list.peek(), None);
}

#[test]
fn first_negative_and_extreme_values() {
    let mut list = List::new();
    list.push(i32::MIN);
    list.push(-1);
    list.push(i32::MAX);
    assert_eq!(list.pop(), Some(i32::MAX));
    assert_eq!(list.pop(), Some(-1));
    assert_eq!(list.pop(), Some(i32::MIN));
    assert_eq!(list.pop(), None);
}

#[test]
fn first_long_stack_is_dropped_without_deep_recursion() {
    let mut list = List::new();
    for value in 0..1_000_000 {
        list.push(value);
    }
    assert_eq!(list.peek(), Some(999_999));
}
