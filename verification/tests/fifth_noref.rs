use linked_lists::fifth_noref::List;

#[test]
fn test_super_basic() {
    let mut list = List::new();
    list.push(1);
    assert_eq!(list.pop(), Some(1));
    assert_eq!(list.pop(), None);
    list.push(2);
    list.push(3);
    assert_eq!(list.pop(), Some(2));
    assert_eq!(list.pop(), Some(3));
    assert_eq!(list.pop(), None);
}

#[test]
fn queue_is_first_in_first_out() {
    let mut list = List::new();
    for value in 0..100 {
        list.push(value);
    }
    for value in 0..100 {
        assert_eq!(list.pop(), Some(value));
    }
    assert_eq!(list.pop(), None);
    assert_eq!(list.pop(), None);
}

#[test]
fn queue_interleaves_pushes_and_pops() {
    let mut list = List::new();
    list.push("a");
    list.push("b");
    assert_eq!(list.pop(), Some("a"));
    list.push("c");
    assert_eq!(list.pop(), Some("b"));
    assert_eq!(list.pop(), Some("c"));
    assert_eq!(list.pop(), None);
    list.push("d");
    assert_eq!(list.pop(), Some("d"));
    assert_eq!(list.pop(), None);
}
