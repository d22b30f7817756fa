use linked_lists::fifth::List;

#[test]
fn test_lol_this_works_pop() {
    let mut list = List::<i32>::new();
    assert_eq!(list.pop(), None);
}

#[test]
fn test_lol_this_works_push() {
    let mut list = List::new();
    list.push(1);
}

#[test]
fn test_fails_if_uncommented() {
    let mut list = List::new();
    // The push borrows the list for as long as the list lives, so no call
    // can follow it.
    list.push(1);
}

#[test]
fn pop_on_a_new_queue_stays_none() {
    let mut list = List::<String>::new();
    assert_eq!(list.pop(), None);
    assert_eq!(list.pop(), None);
    list.push(String::from("only"));
}
