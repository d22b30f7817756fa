use linked_lists::fourth::List;
use std::collections::VecDeque;
use std::rc::Rc;

#[test]
fn test_iter_frontback() {
    let mut list = List::new();
    list.push_front(1);
    list.push_front(2);
    list.push_front(3);
    let mut iter = list.into_iter();
    assert_eq!(iter.next(), Some(3));
    assert_eq!(iter.next_back(), Some(1));
    assert_eq!(iter.next_back(), Some(2));
    assert_eq!(iter.next_back(), None);
    assert_eq!(iter.next(), None);
}

#[test]
fn test_iter() {
    let mut list = List::new();
    list.push_front(1);
    list.push_front(2);
    let mut iter = list.into_iter();
    assert_eq!(iter.next(), Some(2));
    assert_eq!(iter.next(), Some(1));
    assert_eq!(iter.next(), None);
}

#[test]
fn test_peek() {
    let mut list = List::new();
    assert!(list.peek_front().is_none());
    list.push_front(1);
    assert_eq!(&*list.peek_front().unwrap(), &1);
    assert_eq!(list.pop_front(), Some(1));
    assert_eq!(list.pop_front(), None);
}

#[test]
fn test_pushpop() {
    let mut list = List::new();
    list.push_front(1);
    list.push_front(2);
    list.push_front(3);
    assert_eq!(list.pop_front(), Some(3));
    assert_eq!(list.pop_front(), Some(2));
    list.push_front(4);
    assert_eq!(list.pop_front(), Some(4));
    assert_eq!(list.pop_front(), Some(1));
    assert_eq!(list.pop_front(), None);
}

#[test]
fn new_deque_is_empty_at_both_ends() {
    let mut list: List<i32> = List::new();
    assert!(list.peek_front().is_none());
    assert_eq!(list.pop_front(), None);
    assert_eq!(list.pop_back(), None);
}

#[test]
fn single_element_leaves_by_the_opposite_end() {
    let mut list = List::new();
    list.push_front(7);
    assert_eq!(list.pop_back(), Some(7));
    assert!(list.peek_front().is_none());
    assert_eq!(list.pop_front(), None);
    assert_eq!(list.pop_back(), None);

    list.push_front(8);
    assert_eq!(list.pop_front(), Some(8));
    assert_eq!(list.pop_back(), None);
    assert_eq!(list.pop_front(), None);
}

#[test]
fn popping_an_empty_deque_keeps_yielding_none() {
    let mut list = List::new();
    list.push_front(1);
    list.push_front(2);
    assert_eq!(list.pop_front(), Some(2));
    assert_eq!(list.pop_back(), Some(1));
    for _ in 0..5 {
        assert_eq!(list.pop_front(), None);
        assert_eq!(list.pop_back(), None);
    }
    list.push_front(3);
    assert_eq!(list.pop_back(), Some(3));
}

#[test]
fn pop_front_yields_the_pushes_last_in_first_out() {
    let mut list = List::new();
    for value in 1..=50 {
        list.push_front(value);
    }
    for value in (1..=50).rev() {
        assert_eq!(list.pop_front(), Some(value));
    }
    assert_eq!(list.pop_front(), None);
}

#[test]
fn pop_back_yields_the_pushes_first_in_first_out() {
    let mut list = List::new();
    for value in 1..=50 {
        list.push_front(value);
    }
    for value in 1..=50 {
        assert_eq!(list.pop_back(), Some(value));
    }
    assert_eq!(list.pop_back(), None);
}

#[test]
fn peek_front_shows_what_pop_front_yields_next() {
    let mut list = List::new();
    list.push_front(String::from("a"));
    list.push_front(String::from("b"));
    assert_eq!(list.peek_front().map(|front| front.as_str()), Some("b"));
    assert_eq!(list.peek_front().map(|front| front.as_str()), Some("b"));
    assert_eq!(list.pop_front().as_deref(), Some("b"));
    assert_eq!(list.peek_front().map(|front| front.as_str()), Some("a"));
    assert_eq!(list.pop_front().as_deref(), Some("a"));
    assert!(list.peek_front().is_none());
}

#[test]
fn peek_front_after_pop_back_follows_the_front() {
    let mut list = List::new();
    list.push_front(1);
    list.push_front(2);
    list.push_front(3);
    assert_eq!(list.pop_back(), Some(1));
    assert_eq!(list.peek_front(), Some(&3));
    assert_eq!(list.pop_back(), Some(2));
    assert_eq!(list.peek_front(), Some(&3));
    assert_eq!(list.pop_back(), Some(3));
    assert_eq!(list.peek_front(), None);
}

#[test]
fn alternating_drain_yields_every_element_once() {
    let mut list = List::new();
    for value in 0..9 {
        list.push_front(value);
    }
    // Front to back the deque now reads 8, 7, ..., 0.
    let mut iter = list.into_iter();
    let mut seen = Vec::new();
    for step in 0..9 {
        let item = if step % 2 == 0 { iter.next() } else { iter.next_back() };
        seen.push(item.unwrap());
    }
    assert_eq!(seen, vec![8, 0, 7, 1, 6, 2, 5, 3, 4]);
    for _ in 0..4 {
        assert_eq!(iter.next(), None);
        assert_eq!(iter.next_back(), None);
    }
}

#[test]
fn uneven_drain_yields_every_element_once() {
    let mut list = List::new();
    for value in 1..=6 {
        list.push_front(value);
    }
    // Front to back the deque now reads 6, 5, 4, 3, 2, 1.
    let mut iter = list.into_iter();
    assert_eq!(iter.next_back(), Some(1));
    assert_eq!(iter.next_back(), Some(2));
    assert_eq!(iter.next(), Some(6));
    assert_eq!(iter.next_back(), Some(3));
    assert_eq!(iter.next(), Some(5));
    assert_eq!(iter.next(), Some(4));
    assert_eq!(iter.next(), None);
    assert_eq!(iter.next_back(), None);
    assert_eq!(iter.next(), None);
}

#[test]
fn iterator_over_an_empty_deque_yields_nothing() {
    let list: List<u8> = List::new();
    let mut iter = list.into_iter();
    assert_eq!(iter.next_back(), None);
    assert_eq!(iter.next(), None);
    assert_eq!(iter.next_back(), None);
}

#[test]
fn clear_empties_the_deque_and_leaves_it_usable() {
    let mut list = List::new();
    for value in 0..10 {
        list.push_front(value);
    }
    list.clear();
    assert!(list.peek_front().is_none());
    assert_eq!(list.pop_front(), None);
    assert_eq!(list.pop_back(), None);
    list.clear();
    list.push_front(11);
    list.push_front(12);
    assert_eq!(list.pop_back(), Some(11));
    assert_eq!(list.pop_back(), Some(12));
    assert_eq!(list.pop_back(), None);
}

#[test]
fn two_million_elements_are_torn_down() {
    let mut list = List::new();
    for value in 0..2_000_000u32 {
        list.push_front(value);
    }
    assert_eq!(list.peek_front(), Some(&1_999_999));
    list.clear();
    assert!(list.peek_front().is_none());

    let mut dropped = List::new();
    for value in 0..2_000_000u32 {
        dropped.push_front(value);
    }
    assert_eq!(dropped.pop_back(), Some(0));
}

#[test]
fn every_element_is_released_exactly_once() {
    let probe = Rc::new(());
    let mut list = List::new();
    for _ in 0..5 {
        list.push_front(Rc::clone(&probe));
    }
    assert_eq!(Rc::strong_count(&probe), 6);
    drop(list.pop_front());
    drop(list.pop_back());
    assert_eq!(Rc::strong_count(&probe), 4);
    list.clear();
    assert_eq!(Rc::strong_count(&probe), 1);

    for _ in 0..3 {
        list.push_front(Rc::clone(&probe));
    }
    let mut iter = list.into_iter();
    drop(iter.next());
    assert_eq!(Rc::strong_count(&probe), 3);
    drop(iter);
    assert_eq!(Rc::strong_count(&probe), 1);
}

#[test]
fn deque_agrees_with_the_standard_deque_on_a_long_run() {
    let mut list = List::new();
    let mut model: VecDeque<u64> = VecDeque::new();
    let mut state: u64 = 0x2545_f491_4f6c_dd1d;
    for round in 0..20_000u64 {
        state ^= state << 13;
        state ^= state >> 7;
        state ^= state << 17;
        match state % 5 {
            0 | 1 => {
                list.push_front(round);
                model.push_front(round);
            }
            2 => assert_eq!(list.pop_front(), model.pop_front()),
            3 => assert_eq!(list.pop_back(), model.pop_back()),
            _ => assert_eq!(list.peek_front(), model.front()),
        }
    }
    let mut iter = list.into_iter();
    while let Some(expected) = model.pop_back() {
        assert_eq!(iter.next_back(), Some(expected));
    }
    assert_eq!(iter.next(), None);
}
