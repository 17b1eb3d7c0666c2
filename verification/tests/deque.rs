use dlist::List;

#[test]
fn basics() {
    let mut list = List::new();

    // Check empty list behaves right
    assert_eq!(list.pop_front(), None);

    // Populate list
    list.push_front(1);
    list.push_front(2);
    list.push_front(3);

    // Check normal removal
    assert_eq!(list.pop_front(), Some(3));
    assert_eq!(list.pop_front(), Some(2));

    // Push some more just to make sure nothing's corrupted
    list.push_front(4);
    list.push_front(5);

    // Check normal removal
    assert_eq!(list.pop_front(), Some(5));
    assert_eq!(list.pop_front(), Some(4));

    // Check exhaustion
    assert_eq!(list.pop_front(), Some(1));
    assert_eq!(list.pop_front(), None);

    // ---- back -----

    // Check empty list behaves right
    assert_eq!(list.pop_back(), None);

    // Populate list
    list.push_back(1);
    list.push_back(2);
    list.push_back(3);

    // Check normal removal
    assert_eq!(list.pop_back(), Some(3));
    assert_eq!(list.pop_back(), Some(2));

    // Push some more just to make sure nothing's corrupted
    list.push_back(4);
    list.push_back(5);

    // Check normal removal
    assert_eq!(list.pop_back(), Some(5));
    assert_eq!(list.pop_back(), Some(4));

    // Check exhaustion
    assert_eq!(list.pop_back(), Some(1));
    assert_eq!(list.pop_back(), None);
}

#[test]
fn test_peek() {
    let mut list = List::<i32>::new();
    assert!(list.peek_front().is_none());

    list.push_front(1);
    list.push_front(2);
    list.push_front(3);

    assert_eq!(*list.peek_front().unwrap(), 3);
}

#[test]
fn test_push_and_pop_back() {
    let mut list = List::<i32>::new();

    // Check empty list behaves right
    assert_eq!(list.pop_front(), None);

    // Populate list
    list.push_front(1);
    list.push_front(2);
    list.push_front(3);
    list.push_back(-1);
    list.push_back(-2);
    list.push_back(-3);

    assert_eq!(*list.peek_front().unwrap(), 3);
    assert_eq!(*list.peek_front_mut().unwrap(), 3);
    assert_eq!(*list.peek_front_mut().unwrap(), 3);
    assert_eq!(*list.peek_back().unwrap(), -3);
    assert_eq!(list.pop_back(), Some(-3));
    assert_eq!(list.pop_back(), Some(-2));
    assert_eq!(list.pop_back(), Some(-1));
    assert_eq!(list.pop_back(), Some(1));
    assert_eq!(list.pop_back(), Some(2));
    assert_eq!(list.pop_back(), Some(3));
    assert_eq!(list.pop_back(), None);
}

#[test]
fn peek() {
    let mut list = List::new();
    assert!(list.peek_front().is_none());
    assert!(list.peek_back().is_none());
    assert!(list.peek_front_mut().is_none());
    assert!(list.peek_back_mut().is_none());

    list.push_front(1);
    list.push_front(2);
    list.push_front(3);

    assert_eq!(&*list.peek_front().unwrap(), &3);
    assert_eq!(&mut *list.peek_front_mut().unwrap(), &mut 3);
    assert_eq!(&*list.peek_back().unwrap(), &1);
    assert_eq!(&mut *list.peek_back_mut().unwrap(), &mut 1);
}

// Push/pop at the same end are inverses when nothing intervenes.
#[test]
fn push_pop_same_end_inverse() {
    let mut list = List::new();
    list.push_back(1);
    list.push_back(2);

    list.push_front(9);
    assert_eq!(list.pop_front(), Some(9));
    assert_eq!(*list.peek_front().unwrap(), 1);
    assert_eq!(*list.peek_back().unwrap(), 2);

    list.push_back(9);
    assert_eq!(list.pop_back(), Some(9));
    assert_eq!(*list.peek_front().unwrap(), 1);
    assert_eq!(*list.peek_back().unwrap(), 2);

    assert_eq!(list.pop_front(), Some(1));
    assert_eq!(list.pop_front(), Some(2));
    assert_eq!(list.pop_front(), None);
}

// A single element is reachable from either end, whichever end pushed it.
#[test]
fn single_element_both_ends() {
    let mut list = List::new();
    list.push_front(7);
    assert_eq!(*list.peek_back().unwrap(), 7);
    assert_eq!(list.pop_back(), Some(7));
    assert_eq!(list.pop_back(), None);
    assert_eq!(list.pop_front(), None);

    list.push_back(8);
    assert_eq!(*list.peek_front().unwrap(), 8);
    assert_eq!(list.pop_front(), Some(8));
    assert_eq!(list.pop_front(), None);
}

// After any push, the peek at that end sees the element just pushed.
#[test]
fn peek_sees_latest_push() {
    let mut list = List::new();
    list.push_front(1);
    assert_eq!(*list.peek_front().unwrap(), 1);
    list.push_front(2);
    assert_eq!(*list.peek_front().unwrap(), 2);
    list.push_back(3);
    assert_eq!(*list.peek_back().unwrap(), 3);
    list.push_back(4);
    assert_eq!(*list.peek_back().unwrap(), 4);
    assert_eq!(*list.peek_front().unwrap(), 2);
}

// A write through a front write-borrow is visible to the next front peek,
// and the rest of the list is untouched.
#[test]
fn write_borrow_front_visible() {
    let mut list = List::new();
    list.push_back(1);
    list.push_back(2);
    if let Some(e) = list.peek_front_mut() {
        *e = 42;
    }
    assert_eq!(*list.peek_front().unwrap(), 42);
    assert_eq!(*list.peek_back().unwrap(), 2);
    assert_eq!(list.pop_front(), Some(42));
    assert_eq!(list.pop_front(), Some(2));
}

// The same at the back.
#[test]
fn write_borrow_back_visible() {
    let mut list = List::new();
    list.push_back(1);
    list.push_back(2);
    if let Some(e) = list.peek_back_mut() {
        *e = -2;
    }
    assert_eq!(*list.peek_back().unwrap(), -2);
    assert_eq!(*list.peek_front().unwrap(), 1);
    assert_eq!(list.pop_back(), Some(-2));
    assert_eq!(list.pop_back(), Some(1));
}

// Draining a long list visits every element in order.
#[test]
fn large_drain() {
    let mut list = List::new();
    for i in 0..50_000i64 {
        list.push_back(i);
    }
    for i in 0..50_000i64 {
        assert_eq!(list.pop_front(), Some(i));
    }
    assert_eq!(list.pop_front(), None);
}

// Dropping a long list releases every node without exhausting the call
// stack: node storage is a flat arena, so teardown never recurses along
// the chain.
#[test]
fn large_teardown() {
    let mut list = List::new();
    for i in 0..60_000i64 {
        list.push_front(i);
    }
    drop(list);
}
