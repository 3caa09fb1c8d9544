use std::cell::RefCell;
use std::rc::Rc;
use weak_list::{Arena, Handle, WeakList};

struct Marked {
    value: i32,
    dropped: Rc<RefCell<Vec<i32>>>,
}

impl Drop for Marked {
    fn drop(&mut self) {
        self.dropped.borrow_mut().push(self.value);
    }
}

fn marked(value: i32, dropped: &Rc<RefCell<Vec<i32>>>) -> Marked {
    Marked { value, dropped: Rc::clone(dropped) }
}

fn snapshot(list: &WeakList<i32>, arena: &mut Arena<i32>) -> Vec<i32> {
    let handles = list.upgrade_all(arena);
    let values: Vec<i32> = handles.iter().map(|h| *Handle::deref(h, arena)).collect();
    for h in handles {
        Handle::drop(h, arena);
    }
    values
}

fn snapshot_marked(list: &WeakList<Marked>, arena: &mut Arena<Marked>) -> Vec<i32> {
    let handles = list.upgrade_all(arena);
    let values: Vec<i32> = handles.iter().map(|h| Handle::deref(h, arena).value).collect();
    for h in handles {
        Handle::drop(h, arena);
    }
    values
}

#[test]
fn new_list_is_empty() {
    let mut arena: Arena<i32> = Arena::new();
    let list = WeakList::new(&mut arena);
    assert!(arena.has_list(&list));
    assert_eq!(snapshot(&list, &mut arena), Vec::<i32>::new());
    assert!(list.take_all(&mut arena).is_empty());
    list.clear(&mut arena);
    assert_eq!(snapshot(&list, &mut arena), Vec::<i32>::new());
}

#[test]
fn snapshot_is_reverse_of_push_order() {
    let mut arena: Arena<i32> = Arena::new();
    let list = WeakList::new(&mut arena);
    let mut handles = vec![];
    for v in 1..=10 {
        handles.push(list.new_elem(v, &mut arena));
    }
    assert_eq!(snapshot(&list, &mut arena), [10, 9, 8, 7, 6, 5, 4, 3, 2, 1]);
    let values: Vec<i32> = handles.iter().map(|h| *Handle::deref(h, &arena)).collect();
    assert_eq!(values, [1, 2, 3, 4, 5, 6, 7, 8, 9, 10]);
}

#[test]
fn push_starts_with_one_handle() {
    let mut arena: Arena<i32> = Arena::new();
    let list = WeakList::new(&mut arena);
    let h = list.new_elem(7, &mut arena);
    assert!(arena.contains(&h));
    assert_eq!(Handle::strong_count(&h, &arena), 1);
    assert_eq!(*Handle::deref(&h, &arena), 7);
}

#[test]
fn clone_counts_and_shares_the_value() {
    let mut arena: Arena<i32> = Arena::new();
    let list = WeakList::new(&mut arena);
    let h = list.new_elem(7, &mut arena);
    let c = Handle::clone(&h, &mut arena);
    assert_eq!(Handle::strong_count(&h, &arena), 2);
    assert_eq!(Handle::strong_count(&c, &arena), 2);
    assert_eq!(*Handle::deref(&c, &arena), 7);
    assert_eq!(snapshot(&list, &mut arena), [7]);
    Handle::drop(h, &mut arena);
    assert_eq!(Handle::strong_count(&c, &arena), 1);
    assert_eq!(snapshot(&list, &mut arena), [7]);
}

#[test]
fn upgrade_all_counts_one_more_handle_each() {
    let mut arena: Arena<i32> = Arena::new();
    let list = WeakList::new(&mut arena);
    assert!(list.can_upgrade_all(&arena));
    let a = list.new_elem(1, &mut arena);
    let b = list.new_elem(2, &mut arena);
    let b2 = Handle::clone(&b, &mut arena);
    assert!(list.can_upgrade_all(&arena));
    let handles = list.upgrade_all(&mut arena);
    assert_eq!(handles.len(), 2);
    assert_eq!(*Handle::deref(&handles[0], &arena), 2);
    assert_eq!(*Handle::deref(&handles[1], &arena), 1);
    assert_eq!(Handle::strong_count(&a, &arena), 2);
    assert_eq!(Handle::strong_count(&b, &arena), 3);
    assert_eq!(Handle::strong_count(&b2, &arena), 3);
    assert_eq!(snapshot(&list, &mut arena), [2, 1]);
}

#[test]
fn dropping_every_handle_destroys_the_value_once() {
    let dropped = Rc::new(RefCell::new(vec![]));
    let mut arena: Arena<Marked> = Arena::new();
    let list = WeakList::new(&mut arena);
    let keep = list.new_elem(marked(1, &dropped), &mut arena);
    let h = list.new_elem(marked(2, &dropped), &mut arena);
    let c1 = Handle::clone(&h, &mut arena);
    let c2 = Handle::clone(&h, &mut arena);
    Handle::drop(h, &mut arena);
    assert_eq!(*dropped.borrow(), []);
    assert_eq!(snapshot_marked(&list, &mut arena), [2, 1]);
    Handle::drop(c1, &mut arena);
    assert_eq!(*dropped.borrow(), []);
    assert_eq!(Handle::strong_count(&c2, &arena), 1);
    Handle::drop(c2, &mut arena);
    assert_eq!(*dropped.borrow(), [2]);
    assert_eq!(snapshot_marked(&list, &mut arena), [1]);
    assert_eq!(*dropped.borrow(), [2]);
    assert_eq!(Handle::deref(&keep, &arena).value, 1);
}

#[test]
fn detach_twice_is_detach_once() {
    let dropped = Rc::new(RefCell::new(vec![]));
    let mut arena: Arena<Marked> = Arena::new();
    let list = WeakList::new(&mut arena);
    let a = list.new_elem(marked(1, &dropped), &mut arena);
    let b = list.new_elem(marked(2, &dropped), &mut arena);
    let c = list.new_elem(marked(3, &dropped), &mut arena);
    Handle::detach(&b, &mut arena);
    assert_eq!(snapshot_marked(&list, &mut arena), [3, 1]);
    assert_eq!(Handle::strong_count(&b, &arena), 1);
    Handle::detach(&b, &mut arena);
    assert_eq!(snapshot_marked(&list, &mut arena), [3, 1]);
    assert_eq!(Handle::strong_count(&b, &arena), 1);
    assert_eq!(Handle::deref(&b, &arena).value, 2);
    assert_eq!(*dropped.borrow(), []);
    Handle::drop(b, &mut arena);
    assert_eq!(*dropped.borrow(), [2]);
    assert_eq!(snapshot_marked(&list, &mut arena), [3, 1]);
    assert_eq!(Handle::deref(&a, &arena).value, 1);
    assert_eq!(Handle::deref(&c, &arena).value, 3);
}

#[test]
fn detach_first_middle_and_last_entry() {
    let mut arena: Arena<i32> = Arena::new();
    let list = WeakList::new(&mut arena);
    let h: Vec<Handle<i32>> = (1..=5).map(|v| list.new_elem(v, &mut arena)).collect();
    Handle::detach(&h[4], &mut arena); // first entry
    assert_eq!(snapshot(&list, &mut arena), [4, 3, 2, 1]);
    Handle::detach(&h[2], &mut arena); // middle entry
    assert_eq!(snapshot(&list, &mut arena), [4, 2, 1]);
    Handle::detach(&h[0], &mut arena); // last entry
    assert_eq!(snapshot(&list, &mut arena), [4, 2]);
    Handle::detach(&h[3], &mut arena);
    Handle::detach(&h[1], &mut arena);
    assert_eq!(snapshot(&list, &mut arena), Vec::<i32>::new());
    let values: Vec<i32> = h.iter().map(|x| *Handle::deref(x, &arena)).collect();
    assert_eq!(values, [1, 2, 3, 4, 5]);
    let again = list.new_elem(6, &mut arena);
    assert_eq!(snapshot(&list, &mut arena), [6]);
    assert_eq!(*Handle::deref(&again, &arena), 6);
}

#[test]
fn take_all_empties_the_list_and_keeps_the_values() {
    let dropped = Rc::new(RefCell::new(vec![]));
    let mut arena: Arena<Marked> = Arena::new();
    let list = WeakList::new(&mut arena);
    let a = list.new_elem(marked(1, &dropped), &mut arena);
    let b = list.new_elem(marked(2, &dropped), &mut arena);
    let c = list.new_elem(marked(3, &dropped), &mut arena);
    let taken = list.take_all(&mut arena);
    assert!(list.upgrade_all(&mut arena).is_empty());
    let values: Vec<i32> = taken.iter().map(|h| Handle::deref(h, &arena).value).collect();
    assert_eq!(values, [3, 2, 1]);
    assert_eq!(Handle::strong_count(&a, &arena), 2);
    assert_eq!(*dropped.borrow(), []);
    for h in [a, b, c] {
        Handle::drop(h, &mut arena);
    }
    assert_eq!(*dropped.borrow(), []);
    let values: Vec<i32> = taken.iter().map(|h| Handle::deref(h, &arena).value).collect();
    assert_eq!(values, [3, 2, 1]);
    for h in taken {
        Handle::drop(h, &mut arena);
    }
    assert_eq!(*dropped.borrow(), [3, 2, 1]);
}

#[test]
fn clear_never_drops() {
    let dropped = Rc::new(RefCell::new(vec![]));
    let mut arena: Arena<Marked> = Arena::new();
    let list = WeakList::new(&mut arena);
    let a = list.new_elem(marked(1, &dropped), &mut arena);
    let b = list.new_elem(marked(2, &dropped), &mut arena);
    let b2 = Handle::clone(&b, &mut arena);
    list.clear(&mut arena);
    assert_eq!(*dropped.borrow(), []);
    assert_eq!(snapshot_marked(&list, &mut arena), Vec::<i32>::new());
    assert_eq!(Handle::strong_count(&a, &arena), 1);
    assert_eq!(Handle::strong_count(&b, &arena), 2);
    assert_eq!(Handle::deref(&a, &arena).value, 1);
    assert_eq!(Handle::deref(&b2, &arena).value, 2);
    list.clear(&mut arena);
    assert_eq!(*dropped.borrow(), []);
    let c = list.new_elem(marked(3, &dropped), &mut arena);
    assert_eq!(snapshot_marked(&list, &mut arena), [3]);
    assert_eq!(Handle::deref(&c, &arena).value, 3);
}

#[test]
fn try_unwrap_of_the_only_handle_gives_the_value() {
    let dropped = Rc::new(RefCell::new(vec![]));
    let mut arena: Arena<Marked> = Arena::new();
    let list = WeakList::new(&mut arena);
    let other = list.new_elem(marked(1, &dropped), &mut arena);
    let h = list.new_elem(marked(2, &dropped), &mut arena);
    let value = match Handle::try_unwrap(h, &mut arena) {
        Ok(value) => value,
        Err(_) => panic!("the only handle must unwrap"),
    };
    assert_eq!(value.value, 2);
    assert_eq!(*dropped.borrow(), []);
    assert_eq!(snapshot_marked(&list, &mut arena), [1]);
    drop(value);
    assert_eq!(*dropped.borrow(), [2]);
    Handle::drop(other, &mut arena);
    assert_eq!(*dropped.borrow(), [2, 1]);
}

#[test]
fn try_unwrap_of_a_shared_handle_gives_it_back_detached() {
    let dropped = Rc::new(RefCell::new(vec![]));
    let mut arena: Arena<Marked> = Arena::new();
    let list = WeakList::new(&mut arena);
    let h1 = list.new_elem(marked(5, &dropped), &mut arena);
    let h2 = Handle::clone(&h1, &mut arena);
    let back = match Handle::try_unwrap(h1, &mut arena) {
        Ok(_) => panic!("a shared handle must not unwrap"),
        Err(back) => back,
    };
    assert_eq!(Handle::deref(&back, &arena).value, 5);
    assert_eq!(Handle::deref(&h2, &arena).value, 5);
    assert_eq!(Handle::strong_count(&h2, &arena), 2);
    assert_eq!(snapshot_marked(&list, &mut arena), Vec::<i32>::new());
    assert_eq!(*dropped.borrow(), []);
    Handle::drop(back, &mut arena);
    let value = match Handle::try_unwrap(h2, &mut arena) {
        Ok(value) => value,
        Err(_) => panic!("the last handle must unwrap"),
    };
    assert_eq!(value.value, 5);
    assert_eq!(*dropped.borrow(), []);
}

#[test]
fn handle_outlives_its_list() {
    let dropped = Rc::new(RefCell::new(vec![]));
    let mut arena: Arena<Marked> = Arena::new();
    let list = WeakList::new(&mut arena);
    let other = WeakList::new(&mut arena);
    let a = list.new_elem(marked(1, &dropped), &mut arena);
    let b = list.new_elem(marked(2, &dropped), &mut arena);
    let c = other.new_elem(marked(3, &dropped), &mut arena);
    WeakList::drop(list, &mut arena);
    assert_eq!(*dropped.borrow(), []);
    assert!(arena.contains(&a));
    assert_eq!(Handle::deref(&a, &arena).value, 1);
    assert_eq!(Handle::deref(&b, &arena).value, 2);
    assert_eq!(Handle::strong_count(&a, &arena), 1);
    assert_eq!(snapshot_marked(&other, &mut arena), [3]);
    Handle::drop(a, &mut arena);
    Handle::drop(b, &mut arena);
    assert_eq!(*dropped.borrow(), [1, 2]);
    assert_eq!(snapshot_marked(&other, &mut arena), [3]);
    Handle::drop(c, &mut arena);
    assert_eq!(snapshot_marked(&other, &mut arena), Vec::<i32>::new());
}

#[test]
fn lists_of_one_arena_are_apart() {
    let mut arena: Arena<i32> = Arena::new();
    let left = WeakList::new(&mut arena);
    let right = WeakList::new(&mut arena);
    let l1 = left.new_elem(1, &mut arena);
    let r1 = right.new_elem(10, &mut arena);
    let l2 = left.new_elem(2, &mut arena);
    let r2 = right.new_elem(20, &mut arena);
    assert_eq!(snapshot(&left, &mut arena), [2, 1]);
    assert_eq!(snapshot(&right, &mut arena), [20, 10]);
    left.clear(&mut arena);
    assert_eq!(snapshot(&left, &mut arena), Vec::<i32>::new());
    assert_eq!(snapshot(&right, &mut arena), [20, 10]);
    Handle::drop(r2, &mut arena);
    assert_eq!(snapshot(&right, &mut arena), [10]);
    for h in [l1, l2, r1] {
        Handle::drop(h, &mut arena);
    }
    assert_eq!(snapshot(&right, &mut arena), Vec::<i32>::new());
}

#[test]
fn freed_storage_is_used_again() {
    let mut arena: Arena<i32> = Arena::new();
    let list = WeakList::new(&mut arena);
    let a = list.new_elem(1, &mut arena);
    let b = list.new_elem(2, &mut arena);
    Handle::drop(a, &mut arena);
    let c = list.new_elem(3, &mut arena);
    assert_eq!(snapshot(&list, &mut arena), [3, 2]);
    assert_eq!(*Handle::deref(&b, &arena), 2);
    assert_eq!(*Handle::deref(&c, &arena), 3);
    Handle::drop(c, &mut arena);
    Handle::drop(b, &mut arena);
    let d = list.new_elem(4, &mut arena);
    let e = list.new_elem(5, &mut arena);
    let f = list.new_elem(6, &mut arena);
    assert_eq!(snapshot(&list, &mut arena), [6, 5, 4]);
    assert_eq!(*Handle::deref(&d, &arena), 4);
    assert_eq!(*Handle::deref(&e, &arena), 5);
    assert_eq!(*Handle::deref(&f, &arena), 6);
}

#[test]
fn arena_tells_what_is_alive() {
    let mut arena: Arena<i32> = Arena::new();
    let mut other: Arena<i32> = Arena::new();
    let list = WeakList::new(&mut arena);
    let h = list.new_elem(1, &mut arena);
    assert!(arena.contains(&h));
    assert!(arena.has_list(&list));
    assert!(!other.contains(&h));
    assert!(!other.has_list(&list));
    let there = WeakList::new(&mut other);
    assert!(other.has_list(&there));
    WeakList::drop(there, &mut other);
    assert!(!other.has_list(&list));
}

#[test]
fn push_drop_discard_detach_in_turn() {
    let dropped = Rc::new(RefCell::new(vec![]));
    let mut arena: Arena<Marked> = Arena::new();
    let list = WeakList::new(&mut arena);
    let h1 = list.new_elem(marked(1, &dropped), &mut arena);
    let h2 = list.new_elem(marked(2, &dropped), &mut arena);
    let h3 = list.new_elem(marked(3, &dropped), &mut arena);
    assert_eq!(snapshot_marked(&list, &mut arena), [3, 2, 1]);

    Handle::drop(h3, &mut arena);
    assert_eq!(dropped.replace(vec![]), [3]);
    assert_eq!(snapshot_marked(&list, &mut arena), [2, 1]);

    let h4 = list.new_elem(marked(4, &dropped), &mut arena);
    Handle::drop(h4, &mut arena);
    assert_eq!(dropped.replace(vec![]), [4]);
    assert_eq!(snapshot_marked(&list, &mut arena), [2, 1]);

    Handle::detach(&h1, &mut arena);
    assert_eq!(snapshot_marked(&list, &mut arena), [2]);
    assert_eq!(dropped.replace(vec![]), []);

    Handle::drop(h1, &mut arena);
    assert_eq!(dropped.replace(vec![]), [1]);
    assert_eq!(Handle::deref(&h2, &arena).value, 2);
}
