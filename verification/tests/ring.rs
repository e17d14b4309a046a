// The scheduler ring and its round-robin iterator.

use kote::small_vec::SmallVec;

#[test]
fn simple() {
    let mut vec: SmallVec<u64> = SmallVec::new(16);

    vec.push_back(1u64);
    vec.push_back(2);
    vec.push_back(3);
    vec.push_back(4);
    vec.push_back(5);

    let mut it = vec.iter_round_robin();

    assert_eq!(it.next(), Some((0, &1)));
    assert_eq!(it.next(), Some((1, &2)));
    assert_eq!(it.next(), Some((2, &3)));
    assert_eq!(it.next(), Some((3, &4)));
    assert_eq!(it.next(), Some((4, &5)));
    assert_eq!(it.next(), None);
}

#[test]
fn full() {
    let mut vec: SmallVec<u64> = SmallVec::new(3);

    vec.push_back(1u64);
    vec.push_back(2);
    vec.push_back(3);
    assert_eq!(vec.len(), 3);
}

#[test]
fn one_element() {
    let mut vec: SmallVec<u64> = SmallVec::new(1);

    vec.push_back(0u64);
    assert_eq!(vec.len(), 1);
}

#[test]
fn empty_current() {
    let vec: SmallVec<u64> = SmallVec::new(4);

    assert_eq!(vec.current(), None);
}

#[test]
fn current() {
    let mut vec: SmallVec<u64> = SmallVec::new(16);

    vec.push_back(0u64);
    vec.push_back(10);
    vec.push_back(20);
    vec.push_back(30);
    vec.push_back(40);

    vec.set_current(2);

    assert_eq!(vec.current(), Some(&20));

    let mut it = vec.iter_round_robin();

    assert_eq!(it.next(), Some((2, &20)));
    assert_eq!(it.next(), Some((3, &30)));
    assert_eq!(it.next(), Some((4, &40)));
    assert_eq!(it.next(), Some((0, &0)));
    assert_eq!(it.next(), Some((1, &10)));
    assert_eq!(it.next(), None);
}

#[test]
fn pop_front_shifts() {
    let mut vec: SmallVec<u64> = SmallVec::new(4);
    vec.push_back(7);
    vec.push_back(8);
    vec.set_current(1);
    assert_eq!(vec.pop_front(), Some(7));
    assert_eq!(vec.current(), Some(&8));
    assert_eq!(vec.pop_front(), Some(8));
    assert_eq!(vec.pop_front(), None);
}
