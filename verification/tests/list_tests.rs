use std::mem;

use bootutil::list::{refnode_box, refnode_r, ForwardList, FwData, FwDataAdapter, Link, SingleForwardList};

fn pool3() -> Vec<FwData> {
    vec![FwData::new(0), FwData::new(1), FwData::new(2)]
}

#[test]
fn single_forward_list() {
    let mut pool = pool3();
    let mut list1: SingleForwardList<FwData, FwDataAdapter> = SingleForwardList::new();

    list1.push_front(&mut pool, 0);
    list1.push_front(&mut pool, 1);
    list1.push_front(&mut pool, 2);

    let mut it = list1.iter();
    let mut n: usize = 0;
    while let Some(d) = it.next(&list1, &pool) {
        assert_eq!(pool[d].num, 2 - n);
        n += 1;
    }
    assert_eq!(n, 3);

    assert_eq!(
        mem::size_of_val(&list1),
        mem::size_of_val(&list1.end),
        "size = {}",
        mem::size_of_val(&list1)
    );
}

#[test]
fn forward_list() {
    let mut pool = pool3();
    let mut list1: ForwardList<FwData, FwDataAdapter> = ForwardList::new();

    list1.push_front(&mut pool, 0);
    list1.push_front(&mut pool, 1);
    list1.push_front(&mut pool, 2);

    let mut it = list1.iter();
    let mut n: usize = 0;
    while let Some(d) = it.next(&list1, &pool) {
        assert_eq!(pool[d].num, 2 - n);
        n += 1;
    }
    assert_eq!(n, 3);

    assert_eq!(
        mem::size_of_val(&list1),
        mem::size_of_val(&list1.end),
        "size = {}",
        mem::size_of_val(&list1)
    );
}

#[test]
fn list_test() {
    let _list: SingleForwardList<FwData, FwDataAdapter> = SingleForwardList::new();
}

#[test]
fn push_pop_lifo() {
    let mut pool = pool3();
    let mut list: SingleForwardList<FwData, FwDataAdapter> = SingleForwardList::new();

    list.push_front(&mut pool, 0);
    list.push_front(&mut pool, 1);
    list.push_front(&mut pool, 2);

    // pops come back in the reverse of the push order
    assert_eq!(list.pop_front(&pool), Some(2));
    assert_eq!(list.pop_front(&pool), Some(1));
    assert_eq!(list.pop_front(&pool), Some(0));
    // after as many pops as pushes the list is empty
    assert_eq!(list.pop_front(&pool), None);
}

#[test]
fn front_and_next() {
    let mut pool = pool3();
    let mut list: SingleForwardList<FwData, FwDataAdapter> = SingleForwardList::new();
    assert!(list.ref_front(&pool).is_none());

    list.push_front(&mut pool, 2);
    list.push_front(&mut pool, 0);

    let front = list.ref_front(&pool).unwrap();
    assert_eq!(front.num, 0);
    assert_eq!(list.ref_next(&pool, 0), Some(2));
    assert_eq!(list.ref_next(&pool, 2), None);
    assert_eq!(list.len(&pool), 2);
    assert_eq!(list.nth(&pool, 1), 2);
}

#[test]
fn remove_behind_predecessor() {
    let mut pool = pool3();
    let mut list: SingleForwardList<FwData, FwDataAdapter> = SingleForwardList::new();
    list.push_front(&mut pool, 2);
    list.push_front(&mut pool, 1);
    list.push_front(&mut pool, 0);

    // list: 0, 1, 2; unhook the member after 0
    assert_eq!(list.remove_next(&mut pool, 0), Some(1));
    assert_eq!(list.len(&pool), 2);
    assert_eq!(list.nth(&pool, 0), 0);
    assert_eq!(list.nth(&pool, 1), 2);
    // 2 is the last member: nothing follows it
    assert_eq!(list.remove_next(&mut pool, 2), None);
}

#[test]
fn mut_front_writes_through() {
    let mut pool = pool3();
    let mut list: SingleForwardList<FwData, FwDataAdapter> = SingleForwardList::new();
    list.push_front(&mut pool, 1);
    let e = list.mut_front(&mut pool);
    e.num = 42;
    assert_eq!(pool[1].num, 42);
}

#[test]
fn iteration_is_restartable() {
    let mut pool = pool3();
    let mut list: SingleForwardList<FwData, FwDataAdapter> = SingleForwardList::new();
    list.push_front(&mut pool, 0);
    list.push_front(&mut pool, 1);

    let mut it1 = list.iter();
    assert_eq!(it1.next(&list, &pool), Some(1));
    assert_eq!(it1.next(&list, &pool), Some(0));
    assert_eq!(it1.next(&list, &pool), None);

    let mut it2 = list.iter();
    assert_eq!(it2.next(&list, &pool), Some(1));
}

#[test]
fn dual_end_tracks_tail() {
    let mut pool = pool3();
    let mut list: ForwardList<FwData, FwDataAdapter> = ForwardList::new();
    assert_eq!(list.end.get_tail(), Link::Nil);
    list.push_front(&mut pool, 2);
    list.push_front(&mut pool, 0);
    // the first element pushed stays at the back
    assert_eq!(list.end.get_tail(), Link::At(2));
}

#[test]
fn node_accessors() {
    let d = FwData::new(7);
    assert_eq!(d.num, 7);
    assert_eq!(refnode_r(&d).next, Link::Nil);
    let b = Box::new(FwData::new(9));
    assert_eq!(refnode_box(&b).next, Link::Nil);
    let z = FwData::default();
    assert_eq!(z.num, 0);
    let n = bootutil::list::Node::new();
    assert_eq!(n.get_prev(), Link::Nil);
}
