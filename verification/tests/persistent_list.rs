use playground::persistent_list::List;

#[test]
fn persistent_list_basics() {
    let mut l = List::new();
    assert_eq!(l.head(), None);
    l = l.prepend(1).prepend(2);
    assert_eq!(l.head(), Some(&2));

    let mut ll = l.tail();
    assert_eq!(ll.head(), Some(&1));
    ll = ll.tail();
    assert_eq!(ll.head(), None);
}

#[test]
fn persistent_list_iter() {
    let l = List::new().prepend(1).prepend(2).prepend(3);

    let mut i = l.iter();
    assert_eq!(i.next(), Some(&3));
    assert_eq!(i.next(), Some(&2));
    assert_eq!(i.next(), Some(&1));
    assert_eq!(i.next(), None);
}

#[test]
fn persistent_list_prepend_shares_and_keeps_the_base() {
    let mut base = List::new().prepend(1);
    let a = base.prepend(2);
    let b = base.prepend(3);
    assert_eq!(base.head(), Some(&1));
    assert_eq!(a.head(), Some(&2));
    assert_eq!(b.head(), Some(&3));
    assert_eq!(a.tail().head(), Some(&1));
    assert_eq!(b.tail().head(), Some(&1));
}

#[test]
fn persistent_list_tail_of_empty_is_empty() {
    let l: List<u8> = List::new();
    assert_eq!(l.tail().head(), None);
    assert_eq!(l.iter().next(), None);
}

#[test]
fn persistent_list_dropping_a_long_list() {
    let mut list = List::new();
    for i in 0..1_000_000u32 {
        list = list.prepend(i);
    }
    assert_eq!(list.head(), Some(&999_999));
    drop(list);
}

#[test]
fn persistent_list_dropping_a_list_keeps_the_shared_tail() {
    let mut base = List::new().prepend(1).prepend(2);
    let longer = base.prepend(3);
    drop(longer);
    let mut it = base.iter();
    assert_eq!(it.next(), Some(&2));
    assert_eq!(it.next(), Some(&1));
    assert_eq!(it.next(), None);
}
