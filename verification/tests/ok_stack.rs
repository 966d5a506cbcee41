use playground::ok_stack::Stack;

#[test]
fn ok_stack_basics() {
    let mut lls = Stack::new();
    assert_eq!(lls.pop(), None);
    lls.push(1);

    lls.push(2);
    lls.push(3);
    assert_eq!(lls.pop(), Some(3));
    assert_eq!(lls.pop(), Some(2));

    lls.push(4);
    assert_eq!(lls.pop(), Some(4));
    assert_eq!(lls.pop(), Some(1));
    assert_eq!(lls.pop(), None);
}

#[test]
fn peek() {
    let mut lls = Stack::new();
    assert_eq!(lls.peek(), None);
    lls.push(1);
    assert_eq!(lls.peek(), Some(&1));
}

#[test]
fn peek_mut() {
    let mut lls = Stack::new();
    assert_eq!(lls.peek_mut(), None);
    lls.push(1);
    if let Some(top) = lls.peek_mut() {
        *top = 99;
        assert_eq!(lls.peek(), Some(&99));
    }
}

#[test]
fn into_iter() {
    let mut lls = Stack::new();
    lls.push(1);
    lls.push(2);
    lls.push(3);

    let mut ii = lls.into_iter();
    assert_eq!(ii.next(), Some(3));
    assert_eq!(ii.next(), Some(2));
    assert_eq!(ii.next(), Some(1));
    assert_eq!(ii.next(), None);
}

#[test]
fn ok_stack_iter() {
    let mut lls = Stack::new();
    let mut i = lls.iter();
    assert_eq!(i.next(), None);
    lls.push(1);
    lls.push(2);

    i = lls.iter();
    assert_eq!(i.next(), Some(&2));
    assert_eq!(i.next(), Some(&1));
    assert_eq!(i.next(), None);

    assert_eq!(lls.pop(), Some(2));
}

#[test]
fn iter_mut() {
    let mut lls = Stack::new();
    let mut i = lls.iter_mut();
    assert_eq!(i.next(), None);
    lls.push(1);
    lls.push(2);

    i = lls.iter_mut();
    let head = i.next();
    assert_eq!(head, Some(&mut 2));
    head.map(|node| *node += 9);
    assert_eq!(i.next(), Some(&mut 1));
    assert_eq!(i.next(), None);

    assert_eq!(lls.pop(), Some(11));
}

#[test]
fn ok_stack_push_then_pop_gives_it_back() {
    let mut lls = Stack::new();
    lls.push("a");
    lls.push("b");
    assert_eq!(lls.pop(), Some("b"));
    assert_eq!(lls.peek(), Some(&"a"));
}

#[test]
fn ok_stack_deep_stack() {
    let mut lls = Stack::new();
    for i in 0..1_000u32 {
        lls.push(i);
    }
    assert_eq!(lls.pop(), Some(999));
    let mut it = lls.iter();
    assert_eq!(it.next(), Some(&998));
}

#[test]
fn ok_stack_dropping_a_long_stack() {
    let mut s = Stack::new();
    for i in 0..1_000_000u32 {
        s.push(i);
    }
    assert_eq!(s.peek(), Some(&999_999));
    drop(s);
}
