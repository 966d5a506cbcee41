//! A persistent immutable singly-linked list: lists share their tails
//! through reference-counted nodes.
use std::rc::Rc;
use vstd::prelude::*;

verus! {

pub struct List<T> {
    head: Link<T>,
}

type Link<T> = Option<Rc<Node<T>>>;

struct Node<T> {
    val: T,
    next: Link<T>,
}

/// The values from `link` on, the first one first.
spec fn link_view<T>(link: Link<T>) -> Seq<T>
    decreases link,
{
    match link {
        Some(node) => seq![node.val] + link_view(node.next),
        None => Seq::empty(),
    }
}

impl<T> View for List<T> {
    type V = Seq<T>;

    /// The values of the list, head first.
    closed spec fn view(&self) -> Seq<T> {
        link_view(self.head)
    }
}

/// A new pointer to the same node, by `Rc::clone`.
#[verifier::external_body]
fn rc_clone<T>(rc: &Rc<T>) -> (c: Rc<T>)
    ensures
        c == *rc,
{
    Rc::clone(rc)
}

/// Takes the node out of `rc` when `rc` is its only pointer, by
/// `Rc::try_unwrap`; otherwise hands `rc` back. The call returns in
/// either case and never panics.
#[verifier::external_body]
fn rc_try_unwrap<T>(rc: Rc<T>) -> (r: Result<T, Rc<T>>)
    ensures
        match r {
            Ok(t) => t == *rc,
            Err(e) => e == rc,
        },
    opens_invariants none
    no_unwind
{
    Rc::try_unwrap(rc)
}

fn share<T>(link: &Link<T>) -> (l: Link<T>)
    ensures
        l == *link,
{
    match link {
        Some(node) => Some(rc_clone(node)),
        None => None,
    }
}

impl<T> List<T> {
    pub fn new() -> (l: List<T>)
        ensures
            l@ == Seq::<T>::empty(),
    {
        List { head: None }
    }

    /// A list of `val` followed by this list, which stays as it is.
    pub fn prepend(&mut self, val: T) -> (l: List<T>)
        ensures
            l@ == seq![val] + old(self)@,
            final(self)@ == old(self)@,
    {
        List { head: Some(Rc::new(Node { val, next: share(&self.head) })) }
    }

    /// This list without its first value; the empty list stays empty.
    pub fn tail(&self) -> (l: List<T>)
        ensures
            self@.len() == 0 ==> l@ == self@,
            self@.len() > 0 ==> l@ == self@.drop_first(),
    {
        match &self.head {
            Some(node) => {
                proof {
                    assert(self@.drop_first() =~= link_view(node.next));
                }
                List { head: share(&node.next) }
            },
            None => List { head: None },
        }
    }

    /// The first value, or `None` on the empty list.
    pub fn head(&self) -> (first: Option<&T>)
        ensures
            self@.len() == 0 ==> first is None,
            self@.len() > 0 ==> first == Some(&self@[0]),
    {
        match &self.head {
            Some(node) => Some(&node.val),
            None => None,
        }
    }

    /// Walks the list by reference, head first.
    pub fn iter(&self) -> (it: Iter<'_, T>)
        ensures
            it@ == self@,
    {
        Iter {
            cur_node: match &self.head {
                Some(node) => Some(&**node),
                None => None,
            },
        }
    }
}

impl<T> Drop for List<T> {
    /// Frees, one at a time, the nodes that no other list shares, so
    /// that dropping a long list takes no deep chain of nested drops;
    /// the first shared node stays for the lists that share it.
    fn drop(&mut self)
        opens_invariants none
        no_unwind
    {
        let mut head: Link<T> = None;
        std::mem::swap(&mut head, &mut self.head);
        loop
            decreases link_view(head).len(),
        {
            match head {
                Some(node) => match rc_try_unwrap(node) {
                    Ok(node) => {
                        head = node.next;
                    },
                    Err(_) => break,
                },
                None => break,
            }
        }
    }
}

/// Walks a list by reference, head first.
pub struct Iter<'a, T> {
    cur_node: Option<&'a Node<T>>,
}

impl<'a, T> View for Iter<'a, T> {
    type V = Seq<T>;

    /// The values not visited yet.
    closed spec fn view(&self) -> Seq<T> {
        match self.cur_node {
            Some(node) => seq![node.val] + link_view(node.next),
            None => Seq::empty(),
        }
    }
}

impl<'a, T> Iter<'a, T> {
    pub fn next(&mut self) -> (item: Option<&'a T>)
        ensures
            old(self)@.len() == 0 ==> item is None && final(self)@ == old(self)@,
            old(self)@.len() > 0 ==> item == Some(&old(self)@[0]) && final(self)@ == old(
                self,
            )@.drop_first(),
    {
        match self.cur_node {
            Some(node) => {
                self.cur_node = match &node.next {
                    Some(next) => Some(&**next),
                    None => None,
                };
                proof {
                    assert(old(self)@.drop_first() =~= self@);
                }
                Some(&node.val)
            },
            None => None,
        }
    }
}

/// Persistence: the tail of a prepended list is the list prepended to,
/// and its head is the prepended value.
pub proof fn lemma_tail_of_prepend<T>(s: Seq<T>, v: T)
    ensures
        (seq![v] + s).len() > 0,
        (seq![v] + s)[0] == v,
        (seq![v] + s).drop_first() == s,
{
    assert((seq![v] + s).drop_first() =~= s);
}

} // verus!
