//! A singly-linked stack of boxed nodes, with consuming, shared and
//! mutable iteration.
use vstd::prelude::*;

verus! {

// All nodes are boxed, so moving a stack only moves a pointer.
pub struct Stack<T> {
    head: Link<T>,
}

type Link<T> = Option<Box<Node<T>>>;

/// A node of a stack: a value and the rest of the stack below it.
pub struct Node<T> {
    val: T,
    next: Link<T>,
}

/// The values from `link` on, the first one first.
spec fn link_view<T>(link: Link<T>) -> Seq<T>
    decreases link,
{
    match link {
        Some(node) => seq![node.val] + link_view(node.next),
        None => Seq::empty(),
    }
}

impl<T> View for Stack<T> {
    type V = Seq<T>;

    /// The values on the stack, top first.
    closed spec fn view(&self) -> Seq<T> {
        link_view(self.head)
    }
}

impl<T> Stack<T> {
    pub fn new() -> (s: Self)
        ensures
            s@ == Seq::<T>::empty(),
    {
        Stack { head: None }
    }

    /// Removes the top value and returns it, or `None` on an empty stack.
    pub fn pop(&mut self) -> (top: Option<T>)
        ensures
            old(self)@.len() == 0 ==> top is None && final(self)@ == old(self)@,
            old(self)@.len() > 0 ==> top == Some(old(self)@[0]) && final(self)@ == old(
                self,
            )@.drop_first(),
    {
        match self.head.take() {
            Some(node) => {
                let node = *node;
                self.head = node.next;
                proof {
                    assert(old(self)@ =~= seq![node.val] + self@);
                }
                Some(node.val)
            },
            None => None,
        }
    }

    /// Puts `val` on top.
    pub fn push(&mut self, val: T)
        ensures
            final(self)@ == seq![val] + old(self)@,
    {
        let new_head = Box::new(Node { val, next: self.head.take() });

        self.head = Some(new_head);
    }

    /// The top value, or `None` on an empty stack.
    pub fn peek(&mut self) -> (top: Option<&T>)
        ensures
            final(self)@ == old(self)@,
            old(self)@.len() == 0 ==> top is None,
            old(self)@.len() > 0 ==> top == Some(&old(self)@[0]),
    {
        match &self.head {
            Some(node) => Some(&node.val),
            None => None,
        }
    }

    /// A mutable reference to the top value, or `None` on an empty stack.
    pub fn peek_mut(&mut self) -> (top: Option<&mut T>)
        ensures
            old(self)@.len() == 0 ==> top is None && final(self)@ == old(self)@,
            old(self)@.len() > 0 ==> top is Some && *top->0 == old(self)@[0] && final(self)@
                == old(self)@.update(0, *final(top->0)),
    {
        match &mut self.head {
            Some(node) => Some(&mut node.val),
            None => None,
        }
    }

    /// Iterates by value, top first.
    pub fn into_iter(self) -> (it: IntoIter<T>)
        ensures
            it@ == self@,
    {
        IntoIter(self)
    }

    /// Iterates by mutable reference, top first. When the walk is done
    /// with, the stack holds what was written through the references
    /// that the walk handed out.
    pub fn iter_mut(&mut self) -> (it: IterMut<'_, T>)
        ensures
            it@ == old(self)@,
            it.cursor() is Some <==> it@.len() > 0,
            it.cursor() is None ==> final(self)@ == old(self)@,
            it.cursor() is Some ==> final(self)@ == node_view(*final(it.cursor()->0)),
    {
        IterMut {
            cur_node: match &mut self.head {
                Some(node) => Some(&mut **node),
                None => None,
            },
        }
    }

    /// Iterates by reference, top first.
    pub fn iter(&self) -> (it: Iter<'_, T>)
        ensures
            it@ == self@,
    {
        Iter {
            cur_node: match &self.head {
                Some(node) => Some(&**node),
                None => None,
            },
        }
    }
}

impl<T> Drop for Stack<T> {
    /// Frees the nodes one at a time, so that dropping a long stack
    /// takes no deep chain of nested drops.
    fn drop(&mut self)
        opens_invariants none
        no_unwind
    {
        let mut head: Link<T> = None;
        std::mem::swap(&mut head, &mut self.head);
        loop
            decreases link_view(head).len(),
        {
            match head {
                Some(node) => {
                    let node = *node;
                    head = node.next;
                },
                None => break,
            }
        }
    }
}

/// Hands out the values of a stack, top first.
pub struct IntoIter<T>(Stack<T>);

impl<T> View for IntoIter<T> {
    type V = Seq<T>;

    /// The values not handed out yet.
    closed spec fn view(&self) -> Seq<T> {
        self.0@
    }
}

impl<T> IntoIter<T> {
    pub fn next(&mut self) -> (item: Option<T>)
        ensures
            old(self)@.len() == 0 ==> item is None && final(self)@ == old(self)@,
            old(self)@.len() > 0 ==> item == Some(old(self)@[0]) && final(self)@ == old(
                self,
            )@.drop_first(),
    {
        self.0.pop()
    }
}

/// Walks a stack by reference, top first.
pub struct Iter<'a, T> {
    cur_node: Option<&'a Node<T>>,
}

impl<'a, T> View for Iter<'a, T> {
    type V = Seq<T>;

    /// The values not visited yet.
    closed spec fn view(&self) -> Seq<T> {
        match self.cur_node {
            Some(node) => seq![node.val] + link_view(node.next),
            None => Seq::empty(),
        }
    }
}

impl<'a, T> Iter<'a, T> {
    pub fn next(&mut self) -> (item: Option<&'a T>)
        ensures
            old(self)@.len() == 0 ==> item is None && final(self)@ == old(self)@,
            old(self)@.len() > 0 ==> item == Some(&old(self)@[0]) && final(self)@ == old(
                self,
            )@.drop_first(),
    {
        match self.cur_node {
            Some(node) => {
                self.cur_node = match &node.next {
                    Some(next) => Some(&**next),
                    None => None,
                };
                proof {
                    assert(old(self)@.drop_first() =~= self@);
                }
                Some(&node.val)
            },
            None => None,
        }
    }
}

/// The values from `node` on.
pub closed spec fn node_view<T>(node: Node<T>) -> Seq<T> {
    seq![node.val] + link_view(node.next)
}

/// Walks a stack by mutable reference, top first.
pub struct IterMut<'a, T> {
    cur_node: Option<&'a mut Node<T>>,
}

impl<'a, T> View for IterMut<'a, T> {
    type V = Seq<T>;

    closed spec fn view(&self) -> Seq<T> {
        match self.cur_node {
            Some(node) => seq![node.val] + link_view(node.next),
            None => Seq::empty(),
        }
    }
}

impl<'a, T> IterMut<'a, T> {
    /// The node the walk stands at, if any.
    pub closed spec fn cursor(self) -> Option<&'a mut Node<T>> {
        self.cur_node
    }

    /// Hands out the next value by mutable reference; what is written
    /// through it becomes that value of the stack.
    pub fn next(&mut self) -> (item: Option<&'a mut T>)
        ensures
            old(self)@.len() == 0 ==> item is None && final(self)@ == old(self)@,
            old(self)@.len() > 0 ==> item is Some && *item->0 == old(self)@[0] && final(self)@ == old(
                self,
            )@.drop_first(),
            final(self).cursor() is Some <==> final(self)@.len() > 0,
            old(self).cursor() is Some <==> old(self)@.len() > 0,
            old(self).cursor() is Some ==> node_view(*final(old(self).cursor()->0)) == seq![
                *final(item->0),
            ] + (if final(self).cursor() is Some {
                node_view(*final(final(self).cursor()->0))
            } else {
                Seq::<T>::empty()
            }),
    {
        match self.cur_node.take() {
            Some(node) => {
                self.cur_node = match &mut node.next {
                    Some(next) => Some(&mut **next),
                    None => None,
                };
                Some(&mut node.val)
            },
            None => None,
        }
    }
}

/// Last in, first out: popping right after pushing `v` gives `v` back
/// and leaves the stack as it was.
pub proof fn lemma_push_then_pop<T>(s: Seq<T>, v: T)
    ensures
        (seq![v] + s).len() > 0,
        (seq![v] + s)[0] == v,
        (seq![v] + s).drop_first() == s,
{
    assert((seq![v] + s).drop_first() =~= s);
}

/// The values left after `k` calls of `next` (or of `pop`) on `xs`.
pub open spec fn after_nexts<T>(xs: Seq<T>, k: nat) -> Seq<T>
    decreases k,
{
    if k == 0 {
        xs
    } else {
        let prev = after_nexts(xs, (k - 1) as nat);
        if prev.len() == 0 {
            prev
        } else {
            prev.drop_first()
        }
    }
}

/// Iterating by value hands the stack out top first, then `None`: the
/// call after `k` calls gives value `k` of the stack, or `None`.
pub proof fn lemma_into_iter_in_order<T>(xs: Seq<T>, k: nat)
    ensures
        after_nexts(xs, k) == if k <= xs.len() {
            xs.skip(k as int)
        } else {
            Seq::<T>::empty()
        },
        after_nexts(xs, k).len() > 0 <==> k < xs.len(),
        k < xs.len() ==> after_nexts(xs, k)[0] == xs[k as int],
    decreases k,
{
    if k > 0 {
        lemma_into_iter_in_order(xs, (k - 1) as nat);
        if k <= xs.len() {
            assert(xs.skip(k - 1).drop_first() =~= xs.skip(k as int));
        }
    } else {
        assert(xs.skip(0) =~= xs);
    }
}

} // verus!
