//! A singly linked stack of integers.
//!
//! A small self-contained exercise that ships alongside the allocator; it
//! does not take part in collection.

use vstd::prelude::*;

verus! {

struct Node {
    elem: i32,
    next: Option<Box<Node>>,
}

/// A last-in, first-out list of `i32` values.
pub struct List {
    head: Option<Box<Node>>,
}

/// The values hanging off one link, most recently pushed first.
spec fn link_view(link: Option<Box<Node>>) -> Seq<i32>
    decreases link,
{
    match link {
        None => Seq::empty(),
        Some(node) => seq![node.elem] + link_view(node.next),
    }
}

impl View for List {
    type V = Seq<i32>;

    closed spec fn view(&self) -> Seq<i32> {
        link_view(self.head)
    }
}

impl List {
    /// Creates an empty list.
    pub fn new() -> (r: List)
        ensures
            r@ =~= Seq::<i32>::empty(),
    {
        List { head: None }
    }

    /// Pushes `elem` on top of the list.
    pub fn push(&mut self, elem: i32)
        ensures
            final(self)@ == seq![elem] + old(self)@,
    {
        let next = self.head.take();
        proof {
            assert(link_view(next) == old(self)@);
        }
        let new_node = Box::new(Node { elem, next });
        self.head = Some(new_node);
    }

    /// Pops the most recently pushed value, or nothing from an empty list.
    pub fn pop(&mut self) -> (r: Option<i32>)
        ensures
            old(self)@.len() == 0 ==> r == None::<i32> && final(self)@ == old(self)@,
            old(self)@.len() > 0 ==> r == Some(old(self)@[0]) && final(self)@ == old(
                self,
            )@.drop_first(),
    {
        match self.head.take() {
            None => None,
            Some(node) => {
                proof {
                    assert(old(self)@ == seq![node.elem] + link_view(node.next));
                    assert(old(self)@.drop_first() =~= link_view(node.next));
                }
                self.head = node.next;
                Some(node.elem)
            },
        }
    }
}

} // verus!
