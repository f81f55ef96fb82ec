//! A last-in-first-out stack kept as a singly linked chain of boxed nodes.
//!
//! The stack is modelled by a `Seq<T>` whose index 0 is the top, so the model
//! lists the values in the order in which `pop` would hand them out.

use crate::model::{front, lemma_rest_after, rest, rest_after};
use vstd::prelude::*;

verus! {

#[derive(Debug)]
struct Node<T> {
    item: T,
    next: Option<Box<Node<T>>>,
}

/// The values held by a chain of nodes, first node first.
spec fn chain_items<T>(link: Option<Box<Node<T>>>) -> Seq<T>
    decreases link,
{
    match link {
        None => Seq::empty(),
        Some(node) => seq![node.item] + chain_items(node.next),
    }
}

#[derive(Debug)]
pub struct Stack<T> {
    top: Option<Box<Node<T>>>,
}

#[derive(Debug, PartialEq, Eq, Structural)]
pub enum StackError {
    EmptyStack,
}

/// What `pop` returns on a stack that holds `contents`.
pub open spec fn pop_result<T>(contents: Seq<T>) -> Result<T, StackError> {
    match front(contents) {
        Some(item) => Ok(item),
        None => Err(StackError::EmptyStack),
    }
}

/// The contents of a stack that held `contents` once the values of `items`
/// have been pushed, first to last.
pub open spec fn after_pushes<T>(contents: Seq<T>, items: Seq<T>) -> Seq<T>
    decreases items.len(),
{
    if items.len() == 0 {
        contents
    } else {
        seq![items.last()] + after_pushes(contents, items.drop_last())
    }
}

impl<T> View for Stack<T> {
    type V = Seq<T>;

    /// The values on the stack, most recently pushed first.
    closed spec fn view(&self) -> Seq<T> {
        chain_items(self.top)
    }
}

impl<T> Stack<T> {
    pub fn new() -> (stack: Self)
        ensures
            stack@ == Seq::<T>::empty(),
    {
        Self { top: None }
    }

    /// Puts `item` on top of everything already on the stack.
    pub fn push(&mut self, item: T)
        ensures
            final(self)@ == seq![item] + old(self)@,
    {
        let new_node = Box::new(Node { item, next: self.top.take() });
        self.top = Some(new_node);
    }

    /// Takes the top value off the stack, or reports that there is none and
    /// leaves the stack as it was.
    pub fn pop(&mut self) -> (result: Result<T, StackError>)
        ensures
            result == pop_result(old(self)@),
            final(self)@ == rest(old(self)@),
    {
        if self.is_empty() {
            return Err(StackError::EmptyStack);
        }
        match self.top.take() {
            None => Err(StackError::EmptyStack),
            Some(node) => {
                let Node { item, next } = *node;
                self.top = next;
                Ok(item)
            },
        }
    }

    pub fn is_empty(&self) -> (empty: bool)
        ensures
            empty <==> self@.len() == 0,
    {
        self.top.is_none()
    }

    /// The top value, left in place.
    pub fn peek(&self) -> (top: Option<&T>)
        ensures
            match top {
                Some(item) => front(self@) == Some(*item),
                None => front(self@) is None,
            },
    {
        match &self.top {
            None => None,
            Some(node) => Some(&node.item),
        }
    }

    /// Counts the values by walking the chain from the top.
    pub fn size(&self) -> (count: usize)
        requires
            self@.len() <= usize::MAX,
        ensures
            count == self@.len(),
    {
        let mut count: usize = 0;
        let mut current = &self.top;
        loop
            invariant
                count + chain_items(*current).len() == self@.len(),
                self@.len() <= usize::MAX,
            ensures
                count == self@.len(),
            decreases chain_items(*current).len(),
        {
            match current {
                Some(node) => {
                    count += 1;
                    current = &node.next;
                },
                None => {
                    break ;
                },
            }
        }
        count
    }

    /// A traversal from the top down that leaves the stack untouched.
    pub fn iter(&self) -> (iter: StackItereator<'_, T>)
        ensures
            iter@ == self@,
    {
        StackItereator::new(&self.top)
    }
}

impl<T> Default for Stack<T> {
    fn default() -> (stack: Self)
        ensures
            stack@ == Seq::<T>::empty(),
    {
        Self::new()
    }
}

impl<T> Drop for Stack<T> {
    /// Releases the chain one node at a time, so that the depth of the call
    /// stack does not grow with the length of the chain.
    fn drop(&mut self)
        opens_invariants none
        no_unwind
    {
        let mut link = None;
        std::mem::swap(&mut link, &mut self.top);
        loop
            decreases chain_items(link).len(),
        {
            match link {
                Some(node) => {
                    let Node { next, .. } = *node;
                    link = next;
                },
                None => {
                    break ;
                },
            }
        }
    }
}

pub struct StackItereator<'a, T> {
    current: &'a Option<Box<Node<T>>>,
}

impl<'a, T> View for StackItereator<'a, T> {
    type V = Seq<T>;

    /// The values still to come, next one first.
    closed spec fn view(&self) -> Seq<T> {
        chain_items(*self.current)
    }
}

impl<'a, T> StackItereator<'a, T> {
    fn new(top: &'a Option<Box<Node<T>>>) -> (iter: Self)
        ensures
            iter@ == chain_items(*top),
    {
        Self { current: top }
    }

}

impl<'a, T> Iterator for StackItereator<'a, T> {
    type Item = &'a T;

    /// Hands out the next value and steps past it; at the end it stays at
    /// the end.
    fn next(&mut self) -> (item: Option<&'a T>)
        ensures
            match item {
                Some(value) => front(old(self)@) == Some(*value),
                None => front(old(self)@) is None,
            },
            final(self)@ == rest(old(self)@),
    {
        match self.current {
            Some(node) => {
                self.current = &node.next;
                Some(&node.item)
            },
            None => None,
        }
    }
}

impl<'a, T> vstd::std_specs::iter::IteratorSpecImpl for StackItereator<'a, T> {
    open spec fn obeys_prophetic_iter_laws(&self) -> bool {
        true
    }

    open spec fn remaining(&self) -> Seq<Self::Item> {
        self@.map_values(|value: T| &value)
    }

    open spec fn will_return_none(&self) -> bool {
        true
    }

    open spec fn decrease(&self) -> Option<nat> {
        Some(self@.len())
    }

    open spec fn initial_value_relation(&self, init: &Self) -> bool {
        self@ == init@
    }

    open spec fn peek(&self, index: int) -> Option<Self::Item> {
        if 0 <= index < self@.len() {
            Some(&self@[index])
        } else {
            None
        }
    }
}

/// A run of pushes piles the new values on top of the ones already there,
/// the last one pushed uppermost.
pub proof fn lemma_pushes_pile_up<T>(contents: Seq<T>, items: Seq<T>)
    ensures
        after_pushes(contents, items) == items.reverse() + contents,
    decreases items.len(),
{
    if items.len() > 0 {
        lemma_pushes_pile_up(contents, items.drop_last());
        assert(seq![items.last()] + (items.drop_last().reverse() + contents) =~= items.reverse()
            + contents);
    } else {
        assert(contents =~= items.reverse() + contents);
    }
}

/// Last in, first out. Push the values of `items` and then pop as many times:
/// pop number `k`, counting from 0, returns the value that was pushed `k`
/// places before the last one. The stack then holds what it held before the
/// pushes; if that was nothing, it is empty and a further pop fails with
/// `EmptyStack`.
pub proof fn lemma_last_in_first_out<T>(contents: Seq<T>, items: Seq<T>)
    ensures
        forall|k: nat|
            k < items.len() ==> pop_result(
                #[trigger] rest_after(after_pushes(contents, items), k),
            ) == Ok::<T, StackError>(items[items.len() - 1 - k]),
        rest_after(after_pushes(contents, items), items.len()) == contents,
        contents.len() == 0 ==> pop_result(
            rest_after(after_pushes(contents, items), items.len()),
        ) == Err::<T, StackError>(StackError::EmptyStack),
{
    let piled = after_pushes(contents, items);
    lemma_pushes_pile_up(contents, items);
    assert forall|k: nat| k < items.len() implies pop_result(#[trigger] rest_after(piled, k))
        == Ok::<T, StackError>(items[items.len() - 1 - k]) by {
        lemma_rest_after(piled, k);
    }
    lemma_rest_after(piled, items.len());
    assert(piled.subrange(items.len() as int, piled.len() as int) =~= contents);
}

/// A stack that was empty and has taken in `items.len()` values, with no
/// removal in between, holds exactly that many.
pub proof fn lemma_size_counts_pushes<T>(items: Seq<T>)
    ensures
        after_pushes(Seq::<T>::empty(), items).len() == items.len(),
{
    lemma_pushes_pile_up(Seq::<T>::empty(), items);
}

} // verus!
