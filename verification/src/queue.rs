//! A first-in-first-out queue kept as a singly linked chain of nodes.
//!
//! The nodes live in one vector and link to each other by position. `head` is
//! the position of the oldest node and `tail` that of the newest, so a value
//! is appended without walking the chain. A node whose value has been taken
//! joins a second chain of spare nodes and is used again by a later append.
//!
//! The queue is modelled by a `Seq<T>` whose index 0 is the head.

use crate::model::{front, lemma_rest_after, rest, rest_after};
use vstd::prelude::*;

verus! {

struct Node<T> {
    /// The queued value; `None` while the node is spare.
    data: Option<T>,
    next: Option<usize>,
}

impl<T> Node<T> {
    fn new(data: T) -> (node: Self)
        ensures
            node.data == Some(data),
            node.next is None,
    {
        Self { data: Some(data), next: None }
    }
}

/// `slots` lists the positions of one chain in `nodes`: it starts at `first`,
/// each node links to the one listed after it, and the last node links to
/// nothing. No position is listed twice.
spec fn is_chain<T>(nodes: Seq<Node<T>>, first: Option<usize>, slots: Seq<usize>) -> bool {
    &&& first == if slots.len() == 0 {
        None
    } else {
        Some(slots[0])
    }
    &&& forall|i: int| 0 <= i < slots.len() ==> (#[trigger] slots[i]) < nodes.len()
    &&& forall|i: int|
        0 <= i < slots.len() ==> (#[trigger] nodes[slots[i] as int]).next == if i + 1
            < slots.len() {
            Some(slots[i + 1])
        } else {
            None
        }
    &&& forall|i: int, j: int| 0 <= i < j < slots.len() ==> slots[i] != slots[j]
}

/// The values held by the nodes at `slots`, in that order.
spec fn values_at<T>(nodes: Seq<Node<T>>, slots: Seq<usize>) -> Seq<T> {
    Seq::new(slots.len(), |i: int| nodes[slots[i] as int].data.unwrap())
}

pub struct Queue<T> {
    nodes: Vec<Node<T>>,
    head: Option<usize>,
    tail: Option<usize>,
    spare: Option<usize>,
    /// Positions of the nodes that hold the queued values, head first.
    live: Ghost<Seq<usize>>,
    /// Positions of the spare nodes, in the order of their chain.
    idle: Ghost<Seq<usize>>,
}

/// The contents of a queue that held `contents` once the values of `items`
/// have been enqueued, first to last.
pub open spec fn after_enqueues<T>(contents: Seq<T>, items: Seq<T>) -> Seq<T>
    decreases items.len(),
{
    if items.len() == 0 {
        contents
    } else {
        after_enqueues(contents, items.drop_last()).push(items.last())
    }
}

impl<T> View for Queue<T> {
    type V = Seq<T>;

    /// The queued values, oldest first.
    closed spec fn view(&self) -> Seq<T> {
        values_at(self.nodes@, self.live@)
    }
}

impl<T> Queue<T> {
    /// The chain from `head` holds the queued values and ends at `tail`, the
    /// chain from `spare` holds none, and every node is on one of the two.
    #[verifier::type_invariant]
    spec fn well_formed(self) -> bool {
        &&& is_chain(self.nodes@, self.head, self.live@)
        &&& is_chain(self.nodes@, self.spare, self.idle@)
        &&& self.tail == if self.live@.len() == 0 {
            None
        } else {
            Some(self.live@.last())
        }
        &&& forall|i: int|
            0 <= i < self.live@.len() ==> (#[trigger] self.nodes@[self.live@[i] as int]).data
                is Some
        &&& forall|i: int|
            0 <= i < self.idle@.len() ==> (#[trigger] self.nodes@[self.idle@[i] as int]).data
                is None
        &&& self.live@.len() + self.idle@.len() == self.nodes@.len()
    }

    pub fn new() -> (queue: Self)
        ensures
            queue@ == Seq::<T>::empty(),
    {
        Self {
            nodes: Vec::new(),
            head: None,
            tail: None,
            spare: None,
            live: Ghost(Seq::empty()),
            idle: Ghost(Seq::empty()),
        }
    }

    /// Appends `data` behind everything already queued.
    pub fn enqueue(&mut self, data: T)
        ensures
            final(self)@ == old(self)@.push(data),
    {
        proof {
            use_type_invariant(&*self);
        }
        // The links are rewritten one at a time, and half-way through they
        // do not form a queue. So the parts are taken out, relinked, and put
        // back as a whole; `self` is an empty queue in the meantime.
        let mut parts = Self::new();
        std::mem::swap(self, &mut parts);
        let Queue { mut nodes, mut head, tail, mut spare, live, idle } = parts;
        let ghost before = nodes@;
        let node = Node::new(data);
        let slot: usize;
        let ghost mut idle_now = idle@;
        match spare {
            Some(reused) => {
                // A spare node is taken from the front of its chain.
                slot = reused;
                spare = nodes[reused].next;
                nodes[reused] = node;
                proof {
                    idle_now = idle@.drop_first();
                }
            },
            None => {
                slot = nodes.len();
                nodes.push(node);
            },
        }
        match tail {
            Some(last) => {
                nodes[last].next = Some(slot);
            },
            None => {
                head = Some(slot);
            },
        }
        let ghost live_now = live@.push(slot);
        proof {
            assert(values_at(nodes@, live_now) =~= values_at(before, live@).push(data));
        }
        *self = Queue {
            nodes,
            head,
            tail: Some(slot),
            spare,
            live: Ghost(live_now),
            idle: Ghost(idle_now),
        };
    }

    /// Takes the oldest value out of the queue; an empty queue gives `None`
    /// and stays empty.
    pub fn dequeue(&mut self) -> (result: Option<T>)
        ensures
            result == front(old(self)@),
            final(self)@ == rest(old(self)@),
    {
        proof {
            use_type_invariant(&*self);
        }
        let first = match self.head {
            Some(first) => first,
            None => {
                return None;
            },
        };
        let mut parts = Self::new();
        std::mem::swap(self, &mut parts);
        let Queue { mut nodes, head: _, mut tail, spare, live, idle } = parts;
        let ghost before = nodes@;
        let data = nodes[first].data.take();
        let head = nodes[first].next;
        if head.is_none() {
            tail = None;
        }
        // The emptied node goes to the front of the spare chain.
        nodes[first].next = spare;
        let ghost live_now = live@.drop_first();
        proof {
            assert(values_at(nodes@, live_now) =~= values_at(before, live@).drop_first());
        }
        *self = Queue {
            nodes,
            head,
            tail,
            spare: Some(first),
            live: Ghost(live_now),
            idle: Ghost(seq![first] + idle@),
        };
        data
    }

    /// Counts the values by walking the chain from the head.
    pub fn size(&self) -> (count: usize)
        ensures
            count == self@.len(),
    {
        proof {
            use_type_invariant(self);
        }
        let mut count: usize = 0;
        let mut current = self.head;
        loop
            invariant
                self.well_formed(),
                count <= self.live@.len() <= self.nodes.len(),
                current == if count < self.live@.len() {
                    Some(self.live@[count as int])
                } else {
                    None
                },
            ensures
                count == self.live@.len(),
            decreases self.live@.len() - count,
        {
            match current {
                Some(slot) => {
                    count += 1;
                    current = self.nodes[slot].next;
                },
                None => {
                    break ;
                },
            }
        }
        count
    }

    /// A traversal from the head to the tail that leaves the queue untouched.
    pub fn iter(&self) -> (iter: QueueIterator<'_, T>)
        ensures
            iter@ == self@,
    {
        proof {
            use_type_invariant(self);
            assert(self.live@.subrange(0, self.live@.len() as int) =~= self.live@);
        }
        QueueIterator { queue: self, current: self.head, passed: Ghost(0) }
    }
}

impl<T> Default for Queue<T> {
    fn default() -> (queue: Self)
        ensures
            queue@ == Seq::<T>::empty(),
    {
        Self::new()
    }
}

pub struct QueueIterator<'a, T> {
    queue: &'a Queue<T>,
    current: Option<usize>,
    /// How many nodes of the chain lie behind `current`.
    passed: Ghost<int>,
}

impl<'a, T> View for QueueIterator<'a, T> {
    type V = Seq<T>;

    /// The values still to come, next one first.
    closed spec fn view(&self) -> Seq<T> {
        values_at(
            self.queue.nodes@,
            self.queue.live@.subrange(self.passed@, self.queue.live@.len() as int),
        )
    }
}

impl<'a, T> QueueIterator<'a, T> {
    /// `current` is the position of the node that `passed` steps from the
    /// head lead to, or nothing once the whole chain has been walked.
    #[verifier::type_invariant]
    spec fn well_formed(self) -> bool {
        &&& self.queue.well_formed()
        &&& 0 <= self.passed@ <= self.queue.live@.len()
        &&& self.current == if self.passed@ < self.queue.live@.len() {
            Some(self.queue.live@[self.passed@])
        } else {
            None
        }
    }
}

impl<'a, T> Iterator for QueueIterator<'a, T> {
    type Item = &'a T;

    /// Hands out the next value and steps past it; at the end it stays at
    /// the end.
    fn next(&mut self) -> (item: Option<&'a T>)
        ensures
            match item {
                Some(value) => front(old(self)@) == Some(*value),
                None => front(old(self)@) is None,
            },
            final(self)@ == rest(old(self)@),
    {
        proof {
            use_type_invariant(&*self);
        }
        match self.current {
            Some(slot) => {
                let queue = self.queue;
                let node = &queue.nodes[slot];
                let ghost remaining = self@;
                *self = QueueIterator {
                    queue,
                    current: node.next,
                    passed: Ghost(self.passed@ + 1),
                };
                proof {
                    assert(self@ =~= remaining.drop_first());
                }
                node.data.as_ref()
            },
            None => None,
        }
    }
}

impl<'a, T> vstd::std_specs::iter::IteratorSpecImpl for QueueIterator<'a, T> {
    open spec fn obeys_prophetic_iter_laws(&self) -> bool {
        true
    }

    open spec fn remaining(&self) -> Seq<Self::Item> {
        self@.map_values(|value: T| &value)
    }

    open spec fn will_return_none(&self) -> bool {
        true
    }

    open spec fn decrease(&self) -> Option<nat> {
        Some(self@.len())
    }

    open spec fn initial_value_relation(&self, init: &Self) -> bool {
        self@ == init@
    }

    open spec fn peek(&self, index: int) -> Option<Self::Item> {
        if 0 <= index < self@.len() {
            Some(&self@[index])
        } else {
            None
        }
    }
}

/// A run of enqueues lines the new values up behind the ones already
/// queued, in the order in which they arrived.
pub proof fn lemma_enqueues_append<T>(contents: Seq<T>, items: Seq<T>)
    ensures
        after_enqueues(contents, items) == contents + items,
    decreases items.len(),
{
    if items.len() > 0 {
        lemma_enqueues_append(contents, items.drop_last());
        assert((contents + items.drop_last()).push(items.last()) =~= contents + items);
    } else {
        assert(contents =~= contents + items);
    }
}

/// First in, first out. Enqueue the values of `items` on an empty queue and
/// then dequeue as many times: dequeue number `k`, counting from 0, returns
/// `items[k]`. The queue is then empty, and a further dequeue returns nothing.
pub proof fn lemma_first_in_first_out<T>(items: Seq<T>)
    ensures
        forall|k: nat|
            k < items.len() ==> front(
                #[trigger] rest_after(after_enqueues(Seq::<T>::empty(), items), k),
            ) == Some(items[k as int]),
        rest_after(after_enqueues(Seq::<T>::empty(), items), items.len()).len() == 0,
        front(rest_after(after_enqueues(Seq::<T>::empty(), items), items.len())) is None,
{
    let filled = after_enqueues(Seq::<T>::empty(), items);
    lemma_enqueues_append(Seq::<T>::empty(), items);
    assert(filled =~= items);
    assert forall|k: nat| k < items.len() implies front(#[trigger] rest_after(filled, k)) == Some(
        items[k as int],
    ) by {
        lemma_rest_after(filled, k);
    }
    lemma_rest_after(filled, items.len());
}

/// A queue that was empty and has taken in `items.len()` values, with no
/// removal in between, holds exactly that many.
pub proof fn lemma_size_counts_enqueues<T>(items: Seq<T>)
    ensures
        after_enqueues(Seq::<T>::empty(), items).len() == items.len(),
{
    lemma_enqueues_append(Seq::<T>::empty(), items);
}

} // verus!
