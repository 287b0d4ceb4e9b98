//! The first-in, first-out queue of work that the worker pool shares.

use vstd::prelude::*;
use std::collections::VecDeque;

verus! {

/// A step on a queue: `Some(x)` enqueues `x`, `None` dequeues.
pub type QueueStep<T> = Option<T>;

/// The queue's contents and the items dequeued, in order, after `steps` on
/// an empty queue.
pub open spec fn run<T>(steps: Seq<QueueStep<T>>) -> (Seq<T>, Seq<T>)
    decreases steps.len(),
{
    if steps.len() == 0 {
        (seq![], seq![])
    } else {
        let (q, out) = run(steps.drop_last());
        match steps.last() {
            Some(x) => (q.push(x), out),
            None => if q.len() > 0 {
                (q.subrange(1, q.len() as int), out.push(q[0]))
            } else {
                (q, out)
            },
        }
    }
}

/// The items that `steps` enqueue, in order.
pub open spec fn enqueued<T>(steps: Seq<QueueStep<T>>) -> Seq<T>
    decreases steps.len(),
{
    if steps.len() == 0 {
        seq![]
    } else {
        match steps.last() {
            Some(x) => enqueued(steps.drop_last()).push(x),
            None => enqueued(steps.drop_last()),
        }
    }
}

/// First in, first out: whatever the steps, the items dequeued are the
/// items enqueued, in the order they were enqueued, and the queue holds the
/// rest; the k-th item enqueued is the k-th dequeued.
pub proof fn law_fifo<T>(steps: Seq<QueueStep<T>>)
    ensures
        run(steps).1 + run(steps).0 == enqueued(steps),
    decreases steps.len(),
{
    if steps.len() > 0 {
        law_fifo(steps.drop_last());
        let (q, out) = run(steps.drop_last());
        match steps.last() {
            Some(x) => {
                assert(out + q.push(x) =~= (out + q).push(x));
            },
            None => {
                if q.len() > 0 {
                    assert(out.push(q[0]) + q.subrange(1, q.len() as int) =~= out + q);
                }
            },
        }
    }
}

/// A first-in, first-out queue.
pub struct Queue<T> {
    container: VecDeque<T>,
}

impl<T> View for Queue<T> {
    type V = Seq<T>;

    closed spec fn view(&self) -> Seq<T> {
        self.container@
    }
}

impl<T> Queue<T> {
    /// An empty queue.
    pub fn new() -> (r: Queue<T>)
        ensures
            r@ == Seq::<T>::empty(),
    {
        Queue { container: VecDeque::new() }
    }

    /// Adds `item` at the back.
    pub fn enqueue(&mut self, item: T)
        ensures
            final(self)@ == old(self)@.push(item),
    {
        self.container.push_back(item);
    }

    /// Removes the item at the front, or gives `None` when there is none.
    pub fn dequeue(&mut self) -> (r: Option<T>)
        ensures
            old(self)@.len() == 0 ==> r is None && final(self)@ == old(self)@,
            old(self)@.len() > 0 ==> r == Some(old(self)@[0]) && final(self)@ == old(
                self,
            )@.subrange(1, old(self)@.len() as int),
    {
        self.container.pop_front()
    }

    /// The number of items.
    pub fn len(&self) -> (r: usize)
        ensures
            r == self@.len(),
    {
        self.container.len()
    }

    /// Whether the queue holds no item.
    pub fn is_empty(&self) -> (r: bool)
        ensures
            r == (self@.len() == 0),
    {
        self.len() == 0
    }
}

} // verus!
