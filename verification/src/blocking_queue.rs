//! A first-in, first-out queue.
//!
//! The queue itself is plain data: whoever shares it between threads holds
//! it behind a lock and calls these methods with the lock taken.

use std::collections::VecDeque;
use vstd::prelude::*;

verus! {

/// A queue that hands its items out in the order in which they were added.
pub struct BlockingQueue<T> {
    queue: VecDeque<T>,
}

impl<T> View for BlockingQueue<T> {
    type V = Seq<T>;

    /// The items waiting in the queue, oldest first.
    closed spec fn view(&self) -> Seq<T> {
        self.queue@
    }
}

impl<T> BlockingQueue<T> {
    /// An empty queue.
    pub fn new() -> (queue: BlockingQueue<T>)
        ensures
            queue@ == Seq::<T>::empty(),
    {
        BlockingQueue { queue: VecDeque::new() }
    }

    /// Puts `item` at the end of the queue.
    pub fn add(&mut self, item: T)
        ensures
            final(self)@ == old(self)@.push(item),
    {
        self.queue.push_back(item);
    }

    /// Takes the oldest item out of the queue; `None` if the queue is empty.
    pub fn poll(&mut self) -> (item: Option<T>)
        ensures
            old(self)@.len() == 0 ==> item.is_none() && final(self)@ == old(self)@,
            old(self)@.len() > 0 ==> item == Some(old(self)@[0]) && final(self)@ == old(
                self,
            )@.subrange(1, old(self)@.len() as int),
    {
        self.queue.pop_front()
    }

    /// Throws away all items.
    pub fn clear(&mut self)
        ensures
            final(self)@ == Seq::<T>::empty(),
    {
        self.queue.clear();
    }

    /// Whether no item is waiting.
    pub fn is_empty(&self) -> (empty: bool)
        ensures
            empty == (self@.len() == 0),
    {
        self.queue.len() == 0
    }
}

/// Items leave the queue in the order in which they were added: after
/// `items` were added to an empty queue, the `i`-th poll gives `items[i]`.
pub proof fn law_first_in_first_out<T>(items: Seq<T>, i: int)
    requires
        0 <= i < items.len(),
    ensures
        added(Seq::<T>::empty(), items).subrange(i, items.len() as int)[0] == items[i],
        added(Seq::<T>::empty(), items) == items,
    decreases items.len(),
{
    lemma_added(Seq::<T>::empty(), items);
}

/// The queue after `items` were added one after the other.
pub open spec fn added<T>(queue: Seq<T>, items: Seq<T>) -> Seq<T>
    decreases items.len(),
{
    if items.len() == 0 {
        queue
    } else {
        added(queue, items.drop_last()).push(items.last())
    }
}

/// Adding items one after the other appends them in their order.
pub proof fn lemma_added<T>(queue: Seq<T>, items: Seq<T>)
    ensures
        added(queue, items) == queue + items,
    decreases items.len(),
{
    if items.len() == 0 {
        assert(queue + items =~= queue);
    } else {
        lemma_added(queue, items.drop_last());
        assert(queue + items =~= (queue + items.drop_last()).push(items.last()));
    }
}

} // verus!
