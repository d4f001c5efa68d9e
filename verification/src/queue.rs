//! The queue fabric's functional core: a bounded FIFO of batches, owned by
//! exactly one consuming stage.  The fabric never splits, merges, drops or
//! reorders batches; a send is admitted exactly when the queue is below its
//! bound, which is what gives producers backpressure.

use vstd::prelude::*;

verus! {

/// A bounded FIFO channel of batches.  The read end belongs to one stage;
/// any number of producers may hold the write end.
pub struct BoundedQueue<T> {
    pub items: Vec<T>,
    pub cap: usize,
}

/// A send is admitted exactly when the queue is below its bound.
pub open spec fn can_send<T>(q: BoundedQueue<T>) -> bool {
    q.items@.len() < q.cap
}

impl<T> BoundedQueue<T> {
    /// The queue never holds more than its bound, and the bound is at
    /// least one slot.
    pub open spec fn wf(&self) -> bool {
        &&& self.items@.len() <= self.cap
        &&& self.cap >= 1
    }

    /// An empty queue bounded at `cap` batches.
    pub fn new(cap: usize) -> (q: BoundedQueue<T>)
        requires
            cap >= 1,
        ensures
            q.wf(),
            q.items@.len() == 0,
            q.cap == cap,
    {
        BoundedQueue { items: Vec::new(), cap }
    }

    /// Offer one batch: appended at the back when the queue is below its
    /// bound, refused (and the queue left untouched) when it is full.  A
    /// producer whose send is refused must try again once the consumer has
    /// drained; the surrounding runtime turns that retry into suspension.
    pub fn try_send(&mut self, x: T) -> (sent: bool)
        requires
            old(self).wf(),
        ensures
            final(self).wf(),
            final(self).cap == old(self).cap,
            sent == can_send(*old(self)),
            sent ==> final(self).items@ == old(self).items@.push(x),
            !sent ==> *final(self) == *old(self),
    {
        if self.items.len() < self.cap {
            self.items.push(x);
            true
        } else {
            false
        }
    }

    /// Take the oldest batch: the front when the queue is nonempty, and
    /// nothing (the queue left untouched) when it is empty.  Batches come
    /// out in the order they went in.
    pub fn try_recv(&mut self) -> (r: Option<T>)
        requires
            old(self).wf(),
        ensures
            final(self).wf(),
            final(self).cap == old(self).cap,
            match r {
                Some(x) => old(self).items@.len() > 0 && x == old(self).items@[0]
                    && final(self).items@ == old(self).items@.drop_first(),
                None => old(self).items@.len() == 0 && *final(self) == *old(self),
            },
    {
        if self.items.len() == 0 {
            None
        } else {
            let x = self.items.remove(0);
            Some(x)
        }
    }

    /// How many batches are buffered.
    pub fn len(&self) -> (n: usize)
        ensures
            n == self.items@.len(),
    {
        self.items.len()
    }
}

/// Backpressure: a queue buffering as many batches as its bound admits no
/// send, and once the consumer has drained one batch a send is admitted
/// again.  A producer offering a batch to a full queue therefore waits
/// exactly until the consumer takes at least one batch out.
pub proof fn lemma_backpressure<T>(full: BoundedQueue<T>, drained: BoundedQueue<T>)
    requires
        full.wf(),
        full.items@.len() == full.cap,
        drained.cap == full.cap,
        drained.items@ == full.items@.drop_first(),
    ensures
        !can_send(full),
        can_send(drained),
{
}

} // verus!
