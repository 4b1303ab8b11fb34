//! The bounded hand-off queue between the ingestion side and the consumer:
//! a fixed-capacity FIFO with a non-blocking push that drops the incoming
//! entry when the queue is full — lossy under overload by design.

use vstd::prelude::*;

use ringbuf::traits::Consumer;
use ringbuf::traits::Observer;
use ringbuf::traits::Producer;

use crate::log_item::LogItem;

verus! {

/// Bounded FIFO hand-off buffer, backed by ringbuf's heap ring buffer.
#[verifier::external_body]
pub struct HandoffQueue {
    rb: ringbuf::HeapRb<LogItem>,
}

/// The entries currently buffered, oldest first.
pub uninterp spec fn queue_entries(q: HandoffQueue) -> Seq<LogItem>;

/// The fixed capacity the queue was created with.
pub uninterp spec fn queue_capacity(q: HandoffQueue) -> nat;

impl HandoffQueue {
    /// Relies on `HeapRb::new`: an empty ring buffer of exactly the given
    /// capacity; the capacity must not be zero.
    #[verifier::external_body]
    pub fn new(capacity: usize) -> (r: HandoffQueue)
        requires
            capacity >= 1,
        ensures
            queue_entries(r) == Seq::<LogItem>::empty(),
            queue_capacity(r) == capacity,
    {
        HandoffQueue { rb: ringbuf::HeapRb::new(capacity) }
    }

    /// Relies on `Producer::try_push`: appends the item when there is room
    /// and returns whether it was accepted; a full buffer rejects the item
    /// and keeps its contents, without blocking.
    #[verifier::external_body]
    pub fn try_push(&mut self, item: LogItem) -> (r: bool)
        ensures
            queue_capacity(*final (self)) == queue_capacity(*old(self)),
            r == (queue_entries(*old(self)).len() < queue_capacity(*old(self))),
            r ==> queue_entries(*final (self)) == queue_entries(*old(self)).push(item),
            !r ==> queue_entries(*final (self)) == queue_entries(*old(self)),
    {
        self.rb.try_push(item).is_ok()
    }

    /// Relies on `Consumer::try_pop`: removes and returns the oldest entry,
    /// or `None` when the buffer is empty, without blocking.
    #[verifier::external_body]
    pub fn try_pop(&mut self) -> (r: Option<LogItem>)
        ensures
            queue_capacity(*final (self)) == queue_capacity(*old(self)),
            queue_entries(*old(self)).len() == 0 ==> r is None && queue_entries(*final (self))
                == queue_entries(*old(self)),
            queue_entries(*old(self)).len() > 0 ==> r == Some(queue_entries(*old(self))[0])
                && queue_entries(*final (self)) == queue_entries(*old(self)).drop_first(),
    {
        self.rb.try_pop()
    }

    /// Relies on `Observer::occupied_len`: the number of buffered entries.
    #[verifier::external_body]
    pub fn len(&self) -> (r: usize)
        ensures
            r == queue_entries(*self).len(),
    {
        self.rb.occupied_len()
    }

    /// Relies on `Observer::capacity`: the fixed capacity.
    #[verifier::external_body]
    pub fn capacity(&self) -> (r: usize)
        ensures
            r == queue_capacity(*self),
    {
        self.rb.capacity().get()
    }
}

/// Overflow drops, never blocks: pushing a whole batch returns normally,
/// entries are appended in order while room remains, the overflow is
/// dropped, and the queue never grows past its capacity.
pub fn enqueue_all(q: &mut HandoffQueue, items: Vec<LogItem>) -> (dropped: usize)
    requires
        queue_entries(*old(q)).len() <= queue_capacity(*old(q)),
    ensures
        queue_capacity(*final (q)) == queue_capacity(*old(q)),
        queue_entries(*final (q)).len() <= queue_capacity(*old(q)),
        dropped <= items@.len(),
        queue_entries(*final (q)) == queue_entries(*old(q)) + items@.take(
            items@.len() - dropped as int,
        ),
        (dropped as int) == if queue_entries(*old(q)).len() + items@.len() <= queue_capacity(
            *old(q),
        ) {
            0
        } else {
            queue_entries(*old(q)).len() + items@.len() - queue_capacity(*old(q))
        },
{
    let ghost entries0 = queue_entries(*old(q));
    let ghost cap0 = queue_capacity(*old(q));
    let ghost items0 = items@;
    let mut rest = items;
    let mut dropped: usize = 0;
    proof {
        assert(entries0 + items0.take(0) =~= entries0);
        assert(rest.len() == items0.len());
    }
    while rest.len() > 0
        invariant
            items0.len() <= usize::MAX,
            queue_capacity(*q) == cap0,
            queue_entries(*q).len() <= cap0,
            rest@.len() <= items0.len(),
            dropped <= items0.len() - rest@.len(),
            rest@ == items0.skip(items0.len() - rest@.len()),
            queue_entries(*q) == entries0 + items0.take(
                items0.len() - rest@.len() - dropped as int,
            ),
            dropped > 0 ==> queue_entries(*q).len() == cap0,
            queue_entries(*q).len() == entries0.len() + (items0.len() - rest@.len() - dropped),
        decreases rest@.len(),
    {
        let ghost processed = items0.len() - rest@.len();
        let item = rest.remove(0);
        proof {
            assert(item == items0[processed as int]);
            assert(rest@ =~= items0.skip(processed + 1));
        }
        let accepted = q.try_push(item);
        if accepted {
            proof {
                let taken = items0.len() - rest@.len() - 1 - dropped as int;
                assert(items0.take(taken + 1) =~= items0.take(taken).push(items0[taken]));
                assert(taken == processed - dropped);
                assert(dropped == 0) by {
                    if dropped > 0 {
                        assert(queue_entries(*q).len() == cap0 + 1);
                    }
                }
                assert(items0[taken] == item);
                assert(entries0 + items0.take(taken).push(item) =~= (entries0 + items0.take(taken))
                    + seq![item]);
                assert(queue_entries(*q) =~= entries0 + items0.take(taken + 1));
            }
        } else {
            dropped = dropped + 1;
        }
    }
    proof {
        assert(rest@.len() == 0);
        let accepted_n = items0.len() - dropped as int;
        if queue_entries(*q).len() < cap0 {
            assert(dropped == 0);
        }
    }
    dropped
}

} // verus!
