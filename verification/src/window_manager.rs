//! The window manager's events, and the bounded queue through which the rest of the kernel
//! sends them.

use vstd::prelude::*;

verus! {

/// How many events wait for the window manager at most.
pub const EVENT_QUEUE_CAPACITY: usize = 128;

/// An event for the window manager.
#[derive(Clone, Copy, Debug, PartialEq, Eq, Structural)]
pub enum Event {
    /// The clock should be redrawn.
    ClockUpdate,
}

#[verifier::external_type_specification]
#[verifier::external_body]
#[verifier::reject_recursive_types(T)]
pub struct ExArrayQueue<T>(crossbeam_queue::ArrayQueue<T>);

/// The events a queue holds, oldest first.
pub uninterp spec fn queued_events(queue: crossbeam_queue::ArrayQueue<Event>) -> Seq<Event>;

/// How many events a queue holds at most.
pub uninterp spec fn queue_capacity(queue: crossbeam_queue::ArrayQueue<Event>) -> nat;

/// `crossbeam_queue::ArrayQueue::new`: an empty queue of `cap` slots. It panics on a zero
/// capacity, or one whose successor has no power of two in `usize`.
#[verifier::external_body]
fn array_queue_new(cap: usize) -> (r: crossbeam_queue::ArrayQueue<Event>)
    requires
        0 < cap <= usize::MAX / 2,
    ensures
        queued_events(r) == Seq::<Event>::empty(),
        queue_capacity(r) == cap,
{
    crossbeam_queue::ArrayQueue::new(cap)
}

/// `crossbeam_queue::ArrayQueue::push`: the event goes last, unless the queue is full, and
/// then it comes back.
#[verifier::external_body]
fn array_queue_push(queue: &mut crossbeam_queue::ArrayQueue<Event>, event: Event) -> (r: Result<(), Event>)
    ensures
        r is Ok <==> queued_events(*old(queue)).len() < queue_capacity(*old(queue)),
        r is Ok ==> queued_events(*final(queue)) == queued_events(*old(queue)).push(event)
            && queue_capacity(*final(queue)) == queue_capacity(*old(queue)),
        r is Err ==> (r matches Err(e) && e == event) && queued_events(*final(queue))
            == queued_events(*old(queue)) && queue_capacity(*final(queue)) == queue_capacity(
            *old(queue),
        ),
{
    queue.push(event)
}

/// `crossbeam_queue::ArrayQueue::pop`: the oldest event, if there is one.
#[verifier::external_body]
fn array_queue_pop(queue: &mut crossbeam_queue::ArrayQueue<Event>) -> (r: Option<Event>)
    ensures
        r is None <==> queued_events(*old(queue)).len() == 0,
        r is None ==> queued_events(*final(queue)) == queued_events(*old(queue))
            && queue_capacity(*final(queue)) == queue_capacity(*old(queue)),
        r is Some ==> r == Some(queued_events(*old(queue))[0]) && queued_events(*final(queue))
            == queued_events(*old(queue)).drop_first() && queue_capacity(*final(queue))
            == queue_capacity(*old(queue)),
{
    queue.pop()
}

/// The queue of events that wait for the window manager.
pub struct EventQueue {
    queue: crossbeam_queue::ArrayQueue<Event>,
}

impl EventQueue {
    /// The events waiting, oldest first.
    pub closed spec fn events(&self) -> Seq<Event> {
        queued_events(self.queue)
    }

    /// How many events can wait.
    pub closed spec fn capacity(&self) -> nat {
        queue_capacity(self.queue)
    }

    /// An empty queue of [`EVENT_QUEUE_CAPACITY`] events.
    pub fn new() -> (r: Self)
        ensures
            r.events() == Seq::<Event>::empty(),
            r.capacity() == EVENT_QUEUE_CAPACITY,
    {
        EventQueue { queue: array_queue_new(EVENT_QUEUE_CAPACITY) }
    }

    /// Sends an event to the window manager; returns whether it was queued, which it is unless
    /// the queue is full, and then the event is missed.
    pub fn send_event(&mut self, event: Event) -> (r: bool)
        ensures
            final(self).capacity() == old(self).capacity(),
            r == (old(self).events().len() < old(self).capacity()),
            r ==> final(self).events() == old(self).events().push(event),
            !r ==> final(self).events() == old(self).events(),
    {
        array_queue_push(&mut self.queue, event).is_ok()
    }

    /// The oldest event waiting, taken off the queue.
    pub fn next_event(&mut self) -> (r: Option<Event>)
        ensures
            final(self).capacity() == old(self).capacity(),
            old(self).events().len() == 0 ==> r is None && final(self).events() == old(self).events(),
            old(self).events().len() > 0 ==> r == Some(old(self).events()[0]) && final(self).events()
                == old(self).events().drop_first(),
    {
        array_queue_pop(&mut self.queue)
    }
}

} // verus!
