//! The mailbox between the threads that complete I/O and the thread that
//! serves a stream.

use vstd::prelude::*;

verus! {

/// A mailbox for events flowing from I/O threads to the worker thread.
///
/// A scheduled wake-up cannot carry a payload: producers push the event here
/// and then schedule the wake-up, and the worker drains the mailbox. Optimized
/// for the common case of a single pending event (no allocation). Callers that
/// share it between threads guard it with a lock, and release the lock before
/// they work on what they drained.
pub enum EventBridge<T> {
    Closed,
    Empty,
    Single(T),
    Multiple(Vec<T>),
}

impl<T> EventBridge<T> {
    /// Whether the bridge takes events.
    pub open spec fn is_open(self) -> bool {
        self !is Closed
    }

    /// The pending events, oldest first.
    pub open spec fn pending(self) -> Seq<T> {
        match self {
            EventBridge::Closed => seq![],
            EventBridge::Empty => seq![],
            EventBridge::Single(event) => seq![event],
            EventBridge::Multiple(events) => events@,
        }
    }

    /// An open bridge without events.
    pub fn new() -> (res: Self)
        ensures
            res.is_open(),
            res.pending() == Seq::<T>::empty(),
    {
        EventBridge::Empty
    }

    /// Sends an event on the bridge. Fails once the bridge is closed, which
    /// is the cancellation fence for aborted streams: the caller drops the
    /// returned event (and any owned buffers in it) on its own thread.
    pub fn send(&mut self, event: T) -> (res: Result<(), T>)
        ensures
            old(self).is_open() ==> res is Ok && final(self).is_open() && final(self).pending()
                == old(self).pending().push(event),
            !old(self).is_open() ==> res == Err::<(), T>(event) && *final(self) == *old(self),
    {
        let ghost before = self.pending();
        let mut taken = EventBridge::Closed;
        std::mem::swap(self, &mut taken);
        match taken {
            EventBridge::Closed => Err(event),
            EventBridge::Empty => {
                *self = EventBridge::Single(event);
                assert(self.pending() =~= before.push(event));
                Ok(())
            },
            EventBridge::Single(first) => {
                let mut events: Vec<T> = Vec::new();
                events.push(first);
                events.push(event);
                *self = EventBridge::Multiple(events);
                assert(self.pending() =~= before.push(event));
                Ok(())
            },
            EventBridge::Multiple(mut events) => {
                events.push(event);
                *self = EventBridge::Multiple(events);
                assert(self.pending() =~= before.push(event));
                Ok(())
            },
        }
    }

    /// Drains all pending events, oldest first. A closed bridge stays closed.
    pub fn process(&mut self) -> (res: Vec<T>)
        ensures
            res@ == old(self).pending(),
            final(self).pending() == Seq::<T>::empty(),
            final(self).is_open() == old(self).is_open(),
    {
        let ghost before = self.pending();
        let mut taken = EventBridge::Closed;
        std::mem::swap(self, &mut taken);
        let mut events: Vec<T> = Vec::new();
        match taken {
            EventBridge::Closed => {},
            EventBridge::Empty => {
                *self = EventBridge::Empty;
            },
            EventBridge::Single(event) => {
                *self = EventBridge::Empty;
                events.push(event);
            },
            EventBridge::Multiple(pending) => {
                *self = EventBridge::Empty;
                events = pending;
            },
        }
        assert(events@ =~= before);
        events
    }

    /// Closes the bridge. Further `send` calls fail, and pending events are
    /// dropped.
    pub fn close(&mut self)
        ensures
            !final(self).is_open(),
            final(self).pending() == Seq::<T>::empty(),
    {
        *self = EventBridge::Closed;
    }
}

/// The pending events are all that the bridge holds, and a closed one holds
/// none.
pub proof fn law_pending_events_are_all_that_is_held<T>(event: T, events: Vec<T>)
    ensures
        EventBridge::<T>::Closed.pending().len() == 0 && !EventBridge::<T>::Closed.is_open(),
        EventBridge::<T>::Empty.pending().len() == 0 && EventBridge::<T>::Empty.is_open(),
        EventBridge::Single(event).pending() == seq![event] && EventBridge::Single(
            event,
        ).is_open(),
        EventBridge::Multiple(events).pending() == events@ && EventBridge::Multiple(
            events,
        ).is_open(),
{
}

} // verus!
