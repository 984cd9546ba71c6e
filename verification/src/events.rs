//! Event model: decoded keyboard keys, the events the application loop
//! consumes, and a strict-FIFO event queue fed by the producers.

use vstd::prelude::*;

verus! {

/// A decoded keyboard key, as far as the application distinguishes keys.
#[derive(Clone, Copy, PartialEq, Eq, Structural, Debug)]
pub enum Key {
    Char(char),
    Left,
    Right,
    Up,
    Down,
    Other,
}

/// One event consumed by the application loop.
#[derive(Clone, Copy, PartialEq, Eq, Structural, Debug)]
pub enum Event {
    KeyPress(Key),
    Tick,
}

/// An ordered, unbounded event queue: producers append at the back, the one
/// consumer takes from the front, so events come out in arrival order.
pub struct EventQueue {
    items: Vec<Event>,
}

impl EventQueue {
    /// The queued events, front first.
    pub closed spec fn view(self) -> Seq<Event> {
        self.items@
    }

    /// An empty queue.
    pub fn new() -> (q: EventQueue)
        ensures
            q@ == Seq::<Event>::empty(),
    {
        EventQueue { items: Vec::new() }
    }

    pub fn len(&self) -> (n: usize)
        ensures
            n == self@.len(),
    {
        self.items.len()
    }

    /// Append one event at the back of the queue.
    pub fn push(&mut self, e: Event)
        ensures
            final(self)@ == old(self)@.push(e),
    {
        self.items.push(e);
    }

    /// Take the oldest queued event, if any.
    pub fn pop(&mut self) -> (r: Option<Event>)
        ensures
            old(self)@.len() == 0 ==> r is None && final(self)@ == old(self)@,
            old(self)@.len() > 0 ==> r == Some(old(self)@[0]) && final(self)@ == old(
                self,
            )@.drop_first(),
    {
        if self.items.len() == 0 {
            None
        } else {
            let e = self.items.remove(0);
            proof {
                assert(self@ =~= old(self)@.drop_first());
            }
            Some(e)
        }
    }
}

} // verus!
