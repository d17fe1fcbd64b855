//! The watch over a stream that ends it when nothing came between two ticks
//! of a timer.

use vstd::prelude::*;

verus! {

/// Whether something came since the last tick.
#[derive(Debug)]
pub struct TimeoutStream {
    got_something: bool,
}

impl TimeoutStream {
    /// Whether something came since the last tick.
    pub closed spec fn fresh(&self) -> bool {
        self.got_something
    }

    /// A watch over a stream from which nothing came yet.
    pub fn new() -> (r: TimeoutStream)
        ensures
            !r.fresh(),
    {
        TimeoutStream { got_something: false }
    }

    /// Notes that the stream gave something.
    pub fn item(&mut self)
        ensures
            final(self).fresh(),
    {
        self.got_something = true;
    }

    /// Takes in a tick of the timer and says whether the stream has timed
    /// out: nothing came since the tick before. From now on, nothing has
    /// come since the last tick.
    pub fn tick(&mut self) -> (timed_out: bool)
        ensures
            timed_out == !old(self).fresh(),
            !final(self).fresh(),
    {
        let timed_out: bool = !self.got_something;
        self.got_something = false;
        timed_out
    }
}

} // verus!
