//! The application context handed to user views: a queue of messages that
//! the owning thread drains once per tick and applies with one rebuild pass.

use std::collections::VecDeque;
use vstd::prelude::*;

verus! {

/// Collects messages posted by user code; the application shell drains them
/// on its own thread and triggers rebuilds.
pub struct AppCtx<M> {
    msg_queue: VecDeque<M>,
}

impl<M> AppCtx<M> {
    /// The messages waiting to be drained, oldest first.
    pub closed spec fn queue(&self) -> Seq<M> {
        self.msg_queue@
    }

    /// An empty context.
    pub fn new() -> (c: AppCtx<M>)
        ensures
            c.queue() == Seq::<M>::empty(),
    {
        AppCtx { msg_queue: VecDeque::new() }
    }

    /// Posts a message; it is delivered when the owning thread next drains
    /// the queue.
    pub fn msg(&mut self, msg: M)
        ensures
            final(self).queue() == old(self).queue().push(msg),
    {
        self.msg_queue.push_back(msg);
    }

    /// Takes the oldest pending message, if any.
    pub fn next_msg(&mut self) -> (m: Option<M>)
        ensures
            old(self).queue().len() == 0 ==> m is None && final(self).queue() == old(self).queue(),
            old(self).queue().len() > 0 ==> m == Some(old(self).queue()[0]) && final(self).queue()
                == old(self).queue().skip(1),
    {
        let m = self.msg_queue.pop_front();
        proof {
            if old(self).queue().len() > 0 {
                assert(final(self).queue() =~= old(self).queue().skip(1));
            }
        }
        m
    }

    /// How many messages are pending.
    pub fn msg_count(&self) -> (n: usize)
        ensures
            n == self.queue().len(),
    {
        self.msg_queue.len()
    }
}

} // verus!
