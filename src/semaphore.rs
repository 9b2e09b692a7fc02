//! Counting semaphore that hands a released unit straight to the oldest
//! waiter instead of raising the count.
use std::collections::VecDeque;
use vstd::prelude::*;

verus! {

/// What a `down` asks of the scheduler.
#[derive(PartialEq, Eq, Structural, Clone, Copy, Debug)]
pub enum DownStep {
    /// The caller took a unit.
    Acquired,
    /// No unit was free and the caller was queued: block it.
    Blocked,
}

pub struct Semaphore {
    /// Free units.
    pub count: usize,
    /// Tasks waiting for a unit, oldest first.
    pub wait_queue: VecDeque<usize>,
}

impl Semaphore {
    pub fn new(count: usize) -> (s: Self)
        ensures
            s.count == count,
            s.wait_queue@.len() == 0,
    {
        Semaphore { count, wait_queue: VecDeque::new() }
    }

    /// Takes a unit for task `tid`, or queues it.
    pub fn down(&mut self, tid: usize) -> (s: DownStep)
        ensures
            old(self).count > 0 ==> s == DownStep::Acquired && final(self).count == old(self).count - 1
                && final(self).wait_queue@ == old(self).wait_queue@,
            old(self).count == 0 ==> s == DownStep::Blocked && final(self).count == 0
                && final(self).wait_queue@ == old(self).wait_queue@.push(tid),
    {
        if self.count > 0 {
            self.count = self.count - 1;
            DownStep::Acquired
        } else {
            self.wait_queue.push_back(tid);
            DownStep::Blocked
        }
    }

    /// Gives a unit back: to the oldest waiter, who is returned, or to the
    /// count when nobody waits.
    pub fn up(&mut self) -> (w: Option<usize>)
        requires
            old(self).count < usize::MAX,
        ensures
            old(self).wait_queue@.len() > 0 ==> w == Some(old(self).wait_queue@[0])
                && final(self).count == old(self).count
                && final(self).wait_queue@ == old(self).wait_queue@.drop_first(),
            old(self).wait_queue@.len() == 0 ==> w.is_none() && final(self).count == old(self).count + 1
                && final(self).wait_queue@ == old(self).wait_queue@,
    {
        match self.wait_queue.pop_front() {
            Some(t) => Some(t),
            None => {
                self.count = self.count + 1;
                None
            },
        }
    }
}

} // verus!
