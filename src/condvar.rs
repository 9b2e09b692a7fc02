//! Condition variable that works with a lock the caller holds. Signals are
//! not remembered: one sent while nobody waits is lost.
use std::collections::VecDeque;
use vstd::prelude::*;
use crate::ledger::{granted, Ledger};
use crate::mutex::{Mutex, UnlockStep};

verus! {

pub struct Condvar {
    /// Tasks waiting for a signal, oldest first.
    pub wait_queue: VecDeque<usize>,
}

impl Condvar {
    pub fn new() -> (c: Self)
        ensures
            c.wait_queue@.len() == 0,
    {
        Condvar { wait_queue: VecDeque::new() }
    }

    /// Wakes the oldest waiter, if any, and returns it.
    pub fn signal(&mut self) -> (w: Option<usize>)
        ensures
            old(self).wait_queue@.len() > 0 ==> w == Some(old(self).wait_queue@[0])
                && final(self).wait_queue@ == old(self).wait_queue@.drop_first(),
            old(self).wait_queue@.len() == 0 ==> w.is_none() && final(self).wait_queue@
                == old(self).wait_queue@,
    {
        self.wait_queue.pop_front()
    }

    /// Releases `mutex`, ledger slot `slot`, as its `unlock` does, and
    /// queues task `tid`. The caller does not hold the lock again when it
    /// is woken.
    pub fn wait<M: Mutex>(&mut self, mutex: &mut M, ledger: &mut Ledger, slot: usize, tid: usize) -> (s: UnlockStep)
        requires
            old(mutex).queues() ==> old(mutex).is_locked(),
            old(ledger).wf(),
            slot < old(ledger).slots(),
            old(mutex).waiters().len() > 0 ==> old(ledger).available@[slot as int] >= 1,
        ensures
            final(self).wait_queue@ == old(self).wait_queue@.push(tid),
            final(mutex).queues() == old(mutex).queues(),
            old(mutex).waiters().len() == 0 ==> s == UnlockStep::Released && !final(mutex).is_locked()
                && final(mutex).waiters() == old(mutex).waiters() && *final(ledger) == *old(ledger),
            old(mutex).waiters().len() > 0 ==> s == UnlockStep::HandedOff(old(mutex).waiters()[0])
                && final(mutex).is_locked()
                && final(mutex).waiters() == old(mutex).waiters().drop_first()
                && granted(*old(ledger), *final(ledger), old(mutex).waiters()[0] as int, slot as int),
    {
        let s = mutex.unlock(ledger, slot);
        self.wait_queue.push_back(tid);
        s
    }
}

} // verus!
